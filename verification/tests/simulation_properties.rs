use swarm_it::Carrier;
use swarm_it::Payload;
use swarm_it::Slot;
use swarm_it::SlotKind;
use swarm_it::State;
use swarm_it::Swarm;
use swarm_it::trig::bearing_mrad;
use swarm_it::trig::cos_mrad;
use swarm_it::trig::sin_mrad;

#[test]
fn balance_ledger_example() {
    // The ledger for slots [(A,C),(C,A),(E,E),(E,F),(None,G),(None,G)]
    // is {E: 1, F: -1, G: -2}; A and C must be absent.
    let mut game = Swarm::new();
    game.add_slot(Slot::new(
        0,
        0,
        Some(Payload::new('A' as u64)),
        Some(Payload::new('C' as u64)),
        SlotKind::CLASSIC,
    ));
    game.add_slot(Slot::new(
        0,
        0,
        Some(Payload::new('C' as u64)),
        Some(Payload::new('A' as u64)),
        SlotKind::CLASSIC,
    ));
    game.add_slot(Slot::new(
        0,
        0,
        Some(Payload::new('E' as u64)),
        Some(Payload::new('E' as u64)),
        SlotKind::CLASSIC,
    ));
    game.add_slot(Slot::new(
        0,
        0,
        Some(Payload::new('E' as u64)),
        Some(Payload::new('F' as u64)),
        SlotKind::CLASSIC,
    ));
    game.add_slot(Slot::new(
        0,
        0,
        None,
        Some(Payload::new('G' as u64)),
        SlotKind::CLASSIC,
    ));
    game.add_slot(Slot::new(
        0,
        0,
        None,
        Some(Payload::new('G' as u64)),
        SlotKind::CLASSIC,
    ));
    game.slot_data_changed();

    assert_eq!(game.dispatcher.get_cargo_balance('A' as u64), None);
    assert_eq!(game.dispatcher.get_cargo_balance('C' as u64), None);
    assert_eq!(game.dispatcher.get_cargo_balance('E' as u64), Some(1));
    assert_eq!(game.dispatcher.get_cargo_balance('F' as u64), Some(-1));
    assert_eq!(game.dispatcher.get_cargo_balance('G' as u64), Some(-2));
}

#[test]
fn bearing_cardinal_points() {
    assert_eq!(bearing_mrad(100, 0), 0);
    assert_eq!(bearing_mrad(0, 100), 1571);
    assert_eq!(bearing_mrad(-5, 0), 3142);
    assert_eq!(bearing_mrad(0, -5), 4712);
    assert_eq!(bearing_mrad(0, 0), 0);
}

#[test]
fn sine_and_cosine_landmarks() {
    assert_eq!(sin_mrad(0), 0);
    assert_eq!(sin_mrad(1571), 1000);
    assert_eq!(sin_mrad(3142), 0);
    assert_eq!(cos_mrad(0), 1000);
    assert_eq!(sin_mrad(4712), -999);
}

#[test]
fn arrival_convergence() {
    // With positive acceleration and a positive speed cap, a carrier sent
    // to a fixed slot gets within a few units of it in a bounded number of
    // ticks, standing still on arrival.
    let mut game = Swarm::new();
    game.add_carrier(Carrier::new(0, 0));
    game.add_slot(Slot::new(
        150_000,
        0,
        Some(Payload::new('X' as u64)),
        None,
        SlotKind::CLASSIC,
    ));
    game.add_slot(Slot::new(
        0,
        150_000,
        None,
        Some(Payload::new('X' as u64)),
        SlotKind::CLASSIC,
    ));

    let mut picked_up = false;
    for _ in 0..200 {
        game.tick();
        if game.get_carriers()[0].get_payload().is_some() {
            picked_up = true;
            break;
        }
    }
    assert!(picked_up);
    let pos = *game.get_carriers()[0].get_position();
    // Within 10 units of the slot at (150, 0).
    assert!((pos.x - 150_000).abs() <= 10_000);
    assert!(pos.y.abs() <= 10_000);
}

#[test]
fn round_trip() {
    // A payload picked from slot 0 and delivered to the matching slot 1
    // leaves slot 0 empty, slot 1 holding the payload, both reservation
    // flags cleared, and the carrier idle with empty hands.
    let mut game = Swarm::new();
    game.add_carrier(Carrier::new(0, 0));
    game.add_slot(Slot::new(
        100_000,
        50_000,
        Some(Payload::new('Q' as u64)),
        None,
        SlotKind::CLASSIC,
    ));
    game.add_slot(Slot::new(
        50_000,
        100_000,
        None,
        Some(Payload::new('Q' as u64)),
        SlotKind::CLASSIC,
    ));

    let mut finished = false;
    for _ in 0..500 {
        if game.tick() {
            finished = true;
            break;
        }
    }
    assert!(finished);
    let slots = game.get_slots();
    assert_eq!(slots[0].get_payloads()[0], None);
    assert_eq!(slots[1].get_payloads()[0], Some(Payload::new('Q' as u64)));
    assert!(!slots[0].is_taken_care_of());
    assert!(!slots[1].is_taken_care_of());
    let carrier = &game.get_carriers()[0];
    assert_eq!(carrier.get_state(), State::IDLE);
    assert_eq!(carrier.get_payload(), None);
}

#[test]
fn end_to_end_two_carriers() {
    // Two carriers; slot 0 holds 'X' and wants nothing, slot 1 is empty
    // and wants 'X'. After enough ticks slot 0 is empty, slot 1 holds 'X'
    // and both carriers are idle.
    let mut game = Swarm::new();
    game.add_carrier(Carrier::new(10_000, 10_000));
    game.add_carrier(Carrier::new(20_000, 10_000));
    game.add_slot(Slot::new(
        120_000,
        40_000,
        Some(Payload::new('X' as u64)),
        None,
        SlotKind::CLASSIC,
    ));
    game.add_slot(Slot::new(
        40_000,
        120_000,
        None,
        Some(Payload::new('X' as u64)),
        SlotKind::CLASSIC,
    ));

    let mut finished = false;
    for _ in 0..500 {
        if game.tick() {
            finished = true;
            break;
        }
    }
    assert!(finished);
    let slots = game.get_slots();
    assert_eq!(slots[0].get_payloads()[0], None);
    assert_eq!(slots[1].get_payloads()[0], Some(Payload::new('X' as u64)));
    assert_eq!(game.get_carriers()[0].get_state(), State::IDLE);
    assert_eq!(game.get_carriers()[1].get_state(), State::IDLE);
}

#[test]
fn no_return_to_origin_slot() {
    // The destination searches never propose the slot a payload was taken
    // from: with slot 1 both empty and wanting 'A', a payload lifted out
    // of slot 1 is offered slot 2 instead.
    let game = Swarm::new();
    let dispatcher = &game.dispatcher;
    let slots = vec![
        Slot::new(0, 0, None, None, SlotKind::CLASSIC),
        Slot::new(
            10_000,
            0,
            None,
            Some(Payload::new('A' as u64)),
            SlotKind::CLASSIC,
        ),
        Slot::new(
            20_000,
            0,
            None,
            Some(Payload::new('A' as u64)),
            SlotKind::CLASSIC,
        ),
    ];
    let mut lifted = Payload::new('A' as u64);
    lifted.taken_from = Some(1);
    assert_eq!(
        dispatcher.find_slot_for_target(&slots, Some(lifted)),
        Some(2)
    );
}

#[test]
fn temporary_parking() {
    // Two slots want each other's payload and no third storage is free for
    // 'X' yet: the carrier parks 'X' in the empty slot for a while, and
    // the swap completes from there.
    let mut game = Swarm::new();
    game.add_carrier(Carrier::new(0, 0));
    game.add_slot(Slot::new(
        100_000,
        0,
        Some(Payload::new('X' as u64)),
        Some(Payload::new('Y' as u64)),
        SlotKind::CLASSIC,
    ));
    game.add_slot(Slot::new(
        140_000,
        0,
        Some(Payload::new('Y' as u64)),
        Some(Payload::new('X' as u64)),
        SlotKind::CLASSIC,
    ));
    game.add_slot(Slot::new(200_000, 0, None, None, SlotKind::CLASSIC));

    let mut parked = false;
    let mut finished = false;
    for _ in 0..600 {
        finished = game.tick();
        if game.get_slots()[2].get_payloads()[0] == Some(Payload::new('X' as u64)) {
            parked = true;
        }
        if finished {
            break;
        }
    }
    assert!(parked);
    assert!(finished);
    assert_eq!(
        game.get_slots()[0].get_payloads()[0],
        Some(Payload::new('Y' as u64))
    );
    assert_eq!(
        game.get_slots()[1].get_payloads()[0],
        Some(Payload::new('X' as u64))
    );
}

#[test]
fn retarget_from_temporary_to_permanent() {
    // While a carrier is moving toward a temporary parking place, a slot
    // that wants the carried payload appears: the carrier is redirected to
    // it at once, and the old parking place is released.
    let mut game = Swarm::new();
    game.add_carrier(Carrier::new(0, 0));
    game.add_slot(Slot::new(
        100_000,
        0,
        Some(Payload::new('X' as u64)),
        Some(Payload::new('Y' as u64)),
        SlotKind::CLASSIC,
    ));
    game.add_slot(Slot::new(
        140_000,
        0,
        Some(Payload::new('Y' as u64)),
        Some(Payload::new('X' as u64)),
        SlotKind::CLASSIC,
    ));
    game.add_slot(Slot::new(120_000, 0, None, None, SlotKind::CLASSIC));
    game.add_slot(Slot::new(300_000, 0, None, None, SlotKind::CLASSIC));

    // Wait until the carrier is moving its payload to the parking slot 2.
    let mut moving_temporarily = false;
    for _ in 0..300 {
        game.tick();
        let carrier = &game.get_carriers()[0];
        if carrier.temporary_target && carrier.get_state() == State::MOVING(2) {
            moving_temporarily = true;
            break;
        }
    }
    assert!(moving_temporarily);

    // Now slot 3 starts wanting 'X'.
    game.get_slots_mut()[3].set_target_payload(Some(Payload::new('X' as u64)));
    game.slot_data_changed();
    game.tick();

    let carrier = &game.get_carriers()[0];
    assert_eq!(carrier.get_target(), Some(3));
    assert!(!game.get_slots()[2].is_taken_care_of());
    assert!(game.get_slots()[3].is_taken_care_of());
}

#[test]
fn spawner_supplies_deficit() {
    // A slot wants 'Z' but no slot holds one: the carrier fetches a fresh
    // 'Z' from the spawner and delivers it.
    let mut game = Swarm::new();
    game.add_carrier(Carrier::new(0, 0));
    game.add_slot(Slot::new(
        80_000,
        20_000,
        None,
        Some(Payload::new('Z' as u64)),
        SlotKind::CLASSIC,
    ));
    game.add_slot(Slot::new(20_000, 80_000, None, None, SlotKind::SPAWNER));

    let mut finished = false;
    for _ in 0..500 {
        if game.tick() {
            finished = true;
            break;
        }
    }
    assert!(finished);
    assert_eq!(
        game.get_slots()[0].get_payloads()[0],
        Some(Payload::new('Z' as u64))
    );
}

#[test]
fn pit_disposes_surplus() {
    // A surplus payload with no home is carried to the pit and vanishes.
    let mut game = Swarm::new();
    game.add_carrier(Carrier::new(0, 0));
    game.add_slot(Slot::new(
        60_000,
        10_000,
        Some(Payload::new('W' as u64)),
        None,
        SlotKind::CLASSIC,
    ));
    game.add_slot(Slot::new(10_000, 60_000, None, None, SlotKind::PIT));

    let mut finished = false;
    for _ in 0..500 {
        if game.tick() {
            finished = true;
            break;
        }
    }
    assert!(finished);
    assert_eq!(game.get_slots()[0].get_payloads()[0], None);
    assert_eq!(game.get_slots()[1].get_payloads()[0], None);
    assert_eq!(game.get_carriers()[0].get_payload(), None);
}
