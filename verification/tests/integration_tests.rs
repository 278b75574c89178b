use swarm_it::Carrier;
use swarm_it::Payload;
use swarm_it::Slot;
use swarm_it::SlotKind;
use swarm_it::State;
use swarm_it::Swarm;

#[test]
fn conduct_to_targetting() {
    let mut game = Swarm::new();

    game.add_carrier(Carrier::new(0, 0));
    game.add_carrier(Carrier::new(0, 0));
    game.add_slot(Slot::new(
        100_000,
        100_000,
        Some(Payload::new('X' as u64)),
        None,
        SlotKind::CLASSIC,
    ));
    game.add_slot(Slot::new(
        100_000,
        100_000,
        None,
        Some(Payload::new('X' as u64)),
        SlotKind::CLASSIC,
    ));

    game.tick();

    // The first carrier should be targeting the slot holding 'X'.
    let state = game.get_carriers()[0].get_state();
    if let State::TARGETING(target) = state {
        assert_eq!(
            game.get_slots()[target].get_payloads()[0],
            Some(Payload::new('X' as u64))
        )
    } else {
        panic!("Found Carrier that is 'targetting' but has no target set")
    }
}

#[test]
fn idle_carriers_reporting() {
    let mut game = Swarm::new();

    game.add_carrier(Carrier::new(0, 0));
    game.add_carrier(Carrier::new(0, 0));
    game.add_slot(Slot::new(
        100_000,
        100_000,
        Some(Payload::new('X' as u64)),
        None,
        SlotKind::CLASSIC,
    ));
    game.add_slot(Slot::new(
        100_000,
        100_000,
        None,
        Some(Payload::new('X' as u64)),
        SlotKind::CLASSIC,
    ));

    let mut all_carriers_idle = game.tick();
    assert!(!all_carriers_idle);
    for _ in 1..100 {
        all_carriers_idle = game.tick();
    }
    assert!(all_carriers_idle);
}

#[test]
fn parallel_transfer_to_pit() {
    let mut game = Swarm::new();

    game.add_carrier(Carrier::new(50_000, 50_000));
    game.add_carrier(Carrier::new(50_000, 50_000));
    game.add_slot(Slot::new(
        200_000,
        200_000,
        Some(Payload::new('A' as u64)),
        None,
        SlotKind::CLASSIC,
    ));
    game.add_slot(Slot::new(
        300_000,
        250_000,
        Some(Payload::new('A' as u64)),
        None,
        SlotKind::CLASSIC,
    ));
    game.add_slot(Slot::new(0, 0, None, None, SlotKind::PIT));

    game.tick();

    // Both carriers should have the pit reserved as their destination.
    let carriers = game.get_carriers();
    assert_eq!(carriers[0].get_reserved_target().unwrap(), 2);
    assert_eq!(carriers[1].get_reserved_target().unwrap(), 2);
}

#[test]
fn issue19_try_to_crash_lots_of_carriers() {
    let mut game = Swarm::new();

    // Add a lot of carriers.
    for _ in 0..1000 {
        game.add_carrier(Carrier::new(0, 0));
    }

    // Add slots on a 10 by 10 grid of 40-unit cells. The current payload
    // of row i is cargo i, the wanted payload is cargo 13 + i; both stay
    // below the wrap-around bound of 26 used by the payload counters.
    for i in 0..10i64 {
        for j in 0..10i64 {
            game.add_slot(Slot::new(
                j * 40_000,
                i * 40_000,
                Some(Payload::new(i as u64)),
                Some(Payload::new((13 + i) as u64)),
                SlotKind::CLASSIC,
            ));
        }
    }

    // Add some empty slots.
    for i in 0..5i64 {
        game.add_slot(Slot::new(
            15_000 + i * 35_000,
            15_000 + i * 35_000,
            None,
            None,
            SlotKind::CLASSIC,
        ));
    }

    // Add a pit and a spawner.
    game.add_slot(Slot::new(600_000, -50_000, None, None, SlotKind::PIT));
    game.add_slot(Slot::new(200_000, -50_000, None, None, SlotKind::SPAWNER));

    // Get ready.
    game.slot_data_changed();

    // Run the fleet for a while, expecting no panic.
    for _ in 0..60 {
        game.tick();
    }
}

#[test]
fn issue26_high_speed_carrier_not_reaching_target() {
    let mut game = Swarm::new();

    let mut fast = Carrier::new(50_000, 50_000);
    fast.set_acceleration(2_000);
    fast.set_max_speed(50_000);
    game.add_carrier(fast);

    game.add_slot(Slot::new(
        200_000,
        200_000,
        Some(Payload::new('A' as u64)),
        Some(Payload::new('B' as u64)),
        SlotKind::CLASSIC,
    ));
    game.add_slot(Slot::new(0, 0, None, None, SlotKind::PIT));

    // Get ready.
    game.slot_data_changed();

    // After 60 ticks the carrier must have fetched its cargo.
    for _ in 0..60 {
        game.tick();
    }

    let carriers = game.get_carriers();
    let payload = carriers[0].get_payload();
    assert!(payload.is_some());
}
