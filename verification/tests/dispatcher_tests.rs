use swarm_it::Payload;
use swarm_it::Position;
use swarm_it::Slot;
use swarm_it::SlotKind;
use swarm_it::dispatcher::Dispatcher;

#[test]
fn find_slot_for_target() {
    let dispatcher = Dispatcher::new();
    let slots = vec![
        Slot::new(
            100_000,
            100_000,
            Some(Payload::new('A' as u64)),
            Some(Payload::new('B' as u64)),
            SlotKind::CLASSIC,
        ),
        Slot::new(
            100_000,
            100_000,
            None,
            Some(Payload::new('B' as u64)),
            SlotKind::CLASSIC,
        ),
    ];

    assert_eq!(
        dispatcher.find_slot_for_target(&slots, Some(Payload::new('B' as u64))),
        Some(1)
    )
}

#[test]
fn find_mismatched_slot1() {
    let dispatcher = Dispatcher::new();
    let slots = vec![
        Slot::new(
            100_000,
            100_000,
            None,
            Some(Payload::new('X' as u64)),
            SlotKind::CLASSIC,
        ),
        Slot::new(
            100_000,
            100_000,
            None,
            Some(Payload::new('Y' as u64)),
            SlotKind::CLASSIC,
        ),
    ];

    // A slot without a current payload cannot be mismatched.
    assert_eq!(dispatcher.find_slot_with_mismatched_payload(&slots), None)
}

#[test]
fn find_mismatched_slot2() {
    let dispatcher = Dispatcher::new();
    let slots = vec![
        Slot::new(
            100_000,
            100_000,
            Some(Payload::new('X' as u64)),
            Some(Payload::new('X' as u64)),
            SlotKind::CLASSIC,
        ),
        Slot::new(
            100_000,
            100_000,
            Some(Payload::new('A' as u64)),
            Some(Payload::new('Y' as u64)),
            SlotKind::CLASSIC,
        ),
    ];

    assert_eq!(
        dispatcher.find_slot_with_mismatched_payload(&slots),
        Some(1)
    )
}

#[test]
fn find_mismatched_slot3() {
    let dispatcher = Dispatcher::new();
    let slots = vec![
        Slot::new(
            100_000,
            100_000,
            Some(Payload::new('Y' as u64)),
            Some(Payload::new('Y' as u64)),
            SlotKind::CLASSIC,
        ),
        Slot::new(
            100_000,
            100_000,
            Some(Payload::new('A' as u64)),
            Some(Payload::new('A' as u64)),
            SlotKind::CLASSIC,
        ),
    ];

    assert_eq!(dispatcher.find_slot_with_mismatched_payload(&slots), None)
}

#[test]
fn find_mismatched_slot_with_target1() {
    let dispatcher = Dispatcher::new();
    let slots = vec![
        Slot::new(
            100_000,
            100_000,
            Some(Payload::new('A' as u64)),
            Some(Payload::new('B' as u64)),
            SlotKind::CLASSIC,
        ),
        Slot::new(
            100_000,
            100_000,
            Some(Payload::new('X' as u64)),
            Some(Payload::new('B' as u64)),
            SlotKind::CLASSIC,
        ),
    ];

    assert_eq!(
        dispatcher.find_slot_with_mismatched_payload_and_free_target(&slots),
        (None, 0)
    )
}

#[test]
fn find_mismatched_slot_with_target2() {
    let dispatcher = Dispatcher::new();
    let slots = vec![
        Slot::new(
            100_000,
            100_000,
            Some(Payload::new('A' as u64)),
            Some(Payload::new('B' as u64)),
            SlotKind::CLASSIC,
        ),
        Slot::new(
            100_000,
            100_000,
            None,
            Some(Payload::new('B' as u64)),
            SlotKind::CLASSIC,
        ),
    ];

    assert_eq!(
        dispatcher.find_slot_with_mismatched_payload_and_free_target(&slots),
        (None, 0)
    )
}

#[test]
fn find_mismatched_slot_with_target3() {
    let dispatcher = Dispatcher::new();
    let slots = vec![
        Slot::new(
            100_000,
            100_000,
            Some(Payload::new('A' as u64)),
            Some(Payload::new('B' as u64)),
            SlotKind::CLASSIC,
        ),
        Slot::new(
            100_000,
            100_000,
            None,
            Some(Payload::new('A' as u64)),
            SlotKind::CLASSIC,
        ),
    ];

    assert_eq!(
        dispatcher.find_slot_with_mismatched_payload_and_free_target(&slots),
        (Some(0), 1)
    )
}

#[test]
fn is_there_a_free_slot_for1() {
    let dispatcher = Dispatcher::new();
    let slots = vec![
        Slot::new(
            100_000,
            100_000,
            Some(Payload::new('A' as u64)),
            Some(Payload::new('B' as u64)),
            SlotKind::CLASSIC,
        ),
        Slot::new(
            100_000,
            100_000,
            None,
            Some(Payload::new('C' as u64)),
            SlotKind::CLASSIC,
        ),
    ];

    let p = Payload::new('C' as u64);
    let mut ii: usize = 0;

    assert_eq!(
        dispatcher.is_there_a_free_slot_for(p, &slots, &mut ii),
        true
    );
    assert_eq!(ii, 1)
}

#[test]
fn is_there_a_free_slot_for2() {
    let dispatcher = Dispatcher::new();
    let slots = vec![
        Slot::new(
            100_000,
            100_000,
            Some(Payload::new('A' as u64)),
            Some(Payload::new('C' as u64)),
            SlotKind::CLASSIC,
        ),
        Slot::new(
            100_000,
            100_000,
            None,
            Some(Payload::new('D' as u64)),
            SlotKind::CLASSIC,
        ),
    ];

    let p = Payload::new('C' as u64);
    let mut ii: usize = 0;

    assert_eq!(
        dispatcher.is_there_a_free_slot_for(p, &slots, &mut ii),
        false
    );
}

fn ledger_slots() -> Vec<Slot> {
    vec![
        Slot::new(
            100_000,
            100_000,
            Some(Payload::new('A' as u64)),
            Some(Payload::new('C' as u64)),
            SlotKind::CLASSIC,
        ),
        Slot::new(
            100_000,
            100_000,
            Some(Payload::new('C' as u64)),
            Some(Payload::new('A' as u64)),
            SlotKind::CLASSIC,
        ),
        Slot::new(
            100_000,
            100_000,
            Some(Payload::new('E' as u64)),
            Some(Payload::new('E' as u64)),
            SlotKind::CLASSIC,
        ),
        Slot::new(
            100_000,
            100_000,
            Some(Payload::new('E' as u64)),
            Some(Payload::new('F' as u64)),
            SlotKind::CLASSIC,
        ),
        Slot::new(
            100_000,
            100_000,
            None,
            Some(Payload::new('G' as u64)),
            SlotKind::CLASSIC,
        ),
        Slot::new(
            100_000,
            100_000,
            None,
            Some(Payload::new('G' as u64)),
            SlotKind::CLASSIC,
        ),
    ]
}

#[test]
fn calculate_cargo_balance() {
    let mut dispatcher = Dispatcher::new();
    let slots = ledger_slots();

    dispatcher.calculate_cargo_balance(&slots);

    assert_eq!(dispatcher.get_cargo_balance('A' as u64), None);
    assert_eq!(dispatcher.get_cargo_balance('C' as u64), None);
    assert_eq!(dispatcher.get_cargo_balance('E' as u64), Some(1));
    assert_eq!(dispatcher.get_cargo_balance('F' as u64), Some(-1));
    assert_eq!(dispatcher.get_cargo_balance('G' as u64), Some(-2));
}

#[test]
fn reduce_cargo_balance() {
    let mut dispatcher = Dispatcher::new();
    let slots = ledger_slots();

    dispatcher.calculate_cargo_balance(&slots);
    dispatcher.reduce_cargo_balance('G' as u64);
    dispatcher.reduce_cargo_balance('E' as u64);

    assert_eq!(dispatcher.get_cargo_balance('A' as u64), None);
    assert_eq!(dispatcher.get_cargo_balance('C' as u64), None);
    assert_eq!(dispatcher.get_cargo_balance('E' as u64), None);
    assert_eq!(dispatcher.get_cargo_balance('F' as u64), Some(-1));
    assert_eq!(dispatcher.get_cargo_balance('G' as u64), Some(-3));
}

#[test]
fn find_closest_object1() {
    let dispatcher = Dispatcher::new();
    let slots = vec![
        Slot::new(
            100_000,
            100_000,
            Some(Payload::new('A' as u64)),
            Some(Payload::new('B' as u64)),
            SlotKind::CLASSIC,
        ),
        Slot::new(
            100_000,
            100_000,
            None,
            Some(Payload::new('C' as u64)),
            SlotKind::CLASSIC,
        ),
    ];

    assert_eq!(
        dispatcher.find_closest_object(&slots, &Position::new(10_000, 10_000), SlotKind::PIT),
        None
    );
    assert_eq!(
        dispatcher.find_closest_object(&slots, &Position::new(10_000, 10_000), SlotKind::SPAWNER),
        None
    );
}

#[test]
fn find_closest_object() {
    let dispatcher = Dispatcher::new();
    let slots = vec![
        Slot::new(
            100_000,
            100_000,
            Some(Payload::new('A' as u64)),
            Some(Payload::new('B' as u64)),
            SlotKind::CLASSIC,
        ),
        Slot::new(1_000_000, 1_000_000, None, None, SlotKind::PIT),
        Slot::new(1_000_000, 1_000_000, None, None, SlotKind::SPAWNER),
    ];

    assert_eq!(
        dispatcher.find_closest_object(&slots, &Position::new(10_000, 10_000), SlotKind::PIT),
        Some(1)
    );
    assert_eq!(
        dispatcher.find_closest_object(&slots, &Position::new(10_000, 10_000), SlotKind::SPAWNER),
        Some(2)
    );
}

#[test]
fn find_closest_object3() {
    let dispatcher = Dispatcher::new();
    let slots = vec![
        Slot::new(
            100_000,
            100_000,
            Some(Payload::new('A' as u64)),
            Some(Payload::new('B' as u64)),
            SlotKind::CLASSIC,
        ),
        Slot::new(1_000_000, 1_000_000, None, None, SlotKind::PIT),
        Slot::new(0, 0, None, None, SlotKind::PIT),
        Slot::new(1_000_000, 1_000_000, None, None, SlotKind::SPAWNER),
        Slot::new(0, 0, None, None, SlotKind::SPAWNER),
    ];

    assert_eq!(
        dispatcher.find_closest_object(&slots, &Position::new(10_000, 10_000), SlotKind::PIT),
        Some(2)
    );
    assert_eq!(
        dispatcher.find_closest_object(&slots, &Position::new(10_000, 10_000), SlotKind::SPAWNER),
        Some(4)
    );
}

#[test]
fn find_slot_with_payload_that_should_go_to_the_pit1() {
    let mut dispatcher = Dispatcher::new();
    let slots = ledger_slots();

    dispatcher.calculate_cargo_balance(&slots);
    assert_ne!(
        dispatcher.find_slot_with_payload_that_should_go_to_the_pit(&slots),
        Some(2)
    );
    assert_eq!(
        dispatcher.find_slot_with_payload_that_should_go_to_the_pit(&slots),
        Some(3)
    );
}

#[test]
fn find_slot_with_payload_that_should_go_to_the_pit2() {
    let mut dispatcher = Dispatcher::new();
    let slots = vec![
        Slot::new(
            100_000,
            100_000,
            Some(Payload::new('A' as u64)),
            Some(Payload::new('C' as u64)),
            SlotKind::CLASSIC,
        ),
        Slot::new(
            100_000,
            100_000,
            Some(Payload::new('C' as u64)),
            Some(Payload::new('A' as u64)),
            SlotKind::CLASSIC,
        ),
        Slot::new(
            100_000,
            100_000,
            Some(Payload::new('E' as u64)),
            Some(Payload::new('E' as u64)),
            SlotKind::CLASSIC,
        ),
        Slot::new(
            100_000,
            100_000,
            None,
            Some(Payload::new('G' as u64)),
            SlotKind::CLASSIC,
        ),
        Slot::new(
            100_000,
            100_000,
            None,
            Some(Payload::new('G' as u64)),
            SlotKind::CLASSIC,
        ),
    ];

    dispatcher.calculate_cargo_balance(&slots);
    assert_eq!(
        dispatcher.find_slot_with_payload_that_should_go_to_the_pit(&slots),
        None
    );
}

#[test]
fn find_slot_that_contains() {
    let dispatcher = Dispatcher::new();
    let slots = vec![
        Slot::new(
            100_000,
            100_000,
            Some(Payload::new('X' as u64)),
            Some(Payload::new('B' as u64)),
            SlotKind::CLASSIC,
        ),
        Slot::new(
            100_000,
            100_000,
            None,
            Some(Payload::new('B' as u64)),
            SlotKind::CLASSIC,
        ),
        Slot::new(
            100_000,
            100_000,
            Some(Payload::new('A' as u64)),
            Some(Payload::new('B' as u64)),
            SlotKind::CLASSIC,
        ),
    ];

    assert_eq!(
        dispatcher.find_mismatched_slot_that_contains(&slots, 'A' as u64),
        Some(2)
    );
    assert_eq!(
        dispatcher.find_mismatched_slot_that_contains(&slots, 'X' as u64),
        Some(0)
    );
    assert_eq!(
        dispatcher.find_mismatched_slot_that_contains(&slots, 'Y' as u64),
        None
    );
}

#[test]
fn calculate_slot_distances() {
    let mut dispatcher = Dispatcher::new();
    let slots = vec![
        Slot::new(
            100_000,
            100_000,
            Some(Payload::new('A' as u64)),
            None,
            SlotKind::CLASSIC,
        ),
        Slot::new(100_000, 100_000, None, None, SlotKind::CLASSIC),
        Slot::new(200_000, 200_000, None, None, SlotKind::CLASSIC),
    ];

    dispatcher.calculate_slot_distances(&slots);

    assert_eq!(dispatcher.get_distance_slot_slot(0, 1), 0);
    // Squared distance of (100, 100) units in milli-units.
    assert_eq!(dispatcher.get_distance_slot_slot(1, 2), 20_000_000_000);
    assert_eq!(
        dispatcher.get_distance_slot_slot(2, 1),
        dispatcher.get_distance_slot_slot(1, 2)
    )
}

#[test]
fn find_any_temporary_slot() {
    let mut dispatcher = Dispatcher::new();
    let slots = vec![
        Slot::new(
            200_000,
            210_000,
            Some(Payload::new('B' as u64)),
            Some(Payload::new('A' as u64)),
            SlotKind::CLASSIC,
        ),
        Slot::new(
            200_000,
            300_000,
            Some(Payload::new('A' as u64)),
            Some(Payload::new('B' as u64)),
            SlotKind::CLASSIC,
        ),
        Slot::new(600_000, 550_000, None, None, SlotKind::CLASSIC),
        Slot::new(500_000, 450_000, None, None, SlotKind::CLASSIC),
        Slot::new(300_000, 350_000, None, None, SlotKind::CLASSIC),
    ];

    dispatcher.calculate_slot_distances(&slots);
    let tmp_slot = dispatcher
        ._find_any_temporary_slot(&slots, Payload::new('A' as u64))
        .unwrap();
    assert_eq!(tmp_slot, 2);
}

#[test]
fn find_closest_temporary_slot() {
    let mut dispatcher = Dispatcher::new();
    let slots = vec![
        Slot::new(
            200_000,
            210_000,
            Some(Payload::new('B' as u64)),
            Some(Payload::new('A' as u64)),
            SlotKind::CLASSIC,
        ),
        Slot::new(
            200_000,
            300_000,
            Some(Payload::new('A' as u64)),
            Some(Payload::new('B' as u64)),
            SlotKind::CLASSIC,
        ),
        Slot::new(600_000, 550_000, None, None, SlotKind::CLASSIC),
        Slot::new(500_000, 450_000, None, None, SlotKind::CLASSIC),
        Slot::new(300_000, 350_000, None, None, SlotKind::CLASSIC),
    ];

    let mut payload = Payload::new('A' as u64);
    payload.taken_from = Some(1);

    dispatcher.calculate_slot_distances(&slots);
    let tmp_slot = dispatcher
        .find_closest_temporary_slot(&slots, payload)
        .unwrap();
    assert_eq!(tmp_slot, 4);
}
