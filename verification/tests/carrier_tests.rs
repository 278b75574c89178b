use swarm_it::Carrier;
use swarm_it::RotationDirection;
use swarm_it::trig::HALF_PI_MRAD;
use swarm_it::trig::PI_MRAD;

#[test]
fn rotate_direction_calculation1() {
    let mut carrier = Carrier::new(0, 0);
    carrier.angle = 0;
    carrier.rotate_to(HALF_PI_MRAD);

    assert_eq!(
        carrier.get_rotation_direction().unwrap(),
        RotationDirection::CLOCKWISE
    )
}

#[test]
fn rotate_direction_calculation2() {
    let mut carrier = Carrier::new(0, 0);
    carrier.angle = 0;
    carrier.rotate_to(HALF_PI_MRAD * 3);

    assert_eq!(
        carrier.get_rotation_direction().unwrap(),
        RotationDirection::COUNTERCLOCKWISE
    )
}

#[test]
fn rotate_direction_calculation3() {
    let mut carrier = Carrier::new(0, 0);
    carrier.angle = 0;
    carrier.rotate_to(PI_MRAD);

    // When rotating a half turn, either direction may be chosen, but one
    // must be chosen.
    assert!(carrier.get_rotation_direction().is_some())
}

#[test]
fn new_carrier_defaults() {
    let carrier = Carrier::new(100_000, 200_000);
    assert_eq!(carrier.get_position().x, 100_000);
    assert_eq!(carrier.get_position().y, 200_000);
    assert_eq!(carrier.get_angle(), 0);
    assert_eq!(carrier.get_payload(), None);
    assert_eq!(carrier.get_target(), None);
    assert_eq!(carrier.get_reserved_target(), None);
    assert!(carrier.get_state().is_idle());
}

#[test]
fn carrier_tunables() {
    let mut carrier = Carrier::new(0, 0);
    carrier.set_acceleration(2710);
    assert_eq!(carrier.get_acceleration(), 2710);
    carrier.set_max_speed(3010);
    assert_eq!(carrier.get_max_speed(), 3010);
}
