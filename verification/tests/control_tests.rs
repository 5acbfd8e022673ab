use simgps::convert::to_angular_step;
use simgps::parse::parse_coords;
use simgps::state::{Action, Controller, Key, Outcome, Position};

fn parse_one(s: &str) -> Position {
    parse_coords(&vec![s.to_string()]).unwrap()
}

#[test]
fn angular_step_is_linear_in_the_distance() {
    for s in [1u64, 7, 12_345, 111_000_000] {
        assert_eq!(to_angular_step(2 * s), 2 * to_angular_step(s));
    }
}

#[test]
fn angular_step_examples() {
    // 111 km is exactly one degree under the flat-earth constant.
    assert_eq!(to_angular_step(111_000_000), 111_000_000_000);
    // The default 10 m step.
    assert_eq!(to_angular_step(10_000), 10_000_000);
}

#[test]
fn up_moves_one_degree_and_down_returns() {
    let start = parse_one("35.0,139.0");
    let mut ctrl = Controller::new(start, 111_000_000);
    assert_eq!(ctrl.last_action, Action::Ready);

    let out = ctrl.apply_key(Key::Up);
    assert_eq!(out, Outcome::Moved);
    assert_eq!(ctrl.position, parse_one("36.0,139.0"));
    assert_eq!(ctrl.last_action, Action::North);

    let out = ctrl.apply_key(Key::Down);
    assert_eq!(out, Outcome::Moved);
    assert_eq!(ctrl.position, start);
    assert_eq!(ctrl.last_action, Action::South);
}

#[test]
fn right_then_left_restores_longitude() {
    let start = parse_one("12.25,-7.5");
    let mut ctrl = Controller::new(start, 10_000);
    assert_eq!(ctrl.apply_key(Key::Right), Outcome::Moved);
    assert_eq!(ctrl.last_action, Action::East);
    assert_eq!(ctrl.position.lat_units, start.lat_units);
    assert_eq!(ctrl.apply_key(Key::Left), Outcome::Moved);
    assert_eq!(ctrl.last_action, Action::West);
    assert_eq!(ctrl.position, start);
}

#[test]
fn other_keys_change_nothing() {
    let start = parse_one("35.66,139.69");
    let mut ctrl = Controller::new(start, 10_000);
    let before = ctrl;
    assert_eq!(ctrl.apply_key(Key::Other), Outcome::Ignored);
    assert_eq!(ctrl, before);
    // Still ignored after a move has happened.
    ctrl.apply_key(Key::Up);
    let before = ctrl;
    assert_eq!(ctrl.apply_key(Key::Other), Outcome::Ignored);
    assert_eq!(ctrl, before);
}

#[test]
fn quit_and_interrupt_terminate_without_moving() {
    let start = parse_one("35.66,139.69");
    let mut ctrl = Controller::new(start, 10_000);
    let before = ctrl;
    assert_eq!(ctrl.apply_key(Key::Quit), Outcome::Terminate);
    assert_eq!(ctrl, before);
    assert_eq!(ctrl.apply_key(Key::Interrupt), Outcome::Terminate);
    assert_eq!(ctrl, before);
}

#[test]
fn action_labels() {
    assert_eq!(Action::Ready.label(), "Ready");
    assert_eq!(Action::North.label(), "^ North");
    assert_eq!(Action::South.label(), "v South");
    assert_eq!(Action::East.label(), "> East");
    assert_eq!(Action::West.label(), "< West");
}

#[test]
fn saturation_keeps_the_position_representable() {
    let mut ctrl = Controller::new(
        Position { lat_units: i64::MAX - 5, lng_units: 0 },
        111_000_000,
    );
    assert_eq!(ctrl.apply_key(Key::Up), Outcome::Moved);
    assert_eq!(ctrl.position.lat_units, i64::MAX);
}
