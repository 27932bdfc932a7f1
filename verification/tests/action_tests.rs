use grid_solver::action::{Action, ActionSequence};
use grid_solver::values::Point;

#[test]
fn add_and_get_actions() {
    let mut seq = ActionSequence::new();
    let actions = vec![
        Action::DOWN,
        Action::DOWN,
        Action::UP,
        Action::UP,
        Action::LEFT,
        Action::RIGHT,
    ];
    // should be immutable sequence
    seq.add(Action::RIGHT);
    assert_eq!(seq, ActionSequence::new());

    for a in actions.iter() {
        println!(
            "adding {} to seq of length: {}",
            a.to_string(),
            seq.length()
        );
        seq = seq.add(*a);
    }
    let seq_actions: Vec<Action> = seq.into();
    assert_eq!(seq_actions, actions);

    seq = ActionSequence::new();
    for _ in 0..ActionSequence::MAX_LENGTH {
        seq = seq.add(Action::RIGHT);
    }
    let long_seq: Vec<Action> = seq.into();
    assert_eq!(
        long_seq,
        (0..ActionSequence::MAX_LENGTH)
            .into_iter()
            .map(|_| Action::RIGHT)
            .collect::<Vec<Action>>()
    );
}

#[test]
fn add_action_to_point() {
    let point = Point::from(1, 1);
    println!("{point}", point = point.to_string());
    assert!(point.inside());
    assert_eq!(point + Action::DOWN, Point::from(2, 1));
    assert_eq!(point + Action::UP, Point::from(0, 1));
    assert_eq!(point + Action::RIGHT, Point::from(1, 2));
    assert_eq!(point + Action::LEFT, Point::from(1, 0));
    assert!(!(point + Action::LEFT + Action::LEFT).inside());
    assert!(!(point + Action::UP + Action::UP).inside());

    let point2 = Point::from(2, 2);
    println!("{point2}", point2 = point2.to_string());
    assert!(point2.inside());
    assert_eq!(point2 + Action::DOWN, Point::from(3, 2));
    assert_eq!(point2 + Action::UP, Point::from(1, 2));
    assert_eq!(point2 + Action::RIGHT, Point::from(2, 3));
    assert_eq!(point2 + Action::LEFT, Point::from(2, 1));
    assert!(!(point2 + Action::RIGHT + Action::RIGHT).inside());
    assert!(!(point2 + Action::DOWN + Action::DOWN).inside());
}
