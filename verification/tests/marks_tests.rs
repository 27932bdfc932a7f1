use grid_solver::action::Action;
use grid_solver::marks::{ActionBoard, MarkBoard, ShortcutCache};
use grid_solver::values::{Point, Transform};
use std::collections::HashSet;

#[test]
fn set_and_get_marks() {
    let mut marks = MarkBoard(0);
    let point = Point::from(1, 1);
    assert!(!marks.marked(point));
    marks.mark(point);
    assert!(marks.marked(point));
    marks.unmark(point);
    assert!(!marks.marked(point));
}

#[test]
fn transform_mark_board() {
    let mut marks = MarkBoard(0);
    assert_eq!(marks, marks.transform(Transform::Deg90));
    marks.mark(Point::from(1, 1));
    marks.mark(Point::from(0, 0));
    marks.mark(Point::from(0, 1));
    marks.mark(Point::from(3, 3));
    marks.mark(Point::from(2, 3));
    marks.mark(Point::from(3, 2));
    println!("marks {marks}", marks = marks.to_string());
    let rot90 = marks.transform(Transform::Deg90);
    println!("rot90 {rot90}", rot90 = rot90.to_string());
    assert_ne!(marks, rot90);
    assert!(!marks.marked(Point::from(2, 1)));
    assert!(
        rot90.marked(Point::from(2, 1)),
        "should rotate point in counter clockwise direction"
    );
    let rot180 = marks.transform(Transform::Deg180);
    println!("rot180 {rot180}", rot180 = rot180.to_string());
    assert!(rot180.marked(Point::from(2, 2)));
    let rot360 = marks
        .transform(Transform::Deg270)
        .transform(Transform::Deg90);
    println!("rot360 {rot360}", rot360 = rot360.to_string());
    assert_eq!(marks, rot360);

    assert_eq!(
        marks,
        marks
            .transform(Transform::Mirror)
            .transform(Transform::Mirror)
    );
}

#[test]
fn action_board() {
    let mut marks = MarkBoard(0);
    let start = Point::from(0, 0);
    let mid = Point::from(2, 2);
    let top = mid + Action::UP;
    let top_right = top + Action::RIGHT;
    let right = mid + Action::RIGHT;
    let down = mid + Action::DOWN;
    let left = mid + Action::LEFT;

    marks.mark(top);
    let ab1 = ActionBoard::from(marks, top);
    println!("ab1 {}", ab1.to_string());
    marks.mark(top_right);
    println!("ab2 {}", ActionBoard::from(marks, top).to_string());
    marks.mark(right);
    println!("ab3 {}", ActionBoard::from(marks, top).to_string());
    marks.mark(down);
    println!("ab4 {}", ActionBoard::from(marks, top).to_string());
    marks.mark(left);
    println!("ab5 {}", ActionBoard::from(marks, top).to_string());
    let ab = ActionBoard::from(marks, top);
    let mut pos = start;
    pos = pos + ab.action_by_pos(pos).unwrap();
    pos = pos + ab.action_by_pos(pos).unwrap();
    pos = pos + ab.action_by_pos(pos).unwrap();
    assert_eq!(pos, top, "should reach top in three moves");
    assert_eq!(
        ab.action_by_pos(Point::from(0, 3)),
        Some(Action::LEFT),
        "should choose left"
    );
    assert_eq!(ab.action_by_pos(mid), Some(Action::UP), "should choose up");
}

#[test]
fn action_board_find_ends() {
    let cache = ShortcutCache::new();
    for i in 0..(1 << 16) as usize {
        let marks = MarkBoard(i as u16);
        let mut true_end_points = HashSet::<Point>::new();
        let end_points = Point::iter_all()
            .into_iter()
            .filter(|&p| {
                true_end_points.insert(p);
                !marks.marked(p)
            })
            .flat_map(|p| marks.find_all_ends_for(&cache, p))
            .collect::<HashSet<Point>>();
        if true_end_points.len() > 0 && true_end_points.len() < 16 {
            assert!(end_points.len() > 0);
        }
        assert!(end_points.is_subset(&true_end_points));
    }
}

#[test]
fn action_board_lookups() {
    let cache = ShortcutCache::new();
    println!("Cached ActionBoardMaps: {}", cache.len());
    let mut marks = MarkBoard(0);
    let start = Point::from(0, 0);
    let mid = Point::from(2, 2);
    let top = mid + Action::UP;
    let top_right = top + Action::RIGHT;
    let right = mid + Action::RIGHT;
    let down = mid + Action::DOWN;
    let left = mid + Action::LEFT;
    println!(
        "{top},{right}, {top_right}, {right}, {down}, {left}",
        top = top.to_string(),
        right = right.to_string(),
        top_right = top_right.to_string(),
        down = down.to_string(),
        left = left.to_string()
    );

    assert_eq!(
        marks.action_towards(&cache, start, top),
        None,
        "should not have action board for 0 < 2 marks"
    );
    marks.mark(top);
    println!("marks {marks}", marks = marks.to_string());
    let (sym, ab) = marks.action_board_map(&cache);
    println!(
        "ActionBoardMap {sym}: {}",
        ab.unwrap().get(&top.symmetry(sym).0).unwrap().to_string(),
        sym = sym.to_string()
    );

    let mut pos = start;
    pos = pos + marks.action_towards(&cache, pos, top).unwrap();
    pos = pos + marks.action_towards(&cache, pos, top).unwrap();
    pos = pos + marks.action_towards(&cache, pos, top).unwrap();
    assert_eq!(pos, top, "should reach top in three moves");
    marks.mark(top_right);

    pos = start;
    pos = pos + marks.action_towards(&cache, pos, top_right).unwrap();
    pos = pos + marks.action_towards(&cache, pos, top_right).unwrap();
    pos = pos + marks.action_towards(&cache, pos, top_right).unwrap();
    pos = pos + marks.action_towards(&cache, pos, top_right).unwrap();
    assert_eq!(pos, top_right, "should reach top-right in four moves");
    assert_eq!(
        marks.action_towards(&cache, top, top),
        None,
        "should not be able to put start into end"
    );
    marks.mark(right);
    marks.mark(down);

    println!("marks2 {marks}", marks = marks.to_string());
    let (sym, ab) = marks.action_board_map(&cache);
    println!("markssym {}", marks.symmetry(sym).to_string());
    for (p, a) in Point::iter_all()
        .into_iter()
        .filter_map(|p| ab.unwrap().get(&p.0).map(|a| (p, a)))
    {
        println!("{p} {a}", p = p.to_string(), a = a.to_string());
    }
    println!(
        "ActionBoardMap2 {sym}: {}",
        ab.unwrap().get(&top.symmetry(sym).0).unwrap().to_string(),
        sym = sym.to_string()
    );
    assert_eq!(marks.action_towards(&cache, mid, top), Some(Action::UP));
    assert_eq!(marks.action_towards(&cache, mid, down), Some(Action::DOWN));
    assert_eq!(marks.action_towards(&cache, mid, right), Some(Action::RIGHT));
    assert_eq!(
        marks.action_towards(&cache, mid, top_right),
        Some(Action::LEFT),
        "should choose left (around)"
    );
    marks.mark(left);
    assert_eq!(
        marks.action_towards(&cache, mid, top_right),
        None,
        "should have no path to top_right (from mid)"
    );
}
