use grid_solver::action::{Action, ActionSequence, ACTIONS};
use grid_solver::board::{cell_num_diff, Board, Visited};
use grid_solver::marks::{ActionBoard, MarkBoard, ShortcutCache};
use grid_solver::solve::{Choice, SolveStep};
use grid_solver::values::{BoardLike, Point, Sym, Transform};

fn board(text: &str) -> Board {
    text.parse().unwrap()
}

#[test]
fn magnitudes_combine_by_the_rule() {
    assert_eq!(cell_num_diff(5, 5), 0);
    assert_eq!(cell_num_diff(9, 3), 6);
    assert_eq!(cell_num_diff(3, 9), 6);
    assert_eq!(cell_num_diff(3, 1), 2);
    assert_eq!(cell_num_diff(4, 5), 9);
    assert_eq!(cell_num_diff(5, 4), 9);
    assert_eq!(cell_num_diff(1, 0), 1);
    assert_eq!(cell_num_diff(0, 2), 2);
    assert_eq!(cell_num_diff(127, 128), 255);
    assert_eq!(cell_num_diff(128, 129), 1);
    assert_eq!(cell_num_diff(255, 254), 253);
    assert_eq!(cell_num_diff(255, 0), 255);
}

#[test]
fn a_move_leaves_the_board_it_started_from_as_it_was() {
    let start = board("18 9 6 0|0 9 3 0|33 18 18 3|0 0 15 0");
    let copy = start;
    let next = start.action(Action::DOWN).unwrap();
    assert_eq!(start, copy);
    assert_eq!(start.to_string(), "18 9 6 0|0 9 3 0|33 18 18 3|0 0 15 0");
    assert_ne!(next, start);
    let seq = ActionSequence::new().add(Action::LEFT);
    let longer = seq.add(Action::UP);
    assert_eq!(seq.to_vec(), vec![Action::LEFT]);
    assert_eq!(longer.to_vec(), vec![Action::LEFT, Action::UP]);
}

#[test]
fn a_move_from_an_empty_cell_changes_the_position_only() {
    let start = board("0 9 6 0|0 9 3 0|33 18 18 3|0 0 15 0");
    let next = start.action(Action::RIGHT).unwrap();
    assert_eq!(next.to_string(), start.to_string());
    assert_eq!(next.position(), Point::from(0, 1));
    assert!(start.at_zero());
    assert!(!next.at_zero());
    assert!(next.at_point(Point::from(0, 1)));
    assert!(!next.at_point(Point::from(0, 0)));
}

#[test]
fn a_ray_meets_every_occupied_cell_and_clears_the_equal_ones() {
    // The ray from the first cell runs right: 9 cancels 9, 3 and 9 leave 6, 10 and 9 leave 19.
    let start = board("9 9 3 10|0 0 0 0|0 0 0 0|0 0 0 7");
    let next = start.action(Action::RIGHT).unwrap();
    assert_eq!(next.to_string(), "0 0 6 19|0 0 0 0|0 0 0 0|0 0 0 7");
    assert_eq!(next.position(), Point::from(0, 1));
    // Nothing is cleared: the cell that was left keeps its magnitude.
    let start = board("9 0 3 0|0 0 0 0|0 0 0 0|0 0 0 7");
    let next = start.action(Action::RIGHT).unwrap();
    assert_eq!(next.to_string(), "9 0 6 0|0 0 0 0|0 0 0 0|0 0 0 7");
    // A sum past 255 is cut to a byte.
    let start = board("200 0 0 0|201 0 0 0|0 0 0 0|0 0 0 0");
    let next = start.action(Action::DOWN).unwrap();
    assert_eq!(next.to_string(), "200 0 0 0|145 0 0 0|0 0 0 0|0 0 0 0");
}

#[test]
fn moves_off_the_grid_are_refused() {
    let start = board("1 2 3 4|5 6 7 8|9 10 11 12|13 14 15 16");
    assert!(start.action(Action::UP).is_none());
    assert!(start.action(Action::LEFT).is_none());
    let corner = start
        .action(Action::RIGHT)
        .and_then(|b| b.action(Action::RIGHT))
        .and_then(|b| b.action(Action::RIGHT))
        .unwrap();
    assert_eq!(corner.position(), Point::from(0, 3));
    assert!(corner.action(Action::RIGHT).is_none());
    assert!(corner.action(Action::UP).is_none());
}

#[test]
fn rows_columns_and_dead_cells() {
    let b = board("1 2 3 4|5 6 7 8|9 10 11 12|13 14 15 16");
    assert_eq!(b.row(0), 0x04030201);
    assert_eq!(b.row(3), 0x100f0e0d);
    assert_eq!(b.col(0), 0x0d090501);
    assert_eq!(b.col(3), 0x100c0804);
    assert_eq!(BoardLike::cell(&b, Point::from(2, 1)), 10);
    assert_eq!(b.cell(Point::from(3, 3)), 16);
    let lone = board("0 0 0 0|0 7 0 0|0 0 0 0|0 0 0 0");
    assert!(lone.dead_cell(Point::from(1, 1)));
    assert!(!lone.dead_cell(Point::from(0, 0)));
    assert!(lone.is_lost());
    assert!(!lone.is_won());
    let pair = board("0 0 0 0|0 7 0 7|0 0 0 0|0 0 0 0");
    assert!(!pair.dead_cell(Point::from(1, 1)));
    assert!(!pair.is_lost());
}

#[test]
fn a_sequence_holds_up_to_its_capacity_in_order() {
    assert_eq!(ActionSequence::MAX_LENGTH, 29);
    let mut seq = ActionSequence::new();
    let mut expected = Vec::new();
    for i in 0..ActionSequence::MAX_LENGTH {
        let a = ACTIONS[(i * 7 + i / 3) % 4];
        seq = seq.add(a);
        expected.push(a);
        assert_eq!(seq.length(), i + 1);
        assert_eq!(seq.get(i), a);
    }
    assert_eq!(seq.to_vec(), expected);
    for (i, a) in expected.iter().enumerate() {
        assert_eq!(seq.get(i), *a);
    }
    assert_eq!(ActionSequence::new().get(5), Action::UP);
}

#[test]
fn points_and_moves_turn_together() {
    let syms = MarkBoard::new().all_symmeries();
    assert_eq!(syms.len(), 8);
    assert_eq!(syms[0], Sym { transform: Transform::Mirror, mirror: true });
    assert_eq!(syms[1], Sym { transform: Transform::Mirror, mirror: false });
    assert_eq!(syms[2], Sym { transform: Transform::Deg90, mirror: true });
    assert_eq!(syms[7], Sym { transform: Transform::Deg270, mirror: false });
    for sym in syms {
        for p in Point::iter_all() {
            assert_eq!(p.symmetry(sym).reverse_symmetry(sym), p);
            assert_eq!(p.reverse_symmetry(sym).symmetry(sym), p);
            for a in ACTIONS {
                assert_eq!(a.symmetry(sym).reverse_symmetry(sym), a);
                let next = p + a;
                if next.inside() {
                    assert_eq!(next.symmetry(sym), p.symmetry(sym) + a.symmetry(sym));
                } else {
                    assert!(!(p.symmetry(sym) + a.symmetry(sym)).inside());
                }
            }
        }
    }
    assert_eq!(Point::from(0, 1).transform(Transform::Mirror), Point::from(3, 1));
    assert_eq!(Point::from(0, 1).transform(Transform::Deg90), Point::from(2, 0));
    assert_eq!(Point::from(0, 1).transform(Transform::Deg180), Point::from(3, 2));
    assert_eq!(Point::from(0, 1).transform(Transform::Deg270), Point::from(1, 3));
    assert_eq!(Transform::Deg90.reverse(), Transform::Deg270);
    assert_eq!(Action::UP.reverse(), Action::DOWN);
    assert_eq!(Action::LEFT.reverse(), Action::RIGHT);
    assert_eq!(Action::RIGHT.index(), 3);
}

#[test]
fn the_cache_keeps_one_entry_for_each_class_of_patterns() {
    // 65536 patterns fall into 8548 classes under the eight symmetries; the full one is left out.
    assert_eq!(ShortcutCache::new().len(), 8547);
}

#[test]
fn the_canonical_pattern_is_the_smallest_image() {
    for m in [0u16, 1, 0x8000, 0x1248, 0xfffe, 0xffff, 0x0660, 0x00f0, 0x7310] {
        let marks = MarkBoard(m);
        let (sym, folded) = marks.canonical_form();
        assert_eq!(marks.symmetry(sym), folded);
        for s in marks.all_symmeries() {
            assert!(folded.0 <= marks.symmetry(s).0);
        }
    }
    assert_eq!(MarkBoard(0x8000).canonical_form().1, MarkBoard(1));
    assert_eq!(MarkBoard(0x0008).canonical_form().1, MarkBoard(1));
}

/// Steps from `pos` to `end` along the moves that `step` gives.
fn walk_length(mut pos: Point, end: Point, step: impl Fn(Point) -> Option<Action>) -> Option<usize> {
    let mut n = 0;
    while pos != end {
        pos = pos + step(pos)?;
        assert!(pos.inside());
        n += 1;
        assert!(n <= 16);
    }
    Some(n)
}

#[test]
fn folded_tables_give_shortest_walks_of_the_pattern_itself() {
    let cache = ShortcutCache::new();
    for m in (0..0xffffu32).step_by(97).chain([0x0001, 0x8421, 0xfffe]) {
        let marks = MarkBoard(m as u16);
        for end in Point::iter_all() {
            if !marks.marked(end) {
                for pos in Point::iter_all() {
                    assert_eq!(marks.action_towards(&cache, pos, end), None);
                }
                continue;
            }
            let table = ActionBoard::from(marks, end);
            let mut ends_found = 0;
            for pos in Point::iter_all() {
                let direct = table.action_by_pos(pos);
                let folded = marks.action_towards(&cache, pos, end);
                assert_eq!(direct.is_some(), folded.is_some());
                assert_eq!(table.starts_at(pos), direct.is_some());
                if direct.is_some() {
                    assert!(!marks.marked(pos));
                    let by_table = walk_length(pos, end, |p| table.action_by_pos(p));
                    let by_cache = walk_length(pos, end, |p| marks.action_towards(&cache, p, end));
                    assert!(by_table.is_some());
                    assert_eq!(by_table, by_cache);
                    assert!(marks.find_all_ends_for(&cache, pos).contains(&end));
                    ends_found += 1;
                } else if !marks.marked(pos) {
                    assert!(!marks.find_all_ends_for(&cache, pos).contains(&end));
                }
            }
            assert_eq!(table.end(), end);
            let _ = ends_found;
        }
    }
}

#[test]
fn ties_between_shortest_walks_may_break_differently_after_folding() {
    // One occupied corner: from the cell diagonally beside it, down and right are both shortest.
    let mut marks = MarkBoard::new();
    let end = Point::from(3, 3);
    marks.mark(end);
    let pos = Point::from(2, 2);
    let table = ActionBoard::from(marks, end);
    assert_eq!(table.action_by_pos(pos), Some(Action::DOWN));
    let cache = ShortcutCache::new();
    assert_eq!(marks.action_towards(&cache, pos, end), Some(Action::RIGHT));
    assert_eq!(marks.find_all_ends_for(&cache, pos), vec![end]);
    // Where one move only is shortest, the table and the cache agree.
    let beside = Point::from(3, 1);
    assert_eq!(table.action_by_pos(beside), Some(Action::RIGHT));
    assert_eq!(marks.action_towards(&cache, beside, end), Some(Action::RIGHT));
}

#[test]
fn the_visited_set_tells_boards_and_positions_apart() {
    let a = board("1 1 0 0|0 0 0 0|0 0 0 0|0 0 0 0");
    let b = board("1 2 0 0|0 0 0 0|0 0 0 0|0 0 0 0");
    let moved = board("0 1 1 0|0 0 0 0|0 0 0 0|0 0 0 0")
        .action(Action::RIGHT)
        .unwrap();
    let mut visited = Visited::new();
    assert!(!visited.contains(&a));
    visited.insert(&a);
    assert!(visited.contains(&a));
    assert!(!visited.contains(&b));
    let elsewhere = board("0 1 1 0|0 0 0 0|0 0 0 0|0 0 0 0");
    visited.insert(&elsewhere);
    assert!(visited.contains(&elsewhere));
    assert!(!visited.contains(&moved));
    visited.insert(&moved);
    assert!(visited.contains(&moved));
    assert!(visited.contains(&elsewhere));
    assert!(visited.contains(&a));
}

#[test]
fn a_node_offers_moves_or_walks() {
    let cache = ShortcutCache::new();
    let on_cell = SolveStep::new(board("18 9 6 0|0 9 3 0|33 18 18 3|0 0 15 0"));
    assert_eq!(
        on_cell.next_choices(&cache),
        vec![
            Choice::Free(Action::UP),
            Choice::Free(Action::DOWN),
            Choice::Free(Action::LEFT),
            Choice::Free(Action::RIGHT)
        ]
    );
    assert!(on_cell.apply(&cache, Choice::Free(Action::UP)).is_none());
    let down = on_cell.apply(&cache, Choice::Free(Action::DOWN)).unwrap();
    assert_eq!(down.moves().to_vec(), vec![Action::DOWN]);
    assert_eq!(down.board().position(), Point::from(1, 0));
    // The player now stands on an empty cell: one walk for each end in reach.
    let mut ends: Vec<Point> = down
        .next_choices(&cache)
        .into_iter()
        .map(|c| match c {
            Choice::ZeroPath(end) => end,
            Choice::Free(_) => panic!("a walk was expected"),
        })
        .collect();
    ends.sort_by_key(|p| p.index());
    assert_eq!(
        ends,
        vec![Point::from(0, 0), Point::from(1, 1), Point::from(2, 0)]
    );
    let walk = down
        .apply(&cache, Choice::ZeroPath(Point::from(2, 0)))
        .unwrap();
    assert_eq!(walk.board().position(), Point::from(2, 0));
    assert_eq!(walk.moves().to_vec(), vec![Action::DOWN, Action::DOWN]);
    assert_eq!(walk.next_choices(&cache).len(), 4);
    let visited = Visited::new();
    assert_eq!(down.expand(&cache, &visited).len(), 3);
    let mut seen = Visited::new();
    seen.insert(&walk.board());
    assert_eq!(down.expand(&cache, &seen).len(), 2);
}

#[test]
fn a_walk_under_way_goes_on_to_its_end() {
    let cache = ShortcutCache::new();
    let start = SolveStep::new(board("0 0 0 0|0 0 0 0|0 0 0 0|0 0 0 5"));
    let choices = start.next_choices(&cache);
    assert_eq!(choices, vec![Choice::ZeroPath(Point::from(3, 3))]);
    let mut step = start;
    let mut n = 0;
    while step.board().position() != Point::from(3, 3) {
        let choices = step.next_choices(&cache);
        assert_eq!(choices, vec![Choice::ZeroPath(Point::from(3, 3))]);
        step = step.apply(&cache, choices[0]).unwrap();
        n += 1;
    }
    assert_eq!(n, 6);
    assert_eq!(step.moves().length(), 6);
    assert_eq!(step.next_choices(&cache).len(), 4);
}
