//! Walks over empty cells towards an occupied cell, as plain mathematics.
//!
//! A walk starts on an empty cell, moves over empty cells only, and ends with
//! the step onto the occupied cell `end`. `within` says which cells have a walk
//! of a given length at most; the rest is derived from it.

use crate::action::{
    lemma_action_symmetry_reverse, lemma_step_symmetry, lemma_symmetry_reverse, Action,
};
use crate::marks::{lemma_symmetry_marked, MarkBoard};
use crate::values::{Point, Sym};
use vstd::prelude::*;

verus! {

/// Index of the cell one step from the cell `q` in direction `a`, or -1 when
/// the step leaves the grid.
pub open spec fn neighbor(q: int, a: Action) -> int {
    let n = Point(q as u8).spec_step(a);
    if n.spec_inside() {
        n.spec_index()
    } else {
        -1
    }
}

/// `end` is at most `k` steps away from the cell `q`: `q` is `end` itself, or
/// an empty grid cell with a neighbour from which `end` is at most `k - 1`
/// steps away.
pub open spec fn within(marks: MarkBoard, end: Point, k: nat, q: int) -> bool
    decreases k,
{
    if k == 0 {
        q == end.spec_index()
    } else {
        within(marks, end, (k - 1) as nat, q) || (0 <= q < 16 && !marks.spec_marked(q) && (within(
            marks,
            end,
            (k - 1) as nat,
            neighbor(q, Action::UP),
        ) || within(marks, end, (k - 1) as nat, neighbor(q, Action::DOWN)) || within(
            marks,
            end,
            (k - 1) as nat,
            neighbor(q, Action::LEFT),
        ) || within(marks, end, (k - 1) as nat, neighbor(q, Action::RIGHT))))
    }
}

/// One step in direction `a` takes the cell `q` to a grid cell from which `end`
/// is at most `k` steps away.
pub open spec fn step_within(marks: MarkBoard, end: Point, k: nat, q: int, a: Action) -> bool {
    within(marks, end, k, neighbor(q, a))
}

/// `end` is exactly `k` steps away from the cell `q`.
pub open spec fn at_level(marks: MarkBoard, end: Point, k: nat, q: int) -> bool {
    within(marks, end, k, q) && (k == 0 || !within(marks, end, (k - 1) as nat, q))
}

/// Some walk leads from the cell `q` to `end`.
pub open spec fn reachable(marks: MarkBoard, end: Point, q: int) -> bool {
    exists|k: nat| within(marks, end, k, q)
}

/// Length of the shortest walk from the cell `q` to `end`, where there is one.
pub open spec fn walk_len(marks: MarkBoard, end: Point, q: int) -> nat {
    choose|k: nat| at_level(marks, end, k, q)
}

/// The move that a table of shortest walks holds for a cell `q` that is `k`
/// steps from `end`: the first of down, up, right, left that leads to a cell
/// one step nearer.
pub open spec fn step_at_level(marks: MarkBoard, end: Point, k: nat, q: int) -> Action {
    if step_within(marks, end, (k - 1) as nat, q, Action::DOWN) {
        Action::DOWN
    } else if step_within(marks, end, (k - 1) as nat, q, Action::UP) {
        Action::UP
    } else if step_within(marks, end, (k - 1) as nat, q, Action::RIGHT) {
        Action::RIGHT
    } else {
        Action::LEFT
    }
}

/// The first move of the shortest walk from `q` to `end` that the table holds.
pub open spec fn preferred_move(marks: MarkBoard, end: Point, q: int) -> Action {
    step_at_level(marks, end, walk_len(marks, end, q), q)
}

/// What the table of shortest walks towards `end` holds for the cell `q`: a
/// first move where a walk exists, nothing for `end` itself and for cells
/// without a walk.
pub open spec fn walk_step(marks: MarkBoard, end: Point, q: int) -> Option<Action> {
    if q != end.spec_index() && reachable(marks, end, q) {
        Some(preferred_move(marks, end, q))
    } else {
        None
    }
}

/// The move `a` takes the cell `q` one step nearer to `end`.
pub open spec fn shortens(marks: MarkBoard, end: Point, q: int, a: Action) -> bool {
    walk_len(marks, end, q) > 0 && step_within(
        marks,
        end,
        (walk_len(marks, end, q) - 1) as nat,
        q,
        a,
    )
}

/// A cell that is within `k` steps is within any larger number of steps.
pub proof fn lemma_within_monotone(marks: MarkBoard, end: Point, k: nat, j: nat, q: int)
    requires
        k <= j,
        within(marks, end, k, q),
    ensures
        within(marks, end, j, q),
    decreases j,
{
    if k < j {
        lemma_within_monotone(marks, end, k, (j - 1) as nat, q);
    }
}

/// Only grid cells have walks, and all but `end` are empty.
pub proof fn lemma_within_cell(marks: MarkBoard, end: Point, k: nat, q: int)
    requires
        end.spec_inside(),
        within(marks, end, k, q),
    ensures
        0 <= q < 16,
        q != end.spec_index() ==> !marks.spec_marked(q) && k > 0,
    decreases k,
{
    if k > 0 && within(marks, end, (k - 1) as nat, q) {
        lemma_within_cell(marks, end, (k - 1) as nat, q);
    }
}

/// The level of a cell is the length of its shortest walk.
pub proof fn lemma_walk_len(marks: MarkBoard, end: Point, k: nat, q: int)
    requires
        at_level(marks, end, k, q),
    ensures
        walk_len(marks, end, q) == k,
        reachable(marks, end, q),
{
    let w = walk_len(marks, end, q);
    assert(at_level(marks, end, w, q));
    if w < k {
        lemma_within_monotone(marks, end, w, (k - 1) as nat, q);
    } else if k < w {
        lemma_within_monotone(marks, end, k, (w - 1) as nat, q);
    }
}

/// A cell with a walk has a level.
pub proof fn lemma_reachable_level(marks: MarkBoard, end: Point, k: nat, q: int)
    requires
        within(marks, end, k, q),
    ensures
        at_level(marks, end, walk_len(marks, end, q), q),
        walk_len(marks, end, q) <= k,
    decreases k,
{
    if k > 0 && within(marks, end, (k - 1) as nat, q) {
        lemma_reachable_level(marks, end, (k - 1) as nat, q);
    } else {
        assert(at_level(marks, end, k, q));
        lemma_walk_len(marks, end, k, q);
    }
}

/// Once a level is empty, no larger number of steps reaches any further cell.
pub proof fn lemma_within_closed(marks: MarkBoard, end: Point, k: nat, j: nat, q: int)
    requires
        forall|c: int| within(marks, end, k + 1, c) ==> within(marks, end, k, c),
        within(marks, end, j, q),
    ensures
        within(marks, end, k, q),
    decreases j,
{
    if j <= k {
        lemma_within_monotone(marks, end, j, k, q);
    } else if within(marks, end, (j - 1) as nat, q) {
        lemma_within_closed(marks, end, k, (j - 1) as nat, q);
    } else {
        let a = if step_within(marks, end, (j - 1) as nat, q, Action::UP) {
            Action::UP
        } else if step_within(marks, end, (j - 1) as nat, q, Action::DOWN) {
            Action::DOWN
        } else if step_within(marks, end, (j - 1) as nat, q, Action::LEFT) {
            Action::LEFT
        } else {
            Action::RIGHT
        };
        let n = neighbor(q, a);
        lemma_within_closed(marks, end, k, (j - 1) as nat, n);
        assert(step_within(marks, end, k, q, a));
        assert(within(marks, end, k + 1, q));
    }
}

/// The neighbour of the image of a cell is the image of its neighbour.
pub proof fn lemma_neighbor_symmetry(q: int, a: Action, sym: Sym)
    requires
        0 <= q < 16,
    ensures
        neighbor(q, a) >= 0 <==> neighbor(
            Point(q as u8).spec_symmetry(sym).spec_index(),
            a.spec_symmetry(sym),
        ) >= 0,
        neighbor(q, a) >= 0 ==> neighbor(
            Point(q as u8).spec_symmetry(sym).spec_index(),
            a.spec_symmetry(sym),
        ) == Point(neighbor(q, a) as u8).spec_symmetry(sym).spec_index(),
{
    lemma_step_symmetry(Point(q as u8), a, sym);
    lemma_symmetry_reverse(Point(q as u8), sym);
}

/// A symmetry of the grid keeps the lengths of walks: the image of a cell is
/// within `k` steps of the image of `end` in the image of the pattern exactly
/// when the cell is within `k` steps of `end` in the pattern.
pub proof fn lemma_within_symmetry(marks: MarkBoard, end: Point, sym: Sym, k: nat, q: int)
    requires
        end.spec_inside(),
        0 <= q < 16,
    ensures
        within(
            marks.spec_symmetry(sym),
            end.spec_symmetry(sym),
            k,
            Point(q as u8).spec_symmetry(sym).spec_index(),
        ) == within(marks, end, k, q),
    decreases k,
{
    let cm = marks.spec_symmetry(sym);
    let ce = end.spec_symmetry(sym);
    let p = Point(q as u8);
    let cq = p.spec_symmetry(sym).spec_index();
    lemma_symmetry_reverse(p, sym);
    lemma_symmetry_reverse(end, sym);
    if k > 0 {
        let j = (k - 1) as nat;
        lemma_within_symmetry(marks, end, sym, j, q);
        lemma_symmetry_marked(marks, sym, cq);
        assert(cm.spec_marked(cq) == marks.spec_marked(q));
        assert forall|a: Action|
            within(cm, ce, j, neighbor(cq, a.spec_symmetry(sym))) == within(
                marks,
                end,
                j,
                neighbor(q, a),
            ) by {
            lemma_neighbor_symmetry(q, a, sym);
            if neighbor(q, a) >= 0 {
                lemma_within_symmetry(marks, end, sym, j, neighbor(q, a));
            } else {
                if within(cm, ce, j, -1) {
                    lemma_within_cell(cm, ce, j, -1);
                }
                if within(marks, end, j, -1) {
                    lemma_within_cell(marks, end, j, -1);
                }
            }
        }
        lemma_action_symmetry_reverse(Action::UP, sym);
        lemma_action_symmetry_reverse(Action::DOWN, sym);
        lemma_action_symmetry_reverse(Action::LEFT, sym);
        lemma_action_symmetry_reverse(Action::RIGHT, sym);
        let up = Action::UP.spec_reverse_symmetry(sym);
        let down = Action::DOWN.spec_reverse_symmetry(sym);
        let left = Action::LEFT.spec_reverse_symmetry(sym);
        let right = Action::RIGHT.spec_reverse_symmetry(sym);
        assert(within(cm, ce, j, neighbor(cq, Action::UP)) == within(marks, end, j, neighbor(q, up)));
        assert(within(cm, ce, j, neighbor(cq, Action::DOWN)) == within(
            marks,
            end,
            j,
            neighbor(q, down),
        ));
        assert(within(cm, ce, j, neighbor(cq, Action::LEFT)) == within(
            marks,
            end,
            j,
            neighbor(q, left),
        ));
        assert(within(cm, ce, j, neighbor(cq, Action::RIGHT)) == within(
            marks,
            end,
            j,
            neighbor(q, right),
        ));
        assert(within(cm, ce, j, neighbor(cq, Action::UP.spec_symmetry(sym))) == within(
            marks,
            end,
            j,
            neighbor(q, Action::UP),
        ));
        assert(within(cm, ce, j, neighbor(cq, Action::DOWN.spec_symmetry(sym))) == within(
            marks,
            end,
            j,
            neighbor(q, Action::DOWN),
        ));
        assert(within(cm, ce, j, neighbor(cq, Action::LEFT.spec_symmetry(sym))) == within(
            marks,
            end,
            j,
            neighbor(q, Action::LEFT),
        ));
        assert(within(cm, ce, j, neighbor(cq, Action::RIGHT.spec_symmetry(sym))) == within(
            marks,
            end,
            j,
            neighbor(q, Action::RIGHT),
        ));
    }
}

/// The move that the table holds for a cell with a walk takes it one step nearer.
pub proof fn lemma_preferred_shortens(marks: MarkBoard, end: Point, q: int)
    requires
        end.spec_inside(),
        q != end.spec_index(),
        reachable(marks, end, q),
    ensures
        shortens(marks, end, q, preferred_move(marks, end, q)),
{
    let j = choose|j: nat| within(marks, end, j, q);
    lemma_reachable_level(marks, end, j, q);
}

/// A symmetry of the grid keeps the moves that lead nearer: a move takes the
/// image of a cell one step nearer to the image of `end` exactly when the move
/// that the symmetry turns into it takes the cell one step nearer to `end`.
pub proof fn lemma_shortens_symmetry(marks: MarkBoard, end: Point, sym: Sym, q: int, a: Action)
    requires
        end.spec_inside(),
        0 <= q < 16,
    ensures
        reachable(
            marks.spec_symmetry(sym),
            end.spec_symmetry(sym),
            Point(q as u8).spec_symmetry(sym).spec_index(),
        ) == reachable(marks, end, q),
        reachable(marks, end, q) ==> shortens(
            marks.spec_symmetry(sym),
            end.spec_symmetry(sym),
            Point(q as u8).spec_symmetry(sym).spec_index(),
            a.spec_symmetry(sym),
        ) == shortens(marks, end, q, a),
{
    let cm = marks.spec_symmetry(sym);
    let ce = end.spec_symmetry(sym);
    let cq = Point(q as u8).spec_symmetry(sym).spec_index();
    lemma_symmetry_reverse(Point(q as u8), sym);
    if reachable(marks, end, q) {
        let j = choose|j: nat| within(marks, end, j, q);
        lemma_within_symmetry(marks, end, sym, j, q);
    }
    if reachable(cm, ce, cq) {
        let j = choose|j: nat| within(cm, ce, j, cq);
        lemma_within_symmetry(marks, end, sym, j, q);
    }
    if reachable(marks, end, q) {
        let j = choose|j: nat| within(marks, end, j, q);
        lemma_reachable_level(marks, end, j, q);
        let k = walk_len(marks, end, q);
        lemma_within_symmetry(marks, end, sym, k, q);
        if k > 0 {
            lemma_within_symmetry(marks, end, sym, (k - 1) as nat, q);
        }
        lemma_walk_len(cm, ce, k, cq);
        if k > 0 {
            lemma_neighbor_symmetry(q, a, sym);
            if neighbor(q, a) >= 0 {
                lemma_within_symmetry(marks, end, sym, (k - 1) as nat, neighbor(q, a));
            } else {
                if within(cm, ce, (k - 1) as nat, -1) {
                    lemma_within_cell(cm, ce, (k - 1) as nat, -1);
                }
                if within(marks, end, (k - 1) as nat, -1) {
                    lemma_within_cell(marks, end, (k - 1) as nat, -1);
                }
            }
        }
    }
}

} // verus!
