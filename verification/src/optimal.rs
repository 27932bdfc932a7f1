//! Why the search finds a shortest solution: every board that has a solution
//! within the budget gets one from the search, and none is shorter.

use crate::action::Action;
use crate::board::{
    moved_cells, spec_action, spec_lost, spec_marks, spec_move_towards, spec_won,
    spec_zero_walk_endings, BoardView,
};
use crate::marks::{
    lemma_ends_for, lemma_folded_step_shortens, lemma_pattern, spec_action_towards, table_step,
    MarkBoard,
};
use crate::solve::{
    expand_choices, first_win, lemma_expand_all_sound, lemma_lost_never_wins,
    lemma_search_round, lemma_search_start, lemma_solve_from, play, sound, spec_apply,
    spec_choices, spec_expand, spec_expand_all, spec_frontier, spec_solve, spec_solve_from,
    spec_visited, start_step, survives, wins, Choice, StepView,
};
use crate::values::Point;
use crate::walk::{
    at_level, lemma_reachable_level, lemma_walk_len, lemma_within_cell, lemma_within_monotone,
    neighbor, reachable, shortens, step_within, walk_len, within,
};
use vstd::prelude::*;

verus! {

/// The board has sixteen cells and the player stands on the grid.
pub open spec fn on_grid(b: BoardView) -> bool {
    b.cells.len() == 16 && b.pos.spec_inside()
}

/// `moves` wins `start`, and no list of moves that wins `start` is shorter.
pub open spec fn shortest(start: BoardView, moves: Seq<Action>) -> bool {
    wins(start, moves) && forall|other: Seq<Action>| #[trigger]
        wins(start, other) ==> moves.len() <= other.len()
}

/// Playing two lists of moves one after the other.
pub proof fn lemma_play_concat(b: BoardView, first: Seq<Action>, second: Seq<Action>)
    ensures
        play(b, first + second) == match play(b, first) {
            Some(x) => play(x, second),
            None => None,
        },
    decreases second.len(),
{
    if second.len() == 0 {
        assert(first + second =~= first);
    } else {
        lemma_play_concat(b, first, second.drop_last());
        assert((first + second).drop_last() =~= first + second.drop_last());
        assert((first + second).last() == second.last());
    }
}

/// Playing a list of moves as its first `i` moves and the rest.
pub proof fn lemma_play_split(b: BoardView, moves: Seq<Action>, i: int)
    requires
        0 <= i <= moves.len(),
    ensures
        play(b, moves) == match play(b, moves.take(i)) {
            Some(x) => play(x, moves.skip(i)),
            None => None,
        },
{
    lemma_play_concat(b, moves.take(i), moves.skip(i));
    assert(moves.take(i) + moves.skip(i) =~= moves);
}

/// A move keeps the board on the grid.
pub proof fn lemma_action_on_grid(b: BoardView, a: Action)
    requires
        on_grid(b),
    ensures
        match spec_action(b, a) {
            Some(n) => on_grid(n),
            None => true,
        },
{
}

/// Moves keep the board on the grid.
pub proof fn lemma_play_on_grid(b: BoardView, moves: Seq<Action>)
    requires
        on_grid(b),
    ensures
        match play(b, moves) {
            Some(n) => on_grid(n),
            None => true,
        },
    decreases moves.len(),
{
    if moves.len() > 0 {
        lemma_play_on_grid(b, moves.drop_last());
        match play(b, moves.drop_last()) {
            Some(x) => lemma_action_on_grid(x, moves.last()),
            None => {},
        }
    }
}

/// Where a list of moves wins, one that is shortest wins.
pub proof fn lemma_shortest_exists(start: BoardView, moves: Seq<Action>) -> (best: Seq<Action>)
    requires
        wins(start, moves),
    ensures
        shortest(start, best),
        best.len() <= moves.len(),
    decreases moves.len(),
{
    if forall|other: Seq<Action>| #[trigger] wins(start, other) ==> moves.len() <= other.len() {
        moves
    } else {
        let other = choose|other: Seq<Action>| #[trigger]
            wins(start, other) && !(moves.len() <= other.len());
        lemma_shortest_exists(start, other)
    }
}

/// A move from an empty cell changes the position only.
pub proof fn lemma_free_move(b: BoardView, a: Action)
    requires
        on_grid(b),
        b.cells[b.pos.spec_index()] == 0,
    ensures
        match spec_action(b, a) {
            Some(n) => n.cells == b.cells && n.pos == b.pos.spec_step(a) && n.pos.spec_index()
                == neighbor(b.pos.spec_index(), a),
            None => neighbor(b.pos.spec_index(), a) < 0,
        },
{
    assert(moved_cells(b.cells, b.pos, a) =~= b.cells);
    assert(Point(b.pos.spec_index() as u8) == b.pos);
}

/// A cell of the board is occupied exactly where its pattern marks it.
pub proof fn lemma_marks_of(b: BoardView, q: int)
    requires
        0 <= q < 16,
    ensures
        spec_marks(b).spec_marked(q) == (b.cells[q] != 0),
{
    lemma_pattern(|i: int| b.cells[i] != 0);
}

/// Playing a single move.
pub proof fn lemma_play_one(b: BoardView, a: Action)
    ensures
        play(b, seq![a]) == spec_action(b, a),
{
    assert(seq![a].drop_last() =~= Seq::<Action>::empty());
    assert(play(b, Seq::<Action>::empty()) == Some(b));
}

/// The board `b` with the player at `pos`.
pub open spec fn moved_to(b: BoardView, pos: Point) -> BoardView {
    BoardView { pos, cells: b.cells }
}

/// The moves of the walk that the cache gives from `pos` towards `end`, at
/// most `n` of them.
pub open spec fn walk_moves(marks: MarkBoard, pos: Point, end: Point, n: nat) -> Seq<Action>
    decreases n,
{
    if n == 0 || pos == end {
        Seq::empty()
    } else {
        match spec_action_towards(marks, pos, end) {
            None => Seq::empty(),
            Some(a) => seq![a] + walk_moves(marks, pos.spec_step(a), end, (n - 1) as nat),
        }
    }
}

/// One step of the walk that the cache gives: from a cell that is `d` steps
/// from the occupied cell `end`, the move leads over an empty cell to a cell
/// that is `d - 1` steps from `end`, and changes no magnitude.
pub proof fn lemma_walk_step(b: BoardView, end: Point, d: nat)
    requires
        on_grid(b),
        end.spec_inside(),
        spec_marks(b).spec_marked(end.spec_index()),
        at_level(spec_marks(b), end, d, b.pos.spec_index()),
        d > 0,
    ensures
        b.pos != end,
        b.cells[b.pos.spec_index()] == 0,
        table_step(spec_marks(b), end, b.pos.spec_index()) is Some,
        spec_action_towards(spec_marks(b), b.pos, end) is Some,
        spec_move_towards(b, end) is Some,
        ({
            let a = spec_action_towards(spec_marks(b), b.pos, end).unwrap();
            let next = moved_to(b, b.pos.spec_step(a));
            &&& spec_action(b, a) == Some(next)
            &&& spec_move_towards(b, end) == Some((a, next))
            &&& on_grid(next)
            &&& spec_marks(next) == spec_marks(b)
            &&& at_level(spec_marks(b), end, (d - 1) as nat, next.pos.spec_index())
        }),
{
    let marks = spec_marks(b);
    let q = b.pos.spec_index();
    lemma_within_monotone(marks, end, 0, (d - 1) as nat, end.spec_index());
    lemma_within_cell(marks, end, d, q);
    lemma_marks_of(b, q);
    lemma_walk_len(marks, end, d, q);
    lemma_folded_step_shortens(marks, crate::marks::canonical_symmetry(marks), b.pos, end);
    let a = spec_action_towards(marks, b.pos, end).unwrap();
    assert(shortens(marks, end, q, a));
    let n = neighbor(q, a);
    lemma_within_cell(marks, end, (d - 1) as nat, n);
    lemma_free_move(b, a);
    let next = moved_to(b, b.pos.spec_step(a));
    assert(spec_action(b, a) == Some(next));
    if d - 1 > 0 && within(marks, end, (d - 2) as nat, n) {
        assert(step_within(marks, end, (d - 2) as nat, q, a));
        assert(within(marks, end, (d - 1) as nat, q));
    }
}

/// The walk that the cache gives from a cell that is `d` steps from the
/// occupied cell `end` has `d` moves and leads to `end` without a change of
/// any magnitude.
pub proof fn lemma_walk_moves(b: BoardView, end: Point, d: nat)
    requires
        on_grid(b),
        end.spec_inside(),
        spec_marks(b).spec_marked(end.spec_index()),
        at_level(spec_marks(b), end, d, b.pos.spec_index()),
    ensures
        walk_moves(spec_marks(b), b.pos, end, d).len() == d,
        play(b, walk_moves(spec_marks(b), b.pos, end, d)) == Some(moved_to(b, end)),
    decreases d,
{
    let marks = spec_marks(b);
    if d == 0 {
        assert(b.pos == end);
        assert(play(b, Seq::<Action>::empty()) == Some(b));
    } else {
        lemma_walk_step(b, end, d);
        let a = spec_action_towards(marks, b.pos, end).unwrap();
        let next = moved_to(b, b.pos.spec_step(a));
        lemma_walk_moves(next, end, (d - 1) as nat);
        let rest = walk_moves(marks, next.pos, end, (d - 1) as nat);
        lemma_play_concat(b, seq![a], rest);
        lemma_play_one(b, a);
    }
}

/// Moves that win from an empty cell start with a walk over empty cells to an
/// occupied cell: the first `t` moves change no magnitude and lead to a cell
/// `end` that is within `t` steps.
pub proof fn lemma_free_segment(x: BoardView, rest: Seq<Action>) -> (r: (nat, Point))
    requires
        on_grid(x),
        x.cells[x.pos.spec_index()] == 0,
        wins(x, rest),
        !spec_won(x.cells),
    ensures
        1 <= r.0 <= rest.len(),
        r.1.spec_inside(),
        x.cells[r.1.spec_index()] != 0,
        play(x, rest.take(r.0 as int)) == Some(moved_to(x, r.1)),
        within(spec_marks(x), r.1, r.0, x.pos.spec_index()),
    decreases rest.len(),
{
    let marks = spec_marks(x);
    let q = x.pos.spec_index();
    if rest.len() == 0 {
        assert(play(x, rest) == Some(x));
        (0, x.pos)
    } else {
        let a = rest[0];
        lemma_play_split(x, rest, 1);
        assert(rest.take(1) =~= seq![a]);
        lemma_play_one(x, a);
        lemma_free_move(x, a);
        let x1 = spec_action(x, a).unwrap();
        assert(x1 == moved_to(x, x.pos.spec_step(a)));
        lemma_marks_of(x, q);
        lemma_marks_of(x, x1.pos.spec_index());
        if x.cells[x1.pos.spec_index()] != 0 {
            assert(within(marks, x1.pos, 0, neighbor(q, a)));
            assert(within(marks, x1.pos, 1, q)) by {
                match a {
                    Action::UP => {},
                    Action::DOWN => {},
                    Action::LEFT => {},
                    Action::RIGHT => {},
                }
            }
            (1, x1.pos)
        } else {
            let r1 = lemma_free_segment(x1, rest.skip(1));
            let t = r1.0 + 1;
            assert(within(marks, r1.1, t as nat, q)) by {
                match a {
                    Action::UP => {},
                    Action::DOWN => {},
                    Action::LEFT => {},
                    Action::RIGHT => {},
                }
            }
            lemma_play_split(x, rest.take(t as int), 1);
            assert(rest.take(t as int).take(1) =~= seq![a]);
            assert(rest.take(t as int).skip(1) =~= rest.skip(1).take(r1.0 as int));
            ((t as nat), r1.1)
        }
    }
}

/// `first` is the start of `whole`.
pub open spec fn starts_with(whole: Seq<Action>, first: Seq<Action>) -> bool {
    first.len() <= whole.len() && whole.take(first.len() as int) == first
}

/// Every board of `visited` is reached from `start` by fewer than `k` moves.
pub open spec fn reached_before(start: BoardView, k: nat, visited: Set<BoardView>) -> bool {
    forall|b: BoardView| #[trigger]
        visited.contains(b) ==> exists|m: Seq<Action>|
            m.len() < k && #[trigger] play(start, m) == Some(b)
}

/// A walk that the node `n` has under way is the walk that the moves `v` go on
/// with after their first `k` moves.
#[verifier::opaque]
pub open spec fn walking(n: StepView, v: Seq<Action>, k: int) -> bool {
    match n.pending {
        None => true,
        Some(e) => {
            let marks = spec_marks(n.board);
            let d = walk_len(marks, e, n.board.pos.spec_index());
            &&& e.spec_inside()
            &&& marks.spec_marked(e.spec_index())
            &&& d > 0
            &&& at_level(marks, e, d, n.board.pos.spec_index())
            &&& starts_with(v.skip(k), walk_moves(marks, n.board.pos, e, d))
        },
    }
}

/// The node `n` is where the moves `v` are after their first `k` moves.
#[verifier::opaque]
pub open spec fn tracks(start: BoardView, v: Seq<Action>, k: int, n: StepView) -> bool {
    &&& n.moves == v.take(k)
    &&& play(start, n.moves) == Some(n.board)
    &&& walking(n, v, k)
}

/// The board after `k + 1` moves of a shortest solution stays in the search:
/// it is not lost, and no shorter way leads to it.
pub proof fn lemma_survives(
    start: BoardView,
    v: Seq<Action>,
    k: int,
    next: StepView,
    visited: Set<BoardView>,
)
    requires
        on_grid(start),
        shortest(start, v),
        0 <= k < v.len(),
        play(start, v.take(k + 1)) == Some(next.board),
        reached_before(start, k as nat, visited),
    ensures
        survives(next, visited),
{
    lemma_play_split(start, v, k + 1);
    lemma_play_on_grid(start, v.take(k + 1));
    let tail = v.skip(k + 1);
    if spec_lost(next.board.cells) {
        lemma_lost_never_wins(next.board, tail);
    }
    if visited.contains(next.board) {
        let m = choose|m: Seq<Action>| m.len() < k && #[trigger] play(start, m) == Some(next.board);
        lemma_play_concat(start, m, tail);
        assert(wins(start, m + tail));
        assert((m + tail).len() < v.len());
    }
}

/// A node on an occupied cell that tracks a shortest solution has a follower
/// that tracks it one move further.
pub proof fn lemma_track_free(
    start: BoardView,
    v: Seq<Action>,
    k: int,
    n: StepView,
    visited: Set<BoardView>,
) -> (next: StepView)
    requires
        on_grid(start),
        shortest(start, v),
        0 <= k < v.len(),
        tracks(start, v, k, n),
        n.pending is None,
        reached_before(start, k as nat, visited),
    ensures
        spec_apply(n, Choice::Free(v[k])) == Some(next),
        survives(next, visited),
        tracks(start, v, k + 1, next),
{
    reveal(tracks);
    reveal(walking);
    lemma_play_split(start, v, k + 1);
    lemma_take_push(v, k);
    let b = spec_action(n.board, v[k]).unwrap();
    let next = StepView { board: b, moves: n.moves.push(v[k]), pending: None };
    lemma_survives(start, v, k, next, visited);
    next
}

/// A node with a walk that a shortest solution goes on with has a follower
/// that tracks the solution one move further.
#[verifier::rlimit(40)]
pub proof fn lemma_track_walk(
    start: BoardView,
    v: Seq<Action>,
    k: int,
    n: StepView,
    e: Point,
    visited: Set<BoardView>,
) -> (next: StepView)
    requires
        on_grid(start),
        shortest(start, v),
        0 <= k < v.len(),
        n.moves == v.take(k),
        play(start, n.moves) == Some(n.board),
        walking(StepView { board: n.board, moves: n.moves, pending: Some(e) }, v, k),
        reached_before(start, k as nat, visited),
    ensures
        spec_apply(n, Choice::ZeroPath(e)) == Some(next),
        survives(next, visited),
        tracks(start, v, k + 1, next),
{
    reveal(tracks);
    reveal(walking);
    let x = n.board;
    let marks = spec_marks(x);
    let d = walk_len(marks, e, x.pos.spec_index());
    lemma_play_on_grid(start, n.moves);
    lemma_walk_step(x, e, d);
    let a = spec_action_towards(marks, x.pos, e).unwrap();
    let b = moved_to(x, x.pos.spec_step(a));
    let w1 = walk_moves(marks, b.pos, e, (d - 1) as nat);
    assert(walk_moves(marks, x.pos, e, d) == seq![a] + w1);
    lemma_starts_with_step(v, k, a, w1);
    lemma_marks_of(x, e.spec_index());
    let next = StepView {
        board: b,
        moves: n.moves.push(a),
        pending: if b.pos == e || b.cells[e.spec_index()] == 0 {
            None
        } else {
            Some(e)
        },
    };
    lemma_take_push(v, k);
    lemma_survives(start, v, k, next, visited);
    if b.pos != e {
        lemma_walk_len(marks, e, (d - 1) as nat, b.pos.spec_index());
    }
    next
}

/// The first `k + 1` of a list of moves are its first `k` and the next one.
pub proof fn lemma_take_push(v: Seq<Action>, k: int)
    requires
        0 <= k < v.len(),
    ensures
        v.take(k).push(v[k]) == v.take(k + 1),
        v.take(k + 1).drop_last() == v.take(k),
        v.take(k + 1).last() == v[k],
{
    assert(v.take(k).push(v[k]) =~= v.take(k + 1));
    assert(v.take(k + 1).drop_last() =~= v.take(k));
}

/// Moves that go on with a walk go on with its first move and then with the rest of it.
pub proof fn lemma_starts_with_step(v: Seq<Action>, k: int, a: Action, rest: Seq<Action>)
    requires
        0 <= k <= v.len(),
        starts_with(v.skip(k), seq![a] + rest),
    ensures
        k < v.len(),
        v[k] == a,
        starts_with(v.skip(k + 1), rest),
{
    let w = seq![a] + rest;
    assert(v.skip(k).take(w.len() as int)[0] == w[0]);
    assert(rest =~= w.skip(1));
    assert(v.skip(k + 1).take(rest.len() as int) =~= v.skip(k).take(w.len() as int).skip(1));
}

/// A node that stands on an empty cell with no walk under way and tracks a
/// shortest solution tracks one that goes on with the walk that the cache
/// gives towards some occupied cell.
#[verifier::rlimit(40)]
pub proof fn lemma_track_fresh(start: BoardView, v: Seq<Action>, k: int, n: StepView) -> (r: (
    Seq<Action>,
    Point,
))
    requires
        on_grid(start),
        shortest(start, v),
        0 <= k < v.len(),
        tracks(start, v, k, n),
        n.board.cells[n.board.pos.spec_index()] == 0,
    ensures
        shortest(start, r.0),
        r.0.len() == v.len(),
        r.0.take(k) == v.take(k),
        table_step(spec_marks(n.board), r.1, n.board.pos.spec_index()) is Some,
        r.1.spec_inside(),
        walking(StepView { board: n.board, moves: n.moves, pending: Some(r.1) }, r.0, k),
{
    reveal(tracks);
    reveal(walking);
    let x = n.board;
    let marks = spec_marks(x);
    let q = x.pos.spec_index();
    let rest = v.skip(k);
    lemma_play_split(start, v, k);
    lemma_play_on_grid(start, n.moves);
    if spec_won(x.cells) {
        assert(wins(start, v.take(k)));
    }
    let seg = lemma_free_segment(x, rest);
    let t = seg.0;
    let e = seg.1;
    lemma_marks_of(x, e.spec_index());
    lemma_marks_of(x, q);
    lemma_reachable_level(marks, e, t, q);
    let d = walk_len(marks, e, q);
    lemma_walk_moves(x, e, d);
    let w = walk_moves(marks, x.pos, e, d);
    lemma_replace_segment(start, v, k, t as int, w, x, moved_to(x, e));
    let better = v.take(k) + w + rest.skip(t as int);
    assert(v.len() <= better.len());
    assert(reachable(marks, e, q));
    (better, e)
}

/// Moves that win still win when a part of them gives way to other moves that
/// lead from the same board to the same board.
pub proof fn lemma_replace_segment(
    start: BoardView,
    v: Seq<Action>,
    k: int,
    t: int,
    w: Seq<Action>,
    x: BoardView,
    y: BoardView,
)
    requires
        0 <= k,
        0 <= t,
        k + t <= v.len(),
        wins(start, v),
        play(start, v.take(k)) == Some(x),
        play(x, v.skip(k).take(t)) == Some(y),
        play(x, w) == Some(y),
    ensures
        wins(start, v.take(k) + w + v.skip(k).skip(t)),
        (v.take(k) + w + v.skip(k).skip(t)).len() == v.len() - t + w.len(),
        (v.take(k) + w + v.skip(k).skip(t)).take(k) == v.take(k),
        starts_with((v.take(k) + w + v.skip(k).skip(t)).skip(k), w),
{
    let rest = v.skip(k);
    let tail = rest.skip(t);
    let better = v.take(k) + w + tail;
    lemma_play_split(start, v, k);
    lemma_play_split(x, rest, t);
    lemma_play_concat(start, v.take(k), w);
    lemma_play_concat(start, v.take(k) + w, tail);
    assert(better.take(k) =~= v.take(k));
    assert(better.skip(k).take(w.len() as int) =~= w);
}

/// What a choice of a node leads to is among the followers of the node, if it
/// stays in the search.
pub proof fn lemma_apply_in_expand(
    s: StepView,
    choices: Seq<Choice>,
    j: int,
    visited: Set<BoardView>,
    next: StepView,
)
    requires
        0 <= j < choices.len(),
        spec_apply(s, choices[j]) == Some(next),
        survives(next, visited),
    ensures
        expand_choices(s, choices, visited).contains(next),
    decreases choices.len(),
{
    let rest = expand_choices(s, choices.drop_last(), visited);
    let all = expand_choices(s, choices, visited);
    if j == choices.len() - 1 {
        assert(all == rest.push(next));
        assert(all[rest.len() as int] == next);
    } else {
        assert(choices.drop_last()[j] == choices[j]);
        lemma_apply_in_expand(s, choices.drop_last(), j, visited, next);
        let i = choose|i: int| 0 <= i < rest.len() && rest[i] == next;
        assert(all[i] == next);
    }
}

/// The followers of a node of a list are among the followers of the list.
pub proof fn lemma_expand_in_all(
    steps: Seq<StepView>,
    i: int,
    visited: Set<BoardView>,
    next: StepView,
)
    requires
        0 <= i < steps.len(),
        spec_expand(steps[i], visited).contains(next),
    ensures
        spec_expand_all(steps, visited).contains(next),
    decreases steps.len(),
{
    let head = spec_expand_all(steps.drop_last(), visited);
    let tail = spec_expand(steps.last(), visited);
    if i == steps.len() - 1 {
        let j = choose|j: int| 0 <= j < tail.len() && tail[j] == next;
        assert((head + tail)[head.len() + j] == next);
    } else {
        assert(steps.drop_last()[i] == steps[i]);
        lemma_expand_in_all(steps.drop_last(), i, visited, next);
        let j = choose|j: int| 0 <= j < head.len() && head[j] == next;
        assert((head + tail)[j] == next);
    }
}

/// What tracking says of a node.
proof fn lemma_tracks(start: BoardView, v: Seq<Action>, k: int, n: StepView)
    requires
        tracks(start, v, k, n),
    ensures
        n.moves == v.take(k),
        play(start, n.moves) == Some(n.board),
        walking(n, v, k),
{
    reveal(tracks);
}

/// A node with a walk under way stands on an empty cell.
proof fn lemma_walking_on_empty(n: StepView, v: Seq<Action>, k: int)
    requires
        on_grid(n.board),
        n.pending is Some,
        walking(n, v, k),
    ensures
        n.board.cells[n.board.pos.spec_index()] == 0,
{
    reveal(walking);
    let marks = spec_marks(n.board);
    let q = n.board.pos.spec_index();
    let e = n.pending.unwrap();
    let d = walk_len(marks, e, q);
    lemma_marks_of(n.board, q);
    lemma_within_cell(marks, e, d, q);
    lemma_within_monotone(marks, e, 0, (d - 1) as nat, e.spec_index());
}

/// A node on an occupied cell that tracks a shortest solution has a follower
/// in the search that tracks it one move further.
#[verifier::rlimit(40)]
proof fn lemma_track_step_occupied(
    start: BoardView,
    v: Seq<Action>,
    k: int,
    n: StepView,
    visited: Set<BoardView>,
) -> (next: StepView)
    requires
        on_grid(start),
        shortest(start, v),
        0 <= k < v.len(),
        tracks(start, v, k, n),
        reached_before(start, k as nat, visited),
        n.board.cells[n.board.pos.spec_index()] != 0,
    ensures
        tracks(start, v, k + 1, next),
        spec_expand(n, visited).contains(next),
{
    lemma_tracks(start, v, k, n);
    lemma_play_on_grid(start, n.moves);
    if n.pending is Some {
        lemma_walking_on_empty(n, v, k);
    }
    let next = lemma_track_free(start, v, k, n, visited);
    let choices = seq![
        Choice::Free(Action::UP),
        Choice::Free(Action::DOWN),
        Choice::Free(Action::LEFT),
        Choice::Free(Action::RIGHT),
    ];
    assert(spec_choices(n) == choices);
    let j = v[k].spec_index();
    assert(choices[j] == Choice::Free(v[k]));
    lemma_apply_in_expand(n, choices, j, visited, next);
    next
}

/// A node on an empty cell with a walk under way that tracks a shortest
/// solution has a follower in the search that tracks it one move further.
proof fn lemma_track_step_walking(
    start: BoardView,
    v: Seq<Action>,
    k: int,
    n: StepView,
    visited: Set<BoardView>,
) -> (next: StepView)
    requires
        on_grid(start),
        shortest(start, v),
        0 <= k < v.len(),
        tracks(start, v, k, n),
        reached_before(start, k as nat, visited),
        n.board.cells[n.board.pos.spec_index()] == 0,
        n.pending is Some,
    ensures
        tracks(start, v, k + 1, next),
        spec_expand(n, visited).contains(next),
{
    let e = n.pending.unwrap();
    lemma_tracks(start, v, k, n);
    assert(n == StepView { board: n.board, moves: n.moves, pending: Some(e) });
    let next = lemma_track_walk(start, v, k, n, e, visited);
    let choices = seq![Choice::ZeroPath(e)];
    assert(spec_choices(n) == choices);
    assert(choices[0] == Choice::ZeroPath(e));
    lemma_apply_in_expand(n, choices, 0, visited, next);
    next
}

/// A node on an empty cell with no walk under way that tracks a shortest
/// solution has a follower in the search that tracks a shortest solution one
/// move further.
proof fn lemma_track_step_fresh(
    start: BoardView,
    v: Seq<Action>,
    k: int,
    n: StepView,
    visited: Set<BoardView>,
) -> (r: (Seq<Action>, StepView))
    requires
        on_grid(start),
        shortest(start, v),
        0 <= k < v.len(),
        tracks(start, v, k, n),
        reached_before(start, k as nat, visited),
        n.board.cells[n.board.pos.spec_index()] == 0,
        n.pending is None,
    ensures
        shortest(start, r.0),
        r.0.len() == v.len(),
        tracks(start, r.0, k + 1, r.1),
        spec_expand(n, visited).contains(r.1),
{
    let x = n.board;
    lemma_tracks(start, v, k, n);
    let fresh = lemma_track_fresh(start, v, k, n);
    let better = fresh.0;
    let e = fresh.1;
    let next = lemma_track_walk(start, better, k, n, e, visited);
    let ends = spec_zero_walk_endings(x);
    lemma_play_on_grid(start, n.moves);
    lemma_ends_for(spec_marks(x), x.pos, e);
    let j = choose|j: int| 0 <= j < ends.len() && ends[j] == e;
    let choices = Seq::new(ends.len(), |i: int| Choice::ZeroPath(ends[i]));
    assert(spec_choices(n) == choices);
    assert(choices[j] == Choice::ZeroPath(e));
    lemma_apply_in_expand(n, choices, j, visited, next);
    (better, next)
}

/// A node that tracks a shortest solution has a follower in the search that
/// tracks a shortest solution one move further.
pub proof fn lemma_track_step(
    start: BoardView,
    v: Seq<Action>,
    k: int,
    n: StepView,
    visited: Set<BoardView>,
) -> (r: (Seq<Action>, StepView))
    requires
        on_grid(start),
        shortest(start, v),
        0 <= k < v.len(),
        tracks(start, v, k, n),
        reached_before(start, k as nat, visited),
    ensures
        shortest(start, r.0),
        r.0.len() == v.len(),
        tracks(start, r.0, k + 1, r.1),
        spec_expand(n, visited).contains(r.1),
{
    if n.board.cells[n.board.pos.spec_index()] != 0 {
        (v, lemma_track_step_occupied(start, v, k, n, visited))
    } else if n.pending is Some {
        (v, lemma_track_step_walking(start, v, k, n, visited))
    } else {
        lemma_track_step_fresh(start, v, k, n, visited)
    }
}

/// The moves of every node of round `k` lead from the start to its board.
pub proof fn lemma_frontier_sound(start: BoardView, k: nat)
    ensures
        forall|i: int|
            0 <= i < spec_frontier(start, k).len() ==> sound(
                start,
                k,
                #[trigger] spec_frontier(start, k)[i],
            ),
    decreases k,
{
    if k == 0 {
        lemma_search_start(start);
        assert(play(start, Seq::<Action>::empty()) == Some(start));
    } else {
        lemma_frontier_sound(start, (k - 1) as nat);
        lemma_search_round(start, (k - 1) as nat);
        lemma_expand_all_sound(
            start,
            (k - 1) as nat,
            spec_frontier(start, (k - 1) as nat),
            spec_visited(start, (k - 1) as nat),
        );
    }
}

/// Every board that the search has expanded before round `k` is reached by
/// fewer than `k` moves.
pub proof fn lemma_visited_reached(start: BoardView, k: nat)
    ensures
        reached_before(start, k, spec_visited(start, k)),
    decreases k,
{
    if k == 0 {
        lemma_search_start(start);
    } else {
        let j = (k - 1) as nat;
        lemma_visited_reached(start, j);
        lemma_frontier_sound(start, j);
        lemma_search_round(start, j);
        let front = spec_frontier(start, j);
        assert forall|b: BoardView| #[trigger] spec_visited(start, k).contains(b) implies exists|
            m: Seq<Action>,
        | m.len() < k && #[trigger] play(start, m) == Some(b) by {
            if spec_visited(start, j).contains(b) {
                let m = choose|m: Seq<Action>| m.len() < j && #[trigger] play(start, m) == Some(b);
                assert(m.len() < k && play(start, m) == Some(b));
            } else {
                let i = choose|i: int| 0 <= i < front.len() && (#[trigger] front[i]).board == b;
                assert(sound(start, j, front[i]));
                assert(front[i].moves.len() < k && play(start, front[i].moves) == Some(b));
            }
        }
    }
}

/// What `first_win` gives are the moves of a node whose board is won, and it
/// gives them wherever there is such a node.
pub proof fn lemma_first_win_member(steps: Seq<StepView>)
    ensures
        match first_win(steps) {
            Some(m) => exists|j: int|
                0 <= j < steps.len() && (#[trigger] steps[j]).moves == m && spec_won(
                    steps[j].board.cells,
                ),
            None => forall|j: int|
                0 <= j < steps.len() ==> !spec_won((#[trigger] steps[j]).board.cells),
        },
    decreases steps.len(),
{
    if steps.len() > 0 {
        if spec_won(steps[0].board.cells) {
            assert(steps[0].moves == first_win(steps).unwrap());
        } else {
            let rest = steps.drop_first();
            lemma_first_win_member(rest);
            match first_win(rest) {
                Some(m) => {
                    let j = choose|j: int|
                        0 <= j < rest.len() && (#[trigger] rest[j]).moves == m && spec_won(
                            rest[j].board.cells,
                        );
                    assert(steps[j + 1] == rest[j]);
                },
                None => {
                    assert forall|j: int| 0 <= j < steps.len() implies !spec_won(
                        (#[trigger] steps[j]).board.cells,
                    ) by {
                        if j > 0 {
                            assert(steps[j] == rest[j - 1]);
                        }
                    }
                },
            }
        }
    }
}

/// From a round that holds a node which tracks a shortest solution, the
/// search returns a solution that is no longer.
pub proof fn lemma_search_complete(start: BoardView, max: nat, v: Seq<Action>, k: nat, i: int)
    requires
        on_grid(start),
        shortest(start, v),
        v.len() <= max,
        k < v.len(),
        0 <= i < spec_frontier(start, k).len(),
        tracks(start, v, k as int, spec_frontier(start, k)[i]),
    ensures
        spec_solve_from(start, k, max) is Some,
        spec_solve_from(start, k, max).unwrap().len() <= v.len(),
    decreases v.len() - k,
{
    let front = spec_frontier(start, k);
    let visited = spec_visited(start, k);
    let after = spec_frontier(start, k + 1);
    lemma_visited_reached(start, k);
    let step = lemma_track_step(start, v, k as int, front[i], visited);
    let better = step.0;
    let next = step.1;
    lemma_expand_in_all(front, i, visited, next);
    lemma_search_round(start, k);
    lemma_solve_from(start, k, max);
    lemma_first_win_member(after);
    lemma_frontier_sound(start, k + 1);
    let j = choose|j: int| 0 <= j < after.len() && after[j] == next;
    match first_win(after) {
        Some(m) => {
            let w = choose|w: int|
                0 <= w < after.len() && (#[trigger] after[w]).moves == m && spec_won(
                    after[w].board.cells,
                );
            assert(sound(start, k + 1, after[w]));
        },
        None => {
            assert(!spec_won(after[j].board.cells));
            if k + 1 == better.len() {
                lemma_tracks(start, better, k as int + 1, next);
                assert(better.take(k as int + 1) =~= better);
                assert(wins(start, better));
            } else {
                lemma_search_complete(start, max, better, k + 1, j);
            }
        },
    }
}

/// The search is complete and its solutions are shortest: where some list of
/// at most `max` moves wins the board, the search returns a list of moves, and
/// what it returns is no longer than any list of moves that wins the board.
pub proof fn lemma_solve_shortest(start: BoardView, max: nat, moves: Seq<Action>)
    requires
        on_grid(start),
        wins(start, moves),
        moves.len() <= max,
    ensures
        spec_solve(start, max) is Some,
        spec_solve(start, max).unwrap().len() <= moves.len(),
{
    if !spec_won(start.cells) {
        let v = lemma_shortest_exists(start, moves);
        if v.len() == 0 {
            assert(v =~= Seq::<Action>::empty());
            assert(play(start, v) == Some(start));
        }
        lemma_search_start(start);
        assert(v.take(0) =~= Seq::<Action>::empty());
        assert(play(start, Seq::<Action>::empty()) == Some(start));
        assert(spec_frontier(start, 0)[0] == start_step(start));
        assert(tracks(start, v, 0, start_step(start))) by {
            reveal(tracks);
            reveal(walking);
        }
        lemma_search_complete(start, max, v, 0, 0);
    }
}

} // verus!
