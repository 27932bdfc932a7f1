//! Patterns of occupied cells, their symmetries, and the table of shortest
//! walks over empty cells.

use crate::action::{
    lemma_action_symmetry_reverse, lemma_step_back, lemma_symmetry_reverse,
    lemma_transform_reverse, Action, ACTIONS,
};
use crate::text::{fmt_board, grid_text};
use crate::values::{BoardLike, Point, Sym, Transform};
use crate::walk::{
    at_level, lemma_preferred_shortens, lemma_shortens_symmetry, lemma_walk_len,
    lemma_within_cell, lemma_within_closed, lemma_within_monotone, neighbor, preferred_move,
    reachable, shortens, step_at_level, step_within, walk_step, within,
};
use itertools::Itertools;
use std::collections::HashMap;
use vstd::arithmetic::div_mod::lemma_fundamental_div_mod_converse;
use vstd::prelude::*;
use vstd::set_lib::{lemma_int_range, lemma_len_subset, set_int_range};
use vstd::string::StringExecFns;

verus! {

/// Which cells are occupied: bit `i` is set where the cell with index `i` holds
/// a magnitude other than zero.
#[derive(PartialEq, Eq, Hash, Clone, Copy, Debug, Structural)]
pub struct MarkBoard(pub u16);

/// Setting and clearing bit `p` of a mask: that bit changes and no other.
proof fn lemma_mark_bits(m: u16, p: u16, i: u16)
    by (bit_vector)
    requires
        p < 16,
        i < 16,
    ensures
        ((m | (1u16 << p)) >> i) & 1 != 0 <==> (i == p || (m >> i) & 1 != 0),
        ((m & !(1u16 << p)) >> i) & 1 != 0 <==> (i != p && (m >> i) & 1 != 0),
        (0u16 >> i) & 1 == 0,
        (0xffffu16 >> i) & 1 != 0,
{
}

/// Two masks with the same sixteen bits are the same mask.
proof fn lemma_bits_equal(a: u16, b: u16)
    by (bit_vector)
    requires
        (a >> 0u16) & 1 == (b >> 0u16) & 1,
        (a >> 1u16) & 1 == (b >> 1u16) & 1,
        (a >> 2u16) & 1 == (b >> 2u16) & 1,
        (a >> 3u16) & 1 == (b >> 3u16) & 1,
        (a >> 4u16) & 1 == (b >> 4u16) & 1,
        (a >> 5u16) & 1 == (b >> 5u16) & 1,
        (a >> 6u16) & 1 == (b >> 6u16) & 1,
        (a >> 7u16) & 1 == (b >> 7u16) & 1,
        (a >> 8u16) & 1 == (b >> 8u16) & 1,
        (a >> 9u16) & 1 == (b >> 9u16) & 1,
        (a >> 10u16) & 1 == (b >> 10u16) & 1,
        (a >> 11u16) & 1 == (b >> 11u16) & 1,
        (a >> 12u16) & 1 == (b >> 12u16) & 1,
        (a >> 13u16) & 1 == (b >> 13u16) & 1,
        (a >> 14u16) & 1 == (b >> 14u16) & 1,
        (a >> 15u16) & 1 == (b >> 15u16) & 1,
    ensures
        a == b,
{
}

/// A bit is zero or one.
proof fn lemma_bit_values(a: u16, i: u16)
    by (bit_vector)
    requires
        i < 16,
    ensures
        (a >> i) & 1 == 0 || (a >> i) & 1 == 1,
{
}

/// The bits of a mask that is put together from sixteen bits.
proof fn lemma_bits_of(
    b0: u16,
    b1: u16,
    b2: u16,
    b3: u16,
    b4: u16,
    b5: u16,
    b6: u16,
    b7: u16,
    b8: u16,
    b9: u16,
    b10: u16,
    b11: u16,
    b12: u16,
    b13: u16,
    b14: u16,
    b15: u16,
)
    by (bit_vector)
    requires
        b0 <= 1 && b1 <= 1 && b2 <= 1 && b3 <= 1 && b4 <= 1 && b5 <= 1 && b6 <= 1 && b7 <= 1,
        b8 <= 1 && b9 <= 1 && b10 <= 1 && b11 <= 1 && b12 <= 1 && b13 <= 1 && b14 <= 1 && b15
            <= 1,
    ensures
        ({
            let w = b0 | (b1 << 1) | (b2 << 2) | (b3 << 3) | (b4 << 4) | (b5 << 5) | (b6 << 6) | (b7
                << 7) | (b8 << 8) | (b9 << 9) | (b10 << 10) | (b11 << 11) | (b12 << 12) | (b13
                << 13) | (b14 << 14) | (b15 << 15);
            &&& (w >> 0u16) & 1 == b0
            &&& (w >> 1u16) & 1 == b1
            &&& (w >> 2u16) & 1 == b2
            &&& (w >> 3u16) & 1 == b3
            &&& (w >> 4u16) & 1 == b4
            &&& (w >> 5u16) & 1 == b5
            &&& (w >> 6u16) & 1 == b6
            &&& (w >> 7u16) & 1 == b7
            &&& (w >> 8u16) & 1 == b8
            &&& (w >> 9u16) & 1 == b9
            &&& (w >> 10u16) & 1 == b10
            &&& (w >> 11u16) & 1 == b11
            &&& (w >> 12u16) & 1 == b12
            &&& (w >> 13u16) & 1 == b13
            &&& (w >> 14u16) & 1 == b14
            &&& (w >> 15u16) & 1 == b15
        }),
{
}

/// One bit for a truth value.
pub open spec fn flag(b: bool) -> u16 {
    if b {
        1
    } else {
        0
    }
}

/// The pattern in which cell `i` is occupied exactly where `f(i)` holds.
pub open spec fn pattern(f: spec_fn(int) -> bool) -> MarkBoard {
    MarkBoard(
        flag(f(0)) | (flag(f(1)) << 1) | (flag(f(2)) << 2) | (flag(f(3)) << 3) | (flag(f(4)) << 4)
            | (flag(f(5)) << 5) | (flag(f(6)) << 6) | (flag(f(7)) << 7) | (flag(f(8)) << 8) | (flag(
            f(9),
        ) << 9) | (flag(f(10)) << 10) | (flag(f(11)) << 11) | (flag(f(12)) << 12) | (flag(f(13))
            << 13) | (flag(f(14)) << 14) | (flag(f(15)) << 15),
    )
}

/// `pattern(f)` holds cell `i` exactly where `f(i)` holds.
pub proof fn lemma_pattern(f: spec_fn(int) -> bool)
    ensures
        forall|i: int| 0 <= i < 16 ==> #[trigger] pattern(f).spec_marked(i) == f(i),
{
    lemma_bits_of(
        flag(f(0)),
        flag(f(1)),
        flag(f(2)),
        flag(f(3)),
        flag(f(4)),
        flag(f(5)),
        flag(f(6)),
        flag(f(7)),
        flag(f(8)),
        flag(f(9)),
        flag(f(10)),
        flag(f(11)),
        flag(f(12)),
        flag(f(13)),
        flag(f(14)),
        flag(f(15)),
    );
    let m = pattern(f);
    assert forall|i: int| 0 <= i < 16 implies #[trigger] m.spec_marked(i) == f(i) by {
        if i == 0 {
        } else if i == 1 {
        } else if i == 2 {
        } else if i == 3 {
        } else if i == 4 {
        } else if i == 5 {
        } else if i == 6 {
        } else if i == 7 {
        } else if i == 8 {
        } else if i == 9 {
        } else if i == 10 {
        } else if i == 11 {
        } else if i == 12 {
        } else if i == 13 {
        } else if i == 14 {
        } else {
        }
    }
}

/// Two patterns that agree on every cell are the same pattern.
pub proof fn lemma_marks_equal(a: MarkBoard, b: MarkBoard)
    requires
        forall|i: int| 0 <= i < 16 ==> a.spec_marked(i) == b.spec_marked(i),
    ensures
        a == b,
{
    assert forall|i: u16| i < 16 implies (a.0 >> i) & 1 == (b.0 >> i) & 1 by {
        lemma_bit_values(a.0, i);
        lemma_bit_values(b.0, i);
        assert(a.spec_marked(i as int) == b.spec_marked(i as int));
    }
    lemma_bits_equal(a.0, b.0);
}

impl MarkBoard {
    /// The cell with index `i` is occupied.
    pub open spec fn spec_marked(&self, i: int) -> bool {
        (self.0 >> (i as u16)) & 1 != 0
    }

    /// The pattern that holds exactly the images under `t` of the cells of `self`.
    pub open spec fn spec_transform(&self, t: Transform) -> MarkBoard {
        pattern(
            |i: int| self.spec_marked(Point(i as u8).spec_transform(t.spec_reverse()).spec_index()),
        )
    }

    /// The pattern that holds exactly the images under `sym` of the cells of `self`.
    pub open spec fn spec_symmetry(&self, sym: Sym) -> MarkBoard {
        pattern(|i: int| self.spec_marked(Point(i as u8).spec_reverse_symmetry(sym).spec_index()))
    }

    /// The pattern with no cell occupied.
    pub fn new() -> (m: Self)
        ensures
            forall|i: int| 0 <= i < 16 ==> !m.spec_marked(i),
            m.0 == 0,
    {
        proof {
            assert forall|i: int| 0 <= i < 16 implies !MarkBoard(0).spec_marked(i) by {
                lemma_mark_bits(0, 0, i as u16);
            }
        }
        MarkBoard(0)
    }

    /// The cell at `p` is occupied.
    pub fn marked(&self, p: Point) -> (b: bool)
        requires
            p.spec_inside(),
        ensures
            b == self.spec_marked(p.spec_index()),
    {
        ((self.0 >> (p.index() as u16)) & 0x1) != 0
    }

    /// Marks the cell at `p` as occupied.
    pub fn mark(&mut self, p: Point)
        requires
            p.spec_inside(),
        ensures
            forall|i: int|
                0 <= i < 16 ==> #[trigger] final(self).spec_marked(i) == (i == p.spec_index() || old(
                    self,
                ).spec_marked(i)),
    {
        proof {
            assert forall|i: int| 0 <= i < 16 implies #[trigger] MarkBoard(
                self.0 | (1u16 << (p.0 as u16)),
            ).spec_marked(i) == (i == p.spec_index() || self.spec_marked(i)) by {
                lemma_mark_bits(self.0, p.0 as u16, i as u16);
            }
        }
        self.0 = self.0 | (1u16 << (p.index() as u16));
    }

    /// Marks the cell at `p` as empty.
    pub fn unmark(&mut self, p: Point)
        requires
            p.spec_inside(),
        ensures
            forall|i: int|
                0 <= i < 16 ==> #[trigger] final(self).spec_marked(i) == (i != p.spec_index() && old(
                    self,
                ).spec_marked(i)),
    {
        proof {
            assert forall|i: int| 0 <= i < 16 implies #[trigger] MarkBoard(
                self.0 & !(1u16 << (p.0 as u16)),
            ).spec_marked(i) == (i != p.spec_index() && self.spec_marked(i)) by {
                lemma_mark_bits(self.0, p.0 as u16, i as u16);
            }
        }
        self.0 = self.0 & !(1u16 << (p.index() as u16));
    }

    /// The pattern of a board: a cell is occupied where its magnitude is not zero.
    pub fn from<B: BoardLike>(board: &B) -> (m: Self)
        ensures
            m == pattern(|i: int| board.cell_value(Point(i as u8)) != 0),
            forall|i: int|
                0 <= i < 16 ==> #[trigger] m.spec_marked(i) == (board.cell_value(Point(i as u8)) != 0),
    {
        let mut m = MarkBoard::new();
        let mut i: u8 = 0;
        while i < 16
            invariant
                i <= 16,
                forall|j: int|
                    0 <= j < 16 ==> #[trigger] m.spec_marked(j) == (j < i && board.cell_value(
                        Point(j as u8),
                    ) != 0),
            decreases 16 - i,
        {
            if board.cell(Point(i)) != 0 {
                m.mark(Point(i));
            }
            i = i + 1;
        }
        proof {
            lemma_pattern(|i: int| board.cell_value(Point(i as u8)) != 0);
            lemma_marks_equal(m, pattern(|i: int| board.cell_value(Point(i as u8)) != 0));
        }
        m
    }

    /// The pattern after the grid went through `t`.
    pub fn transform(&self, t: Transform) -> (r: Self)
        ensures
            r == self.spec_transform(t),
    {
        let mut r = MarkBoard::new();
        let mut i: u8 = 0;
        while i < 16
            invariant
                i <= 16,
                forall|j: int|
                    0 <= j < 16 ==> #[trigger] r.spec_marked(j) == (Point(j as u8).spec_transform(
                        t.spec_reverse(),
                    ).spec_index() < i && self.spec_marked(
                        Point(j as u8).spec_transform(t.spec_reverse()).spec_index(),
                    )),
            decreases 16 - i,
        {
            let p = Point(i);
            let ghost before = r;
            if self.marked(p) {
                r.mark(p.transform(t));
            }
            proof {
                lemma_transform_reverse(p, t);
                assert forall|j: int| 0 <= j < 16 implies #[trigger] r.spec_marked(j) == (Point(
                    j as u8,
                ).spec_transform(t.spec_reverse()).spec_index() < i + 1 && self.spec_marked(
                    Point(j as u8).spec_transform(t.spec_reverse()).spec_index(),
                )) by {
                    lemma_transform_reverse(Point(j as u8), t.spec_reverse());
                    assert(before.spec_marked(j) == (Point(j as u8).spec_transform(
                        t.spec_reverse(),
                    ).spec_index() < i && self.spec_marked(
                        Point(j as u8).spec_transform(t.spec_reverse()).spec_index(),
                    )));
                }
            }
            i = i + 1;
        }
        proof {
            lemma_pattern(
                |i: int|
                    self.spec_marked(Point(i as u8).spec_transform(t.spec_reverse()).spec_index()),
            );
            assert forall|j: int| 0 <= j < 16 implies r.spec_marked(j) == self.spec_transform(
                t,
            ).spec_marked(j) by {
                lemma_transform_reverse(Point(j as u8), t.spec_reverse());
            }
            lemma_marks_equal(r, self.spec_transform(t));
        }
        r
    }

    /// The pattern after the grid went through `sym`.
    pub fn symmetry(&self, sym: Sym) -> (r: Self)
        ensures
            r == self.spec_symmetry(sym),
    {
        let r = match sym.transform {
            Transform::Mirror if sym.mirror => *self,
            _ => {
                let v = if sym.mirror {
                    self.transform(Transform::Mirror)
                } else {
                    *self
                };
                v.transform(sym.transform)
            },
        };
        proof {
            lemma_symmetry_of_transforms(*self, sym);
        }
        r
    }
}

/// Where a cell of the image under `t` comes from.
proof fn lemma_transform_marked(m: MarkBoard, t: Transform, j: int)
    requires
        0 <= j < 16,
    ensures
        m.spec_transform(t).spec_marked(j) == m.spec_marked(
            Point(j as u8).spec_transform(t.spec_reverse()).spec_index(),
        ),
        Point(j as u8).spec_transform(t.spec_reverse()).spec_inside(),
{
    lemma_pattern(
        |i: int| m.spec_marked(Point(i as u8).spec_transform(t.spec_reverse()).spec_index()),
    );
    lemma_transform_reverse(Point(j as u8), t.spec_reverse());
}

/// Where a cell of the image under `sym` comes from.
pub proof fn lemma_symmetry_marked(m: MarkBoard, sym: Sym, j: int)
    requires
        0 <= j < 16,
    ensures
        m.spec_symmetry(sym).spec_marked(j) == m.spec_marked(
            Point(j as u8).spec_reverse_symmetry(sym).spec_index(),
        ),
        Point(j as u8).spec_reverse_symmetry(sym).spec_inside(),
{
    lemma_pattern(|i: int| m.spec_marked(Point(i as u8).spec_reverse_symmetry(sym).spec_index()));
    lemma_symmetry_reverse(Point(j as u8), sym);
}

/// The image under a symmetry is the image under its mirror, if any, and then
/// under its transform.
proof fn lemma_symmetry_of_transforms(m: MarkBoard, sym: Sym)
    ensures
        m.spec_symmetry(sym) == if sym.transform == Transform::Mirror && sym.mirror {
            m
        } else if sym.mirror {
            m.spec_transform(Transform::Mirror).spec_transform(sym.transform)
        } else {
            m.spec_transform(sym.transform)
        },
{
    let r = if sym.transform == Transform::Mirror && sym.mirror {
        m
    } else if sym.mirror {
        m.spec_transform(Transform::Mirror).spec_transform(sym.transform)
    } else {
        m.spec_transform(sym.transform)
    };
    assert forall|j: int| 0 <= j < 16 implies m.spec_symmetry(sym).spec_marked(j) == r.spec_marked(
        j,
    ) by {
        lemma_symmetry_marked(m, sym, j);
        if sym.transform == Transform::Mirror && sym.mirror {
        } else if sym.mirror {
            lemma_transform_marked(m.spec_transform(Transform::Mirror), sym.transform, j);
            let k = Point(j as u8).spec_transform(sym.transform.spec_reverse());
            lemma_transform_marked(m, Transform::Mirror, k.spec_index());
        } else {
            lemma_transform_marked(m, sym.transform, j);
        }
    }
    lemma_marks_equal(m.spec_symmetry(sym), r);
}

/// Calls `Itertools::cartesian_product` of the itertools crate and collects
/// what it yields. The contract is that crate's word, not proved here: the
/// result holds every pair of an item of `first` with an item of `second`, the
/// items of `first` varying slowest.
#[verifier::external_body]
fn cartesian_product<A: Copy, B: Copy>(first: Vec<A>, second: Vec<B>) -> (pairs: Vec<(A, B)>)
    requires
        first@.len() * second@.len() <= usize::MAX,
    ensures
        pairs@.len() == first@.len() * second@.len(),
        forall|m: int|
            0 <= m < pairs@.len() ==> #[trigger] pairs@[m] == (
                first@[m / (second@.len() as int)],
                second@[m % (second@.len() as int)],
            ),
{
    first.into_iter().cartesian_product(second).collect()
}

/// Writing the code of cell `q` into a packed table whose slot for `q` is
/// empty changes that slot and no other.
proof fn lemma_code_bits(actions: u32, code: u32, q: u32, j: u32)
    by (bit_vector)
    requires
        q < 16,
        j < 16,
        code < 4,
        (actions >> (2 * q) as u32) & 3 == 0,
    ensures
        ((actions | (code << (2 * q) as u32)) >> (2 * j) as u32) & 3 == if j == q {
            code
        } else {
            (actions >> (2 * j) as u32) & 3
        },
{
}

/// A code is below four, and the empty table holds zero everywhere.
proof fn lemma_code_range(actions: u32, j: u32)
    by (bit_vector)
    requires
        j < 16,
    ensures
        (0u32 >> (2 * j) as u32) & 3 == 0,
        (actions >> (2 * j) as u32) & 3 < 4,
{
}

/// The two-bit code that a packed table holds for the cell `q`.
pub open spec fn code_at(actions: u32, q: int) -> u32 {
    (actions >> ((2 * q) as u32)) & 3
}

/// The step of `pair`, a move and the point it starts from, lands on the cell `q`.
pub open spec fn hits(pair: (Action, Point), q: int) -> bool {
    let n = pair.1.spec_step(pair.0);
    n.spec_inside() && n.spec_index() == q
}

/// The four moves in the order of their codes.
pub open spec fn spec_actions() -> Seq<Action> {
    seq![Action::UP, Action::DOWN, Action::LEFT, Action::RIGHT]
}

/// What holds of the search for shortest walks when it has found every cell
/// within `k` steps of `end`: `points` are the cells exactly `k` steps away,
/// `starts` the cells found, and `actions` their first moves.
pub open spec fn search_state(
    marks: MarkBoard,
    end: Point,
    k: nat,
    points: Seq<Point>,
    starts: MarkBoard,
    actions: u32,
) -> bool {
    &&& end.spec_inside()
    &&& marks.spec_marked(end.spec_index())
    &&& forall|i: int|
        0 <= i < points.len() ==> (#[trigger] points[i]).spec_inside() && at_level(
            marks,
            end,
            k,
            points[i].spec_index(),
        )
    &&& forall|q: int| #[trigger]
        at_level(marks, end, k, q) ==> exists|i: int|
            0 <= i < points.len() && (#[trigger] points[i]).spec_index() == q
    &&& forall|q: int|
        0 <= q < 16 ==> #[trigger] starts.spec_marked(q) == (q != end.spec_index() && within(
            marks,
            end,
            k,
            q,
        ))
    &&& forall|q: int|
        0 <= q < 16 && #[trigger] starts.spec_marked(q) ==> crate::action::action_of(
            code_at(actions, q) as int,
        ) == preferred_move(marks, end, q)
    &&& forall|q: int| 0 <= q < 16 && !#[trigger] starts.spec_marked(q) ==> code_at(actions, q) == 0
}

/// What one round of the search has done once it has tried the first `n` of
/// `pairs`: the cells it found are those that a tried pair lands on and that
/// were empty and not found before, each with the reverse of the first such
/// pair's move, and `next` lists them.
pub open spec fn round_state(
    marks: MarkBoard,
    pairs: Seq<(Action, Point)>,
    n: int,
    starts0: MarkBoard,
    actions0: u32,
    starts: MarkBoard,
    actions: u32,
    next: Seq<Point>,
) -> bool {
    &&& forall|q: int|
        0 <= q < 16 ==> #[trigger] starts.spec_marked(q) == (starts0.spec_marked(q) || (
        !marks.spec_marked(q) && exists|m: int| 0 <= m < n && hits(#[trigger] pairs[m], q)))
    &&& forall|q: int|
        0 <= q < 16 && #[trigger] starts0.spec_marked(q) ==> code_at(actions, q) == code_at(
            actions0,
            q,
        )
    &&& forall|q: int| 0 <= q < 16 && !#[trigger] starts.spec_marked(q) ==> code_at(actions, q) == 0
    &&& forall|q: int|
        0 <= q < 16 && #[trigger] starts.spec_marked(q) && !starts0.spec_marked(q) ==> exists|
            m: int,
        |
            0 <= m < n && hits(#[trigger] pairs[m], q) && code_at(actions, q)
                == pairs[m].0.spec_reverse().spec_index() && forall|m2: int|
                0 <= m2 < m ==> !hits(#[trigger] pairs[m2], q)
    &&& forall|i: int|
        0 <= i < next.len() ==> (#[trigger] next[i]).spec_inside() && starts.spec_marked(
            next[i].spec_index(),
        ) && !starts0.spec_marked(next[i].spec_index())
    &&& forall|q: int|
        0 <= q < 16 && #[trigger] starts.spec_marked(q) && !starts0.spec_marked(q) ==> exists|
            i: int,
        | 0 <= i < next.len() && (#[trigger] next[i]).spec_index() == q
}

/// `pairs` holds every move with every point of `points`, moves varying slowest.
pub open spec fn pairs_of(pairs: Seq<(Action, Point)>, points: Seq<Point>) -> bool {
    &&& points.len() > 0
    &&& pairs.len() == 4 * points.len()
    &&& forall|m: int|
        0 <= m < pairs.len() ==> #[trigger] pairs[m] == (
            spec_actions()[m / (points.len() as int)],
            points[m % (points.len() as int)],
        )
}

/// Where the pair of the move with code `bi` and the point `points[i]` stands.
proof fn lemma_pair_at(pairs: Seq<(Action, Point)>, points: Seq<Point>, bi: int, i: int)
    requires
        pairs_of(pairs, points),
        0 <= bi < 4,
        0 <= i < points.len(),
    ensures
        0 <= bi * points.len() + i < pairs.len(),
        pairs[bi * points.len() + i] == (spec_actions()[bi], points[i]),
{
    let len = points.len() as int;
    let m = bi * len + i;
    assert(0 <= m < 4 * len) by (nonlinear_arith)
        requires
            0 <= bi < 4,
            0 <= i < len,
            m == bi * len + i,
    ;
    lemma_fundamental_div_mod_converse(m, len, bi, i);
}

/// The parts of the pair at `m`.
proof fn lemma_pair_parts(pairs: Seq<(Action, Point)>, points: Seq<Point>, m: int)
    requires
        pairs_of(pairs, points),
        0 <= m < pairs.len(),
    ensures
        0 <= (m / (points.len() as int)) < 4,
        0 <= (m % (points.len() as int)) < points.len(),
        m == (m / (points.len() as int)) * points.len() + (m % (points.len() as int)),
        pairs[m].0 == spec_actions()[m / (points.len() as int)],
        pairs[m].1 == points[m % (points.len() as int)],
{
    let len = points.len() as int;
    vstd::arithmetic::div_mod::lemma_fundamental_div_mod(m, len);
    assert(0 <= m / len < 4) by (nonlinear_arith)
        requires
            0 <= m < 4 * len,
            len > 0,
    ;
    assert(0 <= m % len < len) by (nonlinear_arith)
        requires
            len > 0,
    ;
    assert(len * (m / len) == (m / len) * len) by (nonlinear_arith);
}

/// A cell not yet found lies one step in direction `b` from a cell of the
/// frontier exactly when the reverse of `b` takes it to within `k` steps.
proof fn lemma_frontier_step(
    marks: MarkBoard,
    end: Point,
    k: nat,
    points: Seq<Point>,
    starts: MarkBoard,
    actions: u32,
    q: int,
    b: Action,
)
    requires
        search_state(marks, end, k, points, starts, actions),
        0 <= q < 16,
        !marks.spec_marked(q),
        !within(marks, end, k, q),
    ensures
        step_within(marks, end, k, q, b.spec_reverse()) <==> exists|i: int|
            0 <= i < points.len() && hits((b, #[trigger] points[i]), q),
{
    let r = b.spec_reverse();
    if exists|i: int| 0 <= i < points.len() && hits((b, #[trigger] points[i]), q) {
        let i = choose|i: int| 0 <= i < points.len() && hits((b, #[trigger] points[i]), q);
        let p = points[i];
        lemma_step_back(p, b);
        assert(p.spec_step(b) == Point(q as u8));
        assert(neighbor(q, r) == p.spec_index());
    }
    if step_within(marks, end, k, q, r) {
        let n = Point(q as u8).spec_step(r);
        assert(n.spec_inside() && neighbor(q, r) == n.spec_index());
        if k > 0 && within(marks, end, (k - 1) as nat, n.spec_index()) {
            assert(within(marks, end, k, q));
        }
        assert(at_level(marks, end, k, n.spec_index()));
        let i = choose|i: int| 0 <= i < points.len() && (#[trigger] points[i]).spec_index() == n.spec_index();
        assert(points[i] == n);
        lemma_step_back(Point(q as u8), r);
        assert(hits((b, points[i]), q));
    }
}

/// A cell that is not within `k` steps is hit by some pair exactly when it is
/// within `k + 1` steps.
proof fn lemma_round_hits(
    marks: MarkBoard,
    end: Point,
    k: nat,
    points: Seq<Point>,
    pairs: Seq<(Action, Point)>,
    starts0: MarkBoard,
    actions0: u32,
    q: int,
)
    requires
        search_state(marks, end, k, points, starts0, actions0),
        pairs_of(pairs, points),
        0 <= q < 16,
        !marks.spec_marked(q),
        !within(marks, end, k, q),
    ensures
        (exists|m: int| 0 <= m < pairs.len() && hits(#[trigger] pairs[m], q)) <==> within(
            marks,
            end,
            k + 1,
            q,
        ),
{
    let len = points.len() as int;
    lemma_frontier_step(marks, end, k, points, starts0, actions0, q, Action::UP);
    lemma_frontier_step(marks, end, k, points, starts0, actions0, q, Action::DOWN);
    lemma_frontier_step(marks, end, k, points, starts0, actions0, q, Action::LEFT);
    lemma_frontier_step(marks, end, k, points, starts0, actions0, q, Action::RIGHT);
    if exists|m: int| 0 <= m < pairs.len() && hits(#[trigger] pairs[m], q) {
        let m = choose|m: int| 0 <= m < pairs.len() && hits(#[trigger] pairs[m], q);
        lemma_pair_parts(pairs, points, m);
        let i = m % len;
        assert(hits((pairs[m].0, points[i]), q));
    }
    if within(marks, end, k + 1, q) {
        let r = if step_within(marks, end, k, q, Action::UP) {
            Action::UP
        } else if step_within(marks, end, k, q, Action::DOWN) {
            Action::DOWN
        } else if step_within(marks, end, k, q, Action::LEFT) {
            Action::LEFT
        } else {
            Action::RIGHT
        };
        let b = r.spec_reverse();
        assert(step_within(marks, end, k, q, b.spec_reverse()));
        let i = choose|i: int| 0 <= i < points.len() && hits((b, #[trigger] points[i]), q);
        lemma_pair_at(pairs, points, b.spec_index(), i);
        assert(hits(pairs[b.spec_index() * len + i], q));
    }
}

/// The move recorded for a cell that one round found is the one that the table is to hold.
proof fn lemma_round_code(
    marks: MarkBoard,
    end: Point,
    k: nat,
    points: Seq<Point>,
    pairs: Seq<(Action, Point)>,
    starts0: MarkBoard,
    actions0: u32,
    q: int,
    m: int,
)
    requires
        search_state(marks, end, k, points, starts0, actions0),
        pairs_of(pairs, points),
        0 <= q < 16,
        !marks.spec_marked(q),
        !within(marks, end, k, q),
        0 <= m < pairs.len(),
        hits(pairs[m], q),
        forall|m2: int| 0 <= m2 < m ==> !hits(#[trigger] pairs[m2], q),
    ensures
        at_level(marks, end, k + 1, q),
        preferred_move(marks, end, q) == pairs[m].0.spec_reverse(),
{
    let len = points.len() as int;
    lemma_round_hits(marks, end, k, points, pairs, starts0, actions0, q);
    assert(at_level(marks, end, k + 1, q));
    lemma_walk_len(marks, end, k + 1, q);
    lemma_pair_parts(pairs, points, m);
    let ai = m / len;
    let a = pairs[m].0;
    assert(hits((a, points[m % len]), q));
    lemma_frontier_step(marks, end, k, points, starts0, actions0, q, a);
    assert forall|bi: int| 0 <= bi < ai implies !step_within(
        marks,
        end,
        k,
        q,
        (#[trigger] spec_actions()[bi]).spec_reverse(),
    ) by {
        let b = spec_actions()[bi];
        lemma_frontier_step(marks, end, k, points, starts0, actions0, q, b);
        if step_within(marks, end, k, q, b.spec_reverse()) {
            let i = choose|i: int| 0 <= i < points.len() && hits((b, #[trigger] points[i]), q);
            lemma_pair_at(pairs, points, bi, i);
            assert(bi * len + i < m) by (nonlinear_arith)
                requires
                    0 <= bi < ai,
                    0 <= i < len,
                    m == ai * len + m % len,
                    0 <= m % len,
            ;
            assert(hits(pairs[bi * len + i], q));
        }
    }
    assert(spec_actions()[0] == Action::UP && spec_actions()[1] == Action::DOWN
        && spec_actions()[2] == Action::LEFT && spec_actions()[3] == Action::RIGHT);
    assert(step_at_level(marks, end, k + 1, q) == a.spec_reverse());
}

/// After one round a cell is found exactly when it is within `k + 1` steps.
proof fn lemma_round_starts(
    marks: MarkBoard,
    end: Point,
    k: nat,
    points: Seq<Point>,
    pairs: Seq<(Action, Point)>,
    starts0: MarkBoard,
    actions0: u32,
    starts: MarkBoard,
    q: int,
)
    requires
        search_state(marks, end, k, points, starts0, actions0),
        pairs_of(pairs, points),
        0 <= q < 16,
        starts.spec_marked(q) == (starts0.spec_marked(q) || (!marks.spec_marked(q) && exists|m: int|
            0 <= m < pairs.len() && hits(#[trigger] pairs[m], q))),
    ensures
        starts.spec_marked(q) == (q != end.spec_index() && within(marks, end, k + 1, q)),
        starts.spec_marked(q) && !starts0.spec_marked(q) <==> at_level(marks, end, k + 1, q),
{
    lemma_within_monotone(marks, end, 0, k, end.spec_index());
    if within(marks, end, k, q) {
        lemma_within_monotone(marks, end, k, k + 1, q);
        lemma_within_cell(marks, end, k, q);
    } else if marks.spec_marked(q) {
        if within(marks, end, k + 1, q) {
            lemma_within_cell(marks, end, k + 1, q);
        }
    } else {
        lemma_round_hits(marks, end, k, points, pairs, starts0, actions0, q);
    }
}

/// One round of the search takes it from the cells within `k` steps to those
/// within `k + 1`.
proof fn lemma_round(
    marks: MarkBoard,
    end: Point,
    k: nat,
    points: Seq<Point>,
    pairs: Seq<(Action, Point)>,
    starts0: MarkBoard,
    actions0: u32,
    starts: MarkBoard,
    actions: u32,
    next: Seq<Point>,
)
    requires
        search_state(marks, end, k, points, starts0, actions0),
        pairs_of(pairs, points),
        round_state(marks, pairs, pairs.len() as int, starts0, actions0, starts, actions, next),
    ensures
        search_state(marks, end, k + 1, next, starts, actions),
{
    assert forall|q: int| 0 <= q < 16 implies #[trigger] starts.spec_marked(q) == (q
        != end.spec_index() && within(marks, end, k + 1, q)) && (starts.spec_marked(q)
        && !starts0.spec_marked(q) <==> at_level(marks, end, k + 1, q)) by {
        lemma_round_starts(marks, end, k, points, pairs, starts0, actions0, starts, q);
    }
    assert forall|i: int| 0 <= i < next.len() implies (#[trigger] next[i]).spec_inside() && at_level(
        marks,
        end,
        k + 1,
        next[i].spec_index(),
    ) by {
        assert(starts.spec_marked(next[i].spec_index()));
    }
    assert forall|q: int| #[trigger] at_level(marks, end, k + 1, q) implies exists|i: int|
        0 <= i < next.len() && (#[trigger] next[i]).spec_index() == q by {
        lemma_within_cell(marks, end, k + 1, q);
        assert(starts.spec_marked(q) && !starts0.spec_marked(q));
    }
    assert forall|q: int| 0 <= q < 16 && #[trigger] starts.spec_marked(q) implies crate::action::action_of(
        code_at(actions, q) as int,
    ) == preferred_move(marks, end, q) by {
        if !starts0.spec_marked(q) {
            let m = choose|m: int|
                0 <= m < pairs.len() && hits(#[trigger] pairs[m], q) && code_at(actions, q)
                    == pairs[m].0.spec_reverse().spec_index() && forall|m2: int|
                    0 <= m2 < m ==> !hits(#[trigger] pairs[m2], q);
            lemma_within_cell(marks, end, k + 1, q);
            lemma_round_code(marks, end, k, points, pairs, starts0, actions0, q, m);
        }
    }
}

/// The cells that a pattern marks, as a set of indices.
pub open spec fn marked_set(m: MarkBoard) -> Set<int> {
    Set::new(|q: int| 0 <= q < 16 && m.spec_marked(q))
}

/// A pattern marks at most sixteen cells.
proof fn lemma_marked_set_bound(m: MarkBoard)
    ensures
        marked_set(m).finite(),
        marked_set(m).len() <= 16,
{
    lemma_int_range(0, 16);
    assert(marked_set(m).subset_of(set_int_range(0, 16)));
    lemma_len_subset(marked_set(m), set_int_range(0, 16));
}

/// Marking one more cell makes the set of marked cells larger by one.
proof fn lemma_marked_set_insert(m: MarkBoard, m1: MarkBoard, t: int)
    requires
        0 <= t < 16,
        !m.spec_marked(t),
        forall|q: int| 0 <= q < 16 ==> #[trigger] m1.spec_marked(q) == (q == t || m.spec_marked(q)),
    ensures
        marked_set(m1).len() == marked_set(m).len() + 1,
{
    lemma_marked_set_bound(m);
    assert(marked_set(m1) =~= marked_set(m).insert(t));
}

/// One more pair tried without a cell found.
proof fn lemma_round_skip(
    marks: MarkBoard,
    pairs: Seq<(Action, Point)>,
    n: int,
    starts0: MarkBoard,
    actions0: u32,
    starts: MarkBoard,
    actions: u32,
    next: Seq<Point>,
)
    requires
        0 <= n < pairs.len(),
        round_state(marks, pairs, n, starts0, actions0, starts, actions, next),
        ({
            let t = pairs[n].1.spec_step(pairs[n].0);
            !t.spec_inside() || marks.spec_marked(t.spec_index()) || starts.spec_marked(
                t.spec_index(),
            )
        }),
    ensures
        round_state(marks, pairs, n + 1, starts0, actions0, starts, actions, next),
{
    let t = pairs[n].1.spec_step(pairs[n].0);
    assert forall|q: int| 0 <= q < 16 implies #[trigger] starts.spec_marked(q) == (
    starts0.spec_marked(q) || (!marks.spec_marked(q) && exists|m: int|
        0 <= m < n + 1 && hits(#[trigger] pairs[m], q))) by {
        if !marks.spec_marked(q) && exists|m: int| 0 <= m < n + 1 && hits(#[trigger] pairs[m], q) {
            let m = choose|m: int| 0 <= m < n + 1 && hits(#[trigger] pairs[m], q);
            if m == n {
                assert(starts.spec_marked(q));
            }
        }
        if exists|m: int| 0 <= m < n && hits(#[trigger] pairs[m], q) {
            let m = choose|m: int| 0 <= m < n && hits(#[trigger] pairs[m], q);
            assert(0 <= m < n + 1 && hits(pairs[m], q));
        }
    }
    assert forall|q: int|
        0 <= q < 16 && #[trigger] starts.spec_marked(q) && !starts0.spec_marked(q) implies exists|
        m: int,
    |
        0 <= m < n + 1 && hits(#[trigger] pairs[m], q) && code_at(actions, q)
            == pairs[m].0.spec_reverse().spec_index() && forall|m2: int|
            0 <= m2 < m ==> !hits(#[trigger] pairs[m2], q) by {
        let m = choose|m: int|
            0 <= m < n && hits(#[trigger] pairs[m], q) && code_at(actions, q)
                == pairs[m].0.spec_reverse().spec_index() && forall|m2: int|
                0 <= m2 < m ==> !hits(#[trigger] pairs[m2], q);
        assert(0 <= m < n + 1 && hits(pairs[m], q));
    }
}

/// One more pair tried, and the cell it lands on found.
proof fn lemma_round_found(
    marks: MarkBoard,
    pairs: Seq<(Action, Point)>,
    n: int,
    starts0: MarkBoard,
    actions0: u32,
    starts: MarkBoard,
    actions: u32,
    next: Seq<Point>,
    starts1: MarkBoard,
    actions1: u32,
)
    requires
        0 <= n < pairs.len(),
        round_state(marks, pairs, n, starts0, actions0, starts, actions, next),
        ({
            let t = pairs[n].1.spec_step(pairs[n].0);
            &&& t.spec_inside()
            &&& !marks.spec_marked(t.spec_index())
            &&& !starts.spec_marked(t.spec_index())
            &&& forall|q: int|
                0 <= q < 16 ==> #[trigger] starts1.spec_marked(q) == (q == t.spec_index()
                    || starts.spec_marked(q))
            &&& forall|q: int|
                0 <= q < 16 ==> #[trigger] code_at(actions1, q) == if q == t.spec_index() {
                    pairs[n].0.spec_reverse().spec_index() as u32
                } else {
                    code_at(actions, q)
                }
        }),
    ensures
        round_state(
            marks,
            pairs,
            n + 1,
            starts0,
            actions0,
            starts1,
            actions1,
            next.push(pairs[n].1.spec_step(pairs[n].0)),
        ),
{
    let t = pairs[n].1.spec_step(pairs[n].0);
    let tq = t.spec_index();
    let next1 = next.push(t);
    assert(hits(pairs[n], tq));
    assert(!starts0.spec_marked(tq));
    assert(forall|m: int| 0 <= m < n ==> !hits(#[trigger] pairs[m], tq));
    assert forall|q: int| 0 <= q < 16 implies #[trigger] starts1.spec_marked(q) == (
    starts0.spec_marked(q) || (!marks.spec_marked(q) && exists|m: int|
        0 <= m < n + 1 && hits(#[trigger] pairs[m], q))) by {
        if q != tq {
            if exists|m: int| 0 <= m < n + 1 && hits(#[trigger] pairs[m], q) {
                let m = choose|m: int| 0 <= m < n + 1 && hits(#[trigger] pairs[m], q);
                assert(m != n);
            }
            if exists|m: int| 0 <= m < n && hits(#[trigger] pairs[m], q) {
                let m = choose|m: int| 0 <= m < n && hits(#[trigger] pairs[m], q);
                assert(0 <= m < n + 1 && hits(pairs[m], q));
            }
        }
    }
    assert forall|q: int| 0 <= q < 16 && #[trigger] starts0.spec_marked(q) implies code_at(
        actions1,
        q,
    ) == code_at(actions0, q) by {}
    assert forall|q: int| 0 <= q < 16 && !#[trigger] starts1.spec_marked(q) implies code_at(
        actions1,
        q,
    ) == 0 by {
        assert(!starts.spec_marked(q));
    }
    assert forall|q: int|
        0 <= q < 16 && #[trigger] starts1.spec_marked(q) && !starts0.spec_marked(q) implies exists|
        m: int,
    |
        0 <= m < n + 1 && hits(#[trigger] pairs[m], q) && code_at(actions1, q)
            == pairs[m].0.spec_reverse().spec_index() && forall|m2: int|
            0 <= m2 < m ==> !hits(#[trigger] pairs[m2], q) by {
        if q == tq {
            assert(0 <= n < n + 1 && hits(pairs[n], q) && code_at(actions1, q)
                == pairs[n].0.spec_reverse().spec_index());
        } else {
            assert(starts.spec_marked(q));
            let m = choose|m: int|
                0 <= m < n && hits(#[trigger] pairs[m], q) && code_at(actions, q)
                    == pairs[m].0.spec_reverse().spec_index() && forall|m2: int|
                    0 <= m2 < m ==> !hits(#[trigger] pairs[m2], q);
            assert(0 <= m < n + 1 && hits(pairs[m], q));
        }
    }
    assert forall|i: int| 0 <= i < next1.len() implies (#[trigger] next1[i]).spec_inside()
        && starts1.spec_marked(next1[i].spec_index()) && !starts0.spec_marked(
        next1[i].spec_index(),
    ) by {
        if i < next.len() {
            assert(next1[i] == next[i]);
            assert(starts.spec_marked(next[i].spec_index()));
        }
    }
    assert forall|q: int|
        0 <= q < 16 && #[trigger] starts1.spec_marked(q) && !starts0.spec_marked(q) implies exists|
        i: int,
    | 0 <= i < next1.len() && (#[trigger] next1[i]).spec_index() == q by {
        if q == tq {
            assert(next1[next.len() as int].spec_index() == q);
        } else {
            assert(starts.spec_marked(q));
            let i = choose|i: int| 0 <= i < next.len() && (#[trigger] next[i]).spec_index() == q;
            assert(next1[i] == next[i]);
        }
    }
}

/// For one pattern and one occupied cell `end`: from which empty cells a walk
/// over empty cells leads to `end`, and the first move of a shortest one.
#[derive(PartialEq, Eq, Hash, Clone, Copy, Debug)]
pub struct ActionBoard {
    end: Point,
    actions: u32,
    starts: MarkBoard,
}

impl ActionBoard {
    /// The cell that the walks lead to.
    pub closed spec fn spec_end(&self) -> Point {
        self.end
    }

    /// The move that the table holds for the cell `q`, if it holds one.
    pub closed spec fn entry(&self, q: int) -> Option<Action> {
        if self.starts.spec_marked(q) {
            Some(crate::action::action_of(code_at(self.actions, q) as int))
        } else {
            None
        }
    }

    /// The table is the table of shortest walks towards `end` in the pattern `marks`.
    pub open spec fn is_table_for(&self, marks: MarkBoard, end: Point) -> bool {
        &&& self.spec_end() == end
        &&& forall|q: int| 0 <= q < 16 ==> #[trigger] self.entry(q) == walk_step(marks, end, q)
    }

    /// The table of shortest walks towards the occupied cell `end`, found by a
    /// breadth-first search that starts at `end` and spreads over empty cells.
    pub fn from(marks: MarkBoard, end: Point) -> (board: Self)
        requires
            end.spec_inside(),
            marks.spec_marked(end.spec_index()),
        ensures
            board.is_table_for(marks, end),
    {
        let mut actions: u32 = 0;
        let mut starts = MarkBoard::new();
        let mut points: Vec<Point> = Vec::new();
        points.push(end);
        let ghost mut k: nat = 0;
        proof {
            assert forall|q: int| 0 <= q < 16 implies code_at(0, q) == 0 by {
                lemma_code_range(0, q as u32);
            }
            assert(points@[0] == end);
            lemma_marked_set_bound(starts);
        }
        while points.len() > 0
            invariant
                search_state(marks, end, k, points@, starts, actions),
                points@.len() <= 16,
            decreases 16 - marked_set(starts).len() + (if points@.len() > 0 { 1int } else { 0int }),
        {
            let ghost starts0 = starts;
            let ghost actions0 = actions;
            let ghost points0 = points@;
            let pairs = cartesian_product(
                vec![Action::UP, Action::DOWN, Action::LEFT, Action::RIGHT],
                points,
            );
            let mut next: Vec<Point> = Vec::new();
            let mut n: usize = 0;
            proof {
                assert(spec_actions() =~= seq![Action::UP, Action::DOWN, Action::LEFT, Action::RIGHT]);
                assert(pairs_of(pairs@, points0));
                lemma_marked_set_bound(starts);
            }
            while n < pairs.len()
                invariant
                    n <= pairs@.len(),
                    pairs_of(pairs@, points0),
                    forall|i: int| 0 <= i < points0.len() ==> (#[trigger] points0[i]).spec_inside(),
                    round_state(marks, pairs@, n as int, starts0, actions0, starts, actions, next@),
                    next@.len() + marked_set(starts0).len() == marked_set(starts).len(),
                decreases pairs@.len() - n,
            {
                let a: Action = pairs[n].0;
                let point: Point = pairs[n].1;
                proof {
                    lemma_pair_parts(pairs@, points0, n as int);
                    lemma_marked_set_bound(starts);
                }
                let q: Point = point + a;
                if q.inside() && !marks.marked(q) && !starts.marked(q) {
                    let ghost before = starts;
                    let ghost codes = actions;
                    let ghost found = next@;
                    let code: u32 = a.reverse().index() as u32;
                    let shift: u32 = (q.index() * 2) as u32;
                    let updated: u32 = actions | (code << shift);
                    proof {
                        assert forall|j: int| 0 <= j < 16 implies #[trigger] code_at(updated, j)
                            == if j == q.spec_index() {
                            code
                        } else {
                            code_at(actions, j)
                        } by {
                            lemma_code_bits(actions, code, q.0 as u32, j as u32);
                        }
                    }
                    actions = updated;
                    starts.mark(q);
                    next.push(q);
                    proof {
                        assert(pairs@[n as int].1.spec_step(pairs@[n as int].0) == q);
                        lemma_round_found(
                            marks,
                            pairs@,
                            n as int,
                            starts0,
                            actions0,
                            before,
                            codes,
                            found,
                            starts,
                            actions,
                        );
                        lemma_marked_set_insert(before, starts, q.spec_index());
                    }
                } else {
                    proof {
                        lemma_round_skip(
                            marks,
                            pairs@,
                            n as int,
                            starts0,
                            actions0,
                            starts,
                            actions,
                            next@,
                        );
                    }
                }
                n = n + 1;
            }
            proof {
                lemma_round(
                    marks,
                    end,
                    k,
                    points0,
                    pairs@,
                    starts0,
                    actions0,
                    starts,
                    actions,
                    next@,
                );
                k = k + 1;
                lemma_marked_set_bound(starts);
            }
            points = next;
        }
        let board = ActionBoard { actions, starts, end };
        proof {
            lemma_within_monotone(marks, end, 0, k, end.spec_index());
            assert(!at_level(marks, end, k, end.spec_index()));
            assert forall|c: int| within(marks, end, k, c) implies within(
                marks,
                end,
                (k - 1) as nat,
                c,
            ) by {
                assert(!at_level(marks, end, k, c));
            }
            assert forall|q: int| 0 <= q < 16 implies #[trigger] board.entry(q) == walk_step(
                marks,
                end,
                q,
            ) by {
                if reachable(marks, end, q) {
                    let j = choose|j: nat| within(marks, end, j, q);
                    lemma_within_closed(marks, end, (k - 1) as nat, j, q);
                }
            }
        }
        board
    }

    /// The first move of a shortest walk from `pos` to the table's cell, or
    /// `None` where no walk starts.
    pub fn action_by_pos(&self, pos: Point) -> (a: Option<Action>)
        requires
            pos.spec_inside(),
        ensures
            a == self.entry(pos.spec_index()),
    {
        if self.starts.marked(pos) {
            proof {
                lemma_code_range(self.actions, pos.0 as u32);
            }
            Some(ACTIONS[((self.actions >> ((pos.index() * 2) as u32)) & 0x3) as usize])
        } else {
            None
        }
    }

    /// A walk to the table's cell starts at `pos`.
    pub fn starts_at(&self, pos: Point) -> (b: bool)
        requires
            pos.spec_inside(),
        ensures
            b == self.entry(pos.spec_index()).is_some(),
    {
        self.starts.marked(pos)
    }

    /// The cell that the walks lead to.
    pub fn end(&self) -> (p: Point)
        ensures
            p == self.spec_end(),
    {
        self.end
    }
}

/// The eight symmetries in the order in which a pattern is folded: for each
/// transform, with the mirror and then without. The first is the identity.
pub open spec fn spec_symmetries() -> Seq<Sym> {
    seq![
        Sym { transform: Transform::Mirror, mirror: true },
        Sym { transform: Transform::Mirror, mirror: false },
        Sym { transform: Transform::Deg90, mirror: true },
        Sym { transform: Transform::Deg90, mirror: false },
        Sym { transform: Transform::Deg180, mirror: true },
        Sym { transform: Transform::Deg180, mirror: false },
        Sym { transform: Transform::Deg270, mirror: true },
        Sym { transform: Transform::Deg270, mirror: false },
    ]
}

/// Among the first `n + 1` symmetries, the place of the first whose image of
/// `m` is numerically smallest.
pub open spec fn best_symmetry(m: MarkBoard, n: int) -> int
    decreases n,
{
    if n <= 0 {
        0
    } else {
        let b = best_symmetry(m, n - 1);
        if m.spec_symmetry(spec_symmetries()[n]).0 < m.spec_symmetry(spec_symmetries()[b]).0 {
            n
        } else {
            b
        }
    }
}

/// The symmetry that folds `m` onto its canonical pattern.
pub open spec fn canonical_symmetry(m: MarkBoard) -> Sym {
    spec_symmetries()[best_symmetry(m, 7)]
}

/// The canonical pattern of `m`: the numerically smallest of its eight images.
pub open spec fn canonical(m: MarkBoard) -> MarkBoard {
    m.spec_symmetry(canonical_symmetry(m))
}

/// No image of a pattern is numerically smaller than its canonical pattern.
pub proof fn lemma_canonical_least(m: MarkBoard, i: int)
    requires
        0 <= i < 8,
    ensures
        canonical(m).0 <= m.spec_symmetry(spec_symmetries()[i]).0,
{
    lemma_best_symmetry(m, 7, i);
}

/// The best of the first `n + 1` symmetries gives an image that is no larger
/// than the image under any of them.
proof fn lemma_best_symmetry(m: MarkBoard, n: int, i: int)
    requires
        0 <= i <= n < 8,
    ensures
        0 <= best_symmetry(m, n) <= n,
        m.spec_symmetry(spec_symmetries()[best_symmetry(m, n)]).0 <= m.spec_symmetry(
            spec_symmetries()[i],
        ).0,
    decreases n,
{
    if n > 0 {
        if i < n {
            lemma_best_symmetry(m, n - 1, i);
        } else {
            lemma_best_symmetry(m, n - 1, 0);
        }
    }
}

impl MarkBoard {
    /// The eight symmetries of the square.
    pub fn all_symmeries(&self) -> (syms: Vec<Sym>)
        ensures
            syms@ == spec_symmetries(),
    {
        let pairs = cartesian_product(
            vec![Transform::Mirror, Transform::Deg90, Transform::Deg180, Transform::Deg270],
            vec![true, false],
        );
        let mut syms: Vec<Sym> = Vec::new();
        let mut i: usize = 0;
        while i < pairs.len()
            invariant
                i <= pairs@.len(),
                pairs@.len() == 8,
                syms@.len() == i,
                forall|j: int|
                    0 <= j < i ==> #[trigger] syms@[j] == (Sym {
                        transform: pairs@[j].0,
                        mirror: pairs@[j].1,
                    }),
            decreases pairs@.len() - i,
        {
            syms.push(Sym { transform: pairs[i].0, mirror: pairs[i].1 });
            i = i + 1;
        }
        assert(syms@ =~= spec_symmetries());
        syms
    }

    /// The symmetry that folds the pattern onto its canonical pattern, and that pattern.
    pub fn canonical_form(&self) -> (r: (Sym, MarkBoard))
        ensures
            r.0 == canonical_symmetry(*self),
            r.1 == canonical(*self),
    {
        let syms = self.all_symmeries();
        let mut best: Sym = syms[0];
        let mut marks: MarkBoard = self.symmetry(best);
        let mut i: usize = 1;
        while i < 8
            invariant
                1 <= i <= 8,
                syms@ == spec_symmetries(),
                best == spec_symmetries()[best_symmetry(*self, i - 1)],
                marks == self.spec_symmetry(best),
            decreases 8 - i,
        {
            let image = self.symmetry(syms[i]);
            if image.0 < marks.0 {
                best = syms[i];
                marks = image;
            }
            i = i + 1;
        }
        (best, marks)
    }
}

/// The cell one step from the cell `q` in direction `a` is an empty grid cell.
pub open spec fn empty_neighbor(marks: MarkBoard, q: int, a: Action) -> bool {
    neighbor(q, a) >= 0 && !marks.spec_marked(neighbor(q, a))
}

/// A cell that walks can lead to: occupied, with an empty grid cell beside it.
pub open spec fn eligible_end(marks: MarkBoard, end: Point) -> bool {
    &&& end.spec_inside()
    &&& marks.spec_marked(end.spec_index())
    &&& (empty_neighbor(marks, end.spec_index(), Action::UP) || empty_neighbor(
        marks,
        end.spec_index(),
        Action::DOWN,
    ) || empty_neighbor(marks, end.spec_index(), Action::LEFT) || empty_neighbor(
        marks,
        end.spec_index(),
        Action::RIGHT,
    ))
}

/// The first move of the shortest walk from the cell `q` to `end` that the
/// tables hold: none unless `end` is occupied.
pub open spec fn table_step(marks: MarkBoard, end: Point, q: int) -> Option<Action> {
    if marks.spec_marked(end.spec_index()) {
        walk_step(marks, end, q)
    } else {
        None
    }
}

/// A walk from another cell to an occupied `end` passes an empty cell beside `end`.
pub proof fn lemma_reachable_eligible(marks: MarkBoard, end: Point, k: nat, q: int)
    requires
        end.spec_inside(),
        marks.spec_marked(end.spec_index()),
        within(marks, end, k, q),
        q != end.spec_index(),
    ensures
        eligible_end(marks, end),
    decreases k,
{
    if k > 0 {
        if within(marks, end, (k - 1) as nat, q) {
            lemma_reachable_eligible(marks, end, (k - 1) as nat, q);
        } else {
            let a = if step_within(marks, end, (k - 1) as nat, q, Action::UP) {
                Action::UP
            } else if step_within(marks, end, (k - 1) as nat, q, Action::DOWN) {
                Action::DOWN
            } else if step_within(marks, end, (k - 1) as nat, q, Action::LEFT) {
                Action::LEFT
            } else {
                Action::RIGHT
            };
            let n = neighbor(q, a);
            lemma_within_cell(marks, end, (k - 1) as nat, n);
            if n == end.spec_index() {
                lemma_step_back(Point(q as u8), a);
                assert(neighbor(end.spec_index(), a.spec_reverse()) == q);
                assert(empty_neighbor(marks, end.spec_index(), a.spec_reverse()));
            } else {
                lemma_reachable_eligible(marks, end, (k - 1) as nat, n);
            }
        }
    }
}

/// `map` holds, under the index of each eligible end of `marks` and of no
/// other cell, the table of shortest walks towards that end.
pub open spec fn tables_for(map: Map<u8, ActionBoard>, marks: MarkBoard) -> bool {
    forall|e: u8|
        (#[trigger] map.contains_key(e) <==> eligible_end(marks, Point(e))) && (map.contains_key(e)
            ==> map[e].is_table_for(marks, Point(e)))
}

/// The tables of one pattern, by the index of the end they lead to.
pub type ActionBoardMap = HashMap<u8, ActionBoard>;

/// The tables of shortest walks for every pattern of occupied cells but the
/// full one, each pattern folded onto its canonical pattern.
pub struct ShortcutCache {
    boards: HashMap<u16, ActionBoardMap>,
}

impl ShortcutCache {
    /// The numbers of the patterns that the cache keeps tables under.
    pub closed spec fn kept(&self) -> Set<u16> {
        self.boards@.dom()
    }

    /// The cache keeps tables under the pattern with the number `c`.
    pub open spec fn holds(&self, c: u16) -> bool {
        self.kept().contains(c)
    }

    /// The tables that the cache keeps under the pattern with the number `c`.
    pub closed spec fn tables(&self, c: u16) -> Map<u8, ActionBoard> {
        self.boards@[c]@
    }

    /// The cache keeps tables under the canonical pattern of every pattern but
    /// the full one and under no other pattern, and what is kept under a
    /// pattern are the tables of that pattern.
    #[verifier::type_invariant]
    pub open spec fn wf(&self) -> bool {
        &&& forall|m: u16| m < 0xFFFF ==> self.holds(#[trigger] canonical(MarkBoard(m)).0)
        &&& forall|c: u16| #[trigger]
            self.holds(c) ==> exists|m: u16| m < 0xFFFF && #[trigger] canonical(MarkBoard(m)).0 == c
        &&& forall|c: u16| #[trigger] self.holds(c) ==> tables_for(self.tables(c), MarkBoard(c))
    }

    /// Number of patterns that the cache keeps tables under.
    pub fn len(&self) -> (n: usize)
        ensures
            n == self.kept().len(),
    {
        self.boards.len()
    }

    /// Builds the tables: takes every pattern but the full one in increasing
    /// order and builds the tables of its canonical pattern unless they are there.
    pub fn new() -> (cache: Self)
        ensures
            cache.wf(),
    {
        let mut boards: HashMap<u16, ActionBoardMap> = HashMap::new();
        let mut i: u16 = 0;
        while i < 0xFFFF
            invariant
                i <= 0xFFFF,
                forall|m: u16| m < i ==> boards@.contains_key(#[trigger] canonical(MarkBoard(m)).0),
                forall|c: u16| #[trigger]
                    boards@.contains_key(c) ==> exists|m: u16|
                        m < i && #[trigger] canonical(MarkBoard(m)).0 == c,
                forall|c: u16| #[trigger]
                    boards@.contains_key(c) ==> tables_for(boards@[c]@, MarkBoard(c)),
            decreases 0xFFFF - i,
        {
            let folded = MarkBoard(i).canonical_form();
            let marks: MarkBoard = folded.1;
            if !boards.contains_key(&marks.0) {
                let tables = build_tables(marks);
                boards.insert(marks.0, tables);
            }
            i = i + 1;
        }
        ShortcutCache { boards }
    }
}

/// `marks` holds an empty grid cell beside the cell `p`.
fn has_empty_neighbor(marks: MarkBoard, p: Point) -> (b: bool)
    requires
        p.spec_inside(),
    ensures
        b == (empty_neighbor(marks, p.spec_index(), Action::UP) || empty_neighbor(
            marks,
            p.spec_index(),
            Action::DOWN,
        ) || empty_neighbor(marks, p.spec_index(), Action::LEFT) || empty_neighbor(
            marks,
            p.spec_index(),
            Action::RIGHT,
        )),
{
    let mut i: usize = 0;
    while i < 4
        invariant
            i <= 4,
            p.spec_inside(),
            forall|j: int| 0 <= j < i ==> !empty_neighbor(marks, p.spec_index(), #[trigger] ACTIONS[j]),
        decreases 4 - i,
    {
        let neigh: Point = p + ACTIONS[i];
        if neigh.inside() && !marks.marked(neigh) {
            return true;
        }
        i = i + 1;
    }
    assert(ACTIONS[0] == Action::UP && ACTIONS[1] == Action::DOWN && ACTIONS[2] == Action::LEFT
        && ACTIONS[3] == Action::RIGHT);
    false
}

/// The tables of one pattern: one for each of its eligible ends.
fn build_tables(marks: MarkBoard) -> (map: ActionBoardMap)
    ensures
        tables_for(map@, marks),
{
    let mut map: ActionBoardMap = HashMap::new();
    let mut e: u8 = 0;
    while e < 16
        invariant
            e <= 16,
            forall|c: u8|
                (#[trigger] map@.contains_key(c) <==> c < e && eligible_end(marks, Point(c))) && (
                map@.contains_key(c) ==> map@[c].is_table_for(marks, Point(c))),
        decreases 16 - e,
    {
        let end = Point(e);
        if marks.marked(end) && has_empty_neighbor(marks, end) {
            let board = ActionBoard::from(marks, end);
            map.insert(e, board);
        }
        e = e + 1;
    }
    map
}

/// The move that the table of the image of `marks` under `sym` holds for the
/// images of `pos` and `end`, turned back into the pattern itself.
pub open spec fn folded_step(marks: MarkBoard, sym: Sym, pos: Point, end: Point) -> Option<Action> {
    match table_step(
        marks.spec_symmetry(sym),
        end.spec_symmetry(sym),
        pos.spec_symmetry(sym).spec_index(),
    ) {
        Some(a) => Some(a.spec_reverse_symmetry(sym)),
        None => None,
    }
}

/// The move that the cache gives for a player at `pos` who walks towards
/// `end`: the table's move for the canonical pattern, turned back.
pub open spec fn spec_action_towards(marks: MarkBoard, pos: Point, end: Point) -> Option<Action> {
    folded_step(marks, canonical_symmetry(marks), pos, end)
}

/// The ends that the cache gives for a player at `pos`, among the cells whose
/// folded index is below `n`, in the order of that index.
pub open spec fn spec_ends_below(marks: MarkBoard, pos: Point, n: int) -> Seq<Point>
    decreases n,
{
    if n <= 0 {
        Seq::empty()
    } else {
        let sym = canonical_symmetry(marks);
        let rest = spec_ends_below(marks, pos, n - 1);
        let folded = Point((n - 1) as u8);
        if table_step(canonical(marks), folded, pos.spec_symmetry(sym).spec_index()) is Some {
            rest.push(folded.spec_reverse_symmetry(sym))
        } else {
            rest
        }
    }
}

/// Every end that the cache gives for a player at `pos`.
pub open spec fn spec_ends_for(marks: MarkBoard, pos: Point) -> Seq<Point> {
    spec_ends_below(marks, pos, 16)
}

/// The full pattern has no walks.
proof fn lemma_full_pattern(marks: MarkBoard, end: Point, q: int)
    requires
        marks.0 == 0xFFFF,
        end.spec_inside(),
    ensures
        table_step(canonical(marks), end, q) is None,
{
    let c = canonical(marks);
    let sym = canonical_symmetry(marks);
    assert forall|j: int| 0 <= j < 16 implies c.spec_marked(j) by {
        lemma_symmetry_marked(marks, sym, j);
        let r = Point(j as u8).spec_reverse_symmetry(sym).spec_index();
        lemma_mark_bits(0, 0, r as u16);
    }
    if reachable(c, end, q) && q != end.spec_index() {
        let k = choose|k: nat| within(c, end, k, q);
        lemma_within_cell(c, end, k, q);
    }
}

/// What the tables of a pattern give is what the table of shortest walks holds.
proof fn lemma_tables_step(map: Map<u8, ActionBoard>, marks: MarkBoard, end: Point, q: int)
    requires
        tables_for(map, marks),
        end.spec_inside(),
        0 <= q < 16,
    ensures
        table_step(marks, end, q) == if map.contains_key(end.0) {
            map[end.0].entry(q)
        } else {
            None
        },
{
    assert(map.contains_key(end.0) <==> eligible_end(marks, Point(end.0)));
    if !map.contains_key(end.0) && marks.spec_marked(end.spec_index()) && reachable(marks, end, q)
        && q != end.spec_index() {
        let k = choose|k: nat| within(marks, end, k, q);
        lemma_reachable_eligible(marks, end, k, q);
    }
}

impl MarkBoard {
    /// The symmetry that folds the pattern onto its canonical pattern, and the
    /// tables that the cache keeps for that pattern: none for the full pattern only.
    pub fn action_board_map<'a>(&self, cache: &'a ShortcutCache) -> (r: (
        Sym,
        Option<&'a ActionBoardMap>,
    ))
        ensures
            r.0 == canonical_symmetry(*self),
            match r.1 {
                Some(map) => tables_for(map@, canonical(*self)),
                None => self.0 == 0xFFFF,
            },
    {
        proof {
            use_type_invariant(cache);
        }
        let folded = self.canonical_form();
        let found = cache.boards.get(&folded.1.0);
        proof {
            if found is Some {
                assert(cache.holds(folded.1.0));
            }
        }
        (folded.0, found)
    }

    /// The first move of a shortest walk over empty cells from `pos` to the
    /// occupied cell `end`, or `None` when there is no such walk.
    pub fn action_towards(&self, cache: &ShortcutCache, pos: Point, end: Point) -> (a: Option<
        Action,
    >)
        requires
            pos.spec_inside(),
            end.spec_inside(),
        ensures
            a == spec_action_towards(*self, pos, end),
            a is Some <==> table_step(*self, end, pos.spec_index()) is Some,
            match a {
                Some(m) => shortens(*self, end, pos.spec_index(), m),
                None => true,
            },
    {
        proof {
            lemma_folded_step_shortens(*self, canonical_symmetry(*self), pos, end);
        }
        let found = self.action_board_map(cache);
        let sym: Sym = found.0;
        let folded_end: Point = end.symmetry(sym);
        let folded_pos: Point = pos.symmetry(sym);
        match found.1 {
            None => {
                proof {
                    lemma_full_pattern(*self, folded_end, folded_pos.spec_index());
                }
                None
            },
            Some(map) => {
                proof {
                    lemma_tables_step(map@, canonical(*self), folded_end, folded_pos.spec_index());
                }
                match map.get(&folded_end.0) {
                    None => None,
                    Some(board) => match board.action_by_pos(folded_pos) {
                        None => None,
                        Some(action) => Some(action.reverse_symmetry(sym)),
                    },
                }
            },
        }
    }

    /// Every occupied cell that a walk over empty cells from `pos` leads to.
    pub fn find_all_ends_for(&self, cache: &ShortcutCache, pos: Point) -> (ends: Vec<Point>)
        requires
            pos.spec_inside(),
        ensures
            ends@ == spec_ends_for(*self, pos),
            forall|i: int| 0 <= i < ends@.len() ==> (#[trigger] ends@[i]).spec_inside(),
            forall|end: Point|
                end.spec_inside() ==> (#[trigger] ends@.contains(end) <==> table_step(
                    *self,
                    end,
                    pos.spec_index(),
                ) is Some),
    {
        let found = self.action_board_map(cache);
        let sym: Sym = found.0;
        let folded_pos: Point = pos.symmetry(sym);
        let mut ends: Vec<Point> = Vec::new();
        let mut e: u8 = 0;
        while e < 16
            invariant
                e <= 16,
                sym == canonical_symmetry(*self),
                folded_pos == pos.spec_symmetry(sym),
                folded_pos.spec_inside(),
                match found.1 {
                    Some(map) => tables_for(map@, canonical(*self)),
                    None => self.0 == 0xFFFF,
                },
                ends@ == spec_ends_below(*self, pos, e as int),
                forall|i: int| 0 <= i < ends@.len() ==> (#[trigger] ends@[i]).spec_inside(),
            decreases 16 - e,
        {
            let folded_end = Point(e);
            match found.1 {
                None => {
                    proof {
                        lemma_full_pattern(*self, folded_end, folded_pos.spec_index());
                    }
                },
                Some(map) => {
                    proof {
                        lemma_tables_step(
                            map@,
                            canonical(*self),
                            folded_end,
                            folded_pos.spec_index(),
                        );
                    }
                    match map.get(&e) {
                        None => {},
                        Some(board) => {
                            if board.starts_at(folded_pos) {
                                ends.push(folded_end.reverse_symmetry(sym));
                            }
                        },
                    }
                },
            }
            e = e + 1;
        }
        proof {
            assert forall|end: Point| end.spec_inside() implies (#[trigger] ends@.contains(end)
                <==> table_step(*self, end, pos.spec_index()) is Some) by {
                lemma_ends_for(*self, pos, end);
            }
        }
        ends
    }
}

/// Folding is sound: whichever symmetry folds the pattern, the folded table
/// gives a move exactly where the table of the pattern itself gives one, and
/// the move it gives, turned back, takes the player one step nearer to `end`
/// in the pattern itself.
pub proof fn lemma_folded_step_shortens(marks: MarkBoard, sym: Sym, pos: Point, end: Point)
    requires
        pos.spec_inside(),
        end.spec_inside(),
    ensures
        folded_step(marks, sym, pos, end) is Some <==> table_step(marks, end, pos.spec_index())
            is Some,
        match folded_step(marks, sym, pos, end) {
            Some(a) => shortens(marks, end, pos.spec_index(), a),
            None => true,
        },
        match table_step(marks, end, pos.spec_index()) {
            Some(a) => shortens(marks, end, pos.spec_index(), a),
            None => true,
        },
{
    let cm = marks.spec_symmetry(sym);
    let ce = end.spec_symmetry(sym);
    let cp = pos.spec_symmetry(sym);
    lemma_symmetry_reverse(pos, sym);
    lemma_symmetry_reverse(end, sym);
    lemma_symmetry_marked(marks, sym, ce.spec_index());
    assert(Point(pos.spec_index() as u8) == pos);
    lemma_shortens_symmetry(marks, end, sym, pos.spec_index(), Action::UP);
    if table_step(marks, end, pos.spec_index()) is Some {
        lemma_preferred_shortens(marks, end, pos.spec_index());
    }
    if table_step(cm, ce, cp.spec_index()) is Some {
        lemma_preferred_shortens(cm, ce, cp.spec_index());
        let folded = preferred_move(cm, ce, cp.spec_index());
        let a = folded.spec_reverse_symmetry(sym);
        lemma_action_symmetry_reverse(folded, sym);
        lemma_shortens_symmetry(marks, end, sym, pos.spec_index(), a);
    }
}

/// Symmetry soundness: where only one move takes the player one step nearer to
/// `end`, the move that a folded table gives, turned back, is the move that
/// the table of the pattern itself gives, whichever symmetry folds the
/// pattern; so it is for the move that the cache gives.
pub proof fn lemma_symmetry_sound(marks: MarkBoard, sym: Sym, pos: Point, end: Point)
    requires
        pos.spec_inside(),
        end.spec_inside(),
        forall|a: Action, b: Action|
            shortens(marks, end, pos.spec_index(), a) && shortens(marks, end, pos.spec_index(), b)
                ==> a == b,
    ensures
        folded_step(marks, sym, pos, end) == table_step(marks, end, pos.spec_index()),
        spec_action_towards(marks, pos, end) == table_step(marks, end, pos.spec_index()),
{
    lemma_folded_step_shortens(marks, sym, pos, end);
    lemma_folded_step_shortens(marks, canonical_symmetry(marks), pos, end);
}

/// The ends that the cache gives for a player at `pos` are the occupied cells
/// that a walk over empty cells leads to from `pos`, each once.
pub proof fn lemma_ends_for(marks: MarkBoard, pos: Point, end: Point)
    requires
        pos.spec_inside(),
        end.spec_inside(),
    ensures
        spec_ends_for(marks, pos).contains(end) <==> table_step(marks, end, pos.spec_index())
            is Some,
{
    let sym = canonical_symmetry(marks);
    lemma_ends_below(marks, pos, 16, end);
    lemma_symmetry_reverse(end, sym);
    lemma_folded_step_shortens(marks, sym, pos, end);
    let folded = end.spec_symmetry(sym);
    assert(Point(folded.spec_index() as u8) == folded);
    if table_step(marks, end, pos.spec_index()) is Some {
        assert(gives_end(marks, pos, folded.spec_index(), end));
    }
    if spec_ends_for(marks, pos).contains(end) {
        let i = choose|i: int| 0 <= i < 16 && #[trigger] gives_end(marks, pos, i, end);
        lemma_symmetry_reverse(Point(i as u8), sym);
    }
}

/// The cell with folded index `i` is an end for a player at `pos`, and it is `end`.
pub open spec fn gives_end(marks: MarkBoard, pos: Point, i: int, end: Point) -> bool {
    Point(i as u8).spec_reverse_symmetry(canonical_symmetry(marks)) == end && table_step(
        canonical(marks),
        Point(i as u8),
        pos.spec_symmetry(canonical_symmetry(marks)).spec_index(),
    ) is Some
}

/// The ends with a folded index below `n` are listed, and nothing else is.
proof fn lemma_ends_below(marks: MarkBoard, pos: Point, n: int, end: Point)
    requires
        0 <= n <= 16,
    ensures
        spec_ends_below(marks, pos, n).contains(end) <==> exists|i: int|
            0 <= i < n && #[trigger] gives_end(marks, pos, i, end),
    decreases n,
{
    let sym = canonical_symmetry(marks);
    let cp = pos.spec_symmetry(sym).spec_index();
    if n > 0 {
        lemma_ends_below(marks, pos, n - 1, end);
        let rest = spec_ends_below(marks, pos, n - 1);
        let folded = Point((n - 1) as u8);
        if table_step(canonical(marks), folded, cp) is Some {
            let all = rest.push(folded.spec_reverse_symmetry(sym));
            assert(all.contains(end) <==> rest.contains(end) || folded.spec_reverse_symmetry(sym)
                == end) by {
                if rest.contains(end) {
                    let j = choose|j: int| 0 <= j < rest.len() && rest[j] == end;
                    assert(all[j] == end);
                }
                if folded.spec_reverse_symmetry(sym) == end {
                    assert(all[rest.len() as int] == end);
                }
            }
            if folded.spec_reverse_symmetry(sym) == end {
                assert(gives_end(marks, pos, n - 1, end));
            }
        }
        if exists|i: int| 0 <= i < n && #[trigger] gives_end(marks, pos, i, end) {
            let i = choose|i: int| 0 <= i < n && #[trigger] gives_end(marks, pos, i, end);
            if i < n - 1 {
                assert(gives_end(marks, pos, i, end));
            }
        }
    }
}

impl MarkBoard {
    /// The text of one cell of the pattern.
    pub open spec fn cell_text(&self, i: int) -> Seq<char> {
        if self.spec_marked(i) {
            "|#|"@
        } else {
            "| |"@
        }
    }

    /// The pattern as a grid: `|#|` for an occupied cell, `| |` for an empty one.
    pub fn to_string(&self) -> (out: String)
        ensures
            out@ == grid_text(Seq::new(16, |i: int| self.cell_text(i))),
    {
        let mut cells: Vec<String> = Vec::new();
        let mut i: u8 = 0;
        while i < 16
            invariant
                i <= 16,
                cells@.len() == i,
                forall|j: int| 0 <= j < i ==> (#[trigger] cells@[j])@ == self.cell_text(j),
            decreases 16 - i,
        {
            cells.push(
                String::from_str(
                    if self.marked(Point(i)) {
                        "|#|"
                    } else {
                        "| |"
                    },
                ),
            );
            i = i + 1;
        }
        assert(crate::text::texts_of(cells@) =~= Seq::new(16, |i: int| self.cell_text(i)));
        fmt_board(&cells)
    }
}

impl ActionBoard {
    /// The text of one cell of the table.
    pub open spec fn cell_text(&self, i: int) -> Seq<char> {
        match self.entry(i) {
            Some(a) => "|"@ + a.spec_name() + "|"@,
            None => if i == self.spec_end().spec_index() {
                "|X|"@
            } else {
                "| |"@
            },
        }
    }

    /// The table as a grid: the move of each cell that has one between bars,
    /// `|X|` for the end, `| |` for any other cell.
    pub fn to_string(&self) -> (out: String)
        ensures
            out@ == grid_text(Seq::new(16, |i: int| self.cell_text(i))),
    {
        let mut cells: Vec<String> = Vec::new();
        let mut i: u8 = 0;
        while i < 16
            invariant
                i <= 16,
                cells@.len() == i,
                forall|j: int| 0 <= j < i ==> (#[trigger] cells@[j])@ == self.cell_text(j),
            decreases 16 - i,
        {
            let p = Point(i);
            let cell = match self.action_by_pos(p) {
                Some(a) => {
                    let mut text = String::from_str("|");
                    text.append(a.to_string().as_str());
                    text.append("|");
                    text
                },
                None => String::from_str(
                    if p == self.end {
                        "|X|"
                    } else {
                        "| |"
                    },
                ),
            };
            cells.push(cell);
            i = i + 1;
        }
        assert(crate::text::texts_of(cells@) =~= Seq::new(16, |i: int| self.cell_text(i)));
        fmt_board(&cells)
    }
}

} // verus!
