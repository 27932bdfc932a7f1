//! The packed board, its move rule, and win and loss detection.

use crate::action::Action;
use crate::marks::{
    lemma_marks_equal, lemma_pattern, pattern, spec_action_towards, spec_ends_for, MarkBoard,
    ShortcutCache,
};
use crate::text::{board_text, parse_cells, parse_text, render_cells, to_chars};
use crate::values::{BoardLike, CellNumber, Point, N};
use std::collections::HashMap;
use vstd::prelude::*;
use vstd::set_lib::{lemma_int_range, lemma_len_subset, set_int_range};

verus! {

/// What a board is, as plain values: where the player stands and the sixteen
/// magnitudes in row-major order.
pub struct BoardView {
    pub pos: Point,
    pub cells: Seq<u8>,
}

/// How a ray changes the magnitude `num` of a cell it meets, fired from a cell
/// of magnitude `origin`: equal values cancel, values more than one apart leave
/// their difference, neighbouring values leave their sum, cut to a byte.
pub open spec fn cell_diff(num: u8, origin: u8) -> u8 {
    if num == origin {
        0
    } else {
        let low: int = if num < origin { num as int } else { origin as int };
        let high: int = if num < origin { origin as int } else { num as int };
        if high > low + 1 {
            (high - low) as u8
        } else {
            ((high + low) % 256) as u8
        }
    }
}

/// `q` lies on the ray that leaves `p` in direction `a`.
pub open spec fn on_ray(p: Point, a: Action, q: int) -> bool {
    let r = q / 4;
    let c = q % 4;
    match a {
        Action::UP => c == p.spec_column() && r < p.spec_row(),
        Action::DOWN => c == p.spec_column() && r > p.spec_row(),
        Action::LEFT => r == p.spec_row() && c < p.spec_column(),
        Action::RIGHT => r == p.spec_row() && c > p.spec_column(),
    }
}

/// The ray from `p` in direction `a` meets a cell that it clears.
pub open spec fn ray_clears(cells: Seq<u8>, p: Point, a: Action) -> bool {
    exists|q: int|
        0 <= q < 16 && on_ray(p, a, q) && cells[q] != 0 && #[trigger] cell_diff(
            cells[q],
            cells[p.spec_index()],
        ) == 0
}

/// Magnitude of cell `q` after the player left `p` in direction `a`.
pub open spec fn moved_cell(cells: Seq<u8>, p: Point, a: Action, q: int) -> u8 {
    let origin = cells[p.spec_index()];
    if origin == 0 {
        cells[q]
    } else if q == p.spec_index() {
        if ray_clears(cells, p, a) {
            0
        } else {
            origin
        }
    } else if on_ray(p, a, q) && cells[q] != 0 {
        cell_diff(cells[q], origin)
    } else {
        cells[q]
    }
}

/// The sixteen magnitudes after the player left `p` in direction `a`.
pub open spec fn moved_cells(cells: Seq<u8>, p: Point, a: Action) -> Seq<u8> {
    Seq::new(16, |q: int| moved_cell(cells, p, a, q))
}

/// The move rule on plain values: `None` when the step leaves the grid.
pub open spec fn spec_action(b: BoardView, a: Action) -> Option<BoardView> {
    let next = b.pos.spec_step(a);
    if next.spec_inside() {
        Some(BoardView { pos: next, cells: moved_cells(b.cells, b.pos, a) })
    } else {
        None
    }
}

/// The pattern of occupied cells of a board.
pub open spec fn spec_marks(b: BoardView) -> MarkBoard {
    pattern(|i: int| b.cells[i] != 0)
}

/// The occupied cells that a walk over empty cells leads the player to.
pub open spec fn spec_zero_walk_endings(b: BoardView) -> Seq<Point> {
    spec_ends_for(spec_marks(b), b.pos)
}

/// One step of a shortest walk over empty cells towards `end`: the move and
/// the board after it, or `None` when there is no walk.
pub open spec fn spec_move_towards(b: BoardView, end: Point) -> Option<(Action, BoardView)> {
    match spec_action_towards(spec_marks(b), b.pos, end) {
        None => None,
        Some(a) => match spec_action(b, a) {
            None => None,
            Some(next) => Some((a, next)),
        },
    }
}

/// Cell `q` is occupied and alone in both its row and its column.
pub open spec fn dead_at(cells: Seq<u8>, q: int) -> bool {
    &&& cells[q] != 0
    &&& forall|j: int|
        0 <= j < 16 && j != q && (j / 4 == q / 4 || j % 4 == q % 4) ==> #[trigger] cells[j] == 0
}

/// Some cell is dead.
pub open spec fn spec_lost(cells: Seq<u8>) -> bool {
    exists|q: int| 0 <= q < 16 && #[trigger] dead_at(cells, q)
}

/// Every cell is empty.
pub open spec fn spec_won(cells: Seq<u8>) -> bool {
    forall|q: int| 0 <= q < 16 ==> #[trigger] cells[q] == 0
}

/// How a ray changes the magnitude `num` of a cell it meets, fired from a cell
/// of magnitude `origin`. The result is zero exactly for equal magnitudes.
pub fn cell_num_diff(num: CellNumber, origin: CellNumber) -> (d: CellNumber)
    ensures
        d == cell_diff(num, origin),
        d == 0 <==> num == origin,
{
    if num == origin {
        0
    } else {
        let low: u8 = if num < origin { num } else { origin };
        let high: u8 = if num < origin { origin } else { num };
        if high > low + 1 {
            high - low
        } else {
            high.wrapping_add(low)
        }
    }
}

/// Writing byte `i` of a packed word changes that byte and no other.
proof fn lemma_byte_set(cells: u128, i: u128, j: u128, v: u128)
    by (bit_vector)
    requires
        i < 16,
        j < 16,
        v < 256,
    ensures
        ({
            let n = cells ^ ((((cells >> (8 * i) as u128) & 0xff) ^ v) << (8 * i) as u128);
            (n >> (8 * j) as u128) & 0xff == if i == j {
                v
            } else {
                (cells >> (8 * j) as u128) & 0xff
            }
        }),
        (cells >> (8 * j) as u128) & 0xff < 256,
{
}

/// Byte `i` of a word, lowest first.
pub open spec fn word_byte(w: u32, i: int) -> u8 {
    ((w >> ((8 * i) as u32)) & 0xff) as u8
}

/// Byte `c` of row `r` of a packed word is byte `4r + c` of the word.
proof fn lemma_row_byte(cells: u128, r: u128, c: u128)
    by (bit_vector)
    requires
        r < 4,
        c < 4,
    ensures
        ((((cells >> (r * 4 * 8) as u128) as u32) >> (8 * c) as u32) & 0xff) as u8 == ((cells >> (8
            * (4 * r + c)) as u128) & 0xff) as u8,
{
}

/// Setting byte `r` of a word whose bytes from `r` on are zero.
proof fn lemma_or_byte(acc: u32, b: u32, r: u32, j: u32)
    by (bit_vector)
    requires
        r < 4,
        j < 4,
        b < 256,
        acc >> (8 * r) as u32 == 0,
    ensures
        ({
            let n = acc | (b << (r * 8) as u32);
            &&& ((n >> (8 * j) as u32) & 0xff) as u8 == if j == r {
                b as u8
            } else {
                ((acc >> (8 * j) as u32) & 0xff) as u8
            }
            &&& (r < 3 ==> n >> (8 * (r + 1)) as u32 == 0)
        }),
{
}

/// A word is zero outside byte `c` exactly when each of its other bytes is zero.
proof fn lemma_word_clear(w: u32, c: u32)
    by (bit_vector)
    requires
        c < 4,
    ensures
        (w & !(0xFFu32 << (c * 8) as u32)) == 0 <==> (c == 0 || ((w >> 0u32) & 0xff) as u8 == 0) && (c
            == 1 || ((w >> 8u32) & 0xff) as u8 == 0) && (c == 2 || ((w >> 16u32) & 0xff) as u8 == 0)
            && (c == 3 || ((w >> 24u32) & 0xff) as u8 == 0),
        0u32 >> 0u32 == 0,
{
}

/// A packed word is zero exactly when each of its sixteen bytes is zero.
proof fn lemma_zero_cells(cells: u128, i: u128)
    by (bit_vector)
    requires
        i < 16,
    ensures
        cells == 0 ==> ((cells >> (8 * i) as u128) & 0xff) as u8 == 0,
        cells == 0 <== ((cells >> 0u128) & 0xff) as u8 == 0 && ((cells >> 8u128) & 0xff) as u8 == 0
            && ((cells >> 16u128) & 0xff) as u8 == 0 && ((cells >> 24u128) & 0xff) as u8 == 0 && ((
        cells >> 32u128) & 0xff) as u8 == 0 && ((cells >> 40u128) & 0xff) as u8 == 0 && ((cells
            >> 48u128) & 0xff) as u8 == 0 && ((cells >> 56u128) & 0xff) as u8 == 0 && ((cells
            >> 64u128) & 0xff) as u8 == 0 && ((cells >> 72u128) & 0xff) as u8 == 0 && ((cells
            >> 80u128) & 0xff) as u8 == 0 && ((cells >> 88u128) & 0xff) as u8 == 0 && ((cells
            >> 96u128) & 0xff) as u8 == 0 && ((cells >> 104u128) & 0xff) as u8 == 0 && ((cells
            >> 112u128) & 0xff) as u8 == 0 && ((cells >> 120u128) & 0xff) as u8 == 0,
{
}

/// The text was not a board: too few or too many rows or columns, or a token
/// that is not a number from 0 to 255.
#[derive(Debug, PartialEq, Eq)]
pub struct ParseBoardError;

impl core::str::FromStr for Board {
    type Err = ParseBoardError;

    /// Reads a board from its text, as `Board::parse` does.
    fn from_str(s: &str) -> (r: Result<Self, Self::Err>)
        ensures
            match r {
                Ok(b) => parse_text(s@) == Some(b@.cells) && b@.pos == Point(0),
                Err(_) => parse_text(s@) is None,
            },
    {
        Board::parse(s)
    }
}

/// The sixteen magnitudes in one word, eight bits each, and the player's position.
#[derive(PartialEq, Eq, Hash, Clone, Copy, Debug)]
pub struct Board {
    pos: Point,
    cells: u128,
}

impl View for Board {
    type V = BoardView;

    open spec fn view(&self) -> BoardView {
        BoardView { pos: self.spec_pos(), cells: Seq::new(16, |i: int| self.spec_cell(i)) }
    }
}

impl Board {
    /// The player stands on the grid.
    #[verifier::type_invariant]
    pub closed spec fn wf(&self) -> bool {
        self.pos.spec_inside()
    }

    /// Where the player stands.
    pub closed spec fn spec_pos(&self) -> Point {
        self.pos
    }

    /// Magnitude of the cell with index `i`.
    pub closed spec fn spec_cell(&self, i: int) -> u8 {
        ((self.cells >> ((8 * i) as u128)) & 0xff) as u8
    }

    /// Magnitude of the cell at `p`.
    pub fn cell(&self, p: Point) -> (v: CellNumber)
        requires
            p.spec_inside(),
        ensures
            v == self@.cells[p.spec_index()],
    {
        proof {
            lemma_byte_set(self.cells, 0, p.0 as u128, 0);
        }
        ((self.cells >> ((p.index() * 8) as u128)) & 0xff) as u8
    }

    /// Sets the magnitude of the cell at `p`.
    fn set_cell(&mut self, p: Point, v: CellNumber)
        requires
            p.spec_inside(),
        ensures
            final(self)@.pos == old(self)@.pos,
            final(self)@.cells == old(self)@.cells.update(p.spec_index(), v),
    {
        let shift: u128 = (p.index() * 8) as u128;
        let before: u128 = (self.cells >> shift) & 0xff;
        proof {
            use_type_invariant(&*self);
            assert forall|j: int| 0 <= j < 16 implies ((((self.cells ^ ((before ^ (v as u128))
                << shift)) >> ((8 * j) as u128)) & 0xff) as u8) == old(self)@.cells.update(
                p.spec_index(),
                v,
            )[j] by {
                lemma_byte_set(self.cells, p.0 as u128, j as u128, v as u128);
            }
        }
        self.cells = self.cells ^ ((before ^ (v as u128)) << shift);
        assert(self@.cells =~= old(self)@.cells.update(p.spec_index(), v));
    }

    /// Fires the ray of a move that leaves `p` in direction `action` and returns
    /// how many cells it emptied, the left cell included.
    fn apply_action(&mut self, p: Point, action: Action) -> (clears: u8)
        requires
            p.spec_inside(),
        ensures
            final(self)@.pos == old(self)@.pos,
            final(self)@.cells == moved_cells(old(self)@.cells, p, action),
            clears > 0 <==> old(self)@.cells[p.spec_index()] != 0 && ray_clears(
                old(self)@.cells,
                p,
                action,
            ),
            clears == spec_clears(old(self)@.cells, p, action),
    {
        let mut clears: u8 = 0;
        let origin: u8 = self.cell(p);
        let ghost start = self@.cells;
        if origin > 0 {
            let mut pos: Point = p + action;
            proof {
                assert(cleared_before(start, p, action, pos) =~= Set::<int>::empty());
            }
            while pos.inside()
                invariant
                    p.spec_inside(),
                    start.len() == 16,
                    origin == start[p.spec_index()],
                    origin != 0,
                    self@.pos == old(self)@.pos,
                    pos.spec_inside() ==> on_ray(p, action, pos.spec_index()),
                    clears + steps_left(pos, action) <= 3,
                    forall|q: int|
                        0 <= q < 16 ==> #[trigger] self@.cells[q] == if passed(p, action, pos, q)
                            && start[q] != 0 {
                            cell_diff(start[q], origin)
                        } else {
                            start[q]
                        },
                    clears > 0 <==> exists|q: int|
                        0 <= q < 16 && passed(p, action, pos, q) && start[q] != 0
                            && #[trigger] cell_diff(start[q], origin) == 0,
                    clears == cleared_before(start, p, action, pos).len(),
                decreases steps_left(pos, action),
            {
                let ghost before = self@.cells;
                let ghost at = pos;
                let v: u8 = self.cell(pos);
                if v > 0 {
                    let nv: u8 = cell_num_diff(v, origin);
                    if nv == 0 {
                        clears = clears + 1;
                    }
                    self.set_cell(pos, nv);
                }
                pos = pos + action;
                proof {
                    assert forall|q: int| 0 <= q < 16 implies (passed(p, action, pos, q) <==> passed(
                        p,
                        action,
                        at,
                        q,
                    ) || q == at.spec_index()) by {}
                    lemma_cleared_finite(start, p, action, at);
                    if v > 0 && cell_diff(v, origin) == 0 {
                        assert(cleared_before(start, p, action, pos) =~= cleared_before(
                            start,
                            p,
                            action,
                            at,
                        ).insert(at.spec_index()));
                    } else {
                        assert(cleared_before(start, p, action, pos) =~= cleared_before(
                            start,
                            p,
                            action,
                            at,
                        ));
                    }
                    if clears > 0 {
                        if v > 0 && cell_diff(v, origin) == 0 {
                            assert(passed(p, action, pos, at.spec_index()) && start[at.spec_index()]
                                != 0 && cell_diff(start[at.spec_index()], origin) == 0);
                        } else {
                            let q0 = choose|q: int|
                                0 <= q < 16 && passed(p, action, at, q) && start[q] != 0
                                    && #[trigger] cell_diff(start[q], origin) == 0;
                            assert(passed(p, action, pos, q0));
                        }
                    }
                }
            }
            proof {
                assert forall|q: int| 0 <= q < 16 implies (passed(p, action, pos, q) <==> on_ray(
                    p,
                    action,
                    q,
                )) by {}
                assert(cleared_before(start, p, action, pos) =~= cleared(start, p, action));
            }
            if clears > 0 {
                self.set_cell(p, 0);
                clears = clears + 1;
            }
        }
        assert(self@.cells =~= moved_cells(start, p, action));
        clears
    }

    /// The board after the player took one step in direction `action`, or `None`
    /// when the step would leave the grid. `self` stays as it was.
    pub fn action(&self, action: Action) -> (next: Option<Self>)
        ensures
            match next {
                Some(b) => spec_action(self@, action) == Some(b@),
                None => spec_action(self@, action) is None,
            },
    {
        proof {
            use_type_invariant(self);
        }
        let pos: Point = self.pos + action;
        if pos.inside() {
            let mut next_board = Self { pos, cells: self.cells };
            assert(next_board@.cells =~= self@.cells);
            next_board.apply_action(self.pos, action);
            Some(next_board)
        } else {
            None
        }
    }

    /// Where the player stands.
    pub fn position(&self) -> (p: Point)
        ensures
            p == self@.pos,
            p.spec_inside(),
    {
        proof {
            use_type_invariant(self);
        }
        self.pos
    }

    /// The player stands at `p`.
    pub fn at_point(&self, p: Point) -> (b: bool)
        ensures
            b == (self@.pos == p),
    {
        self.pos == p
    }

    /// The player stands on an empty cell.
    pub fn at_zero(&self) -> (b: bool)
        ensures
            b == (self@.cells[self@.pos.spec_index()] == 0),
    {
        proof {
            use_type_invariant(self);
        }
        self.cell(self.pos) == 0
    }

    /// The four magnitudes of row `row` in one word, column 0 lowest.
    pub fn row(&self, row: usize) -> (w: u32)
        requires
            row < 4,
        ensures
            forall|c: int| 0 <= c < 4 ==> #[trigger] word_byte(w, c) == self@.cells[4 * row + c],
    {
        let w: u32 = #[verifier::truncate]
        ((self.cells >> ((row * N * 8) as u128)) as u32);
        proof {
            assert forall|c: int| 0 <= c < 4 implies #[trigger] word_byte(w, c) == self@.cells[4
                * row + c] by {
                lemma_row_byte(self.cells, row as u128, c as u128);
            }
        }
        w
    }

    /// The four magnitudes of column `col` in one word, row 0 lowest.
    pub fn col(&self, col: usize) -> (w: u32)
        requires
            col < 4,
        ensures
            forall|r: int| 0 <= r < 4 ==> #[trigger] word_byte(w, r) == self@.cells[4 * r + col],
    {
        let mut w: u32 = 0;
        let mut r: usize = 0;
        proof {
            lemma_word_clear(0, 0);
        }
        while r < N
            invariant
                r <= 4,
                col < 4,
                r < 4 ==> w >> ((8 * r) as u32) == 0,
                forall|j: int| 0 <= j < r ==> #[trigger] word_byte(w, j) == self@.cells[4 * j + col],
            decreases 4 - r,
        {
            let b: u32 = self.cell(Point::from(r, col)) as u32;
            let ghost before = w;
            proof {
                assert forall|j: int| 0 <= j <= r implies #[trigger] word_byte(
                    w | (b << ((r * 8) as u32)),
                    j,
                ) == self@.cells[4 * j + col] by {
                    lemma_or_byte(w, b, r as u32, j as u32);
                    if j != r {
                        assert(word_byte(w, j) == self@.cells[4 * j + col]);
                    }
                }
                lemma_or_byte(w, b, r as u32, 0);
            }
            w = w | (b << ((r * 8) as u32));
            r = r + 1;
        }
        w
    }

    /// The cell at `p` is occupied and alone in both its row and its column.
    pub fn dead_cell(&self, p: Point) -> (b: bool)
        requires
            p.spec_inside(),
        ensures
            b == dead_at(self@.cells, p.spec_index()),
    {
        let r: usize = p.row();
        let c: usize = p.column();
        let row_word: u32 = self.row(r);
        let col_word: u32 = self.col(c);
        let b = self.cell(p) != 0 && (row_word & !(0xFFu32 << ((c * 8) as u32))) == 0 && (col_word
            & !(0xFFu32 << ((r * 8) as u32))) == 0;
        proof {
            let cells = self@.cells;
            let q = p.spec_index();
            lemma_word_clear(row_word, c as u32);
            lemma_word_clear(col_word, r as u32);
            assert(word_byte(row_word, 0) == cells[4 * r + 0]);
            assert(word_byte(row_word, 1) == cells[4 * r + 1]);
            assert(word_byte(row_word, 2) == cells[4 * r + 2]);
            assert(word_byte(row_word, 3) == cells[4 * r + 3]);
            assert(word_byte(col_word, 0) == cells[4 * 0 + c]);
            assert(word_byte(col_word, 1) == cells[4 * 1 + c]);
            assert(word_byte(col_word, 2) == cells[4 * 2 + c]);
            assert(word_byte(col_word, 3) == cells[4 * 3 + c]);
            if b {
                assert forall|j: int|
                    0 <= j < 16 && j != q && (j / 4 == q / 4 || j % 4 == q % 4) implies #[trigger] cells[j]
                    == 0 by {
                    if j / 4 == q / 4 {
                        assert(j == 4 * r + j % 4);
                    } else {
                        assert(j == 4 * (j / 4) + c);
                    }
                }
            } else if cells[q] != 0 {
                if (row_word & !(0xFFu32 << ((c * 8) as u32))) != 0 {
                    let k = choose|k: int| 0 <= k < 4 && k != c && word_byte(row_word, k) != 0;
                    assert(cells[4 * r + k] != 0);
                } else {
                    let k = choose|k: int| 0 <= k < 4 && k != r && word_byte(col_word, k) != 0;
                    assert(cells[4 * k + c] != 0);
                }
            }
        }
        b
    }

    /// The board is lost: it holds a dead cell, which no move can ever empty.
    pub fn is_lost(&self) -> (lost: bool)
        ensures
            lost == spec_lost(self@.cells),
    {
        let mut i: u8 = 0;
        while i < 16
            invariant
                i <= 16,
                forall|q: int| 0 <= q < i ==> !#[trigger] dead_at(self@.cells, q),
            decreases 16 - i,
        {
            if self.dead_cell(Point(i)) {
                return true;
            }
            i = i + 1;
        }
        false
    }

    /// The board is won: every cell is empty.
    pub fn is_won(&self) -> (won: bool)
        ensures
            won == spec_won(self@.cells),
    {
        proof {
            let cells = self@.cells;
            if self.cells == 0 {
                assert forall|q: int| 0 <= q < 16 implies #[trigger] cells[q] == 0 by {
                    lemma_zero_cells(self.cells, q as u128);
                }
            } else {
                lemma_zero_cells(self.cells, 0);
                assert(cells[0] == self.spec_cell(0) && cells[1] == self.spec_cell(1) && cells[2]
                    == self.spec_cell(2) && cells[3] == self.spec_cell(3));
                assert(cells[4] == self.spec_cell(4) && cells[5] == self.spec_cell(5) && cells[6]
                    == self.spec_cell(6) && cells[7] == self.spec_cell(7));
                assert(cells[8] == self.spec_cell(8) && cells[9] == self.spec_cell(9) && cells[10]
                    == self.spec_cell(10) && cells[11] == self.spec_cell(11));
                assert(cells[12] == self.spec_cell(12) && cells[13] == self.spec_cell(13)
                    && cells[14] == self.spec_cell(14) && cells[15] == self.spec_cell(15));
            }
        }
        self.cells == 0
    }

    /// Reads a board from its text: four rows separated by `|`, each of four
    /// magnitudes from 0 to 255 separated by one space. The player starts in
    /// the first cell. Any other text is refused.
    pub fn parse(s: &str) -> (r: Result<Board, ParseBoardError>)
        ensures
            match r {
                Ok(b) => parse_text(s@) == Some(b@.cells) && b@.pos == Point(0),
                Err(_) => parse_text(s@) is None,
            },
    {
        let chars = to_chars(s);
        match parse_cells(&chars) {
            None => Err(ParseBoardError),
            Some(numbers) => {
                let mut board = Board { pos: Point::from(0, 0), cells: 0 };
                let mut i: usize = 0;
                while i < 16
                    invariant
                        i <= 16,
                        numbers@.len() == 16,
                        board@.pos == Point(0),
                        forall|j: int| 0 <= j < i ==> #[trigger] board@.cells[j] == numbers@[j],
                    decreases 16 - i,
                {
                    board.set_cell(Point(i as u8), numbers[i]);
                    i = i + 1;
                }
                assert(board@.cells =~= numbers@);
                Ok(board)
            },
        }
    }

    /// The text of the board, in the form that `parse` reads.
    pub fn to_string(&self) -> (out: String)
        ensures
            out@ == board_text(self@.cells),
    {
        let mut cells: Vec<u8> = Vec::new();
        let mut i: usize = 0;
        while i < 16
            invariant
                i <= 16,
                cells@.len() == i,
                forall|j: int| 0 <= j < i ==> #[trigger] cells@[j] == self@.cells[j],
            decreases 16 - i,
        {
            cells.push(self.cell(Point(i as u8)));
            i = i + 1;
        }
        assert(cells@ =~= self@.cells);
        render_cells(&cells)
    }

    /// The pattern of occupied cells.
    pub fn marks(&self) -> (m: MarkBoard)
        ensures
            m == spec_marks(self@),
    {
        let m = MarkBoard::from(self);
        proof {
            lemma_pattern(|i: int| self@.cells[i] != 0);
            lemma_marks_equal(m, spec_marks(self@));
        }
        m
    }

    /// The occupied cells that a walk over empty cells leads the player to.
    pub fn zero_walk_endings(&self, cache: &ShortcutCache) -> (ends: Vec<Point>)
        ensures
            ends@ == spec_zero_walk_endings(self@),
            forall|i: int| 0 <= i < ends@.len() ==> (#[trigger] ends@[i]).spec_inside(),
    {
        proof {
            use_type_invariant(self);
        }
        self.marks().find_all_ends_for(cache, self.pos)
    }

    /// Takes one step of a shortest walk over empty cells towards `end`.
    pub fn move_towards(&self, cache: &ShortcutCache, end: Point) -> (r: Option<(Action, Board)>)
        requires
            end.spec_inside(),
        ensures
            match r {
                Some((a, b)) => spec_move_towards(self@, end) == Some((a, b@)),
                None => spec_move_towards(self@, end) is None,
            },
    {
        proof {
            use_type_invariant(self);
        }
        match self.marks().action_towards(cache, self.pos, end) {
            None => None,
            Some(action) => match self.action(action) {
                None => None,
                Some(board) => Some((action, board)),
            },
        }
    }
}

impl BoardLike for Board {
    open spec fn cell_value(&self, p: Point) -> CellNumber {
        self@.cells[p.spec_index()]
    }

    fn cell(&self, p: Point) -> (v: CellNumber) {
        Board::cell(self, p)
    }
}

/// The cells that the ray from `p` in direction `a` clears.
pub open spec fn cleared(cells: Seq<u8>, p: Point, a: Action) -> Set<int> {
    Set::new(
        |q: int|
            0 <= q < 16 && on_ray(p, a, q) && cells[q] != 0 && cell_diff(
                cells[q],
                cells[p.spec_index()],
            ) == 0,
    )
}

/// The cells that the ray from `p` in direction `a` clears before the walk along it reaches `cur`.
pub open spec fn cleared_before(cells: Seq<u8>, p: Point, a: Action, cur: Point) -> Set<int> {
    Set::new(
        |q: int|
            0 <= q < 16 && passed(p, a, cur, q) && cells[q] != 0 && cell_diff(
                cells[q],
                cells[p.spec_index()],
            ) == 0,
    )
}

/// How many cells a move that leaves `p` in direction `a` empties: none from
/// an empty cell or where the ray clears nothing, else the cells that the ray
/// clears and the cell that was left.
pub open spec fn spec_clears(cells: Seq<u8>, p: Point, a: Action) -> nat {
    if cells[p.spec_index()] == 0 || cleared(cells, p, a).len() == 0 {
        0
    } else {
        cleared(cells, p, a).len() + 1
    }
}

/// The cleared cells are among the sixteen cells.
proof fn lemma_cleared_finite(cells: Seq<u8>, p: Point, a: Action, cur: Point)
    ensures
        cleared_before(cells, p, a, cur).finite(),
        cleared_before(cells, p, a, cur).len() <= 16,
{
    lemma_int_range(0, 16);
    assert(cleared_before(cells, p, a, cur).subset_of(set_int_range(0, 16)));
    lemma_len_subset(cleared_before(cells, p, a, cur), set_int_range(0, 16));
}

/// Steps that a walk in direction `a` can still take from `cur`, `cur` included.
pub open spec fn steps_left(cur: Point, a: Action) -> int {
    if cur.spec_inside() {
        match a {
            Action::UP => cur.spec_row() + 1,
            Action::DOWN => 4 - cur.spec_row(),
            Action::LEFT => cur.spec_column() + 1,
            Action::RIGHT => 4 - cur.spec_column(),
        }
    } else {
        0
    }
}

/// `q` lies on the ray from `p` in direction `a`, before the walk's current cell `cur`.
pub open spec fn passed(p: Point, a: Action, cur: Point, q: int) -> bool {
    on_ray(p, a, q) && (!cur.spec_inside() || match a {
        Action::UP => q / 4 > cur.spec_row(),
        Action::DOWN => q / 4 < cur.spec_row(),
        Action::LEFT => q % 4 > cur.spec_column(),
        Action::RIGHT => q % 4 < cur.spec_column(),
    })
}

/// Two packed words with the same sixteen bytes are the same word.
proof fn lemma_cells_equal(a: u128, b: u128)
    by (bit_vector)
    requires
        ((a >> 0u128) & 0xff) as u8 == ((b >> 0u128) & 0xff) as u8,
        ((a >> 8u128) & 0xff) as u8 == ((b >> 8u128) & 0xff) as u8,
        ((a >> 16u128) & 0xff) as u8 == ((b >> 16u128) & 0xff) as u8,
        ((a >> 24u128) & 0xff) as u8 == ((b >> 24u128) & 0xff) as u8,
        ((a >> 32u128) & 0xff) as u8 == ((b >> 32u128) & 0xff) as u8,
        ((a >> 40u128) & 0xff) as u8 == ((b >> 40u128) & 0xff) as u8,
        ((a >> 48u128) & 0xff) as u8 == ((b >> 48u128) & 0xff) as u8,
        ((a >> 56u128) & 0xff) as u8 == ((b >> 56u128) & 0xff) as u8,
        ((a >> 64u128) & 0xff) as u8 == ((b >> 64u128) & 0xff) as u8,
        ((a >> 72u128) & 0xff) as u8 == ((b >> 72u128) & 0xff) as u8,
        ((a >> 80u128) & 0xff) as u8 == ((b >> 80u128) & 0xff) as u8,
        ((a >> 88u128) & 0xff) as u8 == ((b >> 88u128) & 0xff) as u8,
        ((a >> 96u128) & 0xff) as u8 == ((b >> 96u128) & 0xff) as u8,
        ((a >> 104u128) & 0xff) as u8 == ((b >> 104u128) & 0xff) as u8,
        ((a >> 112u128) & 0xff) as u8 == ((b >> 112u128) & 0xff) as u8,
        ((a >> 120u128) & 0xff) as u8 == ((b >> 120u128) & 0xff) as u8,
    ensures
        a == b,
{
}

/// Two boards with the same position and the same magnitudes are the same board.
pub proof fn lemma_view_injective(a: Board, b: Board)
    requires
        a@ == b@,
    ensures
        a == b,
{
    assert forall|i: int| 0 <= i < 16 implies a.spec_cell(i) == b.spec_cell(i) by {
        assert(a@.cells == b@.cells);
        assert(a@.cells[i] == a.spec_cell(i));
        assert(b@.cells[i] == b.spec_cell(i));
    }
    assert(a.spec_cell(0) == b.spec_cell(0) && a.spec_cell(1) == b.spec_cell(1) && a.spec_cell(2)
        == b.spec_cell(2) && a.spec_cell(3) == b.spec_cell(3));
    assert(a.spec_cell(4) == b.spec_cell(4) && a.spec_cell(5) == b.spec_cell(5) && a.spec_cell(6)
        == b.spec_cell(6) && a.spec_cell(7) == b.spec_cell(7));
    assert(a.spec_cell(8) == b.spec_cell(8) && a.spec_cell(9) == b.spec_cell(9) && a.spec_cell(10)
        == b.spec_cell(10) && a.spec_cell(11) == b.spec_cell(11));
    assert(a.spec_cell(12) == b.spec_cell(12) && a.spec_cell(13) == b.spec_cell(13)
        && a.spec_cell(14) == b.spec_cell(14) && a.spec_cell(15) == b.spec_cell(15));
    lemma_cells_equal(a.cells, b.cells);
}

/// The boards that a search has expanded, kept by their packed magnitudes:
/// for each word of magnitudes, the positions at which it was seen.
pub struct Visited {
    seen: HashMap<u128, u16>,
}

impl View for Visited {
    type V = Set<BoardView>;

    closed spec fn view(&self) -> Set<BoardView> {
        Set::new(|v: BoardView| exists|b: Board| #[trigger] b@ == v && self.holds(b))
    }
}

impl Visited {
    /// The board `b` is kept.
    pub closed spec fn holds(&self, b: Board) -> bool {
        b.wf() && self.seen@.contains_key(b.cells) && MarkBoard(self.seen@[b.cells]).spec_marked(
            b.pos.spec_index(),
        )
    }

    /// The set that holds no board.
    pub fn new() -> (visited: Self)
        ensures
            visited@ == Set::<BoardView>::empty(),
    {
        let visited = Visited { seen: HashMap::new() };
        assert(visited@ =~= Set::<BoardView>::empty());
        visited
    }

    /// The set holds `board`.
    pub fn contains(&self, board: &Board) -> (b: bool)
        ensures
            b == self@.contains(board@),
    {
        proof {
            use_type_invariant(board);
            if self@.contains(board@) {
                let other = choose|other: Board| #[trigger] other@ == board@ && self.holds(other);
                lemma_view_injective(other, *board);
            }
        }
        match self.seen.get(&board.cells) {
            None => false,
            Some(bits) => MarkBoard(*bits).marked(board.pos),
        }
    }

    /// Adds `board` to the set.
    pub fn insert(&mut self, board: &Board)
        ensures
            final(self)@ == old(self)@.insert(board@),
    {
        proof {
            use_type_invariant(board);
        }
        let mut positions = match self.seen.get(&board.cells) {
            None => MarkBoard::new(),
            Some(bits) => MarkBoard(*bits),
        };
        positions.mark(board.pos);
        self.seen.insert(board.cells, positions.0);
        proof {
            assert forall|v: BoardView| final(self)@.contains(v) == old(self)@.insert(
                board@,
            ).contains(v) by {
                if final(self)@.contains(v) {
                    let b = choose|b: Board| #[trigger] b@ == v && final(self).holds(b);
                    if b != *board {
                        assert(old(self).holds(b));
                    }
                }
                if old(self)@.contains(v) {
                    let b = choose|b: Board| #[trigger] b@ == v && old(self).holds(b);
                    assert(final(self).holds(b));
                }
                if v == board@ {
                    assert(final(self).holds(*board));
                }
            }
            assert(final(self)@ =~= old(self)@.insert(board@));
        }
    }
}

/// A board that is won is not lost: a dead cell is an occupied cell.
pub proof fn lemma_won_not_lost(cells: Seq<u8>)
    requires
        spec_won(cells),
    ensures
        !spec_lost(cells),
{
    assert forall|q: int| 0 <= q < 16 implies !#[trigger] dead_at(cells, q) by {
        assert(cells[q] == 0);
    }
}

/// A dead cell stays dead: no move changes it or fills its row or its column.
pub proof fn lemma_dead_stays_dead(b: BoardView, a: Action, q: int)
    requires
        b.cells.len() == 16,
        b.pos.spec_inside(),
        0 <= q < 16,
        dead_at(b.cells, q),
        spec_action(b, a) is Some,
    ensures
        dead_at(spec_action(b, a).unwrap().cells, q),
{
    let cells = b.cells;
    let p = b.pos;
    let after = moved_cells(cells, p, a);
    let origin = cells[p.spec_index()];
    if origin != 0 {
        if p.spec_index() == q {
            assert forall|x: int| 0 <= x < 16 && on_ray(p, a, x) implies cells[x] == 0 by {}
            assert(!ray_clears(cells, p, a));
        } else {
            assert(!on_ray(p, a, q)) by {
                if on_ray(p, a, q) {
                    assert(cells[p.spec_index()] == 0);
                }
            }
        }
    }
    assert(after[q] == cells[q]);
    assert forall|j: int|
        0 <= j < 16 && j != q && (j / 4 == q / 4 || j % 4 == q % 4) implies #[trigger] after[j]
        == 0 by {
        assert(cells[j] == 0);
    }
}

/// A lost board stays lost after any move.
pub proof fn lemma_lost_stays_lost(b: BoardView, a: Action)
    requires
        b.cells.len() == 16,
        b.pos.spec_inside(),
        spec_lost(b.cells),
        spec_action(b, a) is Some,
    ensures
        spec_lost(spec_action(b, a).unwrap().cells),
{
    let q = choose|q: int| 0 <= q < 16 && #[trigger] dead_at(b.cells, q);
    lemma_dead_stays_dead(b, a, q);
}

} // verus!
