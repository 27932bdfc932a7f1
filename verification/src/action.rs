//! Moves, their effect on coordinates, and the packed list of moves.

use crate::text::{join, joined, texts_of};
use crate::values::{index_of, Point, Sym, Transform};
use vstd::prelude::*;
use vstd::string::StringExecFns;

verus! {

/// One unit step on the grid.
#[derive(PartialEq, Eq, Hash, Clone, Copy, Debug, Structural)]
pub enum Action {
    /// One row up.
    UP,
    /// One row down.
    DOWN,
    /// One column to the left.
    LEFT,
    /// One column to the right.
    RIGHT,
}

/// Every move, in the order of its two-bit code.
pub const ACTIONS: [Action; 4] = [Action::UP, Action::DOWN, Action::LEFT, Action::RIGHT];

/// The move with two-bit code `i`.
pub open spec fn action_of(i: int) -> Action {
    if i == 0 {
        Action::UP
    } else if i == 1 {
        Action::DOWN
    } else if i == 2 {
        Action::LEFT
    } else {
        Action::RIGHT
    }
}

impl Action {
    /// The two-bit code of the move.
    pub open spec fn spec_index(&self) -> int {
        match *self {
            Action::UP => 0,
            Action::DOWN => 1,
            Action::LEFT => 2,
            Action::RIGHT => 3,
        }
    }

    /// Change of the row that the move makes.
    pub open spec fn row_delta(&self) -> int {
        match *self {
            Action::UP => -1,
            Action::DOWN => 1,
            _ => 0,
        }
    }

    /// Change of the column that the move makes.
    pub open spec fn column_delta(&self) -> int {
        match *self {
            Action::LEFT => -1,
            Action::RIGHT => 1,
            _ => 0,
        }
    }

    /// The move that undoes `self`.
    pub open spec fn spec_reverse(&self) -> Action {
        match *self {
            Action::UP => Action::DOWN,
            Action::DOWN => Action::UP,
            Action::LEFT => Action::RIGHT,
            Action::RIGHT => Action::LEFT,
        }
    }

    /// Direction in which `self` points after the grid went through `t`.
    pub open spec fn spec_transform(&self, t: Transform) -> Action {
        match t {
            Transform::Mirror => match *self {
                Action::UP => Action::DOWN,
                Action::DOWN => Action::UP,
                a => a,
            },
            Transform::Deg90 => match *self {
                Action::UP => Action::LEFT,
                Action::DOWN => Action::RIGHT,
                Action::LEFT => Action::DOWN,
                Action::RIGHT => Action::UP,
            },
            Transform::Deg270 => match *self {
                Action::UP => Action::RIGHT,
                Action::DOWN => Action::LEFT,
                Action::LEFT => Action::UP,
                Action::RIGHT => Action::DOWN,
            },
            Transform::Deg180 => self.spec_reverse(),
        }
    }

    /// Direction in which `self` points after the grid went through `sym`.
    pub open spec fn spec_symmetry(&self, sym: Sym) -> Action {
        if sym.transform == Transform::Mirror && sym.mirror {
            *self
        } else if sym.mirror {
            self.spec_transform(Transform::Mirror).spec_transform(sym.transform)
        } else {
            self.spec_transform(sym.transform)
        }
    }

    /// Direction that `sym` turns into `self`.
    pub open spec fn spec_reverse_symmetry(&self, sym: Sym) -> Action {
        if sym.transform == Transform::Mirror && sym.mirror {
            *self
        } else if sym.mirror {
            self.spec_transform(sym.transform.spec_reverse()).spec_transform(Transform::Mirror)
        } else {
            self.spec_transform(sym.transform.spec_reverse())
        }
    }

    /// The word that a move is shown as.
    pub open spec fn spec_name(&self) -> Seq<char> {
        match *self {
            Action::UP => "Up"@,
            Action::DOWN => "Down"@,
            Action::LEFT => "Left"@,
            Action::RIGHT => "Right"@,
        }
    }

    /// The word that the move is shown as: `Up`, `Down`, `Left` or `Right`.
    pub fn to_string(&self) -> (s: String)
        ensures
            s@ == self.spec_name(),
    {
        String::from_str(
            match self {
                Action::UP => "Up",
                Action::DOWN => "Down",
                Action::LEFT => "Left",
                Action::RIGHT => "Right",
            },
        )
    }

    /// The two-bit code of the move.
    pub fn index(&self) -> (i: usize)
        ensures
            i == self.spec_index(),
    {
        match self {
            Action::UP => 0,
            Action::DOWN => 1,
            Action::LEFT => 2,
            Action::RIGHT => 3,
        }
    }

    /// The move that undoes `self`.
    #[verifier::when_used_as_spec(spec_reverse)]
    pub fn reverse(&self) -> (r: Self)
        ensures
            r == self.spec_reverse(),
    {
        match self {
            Action::UP => Action::DOWN,
            Action::DOWN => Action::UP,
            Action::LEFT => Action::RIGHT,
            Action::RIGHT => Action::LEFT,
        }
    }

    /// Direction in which `self` points after the grid went through `t`.
    pub fn transform(&self, t: Transform) -> (r: Self)
        ensures
            r == self.spec_transform(t),
    {
        match t {
            Transform::Mirror => match self {
                Action::UP => Action::DOWN,
                Action::DOWN => Action::UP,
                Action::LEFT => Action::LEFT,
                Action::RIGHT => Action::RIGHT,
            },
            Transform::Deg90 => match self {
                Action::UP => Action::LEFT,
                Action::DOWN => Action::RIGHT,
                Action::LEFT => Action::DOWN,
                Action::RIGHT => Action::UP,
            },
            Transform::Deg270 => match self {
                Action::UP => Action::RIGHT,
                Action::DOWN => Action::LEFT,
                Action::LEFT => Action::UP,
                Action::RIGHT => Action::DOWN,
            },
            Transform::Deg180 => self.reverse(),
        }
    }

    /// Direction in which `self` points after the grid went through `sym`.
    pub fn symmetry(&self, sym: Sym) -> (r: Self)
        ensures
            r == self.spec_symmetry(sym),
    {
        match sym.transform {
            Transform::Mirror if sym.mirror => *self,
            _ => {
                let v = if sym.mirror {
                    self.transform(Transform::Mirror)
                } else {
                    *self
                };
                v.transform(sym.transform)
            },
        }
    }

    /// Direction that `sym` turns into `self`.
    pub fn reverse_symmetry(&self, sym: Sym) -> (r: Self)
        ensures
            r == self.spec_reverse_symmetry(sym),
    {
        match sym.transform {
            Transform::Mirror if sym.mirror => *self,
            _ => {
                let v = self.transform(sym.transform.reverse());
                if sym.mirror {
                    v.transform(Transform::Mirror)
                } else {
                    v
                }
            },
        }
    }
}

impl Point {
    /// The point one step from `self` in direction `a`; the outside point when the step leaves the grid.
    pub open spec fn spec_step(self, a: Action) -> Point {
        Point(index_of(self.spec_row() + a.row_delta(), self.spec_column() + a.column_delta()) as u8)
    }

    /// The point one step from `self` in direction `a`; a point off the grid
    /// when the step leaves the grid.
    pub fn step(self, a: Action) -> (p: Point)
        ensures
            p == self.spec_step(a),
    {
        let row: usize = self.row();
        let col: usize = self.column();
        Point::from(
            match a {
                Action::LEFT | Action::RIGHT => row,
                Action::UP => if row > 0 {
                    row - 1
                } else {
                    4
                },
                Action::DOWN => row + 1,
            },
            match a {
                Action::UP | Action::DOWN => col,
                Action::LEFT => if col > 0 {
                    col - 1
                } else {
                    4
                },
                Action::RIGHT => col + 1,
            },
        )
    }
}

impl core::ops::Add<Action> for Point {
    type Output = Point;

    fn add(self, rhs: Action) -> (p: Point) {
        self.step(rhs)
    }
}

impl vstd::std_specs::ops::AddSpecImpl<Action> for Point {
    open spec fn obeys_add_spec() -> bool {
        true
    }

    open spec fn add_req(self, rhs: Action) -> bool {
        true
    }

    open spec fn add_spec(self, rhs: Action) -> Point {
        self.spec_step(rhs)
    }
}

/// A transform followed by its reverse leaves every grid point where it was.
pub proof fn lemma_transform_reverse(p: Point, t: Transform)
    requires
        p.spec_inside(),
    ensures
        p.spec_transform(t).spec_inside(),
        p.spec_transform(t).spec_transform(t.spec_reverse()) == p,
{
}

/// A symmetry and its reverse undo each other on grid points, in either order.
pub proof fn lemma_symmetry_reverse(p: Point, sym: Sym)
    requires
        p.spec_inside(),
    ensures
        p.spec_symmetry(sym).spec_inside(),
        p.spec_reverse_symmetry(sym).spec_inside(),
        p.spec_symmetry(sym).spec_reverse_symmetry(sym) == p,
        p.spec_reverse_symmetry(sym).spec_symmetry(sym) == p,
{
    lemma_transform_reverse(p, Transform::Mirror);
    lemma_transform_reverse(p, sym.transform);
    lemma_transform_reverse(p, sym.transform.spec_reverse());
    lemma_transform_reverse(p.spec_transform(Transform::Mirror), sym.transform);
    lemma_transform_reverse(p.spec_transform(sym.transform), sym.transform.spec_reverse());
    lemma_transform_reverse(p.spec_transform(sym.transform.spec_reverse()), sym.transform);
    lemma_transform_reverse(p.spec_transform(sym.transform.spec_reverse()), Transform::Mirror);
    lemma_transform_reverse(
        p.spec_transform(Transform::Mirror).spec_transform(sym.transform),
        sym.transform.spec_reverse(),
    );
    lemma_transform_reverse(
        p.spec_transform(sym.transform.spec_reverse()).spec_transform(Transform::Mirror),
        Transform::Mirror,
    );
}

/// Stepping commutes with a transform: the image of a step is the step of the
/// image, in the direction that the transform turns the move into.
pub proof fn lemma_step_transform(p: Point, a: Action, t: Transform)
    requires
        p.spec_inside(),
    ensures
        p.spec_step(a).spec_inside() <==> p.spec_transform(t).spec_step(
            a.spec_transform(t),
        ).spec_inside(),
        p.spec_step(a).spec_inside() ==> p.spec_step(a).spec_transform(t) == p.spec_transform(
            t,
        ).spec_step(a.spec_transform(t)),
{
    let r = p.spec_row();
    let c = p.spec_column();
    let q = p.spec_transform(t);
    let n = p.spec_step(a);
    lemma_row_column(r, c);
    lemma_row_column(3 - r, c);
    lemma_row_column(3 - c, r);
    lemma_row_column(c, 3 - r);
    lemma_row_column(3 - r, 3 - c);
    if n.spec_inside() {
        let nr = r + a.row_delta();
        let nc = c + a.column_delta();
        lemma_row_column(nr, nc);
        lemma_row_column(3 - nr, nc);
        lemma_row_column(3 - nc, nr);
        lemma_row_column(nc, 3 - nr);
        lemma_row_column(3 - nr, 3 - nc);
    }
}

/// Row and column of the grid point built from them.
pub proof fn lemma_row_column(r: int, c: int)
    requires
        0 <= r < 4,
        0 <= c < 4,
    ensures
        Point(index_of(r, c) as u8).spec_row() == r,
        Point(index_of(r, c) as u8).spec_column() == c,
        Point(index_of(r, c) as u8).spec_inside(),
{
}

/// Stepping commutes with a symmetry.
pub proof fn lemma_step_symmetry(p: Point, a: Action, sym: Sym)
    requires
        p.spec_inside(),
    ensures
        p.spec_step(a).spec_inside() <==> p.spec_symmetry(sym).spec_step(
            a.spec_symmetry(sym),
        ).spec_inside(),
        p.spec_step(a).spec_inside() ==> p.spec_step(a).spec_symmetry(sym) == p.spec_symmetry(
            sym,
        ).spec_step(a.spec_symmetry(sym)),
{
    lemma_transform_reverse(p, Transform::Mirror);
    lemma_step_transform(p, a, Transform::Mirror);
    lemma_step_transform(p, a, sym.transform);
    lemma_step_transform(
        p.spec_transform(Transform::Mirror),
        a.spec_transform(Transform::Mirror),
        sym.transform,
    );
}

/// A symmetry and its reverse undo each other on moves, in either order.
pub proof fn lemma_action_symmetry_reverse(a: Action, sym: Sym)
    ensures
        a.spec_symmetry(sym).spec_reverse_symmetry(sym) == a,
        a.spec_reverse_symmetry(sym).spec_symmetry(sym) == a,
{
}

/// A step that stays on the grid is undone by the reverse move.
pub proof fn lemma_step_back(p: Point, a: Action)
    requires
        p.spec_inside(),
        p.spec_step(a).spec_inside(),
    ensures
        p.spec_step(a).spec_step(a.spec_reverse()) == p,
        p.spec_step(a) != p,
{
}

/// Bits of the packed word.
pub const SEQ_BITS: usize = 64;

/// Bits of the packed word that hold the length.
pub const LEN_BITS: usize = 6;

/// Bits of the packed word that hold one move.
pub const ACTION_BITS: usize = 2;

/// An immutable list of at most `MAX_LENGTH` moves packed into one word: the
/// length in the low six bits, then two bits for each move, first move lowest.
#[derive(PartialEq, Clone, Copy, Debug)]
pub struct ActionSequence(u64);

/// Appending to a packed word: the length grows by one, the new slot holds
/// the code, every other slot stays, and no bit is set above the new slot.
proof fn lemma_sequence_add(s: u64, len: u64, a: u64, i: u64)
    by (bit_vector)
    requires
        len == s & 0x3f,
        len < 29,
        a < 4,
        s >> ((2 * len + 6) as u64) == 0,
        i < 29,
    ensures
        ({
            let n = (s ^ (len ^ ((len + 1) as u64))) | (a << ((2 * len + 6) as u64));
            &&& n & 0x3f == len + 1
            &&& (n >> ((2 * i + 6) as u64)) & 3 == if i == len {
                a
            } else {
                (s >> ((2 * i + 6) as u64)) & 3
            }
            &&& (len + 1 < 29 ==> n >> ((2 * (len + 1) + 6) as u64) == 0)
        }),
{
}

/// Slots past the length of a packed word hold zero.
proof fn lemma_sequence_unused(s: u64, len: u64, i: u64)
    by (bit_vector)
    requires
        len <= i < 29,
        s >> ((2 * len + 6) as u64) == 0,
    ensures
        (s >> ((2 * i + 6) as u64)) & 3 == 0,
{
}

/// Ranges of the fields of a packed word.
proof fn lemma_sequence_code(s: u64, i: u64)
    by (bit_vector)
    requires
        i < 29,
    ensures
        (s >> ((2 * i + 6) as u64)) & 3 < 4,
        s & 0x3f < 64,
        0u64 & 0x3f == 0,
        0u64 >> 6 == 0,
{
}

impl ActionSequence {
    /// The most moves that one sequence holds: 29.
    pub const MAX_LENGTH: usize = (SEQ_BITS - LEN_BITS) / ACTION_BITS;

    /// The length field holds at most `MAX_LENGTH` and no bit is set above the last move.
    #[verifier::type_invariant]
    pub closed spec fn wf(&self) -> bool {
        &&& (self.0 & 0x3f) <= 29
        &&& ((self.0 & 0x3f) < 29 ==> self.0 >> ((2 * (self.0 & 0x3f) + 6) as u64) == 0)
    }

    /// Number of moves held.
    pub closed spec fn spec_length(&self) -> nat {
        (self.0 & 0x3f) as nat
    }

    /// The move in slot `i`, whether or not the slot is in use.
    pub closed spec fn slot(&self, i: int) -> Action {
        action_of(((self.0 >> ((2 * i + 6) as u64)) & 3) as int)
    }

    /// The sequence with no moves.
    pub fn new() -> (s: Self)
        ensures
            s@ == Seq::<Action>::empty(),
    {
        proof {
            lemma_sequence_code(0, 0);
        }
        Self(0)
    }

    /// Number of moves held.
    pub fn length(&self) -> (n: usize)
        ensures
            n == self@.len(),
            n <= Self::MAX_LENGTH,
    {
        proof {
            use_type_invariant(self);
            lemma_sequence_code(self.0, 0);
        }
        (self.0 & 0x3f) as usize
    }

    /// The sequence with `action` appended; `self` is taken by value and stays as it was.
    pub fn add(self, action: Action) -> (s: ActionSequence)
        requires
            self@.len() < Self::MAX_LENGTH,
        ensures
            s@ == self@.push(action),
    {
        let len: usize = self.length();
        let code: u64 = match action {
            Action::UP => 0,
            Action::DOWN => 1,
            Action::LEFT => 2,
            Action::RIGHT => 3,
        };
        proof {
            use_type_invariant(self);
            lemma_sequence_add(self.0, len as u64, code, 0);
        }
        let s = Self(
            (self.0 ^ ((len ^ (len + 1)) as u64)) | (code << ((ACTION_BITS * len + LEN_BITS) as u64)),
        );
        proof {
            assert(s@.len() == len + 1);
            assert forall|i: int| 0 <= i < len + 1 implies s@[i] == self@.push(action)[i] by {
                lemma_sequence_add(self.0, len as u64, code, i as u64);
            }
            assert(s@ =~= self@.push(action));
        }
        s
    }

    /// The move at `index`; slots past the length read as `UP`.
    pub fn get(&self, index: usize) -> (a: Action)
        requires
            index < Self::MAX_LENGTH,
        ensures
            index < self@.len() ==> a == self@[index as int],
            index >= self@.len() ==> a == Action::UP,
    {
        proof {
            use_type_invariant(self);
            lemma_sequence_code(self.0, index as u64);
            if index >= self@.len() {
                lemma_sequence_unused(self.0, self.0 & 0x3f, index as u64);
            }
        }
        ACTIONS[((self.0 >> ((index * ACTION_BITS + LEN_BITS) as u64)) & 0x03) as usize]
    }

    /// The moves in order.
    pub fn to_vec(&self) -> (v: Vec<Action>)
        ensures
            v@ == self@,
    {
        let n: usize = self.length();
        let mut v: Vec<Action> = Vec::new();
        let mut i: usize = 0;
        while i < n
            invariant
                i <= n,
                n == self@.len(),
                n <= 29,
                v@ == self@.subrange(0, i as int),
            decreases n - i,
        {
            let a = self.get(i);
            v.push(a);
            assert(v@ =~= self@.subrange(0, i + 1));
            i = i + 1;
        }
        assert(v@ =~= self@);
        v
    }
}

impl View for ActionSequence {
    type V = Seq<Action>;

    closed spec fn view(&self) -> Seq<Action> {
        Seq::new(self.spec_length(), |i: int| self.slot(i))
    }
}

/// The conversion that `into()` uses.
impl From<ActionSequence> for Vec<Action> {
    /// The moves of `value` in order.
    fn from(value: ActionSequence) -> (v: Vec<Action>)
        ensures
            v@ == value@,
    {
        value.to_vec()
    }
}

impl vstd::std_specs::convert::FromSpecImpl<ActionSequence> for Vec<Action> {
    open spec fn obeys_from_spec() -> bool {
        false
    }

    open spec fn from_spec(value: ActionSequence) -> Vec<Action> {
        choose|v: Vec<Action>| v@ == value@
    }
}

/// The words of a list of moves.
pub open spec fn names_of(moves: Seq<Action>) -> Seq<Seq<char>> {
    Seq::new(moves.len(), |i: int| moves[i].spec_name())
}

/// A list of moves as text: the word of each move, with `sep` between neighbours.
pub fn moves_text(moves: &Vec<Action>, sep: &str) -> (out: String)
    ensures
        out@ == joined(names_of(moves@), sep@),
{
    let mut names: Vec<String> = Vec::new();
    let mut i: usize = 0;
    while i < moves.len()
        invariant
            i <= moves@.len(),
            names@.len() == i,
            forall|j: int| 0 <= j < i ==> (#[trigger] names@[j])@ == moves@[j].spec_name(),
        decreases moves@.len() - i,
    {
        names.push(moves[i].to_string());
        i = i + 1;
    }
    assert(texts_of(names@) =~= names_of(moves@));
    join(&names, sep)
}

} // verus!
