//! Grid coordinates and the eight symmetries of the square.

use crate::text::{number_text, push_number};
use vstd::prelude::*;
use vstd::string::StringExecFns;

verus! {

/// Side length of the grid.
pub const N: usize = 4;

/// Magnitude of one cell; zero means the cell is empty.
pub type CellNumber = u8;

/// One generator of the symmetry group of the square.
#[derive(Clone, Copy, Debug, PartialEq, Eq, Structural)]
pub enum Transform {
    /// Mirror rows
    Mirror,
    /// Counter clockwise rotation by 90 degrees
    Deg90,
    /// Rotation by 180 degrees
    Deg180,
    /// Clockwise rotation by 90 degrees
    Deg270,
}

/// One of the eight symmetries of the square: an optional row mirror followed
/// by `transform`. The pair `(Mirror, true)` mirrors twice and is the identity.
#[derive(Clone, Copy, Debug, PartialEq, Eq, Structural)]
pub struct Sym {
    pub transform: Transform,
    pub mirror: bool,
}

impl Sym {
    /// The text of the symmetry: `Mirror-` where it mirrors, then the name of
    /// its turn; the mirror alone is `Mirror`, and no change `Mirror-Identity`.
    pub open spec fn spec_text(&self) -> Seq<char> {
        (if self.mirror {
            "Mirror-"@
        } else if self.transform == Transform::Mirror {
            "Mirror"@
        } else {
            ""@
        }) + (match self.transform {
            Transform::Mirror => if self.mirror {
                "Identity"@
            } else {
                ""@
            },
            Transform::Deg90 => "Deg90"@,
            Transform::Deg180 => "Deg180"@,
            Transform::Deg270 => "Deg270"@,
        })
    }

    /// The text of the symmetry.
    pub fn to_string(&self) -> (out: String)
        ensures
            out@ == self.spec_text(),
    {
        let mut out = String::from_str(
            match self.transform {
                Transform::Mirror => if self.mirror {
                    "Mirror-"
                } else {
                    "Mirror"
                },
                _ => if self.mirror {
                    "Mirror-"
                } else {
                    ""
                },
            },
        );
        out.append(
            match self.transform {
                Transform::Mirror => if self.mirror {
                    "Identity"
                } else {
                    ""
                },
                Transform::Deg90 => "Deg90",
                Transform::Deg180 => "Deg180",
                Transform::Deg270 => "Deg270",
            },
        );
        out
    }
}

impl Transform {
    /// The transform that undoes `self`.
    pub open spec fn spec_reverse(&self) -> Transform {
        match *self {
            Transform::Mirror => Transform::Mirror,
            Transform::Deg90 => Transform::Deg270,
            Transform::Deg270 => Transform::Deg90,
            Transform::Deg180 => Transform::Deg180,
        }
    }

    /// The transform that undoes `self`.
    #[verifier::when_used_as_spec(spec_reverse)]
    pub fn reverse(&self) -> (r: Self)
        ensures
            r == self.spec_reverse(),
    {
        match self {
            Transform::Mirror => Transform::Mirror,
            Transform::Deg90 => Transform::Deg270,
            Transform::Deg270 => Transform::Deg90,
            Transform::Deg180 => Transform::Deg180,
        }
    }
}

/// The index that stands for every position off the grid.
pub open spec fn outside_index() -> int {
    16
}

/// Index of the cell at `row`, `column`, or `outside_index()` when either is off the grid.
pub open spec fn index_of(row: int, column: int) -> int {
    if 0 <= row < 4 && 0 <= column < 4 {
        column + row * 4
    } else {
        outside_index()
    }
}

/// A grid coordinate packed into one byte, row-major. Indices of 16 and above
/// stand for positions off the grid.
#[derive(PartialEq, Eq, Hash, Clone, Copy, Debug, Structural)]
pub struct Point(pub u8);

impl Point {
    /// Index of the point: its column plus four times its row.
    pub open spec fn spec_index(self) -> int {
        self.0 as int
    }

    /// Row of the point.
    pub open spec fn spec_row(self) -> int {
        self.0 as int / 4
    }

    /// Column of the point.
    pub open spec fn spec_column(self) -> int {
        self.0 as int % 4
    }

    /// The point lies on the grid.
    pub open spec fn spec_inside(&self) -> bool {
        self.0 < 16
    }

    /// Image of `self` under one transform; meaningful for points on the grid.
    pub open spec fn spec_transform(self, t: Transform) -> Point {
        let r = self.spec_row();
        let c = self.spec_column();
        let i = match t {
            Transform::Mirror => index_of(3 - r, c),
            Transform::Deg90 => index_of(3 - c, r),
            Transform::Deg270 => index_of(c, 3 - r),
            Transform::Deg180 => index_of(3 - r, 3 - c),
        };
        Point(i as u8)
    }

    /// Image of `self` under a symmetry: the mirror first, if any, then the transform.
    pub open spec fn spec_symmetry(self, sym: Sym) -> Point {
        if sym.transform == Transform::Mirror && sym.mirror {
            self
        } else if sym.mirror {
            self.spec_transform(Transform::Mirror).spec_transform(sym.transform)
        } else {
            self.spec_transform(sym.transform)
        }
    }

    /// Preimage of `self` under a symmetry.
    pub open spec fn spec_reverse_symmetry(self, sym: Sym) -> Point {
        if sym.transform == Transform::Mirror && sym.mirror {
            self
        } else if sym.mirror {
            self.spec_transform(sym.transform.spec_reverse()).spec_transform(Transform::Mirror)
        } else {
            self.spec_transform(sym.transform.spec_reverse())
        }
    }

    /// The text of the point: `Point[`, its row, a comma, its column, `]`.
    pub open spec fn spec_text(&self) -> Seq<char> {
        "Point["@ + number_text((self.0 / 4) as u8) + ","@ + number_text((self.0 % 4) as u8) + "]"@
    }

    /// The text of the point.
    pub fn to_string(&self) -> (out: String)
        ensures
            out@ == self.spec_text(),
    {
        let mut out = String::from_str("Point[");
        push_number(&mut out, self.0 / 4);
        out.append(",");
        push_number(&mut out, self.0 % 4);
        out.append("]");
        out
    }

    /// The point at `row`, `column`; any position off the grid gives the one outside point.
    pub fn from(row: usize, column: usize) -> (p: Self)
        ensures
            p.spec_index() == index_of(row as int, column as int),
            p.spec_inside() <==> row < 4 && column < 4,
    {
        if row < N && column < N {
            Point((column + row * N) as u8)
        } else {
            Point((N * N) as u8)
        }
    }

    /// All sixteen grid points in index order.
    pub fn iter_all() -> (v: Vec<Self>)
        ensures
            v@.len() == 16,
            forall|i: int| 0 <= i < 16 ==> (#[trigger] v@[i]).spec_index() == i,
    {
        let mut v: Vec<Point> = Vec::new();
        let mut i: u8 = 0;
        while i < 16
            invariant
                i <= 16,
                v@.len() == i,
                forall|j: int| 0 <= j < i ==> (#[trigger] v@[j]).spec_index() == j,
            decreases 16 - i,
        {
            v.push(Point(i));
            i = i + 1;
        }
        v
    }

    /// Index of the point: its column plus four times its row.
    #[verifier::when_used_as_spec(spec_index_usize)]
    pub fn index(&self) -> (i: usize)
        ensures
            i == self.spec_index(),
    {
        self.0 as usize
    }

    /// Index of the point as a machine word.
    pub open spec fn spec_index_usize(&self) -> usize {
        self.0 as usize
    }

    /// Row of the point.
    pub fn row(&self) -> (r: usize)
        ensures
            r == self.spec_row(),
    {
        self.index() / N
    }

    /// Column of the point.
    pub fn column(&self) -> (c: usize)
        ensures
            c == self.spec_column(),
    {
        self.index() % N
    }

    /// The point whose image under `sym` is `self`.
    pub fn reverse_symmetry(&self, sym: Sym) -> (p: Self)
        requires
            self.spec_inside(),
        ensures
            p == self.spec_reverse_symmetry(sym),
            p.spec_inside(),
    {
        match sym.transform {
            Transform::Mirror if sym.mirror => *self,
            _ => {
                let v = self.transform(sym.transform.reverse());
                if sym.mirror {
                    v.transform(Transform::Mirror)
                } else {
                    v
                }
            },
        }
    }

    /// Image of the point under `sym`: the mirror first, if any, then the transform.
    pub fn symmetry(&self, sym: Sym) -> (p: Self)
        requires
            self.spec_inside(),
        ensures
            p == self.spec_symmetry(sym),
            p.spec_inside(),
    {
        match sym.transform {
            Transform::Mirror if sym.mirror => *self,
            _ => {
                let v = if sym.mirror {
                    self.transform(Transform::Mirror)
                } else {
                    *self
                };
                v.transform(sym.transform)
            },
        }
    }

    /// Image of the point under `t`.
    pub fn transform(&self, t: Transform) -> (p: Self)
        requires
            self.spec_inside(),
        ensures
            p == self.spec_transform(t),
            p.spec_inside(),
    {
        match t {
            Transform::Mirror => Point::from(N - 1 - self.row(), self.column()),
            Transform::Deg90 => Point::from(N - 1 - self.column(), self.row()),
            Transform::Deg270 => Point::from(self.column(), N - 1 - self.row()),
            Transform::Deg180 => Point::from(N - 1 - self.row(), N - 1 - self.column()),
        }
    }

    /// The point lies on the grid.
    #[verifier::when_used_as_spec(spec_inside)]
    pub fn inside(&self) -> (b: bool)
        ensures
            b == self.spec_inside(),
    {
        self.index() < N * N
    }
}

/// Anything that holds a magnitude for every grid point.
pub trait BoardLike {
    /// Magnitude of the cell at `p`.
    spec fn cell_value(&self, p: Point) -> CellNumber;

    /// Magnitude of the cell at `p`.
    fn cell(&self, p: Point) -> (v: CellNumber)
        requires
            p.spec_inside(),
        ensures
            v == self.cell_value(p),
    ;
}

} // verus!
