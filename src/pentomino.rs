use vstd::prelude::*;

use crate::dlink::lemma_index;

verus! {

/// A marked cell: its x and y coordinates and its symbol.
pub type Point = (usize, usize, u8);

/// A set of marked cells.
pub type System = Vec<Point>;

/// One cell of a piece: filled with the piece's symbol, or empty.
#[derive(Clone, Copy, Debug, PartialEq, Eq, Structural)]
pub enum Square {
    Filled(u8),
    Empty,
}

/// The symbol a cell shows: its own when filled, a space when empty.
pub open spec fn glyph(s: Square) -> u8 {
    match s {
        Square::Filled(c) => c,
        Square::Empty => 32u8,
    }
}

impl Square {
    pub fn to_ascii(&self) -> (c: u8)
        ensures
            c == glyph(*self),
    {
        match *self {
            Square::Filled(c) => c,
            Square::Empty => 32u8,
        }
    }
}

/// A rectangle of cells of `dimX` columns and `dimY` rows, stored row by
/// row; `size` is the number of filled cells it was made with.
#[derive(Clone, Debug)]
pub struct Pentomino {
    pub dimX: usize,
    pub dimY: usize,
    pub size: usize,
    pub squares: Vec<Square>,
}

/// The four ways of moving a piece onto a new grid.
#[derive(Clone, Copy, Debug, PartialEq, Eq, Structural)]
pub enum Transformation {
    ReflectX,
    ReflectY,
    RotateLeft,
    RotateRight,
}

impl Pentomino {
    /// The grid holds `dimX * dimY` cells, at least one.
    pub open spec fn wf(&self) -> bool {
        &&& self.dimX >= 1
        &&& self.dimY >= 1
        &&& self.dimX * self.dimY <= usize::MAX
        &&& self.squares@.len() == self.dimX * self.dimY
    }

    pub open spec fn cell(&self, x: int, y: int) -> Square {
        self.squares@[y * self.dimX + x]
    }

    /// Width of the result of a transformation.
    pub open spec fn out_w(&self, t: Transformation) -> usize {
        match t {
            Transformation::ReflectX | Transformation::ReflectY => self.dimX,
            _ => self.dimY,
        }
    }

    /// Height of the result of a transformation.
    pub open spec fn out_h(&self, t: Transformation) -> usize {
        match t {
            Transformation::ReflectX | Transformation::ReflectY => self.dimY,
            _ => self.dimX,
        }
    }

    /// The cell of `self` that lands on (x, y) of the result.
    pub open spec fn source(&self, t: Transformation, x: int, y: int) -> (int, int) {
        match t {
            Transformation::ReflectX => (self.dimX - 1 - x, y),
            Transformation::ReflectY => (x, self.dimY - 1 - y),
            Transformation::RotateRight => (y, self.dimY - 1 - x),
            Transformation::RotateLeft => (self.dimX - 1 - y, x),
        }
    }

    /// `r` is `self` moved by `t`.
    pub open spec fn transformed(&self, t: Transformation, r: Pentomino) -> bool {
        &&& r.wf()
        &&& r.dimX == self.out_w(t)
        &&& r.dimY == self.out_h(t)
        &&& r.size == self.size
        &&& forall|x: int, y: int|
            0 <= x < r.dimX && 0 <= y < r.dimY ==> #[trigger] r.cell(x, y) == self.cell(
                self.source(t, x, y).0,
                self.source(t, x, y).1,
            )
    }

    pub fn area(&self) -> (a: usize)
        requires
            self.wf(),
        ensures
            a == self.dimX * self.dimY,
    {
        self.dimX * self.dimY
    }

    pub fn size(&self) -> (s: usize)
        ensures
            s == self.size,
    {
        self.size
    }

    pub fn squares(&self) -> (s: &Vec<Square>)
        ensures
            s == &self.squares,
    {
        &self.squares
    }

    /// Index in `squares` of the cell at (x, y).
    pub fn getIndex(&self, x: usize, y: usize) -> (i: usize)
        requires
            self.wf(),
            x < self.dimX,
            y < self.dimY,
        ensures
            i == y * self.dimX + x,
            i < self.squares@.len(),
    {
        proof {
            lemma_index(self.dimY as int, self.dimX as int, y as int, x as int);
        }
        y * self.dimX + x
    }

    /// Coordinates of the cell at index `i` of `squares`.
    pub fn getCoordinates(&self, i: usize) -> (p: (usize, usize))
        requires
            self.wf(),
            i < self.dimX * self.dimY,
        ensures
            p.0 < self.dimX,
            p.1 < self.dimY,
            p.1 * self.dimX + p.0 == i,
    {
        let y = i / self.dimX;
        proof {
            assert(y * self.dimX <= i) by (nonlinear_arith)
                requires
                    y == i / self.dimX,
                    self.dimX >= 1,
            ;
            assert(i - y * self.dimX < self.dimX) by (nonlinear_arith)
                requires
                    y == i / self.dimX,
                    self.dimX >= 1,
            ;
            assert(y < self.dimY) by (nonlinear_arith)
                requires
                    y == i / self.dimX,
                    self.dimX >= 1,
                    i < self.dimX * self.dimY,
            ;
        }
        (i - y * self.dimX, y)
    }

    /// The cell at (x, y), or `None` off the grid.
    pub fn get_opt(&self, x: usize, y: usize) -> (s: Option<Square>)
        requires
            self.wf(),
        ensures
            (x < self.dimX && y < self.dimY) ==> s == Some(self.cell(x as int, y as int)),
            !(x < self.dimX && y < self.dimY) ==> s is None,
    {
        if x < self.dimX && y < self.dimY {
            let i = self.getIndex(x, y);
            Some(self.squares[i])
        } else {
            None
        }
    }

    /// The cell at (x, y).
    pub fn get(&self, x: usize, y: usize) -> (s: Square)
        requires
            self.wf(),
            x < self.dimX,
            y < self.dimY,
        ensures
            s == self.cell(x as int, y as int),
    {
        let i = self.getIndex(x, y);
        self.squares[i]
    }

    /// The cells, row by row.
    pub fn iter(&self) -> (s: &[Square])
        ensures
            s@ == self.squares@,
    {
        self.squares.as_slice()
    }

    /// The indices of the cells.
    pub fn range(&self) -> (r: std::ops::Range<usize>)
        requires
            self.wf(),
        ensures
            r.start == 0,
            r.end == self.dimX * self.dimY,
    {
        0..self.area()
    }
}

impl Pentomino {
    /// Builds the piece moved by `t`, row by row of the result.
    /// O(area).
    pub fn doTransformation(&self, t: Transformation) -> (r: Pentomino)
        requires
            self.wf(),
        ensures
            self.transformed(t, r),
    {
        let (w, h) = match t {
            Transformation::ReflectX | Transformation::ReflectY => (self.dimX, self.dimY),
            _ => (self.dimY, self.dimX),
        };
        proof {
            assert(w * h == self.dimX * self.dimY) by (nonlinear_arith)
                requires
                    (w == self.dimX && h == self.dimY) || (w == self.dimY && h == self.dimX),
            ;
        }
        let mut squares: Vec<Square> = Vec::new();
        let mut y: usize = 0;
        while y < h
            invariant
                self.wf(),
                w == self.out_w(t),
                h == self.out_h(t),
                w * h == self.dimX * self.dimY,
                y <= h,
                squares@.len() == y * w,
                forall|a: int, b: int|
                    0 <= a < y && 0 <= b < w ==> #[trigger] squares@[a * w + b] == self.cell(
                        self.source(t, b, a).0,
                        self.source(t, b, a).1,
                    ),
            decreases h - y,
        {
            let mut x: usize = 0;
            while x < w
                invariant
                    self.wf(),
                    w == self.out_w(t),
                    h == self.out_h(t),
                    w * h == self.dimX * self.dimY,
                    y < h,
                    x <= w,
                    squares@.len() == y * w + x,
                    forall|a: int, b: int|
                        (0 <= a < y && 0 <= b < w) || (a == y && 0 <= b < x) ==> #[trigger] squares@[a * w + b]
                            == self.cell(self.source(t, b, a).0, self.source(t, b, a).1),
                decreases w - x,
            {
                let (sx, sy) = match t {
                    Transformation::ReflectX => (self.dimX - 1 - x, y),
                    Transformation::ReflectY => (x, self.dimY - 1 - y),
                    Transformation::RotateRight => (y, self.dimY - 1 - x),
                    Transformation::RotateLeft => (self.dimX - 1 - y, x),
                };
                let sq = self.get(sx, sy);
                let ghost old_sq = squares@;
                proof {
                    lemma_index(h as int, w as int, y as int, x as int);
                }
                squares.push(sq);
                proof {
                    assert forall|a: int, b: int|
                        (0 <= a < y && 0 <= b < w) || (a == y && 0 <= b < x + 1) implies #[trigger] squares@[a * w + b]
                            == self.cell(self.source(t, b, a).0, self.source(t, b, a).1) by {
                        if a == y && b == x {
                        } else {
                            if a < y {
                                lemma_index(y as int, w as int, a, b);
                            }
                            assert(squares@[a * w + b] == old_sq[a * w + b]);
                        }
                    }
                }
                x = x + 1;
            }
            proof {
                assert((y + 1) * w == y * w + w) by (nonlinear_arith);
            }
            y = y + 1;
        }
        proof {
            assert(h * w == w * h) by (nonlinear_arith);
        }
        let r = Pentomino { dimX: w, dimY: h, size: self.size, squares };
        proof {
            assert forall|x: int, y: int| 0 <= x < r.dimX && 0 <= y < r.dimY implies #[trigger] r.cell(x, y)
                == self.cell(self.source(t, x, y).0, self.source(t, x, y).1) by {}
        }
        r
    }

    /// The piece mirrored left to right.
    pub fn reflectX(&self) -> (r: Pentomino)
        requires
            self.wf(),
        ensures
            self.transformed(Transformation::ReflectX, r),
    {
        self.doTransformation(Transformation::ReflectX)
    }

    /// The piece mirrored top to bottom.
    pub fn reflectY(&self) -> (r: Pentomino)
        requires
            self.wf(),
        ensures
            self.transformed(Transformation::ReflectY, r),
    {
        self.doTransformation(Transformation::ReflectY)
    }

    /// The piece turned a quarter to the left.
    pub fn rotateLeft(&self) -> (r: Pentomino)
        requires
            self.wf(),
        ensures
            self.transformed(Transformation::RotateLeft, r),
    {
        self.doTransformation(Transformation::RotateLeft)
    }

    /// The piece turned a quarter to the right.
    pub fn rotateRight(&self) -> (r: Pentomino)
        requires
            self.wf(),
        ensures
            self.transformed(Transformation::RotateRight, r),
    {
        self.doTransformation(Transformation::RotateRight)
    }
}

/// Every filled cell of `p`, moved by (ox, oy), lands on the grid of
/// `board` on a cell filled with the same symbol.
pub open spec fn fits(board: Pentomino, p: Pentomino, ox: int, oy: int) -> bool {
    forall|x: int, y: int|
        0 <= x < p.dimX && 0 <= y < p.dimY && #[trigger] p.cell(x, y) is Filled ==> {
            &&& x + ox < board.dimX
            &&& y + oy < board.dimY
            &&& board.cell(x + ox, y + oy) == p.cell(x, y)
        }
}

impl Pentomino {
    /// A copy with the same dimensions, size and cells.
    pub fn duplicate(&self) -> (r: Pentomino)
        ensures
            r.dimX == self.dimX,
            r.dimY == self.dimY,
            r.size == self.size,
            r.squares@ == self.squares@,
    {
        let mut squares: Vec<Square> = Vec::new();
        let mut i: usize = 0;
        while i < self.squares.len()
            invariant
                i <= self.squares@.len(),
                squares@ == self.squares@.subrange(0, i as int),
            decreases self.squares@.len() - i,
        {
            squares.push(self.squares[i]);
            proof {
                assert(squares@ =~= self.squares@.subrange(0, i + 1));
            }
            i = i + 1;
        }
        proof {
            assert(squares@ =~= self.squares@);
        }
        Pentomino { dimX: self.dimX, dimY: self.dimY, size: self.size, squares }
    }

    /// Every cell with its coordinates and the symbol it shows, row by row.
    pub fn coordinates(&self) -> (r: Vec<Point>)
        requires
            self.wf(),
        ensures
            r@.len() == self.dimX * self.dimY,
            forall|i: int|
                0 <= i < r@.len() ==> {
                    &&& (#[trigger] r@[i]).0 < self.dimX
                    &&& r@[i].1 < self.dimY
                    &&& r@[i].1 * self.dimX + r@[i].0 == i
                    &&& r@[i].2 == glyph(self.cell(r@[i].0 as int, r@[i].1 as int))
                },
    {
        let mut r: Vec<Point> = Vec::new();
        let n = self.area();
        let mut i: usize = 0;
        while i < n
            invariant
                self.wf(),
                n == self.dimX * self.dimY,
                i <= n,
                r@.len() == i,
                forall|k: int|
                    0 <= k < i ==> {
                        &&& (#[trigger] r@[k]).0 < self.dimX
                        &&& r@[k].1 < self.dimY
                        &&& r@[k].1 * self.dimX + r@[k].0 == k
                        &&& r@[k].2 == glyph(self.cell(r@[k].0 as int, r@[k].1 as int))
                    },
            decreases n - i,
        {
            let (x, y) = self.getCoordinates(i);
            let c = self.get(x, y).to_ascii();
            r.push((x, y, c));
            i = i + 1;
        }
        r
    }

    /// The filled cells with their coordinates and symbols, row by row.
    pub fn filled(&self) -> (r: Vec<Point>)
        requires
            self.wf(),
        ensures
            forall|k: int|
                0 <= k < r@.len() ==> {
                    &&& (#[trigger] r@[k]).0 < self.dimX
                    &&& r@[k].1 < self.dimY
                    &&& self.cell(r@[k].0 as int, r@[k].1 as int) == Square::Filled(r@[k].2)
                },
            forall|k1: int, k2: int|
                0 <= k1 < k2 < r@.len() ==> (#[trigger] r@[k1]).1 * self.dimX + r@[k1].0 < (
                #[trigger] r@[k2]).1 * self.dimX + r@[k2].0,
            forall|x: int, y: int|
                0 <= x < self.dimX && 0 <= y < self.dimY && #[trigger] self.cell(x, y) is Filled ==> exists|
                    k: int,
                | 0 <= k < r@.len() && r@[k].0 == x && r@[k].1 == y,
    {
        let mut r: Vec<Point> = Vec::new();
        let n = self.area();
        let mut i: usize = 0;
        while i < n
            invariant
                self.wf(),
                n == self.dimX * self.dimY,
                i <= n,
                forall|k: int|
                    0 <= k < r@.len() ==> {
                        &&& (#[trigger] r@[k]).0 < self.dimX
                        &&& r@[k].1 < self.dimY
                        &&& self.cell(r@[k].0 as int, r@[k].1 as int) == Square::Filled(r@[k].2)
                        &&& r@[k].1 * self.dimX + r@[k].0 < i
                    },
                forall|k1: int, k2: int|
                    0 <= k1 < k2 < r@.len() ==> (#[trigger] r@[k1]).1 * self.dimX + r@[k1].0 < (
                    #[trigger] r@[k2]).1 * self.dimX + r@[k2].0,
                forall|j: int|
                    0 <= j < i && #[trigger] self.squares@[j] is Filled ==> exists|k: int|
                        0 <= k < r@.len() && r@[k].1 * self.dimX + r@[k].0 == j,
            decreases n - i,
        {
            let (x, y) = self.getCoordinates(i);
            let ghost r0 = r@;
            match self.get(x, y) {
                Square::Filled(c) => {
                    r.push((x, y, c));
                    proof {
                        assert(r@[r@.len() - 1].1 * self.dimX + r@[r@.len() - 1].0 == i);
                    }
                },
                Square::Empty => {},
            }
            proof {
                assert forall|j: int|
                    0 <= j < i + 1 && #[trigger] self.squares@[j] is Filled implies exists|k: int|
                        0 <= k < r@.len() && r@[k].1 * self.dimX + r@[k].0 == j by {
                    if j == i {
                        let k = r@.len() - 1;
                        assert(r@[k].1 * self.dimX + r@[k].0 == j);
                    } else {
                        let k = choose|k: int| 0 <= k < r0.len() && r0[k].1 * self.dimX + r0[k].0 == j;
                        assert(r@[k] == r0[k]);
                    }
                }
            }
            i = i + 1;
        }
        proof {
            assert forall|x: int, y: int|
                0 <= x < self.dimX && 0 <= y < self.dimY && #[trigger] self.cell(x, y) is Filled implies exists|
                    k: int,
                | 0 <= k < r@.len() && r@[k].0 == x && r@[k].1 == y by {
                lemma_index(self.dimY as int, self.dimX as int, y, x);
                assert(self.dimY * self.dimX == self.dimX * self.dimY) by (nonlinear_arith);
                let k = choose|k: int| 0 <= k < r@.len() && r@[k].1 * self.dimX + r@[k].0 == y * self.dimX + x;
                crate::dlink::lemma_index_inj(self.dimX as int, r@[k].1 as int, r@[k].0 as int, y, x);
            }
        }
        r
    }

    /// Whether `p` placed with its top left corner at (offsetX, offsetY)
    /// fits: each of its filled cells lands on the grid, on a cell filled
    /// with the same symbol.
    pub fn canPlace(&self, p: &Pentomino, offsetX: usize, offsetY: usize) -> (b: bool)
        requires
            self.wf(),
            p.wf(),
        ensures
            b == fits(*self, *p, offsetX as int, offsetY as int),
    {
        let n = p.area();
        let mut i: usize = 0;
        while i < n
            invariant
                self.wf(),
                p.wf(),
                n == p.dimX * p.dimY,
                i <= n,
                forall|x: int, y: int|
                    0 <= x < p.dimX && 0 <= y < p.dimY && y * p.dimX + x < i && #[trigger] p.cell(x, y) is Filled
                        ==> {
                        &&& x + offsetX < self.dimX
                        &&& y + offsetY < self.dimY
                        &&& self.cell(x + offsetX, y + offsetY) == p.cell(x, y)
                    },
            decreases n - i,
        {
            let (x, y) = p.getCoordinates(i);
            let sq = p.get(x, y);
            match sq {
                Square::Filled(_) => {
                    if offsetX >= self.dimX || x >= self.dimX - offsetX || offsetY >= self.dimY || y
                        >= self.dimY - offsetY {
                        return false;
                    }
                    if self.get(x + offsetX, y + offsetY) != sq {
                        return false;
                    }
                },
                Square::Empty => {},
            }
            proof {
                assert forall|x2: int, y2: int|
                    0 <= x2 < p.dimX && 0 <= y2 < p.dimY && y2 * p.dimX + x2 < i + 1 && #[trigger] p.cell(x2, y2)
                        is Filled implies {
                        &&& x2 + offsetX < self.dimX
                        &&& y2 + offsetY < self.dimY
                        &&& self.cell(x2 + offsetX, y2 + offsetY) == p.cell(x2, y2)
                    } by {
                    if y2 * p.dimX + x2 == i {
                        crate::dlink::lemma_index_inj(p.dimX as int, y2, x2, y as int, x as int);
                    }
                }
            }
            i = i + 1;
        }
        proof {
            assert forall|x: int, y: int|
                0 <= x < p.dimX && 0 <= y < p.dimY && #[trigger] p.cell(x, y) is Filled implies {
                    &&& x + offsetX < self.dimX
                    &&& y + offsetY < self.dimY
                    &&& self.cell(x + offsetX, y + offsetY) == p.cell(x, y)
                } by {
                lemma_index(p.dimY as int, p.dimX as int, y, x);
                assert(p.dimY * p.dimX == p.dimX * p.dimY) by (nonlinear_arith);
            }
        }
        true
    }
}

/// Same dimensions, size and cells.
pub open spec fn same_piece(a: Pentomino, b: Pentomino) -> bool {
    &&& a.dimX == b.dimX
    &&& a.dimY == b.dimY
    &&& a.size == b.size
    &&& a.squares@ == b.squares@
}

impl PartialEq for Pentomino {
    fn eq(&self, other: &Pentomino) -> (r: bool) {
        if self.size != other.size || self.dimX != other.dimX || self.dimY != other.dimY {
            return false;
        }
        if self.squares.len() != other.squares.len() {
            return false;
        }
        let mut i: usize = 0;
        while i < self.squares.len()
            invariant
                i <= self.squares@.len(),
                self.squares@.len() == other.squares@.len(),
                forall|k: int| 0 <= k < i ==> self.squares@[k] == other.squares@[k],
            decreases self.squares@.len() - i,
        {
            if self.squares[i] != other.squares[i] {
                return false;
            }
            i = i + 1;
        }
        proof {
            assert(self.squares@ =~= other.squares@);
        }
        true
    }
}

impl vstd::std_specs::cmp::PartialEqSpecImpl for Pentomino {
    open spec fn obeys_eq_spec() -> bool {
        true
    }

    open spec fn eq_spec(&self, other: &Pentomino) -> bool {
        same_piece(*self, *other)
    }
}

impl Pentomino {
    /// The four quarter turns of the piece, the piece itself first, each
    /// turned right from the one before.
    pub fn rotations(&self) -> (r: Vec<Pentomino>)
        requires
            self.wf(),
        ensures
            r@.len() == 4,
            same_piece(r@[0], *self),
            r@[0].transformed(Transformation::RotateRight, r@[1]),
            r@[1].transformed(Transformation::RotateRight, r@[2]),
            r@[2].transformed(Transformation::RotateRight, r@[3]),
            forall|k: int| 0 <= k < 4 ==> (#[trigger] r@[k]).wf(),
    {
        let mut rotations: Vec<Pentomino> = Vec::new();
        let first = self.duplicate();
        let second = first.rotateRight();
        let third = second.rotateRight();
        let fourth = third.rotateRight();
        rotations.push(first);
        rotations.push(second);
        rotations.push(third);
        rotations.push(fourth);
        rotations
    }

    /// The piece and its mirror image.
    pub fn reflections(&self) -> (r: Vec<Pentomino>)
        requires
            self.wf(),
        ensures
            r@.len() == 2,
            same_piece(r@[0], *self),
            self.transformed(Transformation::ReflectX, r@[1]),
            r@[0].wf(),
            r@[1].wf(),
    {
        let mut reflections: Vec<Pentomino> = Vec::new();
        reflections.push(self.duplicate());
        reflections.push(self.reflectX());
        reflections
    }
}


/// The bounding box of the points fits in memory.
#[verifier::opaque]
pub open spec fn box_fits(s: Seq<Point>) -> bool {
    forall|a: int, b: int, c: int, d: int|
        0 <= a < s.len() && 0 <= b < s.len() && 0 <= c < s.len() && 0 <= d < s.len() ==> (#[trigger] s[a].0
            - #[trigger] s[b].0 + 1) * (#[trigger] s[c].1 - #[trigger] s[d].1 + 1) <= usize::MAX
}

/// `r` is the points of `s` moved so that the smallest coordinates are
/// (0, 0), with (mx, my) the smallest coordinates of `s`.
#[verifier::opaque]
pub open spec fn normalized(s: Seq<Point>, r: Pentomino, mx: int, my: int) -> bool {
    &&& r.wf()
    &&& r.size == s.len()
    &&& forall|k: int|
        0 <= k < s.len() ==> {
            &&& mx <= (#[trigger] s[k]).0 < mx + r.dimX
            &&& my <= s[k].1 < my + r.dimY
            &&& r.cell(s[k].0 - mx, s[k].1 - my) is Filled
        }
    &&& exists|k: int| 0 <= k < s.len() && #[trigger] s[k].0 == mx
    &&& exists|k: int| 0 <= k < s.len() && #[trigger] s[k].0 == mx + r.dimX - 1
    &&& exists|k: int| 0 <= k < s.len() && #[trigger] s[k].1 == my
    &&& exists|k: int| 0 <= k < s.len() && #[trigger] s[k].1 == my + r.dimY - 1
    &&& forall|x: int, y: int|
        0 <= x < r.dimX && 0 <= y < r.dimY && #[trigger] r.cell(x, y) is Filled ==> exists|k: int|
            0 <= k < s.len() && s[k] == (
            (x + mx) as usize,
            (y + my) as usize,
            r.cell(x, y)->Filled_0,
        )
}

proof fn lemma_normalized(s: Seq<Point>, r: Pentomino, mx: int, my: int, ax: int, ay: int)
    requires
        r.wf(),
        r.size == s.len(),
        r.dimX == ax - mx + 1,
        r.dimY == ay - my + 1,
        forall|k: int| 0 <= k < s.len() ==> mx <= (#[trigger] s[k]).0 <= ax && my <= s[k].1 <= ay,
        exists|k: int| 0 <= k < s.len() && #[trigger] s[k].0 == mx,
        exists|k: int| 0 <= k < s.len() && #[trigger] s[k].0 == ax,
        exists|k: int| 0 <= k < s.len() && #[trigger] s[k].1 == my,
        exists|k: int| 0 <= k < s.len() && #[trigger] s[k].1 == ay,
        forall|k: int| 0 <= k < s.len() ==> (#[trigger] r.cell(s[k].0 - mx, s[k].1 - my)) is Filled,
        forall|x: int, y: int|
            0 <= x < r.dimX && 0 <= y < r.dimY && #[trigger] r.cell(x, y) is Filled ==> exists|k: int|
                0 <= k < s.len() && s[k] == ((x + mx) as usize, (y + my) as usize, r.cell(x, y)->Filled_0),
    ensures
        normalized(s, r, mx, my),
{
    reveal(normalized);
}

/// The smallest and largest coordinates of a nonempty set of points:
/// (min x, max x, min y, max y).
fn bounds(system: &System) -> (b: (usize, usize, usize, usize))
    requires
        system@.len() > 0,
    ensures
        forall|k: int|
            0 <= k < system@.len() ==> b.0 <= (#[trigger] system@[k]).0 <= b.1 && b.2 <= system@[k].1 <= b.3,
        exists|k: int| 0 <= k < system@.len() && #[trigger] system@[k].0 == b.0,
        exists|k: int| 0 <= k < system@.len() && #[trigger] system@[k].0 == b.1,
        exists|k: int| 0 <= k < system@.len() && #[trigger] system@[k].1 == b.2,
        exists|k: int| 0 <= k < system@.len() && #[trigger] system@[k].1 == b.3,
{
    let n = system.len();
    let mut max_x = system[0].0;
    let mut min_x = system[0].0;
    let mut max_y = system[0].1;
    let mut min_y = system[0].1;
    let ghost mut ia: int = 0;
    let ghost mut ib: int = 0;
    let ghost mut ic: int = 0;
    let ghost mut id: int = 0;
    let mut i: usize = 1;
    while i < n
        invariant
            n == system@.len(),
            1 <= i <= n,
            0 <= ia < n && system@[ia].0 == max_x,
            0 <= ib < n && system@[ib].0 == min_x,
            0 <= ic < n && system@[ic].1 == max_y,
            0 <= id < n && system@[id].1 == min_y,
            forall|k: int|
                0 <= k < i ==> min_x <= (#[trigger] system@[k]).0 <= max_x && min_y <= system@[k].1 <= max_y,
        decreases n - i,
    {
        let (x, y, _) = system[i];
        if x > max_x {
            max_x = x;
            proof {
                ia = i as int;
            }
        }
        if x < min_x {
            min_x = x;
            proof {
                ib = i as int;
            }
        }
        if y > max_y {
            max_y = y;
            proof {
                ic = i as int;
            }
        }
        if y < min_y {
            min_y = y;
            proof {
                id = i as int;
            }
        }
        i = i + 1;
    }
    proof {
        assert(system@[ib].0 == min_x);
        assert(system@[ia].0 == max_x);
        assert(system@[id].1 == min_y);
        assert(system@[ic].1 == max_y);
    }
    (min_x, max_x, min_y, max_y)
}

fn empty_cells(n: usize) -> (v: Vec<Square>)
    ensures
        v@.len() == n,
        forall|j: int| 0 <= j < n ==> #[trigger] v@[j] == Square::Empty,
{
    let mut squares: Vec<Square> = Vec::new();
    let mut k: usize = 0;
    while k < n
        invariant
            k <= n,
            squares@.len() == k,
            forall|j: int| 0 <= j < k ==> #[trigger] squares@[j] == Square::Empty,
        decreases n - k,
    {
        squares.push(Square::Empty);
        k = k + 1;
    }
    squares
}

/// Marks each point of `system`, moved by (-mx, -my), filled in an empty
/// grid `r`.
fn mark_points(r: &mut Pentomino, system: &System, mx: usize, my: usize)
    requires
        old(r).wf(),
        forall|j: int| 0 <= j < old(r).squares@.len() ==> #[trigger] old(r).squares@[j] == Square::Empty,
        forall|k: int|
            0 <= k < system@.len() ==> mx <= (#[trigger] system@[k]).0 < mx + old(r).dimX && my <= system@[k].1
                < my + old(r).dimY,
    ensures
        final(r).wf(),
        final(r).dimX == old(r).dimX,
        final(r).dimY == old(r).dimY,
        final(r).size == old(r).size,
        forall|k: int|
            0 <= k < system@.len() ==> (#[trigger] final(r).cell(system@[k].0 - mx, system@[k].1 - my)) is Filled,
        forall|x: int, y: int|
            0 <= x < final(r).dimX && 0 <= y < final(r).dimY && #[trigger] final(r).cell(x, y) is Filled ==> exists|
                k: int,
            |
                0 <= k < system@.len() && system@[k] == (
                    (x + mx) as usize,
                    (y + my) as usize,
                    final(r).cell(x, y)->Filled_0,
                ),
{
    let n = system.len();
    let ghost w = r.dimX as int;
    let ghost h = r.dimY as int;
    proof {
        assert forall|x: int, y: int| 0 <= x < w && 0 <= y < h implies !(#[trigger] r.cell(x, y) is Filled) by {
            lemma_index(h, w, y, x);
        }
    }
    let mut i: usize = 0;
    while i < n
        invariant
            n == system@.len(),
            i <= n,
            r.dimX == w,
            r.dimY == h,
            r.size == old(r).size,
            r.wf(),
            forall|k: int|
                0 <= k < n ==> mx <= (#[trigger] system@[k]).0 < mx + w && my <= system@[k].1 < my + h,
            forall|k: int| 0 <= k < i ==> (#[trigger] r.cell(system@[k].0 - mx, system@[k].1 - my)) is Filled,
            forall|x: int, y: int|
                0 <= x < w && 0 <= y < h && #[trigger] r.cell(x, y) is Filled ==> exists|k: int|
                    0 <= k < i && system@[k] == ((x + mx) as usize, (y + my) as usize, r.cell(x, y)->Filled_0),
        decreases n - i,
    {
        let (x, y, c) = system[i];
        let idx = r.getIndex(x - mx, y - my);
        let ghost old_p = *r;
        r.squares.set(idx, Square::Filled(c));
        proof {
            assert forall|k: int| 0 <= k < i + 1 implies (#[trigger] r.cell(
                system@[k].0 - mx,
                system@[k].1 - my,
            )) is Filled by {
                let xk = system@[k].0 - mx;
                let yk = system@[k].1 - my;
                lemma_index(h, w, yk, xk);
                if yk * w + xk != idx {
                    assert(old_p.cell(xk, yk) is Filled);
                }
            }
            assert forall|x2: int, y2: int|
                0 <= x2 < w && 0 <= y2 < h && #[trigger] r.cell(x2, y2) is Filled implies exists|k: int|
                    0 <= k < i + 1 && system@[k] == ((x2 + mx) as usize, (y2 + my) as usize, r.cell(x2, y2)->Filled_0) by {
                lemma_index(h, w, y2, x2);
                if y2 * w + x2 == idx {
                    crate::dlink::lemma_index_inj(w, y2, x2, (y - my) as int, (x - mx) as int);
                    assert(system@[i as int] == ((x2 + mx) as usize, (y2 + my) as usize, r.cell(x2, y2)->Filled_0));
                } else {
                    assert(r.cell(x2, y2) == old_p.cell(x2, y2));
                    assert(old_p.cell(x2, y2) is Filled);
                }
            }
        }
        i = i + 1;
    }
}

impl Pentomino {
    /// The piece made of a nonempty set of points, moved so that its
    /// smallest coordinates are (0, 0).
    #[verifier::rlimit(100)]
    pub fn newFromSystem(system: System) -> (r: Pentomino)
        requires
            system@.len() > 0,
            box_fits(system@),
        ensures
            exists|mx: int, my: int| normalized(system@, r, mx, my),
    {
        let (min_x, max_x, min_y, max_y) = bounds(&system);
        proof {
            let a = choose|k: int| 0 <= k < system@.len() && #[trigger] system@[k].0 == max_x;
            let b = choose|k: int| 0 <= k < system@.len() && #[trigger] system@[k].0 == min_x;
            let c = choose|k: int| 0 <= k < system@.len() && #[trigger] system@[k].1 == max_y;
            let d = choose|k: int| 0 <= k < system@.len() && #[trigger] system@[k].1 == min_y;
            reveal(box_fits);
            assert((system@[a].0 - system@[b].0 + 1) * (system@[c].1 - system@[d].1 + 1) <= usize::MAX);
            let p = max_x - min_x + 1;
            let q = max_y - min_y + 1;
            assert(p <= usize::MAX && q <= usize::MAX) by (nonlinear_arith)
                requires
                    p * q <= usize::MAX,
                    p >= 1,
                    q >= 1,
            ;
        }
        let dim_x = max_x - min_x + 1;
        let dim_y = max_y - min_y + 1;

        let area = dim_x * dim_y;
        let squares = empty_cells(area);
        proof {
            assert(dim_x * dim_y >= 1) by (nonlinear_arith)
                requires
                    dim_x >= 1,
                    dim_y >= 1,
            ;
        }
        let mut r = Pentomino { dimX: dim_x, dimY: dim_y, size: system.len(), squares };
        mark_points(&mut r, &system, min_x, min_y);
        proof {
            lemma_normalized(system@, r, min_x as int, min_y as int, max_x as int, max_y as int);
        }
        r
    }
}

pub proof fn lemma_normalized_wf(s: Seq<Point>, r: Pentomino, mx: int, my: int)
    requires
        normalized(s, r, mx, my),
    ensures
        r.wf(),
        r.size == s.len(),
{
    reveal(normalized);
}

} // verus!
