use vstd::prelude::*;

verus! {

/// The four neighbour indices of a linked node. `up` and `down` are row
/// indices within the node's column; `left` and `right` are column indices
/// within the node's row.
#[derive(Clone, Copy, Debug, PartialEq, Eq, Structural)]
pub struct LinkedNode {
    pub up: usize,
    pub down: usize,
    pub left: usize,
    pub right: usize,
}

impl LinkedNode {
    pub fn new(up: usize, down: usize, right: usize, left: usize) -> (r: LinkedNode)
        ensures
            r == (LinkedNode { up, down, left, right }),
    {
        LinkedNode { up, down, right, left }
    }
}

impl Default for LinkedNode {
    fn default() -> (r: LinkedNode)
        ensures
            r == (LinkedNode { up: 0, down: 0, left: 0, right: 0 }),
    {
        LinkedNode { up: 0, down: 0, left: 0, right: 0 }
    }
}

/// One cell of the matrix arena.
///
/// `Root` anchors the header row, `ColumnNode` heads a column and carries
/// its live size, `InnerNode` is a 1-entry and carries its column index,
/// and `EmptyNode` pads an intersection that holds no entry.
#[derive(Clone, Copy, Debug)]
pub enum DancingNode {
    Root(LinkedNode),
    InnerNode(LinkedNode, usize),
    ColumnNode(LinkedNode, usize),
    EmptyNode,
}

/// Equality by kind and payload (column of an entry, size of a column),
/// ignoring the links.
pub open spec fn same_node(a: DancingNode, b: DancingNode) -> bool {
    match (a, b) {
        (DancingNode::Root(_), DancingNode::Root(_)) => true,
        (DancingNode::InnerNode(_, x), DancingNode::InnerNode(_, y)) => x == y,
        (DancingNode::ColumnNode(_, x), DancingNode::ColumnNode(_, y)) => x == y,
        (DancingNode::EmptyNode, DancingNode::EmptyNode) => true,
        _ => false,
    }
}

impl PartialEq for DancingNode {
    fn eq(&self, other: &DancingNode) -> (r: bool) {
        match *self {
            DancingNode::Root(_) => match *other {
                DancingNode::Root(_) => true,
                _ => false,
            },
            DancingNode::InnerNode(_, col0) => match *other {
                DancingNode::InnerNode(_, col1) => col0 == col1,
                _ => false,
            },
            DancingNode::ColumnNode(_, col0) => match *other {
                DancingNode::ColumnNode(_, col1) => col0 == col1,
                _ => false,
            },
            DancingNode::EmptyNode => match *other {
                DancingNode::EmptyNode => true,
                _ => false,
            },
        }
    }
}

impl vstd::std_specs::cmp::PartialEqSpecImpl for DancingNode {
    open spec fn obeys_eq_spec() -> bool {
        true
    }

    open spec fn eq_spec(&self, other: &DancingNode) -> bool {
        same_node(*self, *other)
    }
}

impl DancingNode {
    /// The links of a node; an empty node reads as all zeros.
    pub open spec fn links(self) -> LinkedNode {
        match self {
            DancingNode::Root(n) => n,
            DancingNode::InnerNode(n, _) => n,
            DancingNode::ColumnNode(n, _) => n,
            DancingNode::EmptyNode => LinkedNode { up: 0, down: 0, left: 0, right: 0 },
        }
    }

    pub open spec fn is_linked(self) -> bool {
        !(self is EmptyNode)
    }

    /// The same node with its links replaced.
    pub open spec fn with_links(self, n: LinkedNode) -> DancingNode {
        match self {
            DancingNode::Root(_) => DancingNode::Root(n),
            DancingNode::InnerNode(_, c) => DancingNode::InnerNode(n, c),
            DancingNode::ColumnNode(_, s) => DancingNode::ColumnNode(n, s),
            DancingNode::EmptyNode => DancingNode::EmptyNode,
        }
    }

    /// The live size of a column node (0 for any other node).
    pub open spec fn size(self) -> nat {
        match self {
            DancingNode::ColumnNode(_, s) => s as nat,
            _ => 0,
        }
    }

    /// The column index carried by an entry (0 for any other node).
    pub open spec fn col(self) -> int {
        match self {
            DancingNode::InnerNode(_, c) => c as int,
            _ => 0,
        }
    }

    pub open spec fn with_size(self, s: usize) -> DancingNode {
        match self {
            DancingNode::ColumnNode(n, _) => DancingNode::ColumnNode(n, s),
            _ => self,
        }
    }

    fn links_of(&self) -> (r: LinkedNode)
        ensures
            r == self.links(),
    {
        match *self {
            DancingNode::Root(n) | DancingNode::InnerNode(n, _) | DancingNode::ColumnNode(n, _) => n,
            DancingNode::EmptyNode => LinkedNode { up: 0, down: 0, left: 0, right: 0 },
        }
    }

    fn put_links(&mut self, n: LinkedNode)
        ensures
            *final(self) == old(self).with_links(n),
    {
        match *self {
            DancingNode::Root(_) => {
                *self = DancingNode::Root(n);
            },
            DancingNode::InnerNode(_, c) => {
                *self = DancingNode::InnerNode(n, c);
            },
            DancingNode::ColumnNode(_, s) => {
                *self = DancingNode::ColumnNode(n, s);
            },
            DancingNode::EmptyNode => {},
        }
    }

    pub fn right(&self) -> (r: usize)
        ensures
            r == self.links().right,
    {
        match *self {
            DancingNode::Root(n) | DancingNode::InnerNode(n, _) | DancingNode::ColumnNode(n, _) => n.right,
            _ => 0,
        }
    }

    pub fn left(&self) -> (r: usize)
        ensures
            r == self.links().left,
    {
        match *self {
            DancingNode::Root(n) | DancingNode::InnerNode(n, _) | DancingNode::ColumnNode(n, _) => n.left,
            _ => 0,
        }
    }

    pub fn up(&self) -> (r: usize)
        ensures
            r == self.links().up,
    {
        match *self {
            DancingNode::Root(n) | DancingNode::InnerNode(n, _) | DancingNode::ColumnNode(n, _) => n.up,
            _ => 0,
        }
    }

    pub fn down(&self) -> (r: usize)
        ensures
            r == self.links().down,
    {
        match *self {
            DancingNode::Root(n) | DancingNode::InnerNode(n, _) | DancingNode::ColumnNode(n, _) => n.down,
            _ => 0,
        }
    }

    pub fn setRight(&mut self, i: usize)
        requires
            old(self).is_linked(),
        ensures
            *final(self) == old(self).with_links(
                LinkedNode { right: i, ..old(self).links() },
            ),
    {
        let mut n = self.links_of();
        n.right = i;
        self.put_links(n);
    }

    pub fn setLeft(&mut self, i: usize)
        requires
            old(self).is_linked(),
        ensures
            *final(self) == old(self).with_links(LinkedNode { left: i, ..old(self).links() }),
    {
        let mut n = self.links_of();
        n.left = i;
        self.put_links(n);
    }

    pub fn setUp(&mut self, i: usize)
        requires
            old(self).is_linked(),
        ensures
            *final(self) == old(self).with_links(LinkedNode { up: i, ..old(self).links() }),
    {
        let mut n = self.links_of();
        n.up = i;
        self.put_links(n);
    }

    pub fn setDown(&mut self, i: usize)
        requires
            old(self).is_linked(),
        ensures
            *final(self) == old(self).with_links(LinkedNode { down: i, ..old(self).links() }),
    {
        let mut n = self.links_of();
        n.down = i;
        self.put_links(n);
    }

    /// Adds one to a column's size; a no-op on the root.
    pub fn incr(&mut self)
        requires
            (*old(self)) is Root || (*old(self)) is ColumnNode,
            old(self).size() < usize::MAX,
        ensures
            (*old(self)) is Root ==> *final(self) == *old(self),
            (*old(self)) is ColumnNode ==> *final(self) == old(self).with_size(
                (old(self).size() + 1) as usize,
            ),
    {
        match self {
            DancingNode::ColumnNode(_, x) => {
                *x = *x + 1;
            },
            _ => {},
        }
    }

    /// Takes one from a column's size; a no-op on the root.
    pub fn decr(&mut self)
        requires
            (*old(self)) is Root || (*old(self)) is ColumnNode,
            (*old(self)) is ColumnNode ==> old(self).size() > 0,
        ensures
            (*old(self)) is Root ==> *final(self) == *old(self),
            (*old(self)) is ColumnNode ==> *final(self) == old(self).with_size(
                (old(self).size() - 1) as usize,
            ),
    {
        match self {
            DancingNode::ColumnNode(_, x) => {
                *x = *x - 1;
            },
            _ => {},
        }
    }

    /// The live size of a column; the root reads as unbounded, an entry or
    /// an empty cell as 0.
    pub fn len(&self) -> (r: usize)
        ensures
            self is Root ==> r == usize::MAX,
            !(self is Root) ==> r == self.size(),
    {
        match *self {
            DancingNode::Root(_) => usize::MAX,
            DancingNode::InnerNode(_, _) => 0,
            DancingNode::ColumnNode(_, l) => l,
            DancingNode::EmptyNode => 0,
        }
    }
}

/// `b` follows `a` in the ring made of the anchor 0 and the members of `s`
/// (all positive) in ascending order.
pub open spec fn is_succ(s: Set<int>, a: int, b: int) -> bool {
    ||| (s.contains(b) && a < b && forall|z: int| #[trigger] s.contains(z) && a < z ==> b <= z)
    ||| (b == 0 && forall|z: int| #[trigger] s.contains(z) ==> z <= a)
}

/// `b` precedes `a` in the ring made of the anchor 0 and the members of `s`
/// (all positive and below `n`) in ascending order.
pub open spec fn is_pred(s: Set<int>, a: int, b: int, n: int) -> bool {
    let top = if a == 0 {
        n
    } else {
        a
    };
    ||| (s.contains(b) && b < top && forall|z: int| #[trigger] s.contains(z) && z < top ==> z <= b)
    ||| (b == 0 && forall|z: int| #[trigger] s.contains(z) ==> top <= z)
}

/// `b` follows `a` in the ring made of the members of `s` in ascending order.
#[verifier::opaque]
pub open spec fn is_next(s: Set<int>, a: int, b: int) -> bool {
    &&& s.contains(b)
    &&& {
        ||| (a < b && forall|z: int| #[trigger] s.contains(z) && a < z ==> b <= z)
        ||| ((forall|z: int| #[trigger] s.contains(z) ==> z <= a) && forall|z: int|
            #[trigger] s.contains(z) ==> b <= z)
    }
}

/// `b` precedes `a` in the ring made of the members of `s` in ascending order.
#[verifier::opaque]
pub open spec fn is_prev(s: Set<int>, a: int, b: int) -> bool {
    &&& s.contains(b)
    &&& {
        ||| (b < a && forall|z: int| #[trigger] s.contains(z) && z < a ==> z <= b)
        ||| ((forall|z: int| #[trigger] s.contains(z) ==> a <= z) && forall|z: int|
            #[trigger] s.contains(z) ==> z <= b)
    }
}

/// What the matrix means: the arena as a grid of rows (row 0 is the header),
/// the entries currently linked into their column rings, and the columns
/// currently linked into the header ring.
pub struct MatrixState {
    pub grid: Seq<Seq<DancingNode>>,
    pub live: Set<(int, int)>,
    pub heads: Set<int>,
}

impl MatrixState {
    pub open spec fn rows(self) -> int {
        self.grid.len() as int
    }

    pub open spec fn cols(self) -> int {
        if self.grid.len() > 0 {
            self.grid[0].len() as int
        } else {
            0
        }
    }

    pub open spec fn node(self, r: int, c: int) -> DancingNode {
        self.grid[r][c]
    }

    pub open spec fn links(self, r: int, c: int) -> LinkedNode {
        self.grid[r][c].links()
    }

    /// Whether row `r` has an entry in column `c`.
    pub open spec fn has(self, r: int, c: int) -> bool {
        1 <= r < self.rows() && 1 <= c < self.cols() && self.grid[r][c] is InnerNode
    }

    /// The rows currently linked into column `c`'s ring.
    pub open spec fn in_col(self, c: int) -> Set<int> {
        Set::new(|r: int| self.live.contains((r, c)))
    }

    /// The columns where row `r` has an entry.
    pub open spec fn in_row(self, r: int) -> Set<int> {
        Set::new(|c: int| self.has(r, c))
    }

    /// The live size that column `c`'s header holds.
    pub open spec fn size(self, c: int) -> nat {
        self.grid[0][c].size()
    }

    pub open spec fn shaped(self) -> bool {
        &&& self.rows() >= 1
        &&& self.cols() >= 1
        &&& forall|r: int| 0 <= r < self.rows() ==> (#[trigger] self.grid[r]).len() == self.cols()
    }

    /// Kinds of the nodes: the root at (0, 0), a column header along the rest
    /// of row 0, nothing in column 0 below it, and elsewhere an entry that
    /// carries its own column index, or nothing.
    #[verifier::opaque]
    pub open spec fn kinds(self) -> bool {
        &&& self.grid[0][0] is Root
        &&& forall|c: int| 1 <= c < self.cols() ==> (#[trigger] self.grid[0][c]) is ColumnNode
        &&& forall|r: int| 1 <= r < self.rows() ==> (#[trigger] self.grid[r][0]) is EmptyNode
        &&& forall|r: int, c: int|
            1 <= r < self.rows() && 1 <= c < self.cols() ==> (#[trigger] self.grid[r][c] is EmptyNode
                || self.grid[r][c].col() == c)
    }

    /// The header ring runs through the root and the live columns in
    /// ascending order.
    #[verifier::opaque]
    pub open spec fn header_ring(self) -> bool {
        &&& forall|c: int| #[trigger] self.heads.contains(c) ==> 1 <= c < self.cols()
        &&& is_succ(self.heads, 0, self.links(0, 0).right as int)
        &&& is_pred(self.heads, 0, self.links(0, 0).left as int, self.cols())
        &&& forall|c: int| #[trigger]
            self.heads.contains(c) ==> is_succ(self.heads, c, self.links(0, c).right as int)
                && is_pred(self.heads, c, self.links(0, c).left as int, self.cols())
    }

    /// Each column's ring runs through its header and its linked rows in
    /// ascending order, and its header holds their count.
    #[verifier::opaque]
    pub open spec fn column_rings(self) -> bool {
        &&& forall|p: (int, int)| #[trigger] self.live.contains(p) ==> self.has(p.0, p.1)
        &&& forall|c: int|
            1 <= c < self.cols() ==> {
                &&& (#[trigger] self.in_col(c)).finite()
                &&& self.size(c) == self.in_col(c).len()
                &&& is_succ(self.in_col(c), 0, self.links(0, c).down as int)
                &&& is_pred(self.in_col(c), 0, self.links(0, c).up as int, self.rows())
            }
        &&& forall|r: int, c: int| #[trigger]
            self.live.contains((r, c)) ==> is_succ(self.in_col(c), r, self.links(r, c).down as int)
                && is_pred(self.in_col(c), r, self.links(r, c).up as int, self.rows())
    }

    /// Each row's ring runs through its entries in ascending column order.
    #[verifier::opaque]
    pub open spec fn row_rings(self) -> bool {
        forall|r: int, c: int| #[trigger]
            self.has(r, c) ==> is_next(self.in_row(r), c, self.links(r, c).right as int)
                && is_prev(self.in_row(r), c, self.links(r, c).left as int)
    }

    /// The rings are consistent circular lists and the sizes are counts.
    pub open spec fn wf(self) -> bool {
        &&& self.shaped()
        &&& self.kinds()
        &&& self.header_ring()
        &&& self.column_rings()
        &&& self.row_rings()
    }

    /// A row that is linked into a live column is linked into all of its
    /// columns.
    pub open spec fn rows_whole(self) -> bool {
        forall|r: int, c: int, d: int|
            #![trigger self.live.contains((r, c)), self.has(r, d)]
            self.heads.contains(c) && self.live.contains((r, c)) && self.has(r, d)
                ==> self.live.contains((r, d))
    }
}

impl MatrixState {
    /// A row that is linked into a live column has all of its columns live.
    pub open spec fn rows_clean(self) -> bool {
        forall|r: int, c: int, d: int|
            #![trigger self.live.contains((r, c)), self.has(r, d)]
            self.heads.contains(c) && self.live.contains((r, c)) && self.has(r, d) ==> self.heads.contains(d)
    }
}

/// The grid view of a row-major arena.
pub open spec fn grid_of(v: Seq<DancingNode>, rows: int, cols: int) -> Seq<Seq<DancingNode>> {
    Seq::new(rows as nat, |r: int| Seq::new(cols as nat, |c: int| v[r * cols + c]))
}

pub proof fn lemma_index(rows: int, cols: int, r: int, c: int)
    requires
        0 <= r < rows,
        0 <= c < cols,
    ensures
        0 <= r * cols + c < rows * cols,
{
    assert(0 <= r * cols) by (nonlinear_arith)
        requires
            0 <= r,
            0 <= c < cols,
    ;
    assert(r * cols + c < rows * cols) by (nonlinear_arith)
        requires
            0 <= r < rows,
            0 <= c < cols,
    ;
}

pub proof fn lemma_index_inj(cols: int, r1: int, c1: int, r2: int, c2: int)
    requires
        0 <= r1,
        0 <= r2,
        0 <= c1 < cols,
        0 <= c2 < cols,
        r1 * cols + c1 == r2 * cols + c2,
    ensures
        r1 == r2,
        c1 == c2,
{
    if r1 < r2 {
        assert(r1 * cols + c1 < r2 * cols + c2) by (nonlinear_arith)
            requires
                r1 < r2,
                0 <= c1 < cols,
                0 <= c2,
        ;
    } else if r2 < r1 {
        assert(r2 * cols + c2 < r1 * cols + c1) by (nonlinear_arith)
            requires
                r2 < r1,
                0 <= c2 < cols,
                0 <= c1,
        ;
    }
}

/// The grid with the links of node (r, c) replaced.
pub open spec fn set_links(
    g: Seq<Seq<DancingNode>>,
    r: int,
    c: int,
    l: LinkedNode,
) -> Seq<Seq<DancingNode>> {
    g.update(r, g[r].update(c, g[r][c].with_links(l)))
}

pub open spec fn set_right(g: Seq<Seq<DancingNode>>, r: int, c: int, v: usize) -> Seq<
    Seq<DancingNode>,
> {
    set_links(g, r, c, LinkedNode { right: v, ..g[r][c].links() })
}

pub open spec fn set_left(g: Seq<Seq<DancingNode>>, r: int, c: int, v: usize) -> Seq<
    Seq<DancingNode>,
> {
    set_links(g, r, c, LinkedNode { left: v, ..g[r][c].links() })
}

pub open spec fn set_up(g: Seq<Seq<DancingNode>>, r: int, c: int, v: usize) -> Seq<
    Seq<DancingNode>,
> {
    set_links(g, r, c, LinkedNode { up: v, ..g[r][c].links() })
}

pub open spec fn set_down(g: Seq<Seq<DancingNode>>, r: int, c: int, v: usize) -> Seq<
    Seq<DancingNode>,
> {
    set_links(g, r, c, LinkedNode { down: v, ..g[r][c].links() })
}

impl MatrixState {
    /// Column `i`'s header taken out of the header ring; its own links are
    /// kept.
    pub open spec fn unlinked_col(self, i: int) -> MatrixState {
        let l = self.links(0, i).left;
        let r = self.links(0, i).right;
        MatrixState {
            grid: set_left(set_right(self.grid, 0, l as int, r), 0, r as int, l),
            heads: self.heads.remove(i),
            ..self
        }
    }

    /// Column `i`'s header put back between the neighbours its links name.
    pub open spec fn relinked_col(self, i: int) -> MatrixState {
        let l = self.links(0, i).left;
        let r = self.links(0, i).right;
        MatrixState {
            grid: set_left(set_right(self.grid, 0, l as int, i as usize), 0, r as int, i as usize),
            heads: self.heads.insert(i),
            ..self
        }
    }

    /// Node (r, c) taken out of column `c`'s ring; its own links are kept.
    pub open spec fn unlinked_node(self, r: int, c: int) -> MatrixState {
        let u = self.links(r, c).up;
        let d = self.links(r, c).down;
        MatrixState {
            grid: set_up(set_down(self.grid, u as int, c, d), d as int, c, u),
            live: self.live.remove((r, c)),
            ..self
        }
    }

    /// Node (r, c) put back between the neighbours its links name.
    pub open spec fn relinked_node(self, r: int, c: int) -> MatrixState {
        let u = self.links(r, c).up;
        let d = self.links(r, c).down;
        MatrixState {
            grid: set_up(set_down(self.grid, u as int, c, r as usize), d as int, c, r as usize),
            live: self.live.insert((r, c)),
            ..self
        }
    }

    /// Column `c`'s header with its size replaced.
    pub open spec fn resized(self, c: int, n: usize) -> MatrixState {
        MatrixState {
            grid: self.grid.update(0, self.grid[0].update(c, self.grid[0][c].with_size(n))),
            ..self
        }
    }

    /// The links that a header relinking reads stay inside the header.
    pub open spec fn col_links_ok(self, i: int) -> bool {
        &&& self.links(0, i).left < self.cols()
        &&& self.links(0, i).right < self.cols()
    }

    /// The links that a node relinking reads stay inside the column and
    /// name nodes that can be relinked.
    pub open spec fn node_links_ok(self, r: int, c: int) -> bool {
        &&& self.grid[r][c].is_linked()
        &&& self.links(r, c).up < self.rows()
        &&& self.links(r, c).down < self.rows()
        &&& self.grid[self.links(r, c).up as int][c].is_linked()
        &&& self.grid[self.links(r, c).down as int][c].is_linked()
    }
}

/// A sparse 0/1 matrix whose 1-entries, with one header per column, are
/// linked into circular doubly-linked rings: one ring per column, one per
/// row, and the header ring. Rows and columns are removed and restored by
/// relinking, in O(1) per node.
pub struct DancingMatrix {
    cols: usize,
    rows: usize,
    inner: Vec<DancingNode>,
    live: Ghost<Set<(int, int)>>,
    heads: Ghost<Set<int>>,
    frames: Ghost<Seq<(int, MatrixState)>>,
}

impl View for DancingMatrix {
    type V = MatrixState;

    closed spec fn view(&self) -> MatrixState {
        MatrixState {
            grid: grid_of(self.inner@, self.rows as int, self.cols as int),
            live: self.live@,
            heads: self.heads@,
        }
    }
}

impl DancingMatrix {
    /// The covers in force, oldest first: each column with the state just
    /// before it was covered.
    pub closed spec fn frames(&self) -> Seq<(int, MatrixState)> {
        self.frames@
    }

    /// The arena matches its dimensions.
    pub closed spec fn inv(&self) -> bool {
        &&& self.rows >= 1
        &&& self.cols >= 1
        &&& self.inner@.len() == self.rows * self.cols
        &&& self.rows * self.cols <= usize::MAX
    }

    pub proof fn lemma_shape(&self)
        requires
            self.inv(),
        ensures
            self@.shaped(),
            self@.rows() * self@.cols() <= usize::MAX,
    {
        assert(self@.grid[0].len() == self.cols);
    }

    fn get_node(&self, r: usize, c: usize) -> (n: DancingNode)
        requires
            self.inv(),
            r < self@.rows(),
            c < self@.cols(),
        ensures
            n == self@.grid[r as int][c as int],
    {
        proof {
            assert(self@.grid[0].len() == self.cols);
            lemma_index(self.rows as int, self.cols as int, r as int, c as int);
        }
        self.inner[r * self.cols + c]
    }

    fn set_node(&mut self, r: usize, c: usize, n: DancingNode)
        requires
            old(self).inv(),
            r < old(self)@.rows(),
            c < old(self)@.cols(),
        ensures
            final(self).inv(),
            final(self).frames() == old(self).frames(),
            final(self)@ == (MatrixState {
                grid: old(self)@.grid.update(r as int, old(self)@.grid[r as int].update(c as int, n)),
                ..old(self)@
            }),
    {
        proof {
            assert(self@.grid[0].len() == self.cols);
            lemma_index(self.rows as int, self.cols as int, r as int, c as int);
        }
        let k = r * self.cols + c;
        let ghost g0 = self@.grid;
        self.inner.set(k, n);
        proof {
            let g1 = self@.grid;
            let e = g0.update(r as int, g0[r as int].update(c as int, n));
            assert forall|r2: int| 0 <= r2 < self.rows implies g1[r2] =~= e[r2] by {
                assert forall|c2: int| 0 <= c2 < self.cols implies g1[r2][c2] == e[r2][c2] by {
                    lemma_index(self.rows as int, self.cols as int, r2, c2);
                    if r2 * self.cols + c2 == k {
                        lemma_index_inj(self.cols as int, r2, c2, r as int, c as int);
                    }
                }
            }
            assert(g1 =~= e);
        }
    }
}

impl DancingMatrix {
    /// A header row of a root and `cols` empty columns, linked in ascending
    /// order, and no rows.
    pub fn new(cols: usize) -> (m: DancingMatrix)
        requires
            cols < usize::MAX,
        ensures
            m.inv(),
            m@.wf(),
            m@.rows() == 1,
            m@.cols() == cols + 1,
            m@.live == Set::<(int, int)>::empty(),
            m@.heads == Set::new(|c: int| 1 <= c <= cols),
            m.frames() == Seq::<(int, MatrixState)>::empty(),
            forall|c: int| 1 <= c <= cols ==> #[trigger] m@.size(c) == 0,
    {
        let mut header: Vec<DancingNode> = Vec::new();
        header.push(DancingNode::Root(LinkedNode::new(0, 0, 0, 0)));
        let mut k: usize = 1;
        while k <= cols
            invariant
                1 <= k <= cols + 1,
                cols < usize::MAX,
                header@.len() == k,
                header@[0] == DancingNode::Root(
                    LinkedNode { up: 0, down: 0, left: (k - 1) as usize, right: header@[0].links().right },
                ),
                forall|c: int|
                    1 <= c < k ==> #[trigger] header@[c] == DancingNode::ColumnNode(
                        LinkedNode {
                            up: 0,
                            down: 0,
                            left: (c - 1) as usize,
                            right: (if c + 1 < k {
                                c + 1
                            } else {
                                0
                            }) as usize,
                        },
                        0,
                    ),
                k == 1 ==> header@[0].links().right == 0,
                k > 1 ==> header@[0].links().right == 1,
            decreases cols + 1 - k,
        {
            let last = k - 1;
            let mut root = header[0];
            root.setLeft(k);
            header.set(0, root);
            let mut prev = header[last];
            prev.setRight(k);
            header.set(last, prev);
            header.push(DancingNode::ColumnNode(LinkedNode::new(0, 0, 0, last), 0));
            k = k + 1;
        }
        let ghost heads = Set::new(|c: int| 1 <= c <= cols);
        let m = DancingMatrix {
            cols: cols + 1,
            rows: 1,
            inner: header,
            live: Ghost(Set::empty()),
            heads: Ghost(heads),
            frames: Ghost(Seq::empty()),
        };
        proof {
            reveal(MatrixState::kinds);
            reveal(MatrixState::header_ring);
            reveal(MatrixState::column_rings);
            reveal(MatrixState::row_rings);
            let s = m@;
            assert(s.grid[0] =~= header@);
            assert forall|c: int| 1 <= c < s.cols() implies s.in_col(c) =~= Set::<int>::empty() by {}
            assert forall|r: int, c: int| !#[trigger] s.has(r, c) by {}
        }
        m
    }

    /// The header row: the root and the column headers.
    pub fn header(&self) -> (h: Vec<DancingNode>)
        requires
            self.inv(),
        ensures
            h@ == self@.grid[0],
    {
        proof {
            self.lemma_shape();
        }
        let mut h: Vec<DancingNode> = Vec::new();
        let mut c: usize = 0;
        while c < self.cols
            invariant
                self.inv(),
                c <= self.cols,
                self.cols == self@.cols(),
                h@ =~= self@.grid[0].subrange(0, c as int),
            decreases self.cols - c,
        {
            h.push(self.get_node(0, c));
            c = c + 1;
        }
        h
    }

    /// The root node.
    pub fn root(&self) -> (n: DancingNode)
        requires
            self.inv(),
        ensures
            n == self@.grid[0][0],
    {
        self.get_node(0, 0)
    }

    /// The number of columns, the root's included.
    pub fn cols(&self) -> (n: usize)
        requires
            self.inv(),
        ensures
            n == self@.cols(),
    {
        proof {
            assert(self@.grid[0].len() == self.cols);
        }
        self.cols
    }

    /// The number of rows below the header.
    pub fn len(&self) -> (n: usize)
        requires
            self.inv(),
        ensures
            n == self@.rows() - 1,
    {
        self.rows - 1
    }

    /// The node at row `x`, column `y`.
    pub fn get(&self, x: usize, y: usize) -> (n: DancingNode)
        requires
            self.inv(),
            x < self@.rows(),
            y < self@.cols(),
        ensures
            n == self@.grid[x as int][y as int],
    {
        self.get_node(x, y)
    }

    fn set_size(&mut self, c: usize, n: usize)
        requires
            old(self).inv(),
            1 <= c < old(self)@.cols(),
        ensures
            final(self).inv(),
            final(self).frames() == old(self).frames(),
            final(self)@ == old(self)@.resized(c as int, n),
    {
        let mut h = self.get_node(0, c);
        let ghost h0 = h;
        h = match h {
            DancingNode::ColumnNode(l, _) => DancingNode::ColumnNode(l, n),
            _ => h,
        };
        self.set_node(0, c, h);
    }

    /// Takes column `i`'s header out of the header ring, leaving its own
    /// links as they were; the root is never taken out.
    pub fn deleteCol(&mut self, i: usize)
        requires
            old(self).inv(),
            old(self)@.kinds(),
            i < old(self)@.cols(),
            i != 0 ==> old(self)@.col_links_ok(i as int),
        ensures
            final(self).inv(),
            i == 0 ==> final(self)@ == old(self)@,
            i != 0 ==> final(self)@ == old(self)@.unlinked_col(i as int),
            final(self).frames() == old(self).frames(),
    {
        proof {
            self.lemma_shape();
            reveal(MatrixState::kinds);
        }
        if i != 0 {
            let left = self.get_node(0, i).left();
            let right = self.get_node(0, i).right();
            let mut n = self.get_node(0, left);
            n.setRight(right);
            self.set_node(0, left, n);
            let mut n = self.get_node(0, right);
            n.setLeft(left);
            self.set_node(0, right, n);
            proof {
                self.heads@ = self.heads@.remove(i as int);
            }
        }
    }

    /// Puts column `i`'s header back between the neighbours its links name;
    /// the root is never touched.
    pub fn undeleteCol(&mut self, i: usize)
        requires
            old(self).inv(),
            old(self)@.kinds(),
            i < old(self)@.cols(),
            i != 0 ==> old(self)@.col_links_ok(i as int),
        ensures
            final(self).inv(),
            i == 0 ==> final(self)@ == old(self)@,
            i != 0 ==> final(self)@ == old(self)@.relinked_col(i as int),
            final(self).frames() == old(self).frames(),
    {
        proof {
            self.lemma_shape();
            reveal(MatrixState::kinds);
        }
        if i != 0 {
            let left = self.get_node(0, i).left();
            let right = self.get_node(0, i).right();
            let mut n = self.get_node(0, left);
            n.setRight(i);
            self.set_node(0, left, n);
            let mut n = self.get_node(0, right);
            n.setLeft(i);
            self.set_node(0, right, n);
            proof {
                self.heads@ = self.heads@.insert(i as int);
            }
        }
    }

    /// Takes node (`row`, `col`) out of its column's ring, leaving its own
    /// links as they were. The column's size is left to the caller.
    pub fn deleteNode(&mut self, row: usize, col: usize)
        requires
            old(self).inv(),
            row < old(self)@.rows(),
            col < old(self)@.cols(),
            old(self)@.node_links_ok(row as int, col as int),
        ensures
            final(self).inv(),
            final(self)@ == old(self)@.unlinked_node(row as int, col as int),
            final(self).frames() == old(self).frames(),
    {
        proof {
            self.lemma_shape();
        }
        let up = self.get_node(row, col).up();
        let down = self.get_node(row, col).down();
        let mut n = self.get_node(up, col);
        n.setDown(down);
        self.set_node(up, col, n);
        let mut n = self.get_node(down, col);
        n.setUp(up);
        self.set_node(down, col, n);
        proof {
            self.live@ = self.live@.remove((row as int, col as int));
        }
    }

    /// Puts node (`row`, `col`) back between the neighbours its links name.
    /// The column's size is left to the caller.
    pub fn undeleteNode(&mut self, row: usize, col: usize)
        requires
            old(self).inv(),
            row < old(self)@.rows(),
            col < old(self)@.cols(),
            old(self)@.node_links_ok(row as int, col as int),
        ensures
            final(self).inv(),
            final(self)@ == old(self)@.relinked_node(row as int, col as int),
            final(self).frames() == old(self).frames(),
    {
        proof {
            self.lemma_shape();
        }
        let up = self.get_node(row, col).up();
        let down = self.get_node(row, col).down();
        let mut n = self.get_node(up, col);
        n.setDown(row);
        self.set_node(up, col, n);
        let mut n = self.get_node(down, col);
        n.setUp(row);
        self.set_node(down, col, n);
        proof {
            self.live@ = self.live@.insert((row as int, col as int));
        }
    }
}

/// The entries that covering column `i` of `s` takes out: every other
/// entry of each row linked into column `i`.
pub open spec fn cover_set(s: MatrixState, i: int) -> Set<(int, int)> {
    Set::new(|p: (int, int)| s.live.contains(p) && p.1 != i && s.live.contains((p.0, i)))
}

/// The rows that stand in column `c` of `t` as seen by an entry of row `r`
/// that was taken out in `gone`: those still linked, and those of `gone`
/// below it.
pub open spec fn seen_from(t: MatrixState, gone: Set<(int, int)>, r: int, c: int) -> Set<int> {
    t.in_col(c).union(Set::new(|x: int| gone.contains((x, c)) && x > r))
}

/// `t` is `s` with column `i`'s header out of the header ring and the
/// entries `gone` (part of what covering `i` takes out) out of their column
/// rings, each one taken out after those above it in its column.
#[verifier::opaque]
pub open spec fn covered_part(s: MatrixState, t: MatrixState, i: int, gone: Set<(int, int)>) -> bool {
    &&& s.wf()
    &&& s.rows_whole()
    &&& s.heads.contains(i)
    &&& t.wf()
    &&& t.rows() == s.rows()
    &&& t.cols() == s.cols()
    &&& t.heads == s.heads.remove(i)
    &&& gone.subset_of(cover_set(s, i))
    &&& t.live == s.live.difference(gone)
    &&& t.links(0, 0).up == s.links(0, 0).up
    &&& t.links(0, 0).down == s.links(0, 0).down
    &&& forall|c: int|
        1 <= c < s.cols() ==> #[trigger] t.grid[0][c] is ColumnNode && (t.heads.contains(c)
            || (t.links(0, c).left == s.links(0, c).left && t.links(0, c).right == s.links(
            0,
            c,
        ).right))
    &&& forall|r: int, c: int|
        1 <= r < s.rows() && 0 <= c < s.cols() ==> {
            &&& same_node(#[trigger] t.grid[r][c], s.grid[r][c])
            &&& t.links(r, c).left == s.links(r, c).left
            &&& t.links(r, c).right == s.links(r, c).right
        }
    &&& forall|r: int, c: int|
        1 <= r < s.rows() && 0 <= c < s.cols() && !s.live.contains((r, c)) ==> #[trigger] t.grid[r][c]
            == s.grid[r][c]
    &&& forall|r: int, c: int| #[trigger]
        gone.contains((r, c)) ==> {
            &&& is_succ(seen_from(t, gone, r, c), r, t.links(r, c).down as int)
            &&& is_pred(seen_from(t, gone, r, c), r, t.links(r, c).up as int, s.rows())
        }
}

proof fn lemma_succ_unique(s: Set<int>, a: int, b1: int, b2: int)
    requires
        is_succ(s, a, b1),
        is_succ(s, a, b2),
    ensures
        b1 == b2,
{
}

proof fn lemma_pred_unique(s: Set<int>, a: int, b1: int, b2: int, n: int)
    requires
        is_pred(s, a, b1, n),
        is_pred(s, a, b2, n),
    ensures
        b1 == b2,
{
}

/// Taking row `r` out of a column ring: its neighbours now face each other
/// and every other member keeps its neighbours.
proof fn lemma_ring_remove(s: Set<int>, r: int, u: int, d: int, n: int)
    requires
        forall|z: int| #[trigger] s.contains(z) ==> 0 < z < n,
        s.contains(r),
        is_pred(s, r, u, n),
        is_succ(s, r, d),
    ensures
        is_succ(s.remove(r), u, d),
        is_pred(s.remove(r), d, u, n),
        forall|x: int, b: int|
            (x == 0 || s.contains(x)) && x != u && is_succ(s, x, b) ==> is_succ(s.remove(r), x, b),
        forall|x: int, b: int|
            (x == 0 || s.contains(x)) && x != d && is_pred(s, x, b, n) ==> is_pred(s.remove(r), x, b, n),
        forall|x: int, b: int| x != r && is_succ(s, x, b) && b != r ==> is_succ(s.remove(r), x, b),
{
    assert forall|x: int, b: int|
        (x == 0 || s.contains(x)) && x != u && is_succ(s, x, b) implies is_succ(s.remove(r), x, b) by {
        if b == r {
            if u == 0 {
                assert(forall|z: int| s.contains(z) ==> r <= z);
            }
        }
    }
    assert forall|x: int, b: int|
        (x == 0 || s.contains(x)) && x != d && is_pred(s, x, b, n) implies is_pred(s.remove(r), x, b, n) by {
        if b == r {
            if d == 0 {
                assert(forall|z: int| s.contains(z) ==> z <= r);
            }
        }
    }
}

/// What unlinking node (r, c) and setting column `c`'s size to `n` do,
/// node by node.
proof fn lemma_unlink_effects(t: MatrixState, r: int, c: int, n: usize)
    requires
        t.shaped(),
        0 <= r < t.rows(),
        1 <= c < t.cols(),
        t.node_links_ok(r, c),
        t.grid[0][c] is ColumnNode,
    ensures
        ({
            let t2 = t.unlinked_node(r, c).resized(c, n);
            let u = t.links(r, c).up as int;
            let d = t.links(r, c).down as int;
            &&& t2.rows() == t.rows()
            &&& t2.cols() == t.cols()
            &&& t2.shaped()
            &&& t2.live == t.live.remove((r, c))
            &&& t2.heads == t.heads
            &&& t2.size(c) == n
            &&& forall|x: int, y: int|
                0 <= x < t.rows() && 0 <= y < t.cols() ==> {
                    &&& same_node(#[trigger] t2.grid[x][y], t.grid[x][y]) || (x == 0 && y == c)
                    &&& t2.grid[x][y] is ColumnNode == t.grid[x][y] is ColumnNode
                    &&& t2.grid[x][y] is InnerNode == t.grid[x][y] is InnerNode
                    &&& t2.grid[x][y] is EmptyNode == t.grid[x][y] is EmptyNode
                    &&& t2.grid[x][y] is Root == t.grid[x][y] is Root
                    &&& t2.grid[x][y].col() == t.grid[x][y].col()
                    &&& t2.links(x, y).left == t.links(x, y).left
                    &&& t2.links(x, y).right == t.links(x, y).right
                    &&& (y != c || (x != u && x != d)) ==> t2.links(x, y) == t.links(x, y)
                    &&& (x != 0 || y != c) ==> (t2.grid[x][y] == t.grid[x][y] || (y == c && (x == u
                        || x == d)))
                    &&& y != c ==> t2.grid[x][y] == t.grid[x][y]
                    &&& x == u && y == c ==> t2.links(x, y).down == d
                    &&& x == d && y == c ==> t2.links(x, y).up == u
                    &&& x == u && y == c && x != d ==> t2.links(x, y).up == t.links(x, y).up
                    &&& x == d && y == c && x != u ==> t2.links(x, y).down == t.links(x, y).down
                }
        }),
{
    let t2 = t.unlinked_node(r, c).resized(c, n);
    let u = t.links(r, c).up as int;
    let d = t.links(r, c).down as int;
    let g = t.grid;
    let g1 = set_down(g, u, c, d as usize);
    let g2 = set_up(g1, d, c, u as usize);
    assert(t2.grid[0].len() == t.grid[0].len());
    assert forall|x: int, y: int| 0 <= x < t.rows() && 0 <= y < t.cols() implies {
        &&& g1[x][y] == (if x == u && y == c {
            g[x][y].with_links(LinkedNode { down: d as usize, ..g[x][y].links() })
        } else {
            g[x][y]
        })
        &&& g2[x][y] == (if x == d && y == c {
            g1[x][y].with_links(LinkedNode { up: u as usize, ..g1[x][y].links() })
        } else {
            g1[x][y]
        })
        &&& t2.grid[x][y] == (if x == 0 && y == c {
            g2[x][y].with_size(n)
        } else {
            g2[x][y]
        })
    } by {}
}

/// What relinking node (r, c) and setting column `c`'s size to `n` do,
/// node by node.
proof fn lemma_relink_effects(t: MatrixState, r: int, c: int, n: usize)
    requires
        t.shaped(),
        0 <= r < t.rows(),
        1 <= c < t.cols(),
        t.node_links_ok(r, c),
        t.grid[0][c] is ColumnNode,
        r <= usize::MAX,
    ensures
        ({
            let t2 = t.relinked_node(r, c).resized(c, n);
            let u = t.links(r, c).up as int;
            let d = t.links(r, c).down as int;
            &&& t2.rows() == t.rows()
            &&& t2.cols() == t.cols()
            &&& t2.shaped()
            &&& t2.live == t.live.insert((r, c))
            &&& t2.heads == t.heads
            &&& t2.size(c) == n
            &&& forall|x: int, y: int|
                0 <= x < t.rows() && 0 <= y < t.cols() ==> {
                    &&& same_node(#[trigger] t2.grid[x][y], t.grid[x][y]) || (x == 0 && y == c)
                    &&& t2.grid[x][y] is ColumnNode == t.grid[x][y] is ColumnNode
                    &&& t2.grid[x][y] is InnerNode == t.grid[x][y] is InnerNode
                    &&& t2.grid[x][y] is EmptyNode == t.grid[x][y] is EmptyNode
                    &&& t2.grid[x][y] is Root == t.grid[x][y] is Root
                    &&& t2.grid[x][y].col() == t.grid[x][y].col()
                    &&& t2.links(x, y).left == t.links(x, y).left
                    &&& t2.links(x, y).right == t.links(x, y).right
                    &&& (y != c || (x != u && x != d)) ==> t2.links(x, y) == t.links(x, y)
                    &&& (x != 0 || y != c) ==> (t2.grid[x][y] == t.grid[x][y] || (y == c && (x == u
                        || x == d)))
                    &&& y != c ==> t2.grid[x][y] == t.grid[x][y]
                    &&& x == u && y == c ==> t2.links(x, y).down == r
                    &&& x == d && y == c ==> t2.links(x, y).up == r
                    &&& x == u && y == c && x != d ==> t2.links(x, y).up == t.links(x, y).up
                    &&& x == d && y == c && x != u ==> t2.links(x, y).down == t.links(x, y).down
                }
        }),
{
    let t2 = t.relinked_node(r, c).resized(c, n);
    let u = t.links(r, c).up as int;
    let d = t.links(r, c).down as int;
    let g = t.grid;
    let g1 = set_down(g, u, c, r as usize);
    let g2 = set_up(g1, d, c, r as usize);
    assert(t2.grid[0].len() == t.grid[0].len());
    assert forall|x: int, y: int| 0 <= x < t.rows() && 0 <= y < t.cols() implies {
        &&& g1[x][y] == (if x == u && y == c {
            g[x][y].with_links(LinkedNode { down: r as usize, ..g[x][y].links() })
        } else {
            g[x][y]
        })
        &&& g2[x][y] == (if x == d && y == c {
            g1[x][y].with_links(LinkedNode { up: r as usize, ..g1[x][y].links() })
        } else {
            g1[x][y]
        })
        &&& t2.grid[x][y] == (if x == 0 && y == c {
            g2[x][y].with_size(n)
        } else {
            g2[x][y]
        })
    } by {}
}

pub proof fn lemma_live_has(t: MatrixState)
    requires
        t.wf(),
    ensures
        forall|p: (int, int)| #[trigger] t.live.contains(p) ==> t.has(p.0, p.1),
{
    reveal(MatrixState::column_rings);
}

pub proof fn lemma_live_frame(t: MatrixState, r: int, c: int)
    requires
        t.wf(),
        t.live.contains((r, c)),
    ensures
        1 <= r < t.rows(),
        1 <= c < t.cols(),
        t.node_links_ok(r, c),
        t.grid[0][c] is ColumnNode,
        t.grid[r][c] is InnerNode,
        t.size(c) > 0,
        t.in_col(c).contains(r),
        t.in_col(c).finite(),
        forall|z: int| #[trigger] t.in_col(c).contains(z) ==> 0 < z < t.rows(),
        is_pred(t.in_col(c), r, t.links(r, c).up as int, t.rows()),
        is_succ(t.in_col(c), r, t.links(r, c).down as int),
{
    reveal(MatrixState::kinds);
    reveal(MatrixState::column_rings);
    let u = t.links(r, c).up as int;
    let d = t.links(r, c).down as int;
    let sc = t.in_col(c);
    assert(sc.contains(r));
    assert(t.has(r, c));
    assert forall|z: int| #[trigger] sc.contains(z) implies 0 < z < t.rows() by {
        assert(t.live.contains((z, c)));
    }
    assert(u == 0 || sc.contains(u));
    assert(d == 0 || sc.contains(d));
    if u != 0 {
        assert(t.live.contains((u, c)));
    }
    if d != 0 {
        assert(t.live.contains((d, c)));
    }
    assert(sc.remove(r).len() + 1 == sc.len());
}

proof fn lemma_unlink_keeps_frame(t: MatrixState, r: int, c: int, n: usize)
    requires
        t.shaped(),
        t.kinds(),
        t.header_ring(),
        t.row_rings(),
        0 <= r < t.rows(),
        1 <= c < t.cols(),
        t.node_links_ok(r, c),
        t.grid[0][c] is ColumnNode,
    ensures
        ({
            let t2 = t.unlinked_node(r, c).resized(c, n);
            &&& t2.kinds()
            &&& t2.header_ring()
            &&& t2.row_rings()
            &&& forall|x: int| #[trigger] t2.in_row(x) == t.in_row(x)
        }),
{
    let t2 = t.unlinked_node(r, c).resized(c, n);
    lemma_unlink_effects(t, r, c, n);
    reveal(MatrixState::kinds);
    reveal(MatrixState::header_ring);
    reveal(MatrixState::row_rings);
    assert forall|x: int| #[trigger] t2.in_row(x) == t.in_row(x) by {
        assert(t2.in_row(x) =~= t.in_row(x));
    }
    assert forall|x: int, y: int| #[trigger] t2.has(x, y) implies is_next(
        t2.in_row(x),
        y,
        t2.links(x, y).right as int,
    ) && is_prev(t2.in_row(x), y, t2.links(x, y).left as int) by {
        assert(t.has(x, y));
    }
}

proof fn lemma_relink_keeps_frame(t: MatrixState, r: int, c: int, n: usize)
    requires
        t.shaped(),
        t.kinds(),
        t.header_ring(),
        t.row_rings(),
        0 <= r < t.rows(),
        1 <= c < t.cols(),
        t.node_links_ok(r, c),
        t.grid[0][c] is ColumnNode,
        r <= usize::MAX,
    ensures
        ({
            let t2 = t.relinked_node(r, c).resized(c, n);
            &&& t2.kinds()
            &&& t2.header_ring()
            &&& t2.row_rings()
            &&& forall|x: int| #[trigger] t2.in_row(x) == t.in_row(x)
        }),
{
    let t2 = t.relinked_node(r, c).resized(c, n);
    lemma_relink_effects(t, r, c, n);
    reveal(MatrixState::kinds);
    reveal(MatrixState::header_ring);
    reveal(MatrixState::row_rings);
    assert forall|x: int| #[trigger] t2.in_row(x) == t.in_row(x) by {
        assert(t2.in_row(x) =~= t.in_row(x));
    }
    assert forall|x: int, y: int| #[trigger] t2.has(x, y) implies is_next(
        t2.in_row(x),
        y,
        t2.links(x, y).right as int,
    ) && is_prev(t2.in_row(x), y, t2.links(x, y).left as int) by {
        assert(t.has(x, y));
    }
}

/// Unlinking a linked entry and counting it out of its column keeps the
/// rings consistent.
proof fn lemma_unlink_wf(t: MatrixState, r: int, c: int)
    requires
        t.wf(),
        t.live.contains((r, c)),
    ensures
        1 <= r < t.rows(),
        1 <= c < t.cols(),
        t.node_links_ok(r, c),
        t.size(c) > 0,
        t.in_col(c).contains(r),
        ({
            let t2 = t.unlinked_node(r, c).resized(c, (t.size(c) - 1) as usize);
            &&& t2.wf()
            &&& t2.in_col(c) == t.in_col(c).remove(r)
            &&& forall|y: int| y != c ==> #[trigger] t2.in_col(y) == t.in_col(y)
        }),
{
    lemma_live_frame(t, r, c);
    let u = t.links(r, c).up as int;
    let d = t.links(r, c).down as int;
    let sc = t.in_col(c);
    let n = (t.size(c) - 1) as usize;
    let t2 = t.unlinked_node(r, c).resized(c, n);
    lemma_unlink_effects(t, r, c, n);
    lemma_unlink_keeps_frame(t, r, c, n);
    lemma_ring_remove(sc, r, u, d, t.rows());
    assert(t2.in_col(c) =~= sc.remove(r));
    assert(sc.remove(r).len() + 1 == sc.len());
    assert forall|y: int| y != c implies #[trigger] t2.in_col(y) == t.in_col(y) by {
        assert(t2.in_col(y) =~= t.in_col(y));
    }
    reveal(MatrixState::column_rings);
    assert forall|p: (int, int)| #[trigger] t2.live.contains(p) implies t2.has(p.0, p.1) by {
        assert(t.live.contains(p));
    }
    assert forall|y: int| 1 <= y < t2.cols() implies {
        &&& (#[trigger] t2.in_col(y)).finite()
        &&& t2.size(y) == t2.in_col(y).len()
        &&& is_succ(t2.in_col(y), 0, t2.links(0, y).down as int)
        &&& is_pred(t2.in_col(y), 0, t2.links(0, y).up as int, t2.rows())
    } by {
        if y != c {
            assert(t2.grid[0][y] == t.grid[0][y]);
        }
    }
    assert forall|x: int, y: int| #[trigger] t2.live.contains((x, y)) implies is_succ(
        t2.in_col(y),
        x,
        t2.links(x, y).down as int,
    ) && is_pred(t2.in_col(y), x, t2.links(x, y).up as int, t2.rows()) by {
        assert(t.live.contains((x, y)));
        if y == c {
            assert(sc.contains(x));
        } else {
            assert(t2.grid[x][y] == t.grid[x][y]);
        }
    }
    assert(t2.column_rings());
}

/// Taking one more entry of the cover out, below those of its column
/// already out, keeps the relation.
proof fn lemma_cover_step(s: MatrixState, t: MatrixState, i: int, gone: Set<(int, int)>, r: int, c: int)
    requires
        covered_part(s, t, i, gone),
        cover_set(s, i).contains((r, c)),
        !gone.contains((r, c)),
        forall|x: int| #[trigger] gone.contains((x, c)) ==> x < r,
    ensures
        t.node_links_ok(r, c),
        1 <= r < t.rows(),
        1 <= c < t.cols(),
        t.size(c) > 0,
        covered_part(
            s,
            t.unlinked_node(r, c).resized(c, (t.size(c) - 1) as usize),
            i,
            gone.insert((r, c)),
        ),
{
    reveal(covered_part);
    assert(t.live.contains((r, c)));
    lemma_live_frame(t, r, c);
    lemma_unlink_wf(t, r, c);
    let u = t.links(r, c).up as int;
    let d = t.links(r, c).down as int;
    let sc = t.in_col(c);
    let n = (t.size(c) - 1) as usize;
    let t2 = t.unlinked_node(r, c).resized(c, n);
    let g2 = gone.insert((r, c));
    lemma_unlink_effects(t, r, c, n);
    lemma_live_has(s);
    assert(t2.live =~= s.live.difference(g2));
    assert(g2.subset_of(cover_set(s, i)));
    if u != 0 {
        assert(sc.contains(u));
        assert(t.live.contains((u, c)));
    }
    if d != 0 {
        assert(sc.contains(d));
        assert(t.live.contains((d, c)));
    }
    assert forall|x: int, y: int| #[trigger] g2.contains((x, y)) implies {
        &&& is_succ(seen_from(t2, g2, x, y), x, t2.links(x, y).down as int)
        &&& is_pred(seen_from(t2, g2, x, y), x, t2.links(x, y).up as int, s.rows())
    } by {
        if x == r && y == c {
            assert(seen_from(t2, g2, x, y) =~= sc.remove(r));
            assert(u != r && d != r);
            assert(t2.links(r, c) == t.links(r, c));
        } else {
            assert(gone.contains((x, y)));
            assert(!t.live.contains((x, y)));
            assert(cover_set(s, i).contains((x, y)));
            assert(s.live.contains((x, y)));
            assert(1 <= x);
            assert(x != u || y != c);
            assert(x != d || y != c);
            assert(seen_from(t2, g2, x, y) =~= seen_from(t, gone, x, y));
        }
    }
    assert forall|x: int, y: int|
        1 <= x < s.rows() && 0 <= y < s.cols() && !s.live.contains((x, y)) implies #[trigger] t2.grid[x][y]
        == s.grid[x][y] by {
        assert(!t.live.contains((x, y)));
        if y == c && (x == u || x == d) {
            assert(t.live.contains((x, y)));
        }
    }
    assert forall|y: int|
        1 <= y < s.cols() implies #[trigger] t2.grid[0][y] is ColumnNode && (t2.heads.contains(y) || (
        t2.links(0, y).left == s.links(0, y).left && t2.links(0, y).right == s.links(0, y).right)) by {
        assert(t.grid[0][y] is ColumnNode);
    }
}

/// Putting row `r` back into a ring between its former neighbours.
proof fn lemma_ring_insert(s: Set<int>, r: int, u: int, d: int, n: int)
    requires
        forall|z: int| #[trigger] s.contains(z) ==> 0 < z < n,
        0 < r < n,
        !s.contains(r),
        is_pred(s, r, u, n),
        is_succ(s, r, d),
    ensures
        is_succ(s.insert(r), u, r),
        is_pred(s.insert(r), d, r, n),
        is_succ(s.insert(r), r, d),
        is_pred(s.insert(r), r, u, n),
        forall|x: int, b: int|
            (x == 0 || s.contains(x)) && x != u && is_succ(s, x, b) ==> is_succ(s.insert(r), x, b),
        forall|x: int, b: int|
            (x == 0 || s.contains(x)) && x != d && is_pred(s, x, b, n) ==> is_pred(s.insert(r), x, b, n),
{
    assert forall|x: int, b: int|
        (x == 0 || s.contains(x)) && x != u && is_succ(s, x, b) implies is_succ(s.insert(r), x, b) by {
        if x < r && (b == 0 || r < b) {
            if u == 0 {
                assert(forall|z: int| s.contains(z) ==> r <= z);
            } else {
                assert(x <= u);
            }
        }
    }
    assert forall|x: int, b: int|
        (x == 0 || s.contains(x)) && x != d && is_pred(s, x, b, n) implies is_pred(s.insert(r), x, b, n) by {
        let top = if x == 0 {
            n
        } else {
            x
        };
        if r < top && b < r {
            if d == 0 {
                assert(forall|z: int| s.contains(z) ==> z <= r);
            } else {
                assert(d <= top);
            }
        }
    }
}

proof fn lemma_node_eq(a: DancingNode, b: DancingNode)
    requires
        same_node(a, b),
        a.links() == b.links(),
        a.size() == b.size(),
    ensures
        a == b,
{
}

/// Relinking a taken-out entry whose neighbours face each other, and
/// counting it back into its column, keeps the rings consistent.
proof fn lemma_relink_wf(t: MatrixState, r: int, c: int)
    requires
        t.wf(),
        t.rows() <= usize::MAX,
        t.has(r, c),
        !t.live.contains((r, c)),
        is_pred(t.in_col(c), r, t.links(r, c).up as int, t.rows()),
        is_succ(t.in_col(c), r, t.links(r, c).down as int),
    ensures
        t.node_links_ok(r, c),
        t.size(c) < t.rows(),
        ({
            let t2 = t.relinked_node(r, c).resized(c, (t.size(c) + 1) as usize);
            &&& t2.wf()
            &&& t2.in_col(c) == t.in_col(c).insert(r)
            &&& forall|y: int| y != c ==> #[trigger] t2.in_col(y) == t.in_col(y)
            &&& t2.grid[r][c] == t.grid[r][c]
            &&& forall|x: int, y: int|
                0 <= x < t.rows() && 0 <= y < t.cols() && (y != c || (x != t.links(r, c).up && x
                    != t.links(r, c).down)) && (x != 0 || y != c) ==> #[trigger] t2.grid[x][y]
                    == t.grid[x][y]
        }),
{
    reveal(MatrixState::kinds);
    reveal(MatrixState::column_rings);
    let u = t.links(r, c).up as int;
    let d = t.links(r, c).down as int;
    let sc = t.in_col(c);
    assert forall|z: int| #[trigger] sc.contains(z) implies 0 < z < t.rows() by {
        assert(t.live.contains((z, c)));
    }
    assert(r <= usize::MAX);
    if u != 0 {
        assert(t.live.contains((u, c)));
    }
    if d != 0 {
        assert(t.live.contains((d, c)));
    }
    vstd::set_lib::lemma_int_range(1, t.rows());
    vstd::set_lib::lemma_len_subset(sc.insert(r), vstd::set_lib::set_int_range(1, t.rows()));
    assert(sc.insert(r).len() == sc.len() + 1);
    assert(t.size(c) + 1 <= t.rows());
    assert(t.node_links_ok(r, c));
    assert(t.grid[0][c] is ColumnNode);
    let n = (t.size(c) + 1) as usize;
    let t2 = t.relinked_node(r, c).resized(c, n);
    lemma_relink_effects(t, r, c, n);
    lemma_relink_keeps_frame(t, r, c, n);
    lemma_ring_insert(sc, r, u, d, t.rows());
    assert(t2.in_col(c) =~= sc.insert(r));
    assert forall|y: int| y != c implies #[trigger] t2.in_col(y) == t.in_col(y) by {
        assert(t2.in_col(y) =~= t.in_col(y));
    }
    assert(u != r && d != r);
    assert forall|p: (int, int)| #[trigger] t2.live.contains(p) implies t2.has(p.0, p.1) by {
        if p != (r, c) {
            assert(t.live.contains(p));
        }
    }
    assert forall|y: int| 1 <= y < t2.cols() implies {
        &&& (#[trigger] t2.in_col(y)).finite()
        &&& t2.size(y) == t2.in_col(y).len()
        &&& is_succ(t2.in_col(y), 0, t2.links(0, y).down as int)
        &&& is_pred(t2.in_col(y), 0, t2.links(0, y).up as int, t2.rows())
    } by {
        if y != c {
            assert(t2.grid[0][y] == t.grid[0][y]);
        }
    }
    assert forall|x: int, y: int| #[trigger] t2.live.contains((x, y)) implies is_succ(
        t2.in_col(y),
        x,
        t2.links(x, y).down as int,
    ) && is_pred(t2.in_col(y), x, t2.links(x, y).up as int, t2.rows()) by {
        if x == r && y == c {
        } else {
            assert(t.live.contains((x, y)));
            if y == c {
                assert(sc.contains(x));
            } else {
                assert(t2.grid[x][y] == t.grid[x][y]);
            }
        }
    }
    assert(t2.column_rings());
}

/// Putting back the lowest taken-out entry of a column keeps the relation.
proof fn lemma_uncover_step(s: MatrixState, t: MatrixState, i: int, gone: Set<(int, int)>, r: int, c: int)
    requires
        covered_part(s, t, i, gone),
        gone.contains((r, c)),
        forall|x: int| #[trigger] gone.contains((x, c)) ==> x <= r,
        s.rows() <= usize::MAX,
    ensures
        t.node_links_ok(r, c),
        1 <= r < t.rows(),
        1 <= c < t.cols(),
        t.size(c) < t.rows(),
        covered_part(
            s,
            t.relinked_node(r, c).resized(c, (t.size(c) + 1) as usize),
            i,
            gone.remove((r, c)),
        ),
{
    reveal(covered_part);
    lemma_live_has(s);
    lemma_live_has(t);
    reveal(MatrixState::kinds);
    assert(cover_set(s, i).contains((r, c)));
    assert(s.live.contains((r, c)));
    assert(s.has(r, c));
    assert(same_node(t.grid[r][c], s.grid[r][c]));
    assert(t.has(r, c));
    assert(!t.live.contains((r, c)));
    assert(seen_from(t, gone, r, c) =~= t.in_col(c));
    lemma_relink_wf(t, r, c);
    let u = t.links(r, c).up as int;
    let d = t.links(r, c).down as int;
    let sc = t.in_col(c);
    let n = (t.size(c) + 1) as usize;
    let t2 = t.relinked_node(r, c).resized(c, n);
    let g2 = gone.remove((r, c));
    lemma_relink_effects(t, r, c, n);
    assert(u == 0 || sc.contains(u));
    assert(d == 0 || sc.contains(d));
    if u != 0 {
        assert(t.live.contains((u, c)));
    }
    if d != 0 {
        assert(t.live.contains((d, c)));
    }
    assert(t2.live =~= s.live.difference(g2));
    assert forall|x: int, y: int| #[trigger] g2.contains((x, y)) implies {
        &&& is_succ(seen_from(t2, g2, x, y), x, t2.links(x, y).down as int)
        &&& is_pred(seen_from(t2, g2, x, y), x, t2.links(x, y).up as int, s.rows())
    } by {
        assert(gone.contains((x, y)));
        assert(!t.live.contains((x, y)));
        assert(cover_set(s, i).contains((x, y)));
        assert(s.live.contains((x, y)));
        assert(1 <= x);
        assert(x != u || y != c);
        assert(x != d || y != c);
        assert(x != r || y != c);
        assert(t2.grid[x][y] == t.grid[x][y]);
        assert(seen_from(t2, g2, x, y) =~= seen_from(t, gone, x, y));
    }
    assert forall|x: int, y: int|
        1 <= x < s.rows() && 0 <= y < s.cols() && !s.live.contains((x, y)) implies #[trigger] t2.grid[x][y]
        == s.grid[x][y] by {
        assert(!t.live.contains((x, y)));
        if y == c && (x == u || x == d) {
            assert(t.live.contains((x, y)));
        }
    }
    assert forall|y: int|
        1 <= y < s.cols() implies #[trigger] t2.grid[0][y] is ColumnNode && (t2.heads.contains(y) || (
        t2.links(0, y).left == s.links(0, y).left && t2.links(0, y).right == s.links(0, y).right)) by {
        assert(t.grid[0][y] is ColumnNode);
    }
}

/// What relinking or unlinking column `i`'s header does, node by node.
proof fn lemma_header_effects(t: MatrixState, i: int, unlink: bool, t2: MatrixState)
    requires
        t2 == (if unlink {
            t.unlinked_col(i)
        } else {
            t.relinked_col(i)
        }),
        t.shaped(),
        t.kinds(),
        1 <= i < t.cols(),
        t.col_links_ok(i),
        i <= usize::MAX,
    ensures
        ({
            let l = t.links(0, i).left as int;
            let r = t.links(0, i).right as int;
            &&& t2.rows() == t.rows()
            &&& t2.cols() == t.cols()
            &&& t2.shaped()
            &&& t2.kinds()
            &&& t2.live == t.live
            &&& t2.heads == (if unlink {
                t.heads.remove(i)
            } else {
                t.heads.insert(i)
            })
            &&& forall|x: int| #[trigger] t2.in_col(x) == t.in_col(x)
            &&& forall|x: int| #[trigger] t2.in_row(x) == t.in_row(x)
            &&& forall|x: int, y: int| #[trigger] t2.has(x, y) == t.has(x, y)
            &&& forall|x: int, y: int|
                0 <= x < t.rows() && 0 <= y < t.cols() ==> {
                    &&& same_node(#[trigger] t2.grid[x][y], t.grid[x][y])
                    &&& t2.grid[x][y].size() == t.grid[x][y].size()
                    &&& t2.links(x, y).up == t.links(x, y).up
                    &&& t2.links(x, y).down == t.links(x, y).down
                    &&& (x != 0 || (y != l && y != r)) ==> t2.grid[x][y] == t.grid[x][y]
                    &&& x == 0 && y == l ==> t2.links(x, y).right == (if unlink {
                        r
                    } else {
                        i
                    })
                    &&& x == 0 && y == r ==> t2.links(x, y).left == (if unlink {
                        l
                    } else {
                        i
                    })
                    &&& x == 0 && y == l && y != r ==> t2.links(x, y).left == t.links(x, y).left
                    &&& x == 0 && y == r && y != l ==> t2.links(x, y).right == t.links(x, y).right
                }
        }),
{
    reveal(MatrixState::kinds);
    let l = t.links(0, i).left as int;
    let r = t.links(0, i).right as int;
    let vr = if unlink {
        r as usize
    } else {
        i as usize
    };
    let vl = if unlink {
        l as usize
    } else {
        i as usize
    };
    let g = t.grid;
    let g1 = set_right(g, 0, l, vr);
    let g2 = set_left(g1, 0, r, vl);
    assert(t2.grid == g2);
    assert(t2.grid[0].len() == t.grid[0].len());
    assert forall|x: int, y: int| 0 <= x < t.rows() && 0 <= y < t.cols() implies {
        &&& g1[x][y] == (if x == 0 && y == l {
            g[x][y].with_links(LinkedNode { right: vr, ..g[x][y].links() })
        } else {
            g[x][y]
        })
        &&& g2[x][y] == (if x == 0 && y == r {
            g1[x][y].with_links(LinkedNode { left: vl, ..g1[x][y].links() })
        } else {
            g1[x][y]
        })
    } by {}
    assert forall|x: int| #[trigger] t2.in_row(x) == t.in_row(x) by {
        assert(t2.in_row(x) =~= t.in_row(x));
    }
    assert forall|x: int| #[trigger] t2.in_col(x) == t.in_col(x) by {
        assert(t2.in_col(x) =~= t.in_col(x));
    }
}

proof fn lemma_header_unlinked_ring(s: MatrixState, i: int)
    requires
        s.wf(),
        s.heads.contains(i),
        s.cols() <= usize::MAX,
    ensures
        1 <= i < s.cols(),
        s.col_links_ok(i),
        s.unlinked_col(i).header_ring(),
{
    reveal(MatrixState::header_ring);
    let l = s.links(0, i).left as int;
    let r = s.links(0, i).right as int;
    assert(s.col_links_ok(i));
    lemma_header_effects(s, i, true, s.unlinked_col(i));
    lemma_ring_remove(s.heads, i, l, r, s.cols());
    assert(l != i && r != i);
}

/// Rings below the header, and the column rings, carry over to a state
/// that differs from a well-formed one only in the header's left and right
/// links.
proof fn lemma_rings_transfer(s: MatrixState, t: MatrixState)
    requires
        s.wf(),
        t.rows() == s.rows(),
        t.cols() == s.cols(),
        t.live == s.live,
        forall|x: int, y: int| 1 <= x < s.rows() && 0 <= y < s.cols() ==> #[trigger] t.grid[x][y] == s.grid[x][y],
        forall|y: int|
            0 <= y < s.cols() ==> {
                &&& same_node(#[trigger] t.grid[0][y], s.grid[0][y])
                &&& t.grid[0][y].size() == s.grid[0][y].size()
                &&& t.links(0, y).up == s.links(0, y).up
                &&& t.links(0, y).down == s.links(0, y).down
            },
    ensures
        t.column_rings(),
        t.row_rings(),
{
    reveal(MatrixState::column_rings);
    reveal(MatrixState::row_rings);
    reveal(MatrixState::kinds);
    assert forall|x: int, y: int| #[trigger] t.has(x, y) == s.has(x, y) by {}
    assert forall|x: int| #[trigger] t.in_row(x) == s.in_row(x) by {
        assert(t.in_row(x) =~= s.in_row(x));
    }
    assert forall|x: int| #[trigger] t.in_col(x) == s.in_col(x) by {
        assert(t.in_col(x) =~= s.in_col(x));
    }
    assert forall|x: int, y: int| #[trigger] t.has(x, y) implies is_next(
        t.in_row(x),
        y,
        t.links(x, y).right as int,
    ) && is_prev(t.in_row(x), y, t.links(x, y).left as int) by {
        assert(s.has(x, y));
    }
    assert forall|y: int| 1 <= y < t.cols() implies {
        &&& (#[trigger] t.in_col(y)).finite()
        &&& t.size(y) == t.in_col(y).len()
        &&& is_succ(t.in_col(y), 0, t.links(0, y).down as int)
        &&& is_pred(t.in_col(y), 0, t.links(0, y).up as int, t.rows())
    } by {}
    assert forall|x: int, y: int| #[trigger] t.live.contains((x, y)) implies is_succ(
        t.in_col(y),
        x,
        t.links(x, y).down as int,
    ) && is_pred(t.in_col(y), x, t.links(x, y).up as int, t.rows()) by {
        assert(s.has(x, y));
    }
}

/// Unlinking a live column's header starts a cover.
pub proof fn lemma_cover_start(s: MatrixState, i: int)
    requires
        s.wf(),
        s.rows_whole(),
        s.heads.contains(i),
        s.cols() <= usize::MAX,
    ensures
        1 <= i < s.cols(),
        s.col_links_ok(i),
        covered_part(s, s.unlinked_col(i), i, Set::empty()),
{
    lemma_header_unlinked_ring(s, i);
    lemma_header_effects(s, i, true, s.unlinked_col(i));
    let t = s.unlinked_col(i);
    lemma_rings_transfer(s, t);
    reveal(covered_part);
    assert(t.live =~= s.live.difference(Set::empty()));
    reveal(MatrixState::kinds);
    reveal(MatrixState::header_ring);
}

proof fn lemma_header_relinked_ring(t: MatrixState, i: int)
    requires
        t.shaped(),
        t.kinds(),
        t.header_ring(),
        1 <= i < t.cols(),
        t.cols() <= usize::MAX,
        !t.heads.contains(i),
        t.col_links_ok(i),
        is_pred(t.heads, i, t.links(0, i).left as int, t.cols()),
        is_succ(t.heads, i, t.links(0, i).right as int),
    ensures
        t.relinked_col(i).header_ring(),
{
    reveal(MatrixState::header_ring);
    let l = t.links(0, i).left as int;
    let r = t.links(0, i).right as int;
    lemma_header_effects(t, i, false, t.relinked_col(i));
    lemma_ring_insert(t.heads, i, l, r, t.cols());
    let t2 = t.relinked_col(i);
    assert(l != i && r != i);
    assert(t2.cols() == t.cols());
    assert forall|c: int| c == 0 || #[trigger] t2.heads.contains(c) implies is_succ(
        t2.heads,
        c,
        t2.links(0, c).right as int,
    ) && is_pred(t2.heads, c, t2.links(0, c).left as int, t2.cols()) by {
        if c != i {
            if c != 0 {
                assert(t.heads.contains(c));
            }
            assert(0 <= c < t.cols());
            assert(is_succ(t.heads, c, t.links(0, c).right as int));
            assert(is_pred(t.heads, c, t.links(0, c).left as int, t.cols()));
            if c == l {
                assert(t2.links(0, c).right == i);
            } else {
                assert(t2.links(0, c).right == t.links(0, c).right);
            }
            if c == r {
                assert(t2.links(0, c).left == i);
            } else {
                assert(t2.links(0, c).left == t.links(0, c).left);
            }
        } else {
            assert(t2.links(0, c) == t.links(0, c));
        }
    }
    assert(forall|c: int| #[trigger] t2.heads.contains(c) ==> 1 <= c < t2.cols());
}

proof fn lemma_header_node_eq(s: MatrixState, t: MatrixState, y: int)
    requires
        s.wf(),
        t.shaped(),
        t.header_ring(),
        t.column_rings(),
        t.rows() == s.rows(),
        t.cols() == s.cols(),
        t.heads == s.heads,
        t.live == s.live,
        0 <= y < s.cols(),
        same_node(t.grid[0][y], s.grid[0][y]),
        t.grid[0][y].size() == s.grid[0][y].size(),
        y == 0 ==> t.links(0, 0).up == s.links(0, 0).up && t.links(0, 0).down == s.links(0, 0).down,
        y != 0 && !s.heads.contains(y) ==> t.links(0, y).left == s.links(0, y).left && t.links(0, y).right
            == s.links(0, y).right,
    ensures
        t.grid[0][y] == s.grid[0][y],
{
    reveal(MatrixState::header_ring);
    reveal(MatrixState::column_rings);
    assert(t.in_col(y) =~= s.in_col(y));
    if y == 0 {
        lemma_succ_unique(s.heads, 0, t.links(0, 0).right as int, s.links(0, 0).right as int);
        lemma_pred_unique(s.heads, 0, t.links(0, 0).left as int, s.links(0, 0).left as int, s.cols());
    } else {
        lemma_succ_unique(s.in_col(y), 0, t.links(0, y).down as int, s.links(0, y).down as int);
        lemma_pred_unique(s.in_col(y), 0, t.links(0, y).up as int, s.links(0, y).up as int, s.rows());
        if s.heads.contains(y) {
            lemma_succ_unique(s.heads, y, t.links(0, y).right as int, s.links(0, y).right as int);
            lemma_pred_unique(s.heads, y, t.links(0, y).left as int, s.links(0, y).left as int, s.cols());
        }
    }
    lemma_node_eq(t.grid[0][y], s.grid[0][y]);
}

proof fn lemma_finish_header(s: MatrixState, t: MatrixState, i: int)
    requires
        covered_part(s, t, i, Set::empty()),
        s.cols() <= usize::MAX,
    ensures
        1 <= i < t.cols(),
        t.col_links_ok(i),
        forall|y: int| 0 <= y < s.cols() ==> #[trigger] t.relinked_col(i).grid[0][y] == s.grid[0][y],
{
    reveal(covered_part);
    let l = s.links(0, i).left as int;
    let r = s.links(0, i).right as int;
    assert(s.col_links_ok(i)) by {
        reveal(MatrixState::header_ring);
    }
    assert(is_pred(t.heads, i, l, s.cols()) && is_succ(t.heads, i, r)) by {
        reveal(MatrixState::header_ring);
    }
    assert(1 <= i < s.cols()) by {
        reveal(MatrixState::header_ring);
    }
    assert(!t.heads.contains(i));
    assert(t.grid[0][i] is ColumnNode);
    assert(t.links(0, i).left == s.links(0, i).left);
    assert(t.links(0, i).right == s.links(0, i).right);
    lemma_header_effects(t, i, false, t.relinked_col(i));
    let t2 = t.relinked_col(i);
    lemma_header_relinked_ring(t, i);
    lemma_rings_transfer(t, t2);
    assert(t.heads.insert(i) =~= s.heads);
    assert(t.live =~= s.live);
    assert forall|y: int| 0 <= y < s.cols() implies #[trigger] t2.grid[0][y] == s.grid[0][y] by {
        assert(same_node(t2.grid[0][y], s.grid[0][y]) && t2.grid[0][y].size() == s.grid[0][y].size()) by {
            reveal(MatrixState::column_rings);
            reveal(MatrixState::kinds);
            if y > 0 {
                assert(t.in_col(y) =~= s.in_col(y));
                assert(t.grid[0][y] is ColumnNode);
            }
        }
        lemma_header_node_eq(s, t2, y);
    }
}

/// Round trip of a cover: once every entry that covering column `i` took
/// out is back, relinking `i`'s header gives back the state before the
/// cover, node for node (same rings, same sizes, same links).
pub proof fn lemma_cover_finish(s: MatrixState, t: MatrixState, i: int)
    requires
        covered_part(s, t, i, Set::empty()),
        s.cols() <= usize::MAX,
    ensures
        1 <= i < t.cols(),
        t.col_links_ok(i),
        t.relinked_col(i) == s,
{
    lemma_finish_header(s, t, i);
    reveal(covered_part);
    reveal(MatrixState::kinds);
    lemma_header_effects(t, i, false, t.relinked_col(i));
    let t2 = t.relinked_col(i);
    assert(t.live =~= s.live);
    assert(t.heads.insert(i) =~= s.heads);
    assert forall|x: int| #[trigger] t.in_col(x) == s.in_col(x) by {
        assert(t.in_col(x) =~= s.in_col(x));
    }
    assert forall|x: int| 0 <= x < s.rows() implies #[trigger] t2.grid[x] =~= s.grid[x] by {
        if x > 0 {
            assert forall|y: int| 0 <= y < s.cols() implies t2.grid[x][y] == s.grid[x][y] by {
                if s.live.contains((x, y)) {
                    reveal(MatrixState::column_rings);
                    lemma_succ_unique(s.in_col(y), x, t2.links(x, y).down as int, s.links(x, y).down as int);
                    lemma_pred_unique(s.in_col(y), x, t2.links(x, y).up as int, s.links(x, y).up as int, s.rows());
                    lemma_node_eq(t2.grid[x][y], s.grid[x][y]);
                }
            }
        }
    }
    assert(t2.grid =~= s.grid);
}

/// Position of column `x` in a row walked rightwards from just after
/// column `i` (which comes last).
pub open spec fn key(i: int, x: int, n: int) -> int {
    if x > i {
        x
    } else {
        x + n
    }
}

/// As `key`, with column `i` itself first.
pub open spec fn key0(i: int, x: int, n: int) -> int {
    if x == i {
        0
    } else {
        key(i, x, n)
    }
}

pub proof fn lemma_key_next(r: Set<int>, i: int, a: int, b: int, n: int)
    requires
        forall|z: int| #[trigger] r.contains(z) ==> 1 <= z < n,
        r.contains(i),
        r.contains(a),
        is_next(r, a, b),
    ensures
        r.contains(b),
        a != i ==> key(i, a, n) < key(i, b, n),
        a != i ==> forall|x: int|
            r.contains(x) && x != i ==> (key(i, x, n) < key(i, b, n) <==> key(i, x, n) <= key(i, a, n)),
        a == i ==> b == i || forall|x: int| r.contains(x) && x != i ==> key(i, b, n) <= key(i, x, n),
        a == i && b == i ==> forall|x: int| r.contains(x) ==> x == i,
{
    reveal(is_next);
    reveal(is_prev);
}

proof fn lemma_key_prev(r: Set<int>, i: int, a: int, b: int, n: int)
    requires
        forall|z: int| #[trigger] r.contains(z) ==> 1 <= z < n,
        r.contains(i),
        r.contains(a),
        is_prev(r, a, b),
    ensures
        r.contains(b),
        a != i ==> key0(i, b, n) < key(i, a, n),
        a != i ==> forall|x: int|
            r.contains(x) && x != i ==> (key(i, x, n) <= key0(i, b, n) <==> key(i, x, n) < key(i, a, n)),
        a == i ==> b == i || forall|x: int| r.contains(x) && x != i ==> key(i, x, n) <= key(i, b, n),
        a == i && b == i ==> forall|x: int| r.contains(x) ==> x == i,
{
    reveal(is_next);
    reveal(is_prev);
}

/// Each cover in force took its state to the next one's, and the last to
/// the current state.
pub open spec fn frames_ok(cur: MatrixState, frames: Seq<(int, MatrixState)>) -> bool {
    forall|k: int|
        0 <= k < frames.len() ==> covered_part(
            #[trigger] frames[k].1,
            if k + 1 < frames.len() {
                frames[k + 1].1
            } else {
                cur
            },
            frames[k].0,
            cover_set(frames[k].1, frames[k].0),
        )
}

/// The entries of a cover of `i` in rows above `r`, and in row `r` those
/// before position `kb` of the walk from `i`.
pub open spec fn cover_prefix(s: MatrixState, i: int, r: int, kb: int) -> Set<(int, int)> {
    Set::new(
        |p: (int, int)|
            cover_set(s, i).contains(p) && (p.0 < r || (p.0 == r && key(i, p.1, s.cols()) < kb)),
    )
}

pub proof fn lemma_col_head(t: MatrixState, c: int)
    requires
        t.wf(),
        1 <= c < t.cols(),
    ensures
        is_succ(t.in_col(c), 0, t.links(0, c).down as int),
        is_pred(t.in_col(c), 0, t.links(0, c).up as int, t.rows()),
        forall|z: int| #[trigger] t.in_col(c).contains(z) ==> 1 <= z < t.rows(),
{
    reveal(MatrixState::column_rings);
    assert forall|z: int| #[trigger] t.in_col(c).contains(z) implies 1 <= z < t.rows() by {
        assert(t.live.contains((z, c)));
    }
}

pub proof fn lemma_row_ring(t: MatrixState, r: int, c: int)
    requires
        t.wf(),
        t.has(r, c),
    ensures
        is_next(t.in_row(r), c, t.links(r, c).right as int),
        is_prev(t.in_row(r), c, t.links(r, c).left as int),
        forall|z: int| #[trigger] t.in_row(r).contains(z) ==> 1 <= z < t.cols(),
        t.in_row(r).contains(c),
{
    reveal(MatrixState::row_rings);
}

/// In a row linked into a live column `i`, the cover of `i` takes every
/// entry but the one in column `i`.
proof fn lemma_cover_row(s: MatrixState, i: int, r: int)
    requires
        s.wf(),
        s.rows_whole(),
        s.heads.contains(i),
        s.live.contains((r, i)),
    ensures
        forall|c: int| #[trigger] cover_set(s, i).contains((r, c)) <==> (s.has(r, c) && c != i),
{
    lemma_live_has(s);
    assert forall|c: int| s.has(r, c) && c != i implies #[trigger] cover_set(s, i).contains((r, c)) by {
        assert(s.live.contains((r, c)));
    }
}

/// What a partial cover keeps of the state it started from.
pub proof fn lemma_covered_basic(s: MatrixState, t: MatrixState, i: int, gone: Set<(int, int)>)
    requires
        covered_part(s, t, i, gone),
    ensures
        s.wf(),
        s.rows_whole(),
        t.wf(),
        s.heads.contains(i),
        1 <= i < s.cols(),
        t.rows() == s.rows(),
        t.cols() == s.cols(),
        t.heads == s.heads.remove(i),
        t.live == s.live.difference(gone),
        gone.subset_of(cover_set(s, i)),
        t.in_col(i) == s.in_col(i),
        forall|r: int, c: int| #[trigger] t.has(r, c) == s.has(r, c),
        forall|r: int, c: int|
            1 <= r < s.rows() && 0 <= c < s.cols() ==> (#[trigger] t.links(r, c)).right == s.links(r, c).right
                && t.links(r, c).left == s.links(r, c).left,
{
    reveal(covered_part);
    reveal(MatrixState::header_ring);
    reveal(MatrixState::kinds);
    assert(t.in_col(i) =~= s.in_col(i));
    assert forall|r: int, c: int| #[trigger] t.has(r, c) == s.has(r, c) by {
        if 1 <= r < s.rows() && 1 <= c < s.cols() {
            assert(same_node(t.grid[r][c], s.grid[r][c]));
        }
    }
}

/// A complete cover keeps every column of a row linked into a live column
/// live.
pub proof fn lemma_cover_keeps_clean(s: MatrixState, t: MatrixState, i: int)
    requires
        covered_part(s, t, i, cover_set(s, i)),
        s.rows_clean(),
    ensures
        t.rows_clean(),
{
    lemma_covered_basic(s, t, i, cover_set(s, i));
    lemma_live_has(s);
    assert forall|r: int, c: int, d: int|
        #![trigger t.live.contains((r, c)), t.has(r, d)]
        t.heads.contains(c) && t.live.contains((r, c)) && t.has(r, d) implies t.heads.contains(d) by {
        assert(s.live.contains((r, c)));
        assert(s.heads.contains(d));
        if d == i {
            assert(s.live.contains((r, i)));
            assert(cover_set(s, i).contains((r, c)));
        }
    }
}

/// A complete cover leaves every row linked into a live column whole.
proof fn lemma_cover_keeps_whole(s: MatrixState, t: MatrixState, i: int)
    requires
        covered_part(s, t, i, cover_set(s, i)),
        s.rows_whole(),
    ensures
        t.rows_whole(),
{
    lemma_covered_basic(s, t, i, cover_set(s, i));
    assert forall|r: int, c: int, d: int|
        t.heads.contains(c) && t.live.contains((r, c)) && t.has(r, d) implies t.live.contains((r, d)) by {
        assert(s.live.contains((r, c)));
        assert(s.live.contains((r, d)));
        if s.live.contains((r, i)) {
            assert(cover_set(s, i).contains((r, c)));
        }
    }
}

impl DancingMatrix {
    /// Covers column `i`: takes its header out of the header ring, then,
    /// for each row linked into it from the top down, takes that row's
    /// other entries, left to right, out of their columns, counting them
    /// out of the sizes. The root is never covered.
    pub fn coverCol(&mut self, i: usize)
        requires
            old(self).inv(),
            i < old(self)@.cols(),
            i != 0 ==> old(self)@.wf() && old(self)@.heads.contains(i as int) && old(self)@.rows_whole(),
            frames_ok(old(self)@, old(self).frames()),
        ensures
            final(self).inv(),
            frames_ok(final(self)@, final(self).frames()),
            i == 0 ==> final(self)@ == old(self)@ && final(self).frames() == old(self).frames(),
            i != 0 ==> {
                &&& covered_part(old(self)@, final(self)@, i as int, cover_set(old(self)@, i as int))
                &&& final(self).frames() == old(self).frames().push((i as int, old(self)@))
                &&& final(self)@.wf()
                &&& final(self)@.rows_whole()
                &&& old(self)@.rows_clean() ==> final(self)@.rows_clean()
                &&& final(self)@.heads == old(self)@.heads.remove(i as int)
                &&& final(self)@.live == old(self)@.live.difference(cover_set(old(self)@, i as int))
            },
    {
        if i == 0 {
            return ;
        }
        let ghost s = self@;
        let ghost n = s.cols();
        proof {
            self.lemma_shape();
            lemma_cover_start(s, i as int);
            lemma_col_head(s, i as int);
        }
        self.deleteCol(i);
        let mut cr = self.get_node(0, i).down();
        proof {
            lemma_covered_basic(s, self@, i as int, Set::empty());
            let lim = if cr == 0 { s.rows() } else { cr as int };
            assert(self@.links(0, i as int).down == s.links(0, i as int).down);
            lemma_live_has(s);
            assert forall|p: (int, int)| cover_set(s, i as int).contains(p) implies p.0 >= lim && key(
                i as int,
                p.1,
                n,
            ) >= 0 by {
                assert(s.live.contains((p.0, i as int)));
                assert(s.in_col(i as int).contains(p.0));
                assert(s.has(p.0, p.1));
            }
            assert(cover_prefix(s, i as int, lim, 0) =~= Set::empty());
        }
        while cr != 0
            invariant
                self.inv(),
                self.frames() == old(self).frames(),
                s == old(self)@,
                n == s.cols(),
                s.wf(),
                s.rows_whole(),
                s.heads.contains(i as int),
                1 <= i < n,
                n <= usize::MAX,
                cr < s.rows(),
                cr == 0 || s.in_col(i as int).contains(cr as int),
                cr != 0 ==> forall|z: int| #[trigger]
                    s.in_col(i as int).contains(z) && z < cr ==> true,
                covered_part(
                    s,
                    self@,
                    i as int,
                    cover_prefix(s, i as int, if cr == 0 { s.rows() } else { cr as int }, 0),
                ),
            decreases (if cr == 0 {
                0
            } else {
                s.rows() - cr
            }),
        {
            let ghost r = cr as int;
            proof {
                lemma_cover_row(s, i as int, r);
                lemma_live_has(s);
                lemma_row_ring(s, r, i as int);
                lemma_covered_basic(s, self@, i as int, cover_prefix(s, i as int, r, 0));
                lemma_key_next(s.in_row(r), i as int, i as int, s.links(r, i as int).right as int, n);
            }
            let mut cc = self.get_node(cr, i).right();
            proof {
                assert(self@.links(r, i as int).right == s.links(r, i as int).right);
                assert forall|c: int| #[trigger] cover_set(s, i as int).contains((r, c)) implies key(
                    i as int,
                    c,
                    n,
                ) >= key(i as int, cc as int, n) by {
                    assert(s.has(r, c));
                    assert(s.in_row(r).contains(c));
                }
                assert(cover_prefix(s, i as int, r, 0) =~= cover_prefix(s, i as int, r, key(i as int, cc as int, n)));
            }
            while cc != i
                invariant
                    self.inv(),
                    self.frames() == old(self).frames(),
                    s == old(self)@,
                    n == s.cols(),
                    s.wf(),
                    s.heads.contains(i as int),
                    1 <= i < n,
                    n <= usize::MAX,
                    1 <= r < s.rows(),
                    r == cr,
                    s.live.contains((r, i as int)),
                    s.in_row(r).contains(cc as int),
                    s.in_row(r).contains(i as int),
                    forall|z: int| #[trigger] s.in_row(r).contains(z) ==> 1 <= z < n,
                    forall|c: int| #[trigger] cover_set(s, i as int).contains((r, c)) <==> (s.has(r, c) && c != i),
                    covered_part(s, self@, i as int, cover_prefix(s, i as int, r, key(i as int, cc as int, n))),
                decreases key(i as int, i as int, n) - key(i as int, cc as int, n),
            {
                let ghost t = self@;
                let ghost gone = cover_prefix(s, i as int, r, key(i as int, cc as int, n));
                proof {
                    lemma_covered_basic(s, t, i as int, gone);
                    assert(cover_set(s, i as int).contains((r, cc as int)));
                    assert forall|x: int| #[trigger] gone.contains((x, cc as int)) implies x < r by {}
                    lemma_cover_step(s, t, i as int, gone, r, cc as int);
                    lemma_row_ring(s, r, cc as int);
                    lemma_key_next(s.in_row(r), i as int, cc as int, s.links(r, cc as int).right as int, n);
                }
                self.deleteNode(cr, cc);
                let sz = self.get_node(0, cc).len();
                self.set_size(cc, sz - 1);
                let next = self.get_node(cr, cc).right();
                proof {
                    lemma_covered_basic(s, self@, i as int, gone.insert((r, cc as int)));
                    assert(self@.links(r, cc as int).right == s.links(r, cc as int).right);
                    let g2 = gone.insert((r, cc as int));
                    assert forall|c: int| #[trigger] cover_set(s, i as int).contains((r, c)) implies (key(
                        i as int,
                        c,
                        n,
                    ) < key(i as int, next as int, n) <==> (key(i as int, c, n) < key(i as int, cc as int, n)
                        || c == cc)) by {
                        assert(s.has(r, c));
                        assert(s.in_row(r).contains(c));
                    }
                    assert(g2 =~= cover_prefix(s, i as int, r, key(i as int, next as int, n)));
                }
                cc = next;
            }
            proof {
                lemma_covered_basic(s, self@, i as int, cover_prefix(s, i as int, r, key(i as int, i as int, n)));
                lemma_live_frame(self@, r, i as int);
            }
            let next = self.get_node(cr, i).down();
            proof {
                lemma_col_head(s, i as int);
                let lim = if next == 0 { s.rows() } else { next as int };
                assert forall|p: (int, int)| #[trigger] cover_set(s, i as int).contains(p) implies (p.0 < lim <==> (p.0 < r || (p.0 == r && key(i as int, p.1, n) < key(i as int, i as int, n)))) by {
                    assert(s.in_col(i as int).contains(p.0));
                    assert(self@.in_col(i as int).contains(p.0));
                    lemma_live_has(s);
                }
                assert(cover_prefix(s, i as int, lim, 0) =~= cover_prefix(s, i as int, r, key(i as int, i as int, n)));
            }
            cr = next;
        }
        proof {
            assert(cover_prefix(s, i as int, s.rows(), 0) =~= cover_set(s, i as int)) by {
                lemma_live_has(s);
            }
            lemma_covered_basic(s, self@, i as int, cover_set(s, i as int));
            lemma_cover_keeps_whole(s, self@, i as int);
            if s.rows_clean() {
                lemma_cover_keeps_clean(s, self@, i as int);
            }
            self.frames@ = self.frames@.push((i as int, s));
            assert forall|k: int| 0 <= k < self.frames@.len() implies covered_part(
                #[trigger] self.frames@[k].1,
                if k + 1 < self.frames@.len() {
                    self.frames@[k + 1].1
                } else {
                    self@
                },
                self.frames@[k].0,
                cover_set(self.frames@[k].1, self.frames@[k].0),
            ) by {
                if k + 1 < self.frames@.len() {
                    assert(old(self).frames()[k] == self.frames@[k]);
                    if k + 2 == self.frames@.len() {
                    }
                }
            }
        }
    }
}

impl DancingMatrix {
    /// Uncovers column `i`, the last one covered: walks the rows linked
    /// into it from the bottom up and each row's other entries right to
    /// left, putting them back and counting them in, then puts the header
    /// back. The matrix is then exactly as it was before the matching cover.
    /// The root is never uncovered.
    pub fn uncoverCol(&mut self, i: usize)
        requires
            old(self).inv(),
            i < old(self)@.cols(),
            i != 0 ==> old(self).frames().len() > 0 && old(self).frames().last().0 == i,
            frames_ok(old(self)@, old(self).frames()),
        ensures
            final(self).inv(),
            frames_ok(final(self)@, final(self).frames()),
            i == 0 ==> final(self)@ == old(self)@ && final(self).frames() == old(self).frames(),
            i != 0 ==> final(self)@ == old(self).frames().last().1 && final(self).frames()
                == old(self).frames().drop_last(),
    {
        if i == 0 {
            return ;
        }
        let ghost s = self.frames@.last().1;
        let ghost n = s.cols();
        let ghost full = cover_set(s, i as int);
        proof {
            self.lemma_shape();
            let k = self.frames@.len() - 1;
            assert(covered_part(self.frames@[k].1, self@, i as int, cover_set(self.frames@[k].1, i as int)));
            lemma_covered_basic(s, self@, i as int, full);
            lemma_col_head(self@, i as int);
            lemma_live_has(s);
        }
        let mut cr = self.get_node(0, i).up();
        proof {
            assert forall|p: (int, int)| full.contains(p) implies p.0 <= cr && key(i as int, p.1, n) < 2 * n by {
                assert(s.live.contains((p.0, i as int)));
                assert(s.in_col(i as int).contains(p.0));
                assert(s.has(p.0, p.1));
            }
            assert(cover_prefix(s, i as int, cr as int, 2 * n) =~= full);
        }
        while cr != 0
            invariant
                self.inv(),
                self.frames() == old(self).frames(),
                s == old(self).frames().last().1,
                old(self).frames().len() > 0,
                n == s.cols(),
                full == cover_set(s, i as int),
                s.wf(),
                s.heads.contains(i as int),
                1 <= i < n,
                n <= usize::MAX,
                s.rows() <= usize::MAX,
                cr < s.rows(),
                cr == 0 || s.in_col(i as int).contains(cr as int),
                covered_part(s, self@, i as int, cover_prefix(s, i as int, cr as int, 2 * n)),
            decreases cr,
        {
            let ghost r = cr as int;
            proof {
                lemma_live_has(s);
                lemma_row_ring(s, r, i as int);
                lemma_covered_basic(s, self@, i as int, cover_prefix(s, i as int, r, 2 * n));
                lemma_key_prev(s.in_row(r), i as int, i as int, s.links(r, i as int).left as int, n);
            }
            let mut cc = self.get_node(cr, i).left();
            proof {
                assert(self@.links(r, i as int).left == s.links(r, i as int).left);
                assert forall|c: int| #[trigger] full.contains((r, c)) implies key(i as int, c, n) < 2 * n && (key(
                    i as int,
                    c,
                    n,
                ) < key0(i as int, cc as int, n) + 1) by {
                    assert(s.has(r, c));
                    assert(s.in_row(r).contains(c));
                    assert(c != i);
                    if cc == i {
                        assert(c == i);
                    } else {
                        assert(key(i as int, c, n) <= key(i as int, cc as int, n));
                    }
                }
                assert(cover_prefix(s, i as int, r, 2 * n) =~= cover_prefix(s, i as int, r, key0(i as int, cc as int, n) + 1));
            }
            while cc != i
                invariant
                    self.inv(),
                    self.frames() == old(self).frames(),
                    s == old(self).frames().last().1,
                    n == s.cols(),
                    full == cover_set(s, i as int),
                    s.wf(),
                    s.heads.contains(i as int),
                    1 <= i < n,
                    n <= usize::MAX,
                    s.rows() <= usize::MAX,
                    1 <= r < s.rows(),
                    r == cr,
                    s.live.contains((r, i as int)),
                    s.in_row(r).contains(cc as int),
                    s.in_row(r).contains(i as int),
                    forall|z: int| #[trigger] s.in_row(r).contains(z) ==> 1 <= z < n,
                    covered_part(s, self@, i as int, cover_prefix(s, i as int, r, key0(i as int, cc as int, n) + 1)),
                decreases key0(i as int, cc as int, n),
            {
                let ghost t = self@;
                let ghost gone = cover_prefix(s, i as int, r, key0(i as int, cc as int, n) + 1);
                proof {
                    lemma_covered_basic(s, t, i as int, gone);
                    lemma_live_has(s);
                    assert(s.has(r, cc as int));
                    assert(s.live.contains((r, cc as int))) by {
                        assert(s.rows_whole());
                    }
                    assert(s.live.contains((r, cc as int)));
                    assert(full.contains((r, cc as int)));
                    assert(gone.contains((r, cc as int)));
                    assert forall|x: int| #[trigger] gone.contains((x, cc as int)) implies x <= r by {}
                    lemma_uncover_step(s, t, i as int, gone, r, cc as int);
                    lemma_row_ring(s, r, cc as int);
                    lemma_key_prev(s.in_row(r), i as int, cc as int, s.links(r, cc as int).left as int, n);
                }
                proof {
                    reveal(MatrixState::kinds);
                }
                let sz = self.get_node(0, cc).len();
                self.undeleteNode(cr, cc);
                self.set_size(cc, sz + 1);
                let next = self.get_node(cr, cc).left();
                proof {
                    lemma_covered_basic(s, self@, i as int, gone.remove((r, cc as int)));
                    assert(self@.links(r, cc as int).left == s.links(r, cc as int).left);
                    let g2 = gone.remove((r, cc as int));
                    assert forall|c: int| #[trigger] full.contains((r, c)) implies (key(i as int, c, n) < key0(
                        i as int,
                        next as int,
                        n,
                    ) + 1 <==> (key(i as int, c, n) < key0(i as int, cc as int, n) + 1 && c != cc)) by {
                        assert(s.has(r, c));
                        assert(s.in_row(r).contains(c));
                        assert(c != i);
                        assert(key(i as int, c, n) <= key0(i as int, next as int, n) <==> key(i as int, c, n) < key(
                            i as int,
                            cc as int,
                            n,
                        ));
                    }
                    assert(g2 =~= cover_prefix(s, i as int, r, key0(i as int, next as int, n) + 1));
                }
                cc = next;
            }
            proof {
                lemma_covered_basic(s, self@, i as int, cover_prefix(s, i as int, r, key0(i as int, i as int, n) + 1));
                lemma_live_frame(self@, r, i as int);
            }
            let next = self.get_node(cr, i).up();
            proof {
                lemma_col_head(s, i as int);
                assert forall|p: (int, int)| #[trigger] full.contains(p) implies ((p.0 < next || (p.0 == next
                    && key(i as int, p.1, n) < 2 * n)) <==> (p.0 < r || (p.0 == r && key(i as int, p.1, n) < key0(
                    i as int,
                    i as int,
                    n,
                ) + 1))) by {
                    assert(s.in_col(i as int).contains(p.0));
                    assert(self@.in_col(i as int).contains(p.0));
                    lemma_live_has(s);
                    assert(s.has(p.0, p.1));
                }
                assert(cover_prefix(s, i as int, next as int, 2 * n) =~= cover_prefix(s, i as int, r, key0(i as int, i as int, n) + 1));
            }
            cr = next;
        }
        proof {
            assert forall|p: (int, int)| !#[trigger] cover_prefix(s, i as int, 0, 2 * n).contains(p) by {
                if full.contains(p) {
                    assert(s.live.contains(p));
                }
            }
            assert(cover_prefix(s, i as int, 0, 2 * n) =~= Set::empty());
            lemma_cover_finish(s, self@, i as int);
            lemma_covered_basic(s, self@, i as int, Set::empty());
        }
        self.undeleteCol(i);
        proof {
            self.frames@ = self.frames@.drop_last();
            assert forall|k: int| 0 <= k < self.frames@.len() implies covered_part(
                #[trigger] self.frames@[k].1,
                if k + 1 < self.frames@.len() {
                    self.frames@[k + 1].1
                } else {
                    self@
                },
                self.frames@[k].0,
                cover_set(self.frames@[k].1, self.frames@[k].0),
            ) by {
                assert(old(self).frames()[k] == self.frames@[k]);
            }
        }
    }
}

/// The columns, the root's excluded, where a row given as nodes has an
/// entry.
pub open spec fn entry_cols(v: Seq<DancingNode>) -> Set<int> {
    Set::new(|c: int| 1 <= c < v.len() && v[c] is InnerNode)
}

proof fn lemma_grid_push(v: Seq<DancingNode>, w: Seq<DancingNode>, rows: int, cols: int)
    requires
        rows >= 1,
        cols >= 1,
        v.len() == rows * cols,
        w.len() == cols,
    ensures
        grid_of(v + w, rows + 1, cols) == grid_of(v, rows, cols).push(w),
{
    let g1 = grid_of(v + w, rows + 1, cols);
    let g0 = grid_of(v, rows, cols).push(w);
    assert forall|r: int| 0 <= r < rows + 1 implies #[trigger] g1[r] =~= g0[r] by {
        assert forall|c: int| 0 <= c < cols implies g1[r][c] == g0[r][c] by {
            lemma_index(rows + 1, cols, r, c);
            if r < rows {
                lemma_index(rows, cols, r, c);
            } else {
                assert(r * cols == rows * cols);
            }
        }
    }
    assert(g1 =~= g0);
}

/// A row built from `v` and its ring neighbours has its entries where `v`
/// has them, linked in ascending column order.
proof fn lemma_row_facts(
    t: MatrixState,
    w: Seq<DancingNode>,
    v: Seq<DancingNode>,
    lefts: Seq<usize>,
    rights: Seq<usize>,
)
    requires
        t.cols() <= usize::MAX,
        w.len() == t.cols(),
        v.len() == t.cols(),
        lefts.len() == t.cols(),
        rights.len() == t.cols(),
        w[0] is EmptyNode,
        forall|c: int| 1 <= c < v.len() && !(v[c] is InnerNode) ==> #[trigger] w[c] is EmptyNode,
        forall|c: int|
            1 <= c < v.len() && v[c] is InnerNode ==> #[trigger] w[c] == DancingNode::InnerNode(
                LinkedNode { up: t.links(0, c).up, down: 0, left: lefts[c], right: rights[c] },
                c as usize,
            ),
        forall|y: int| #[trigger]
            entry_cols(v).contains(y) ==> is_prev(entry_cols(v), y, lefts[y] as int) && is_next(
                entry_cols(v),
                y,
                rights[y] as int,
            ),
    ensures
        entry_cols(w) == entry_cols(v),
        forall|c: int| 1 <= c < t.cols() ==> (#[trigger] w[c] is EmptyNode || w[c].col() == c),
        forall|c: int| #[trigger]
            entry_cols(w).contains(c) ==> is_next(entry_cols(w), c, w[c].links().right as int)
                && is_prev(entry_cols(w), c, w[c].links().left as int),
{
    assert(entry_cols(w) =~= entry_cols(v));
    assert forall|c: int| 1 <= c < t.cols() implies (#[trigger] w[c] is EmptyNode || w[c].col() == c) by {
        if v[c] is InnerNode {
        }
    }
    assert forall|c: int| #[trigger] entry_cols(w).contains(c) implies is_next(entry_cols(w), c, w[c].links().right as int)
        && is_prev(entry_cols(w), c, w[c].links().left as int) by {
        assert(entry_cols(v).contains(c));
    }
}

/// Appending a row whose entries are linked along the row but not yet
/// into their columns keeps the rings consistent.
#[verifier::rlimit(100)]
proof fn lemma_push_row_wf(t: MatrixState, w: Seq<DancingNode>)
    requires
        t.wf(),
        t.rows_whole(),
        w.len() == t.cols(),
        w[0] is EmptyNode,
        forall|c: int| 1 <= c < t.cols() ==> (#[trigger] w[c] is EmptyNode || w[c].col() == c),
        forall|c: int| #[trigger]
            entry_cols(w).contains(c) ==> is_next(entry_cols(w), c, w[c].links().right as int)
                && is_prev(entry_cols(w), c, w[c].links().left as int),
    ensures
        (MatrixState { grid: t.grid.push(w), ..t }).wf(),
        (MatrixState { grid: t.grid.push(w), ..t }).rows_whole(),
{
    let t2 = MatrixState { grid: t.grid.push(w), ..t };
    let rr = t.rows();
    assert(t2.cols() == t.cols());
    reveal(MatrixState::kinds);
    reveal(MatrixState::header_ring);
    reveal(MatrixState::column_rings);
    reveal(MatrixState::row_rings);
    assert forall|x: int, y: int| #[trigger] t2.has(x, y) == (t.has(x, y) || (x == rr && entry_cols(w).contains(y))) by {}
    assert forall|x: int| #[trigger] t2.in_col(x) == t.in_col(x) by {
        assert(t2.in_col(x) =~= t.in_col(x));
    }
    assert forall|x: int| 0 <= x < rr implies #[trigger] t2.in_row(x) == t.in_row(x) by {
        assert(t2.in_row(x) =~= t.in_row(x));
    }
    assert(t2.in_row(rr) =~= entry_cols(w));
    assert forall|p: (int, int)| #[trigger] t2.live.contains(p) implies t2.has(p.0, p.1) by {
        assert(t.has(p.0, p.1));
    }
    assert forall|y: int| 1 <= y < t2.cols() implies {
        &&& (#[trigger] t2.in_col(y)).finite()
        &&& t2.size(y) == t2.in_col(y).len()
        &&& is_succ(t2.in_col(y), 0, t2.links(0, y).down as int)
        &&& is_pred(t2.in_col(y), 0, t2.links(0, y).up as int, t2.rows())
    } by {
        assert forall|z: int| #[trigger] t.in_col(y).contains(z) implies z < rr by {
            assert(t.live.contains((z, y)));
        }
    }
    assert forall|x: int, y: int| #[trigger] t2.live.contains((x, y)) implies is_succ(
        t2.in_col(y),
        x,
        t2.links(x, y).down as int,
    ) && is_pred(t2.in_col(y), x, t2.links(x, y).up as int, t2.rows()) by {
        assert(t.has(x, y));
    }
    assert forall|x: int, y: int| #[trigger] t2.has(x, y) implies is_next(
        t2.in_row(x),
        y,
        t2.links(x, y).right as int,
    ) && is_prev(t2.in_row(x), y, t2.links(x, y).left as int) by {
        if x < rr {
            assert(t.has(x, y));
        }
    }
    assert(t2.column_rings());
    assert(t2.row_rings());
    assert forall|r: int, c: int, d: int|
        #![trigger t2.live.contains((r, c)), t2.has(r, d)]
        t2.heads.contains(c) && t2.live.contains((r, c)) && t2.has(r, d) implies t2.live.contains((r, d)) by {
        assert(t.has(r, c));
        assert(t.has(r, d));
    }
}

impl DancingMatrix {
    /// Whether some row below the header has its entries in exactly the
    /// columns where `v` has them. O(rows * cols).
    fn row_exists(&self, v: &Vec<DancingNode>) -> (present: bool)
        requires
            self.inv(),
            v@.len() == self@.cols(),
        ensures
            present == exists|r: int| 1 <= r < self@.rows() && #[trigger] self@.in_row(r) == entry_cols(v@),
    {
        proof {
            self.lemma_shape();
        }
        let mut r: usize = 1;
        while r < self.rows
            invariant
                self.inv(),
                1 <= r <= self.rows,
                self.rows == self@.rows(),
                self.cols == self@.cols(),
                v@.len() == self@.cols(),
                forall|x: int| 1 <= x < r ==> #[trigger] self@.in_row(x) != entry_cols(v@),
            decreases self.rows - r,
        {
            let mut c: usize = 1;
            let mut same = true;
            while c < self.cols
                invariant
                    self.inv(),
                    1 <= r < self.rows,
                    1 <= c <= self.cols,
                    self.rows == self@.rows(),
                    self.cols == self@.cols(),
                    v@.len() == self@.cols(),
                    same == forall|y: int| 1 <= y < c ==> (#[trigger] self@.has(r as int, y) == entry_cols(v@).contains(y)),
                decreases self.cols - c,
            {
                let a = match self.get_node(r, c) {
                    DancingNode::InnerNode(_, _) => true,
                    _ => false,
                };
                let b = match v[c] {
                    DancingNode::InnerNode(_, _) => true,
                    _ => false,
                };
                proof {
                    assert(a == self@.has(r as int, c as int));
                    assert(b == entry_cols(v@).contains(c as int));
                }
                if a != b {
                    same = false;
                }
                c = c + 1;
            }
            if same {
                proof {
                    assert(self@.in_row(r as int) =~= entry_cols(v@));
                }
                return true;
            }
            proof {
                let y = choose|y: int| 1 <= y < self.cols && self@.has(r as int, y) != entry_cols(v@).contains(y);
                if self@.has(r as int, y) {
                    assert(self@.in_row(r as int).contains(y));
                } else {
                    assert(entry_cols(v@).contains(y));
                }
            }
            r = r + 1;
        }
        false
    }
}

fn is_entry(n: &DancingNode) -> (b: bool)
    ensures
        b == (*n is InnerNode),
{
    match n {
        DancingNode::InnerNode(_, _) => true,
        _ => false,
    }
}

/// For each entry column of `v`, its left and right neighbours in the
/// ring of `v`'s entry columns.
fn row_links(v: &Vec<DancingNode>) -> (lr: (Vec<usize>, Vec<usize>))
    ensures
        lr.0@.len() == v@.len(),
        lr.1@.len() == v@.len(),
        forall|y: int| #[trigger]
            entry_cols(v@).contains(y) ==> is_prev(entry_cols(v@), y, lr.0@[y] as int) && is_next(
                entry_cols(v@),
                y,
                lr.1@[y] as int,
            ),
{
    let ghost e = entry_cols(v@);
    proof {
        reveal(is_next);
        reveal(is_prev);
    }
    let cols = v.len();
    if cols == 0 {
        return (Vec::new(), Vec::new());
    }
    let mut first: usize = 0;
    let mut last: usize = 0;
    let mut c: usize = 1;
    while c < cols
        invariant
            1 <= c <= cols,
            cols == v@.len(),
            e == entry_cols(v@),
            first == 0 ==> forall|z: int| #[trigger] e.contains(z) ==> z >= c,
            first != 0 ==> e.contains(first as int) && forall|z: int| #[trigger] e.contains(z) ==> z >= first,
            last == 0 ==> forall|z: int| #[trigger] e.contains(z) ==> z >= c,
            last != 0 ==> e.contains(last as int) && last < c && forall|z: int|
                #[trigger] e.contains(z) && z < c ==> z <= last,
        decreases cols - c,
    {
        if is_entry(&v[c]) {
            if first == 0 {
                first = c;
            }
            last = c;
        }
        c = c + 1;
    }
    let mut lefts: Vec<usize> = Vec::new();
    lefts.push(0);
    let mut prev = last;
    let mut c: usize = 1;
    while c < cols
        invariant
            1 <= c <= cols,
            cols == v@.len(),
            e == entry_cols(v@),
            lefts@.len() == c,
            last == 0 ==> forall|z: int| #[trigger] e.contains(z) ==> false,
            last != 0 ==> e.contains(last as int) && forall|z: int| #[trigger] e.contains(z) ==> z <= last,
            (e.contains(prev as int) && prev < c && forall|z: int| #[trigger] e.contains(z) && z < c ==> z <= prev)
                || (prev == last && forall|z: int| #[trigger] e.contains(z) ==> z >= c),
            forall|y: int| 1 <= y < c && #[trigger] e.contains(y) ==> is_prev(e, y, lefts@[y] as int),
        decreases cols - c,
    {
        proof {
            reveal(is_prev);
        }
        if is_entry(&v[c]) {
            lefts.push(prev);
            prev = c;
        } else {
            lefts.push(0);
        }
        c = c + 1;
    }
    let mut rights: Vec<usize> = Vec::new();
    let mut c: usize = 0;
    while c < cols
        invariant
            c <= cols,
            rights@.len() == c,
        decreases cols - c,
    {
        rights.push(0);
        c = c + 1;
    }
    let mut next = first;
    let mut c: usize = cols;
    while c > 1
        invariant
            1 <= c <= cols,
            cols == v@.len(),
            e == entry_cols(v@),
            rights@.len() == cols,
            first == 0 ==> forall|z: int| #[trigger] e.contains(z) ==> false,
            first != 0 ==> e.contains(first as int) && forall|z: int| #[trigger] e.contains(z) ==> z >= first,
            (e.contains(next as int) && next >= c && forall|z: int| #[trigger] e.contains(z) && z >= c ==> z >= next)
                || (next == first && forall|z: int| #[trigger] e.contains(z) ==> z < c),
            forall|y: int| c <= y < cols && #[trigger] e.contains(y) ==> is_next(e, y, rights@[y] as int),
        decreases c,
    {
        c = c - 1;
        proof {
            reveal(is_next);
        }
        if is_entry(&v[c]) {
            rights.set(c, next);
            next = c;
        }
    }
    (lefts, rights)
}

fn build_row(v: &Vec<DancingNode>, h: &Vec<DancingNode>, lefts: &Vec<usize>, rights: &Vec<usize>) -> (w: Vec<
    DancingNode,
>)
    requires
        v@.len() == h@.len(),
        lefts@.len() == v@.len(),
        rights@.len() == v@.len(),
        v@.len() >= 1,
    ensures
        w@.len() == v@.len(),
        w@[0] is EmptyNode,
        forall|c: int| 1 <= c < v@.len() && !(v@[c] is InnerNode) ==> #[trigger] w@[c] is EmptyNode,
        forall|c: int|
            1 <= c < v@.len() && v@[c] is InnerNode ==> #[trigger] w@[c] == DancingNode::InnerNode(
                LinkedNode { up: h@[c].links().up, down: 0, left: lefts@[c], right: rights@[c] },
                c as usize,
            ),
{
    let cols = v.len();
    let mut w: Vec<DancingNode> = Vec::new();
    w.push(DancingNode::EmptyNode);
    let mut c: usize = 1;
    while c < cols
        invariant
            1 <= c <= cols,
            cols == v@.len(),
            cols == h@.len(),
            w@.len() == c,
            w@[0] is EmptyNode,
            lefts@.len() == cols,
            rights@.len() == cols,
            forall|y: int| 1 <= y < c && !(v@[y] is InnerNode) ==> #[trigger] w@[y] is EmptyNode,
            forall|y: int|
                1 <= y < c && v@[y] is InnerNode ==> #[trigger] w@[y] == DancingNode::InnerNode(
                    LinkedNode { up: h@[y].links().up, down: 0, left: lefts@[y], right: rights@[y] },
                    y as usize,
                ),
        decreases cols - c,
    {
        if is_entry(&v[c]) {
            let up = h[c].up();
            w.push(DancingNode::InnerNode(LinkedNode { up, down: 0, left: lefts[c], right: rights[c] }, c));
        } else {
            w.push(DancingNode::EmptyNode);
        }
        c = c + 1;
    }
    w
}

impl DancingMatrix {
    /// Appends a row that has an entry in each column `c` (the root's
    /// excluded) where `v[c]` is an entry, unless a row with entries in
    /// exactly those columns is already there. Each entry is linked at the
    /// bottom of its column's ring and counted into the column's size; the
    /// entries are linked to each other in ascending column order.
    pub fn insert(&mut self, v: Vec<DancingNode>) -> (added: bool)
        requires
            old(self).inv(),
            old(self)@.wf(),
            old(self)@.rows_whole(),
            old(self).frames().len() == 0,
            v@.len() == old(self)@.cols(),
            old(self)@.rows() * old(self)@.cols() + old(self)@.cols() <= usize::MAX,
        ensures
            final(self).inv(),
            final(self)@.wf(),
            final(self)@.rows_whole(),
            final(self).frames().len() == 0,
            added == !exists|r: int|
                1 <= r < old(self)@.rows() && #[trigger] old(self)@.in_row(r) == entry_cols(v@),
            !added ==> final(self)@ == old(self)@,
            added ==> {
                &&& final(self)@.rows() == old(self)@.rows() + 1
                &&& final(self)@.cols() == old(self)@.cols()
                &&& final(self)@.heads == old(self)@.heads
                &&& final(self)@.in_row(old(self)@.rows()) == entry_cols(v@)
                &&& forall|r: int|
                    0 <= r < old(self)@.rows() ==> #[trigger] final(self)@.in_row(r) == old(self)@.in_row(r)
                &&& final(self)@.live == old(self)@.live.union(
                    Set::new(|p: (int, int)| p.0 == old(self)@.rows() && entry_cols(v@).contains(p.1)),
                )
            },
    {
        if self.row_exists(&v) {
            return false;
        }
        proof {
            self.lemma_shape();
        }
        let ghost s = self@;
        let ghost e = entry_cols(v@);
        let cols = self.cols;
        let rr = self.rows;
        let h = self.header();
        let (lefts, rights) = row_links(&v);
        let mut w = build_row(&v, &h, &lefts, &rights);
        let ghost wv = w@;
        proof {
            lemma_row_facts(s, wv, v@, lefts@, rights@);
            lemma_push_row_wf(s, wv);
            lemma_grid_push(self.inner@, wv, rr as int, cols as int);
            assert((rr as int + 1) * cols == rr * cols + cols) by (nonlinear_arith);
            assert(rr + 1 <= rr * cols + cols) by (nonlinear_arith)
                requires
                    cols >= 1,
            ;
        }
        self.inner.append(&mut w);
        self.rows = rr + 1;
        let ghost t0 = self@;
        proof {
            assert(self@ == MatrixState { grid: s.grid.push(wv), ..s });
            assert forall|r: int| 0 <= r < rr implies #[trigger] t0.in_row(r) == s.in_row(r) by {
                assert(t0.in_row(r) =~= s.in_row(r));
            }
            assert(t0.in_row(rr as int) =~= e);
        }
        let mut c: usize = 1;
        while c < cols
            invariant
                self.inv(),
                self.frames().len() == 0,
                1 <= c <= cols,
                cols == s.cols(),
                cols == v@.len(),
                rr == s.rows(),
                self@.rows() == rr + 1,
                self@.cols() == cols,
                self@.wf(),
                self@.heads == s.heads,
                e == entry_cols(v@),
                s.wf(),
                forall|r: int| 0 <= r <= rr ==> #[trigger] self@.in_row(r) == t0.in_row(r),
                self@.live == s.live.union(Set::new(|p: (int, int)| p.0 == rr && e.contains(p.1) && p.1 < c)),
                forall|y: int| c <= y < cols ==> #[trigger] self@.in_col(y) == s.in_col(y),
                forall|y: int| c <= y < cols ==> #[trigger] self@.grid[rr as int][y] == wv[y],
                forall|y: int| c <= y < cols ==> #[trigger] self@.links(0, y).up == s.links(0, y).up,
                forall|y: int| #[trigger] e.contains(y) ==> wv[y].links().up == s.links(0, y).up
                    && wv[y].links().down == 0 && wv[y] is InnerNode,
                forall|y: int| 1 <= y < cols ==> (#[trigger] wv[y] is InnerNode <==> e.contains(y)),
            decreases cols - c,
        {
            let ghost t = self@;
            if is_entry(&v[c]) {
                proof {
                    lemma_col_head(s, c as int);
                    lemma_live_has(s);
                    assert(e.contains(c as int));
                    assert(t.has(rr as int, c as int));
                    assert(!t.live.contains((rr as int, c as int)));
                    assert(t.grid[rr as int][c as int] == wv[c as int]);
                    assert(t.links(rr as int, c as int).up == s.links(0, c as int).up);
                    assert(t.in_col(c as int) == s.in_col(c as int));
                    assert(is_pred(s.in_col(c as int), 0, s.links(0, c as int).up as int, s.rows()));
                    assert(is_pred(t.in_col(c as int), rr as int, t.links(rr as int, c as int).up as int, t.rows()));
                    assert(is_succ(t.in_col(c as int), rr as int, t.links(rr as int, c as int).down as int));
                    lemma_relink_wf(t, rr as int, c as int);
                    reveal(MatrixState::kinds);
                }
                let sz = self.get_node(0, c).len();
                self.undeleteNode(rr, c);
                self.set_size(c, sz + 1);
                proof {
                    assert(self@ == t.relinked_node(rr as int, c as int).resized(c as int, (t.size(c as int) + 1) as usize));
                    assert forall|y: int| c < y < cols implies #[trigger] self@.links(0, y).up == s.links(0, y).up by {
                        assert(self@.grid[0][y] == t.grid[0][y]);
                        assert(t.links(0, y).up == s.links(0, y).up);
                    }
                    assert forall|r: int| 0 <= r <= rr implies #[trigger] self@.in_row(r) == t.in_row(r) by {
                        assert(self@.in_row(r) =~= t.in_row(r));
                    }
                    assert(self@.live =~= s.live.union(Set::new(|p: (int, int)| p.0 == rr && e.contains(p.1) && p.1 < c + 1)));
                }
            } else {
                proof {
                    assert(t.live =~= s.live.union(Set::new(|p: (int, int)| p.0 == rr && e.contains(p.1) && p.1 < c + 1)));
                }
            }
            c = c + 1;
        }
        proof {
            assert(self@.live =~= s.live.union(Set::new(|p: (int, int)| p.0 == rr && e.contains(p.1))));
            lemma_live_has(s);
            assert forall|r: int, c1: int, d: int|
                #![trigger self@.live.contains((r, c1)), self@.has(r, d)]
                self@.heads.contains(c1) && self@.live.contains((r, c1)) && self@.has(r, d) implies self@.live.contains((r, d)) by {
                if r < rr {
                    assert(s.live.contains((r, c1)));
                    assert(self@.in_row(r).contains(d));
                    assert(s.in_row(r).contains(d));
                    assert(s.has(r, d));
                } else {
                    assert(self@.in_row(r).contains(d));
                }
            }
        }
        true
    }
}

/// What the header ring says of the live columns.
pub proof fn lemma_header_facts(t: MatrixState)
    requires
        t.wf(),
    ensures
        forall|c: int| #[trigger] t.heads.contains(c) ==> 1 <= c < t.cols(),
        is_succ(t.heads, 0, t.links(0, 0).right as int),
        forall|c: int| #[trigger]
            t.heads.contains(c) ==> is_succ(t.heads, c, t.links(0, c).right as int) && t.grid[0][c] is ColumnNode,
        forall|c: int| 1 <= c < t.cols() ==> #[trigger] t.grid[0][c] is ColumnNode,
        t.grid[0][0] is Root,
{
    reveal(MatrixState::header_ring);
    reveal(MatrixState::kinds);
}

/// The live columns are finitely many.
pub proof fn lemma_heads_finite(t: MatrixState)
    requires
        t.wf(),
    ensures
        t.heads.finite(),
{
    lemma_header_facts(t);
    vstd::set_lib::lemma_int_range(1, t.cols());
    vstd::set_lib::lemma_len_subset(t.heads, vstd::set_lib::set_int_range(1, t.cols()));
}

/// In a well-formed matrix (after any sequence of insertions, covers and
/// matching uncovers), each column's size is the number of rows linked
/// into its ring.
pub proof fn lemma_sizes_count(t: MatrixState)
    requires
        t.wf(),
    ensures
        forall|c: int| 1 <= c < t.cols() ==> #[trigger] t.size(c) == t.in_col(c).len() && t.in_col(c).finite(),
{
    reveal(MatrixState::column_rings);
}

pub proof fn lemma_size_of(t: MatrixState, c: int)
    requires
        t.wf(),
        t.heads.contains(c),
    ensures
        1 <= c < t.cols(),
        t.size(c) == t.in_col(c).len(),
        t.in_col(c).finite(),
{
    reveal(MatrixState::header_ring);
    reveal(MatrixState::column_rings);
}

/// Column `z` is in the list `cs`.
pub open spec fn listed(cs: Seq<usize>, z: int) -> bool {
    exists|k: int| 0 <= k < cs.len() && cs[k] as int == z
}

impl DancingMatrix {
    /// The live columns, in the order of the header ring (ascending).
    pub fn iterHeader(&self) -> (cs: Vec<usize>)
        requires
            self.inv(),
            self@.wf(),
        ensures
            forall|k: int| 0 <= k < cs@.len() ==> self@.heads.contains(#[trigger] cs@[k] as int),
            forall|k1: int, k2: int| 0 <= k1 < k2 < cs@.len() ==> #[trigger] cs@[k1] < #[trigger] cs@[k2],
            forall|z: int| #[trigger] self@.heads.contains(z) ==> listed(cs@, z),
    {
        proof {
            lemma_header_facts(self@);
        }
        let cols = self.cols();
        let mut cs: Vec<usize> = Vec::new();
        let mut c = self.root().right();
        proof {
            if c == 0 {
                assert(self@.heads =~= Set::empty());
            }
        }
        while c != 0
            invariant
                self.inv(),
                cols == self@.cols(),
                c < cols,
                c != 0 ==> self@.heads.contains(c as int),
                forall|z: int| #[trigger] self@.heads.contains(z) ==> 1 <= z < cols,
                forall|z: int| #[trigger]
                    self@.heads.contains(z) ==> is_succ(self@.heads, z, self@.links(0, z).right as int),
                forall|k: int| 0 <= k < cs@.len() ==> self@.heads.contains(#[trigger] cs@[k] as int),
                forall|k: int| 0 <= k < cs@.len() ==> c == 0 || #[trigger] cs@[k] < c,
                forall|k1: int, k2: int| 0 <= k1 < k2 < cs@.len() ==> #[trigger] cs@[k1] < #[trigger] cs@[k2],
                is_succ(self@.heads, 0, self@.links(0, 0).right as int),
                c == 0 || is_succ(self@.heads, (if cs@.len() == 0 { 0 } else { cs@.last() as int }), c as int),
                cs@.len() > 0 ==> self@.heads.contains(cs@.last() as int),
                forall|z: int|
                    #[trigger] self@.heads.contains(z) && (cs@.len() > 0 && z <= cs@.last()) ==> listed(cs@, z),
                c == 0 ==> (cs@.len() == 0 ==> self@.heads.is_empty()) && (cs@.len() > 0 ==> forall|z: int|
                    #[trigger] self@.heads.contains(z) ==> z <= cs@.last()),
            decreases (if c == 0 {
                0
            } else {
                cols - c
            }),
        {
            let ghost cs0 = cs@;
            cs.push(c);
            let next = self.get(0, c).right();
            proof {
                assert(is_succ(self@.heads, c as int, next as int));
                assert(cs@[cs@.len() - 1] == c);
                assert forall|z: int|
                    #[trigger] self@.heads.contains(z) && (cs@.len() > 0 && z <= cs@.last()) implies listed(cs@, z) by {
                    if z == c {
                        assert(cs@[cs@.len() - 1] as int == z);
                    } else {
                        assert(cs0.len() > 0 && z <= cs0.last());
                        let k = choose|k: int| 0 <= k < cs0.len() && cs0[k] as int == z;
                        assert(cs@[k] == cs0[k]);
                    }
                }
            }
            c = next;
        }
        proof {
            assert forall|z: int| #[trigger] self@.heads.contains(z) implies listed(cs@, z) by {
                if cs@.len() == 0 {
                    assert(self@.heads.is_empty());
                }
            }
        }
        cs
    }

    /// The rows below the header, by index.
    pub fn iterRows(&self) -> (rs: Vec<usize>)
        requires
            self.inv(),
        ensures
            rs@.len() == self@.rows() - 1,
            forall|k: int| 0 <= k < rs@.len() ==> #[trigger] rs@[k] == k + 1,
    {
        let n = self.len();
        let mut rs: Vec<usize> = Vec::new();
        let mut r: usize = 0;
        while r < n
            invariant
                r <= n,
                rs@.len() == r,
                forall|k: int| 0 <= k < r ==> #[trigger] rs@[k] == k + 1,
            decreases n - r,
        {
            rs.push(r + 1);
            r = r + 1;
        }
        rs
    }
}

} // verus!
