use vstd::prelude::*;

use crate::pentomino::{fits, Pentomino, Transformation};
use crate::dlink::{
    entry_cols, lemma_cover_start, LinkedNode, DancingNode,
    cover_set, covered_part, frames_ok, is_succ, key, lemma_col_head, lemma_covered_basic,
    lemma_header_facts, lemma_heads_finite, lemma_key_next, lemma_live_frame, lemma_live_has,
    lemma_row_ring, DancingMatrix, MatrixState,
};

verus! {

/// Row `r` is linked into a live column of `t`.
pub open spec fn row_live(t: MatrixState, r: int) -> bool {
    exists|c: int| #[trigger] t.heads.contains(c) && t.live.contains((r, c))
}

/// Each row of `sol` is linked into a live column of `t`.
pub open spec fn rows_live(t: MatrixState, sol: Seq<int>) -> bool {
    forall|k: int| 0 <= k < sol.len() ==> row_live(t, #[trigger] sol[k])
}

/// Each live column of `t` has an entry in some row of `sol`.
pub open spec fn covers_all(t: MatrixState, sol: Seq<int>) -> bool {
    forall|c: int| #[trigger]
        t.heads.contains(c) ==> exists|k: int| 0 <= k < sol.len() && #[trigger] t.has(sol[k], c)
}

/// No two rows of `sol` share a column.
pub open spec fn disjoint(t: MatrixState, sol: Seq<int>) -> bool {
    forall|k1: int, k2: int, c: int|
        0 <= k1 < sol.len() && 0 <= k2 < sol.len() && k1 != k2 ==> !(#[trigger] t.has(sol[k1], c)
            && #[trigger] t.has(sol[k2], c))
}

/// `sol` (matrix rows) is an exact cover of the live columns of `t`: each
/// row is linked into a live column, each live column has an entry in one
/// of the rows, and no two of the rows share a column.
#[verifier::opaque]
pub open spec fn exact_cover(t: MatrixState, sol: Seq<int>) -> bool {
    &&& rows_live(t, sol)
    &&& covers_all(t, sol)
    &&& disjoint(t, sol)
}

/// `c` is the live column of `t` with the fewest rows, the first in ring
/// (ascending) order among equals.
pub open spec fn min_size(t: MatrixState, c: int) -> bool {
    &&& t.heads.contains(c)
    &&& forall|d: int| #[trigger] t.heads.contains(d) ==> t.size(c) <= t.size(d)
    &&& forall|d: int| #[trigger] t.heads.contains(d) && d < c ==> t.size(c) < t.size(d)
}

/// The live column with the fewest rows, the first in ring order among
/// equals; 0 when no column is live.
pub fn min_column(m: &DancingMatrix) -> (c: usize)
    requires
        m.inv(),
        m@.wf(),
    ensures
        c == 0 <==> m@.heads.is_empty(),
        c != 0 ==> min_size(m@, c as int),
{
    proof {
        lemma_header_facts(m@);
    }
    let cols = m.cols();
    let mut best: usize = 0;
    let mut best_size: usize = 0;
    let mut c = m.root().right();
    while c != 0
        invariant
            m.inv(),
            cols == m@.cols(),
            forall|z: int| #[trigger]
                m@.heads.contains(z) ==> is_succ(m@.heads, z, m@.links(0, z).right as int)
                    && m@.grid[0][z] is ColumnNode,
            c < cols,
            c != 0 ==> m@.heads.contains(c as int),
            forall|z: int| #[trigger] m@.heads.contains(z) ==> 1 <= z < cols,
            c != 0 ==> forall|z: int| #[trigger] m@.heads.contains(z) && z < c ==> best != 0,
            c == 0 ==> (best == 0 <==> m@.heads.is_empty()),
            best != 0 ==> m@.heads.contains(best as int) && best_size == m@.size(best as int) && best < (if c
                == 0 {
                cols
            } else {
                c
            }),
            best != 0 ==> forall|d: int| #[trigger]
                m@.heads.contains(d) && d < (if c == 0 {
                    cols
                } else {
                    c
                }) ==> best_size <= m@.size(d),
            best != 0 ==> forall|d: int| #[trigger] m@.heads.contains(d) && d < best ==> best_size < m@.size(d),
            best == 0 && c != 0 ==> forall|z: int| #[trigger] m@.heads.contains(z) ==> z >= c,
        decreases (if c == 0 {
            0
        } else {
            cols - c
        }),
    {
        let n = m.get(0, c);
        let size = n.len();
        if best == 0 || size < best_size {
            best = c;
            best_size = size;
        }
        let next = n.right();
        proof {
            assert(is_succ(m@.heads, c as int, next as int));
        }
        c = next;
    }
    best
}

pub open spec fn as_rows(v: Seq<usize>) -> Seq<int> {
    v.map_values(|x: usize| x as int)
}

proof fn lemma_lift_rows(t: MatrixState, tk: MatrixState, c: int, r: int, rest: Seq<int>)
    requires
        t.heads.contains(c),
        t.live.contains((r, c)),
        tk.heads.subset_of(t.heads),
        tk.live.subset_of(t.live),
        rows_live(tk, rest),
    ensures
        rows_live(t, seq![r].add(rest)),
{
    let sol = seq![r].add(rest);
    assert forall|k: int| 0 <= k < sol.len() implies row_live(t, #[trigger] sol[k]) by {
        if k == 0 {
            assert(t.heads.contains(c) && t.live.contains((sol[k], c)));
        } else {
            assert(rest[k - 1] == sol[k]);
            let c2 = choose|c2: int| #[trigger] tk.heads.contains(c2) && tk.live.contains((rest[k - 1], c2));
            assert(t.heads.contains(c2) && t.live.contains((sol[k], c2)));
        }
    }
}

proof fn lemma_lift_cover(t: MatrixState, tk: MatrixState, r: int, rest: Seq<int>)
    requires
        tk.heads == t.heads.difference(t.in_row(r)),
        forall|x: int, y: int| #[trigger] tk.has(x, y) == t.has(x, y),
        covers_all(tk, rest),
    ensures
        covers_all(t, seq![r].add(rest)),
{
    let sol = seq![r].add(rest);
    assert forall|c2: int| #[trigger]
        t.heads.contains(c2) implies exists|k: int| 0 <= k < sol.len() && #[trigger] t.has(sol[k], c2) by {
        if t.has(r, c2) {
            assert(t.has(sol[0], c2));
        } else {
            assert(!t.in_row(r).contains(c2));
            assert(tk.heads.contains(c2));
            let k = choose|k: int| 0 <= k < rest.len() && #[trigger] tk.has(rest[k], c2);
            assert(sol[k + 1] == rest[k]);
            assert(t.has(sol[k + 1], c2));
        }
    }
}

proof fn lemma_lift_disjoint(t: MatrixState, tk: MatrixState, r: int, rest: Seq<int>)
    requires
        tk.heads == t.heads.difference(t.in_row(r)),
        tk.rows_clean(),
        forall|x: int, y: int| #[trigger] tk.has(x, y) == t.has(x, y),
        rows_live(tk, rest),
        disjoint(tk, rest),
    ensures
        disjoint(t, seq![r].add(rest)),
{
    let sol = seq![r].add(rest);
    assert forall|k1: int, k2: int, c2: int|
        0 <= k1 < sol.len() && 0 <= k2 < sol.len() && k1 != k2 implies !(#[trigger] t.has(sol[k1], c2)
        && #[trigger] t.has(sol[k2], c2)) by {
        if k1 > 0 && k2 > 0 {
            assert(sol[k1] == rest[k1 - 1]);
            assert(sol[k2] == rest[k2 - 1]);
            assert(!(tk.has(rest[k1 - 1], c2) && tk.has(rest[k2 - 1], c2)));
        } else {
            let k = if k1 == 0 {
                k2
            } else {
                k1
            };
            assert(sol[k] == rest[k - 1]);
            let c3 = choose|c3: int| #[trigger] tk.heads.contains(c3) && tk.live.contains((rest[k - 1], c3));
            if t.has(r, c2) && t.has(rest[k - 1], c2) {
                assert(tk.has(rest[k - 1], c2));
                assert(tk.heads.contains(c2));
                assert(t.in_row(r).contains(c2));
            }
        }
    }
}

/// Choosing row `r` of live column `c` and covering every column of `r`
/// turns an exact cover of what is left into one of the whole.
proof fn lemma_lift(t: MatrixState, tk: MatrixState, c: int, r: int, rest: Seq<int>)
    requires
        t.heads.contains(c),
        t.live.contains((r, c)),
        t.has(r, c),
        tk.heads == t.heads.difference(t.in_row(r)),
        tk.live.subset_of(t.live),
        tk.rows_clean(),
        forall|x: int, y: int| #[trigger] tk.has(x, y) == t.has(x, y),
        exact_cover(tk, rest),
    ensures
        exact_cover(t, seq![r].add(rest)),
{
    reveal(exact_cover);
    lemma_lift_rows(t, tk, c, r, rest);
    lemma_lift_cover(t, tk, r, rest);
    lemma_lift_disjoint(t, tk, r, rest);
}

proof fn lemma_clean_at(t: MatrixState, r: int, c: int, d: int)
    requires
        t.rows_clean(),
        t.heads.contains(c),
        t.live.contains((r, c)),
        t.has(r, d),
    ensures
        t.heads.contains(d),
{
}

/// Lifts what the search of a branch reported to the state before the
/// branch's column was covered.
proof fn lemma_lift_found(
    t: MatrixState,
    tk: MatrixState,
    c: int,
    r: int,
    cur0: Seq<usize>,
    cur1: Seq<usize>,
    before: Seq<Vec<usize>>,
    after: Seq<Vec<usize>>,
)
    requires
        t.heads.contains(c),
        t.live.contains((r, c)),
        t.has(r, c),
        tk.heads == t.heads.difference(t.in_row(r)),
        tk.live.subset_of(t.live),
        tk.rows_clean(),
        forall|x: int, y: int| #[trigger] tk.has(x, y) == t.has(x, y),
        cur1 == cur0.push(r as usize),
        0 <= r <= usize::MAX,
        after.len() >= before.len(),
        forall|k: int|
            before.len() <= k < after.len() ==> {
                &&& cur1.len() <= (#[trigger] after[k])@.len()
                &&& after[k]@.subrange(0, cur1.len() as int) == cur1
                &&& exact_cover(tk, as_rows(after[k]@.subrange(cur1.len() as int, after[k]@.len() as int)))
            },
    ensures
        forall|k: int|
            before.len() <= k < after.len() ==> {
                &&& cur0.len() <= (#[trigger] after[k])@.len()
                &&& after[k]@.subrange(0, cur0.len() as int) == cur0
                &&& exact_cover(t, as_rows(after[k]@.subrange(cur0.len() as int, after[k]@.len() as int)))
            },
{
    assert forall|k: int| before.len() <= k < after.len() implies {
        &&& cur0.len() <= (#[trigger] after[k])@.len()
        &&& after[k]@.subrange(0, cur0.len() as int) == cur0
        &&& exact_cover(t, as_rows(after[k]@.subrange(cur0.len() as int, after[k]@.len() as int)))
    } by {
        let w = after[k]@;
        let l0 = cur0.len() as int;
        let rest = as_rows(w.subrange(l0 + 1, w.len() as int));
        assert(w.subrange(0, l0 + 1) == cur1);
        assert(w.subrange(0, l0) =~= cur1.subrange(0, l0));
        assert(cur1.subrange(0, l0) =~= cur0);
        assert(cur1[l0] == r as usize);
        assert(w.subrange(0, l0 + 1)[l0] == w[l0]);
        lemma_lift(t, tk, c, r, rest);
        assert(as_rows(w.subrange(l0, w.len() as int)) =~= seq![r].add(rest));
    }
}

/// Row `x` shares no column with row `r`.
pub open spec fn avoids(t: MatrixState, r: int, x: int) -> bool {
    forall|j: int| #[trigger] t.has(r, j) ==> !t.has(x, j)
}

proof fn lemma_rest_avoids(t: MatrixState, sol: Seq<int>, q: int)
    requires
        disjoint(t, sol),
        0 <= q < sol.len(),
    ensures
        forall|k: int| 0 <= k < sol.remove(q).len() ==> avoids(t, sol[q], #[trigger] sol.remove(q)[k]),
{
    let rest = sol.remove(q);
    let r = sol[q];
    assert forall|k: int| 0 <= k < rest.len() implies avoids(t, r, #[trigger] rest[k]) by {
        let k0 = if k < q {
            k
        } else {
            k + 1
        };
        assert(rest[k] == sol[k0]);
        assert forall|j: int| #[trigger] t.has(r, j) implies !t.has(rest[k], j) by {
            assert(!(t.has(sol[q], j) && t.has(sol[k0], j)));
        }
    }
}

proof fn lemma_rest_live(t: MatrixState, tk: MatrixState, sol: Seq<int>, q: int)
    requires
        rows_live(t, sol),
        0 <= q < sol.len(),
        forall|p: (int, int)| #[trigger] t.live.contains(p) ==> t.has(p.0, p.1),
        forall|k: int| 0 <= k < sol.remove(q).len() ==> avoids(t, sol[q], #[trigger] sol.remove(q)[k]),
        tk.heads == t.heads.difference(t.in_row(sol[q])),
        forall|x: int, y: int|
            t.live.contains((x, y)) && avoids(t, sol[q], x) ==> #[trigger] tk.live.contains((x, y)),
    ensures
        rows_live(tk, sol.remove(q)),
{
    let rest = sol.remove(q);
    let r = sol[q];
    assert forall|k: int| 0 <= k < rest.len() implies row_live(tk, #[trigger] rest[k]) by {
        let k0 = if k < q {
            k
        } else {
            k + 1
        };
        assert(rest[k] == sol[k0]);
        assert(avoids(t, r, rest[k]));
        assert(row_live(t, sol[k0]));
        let c = choose|c: int| #[trigger] t.heads.contains(c) && t.live.contains((sol[k0], c));
        assert(t.has(sol[k0], c));
        assert(!t.has(r, c));
        assert(!t.in_row(r).contains(c));
        assert(tk.heads.contains(c));
        assert(tk.live.contains((rest[k], c)));
    }
    assert(rows_live(tk, rest));
}

proof fn lemma_rest_covers(t: MatrixState, tk: MatrixState, sol: Seq<int>, q: int)
    requires
        covers_all(t, sol),
        disjoint(t, sol),
        0 <= q < sol.len(),
        tk.heads == t.heads.difference(t.in_row(sol[q])),
        forall|x: int, y: int| #[trigger] tk.has(x, y) == t.has(x, y),
    ensures
        covers_all(tk, sol.remove(q)),
        disjoint(tk, sol.remove(q)),
{
    let rest = sol.remove(q);
    let r = sol[q];
    assert forall|c: int| #[trigger]
        tk.heads.contains(c) implies exists|k: int| 0 <= k < rest.len() && #[trigger] tk.has(rest[k], c) by {
        assert(t.heads.contains(c));
        assert(!t.in_row(r).contains(c));
        let k0 = choose|k: int| 0 <= k < sol.len() && #[trigger] t.has(sol[k], c);
        assert(k0 != q);
        let k = if k0 < q {
            k0
        } else {
            k0 - 1
        };
        assert(rest[k] == sol[k0]);
        assert(tk.has(rest[k], c));
    }
    assert forall|k1: int, k2: int, c: int|
        0 <= k1 < rest.len() && 0 <= k2 < rest.len() && k1 != k2 implies !(#[trigger] tk.has(rest[k1], c)
        && #[trigger] tk.has(rest[k2], c)) by {
        let a = if k1 < q {
            k1
        } else {
            k1 + 1
        };
        let b = if k2 < q {
            k2
        } else {
            k2 + 1
        };
        assert(rest[k1] == sol[a]);
        assert(rest[k2] == sol[b]);
        assert(!(t.has(sol[a], c) && t.has(sol[b], c)));
    }
}

/// What is left of an exact cover once its row `sol[q]` is chosen and its
/// columns covered is an exact cover of what is left of the matrix.
proof fn lemma_rest_cover(t: MatrixState, tk: MatrixState, sol: Seq<int>, q: int)
    requires
        exact_cover(t, sol),
        t.wf(),
        0 <= q < sol.len(),
        tk.heads == t.heads.difference(t.in_row(sol[q])),
        forall|x: int, y: int| #[trigger] tk.has(x, y) == t.has(x, y),
        forall|x: int, y: int|
            t.live.contains((x, y)) && avoids(t, sol[q], x) ==> #[trigger] tk.live.contains((x, y)),
    ensures
        exact_cover(tk, sol.remove(q)),
{
    lemma_exact_parts(t, sol);
    crate::dlink::lemma_live_has(t);
    lemma_rest_avoids(t, sol, q);
    lemma_rest_live(t, tk, sol, q);
    lemma_rest_covers(t, tk, sol, q);
    reveal(exact_cover);
}

/// The rows of a reported entry after its first `plen` items.
pub open spec fn rows_after(e: Vec<usize>, plen: int) -> Set<int> {
    as_rows(e@.subrange(plen, e@.len() as int)).to_set()
}

/// Some entry of `found` from index `from` on holds, after its first
/// `plen` items, exactly the rows of `sol`.
#[verifier::opaque]
pub open spec fn reported(found: Seq<Vec<usize>>, from: int, plen: int, sol: Seq<int>) -> bool {
    exists|k: int| 0 <= from <= k < found.len() && rows_after(#[trigger] found[k], plen) == sol.to_set()
}

/// Every exact cover of `t` is reported.
#[verifier::opaque]
pub open spec fn all_reported(t: MatrixState, found: Seq<Vec<usize>>, from: int, plen: int) -> bool {
    forall|sol: Seq<int>| #[trigger] exact_cover(t, sol) ==> reported(found, from, plen, sol)
}

/// Every exact cover of `t` that holds row `r` is reported.
#[verifier::opaque]
pub open spec fn reported_with(t: MatrixState, r: int, found: Seq<Vec<usize>>, from: int, plen: int) -> bool {
    forall|sol: Seq<int>, q: int|
        #![trigger exact_cover(t, sol), sol[q]]
        exact_cover(t, sol) && 0 <= q < sol.len() && sol[q] == r ==> reported(found, from, plen, sol)
}

/// Every exact cover of `t` whose row in column `c` comes before row `r`
/// (all of them when `r` is 0) is reported.
#[verifier::opaque]
pub open spec fn reported_before(t: MatrixState, c: int, r: int, found: Seq<Vec<usize>>, from: int, plen: int) -> bool {
    forall|sol: Seq<int>, q: int|
        #![trigger exact_cover(t, sol), sol[q]]
        exact_cover(t, sol) && 0 <= q < sol.len() && t.has(sol[q], c) && (r == 0 || sol[q] < r) ==> reported(
            found,
            from,
            plen,
            sol,
        )
}

/// `f2` keeps the entries of `f1`.
pub open spec fn extends(f1: Seq<Vec<usize>>, f2: Seq<Vec<usize>>) -> bool {
    f1.len() <= f2.len() && forall|k: int| 0 <= k < f1.len() ==> #[trigger] f2[k] == f1[k]
}

proof fn lemma_reported_grows(f1: Seq<Vec<usize>>, f2: Seq<Vec<usize>>, from: int, plen: int, sol: Seq<int>)
    requires
        extends(f1, f2),
        reported(f1, from, plen, sol),
    ensures
        reported(f2, from, plen, sol),
{
    reveal(reported);
    let k = choose|k: int| 0 <= from <= k < f1.len() && rows_after(#[trigger] f1[k], plen) == sol.to_set();
    assert(f2[k] == f1[k]);
}

proof fn lemma_before_grows(t: MatrixState, c: int, r: int, f1: Seq<Vec<usize>>, f2: Seq<Vec<usize>>, from: int, plen: int)
    requires
        extends(f1, f2),
        reported_before(t, c, r, f1, from, plen),
    ensures
        reported_before(t, c, r, f2, from, plen),
{
    reveal(reported_before);
    assert forall|sol: Seq<int>, q: int|
        #![trigger exact_cover(t, sol), sol[q]]
        exact_cover(t, sol) && 0 <= q < sol.len() && t.has(sol[q], c) && (r == 0 || sol[q] < r) implies reported(
            f2,
            from,
            plen,
            sol,
        ) by {
        lemma_reported_grows(f1, f2, from, plen, sol);
    }
}

/// The row of an exact cover in a live column is linked into it.
proof fn lemma_cover_row_in_col(t: MatrixState, sol: Seq<int>, q: int, c: int)
    requires
        t.wf(),
        t.rows_whole(),
        exact_cover(t, sol),
        0 <= q < sol.len(),
        t.has(sol[q], c),
    ensures
        t.in_col(c).contains(sol[q]),
{
    lemma_exact_parts(t, sol);
    assert(row_live(t, sol[q]));
    let c0 = choose|c0: int| #[trigger] t.heads.contains(c0) && t.live.contains((sol[q], c0));
    assert(t.live.contains((sol[q], c)));
}

proof fn lemma_with_lower_from(t: MatrixState, r: int, found: Seq<Vec<usize>>, from: int, from2: int, plen: int)
    requires
        0 <= from2 <= from,
        reported_with(t, r, found, from, plen),
    ensures
        reported_with(t, r, found, from2, plen),
{
    reveal(reported_with);
    assert forall|sol: Seq<int>, q: int|
        #![trigger exact_cover(t, sol), sol[q]]
        exact_cover(t, sol) && 0 <= q < sol.len() && sol[q] == r implies reported(found, from2, plen, sol) by {
        reveal(reported);
        assert(reported(found, from, plen, sol));
        let k = choose|k: int| 0 <= from <= k < found.len() && rows_after(#[trigger] found[k], plen) == sol.to_set();
    }
}

proof fn lemma_before_start(t: MatrixState, c: int, r: int, found: Seq<Vec<usize>>, from: int, plen: int)
    requires
        t.wf(),
        t.rows_whole(),
        is_succ(t.in_col(c), 0, r),
    ensures
        reported_before(t, c, r, found, from, plen),
{
    reveal(reported_before);
    assert forall|sol: Seq<int>, q: int|
        #![trigger exact_cover(t, sol), sol[q]]
        exact_cover(t, sol) && 0 <= q < sol.len() && t.has(sol[q], c) && (r == 0 || sol[q] < r) implies reported(
            found,
            from,
            plen,
            sol,
        ) by {
        lemma_cover_row_in_col(t, sol, q, c);
        crate::dlink::lemma_live_has(t);
        assert(t.live.contains((sol[q], c)));
    }
}

proof fn lemma_before_step(t: MatrixState, c: int, r: int, next: int, found: Seq<Vec<usize>>, from: int, plen: int)
    requires
        t.wf(),
        t.rows_whole(),
        r > 0,
        reported_before(t, c, r, found, from, plen),
        reported_with(t, r, found, from, plen),
        is_succ(t.in_col(c), r, next),
    ensures
        reported_before(t, c, next, found, from, plen),
{
    reveal(reported_before);
    reveal(reported_with);
    assert forall|sol: Seq<int>, q: int|
        #![trigger exact_cover(t, sol), sol[q]]
        exact_cover(t, sol) && 0 <= q < sol.len() && t.has(sol[q], c) && (next == 0 || sol[q] < next) implies reported(
            found,
            from,
            plen,
            sol,
        ) by {
        lemma_cover_row_in_col(t, sol, q, c);
        if sol[q] > r {
            assert(t.in_col(c).contains(sol[q]));
        }
    }
}

proof fn lemma_before_end(t: MatrixState, c: int, found: Seq<Vec<usize>>, from: int, plen: int)
    requires
        t.heads.contains(c),
        reported_before(t, c, 0, found, from, plen),
    ensures
        all_reported(t, found, from, plen),
{
    reveal(reported_before);
    reveal(all_reported);
    assert forall|sol: Seq<int>| #[trigger] exact_cover(t, sol) implies reported(found, from, plen, sol) by {
        lemma_exact_parts(t, sol);
        let q = choose|q: int| 0 <= q < sol.len() && #[trigger] t.has(sol[q], c);
    }
}

proof fn lemma_no_rows_all(t: MatrixState, c: int, found: Seq<Vec<usize>>, from: int, plen: int)
    requires
        t.wf(),
        t.rows_whole(),
        t.heads.contains(c),
        t.size(c) == 0,
    ensures
        all_reported(t, found, from, plen),
{
    reveal(all_reported);
    assert forall|sol: Seq<int>| #[trigger] exact_cover(t, sol) implies reported(found, from, plen, sol) by {
        lemma_cover_needs_rows(t, sol);
    }
}

proof fn lemma_empty_all(t: MatrixState, found: Seq<Vec<usize>>, from: int, plen: int)
    requires
        t.heads.is_empty(),
        0 <= from < found.len(),
        found[from]@.len() == plen,
    ensures
        all_reported(t, found, from, plen),
{
    reveal(all_reported);
    assert forall|sol: Seq<int>| #[trigger] exact_cover(t, sol) implies reported(found, from, plen, sol) by {
        lemma_exact_parts(t, sol);
        if sol.len() > 0 {
            assert(row_live(t, sol[0]));
            let c = choose|c: int| #[trigger] t.heads.contains(c) && t.live.contains((sol[0], c));
            assert(t.heads.contains(c));
        }
        assert(sol.to_set() =~= Set::empty());
        assert(found[from]@.subrange(plen, plen) =~= Seq::<usize>::empty());
        assert(as_rows(found[from]@.subrange(plen, plen)).to_set() =~= Set::empty());
        reveal(reported);
        assert(rows_after(found[from], plen) == sol.to_set());
    }
}

proof fn lemma_set_after(e: Vec<usize>, plen: int, r: int)
    requires
        0 <= plen < e@.len(),
        e@[plen] as int == r,
    ensures
        rows_after(e, plen) == rows_after(e, plen + 1).insert(r),
{
    let a = as_rows(e@.subrange(plen, e@.len() as int));
    let b = as_rows(e@.subrange(plen + 1, e@.len() as int));
    assert(a =~= seq![r].add(b));
    assert forall|x: int| a.to_set().contains(x) <==> b.to_set().insert(r).contains(x) by {
        if a.contains(x) {
            let i = choose|i: int| 0 <= i < a.len() && a[i] == x;
            if i > 0 {
                assert(b[i - 1] == x);
            }
        }
        if b.contains(x) {
            let i = choose|i: int| 0 <= i < b.len() && b[i] == x;
            assert(a[i + 1] == x);
        }
        if x == r {
            assert(a[0] == x);
        }
    }
    assert(a.to_set() =~= b.to_set().insert(r));
}

proof fn lemma_set_remove(sol: Seq<int>, q: int)
    requires
        0 <= q < sol.len(),
    ensures
        sol.to_set() == sol.remove(q).to_set().insert(sol[q]),
{
    let rest = sol.remove(q);
    assert forall|x: int| sol.to_set().contains(x) <==> rest.to_set().insert(sol[q]).contains(x) by {
        if sol.contains(x) && x != sol[q] {
            let i = choose|i: int| 0 <= i < sol.len() && sol[i] == x;
            if i < q {
                assert(rest[i] == x);
            } else {
                assert(rest[i - 1] == x);
            }
        }
        if rest.contains(x) {
            let i = choose|i: int| 0 <= i < rest.len() && rest[i] == x;
            if i < q {
                assert(sol[i] == x);
            } else {
                assert(sol[i + 1] == x);
            }
        }
        if x == sol[q] {
            assert(sol.contains(x));
        }
    }
    assert(sol.to_set() =~= rest.to_set().insert(sol[q]));
}

/// Every exact cover of the branch's matrix reported after the prefix
/// ending in `r` gives every exact cover of `t` that holds `r`.
proof fn lemma_with_from_rest(t: MatrixState, tk: MatrixState, r: int, found: Seq<Vec<usize>>, from: int, plen: int)
    requires
        t.wf(),
        0 <= plen,
        all_reported(tk, found, from, plen + 1),
        forall|k: int|
            from <= k < found.len() ==> plen + 1 <= (#[trigger] found[k])@.len() && found[k]@[plen] as int == r,
        tk.heads == t.heads.difference(t.in_row(r)),
        forall|x: int, y: int| #[trigger] tk.has(x, y) == t.has(x, y),
        forall|x: int, y: int| t.live.contains((x, y)) && avoids(t, r, x) ==> #[trigger] tk.live.contains((x, y)),
    ensures
        reported_with(t, r, found, from, plen),
{
    reveal(reported_with);
    assert forall|sol: Seq<int>, q: int|
        #![trigger exact_cover(t, sol), sol[q]]
        exact_cover(t, sol) && 0 <= q < sol.len() && sol[q] == r implies reported(found, from, plen, sol) by {
        lemma_rest_cover(t, tk, sol, q);
        let rest = sol.remove(q);
        reveal(all_reported);
        assert(exact_cover(tk, rest));
        assert(reported(found, from, plen + 1, rest));
        reveal(reported);
        let k = choose|k: int| 0 <= from <= k < found.len() && rows_after(#[trigger] found[k], plen + 1) == rest.to_set();
        lemma_set_after(found[k], plen, r);
        lemma_set_remove(sol, q);
        assert(rows_after(found[k], plen) == sol.to_set());
    }
}

/// No two entries of `found` from index `from` on hold, after their first
/// `plen` items, the same set of rows.
#[verifier::opaque]
pub open spec fn distinct_sets(found: Seq<Vec<usize>>, from: int, plen: int) -> bool {
    forall|k1: int, k2: int|
        from <= k1 < k2 < found.len() ==> rows_after(#[trigger] found[k1], plen) != rows_after(#[trigger] found[k2], plen)
}

proof fn lemma_row_not_in_rest(t: MatrixState, tk: MatrixState, r: int, e: Vec<usize>, plen: int)
    requires
        0 <= plen <= e@.len(),
        exact_cover(tk, as_rows(e@.subrange(plen, e@.len() as int))),
        forall|p: (int, int)| #[trigger] tk.live.contains(p) ==> tk.has(p.0, p.1),
        tk.heads == t.heads.difference(t.in_row(r)),
        forall|x: int, y: int| #[trigger] tk.has(x, y) == t.has(x, y),
    ensures
        !rows_after(e, plen).contains(r),
{
    let a = as_rows(e@.subrange(plen, e@.len() as int));
    lemma_exact_parts(tk, a);
    if a.contains(r) {
        let i = choose|i: int| 0 <= i < a.len() && a[i] == r;
        assert(row_live(tk, a[i]));
        let c0 = choose|c0: int| #[trigger] tk.heads.contains(c0) && tk.live.contains((a[i], c0));
        assert(tk.has(r, c0));
        assert(t.in_row(r).contains(c0));
    }
}

proof fn lemma_distinct_branch(t: MatrixState, tk: MatrixState, r: int, found: Seq<Vec<usize>>, from: int, plen: int)
    requires
        0 <= plen,
        distinct_sets(found, from, plen + 1),
        forall|k: int|
            from <= k < found.len() ==> plen + 1 <= (#[trigger] found[k])@.len() && found[k]@[plen] as int == r
                && exact_cover(tk, as_rows(found[k]@.subrange(plen + 1, found[k]@.len() as int))),
        forall|p: (int, int)| #[trigger] tk.live.contains(p) ==> tk.has(p.0, p.1),
        tk.heads == t.heads.difference(t.in_row(r)),
        forall|x: int, y: int| #[trigger] tk.has(x, y) == t.has(x, y),
    ensures
        distinct_sets(found, from, plen),
{
    reveal(distinct_sets);
    assert forall|k1: int, k2: int|
        from <= k1 < k2 < found.len() implies rows_after(#[trigger] found[k1], plen) != rows_after(#[trigger] found[k2], plen) by {
        lemma_set_after(found[k1], plen, r);
        lemma_set_after(found[k2], plen, r);
        lemma_row_not_in_rest(t, tk, r, found[k1], plen + 1);
        lemma_row_not_in_rest(t, tk, r, found[k2], plen + 1);
        let a = rows_after(found[k1], plen + 1);
        let b = rows_after(found[k2], plen + 1);
        if a.insert(r) == b.insert(r) {
            assert(a =~= a.insert(r).remove(r));
            assert(b =~= b.insert(r).remove(r));
        }
    }
}

/// The row that entry `e` chose first, in column `c`.
pub open spec fn first_row_in(t: MatrixState, e: Vec<usize>, plen: int, c: int) -> bool {
    plen < e@.len() && t.has(e@[plen] as int, c)
}

proof fn lemma_distinct_join(t: MatrixState, c: int, fb: Seq<Vec<usize>>, fa: Seq<Vec<usize>>, from: int, plen: int, r: int)
    requires
        0 <= plen,
        0 <= from <= fb.len(),
        extends(fb, fa),
        distinct_sets(fb, from, plen),
        distinct_sets(fa, fb.len() as int, plen),
        forall|k: int|
            from <= k < fb.len() ==> first_row_in(t, #[trigger] fb[k], plen, c) && (fb[k]@[plen] as int) < r
                && exact_cover(t, as_rows(fb[k]@.subrange(plen, fb[k]@.len() as int))),
        forall|k: int| fb.len() <= k < fa.len() ==> plen < (#[trigger] fa[k])@.len() && fa[k]@[plen] as int == r,
        t.has(r, c),
    ensures
        distinct_sets(fa, from, plen),
{
    reveal(distinct_sets);
    assert forall|k1: int, k2: int|
        from <= k1 < k2 < fa.len() implies rows_after(#[trigger] fa[k1], plen) != rows_after(#[trigger] fa[k2], plen) by {
        if k2 < fb.len() {
            assert(fa[k1] == fb[k1] && fa[k2] == fb[k2]);
        } else if k1 >= fb.len() {
        } else {
            assert(fa[k1] == fb[k1]);
            let e1 = fb[k1];
            let s1 = as_rows(e1@.subrange(plen, e1@.len() as int));
            let s2 = as_rows(fa[k2]@.subrange(plen, fa[k2]@.len() as int));
            assert(s2[0] == r);
            assert(s1[0] == e1@[plen] as int);
            if rows_after(e1, plen) == rows_after(fa[k2], plen) {
                assert(s2.to_set().contains(r));
                assert(s1.contains(r));
                let i = choose|i: int| 0 <= i < s1.len() && s1[i] == r;
                lemma_exact_parts(t, s1);
                assert(i != 0);
                assert(t.has(s1[0], c) && t.has(s1[i], c));
            }
        }
    }
}

/// The matrix invariants that the search keeps.
pub open spec fn searchable(t: MatrixState) -> bool {
    &&& t.wf()
    &&& t.rows_whole()
    &&& t.rows_clean()
}

/// Algorithm X. Reports, by appending `current` followed by the chosen rows
/// to `found`, each exact cover of the live columns once, and counts it;
/// stops once `count` reaches `max` (0: no bound), and otherwise reports
/// every exact cover. Picks the live column with the
/// fewest rows; a live column with no rows ends the branch. Leaves the
/// matrix as it found it.
pub fn search(
    m: &mut DancingMatrix,
    current: &mut Vec<usize>,
    found: &mut Vec<Vec<usize>>,
    count: &mut usize,
    max: usize,
)
    requires
        old(m).inv(),
        searchable(old(m)@),
        frames_ok(old(m)@, old(m).frames()),
    ensures
        final(m).inv(),
        final(m)@ == old(m)@,
        final(m).frames() == old(m).frames(),
        final(current)@ == old(current)@,
        *final(count) >= *old(count),
        final(found)@.len() == old(found)@.len() + (*final(count) - *old(count)),
        max != 0 && *old(count) <= max ==> *final(count) <= max,
        forall|k: int| 0 <= k < old(found)@.len() ==> #[trigger] final(found)@[k] == old(found)@[k],
        forall|k: int|
            old(found)@.len() <= k < final(found)@.len() ==> {
                &&& old(current)@.len() <= (#[trigger] final(found)@[k])@.len()
                &&& final(found)@[k]@.subrange(0, old(current)@.len() as int) == old(current)@
                &&& exact_cover(
                    old(m)@,
                    as_rows(final(found)@[k]@.subrange(old(current)@.len() as int, final(found)@[k]@.len() as int)),
                )
            },
        distinct_sets(final(found)@, old(found)@.len() as int, old(current)@.len() as int),
        (max == 0 || *final(count) < max) && *final(count) < usize::MAX ==> all_reported(
            old(m)@,
            final(found)@,
            old(found)@.len() as int,
            old(current)@.len() as int,
        ),
    decreases old(m)@.heads.len(), 1nat,
{
    if max != 0 && *count >= max {
        proof {
            reveal(distinct_sets);
        }
        return ;
    }
    if *count == usize::MAX {
        proof {
            reveal(distinct_sets);
        }
        return ;
    }
    let ghost t = m@;
    let ghost f0 = m.frames();
    proof {
        m.lemma_shape();
        lemma_heads_finite(t);
    }
    let c = min_column(m);
    if c == 0 {
        let ghost before = found@;
        found.push(current.clone());
        *count = *count + 1;
        proof {
            let k = before.len() as int;
            assert(found@[k]@ == current@);
            assert(found@[k]@.subrange(0, current@.len() as int) =~= current@);
            assert(as_rows(found@[k]@.subrange(current@.len() as int, found@[k]@.len() as int)) =~= Seq::<int>::empty());
            reveal(exact_cover);
            lemma_empty_all(t, found@, k, current@.len() as int);
            reveal(distinct_sets);
        }
        return ;
    }
    proof {
        lemma_header_facts(t);
    }
    let size = m.get(0, c).len();
    if size == 0 {
        proof {
            lemma_no_rows_all(t, c as int, found@, found@.len() as int, current@.len() as int);
            reveal(distinct_sets);
        }
        return ;
    }
    m.coverCol(c);
    let ghost t1 = m@;
    let ghost f1 = m.frames();
    proof {
        lemma_covered_basic(t, t1, c as int, cover_set(t, c as int));
        lemma_col_head(t1, c as int);
    }
    let mut r = m.get(0, c).down();
    proof {
        lemma_before_start(t, c as int, r as int, found@, found@.len() as int, current@.len() as int);
        reveal(distinct_sets);
    }
    while r != 0
        invariant
            m.inv(),
            m@ == t1,
            m.frames() == f1,
            f1 == f0.push((c as int, t)),
            t == old(m)@,
            searchable(t),
            searchable(t1),
            frames_ok(t1, f1),
            covered_part(t, t1, c as int, cover_set(t, c as int)),
            t1.in_col(c as int) == t.in_col(c as int),
            t.heads.contains(c as int),
            t.heads.finite(),
            t1.heads == t.heads.remove(c as int),
            t1.live == t.live.difference(cover_set(t, c as int)),
            r < t.rows(),
            r != 0 ==> t.in_col(c as int).contains(r as int),
            current@ == old(current)@,
            *count >= *old(count),
            found@.len() == old(found)@.len() + (*count - *old(count)),
            max != 0 && *old(count) <= max ==> *count <= max,
            forall|k: int| 0 <= k < old(found)@.len() ==> #[trigger] found@[k] == old(found)@[k],
            forall|k: int|
                old(found)@.len() <= k < found@.len() ==> {
                    &&& old(current)@.len() <= (#[trigger] found@[k])@.len()
                    &&& found@[k]@.subrange(0, old(current)@.len() as int) == old(current)@
                    &&& exact_cover(
                        t,
                        as_rows(found@[k]@.subrange(old(current)@.len() as int, found@[k]@.len() as int)),
                    )
                },
            distinct_sets(found@, old(found)@.len() as int, old(current)@.len() as int),
            forall|k: int|
                old(found)@.len() <= k < found@.len() ==> first_row_in(
                    t,
                    #[trigger] found@[k],
                    old(current)@.len() as int,
                    c as int,
                ) && (r == 0 || (found@[k]@[old(current)@.len() as int] as int) < r),
            (max == 0 || *count < max) && *count < usize::MAX ==> reported_before(
                t,
                c as int,
                r as int,
                found@,
                old(found)@.len() as int,
                old(current)@.len() as int,
            ),
        decreases (if r == 0 {
            0
        } else {
            t.rows() - r
        }),
    {
        proof {
            lemma_live_has(t);
        }
        let ghost fb = found@;
        let ghost cb = *count;
        try_row(m, c, r, current, found, count, max, Ghost(t));
        proof {
            lemma_live_frame(t1, r as int, c as int);
        }
        let next = m.get(r, c).down();
        proof {
            let plen = old(current)@.len() as int;
            assert(extends(fb, found@));
            lemma_live_has(t);
            assert(t.has(r as int, c as int));
            assert forall|k: int|
                old(found)@.len() <= k < fb.len() implies first_row_in(t, #[trigger] fb[k], plen, c as int)
                    && (fb[k]@[plen] as int) < r && exact_cover(t, as_rows(fb[k]@.subrange(plen, fb[k]@.len() as int))) by {
                assert(found@[k] == fb[k]);
            }
            lemma_distinct_join(t, c as int, fb, found@, old(found)@.len() as int, plen, r as int);
            assert(is_succ(t.in_col(c as int), r as int, next as int));
            assert forall|k: int|
                old(found)@.len() <= k < found@.len() implies first_row_in(t, #[trigger] found@[k], plen, c as int)
                    && (next == 0 || (found@[k]@[plen] as int) < next) by {
                if k < fb.len() {
                    assert(found@[k] == fb[k]);
                }
            }
            if (max == 0 || *count < max) && *count < usize::MAX {
                lemma_before_grows(t, c as int, r as int, fb, found@, old(found)@.len() as int, old(current)@.len() as int);
                lemma_with_lower_from(t, r as int, found@, fb.len() as int, old(found)@.len() as int, old(current)@.len() as int);
                assert(next == t1.links(r as int, c as int).down);
                lemma_before_step(t, c as int, r as int, next as int, found@, old(found)@.len() as int, old(current)@.len() as int);
            }
        }
        r = next;
    }
    proof {
        if (max == 0 || *count < max) && *count < usize::MAX {
            lemma_before_end(t, c as int, found@, old(found)@.len() as int, old(current)@.len() as int);
        }
    }
    m.uncoverCol(c);
}

/// One branch of the search: row `r` of the covered column `c` is chosen,
/// its other columns are covered, the rest is searched, and the covers are
/// undone in reverse order.
fn try_row(
    m: &mut DancingMatrix,
    c: usize,
    r: usize,
    current: &mut Vec<usize>,
    found: &mut Vec<Vec<usize>>,
    count: &mut usize,
    max: usize,
    Ghost(t): Ghost<MatrixState>,
)
    requires
        old(m).inv(),
        searchable(t),
        searchable(old(m)@),
        frames_ok(old(m)@, old(m).frames()),
        covered_part(t, old(m)@, c as int, cover_set(t, c as int)),
        t.heads.finite(),
        t.heads.contains(c as int),
        t.live.contains((r as int, c as int)),
        old(m)@.heads == t.heads.remove(c as int),
        old(m)@.live == t.live.difference(cover_set(t, c as int)),
    ensures
        final(m).inv(),
        final(m)@ == old(m)@,
        final(m).frames() == old(m).frames(),
        final(current)@ == old(current)@,
        *final(count) >= *old(count),
        final(found)@.len() == old(found)@.len() + (*final(count) - *old(count)),
        max != 0 && *old(count) <= max ==> *final(count) <= max,
        forall|k: int| 0 <= k < old(found)@.len() ==> #[trigger] final(found)@[k] == old(found)@[k],
        forall|k: int|
            old(found)@.len() <= k < final(found)@.len() ==> {
                &&& old(current)@.len() <= (#[trigger] final(found)@[k])@.len()
                &&& final(found)@[k]@.subrange(0, old(current)@.len() as int) == old(current)@
                &&& exact_cover(
                    t,
                    as_rows(final(found)@[k]@.subrange(old(current)@.len() as int, final(found)@[k]@.len() as int)),
                )
            },
        distinct_sets(final(found)@, old(found)@.len() as int, old(current)@.len() as int),
        forall|k: int|
            old(found)@.len() <= k < final(found)@.len() ==> old(current)@.len() < (#[trigger] final(found)@[k])@.len()
                && final(found)@[k]@[old(current)@.len() as int] == r,
        (max == 0 || *final(count) < max) && *final(count) < usize::MAX ==> reported_with(
            t,
            r as int,
            final(found)@,
            old(found)@.len() as int,
            old(current)@.len() as int,
        ),
    decreases t.heads.len(), 0nat,
{
    let ghost t1 = m@;
    let ghost f1 = m.frames();
    let ghost rr = r as int;
    let ghost n = t.cols();
    let ghost ci = c as int;
        proof {
            lemma_covered_basic(t, t1, ci, cover_set(t, ci));
            lemma_live_frame(t1, rr, ci);
            lemma_live_has(t);
            assert(t.live.contains((rr, ci)));
            lemma_row_ring(t, rr, ci);
            lemma_key_next(t.in_row(rr), ci, ci, t.links(rr, ci).right as int, n);
            assert(t1.links(rr, ci).right == t.links(rr, ci).right);
        }
        let (covered, Ghost(states)) = cover_row(m, c, r, Ghost(t));
        let ghost row = t.in_row(rr);
        let ghost tk = m@;
        let ghost fk = m.frames();
        proof {
            assert(tk.heads =~= t.heads.difference(row));
            vstd::set_lib::lemma_len_subset(tk.heads, t.heads.remove(ci));
            assert(t.heads.remove(ci).len() == t.heads.len() - 1);
        }
        let ghost before = found@;
        let ghost cnt0 = *count;
        current.push(r);
        let ghost cur1 = current@;
        search(m, current, found, count, max);
        proof {
            lemma_lift_found(t, tk, ci, rr, old(current)@, cur1, before, found@);
            {
                let plen = old(current)@.len() as int;
                assert forall|k: int|
                    before.len() <= k < found@.len() implies plen + 1 <= (#[trigger] found@[k])@.len()
                        && found@[k]@[plen] as int == rr && exact_cover(
                        tk,
                        as_rows(found@[k]@.subrange(plen + 1, found@[k]@.len() as int)),
                    ) by {
                    assert(found@[k]@.subrange(0, cur1.len() as int)[plen] == cur1[plen]);
                }
                assert(tk.heads =~= t.heads.difference(row));
                lemma_live_has(tk);
                lemma_distinct_branch(t, tk, rr, found@, before.len() as int, plen);
            }
            if (max == 0 || *count < max) && *count < usize::MAX {
                let plen = old(current)@.len() as int;
                assert forall|k: int|
                    before.len() <= k < found@.len() implies plen + 1 <= (#[trigger] found@[k])@.len()
                        && found@[k]@[plen] as int == rr by {
                    assert(found@[k]@.subrange(0, cur1.len() as int)[plen] == cur1[plen]);
                }
                assert(tk.heads =~= t.heads.difference(row));
                lemma_with_from_rest(t, tk, rr, found@, before.len() as int, plen);
            }
        }
        current.pop();
        proof {
            assert(current@ =~= old(current)@);
        }
        uncover_all(m, covered, Ghost(states), Ghost(f1));
        proof {
            assert(m.frames() =~= f1);
        }
}


fn cover_row(m: &mut DancingMatrix, c: usize, r: usize, Ghost(t): Ghost<MatrixState>) -> (res: (
    Vec<usize>,
    Ghost<Seq<MatrixState>>,
))
    requires
        old(m).inv(),
        searchable(t),
        searchable(old(m)@),
        frames_ok(old(m)@, old(m).frames()),
        covered_part(t, old(m)@, c as int, cover_set(t, c as int)),
        t.heads.contains(c as int),
        t.live.contains((r as int, c as int)),
        old(m)@.heads == t.heads.remove(c as int),
        old(m)@.live == t.live.difference(cover_set(t, c as int)),
    ensures
        final(m).inv(),
        searchable(final(m)@),
        frames_ok(final(m)@, final(m).frames()),
        res.1@.len() == res.0@.len() + 1,
        res.1@[0] == old(m)@,
        final(m)@ == res.1@.last(),
        forall|k: int| 0 <= k < res.1@.len() ==> (#[trigger] res.1@[k]).cols() == t.cols(),
        forall|k: int| 0 <= k < res.0@.len() ==> 1 <= #[trigger] res.0@[k] < t.cols(),
        final(m).frames() == old(m).frames().add(
            Seq::new(res.0@.len() as nat, |k: int| (res.0@[k] as int, res.1@[k])),
        ),
        final(m)@.heads == t.heads.difference(t.in_row(r as int)),
        final(m)@.live.subset_of(t.live),
        forall|x: int, y: int| #[trigger] final(m)@.has(x, y) == t.has(x, y),
        forall|x: int, y: int|
            t.live.contains((x, y)) && avoids(t, r as int, x) ==> #[trigger] final(m)@.live.contains((x, y)),
{
    let ghost t1 = m@;
    let ghost f1 = m.frames();
    let ghost rr = r as int;
    let ghost n = t.cols();
    let ghost ci = c as int;
    proof {
        lemma_covered_basic(t, t1, ci, cover_set(t, ci));
        lemma_live_frame(t1, rr, ci);
        lemma_live_has(t);
        lemma_row_ring(t, rr, ci);
        lemma_key_next(t.in_row(rr), ci, ci, t.links(rr, ci).right as int, n);
        assert(t1.links(rr, ci).right == t.links(rr, ci).right);
    }
        let ghost row = t.in_row(rr);
        let mut covered: Vec<usize> = Vec::new();
        let ghost mut states: Seq<MatrixState> = seq![t1];
        let mut j = m.get(r, c).right();
        proof {
            assert(Set::new(|x: int| row.contains(x) && x != ci && key(ci, x, n) < key(ci, j as int, n)) =~= Set::<int>::empty());
            assert(t1.heads.difference(Set::<int>::empty()) =~= t1.heads);
            assert(f1.add(Seq::new(0, |k: int| (covered@[k] as int, states[k]))) =~= f1);
            assert forall|x: int, y: int|
                t.live.contains((x, y)) && avoids(t, rr, x) implies #[trigger] m@.live.contains((x, y)) by {
                if cover_set(t, ci).contains((x, y)) {
                    assert(t.live.contains((x, ci)));
                    assert(t.has(x, ci));
                    assert(t.has(rr, ci));
                }
            }
        }
        while j != c
            invariant
                m.inv(),
                searchable(m@),
                frames_ok(m@, m.frames()),
                searchable(t),
                t1.heads == t.heads.remove(ci),
                t1.live.subset_of(t.live),
                forall|x: int, y: int| #[trigger] t1.has(x, y) == t.has(x, y),
                t.live.contains((rr, ci)),
                t.heads.contains(ci),
                ci == c as int,
                rr == r as int,
                t1 == states[0],
                1 <= rr < t.rows(),
                1 <= ci < n,
                forall|k: int| 0 <= k < covered@.len() ==> 1 <= #[trigger] covered@[k] < n,
                n == t.cols(),
                row == t.in_row(rr),
                forall|z: int| #[trigger] row.contains(z) ==> 1 <= z < n,
                row.contains(ci),
                row.contains(j as int),
                states.len() == covered@.len() + 1,
                states[0] == t1,
                forall|k: int| 0 <= k < states.len() ==> (#[trigger] states[k]).cols() == n,
                m@ == states.last(),
                m.frames() == f1.add(Seq::new(covered@.len() as nat, |k: int| (covered@[k] as int, states[k]))),
                m@.heads == t1.heads.difference(
                    Set::new(|x: int| row.contains(x) && x != ci && key(ci, x, n) < key(ci, j as int, n)),
                ),
                m@.live.subset_of(t1.live),
                m@.rows() == t.rows(),
                m@.cols() == n,
                forall|x: int, y: int| #[trigger] m@.has(x, y) == t.has(x, y),
                forall|x: int| 0 <= x < n ==> (#[trigger] m@.links(rr, x)).right == t.links(rr, x).right,
                forall|x: int, y: int|
                    t.live.contains((x, y)) && avoids(t, rr, x) ==> #[trigger] m@.live.contains((x, y)),
            decreases key(ci, ci, n) - key(ci, j as int, n),
        {
            let ghost prev = m@;
            proof {
                assert(row.contains(j as int));
                assert(t.has(rr, j as int));
                lemma_clean_at(t, rr, ci, j as int);
                assert(t.heads.contains(j as int));
                assert(t1.heads == t.heads.remove(ci));
                assert(j as int != ci);
                assert(t1.heads.contains(j as int));
                assert(!Set::new(|x: int| row.contains(x) && x != ci && key(ci, x, n) < key(ci, j as int, n)).contains(j as int));
                assert(m@.heads.contains(j as int));
            }
            m.coverCol(j);
            covered.push(j);
            proof {
                states = states.push(m@);
                lemma_covered_basic(prev, m@, j as int, cover_set(prev, j as int));
                lemma_live_has(prev);
                assert forall|x: int, y: int|
                    t.live.contains((x, y)) && avoids(t, rr, x) implies #[trigger] m@.live.contains((x, y)) by {
                    assert(prev.live.contains((x, y)));
                    if cover_set(prev, j as int).contains((x, y)) {
                        assert(prev.live.contains((x, j as int)));
                        assert(prev.has(x, j as int));
                        assert(t.has(rr, j as int));
                    }
                }
                lemma_row_ring(t, rr, j as int);
                lemma_key_next(row, ci, j as int, t.links(rr, j as int).right as int, n);
                assert(m.frames() =~= f1.add(Seq::new(covered@.len() as nat, |k: int| (covered@[k] as int, states[k]))));
            }
            proof {
                assert(m@.rows() == t.rows());
                assert(m@.cols() == n);
            }
            let next = m.get(r, j).right();
            proof {
                assert(prev.links(rr, j as int).right == t.links(rr, j as int).right);
                assert(m@.links(rr, j as int).right == prev.links(rr, j as int).right);
                assert(next == t.links(rr, j as int).right);
                assert(m@.heads =~= t1.heads.difference(
                    Set::new(|x: int| row.contains(x) && x != ci && key(ci, x, n) < key(ci, next as int, n)),
                ));
            }
            j = next;
        }
    proof {
        assert(m@.heads =~= t.heads.difference(row));
    }
    (covered, Ghost(states))
}

fn uncover_all(
    m: &mut DancingMatrix,
    covered: Vec<usize>,
    Ghost(states): Ghost<Seq<MatrixState>>,
    Ghost(f1): Ghost<Seq<(int, MatrixState)>>,
)
    requires
        old(m).inv(),
        frames_ok(old(m)@, old(m).frames()),
        states.len() == covered@.len() + 1,
        forall|k: int| 0 <= k < states.len() ==> (#[trigger] states[k]).cols() == old(m)@.cols(),
        old(m)@ == states.last(),
        old(m).frames() == f1.add(Seq::new(covered@.len() as nat, |k: int| (covered@[k] as int, states[k]))),
        forall|k: int| 0 <= k < covered@.len() ==> 1 <= #[trigger] covered@[k] < old(m)@.cols(),
    ensures
        final(m).inv(),
        frames_ok(final(m)@, final(m).frames()),
        final(m)@ == states[0],
        final(m).frames() == f1,
{
    let ghost n = m@.cols();
    let ghost t1 = states[0];
    let mut covered = covered;
        while covered.len() > 0
            invariant
                m.inv(),
                frames_ok(m@, m.frames()),
                states.len() >= covered@.len() + 1,
                states[0] == t1,
                forall|k: int| 0 <= k < states.len() ==> (#[trigger] states[k]).cols() == n,
                m@ == states[covered@.len() as int],
                m.frames() == f1.add(Seq::new(covered@.len() as nat, |k: int| (covered@[k] as int, states[k]))),
                forall|k: int| 0 <= k < covered@.len() ==> 1 <= #[trigger] covered@[k] < n,
                m@.cols() == n,
            decreases covered@.len(),
        {
            let ghost len = covered@.len();
            let ghost cov0 = covered@;
            let j = match covered.pop() {
                Some(x) => x,
                None => 0,
            };
            proof {
                assert(covered@ =~= cov0.drop_last());
                assert(j == cov0[len - 1]);
                assert(m.frames().last() == (j as int, states[len - 1]));
            }
            m.uncoverCol(j);
            proof {
                assert(m.frames() =~= f1.add(Seq::new(covered@.len() as nat, |k: int| (covered@[k] as int, states[k]))));
            }
        }
    proof {
        assert(m.frames() =~= f1);
    }
}


/// One way to place one piece: the matrix columns it fills (its piece's
/// column first, then one per board cell), and the same as a row of flags.
pub struct Placement {
    filled: Vec<usize>,
    inner: Vec<bool>,
}

/// A column's status (still to be covered) and its number of rows.
pub type MatrixColumn = (bool, usize);

impl Placement {
    pub closed spec fn filled_view(&self) -> Seq<usize> {
        self.filled@
    }

    pub closed spec fn inner_view(&self) -> Seq<bool> {
        self.inner@
    }

    pub fn new(filled: Vec<usize>, inner: Vec<bool>) -> (p: Placement)
        ensures
            p.filled_view() == filled@,
            p.inner_view() == inner@,
    {
        Placement { filled, inner }
    }

    pub fn filled(&self) -> (f: &Vec<usize>)
        ensures
            f@ == self.filled_view(),
    {
        &self.filled
    }

    pub fn inner(&self) -> (f: &Vec<bool>)
        ensures
            f@ == self.inner_view(),
    {
        &self.inner
    }
}

/// Two placements are the same when they fill the same set of columns.
fn same_flags(a: &Vec<bool>, b: &Vec<bool>) -> (r: bool)
    ensures
        r == (a@ == b@),
{
    if a.len() != b.len() {
        return false;
    }
    let mut i: usize = 0;
    while i < a.len()
        invariant
            i <= a@.len(),
            a@.len() == b@.len(),
            forall|k: int| 0 <= k < i ==> a@[k] == b@[k],
        decreases a@.len() - i,
    {
        if a[i] != b[i] {
            return false;
        }
        i = i + 1;
    }
    proof {
        assert(a@ =~= b@);
    }
    true
}

impl PartialEq for Placement {
    fn eq(&self, other: &Placement) -> (r: bool) {
        same_flags(&self.inner, &other.inner)
    }
}

impl vstd::std_specs::cmp::PartialEqSpecImpl for Placement {
    open spec fn obeys_eq_spec() -> bool {
        true
    }

    open spec fn eq_spec(&self, other: &Placement) -> bool {
        self.inner_view() == other.inner_view()
    }
}

/// Whether a placement filling the same set of columns is in `all`.
pub fn permutationExists(p: &Placement, all: &Vec<Placement>) -> (present: bool)
    ensures
        present == exists|k: int| 0 <= k < all@.len() && (#[trigger] all@[k]).inner_view() == p.inner_view(),
{
    let mut i: usize = 0;
    while i < all.len()
        invariant
            i <= all@.len(),
            forall|k: int| 0 <= k < i ==> (#[trigger] all@[k]).inner_view() != p.inner_view(),
        decreases all@.len() - i,
    {
        if same_flags(&all[i].inner, &p.inner) {
            return true;
        }
        i = i + 1;
    }
    false
}

/// How many placements fill column `j`.
pub open spec fn count_col(ps: Seq<Placement>, j: int) -> nat
    decreases ps.len(),
{
    if ps.len() == 0 {
        0
    } else {
        count_col(ps.drop_last(), j) + if ps.last().inner_view()[j] {
            1nat
        } else {
            0nat
        }
    }
}

/// A placement of piece `i` among `n` pieces on a board of `area` cells:
/// a row of `n + area` flags, and the filled columns listed with the
/// piece's own first, each flagged.
pub open spec fn placement_ok(p: Placement, i: int, n: int, area: int) -> bool {
    &&& p.inner_view().len() == n + area
    &&& p.filled_view().len() >= 1
    &&& p.filled_view()[0] == i
    &&& forall|k: int| 0 <= k < p.filled_view().len() ==> (#[trigger] p.filled_view()[k]) < n + area
    &&& forall|j: int| 0 <= j < n + area ==> (#[trigger] p.inner_view()[j] <==> exists|k: int|
        0 <= k < p.filled_view().len() && p.filled_view()[k] == j)
    &&& forall|k: int| 1 <= k < p.filled_view().len() ==> (#[trigger] p.filled_view()[k]) >= n
    &&& forall|k1: int, k2: int|
        0 <= k1 < k2 < p.filled_view().len() ==> (#[trigger] p.filled_view()[k1]) < (#[trigger] p.filled_view()[k2])
}

/// Cells in row-major order on a piece stay in row-major order once the
/// piece is placed on a wider board.
proof fn lemma_row_major(vw: int, w: int, x: int, y: int, a0: int, a1: int, b0: int, b1: int)
    requires
        0 <= a0 < vw,
        0 <= b0 < vw,
        0 <= a1,
        0 <= b1,
        0 <= x,
        0 <= y,
        x + a0 < w,
        x + b0 < w,
        a1 * vw + a0 < b1 * vw + b0,
    ensures
        (y + a1) * w + (x + a0) < (y + b1) * w + (x + b0),
{
    if a1 < b1 {
        let p = y + a1;
        let q = y + b1;
        assert(p * w + w <= q * w) by (nonlinear_arith)
            requires
                p + 1 <= q,
                w >= 0,
        ;
    } else if a1 > b1 {
        assert(a1 * vw >= b1 * vw + vw) by (nonlinear_arith)
            requires
                a1 >= b1 + 1,
                vw >= 0,
        ;
    }
}

proof fn lemma_count_pos(ps: Seq<Placement>, j: int)
    ensures
        count_col(ps, j) > 0 <==> column_filled(ps, j),
    decreases ps.len(),
{
    if ps.len() > 0 {
        let ps0 = ps.drop_last();
        lemma_count_pos(ps0, j);
        if column_filled(ps0, j) {
            let k = choose|k: int| 0 <= k < ps0.len() && #[trigger] ps0[k].inner_view()[j];
            assert(ps[k] == ps0[k]);
        }
        if column_filled(ps, j) && !ps.last().inner_view()[j] {
            let k = choose|k: int| 0 <= k < ps.len() && #[trigger] ps[k].inner_view()[j];
            assert(k < ps0.len());
            assert(ps0[k] == ps[k]);
        }
        if ps.last().inner_view()[j] {
            assert(ps[ps.len() - 1].inner_view()[j]);
        }
    }
}

proof fn lemma_count_le(ps: Seq<Placement>, j: int)
    ensures
        count_col(ps, j) <= ps.len(),
    decreases ps.len(),
{
    if ps.len() > 0 {
        lemma_count_le(ps.drop_last(), j);
    }
}

/// Width of piece `p` turned right `a` times.
pub open spec fn turned_w(p: Pentomino, a: int) -> int {
    if a % 2 == 0 {
        p.dimX as int
    } else {
        p.dimY as int
    }
}

/// Height of piece `p` turned right `a` times.
pub open spec fn turned_h(p: Pentomino, a: int) -> int {
    if a % 2 == 0 {
        p.dimY as int
    } else {
        p.dimX as int
    }
}

/// The cell of `p` that lands on (x, y) once `p` is turned right `a` times
/// (0 to 3) and then, when `b` is 1, mirrored left to right.
pub open spec fn variant_src(p: Pentomino, a: int, b: int, x: int, y: int) -> (int, int) {
    let w = p.dimX as int;
    let h = p.dimY as int;
    let x1 = if b == 1 {
        turned_w(p, a) - 1 - x
    } else {
        x
    };
    if a == 0 {
        (x1, y)
    } else if a == 1 {
        (y, h - 1 - x1)
    } else if a == 2 {
        (w - 1 - x1, h - 1 - y)
    } else {
        (w - 1 - y, x1)
    }
}

/// `v` is `p` turned right `a` times and then, when `b` is 1, mirrored.
#[verifier::opaque]
pub open spec fn is_variant(p: Pentomino, v: Pentomino, a: int, b: int) -> bool {
    &&& v.wf()
    &&& v.dimX == turned_w(p, a)
    &&& v.dimY == turned_h(p, a)
    &&& forall|x: int, y: int|
        0 <= x < v.dimX && 0 <= y < v.dimY ==> #[trigger] v.cell(x, y) == p.cell(
            variant_src(p, a, b, x, y).0,
            variant_src(p, a, b, x, y).1,
        )
}

/// The turn count of the `k`-th variant.
pub open spec fn turn_of(k: int, useRotations: bool) -> int {
    if useRotations {
        k % 4
    } else {
        0
    }
}

/// The mirror flag of the `k`-th variant.
pub open spec fn mirror_of(k: int, useRotations: bool) -> int {
    if useRotations {
        k / 4
    } else {
        k
    }
}

/// The pieces that `piece` stands for: itself or its four quarter turns,
/// each also mirrored when reflections are used.
pub fn variants(piece: &Pentomino, useRotations: bool, useReflections: bool) -> (r: Vec<Pentomino>)
    requires
        piece.wf(),
    ensures
        r@.len() >= 1,
        forall|k: int| 0 <= k < r@.len() ==> (#[trigger] r@[k]).wf(),
        r@.len() == (if useRotations { 4int } else { 1int }) * (if useReflections { 2int } else { 1int }),
        forall|k: int| 0 <= k < r@.len() ==> (#[trigger] r@[k]).size == piece.size,
        forall|k: int|
            0 <= k < r@.len() ==> is_variant(
                *piece,
                #[trigger] r@[k],
                turn_of(k, useRotations),
                mirror_of(k, useRotations),
            ),
{
    let mut permutations: Vec<Pentomino> = Vec::new();
    if useRotations {
        permutations = piece.rotations();
        proof {
            reveal(is_variant);
            let r = permutations@;
            assert(r[0].transformed(Transformation::RotateRight, r[1]));
            assert(r[1].transformed(Transformation::RotateRight, r[2]));
            assert(r[2].transformed(Transformation::RotateRight, r[3]));
            assert forall|x: int, y: int| 0 <= x < r[0].dimX && 0 <= y < r[0].dimY implies #[trigger] r[0].cell(x, y)
                == piece.cell(x, y) by {}
            assert(is_variant(*piece, r[0], 0, 0));
            assert(is_variant(*piece, r[1], 1, 0));
            assert(is_variant(*piece, r[2], 2, 0));
            assert(is_variant(*piece, r[3], 3, 0));
        }
    } else {
        permutations.push(piece.duplicate());
        proof {
            reveal(is_variant);
            let r = permutations@;
            assert forall|x: int, y: int| 0 <= x < r[0].dimX && 0 <= y < r[0].dimY implies #[trigger] r[0].cell(x, y)
                == piece.cell(x, y) by {}
            assert(is_variant(*piece, r[0], 0, 0));
        }
    }
    let n = permutations.len();
    proof {
        assert forall|k: int| 0 <= k < permutations@.len() implies is_variant(
            *piece,
            #[trigger] permutations@[k],
            turn_of(k, useRotations),
            mirror_of(k, useRotations),
        ) by {
            if useRotations {
                assert(k % 4 == k && k / 4 == 0);
            }
        }
    }
    if useReflections {
        let mut k: usize = 0;
        while k < n
            invariant
                piece.wf(),
                n == (if useRotations { 4int } else { 1int }),
                permutations@.len() == n + k,
                k <= n,
                forall|q: int| 0 <= q < permutations@.len() ==> (#[trigger] permutations@[q]).wf(),
                forall|q: int| 0 <= q < permutations@.len() ==> (#[trigger] permutations@[q]).size == piece.size,
                forall|q: int|
                    0 <= q < permutations@.len() ==> is_variant(
                        *piece,
                        #[trigger] permutations@[q],
                        turn_of(q, useRotations),
                        mirror_of(q, useRotations),
                    ),
            decreases n - k,
        {
            let reflected = permutations[k].reflectX();
            let ghost src = permutations@[k as int];
            permutations.push(reflected);
            proof {
                reveal(is_variant);
                let q = (n + k) as int;
                assert(turn_of(q, useRotations) == turn_of(k as int, useRotations));
                assert(mirror_of(q, useRotations) == 1);
                assert(mirror_of(k as int, useRotations) == 0);
                assert(is_variant(*piece, src, turn_of(k as int, useRotations), 0));
                assert(is_variant(*piece, permutations@[q], turn_of(q, useRotations), 1));
            }
            k = k + 1;
        }
    }
    permutations
}

/// Matrix column `j` is filled by piece `v`, as piece `i` of `n`, placed
/// with its top left corner at (x, y) of `board`: it is the piece's column,
/// or the column of a board cell under a filled cell of `v`.
pub open spec fn fills(board: Pentomino, v: Pentomino, i: int, n: int, x: int, y: int, j: int) -> bool {
    j == i || exists|x0: int, y0: int|
        0 <= x0 < v.dimX && 0 <= y0 < v.dimY && #[trigger] v.cell(x0, y0) is Filled && j == n + (y + y0)
            * board.dimX + (x + x0)
}

/// How many variants a piece has.
pub open spec fn nvariants(useRotations: bool, useReflections: bool) -> int {
    (if useRotations {
        4int
    } else {
        1int
    }) * (if useReflections {
        2int
    } else {
        1int
    })
}

/// Variant (a, b) of `p` fits on `board` with its top left corner at
/// (x, y): each of its filled cells lands on a board cell filled with the
/// same symbol.
pub open spec fn fits_variant(board: Pentomino, p: Pentomino, a: int, b: int, x: int, y: int) -> bool {
    forall|x0: int, y0: int|
        0 <= x0 < turned_w(p, a) && 0 <= y0 < turned_h(p, a) && (#[trigger] p.cell(
            variant_src(p, a, b, x0, y0).0,
            variant_src(p, a, b, x0, y0).1,
        )) is Filled ==> {
            &&& x + x0 < board.dimX
            &&& y + y0 < board.dimY
            &&& board.cell(x + x0, y + y0) == p.cell(variant_src(p, a, b, x0, y0).0, variant_src(p, a, b, x0, y0).1)
        }
}

/// Matrix column `j` is filled by variant (a, b) of `p`, as piece `i` of
/// `n`, placed at (x, y) of `board`.
pub open spec fn fills_variant(board: Pentomino, p: Pentomino, a: int, b: int, i: int, n: int, x: int, y: int, j: int) -> bool {
    j == i || exists|x0: int, y0: int|
        0 <= x0 < turned_w(p, a) && 0 <= y0 < turned_h(p, a) && (#[trigger] p.cell(
            variant_src(p, a, b, x0, y0).0,
            variant_src(p, a, b, x0, y0).1,
        )) is Filled && j == n + (y + y0) * board.dimX + (x + x0)
}

/// `pl` is variant (a, b) of `p`, piece `i` of `n`, placed where it fits
/// at (x, y) of `board`.
pub open spec fn placed_as(pl: Placement, board: Pentomino, p: Pentomino, a: int, b: int, i: int, n: int, x: int, y: int) -> bool {
    &&& fits_variant(board, p, a, b, x, y)
    &&& pl.filled_view()[0] == i
    &&& forall|j: int|
        0 <= j < n + board.dimX * board.dimY ==> (#[trigger] pl.inner_view()[j] <==> fills_variant(
            board,
            p,
            a,
            b,
            i,
            n,
            x,
            y,
            j,
        ))
}

proof fn lemma_variant_equiv(board: Pentomino, p: Pentomino, v: Pentomino, a: int, b: int, i: int, n: int, x: int, y: int)
    requires
        is_variant(p, v, a, b),
    ensures
        fits(board, v, x, y) <==> fits_variant(board, p, a, b, x, y),
        forall|j: int| fills(board, v, i, n, x, y, j) <==> #[trigger] fills_variant(board, p, a, b, i, n, x, y, j),
{
    reveal(is_variant);
    if fits(board, v, x, y) {
        assert forall|x0: int, y0: int|
            0 <= x0 < turned_w(p, a) && 0 <= y0 < turned_h(p, a) && (#[trigger] p.cell(
                variant_src(p, a, b, x0, y0).0,
                variant_src(p, a, b, x0, y0).1,
            )) is Filled implies {
                &&& x + x0 < board.dimX
                &&& y + y0 < board.dimY
                &&& board.cell(x + x0, y + y0) == p.cell(variant_src(p, a, b, x0, y0).0, variant_src(p, a, b, x0, y0).1)
            } by {
            assert(v.cell(x0, y0) is Filled);
        }
    }
    if fits_variant(board, p, a, b, x, y) {
        assert forall|x0: int, y0: int|
            0 <= x0 < v.dimX && 0 <= y0 < v.dimY && #[trigger] v.cell(x0, y0) is Filled implies {
                &&& x0 + x < board.dimX
                &&& y0 + y < board.dimY
                &&& board.cell(x0 + x, y0 + y) == v.cell(x0, y0)
            } by {
            assert(p.cell(variant_src(p, a, b, x0, y0).0, variant_src(p, a, b, x0, y0).1) is Filled);
        }
    }
    assert forall|j: int| fills(board, v, i, n, x, y, j) <==> #[trigger] fills_variant(board, p, a, b, i, n, x, y, j) by {
        if fills(board, v, i, n, x, y, j) && j != i {
            let (x0, y0) = choose|x0: int, y0: int|
                0 <= x0 < v.dimX && 0 <= y0 < v.dimY && #[trigger] v.cell(x0, y0) is Filled && j == n + (y + y0)
                    * board.dimX + (x + x0);
            assert(p.cell(variant_src(p, a, b, x0, y0).0, variant_src(p, a, b, x0, y0).1) is Filled);
        }
        if fills_variant(board, p, a, b, i, n, x, y, j) && j != i {
            let (x0, y0) = choose|x0: int, y0: int|
                0 <= x0 < turned_w(p, a) && 0 <= y0 < turned_h(p, a) && (#[trigger] p.cell(
                    variant_src(p, a, b, x0, y0).0,
                    variant_src(p, a, b, x0, y0).1,
                )) is Filled && j == n + (y + y0) * board.dimX + (x + x0);
            assert(v.cell(x0, y0) is Filled);
        }
    }
}

fn flags(n: usize) -> (v: Vec<bool>)
    ensures
        v@.len() == n,
        forall|j: int| 0 <= j < n ==> !(#[trigger] v@[j]),
{
    let mut v: Vec<bool> = Vec::new();
    let mut k: usize = 0;
    while k < n
        invariant
            k <= n,
            v@.len() == k,
            forall|j: int| 0 <= j < k ==> !(#[trigger] v@[j]),
        decreases n - k,
    {
        v.push(false);
        k = k + 1;
    }
    v
}

/// The placement of variant `v` of piece `i` with its top left corner at
/// (x, y) of the board.
fn make_placement(board: &Pentomino, v: &Pentomino, i: usize, n: usize, x: usize, y: usize) -> (p: Placement)
    requires
        board.wf(),
        v.wf(),
        i < n,
        n + board.dimX * board.dimY <= usize::MAX,
        fits(*board, *v, x as int, y as int),
    ensures
        placement_ok(p, i as int, n as int, board.dimX * board.dimY),
        forall|j: int|
            0 <= j < n + board.dimX * board.dimY ==> (#[trigger] p.inner_view()[j] <==> fills(
                *board,
                *v,
                i as int,
                n as int,
                x as int,
                y as int,
                j,
            )),
{
    let area = board.area();
    let cols = n + area;
    let mut inner = flags(cols);
    let mut filled: Vec<usize> = Vec::new();
    inner.set(i, true);
    filled.push(i);
    let cells = v.filled();
    proof {
        assert forall|j: int| 0 <= j < cols implies (#[trigger] inner@[j] <==> exists|q: int|
            0 <= q < filled@.len() && filled@[q] == j) by {
            if j == i {
                assert(filled@[0] == j);
            }
        }
    }
    let mut k: usize = 0;
    while k < cells.len()
        invariant
            board.wf(),
            v.wf(),
            i < n,
            cols == n + board.dimX * board.dimY,
            cols <= usize::MAX,
            fits(*board, *v, x as int, y as int),
            forall|q: int|
                0 <= q < cells@.len() ==> {
                    &&& (#[trigger] cells@[q]).0 < v.dimX
                    &&& cells@[q].1 < v.dimY
                    &&& v.cell(cells@[q].0 as int, cells@[q].1 as int) == crate::pentomino::Square::Filled(cells@[q].2)
                },
            k <= cells@.len(),
            inner@.len() == cols,
            filled@.len() == k + 1,
            filled@[0] == i,
            forall|q: int| 0 <= q < filled@.len() ==> (#[trigger] filled@[q]) < cols,
            forall|q: int| 1 <= q < filled@.len() ==> (#[trigger] filled@[q]) >= n,
            forall|j: int| 0 <= j < cols ==> (#[trigger] inner@[j] <==> exists|q: int|
                0 <= q < filled@.len() && filled@[q] == j),
            forall|q: int|
                1 <= q < filled@.len() ==> #[trigger] filled@[q] == n + (y + cells@[q - 1].1) * board.dimX + (x
                    + cells@[q - 1].0),
            forall|k1: int, k2: int| 0 <= k1 < k2 < filled@.len() ==> (#[trigger] filled@[k1]) < (#[trigger] filled@[k2]),
            forall|k1: int, k2: int|
                0 <= k1 < k2 < cells@.len() ==> (#[trigger] cells@[k1]).1 * v.dimX + cells@[k1].0 < (
                #[trigger] cells@[k2]).1 * v.dimX + cells@[k2].0,
        decreases cells@.len() - k,
    {
        let (x0, y0, _) = cells[k];
        proof {
            assert(v.cell(x0 as int, y0 as int) is Filled);
        }
        let idx = board.getIndex(x + x0, y + y0);
        let j = idx + n;
        let ghost f0 = filled@;
        proof {
            if k >= 1 {
                let pc = cells@[k - 1];
                assert(v.cell(pc.0 as int, pc.1 as int) is Filled);
                lemma_row_major(
                    v.dimX as int,
                    board.dimX as int,
                    x as int,
                    y as int,
                    pc.0 as int,
                    pc.1 as int,
                    x0 as int,
                    y0 as int,
                );
                assert(f0[k as int] < j);
            } else {
                assert(f0[0] == i);
            }
        }
        inner.set(j, true);
        filled.push(j);
        proof {
            assert forall|j2: int| 0 <= j2 < cols implies (#[trigger] inner@[j2] <==> exists|q: int|
                0 <= q < filled@.len() && filled@[q] == j2) by {
                if j2 == j {
                    assert(filled@[filled@.len() - 1] == j2);
                } else if inner@[j2] {
                    let q = choose|q: int| 0 <= q < f0.len() && f0[q] == j2;
                    assert(filled@[q] == j2);
                } else {
                    assert forall|q: int| 0 <= q < filled@.len() implies filled@[q] != j2 by {
                        if q < f0.len() {
                            assert(filled@[q] == f0[q]);
                        }
                    }
                }
            }
        }
        k = k + 1;
    }
    proof {
        assert forall|j: int| 0 <= j < cols implies (#[trigger] inner@[j] <==> fills(
            *board,
            *v,
            i as int,
            n as int,
            x as int,
            y as int,
            j,
        )) by {
            if inner@[j] && j != i {
                let q = choose|q: int| 0 <= q < filled@.len() && filled@[q] == j;
                if q == 0 {
                } else {
                    let c = cells@[q - 1];
                    assert(v.cell(c.0 as int, c.1 as int) is Filled);
                }
            }
            if fills(*board, *v, i as int, n as int, x as int, y as int, j) && j != i {
                let (x0, y0) = choose|x0: int, y0: int|
                    0 <= x0 < v.dimX && 0 <= y0 < v.dimY && #[trigger] v.cell(x0, y0) is Filled && j == n + (y
                        + y0) * board.dimX + (x + x0);
                let q = choose|q: int| 0 <= q < cells@.len() && cells@[q].0 == x0 && cells@[q].1 == y0;
                assert(filled@[q + 1] == j);
            }
        }
    }
    Placement::new(filled, inner)
}

proof fn lemma_same_flags_same_piece(q: Placement, p: Placement, iq: int, i: int, n: int, area: int)
    requires
        placement_ok(q, iq, n, area),
        placement_ok(p, i, n, area),
        q.inner_view() == p.inner_view(),
        0 <= i < n,
    ensures
        iq == i,
{
    assert(p.filled_view()[0] == i);
    assert(p.inner_view()[i]);
    let qq = choose|qq: int| 0 <= qq < q.filled_view().len() && q.filled_view()[qq] == i;
    if qq >= 1 {
        assert(q.filled_view()[qq] >= n);
    }
}

/// No two placements fill the same set of columns.
pub open spec fn distinct_rows(ps: Seq<Placement>) -> bool {
    distinct_inner(ps)
}

/// Some placement of `ps` is variant (a, b) of `p` placed at (x, y).
pub open spec fn found(ps: Seq<Placement>, board: Pentomino, p: Pentomino, a: int, b: int, i: int, n: int, x: int, y: int) -> bool {
    exists|k: int| 0 <= k < ps.len() && placed_as(#[trigger] ps[k], board, p, a, b, i, n, x, y)
}

/// `pl` is some variant of its piece placed where it fits on `board`.
pub open spec fn sound(pl: Placement, board: Pentomino, pieces: Seq<Pentomino>, rot: bool, refl: bool) -> bool {
    exists|vi: int, x: int, y: int|
        0 <= vi < nvariants(rot, refl) && 0 <= x < board.dimX && 0 <= y < board.dimY && #[trigger] placed_as(
            pl,
            board,
            pieces[pl.filled_view()[0] as int],
            turn_of(vi, rot),
            mirror_of(vi, rot),
            pl.filled_view()[0] as int,
            pieces.len() as int,
            x,
            y,
        )
}

/// Each variant of each piece that fits somewhere, among those already
/// tried (pieces before `i`; for piece `i`, board cells before `c`, and at
/// cell `c` variants before `v`), has its placement in `ps`.
pub open spec fn complete(ps: Seq<Placement>, board: Pentomino, pieces: Seq<Pentomino>, rot: bool, refl: bool, i: int, c: int, v: int) -> bool {
    forall|i2: int, vi: int, x: int, y: int|
        0 <= i2 < pieces.len() && 0 <= vi < nvariants(rot, refl) && 0 <= x < board.dimX && 0 <= y < board.dimY
            && (i2 < i || (i2 == i && (y * board.dimX + x < c || (y * board.dimX + x == c && vi < v))))
            && #[trigger] fits_variant(board, pieces[i2], turn_of(vi, rot), mirror_of(vi, rot), x, y)
            ==> found(ps, board, pieces[i2], turn_of(vi, rot), mirror_of(vi, rot), i2, pieces.len() as int, x, y)
}

proof fn lemma_found_grows(ps: Seq<Placement>, q: Placement, board: Pentomino, pieces: Seq<Pentomino>, rot: bool, refl: bool, i: int, c: int, v: int)
    requires
        complete(ps, board, pieces, rot, refl, i, c, v),
        forall|k: int| 0 <= k < ps.len() ==> sound(#[trigger] ps[k], board, pieces, rot, refl),
    ensures
        complete(ps.push(q), board, pieces, rot, refl, i, c, v),
        sound(q, board, pieces, rot, refl) ==> forall|k: int|
            0 <= k < ps.push(q).len() ==> sound(#[trigger] ps.push(q)[k], board, pieces, rot, refl),
{
    let ps2 = ps.push(q);
    assert forall|i2: int, vi: int, x: int, y: int|
        0 <= i2 < pieces.len() && 0 <= vi < nvariants(rot, refl) && 0 <= x < board.dimX && 0 <= y < board.dimY
            && (i2 < i || (i2 == i && (y * board.dimX + x < c || (y * board.dimX + x == c && vi < v))))
            && #[trigger] fits_variant(board, pieces[i2], turn_of(vi, rot), mirror_of(vi, rot), x, y)
            implies found(ps2, board, pieces[i2], turn_of(vi, rot), mirror_of(vi, rot), i2, pieces.len() as int, x, y) by {
        let k = choose|k: int| 0 <= k < ps.len() && placed_as(#[trigger] ps[k], board, pieces[i2], turn_of(vi, rot), mirror_of(vi, rot), i2, pieces.len() as int, x, y);
        assert(ps2[k] == ps[k]);
    }
    if sound(q, board, pieces, rot, refl) {
        assert forall|k: int| 0 <= k < ps2.len() implies sound(#[trigger] ps2[k], board, pieces, rot, refl) by {
            if k < ps.len() {
                assert(ps2[k] == ps[k]);
            }
        }
    }
}

/// Adds `p` unless a placement filling the same columns is there, and
/// counts it into the columns it fills.
fn add_placement(placements: &mut Vec<Placement>, columns: &mut Vec<MatrixColumn>, p: Placement)
    requires
        old(columns)@.len() == p.inner_view().len(),
        forall|j: int|
            0 <= j < old(columns)@.len() ==> #[trigger] old(columns)@[j] == (true, count_col(old(placements)@, j) as usize),
        forall|j: int| 0 <= j < old(columns)@.len() ==> count_col(old(placements)@, j) <= usize::MAX,
        distinct_rows(old(placements)@),
    ensures
        final(columns)@.len() == old(columns)@.len(),
        forall|j: int|
            0 <= j < final(columns)@.len() ==> #[trigger] final(columns)@[j] == (true, count_col(final(placements)@, j) as usize),
        forall|j: int| 0 <= j < final(columns)@.len() ==> count_col(final(placements)@, j) <= usize::MAX,
        distinct_rows(final(placements)@),
        final(placements)@ == old(placements)@ || final(placements)@ == old(placements)@.push(p),
        exists|k: int|
            0 <= k < final(placements)@.len() && (#[trigger] final(placements)@[k]).inner_view() == p.inner_view(),
{
    if permutationExists(&p, placements) {
        return ;
    }
    let ghost at = placements@.len() as int;
    let ghost ps0 = placements@;
    let ghost pv = p;
    let cols = columns.len();
    placements.push(p);
    let total = placements.len();
    proof {
        assert(placements@.drop_last() =~= ps0);
        assert forall|k1: int, k2: int|
            0 <= k1 < k2 < placements@.len() implies (#[trigger] placements@[k1]).inner_view() != (
            #[trigger] placements@[k2]).inner_view() by {
            if k2 == placements@.len() - 1 {
                assert(placements@[k1] == ps0[k1]);
            } else {
                assert(placements@[k1] == ps0[k1]);
                assert(placements@[k2] == ps0[k2]);
            }
        }
    }
    let last = total - 1;
    proof {
        assert(placements@[at].inner_view() == pv.inner_view());
        assert forall|q: int| 0 <= q < cols implies count_col(placements@, q) <= usize::MAX by {
            lemma_count_le(placements@, q);
        }
    }
    let mut j: usize = 0;
    while j < cols
        invariant
            cols == columns@.len(),
            cols == pv.inner_view().len(),
            total == placements@.len(),
            last == total - 1,
            placements@ == ps0.push(pv),
            placements@[last as int] == pv,
            j <= cols,
            forall|q: int| 0 <= q < j ==> #[trigger] columns@[q] == (true, count_col(placements@, q) as usize),
            forall|q: int| j <= q < cols ==> #[trigger] columns@[q] == (true, count_col(ps0, q) as usize),
            forall|q: int| 0 <= q < cols ==> count_col(placements@, q) <= usize::MAX,
        decreases cols - j,
    {
        proof {
            assert(placements@.drop_last() =~= ps0);
            lemma_count_le(placements@, j as int);
        }
        let (st, n) = columns[j];
        if placements[last].inner[j] {
            columns.set(j, (st, n + 1));
        }
        j = j + 1;
    }
}

/// `pl` is variant `v` of its piece placed at (x, y).
pub open spec fn placed_at(pl: Placement, board: Pentomino, pieces: Seq<Pentomino>, rot: bool, refl: bool, v: int, x: int, y: int) -> bool {
    &&& 0 <= v < nvariants(rot, refl)
    &&& 0 <= x < board.dimX
    &&& 0 <= y < board.dimY
    &&& placed_as(
        pl,
        board,
        pieces[pl.filled_view()[0] as int],
        turn_of(v, rot),
        mirror_of(v, rot),
        pl.filled_view()[0] as int,
        pieces.len() as int,
        x,
        y,
    )
}

/// `pl` is placed from some board cell before cell `pos`, or from cell
/// `pos` with a variant before `v`.
pub open spec fn placed_before(pl: Placement, board: Pentomino, pieces: Seq<Pentomino>, rot: bool, refl: bool, pos: int, v: int) -> bool {
    exists|v1: int, x1: int, y1: int|
        #[trigger] placed_at(pl, board, pieces, rot, refl, v1, x1, y1) && (y1 * board.dimX + x1 < pos || (y1
            * board.dimX + x1 == pos && v1 < v))
}

/// Rows of one piece come in board-cell order, and variant by variant at
/// one cell.
pub open spec fn rows_ordered(ps: Seq<Placement>, board: Pentomino, pieces: Seq<Pentomino>, rot: bool, refl: bool) -> bool {
    forall|k1: int, k2: int|
        0 <= k1 < k2 < ps.len() && (#[trigger] ps[k1]).filled_view()[0] == (#[trigger] ps[k2]).filled_view()[0]
            ==> exists|v2: int, x2: int, y2: int|
            #[trigger] placed_at(ps[k2], board, pieces, rot, refl, v2, x2, y2) && placed_before(
                ps[k1],
                board,
                pieces,
                rot,
                refl,
                y2 * board.dimX + x2,
                v2,
            )
}

/// Every row of piece `i` is placed before position (`pos`, `v`).
pub open spec fn piece_rows_before(ps: Seq<Placement>, board: Pentomino, pieces: Seq<Pentomino>, rot: bool, refl: bool, i: int, pos: int, v: int) -> bool {
    forall|k: int|
        0 <= k < ps.len() && (#[trigger] ps[k]).filled_view()[0] == i ==> placed_before(
            ps[k],
            board,
            pieces,
            rot,
            refl,
            pos,
            v,
        )
}

/// Rows come piece by piece, none past piece `i`.
pub open spec fn pieces_in_order(ps: Seq<Placement>, i: int) -> bool {
    &&& forall|k: int| 0 <= k < ps.len() ==> (#[trigger] ps[k]).filled_view()[0] <= i
    &&& forall|k1: int, k2: int|
        0 <= k1 < k2 < ps.len() ==> (#[trigger] ps[k1]).filled_view()[0] <= (#[trigger] ps[k2]).filled_view()[0]
}

proof fn lemma_order_next_cell(ps: Seq<Placement>, board: Pentomino, pieces: Seq<Pentomino>, rot: bool, refl: bool, i: int, c: int)
    requires
        piece_rows_before(ps, board, pieces, rot, refl, i, c, nvariants(rot, refl)),
    ensures
        piece_rows_before(ps, board, pieces, rot, refl, i, c + 1, 0),
{
    assert forall|k: int| 0 <= k < ps.len() && (#[trigger] ps[k]).filled_view()[0] == i implies placed_before(
        ps[k],
        board,
        pieces,
        rot,
        refl,
        c + 1,
        0,
    ) by {
        assert(placed_before(ps[k], board, pieces, rot, refl, c, nvariants(rot, refl)));
        let (v1, x1, y1) = choose|v1: int, x1: int, y1: int|
            #[trigger] placed_at(ps[k], board, pieces, rot, refl, v1, x1, y1) && (y1 * board.dimX + x1 < c || (y1
                * board.dimX + x1 == c && v1 < nvariants(rot, refl)));
        assert(placed_at(ps[k], board, pieces, rot, refl, v1, x1, y1));
    }
}

proof fn lemma_order_keep(ps: Seq<Placement>, board: Pentomino, pieces: Seq<Pentomino>, rot: bool, refl: bool, i: int, pos: int, v: int)
    requires
        piece_rows_before(ps, board, pieces, rot, refl, i, pos, v),
    ensures
        piece_rows_before(ps, board, pieces, rot, refl, i, pos, v + 1),
{
    assert forall|k: int| 0 <= k < ps.len() && (#[trigger] ps[k]).filled_view()[0] == i implies placed_before(
        ps[k],
        board,
        pieces,
        rot,
        refl,
        pos,
        v + 1,
    ) by {
        assert(placed_before(ps[k], board, pieces, rot, refl, pos, v));
        let (v1, x1, y1) = choose|v1: int, x1: int, y1: int|
            #[trigger] placed_at(ps[k], board, pieces, rot, refl, v1, x1, y1) && (y1 * board.dimX + x1 < pos || (y1
                * board.dimX + x1 == pos && v1 < v));
        assert(placed_at(ps[k], board, pieces, rot, refl, v1, x1, y1));
    }
}

proof fn lemma_order_step(
    ps0: Seq<Placement>,
    ps1: Seq<Placement>,
    q: Placement,
    board: Pentomino,
    pieces: Seq<Pentomino>,
    rot: bool,
    refl: bool,
    i: int,
    v: int,
    x: int,
    y: int,
)
    requires
        ps1 == ps0 || ps1 == ps0.push(q),
        placed_at(q, board, pieces, rot, refl, v, x, y),
        q.filled_view()[0] == i,
    ensures
        rows_ordered(ps0, board, pieces, rot, refl) && piece_rows_before(ps0, board, pieces, rot, refl, i, y * board.dimX + x, v)
            ==> rows_ordered(ps1, board, pieces, rot, refl) && piece_rows_before(
            ps1,
            board,
            pieces,
            rot,
            refl,
            i,
            y * board.dimX + x,
            v + 1,
        ),
{
    let pos = y * board.dimX + x;
    if rows_ordered(ps0, board, pieces, rot, refl) && piece_rows_before(ps0, board, pieces, rot, refl, i, pos, v) {
        lemma_order_keep(ps0, board, pieces, rot, refl, i, pos, v);
        if ps1 != ps0 {
            assert forall|k1: int, k2: int|
                0 <= k1 < k2 < ps1.len() && (#[trigger] ps1[k1]).filled_view()[0] == (#[trigger] ps1[k2]).filled_view()[0]
                    implies exists|v2: int, x2: int, y2: int|
                    #[trigger] placed_at(ps1[k2], board, pieces, rot, refl, v2, x2, y2) && placed_before(
                        ps1[k1],
                        board,
                        pieces,
                        rot,
                        refl,
                        y2 * board.dimX + x2,
                        v2,
                    ) by {
                assert(ps1[k1] == ps0[k1]);
                if k2 < ps0.len() {
                    assert(ps1[k2] == ps0[k2]);
                } else {
                    assert(ps1[k2] == q);
                    assert(placed_before(ps0[k1], board, pieces, rot, refl, pos, v));
                    assert(placed_at(ps1[k2], board, pieces, rot, refl, v, x, y));
                }
            }
            assert forall|k: int| 0 <= k < ps1.len() && (#[trigger] ps1[k]).filled_view()[0] == i implies placed_before(
                ps1[k],
                board,
                pieces,
                rot,
                refl,
                pos,
                v + 1,
            ) by {
                if k < ps0.len() {
                    assert(ps1[k] == ps0[k]);
                } else {
                    assert(ps1[k] == q);
                    assert(placed_at(q, board, pieces, rot, refl, v, x, y));
                }
            }
        }
    }
}

/// The generator's invariant: column counts, distinct rows, well-formed
/// rows, each a fitting placement of a variant of its piece.
pub open spec fn gen_ok(
    ps: Seq<Placement>,
    columns: Seq<MatrixColumn>,
    board: Pentomino,
    pieces: Seq<Pentomino>,
    rot: bool,
    refl: bool,
) -> bool {
    let n = pieces.len() as int;
    let area = board.dimX * board.dimY;
    &&& columns.len() == n + area
    &&& forall|q: int| 0 <= q < n + area ==> #[trigger] columns[q] == (true, count_col(ps, q) as usize)
    &&& forall|q: int| 0 <= q < n + area ==> count_col(ps, q) <= usize::MAX
    &&& distinct_rows(ps)
    &&& forall|k: int|
        0 <= k < ps.len() ==> (#[trigger] ps[k]).filled_view()[0] < n && placement_ok(
            ps[k],
            ps[k].filled_view()[0] as int,
            n,
            area,
        )
    &&& forall|k: int| 0 <= k < ps.len() ==> sound(#[trigger] ps[k], board, pieces, rot, refl)
}

/// Adds the placement of variant `perm` (number `vi`) of piece `i` at
/// (x, y), when it fits.
#[verifier::rlimit(60)]
fn try_place(
    board: &Pentomino,
    pentominoes: &Vec<Pentomino>,
    rot: bool,
    refl: bool,
    i: usize,
    perm: &Pentomino,
    vi: usize,
    x: usize,
    y: usize,
    placements: &mut Vec<Placement>,
    columns: &mut Vec<MatrixColumn>,
)
    requires
        board.wf(),
        perm.wf(),
        i < pentominoes@.len(),
        vi < nvariants(rot, refl),
        x < board.dimX,
        y < board.dimY,
        pentominoes@.len() + board.dimX * board.dimY <= usize::MAX,
        is_variant(pentominoes@[i as int], *perm, turn_of(vi as int, rot), mirror_of(vi as int, rot)),
        gen_ok(old(placements)@, old(columns)@, *board, pentominoes@, rot, refl),
        complete(old(placements)@, *board, pentominoes@, rot, refl, i as int, y * board.dimX + x, vi as int),
    ensures
        gen_ok(final(placements)@, final(columns)@, *board, pentominoes@, rot, refl),
        complete(final(placements)@, *board, pentominoes@, rot, refl, i as int, y * board.dimX + x, vi + 1),
        pieces_in_order(old(placements)@, i as int) ==> pieces_in_order(final(placements)@, i as int),
        rows_ordered(old(placements)@, *board, pentominoes@, rot, refl) && piece_rows_before(
            old(placements)@,
            *board,
            pentominoes@,
            rot,
            refl,
            i as int,
            y * board.dimX + x,
            vi as int,
        ) ==> rows_ordered(final(placements)@, *board, pentominoes@, rot, refl) && piece_rows_before(
            final(placements)@,
            *board,
            pentominoes@,
            rot,
            refl,
            i as int,
            y * board.dimX + x,
            vi + 1,
        ),
{
    let ghost n = pentominoes@.len() as int;
    let ghost area = board.dimX * board.dimY;
    let ghost p = pentominoes@[i as int];
    let ghost a = turn_of(vi as int, rot);
    let ghost b = mirror_of(vi as int, rot);
    proof {
        lemma_variant_equiv(*board, p, *perm, a, b, i as int, n, x as int, y as int);
    }
    let ghost ps0 = placements@;
    if board.canPlace(perm, x, y) {
        let pl = make_placement(board, perm, i, pentominoes.len(), x, y);
        let ghost plv = pl;
        proof {
            assert(placed_as(plv, *board, p, a, b, i as int, n, x as int, y as int));
            assert(sound(plv, *board, pentominoes@, rot, refl));
            lemma_found_grows(ps0, plv, *board, pentominoes@, rot, refl, i as int, y * board.dimX + x, vi as int);
        }
        add_placement(placements, columns, pl);
        proof {
            assert(plv.filled_view()[0] == i);
            assert(placed_at(plv, *board, pentominoes@, rot, refl, vi as int, x as int, y as int));
            lemma_order_step(ps0, placements@, plv, *board, pentominoes@, rot, refl, i as int, vi as int, x as int, y as int);
        }
        proof {
            let ps1 = placements@;
            if pieces_in_order(ps0, i as int) && ps1 != ps0 {
                assert(ps1 == ps0.push(plv));
                assert(plv.filled_view()[0] == i);
                assert forall|k1: int, k2: int|
                    0 <= k1 < k2 < ps1.len() implies (#[trigger] ps1[k1]).filled_view()[0] <= (
                    #[trigger] ps1[k2]).filled_view()[0] by {
                    assert(ps1[k1] == ps0[k1]);
                    if k2 < ps0.len() {
                        assert(ps1[k2] == ps0[k2]);
                    }
                }
                assert forall|k: int| 0 <= k < ps1.len() implies (#[trigger] ps1[k]).filled_view()[0] <= i by {
                    if k < ps0.len() {
                        assert(ps1[k] == ps0[k]);
                    }
                }
            }
            let k = choose|k: int| 0 <= k < ps1.len() && (#[trigger] ps1[k]).inner_view() == plv.inner_view();
            assert(placement_ok(ps1[k], ps1[k].filled_view()[0] as int, n, area)) by {
                if ps1 == ps0.push(plv) {
                    if k < ps0.len() {
                        assert(ps1[k] == ps0[k]);
                    }
                } else {
                    assert(ps1[k] == ps0[k]);
                }
            }
            lemma_same_flags_same_piece(ps1[k], plv, ps1[k].filled_view()[0] as int, i as int, n, area);
            assert(placed_as(ps1[k], *board, p, a, b, i as int, n, x as int, y as int));
            if ps1 == ps0 {
                assert(gen_ok(ps1, columns@, *board, pentominoes@, rot, refl));
            }
            assert forall|i2: int, v2: int, x2: int, y2: int|
                0 <= i2 < pentominoes@.len() && 0 <= v2 < nvariants(rot, refl) && 0 <= x2 < board.dimX && 0 <= y2
                    < board.dimY && (i2 < i || (i2 == i && (y2 * board.dimX + x2 < y * board.dimX + x || (y2
                    * board.dimX + x2 == y * board.dimX + x && v2 < vi + 1)))) && #[trigger] fits_variant(
                    *board,
                    pentominoes@[i2],
                    turn_of(v2, rot),
                    mirror_of(v2, rot),
                    x2,
                    y2,
                ) implies found(ps1, *board, pentominoes@[i2], turn_of(v2, rot), mirror_of(v2, rot), i2, n, x2, y2) by {
                if i2 == i && y2 * board.dimX + x2 == y * board.dimX + x && v2 == vi {
                    crate::dlink::lemma_index_inj(board.dimX as int, y2, x2, y as int, x as int);
                    assert(placed_as(ps1[k], *board, pentominoes@[i2], turn_of(v2, rot), mirror_of(v2, rot), i2, n, x2, y2));
                } else if ps1 == ps0 {
                } else {
                    let k2 = choose|k2: int| 0 <= k2 < ps0.len() && placed_as(#[trigger] ps0[k2], *board, pentominoes@[i2], turn_of(v2, rot), mirror_of(v2, rot), i2, n, x2, y2);
                    assert(ps1[k2] == ps0[k2]);
                }
            }
        }
    } else {
        proof {
            if piece_rows_before(ps0, *board, pentominoes@, rot, refl, i as int, y * board.dimX + x, vi as int) {
                lemma_order_keep(ps0, *board, pentominoes@, rot, refl, i as int, y * board.dimX + x, vi as int);
            }
            assert forall|i2: int, v2: int, x2: int, y2: int|
                0 <= i2 < pentominoes@.len() && 0 <= v2 < nvariants(rot, refl) && 0 <= x2 < board.dimX && 0 <= y2
                    < board.dimY && (i2 < i || (i2 == i && (y2 * board.dimX + x2 < y * board.dimX + x || (y2
                    * board.dimX + x2 == y * board.dimX + x && v2 < vi + 1)))) && #[trigger] fits_variant(
                    *board,
                    pentominoes@[i2],
                    turn_of(v2, rot),
                    mirror_of(v2, rot),
                    x2,
                    y2,
                ) implies found(ps0, *board, pentominoes@[i2], turn_of(v2, rot), mirror_of(v2, rot), i2, n, x2, y2) by {
                if i2 == i && y2 * board.dimX + x2 == y * board.dimX + x && v2 == vi {
                    crate::dlink::lemma_index_inj(board.dimX as int, y2, x2, y as int, x as int);
                }
            }
        }
    }
}

/// Finds every way to place each piece (or, with the flags, each of its
/// turns and mirror images) on the board, one row per distinct set of
/// filled columns: the column of piece `i` is `i`, the column of board
/// cell (x, y) is `pieces + y * width + x`. Each row is a variant of its
/// piece placed where it fits, and each variant that fits somewhere has
/// its row. Returns each column's status and row count, and the rows; a
/// column no row fills is marked done.
pub fn generatePlacements(
    board: &Pentomino,
    pentominoes: &Vec<Pentomino>,
    useRotations: bool,
    useReflections: bool,
) -> (r: (Vec<MatrixColumn>, Vec<Placement>))
    requires
        board.wf(),
        forall|k: int| 0 <= k < pentominoes@.len() ==> (#[trigger] pentominoes@[k]).wf(),
        pentominoes@.len() + board.dimX * board.dimY <= usize::MAX,
    ensures
        r.0@.len() == pentominoes@.len() + board.dimX * board.dimY,
        forall|j: int|
            0 <= j < r.0@.len() ==> (#[trigger] r.0@[j]).1 == count_col(r.1@, j) && (r.0@[j].0 <==> (j
                < pentominoes@.len() || r.0@[j].1 > 0)) && (r.0@[j].1 > 0 <==> column_filled(r.1@, j)),
        columns_ok(r.1@, r.0@),
        forall|k: int|
            0 <= k < r.1@.len() ==> (#[trigger] r.1@[k]).filled_view()[0] < pentominoes@.len() && placement_ok(
                r.1@[k],
                r.1@[k].filled_view()[0] as int,
                pentominoes@.len() as int,
                board.dimX * board.dimY,
            ),
        distinct_rows(r.1@),
        forall|k: int|
            0 <= k < r.1@.len() ==> fills_some(#[trigger] r.1@[k], pentominoes@.len() + board.dimX * board.dimY),
        forall|k1: int, k2: int|
            0 <= k1 < k2 < r.1@.len() ==> (#[trigger] r.1@[k1]).filled_view()[0] <= (#[trigger] r.1@[k2]).filled_view()[0],
        rows_ordered(r.1@, *board, pentominoes@, useRotations, useReflections),
        forall|k: int| 0 <= k < r.1@.len() ==> sound(#[trigger] r.1@[k], *board, pentominoes@, useRotations, useReflections),
        complete(r.1@, *board, pentominoes@, useRotations, useReflections, pentominoes@.len() as int, 0, 0),
{
    let offset = pentominoes.len();
    let area = board.area();
    let cols = area + offset;
    let mut placements: Vec<Placement> = Vec::new();
    let mut columns: Vec<MatrixColumn> = Vec::new();
    let mut j: usize = 0;
    while j < cols
        invariant
            j <= cols,
            columns@.len() == j,
            forall|q: int| 0 <= q < j ==> #[trigger] columns@[q] == (true, 0usize),
        decreases cols - j,
    {
        columns.push((true, 0));
        j = j + 1;
    }
    let mut i: usize = 0;
    while i < offset
        invariant
            board.wf(),
            forall|k: int| 0 <= k < pentominoes@.len() ==> (#[trigger] pentominoes@[k]).wf(),
            offset == pentominoes@.len(),
            area == board.dimX * board.dimY,
            cols == offset + area,
            cols <= usize::MAX,
            i <= offset,
            gen_ok(placements@, columns@, *board, pentominoes@, useRotations, useReflections),
            complete(placements@, *board, pentominoes@, useRotations, useReflections, i as int, 0, 0),
            pieces_in_order(placements@, i as int),
            forall|k: int| 0 <= k < placements@.len() ==> (#[trigger] placements@[k]).filled_view()[0] < i,
            rows_ordered(placements@, *board, pentominoes@, useRotations, useReflections),
        decreases offset - i,
    {
        let perms = variants(&pentominoes[i], useRotations, useReflections);
        proof {
            assert forall|k: int|
                0 <= k < placements@.len() && (#[trigger] placements@[k]).filled_view()[0] == i implies placed_before(
                placements@[k],
                *board,
                pentominoes@,
                useRotations,
                useReflections,
                0,
                0,
            ) by {}
        }
        let mut c: usize = 0;
        while c < area
            invariant
                board.wf(),
                forall|k: int| 0 <= k < pentominoes@.len() ==> (#[trigger] pentominoes@[k]).wf(),
                offset == pentominoes@.len(),
                area == board.dimX * board.dimY,
                cols == offset + area,
                cols <= usize::MAX,
                i < offset,
                c <= area,
                perms@.len() == nvariants(useRotations, useReflections),
                forall|k: int| 0 <= k < perms@.len() ==> (#[trigger] perms@[k]).wf(),
                forall|k: int|
                    0 <= k < perms@.len() ==> is_variant(
                        pentominoes@[i as int],
                        #[trigger] perms@[k],
                        turn_of(k, useRotations),
                        mirror_of(k, useRotations),
                    ),
                gen_ok(placements@, columns@, *board, pentominoes@, useRotations, useReflections),
                complete(placements@, *board, pentominoes@, useRotations, useReflections, i as int, c as int, 0),
                pieces_in_order(placements@, i as int),
                rows_ordered(placements@, *board, pentominoes@, useRotations, useReflections),
                piece_rows_before(placements@, *board, pentominoes@, useRotations, useReflections, i as int, c as int, 0),
            decreases area - c,
        {
            let (x, y) = board.getCoordinates(c);
            let mut v: usize = 0;
            while v < perms.len()
                invariant
                    board.wf(),
                    offset == pentominoes@.len(),
                    area == board.dimX * board.dimY,
                    cols == offset + area,
                    cols <= usize::MAX,
                    i < offset,
                    c < area,
                    x < board.dimX,
                    y < board.dimY,
                    y * board.dimX + x == c,
                    v <= perms@.len(),
                    perms@.len() == nvariants(useRotations, useReflections),
                    forall|k: int| 0 <= k < perms@.len() ==> (#[trigger] perms@[k]).wf(),
                    forall|k: int|
                        0 <= k < perms@.len() ==> is_variant(
                            pentominoes@[i as int],
                            #[trigger] perms@[k],
                            turn_of(k, useRotations),
                            mirror_of(k, useRotations),
                        ),
                    gen_ok(placements@, columns@, *board, pentominoes@, useRotations, useReflections),
                    complete(placements@, *board, pentominoes@, useRotations, useReflections, i as int, c as int, v as int),
                    pieces_in_order(placements@, i as int),
                    rows_ordered(placements@, *board, pentominoes@, useRotations, useReflections),
                    piece_rows_before(
                        placements@,
                        *board,
                        pentominoes@,
                        useRotations,
                        useReflections,
                        i as int,
                        c as int,
                        v as int,
                    ),
                decreases perms@.len() - v,
            {
                try_place(
                    board,
                    pentominoes,
                    useRotations,
                    useReflections,
                    i,
                    &perms[v],
                    v,
                    x,
                    y,
                    &mut placements,
                    &mut columns,
                );
                v = v + 1;
            }
            proof {
                lemma_complete_next_cell(placements@, *board, pentominoes@, useRotations, useReflections, i as int, c as int);
                lemma_order_next_cell(placements@, *board, pentominoes@, useRotations, useReflections, i as int, c as int);
            }
            c = c + 1;
        }
        proof {
            lemma_complete_next_piece(placements@, *board, pentominoes@, useRotations, useReflections, i as int);
        }
        i = i + 1;
    }
    let mut j: usize = 0;
    while j < cols
        invariant
            j <= cols,
            cols == offset + area,
            offset == pentominoes@.len(),
            area == board.dimX * board.dimY,
            columns@.len() == cols,
            forall|q: int| 0 <= q < cols ==> count_col(placements@, q) <= usize::MAX,
            forall|q: int| 0 <= q < j ==> (#[trigger] columns@[q]).1 == count_col(placements@, q) && (columns@[q].0
                <==> (q < offset || columns@[q].1 > 0)),
            forall|q: int| j <= q < cols ==> #[trigger] columns@[q] == (true, count_col(placements@, q) as usize),
        decreases cols - j,
    {
        if j >= offset && columns[j].1 == 0 {
            columns.set(j, (false, 0));
        }
        j = j + 1;
    }
    proof {
        assert forall|q: int| 0 <= q < cols implies (#[trigger] columns@[q]).1 > 0 <==> column_filled(placements@, q) by {
            lemma_count_pos(placements@, q);
        }
        assert forall|q: int, k: int|
            0 <= q < columns@.len() && 0 <= k < placements@.len() && #[trigger] placements@[k].inner_view()[q]
                implies (#[trigger] columns@[q]).0 by {
            lemma_count_pos(placements@, q);
        }
        assert forall|k: int| 0 <= k < placements@.len() implies fills_some(
            #[trigger] placements@[k],
            (offset + area) as int,
        ) by {
            let p = placements@[k];
            assert(p.filled_view()[0] < offset);
            assert(p.inner_view()[p.filled_view()[0] as int]);
        }
    }
    (columns, placements)
}

proof fn lemma_complete_next_cell(ps: Seq<Placement>, board: Pentomino, pieces: Seq<Pentomino>, rot: bool, refl: bool, i: int, c: int)
    requires
        complete(ps, board, pieces, rot, refl, i, c, nvariants(rot, refl)),
    ensures
        complete(ps, board, pieces, rot, refl, i, c + 1, 0),
{
    assert forall|i2: int, vi: int, x: int, y: int|
        0 <= i2 < pieces.len() && 0 <= vi < nvariants(rot, refl) && 0 <= x < board.dimX && 0 <= y < board.dimY
            && (i2 < i || (i2 == i && (y * board.dimX + x < c + 1 || (y * board.dimX + x == c + 1 && vi < 0))))
            && #[trigger] fits_variant(board, pieces[i2], turn_of(vi, rot), mirror_of(vi, rot), x, y)
            implies found(ps, board, pieces[i2], turn_of(vi, rot), mirror_of(vi, rot), i2, pieces.len() as int, x, y) by {
    }
}

proof fn lemma_complete_next_piece(ps: Seq<Placement>, board: Pentomino, pieces: Seq<Pentomino>, rot: bool, refl: bool, i: int)
    requires
        board.wf(),
        complete(ps, board, pieces, rot, refl, i, board.dimX * board.dimY, 0),
    ensures
        complete(ps, board, pieces, rot, refl, i + 1, 0, 0),
{
    assert forall|i2: int, vi: int, x: int, y: int|
        0 <= i2 < pieces.len() && 0 <= vi < nvariants(rot, refl) && 0 <= x < board.dimX && 0 <= y < board.dimY
            && (i2 < i + 1 || (i2 == i + 1 && (y * board.dimX + x < 0 || (y * board.dimX + x == 0 && vi < 0))))
            && #[trigger] fits_variant(board, pieces[i2], turn_of(vi, rot), mirror_of(vi, rot), x, y)
            implies found(ps, board, pieces[i2], turn_of(vi, rot), mirror_of(vi, rot), i2, pieces.len() as int, x, y) by {
        crate::dlink::lemma_index(board.dimY as int, board.dimX as int, y, x);
        assert(board.dimY * board.dimX == board.dimX * board.dimY) by (nonlinear_arith);
    }
}

/// `sol` (placement indices) covers every open column exactly once.
pub open spec fn covers_exactly(ps: Seq<Placement>, columns: Seq<MatrixColumn>, sol: Seq<usize>) -> bool {
    &&& forall|k: int| 0 <= k < sol.len() ==> (#[trigger] sol[k]) < ps.len()
    &&& forall|j: int|
        0 <= j < columns.len() && (#[trigger] columns[j]).0 ==> exists|k: int|
            0 <= k < sol.len() && ps[sol[k] as int].inner_view()[j]
    &&& forall|k1: int, k2: int, j: int|
        0 <= k1 < sol.len() && 0 <= k2 < sol.len() && k1 != k2 && 0 <= j < columns.len() ==> !(
        #[trigger] ps[sol[k1] as int].inner_view()[j] && #[trigger] ps[sol[k2] as int].inner_view()[j])
}

/// The matrix row of a placement: nothing in the root's column, then an
/// entry in column `j + 1` wherever the placement fills column `j`.
fn row_nodes(p: &Placement, cols: usize) -> (v: Vec<DancingNode>)
    requires
        p.inner_view().len() == cols,
        cols < usize::MAX,
    ensures
        v@.len() == cols + 1,
        forall|c: int| #[trigger] entry_cols(v@).contains(c) <==> (1 <= c <= cols && p.inner_view()[c - 1]),
{
    let mut v: Vec<DancingNode> = Vec::new();
    v.push(DancingNode::EmptyNode);
    let mut j: usize = 0;
    while j < cols
        invariant
            p.inner_view().len() == cols,
            cols < usize::MAX,
            j <= cols,
            v@.len() == j + 1,
            !(v@[0] is InnerNode),
            forall|c: int| 1 <= c <= j ==> (#[trigger] v@[c] is InnerNode <==> p.inner_view()[c - 1]),
        decreases cols - j,
    {
        if p.inner()[j] {
            v.push(DancingNode::InnerNode(LinkedNode { up: 0, down: 0, left: 0, right: 0 }, j + 1));
        } else {
            v.push(DancingNode::EmptyNode);
        }
        j = j + 1;
    }
    proof {
        assert forall|c: int| #[trigger] entry_cols(v@).contains(c) <==> (1 <= c <= cols && p.inner_view()[c - 1]) by {}
    }
    v
}

/// Some placement fills column `j`.
pub open spec fn column_filled(ps: Seq<Placement>, j: int) -> bool {
    exists|k: int| 0 <= k < ps.len() && #[trigger] ps[k].inner_view()[j]
}

/// Every column that some placement fills is open.
pub open spec fn columns_ok(ps: Seq<Placement>, columns: Seq<MatrixColumn>) -> bool {
    forall|j: int, k: int|
        0 <= j < columns.len() && 0 <= k < ps.len() && #[trigger] ps[k].inner_view()[j] ==> (#[trigger] columns[j]).0
}

/// No two placements fill the same columns.
pub open spec fn distinct_inner(ps: Seq<Placement>) -> bool {
    forall|k1: int, k2: int|
        0 <= k1 < k2 < ps.len() ==> (#[trigger] ps[k1]).inner_view() != (#[trigger] ps[k2]).inner_view()
}

/// Matrix row `r` stands for placement `row_of[r - 1]`: it has an entry in
/// column `j + 1` exactly where that placement fills column `j`.
pub open spec fn rows_match(t: MatrixState, ps: Seq<Placement>, row_of: Seq<usize>, cols: int) -> bool {
    &&& t.rows() == row_of.len() + 1
    &&& t.cols() == cols + 1
    &&& forall|k: int| 0 <= k < row_of.len() ==> (#[trigger] row_of[k]) < ps.len()
    &&& forall|r: int, c: int|
        1 <= r < t.rows() && 1 <= c <= cols ==> (#[trigger] t.has(r, c) <==> ps[row_of[r - 1] as int].inner_view()[c
            - 1])
}

/// Builds the matrix of the placements, one row per distinct row of flags,
/// with the columns that no placement fills taken out of the header ring.
fn build_matrix(placements: &Vec<Placement>, columns: &Vec<MatrixColumn>) -> (res: (DancingMatrix, Vec<usize>))
    requires
        columns@.len() + 1 < usize::MAX,
        (placements@.len() + 1) * (columns@.len() + 1) + columns@.len() + 1 <= usize::MAX,
        forall|k: int| 0 <= k < placements@.len() ==> (#[trigger] placements@[k]).inner_view().len() == columns@.len(),
        columns_ok(placements@, columns@),
    ensures
        res.0.inv(),
        searchable(res.0@),
        res.0.frames().len() == 0,
        frames_ok(res.0@, res.0.frames()),
        rows_match(res.0@, placements@, res.1@, columns@.len() as int),
        forall|c: int| #[trigger] res.0@.heads.contains(c) <==> (1 <= c <= columns@.len() && columns@[c - 1].0),
        forall|p: (int, int)| #[trigger] res.0@.live.contains(p) <==> res.0@.has(p.0, p.1),
        distinct_inner(placements@) ==> res.1@.len() == placements@.len() && forall|q: int|
            0 <= q < res.1@.len() ==> #[trigger] res.1@[q] == q,
        forall|q1: int, q2: int| 0 <= q1 < q2 < res.1@.len() ==> #[trigger] res.1@[q1] < #[trigger] res.1@[q2],
{
    let cols = columns.len();
    let mut m = DancingMatrix::new(cols);
    let mut row_of: Vec<usize> = Vec::new();
    let mut k: usize = 0;
    proof {
        assert forall|p: (int, int)| m@.live.contains(p) <==> m@.has(p.0, p.1) by {}
        assert(m@.rows_whole());
    }
    while k < placements.len()
        invariant
            cols == columns@.len(),
            cols + 1 < usize::MAX,
            (placements@.len() + 1) * (cols + 1) + cols + 1 <= usize::MAX,
            forall|q: int| 0 <= q < placements@.len() ==> (#[trigger] placements@[q]).inner_view().len() == cols,
            k <= placements@.len(),
            row_of@.len() <= k,
            m.inv(),
            m@.wf(),
            m@.rows_whole(),
            m.frames().len() == 0,
            m@.heads == Set::new(|c: int| 1 <= c <= cols),
            forall|p: (int, int)| #[trigger] m@.live.contains(p) <==> m@.has(p.0, p.1),
            forall|q: int| 0 <= q < row_of@.len() ==> (#[trigger] row_of@[q]) < k,
            forall|q1: int, q2: int| 0 <= q1 < q2 < row_of@.len() ==> #[trigger] row_of@[q1] < #[trigger] row_of@[q2],
            distinct_inner(placements@) ==> row_of@.len() == k && forall|q: int|
                0 <= q < row_of@.len() ==> #[trigger] row_of@[q] == q,
            rows_match(m@, placements@, row_of@, cols as int),
            forall|q: int, j: int|
                0 <= q < k && 0 <= j < cols && #[trigger] placements@[q].inner_view()[j] ==> exists|r: int|
                    1 <= r < m@.rows() && #[trigger] m@.has(r, j + 1),
        decreases placements@.len() - k,
    {
        let v = row_nodes(&placements[k], cols);
        let ghost s = m@;
        proof {
            assert(m@.rows() * m@.cols() + m@.cols() <= usize::MAX) by (nonlinear_arith)
                requires
                    m@.rows() <= k + 1,
                    k + 1 <= placements@.len() + 1,
                    m@.cols() == cols + 1,
                    (placements@.len() + 1) * (cols + 1) + cols + 1 <= usize::MAX,
            ;
        }
        let added = m.insert(v);
        proof {
            if distinct_inner(placements@) && !added {
                let r = choose|r: int| 1 <= r < s.rows() && #[trigger] s.in_row(r) == entry_cols(v@);
                let pa = placements@[r - 1].inner_view();
                let pb = placements@[k as int].inner_view();
                assert forall|j: int| 0 <= j < cols implies pa[j] == pb[j] by {
                    assert(s.in_row(r).contains(j + 1) == s.has(r, j + 1));
                    assert(entry_cols(v@).contains(j + 1) <==> pb[j]);
                }
                assert(pa =~= pb);
                assert(placements@[r - 1].inner_view() != placements@[k as int].inner_view());
            }
        }
        if added {
            row_of.push(k);
        }
        proof {
            let t = m@;
            if added {
                assert forall|r: int, c: int|
                    1 <= r < t.rows() && 1 <= c <= cols implies (#[trigger] t.has(r, c) <==> placements@[row_of@[r
                        - 1] as int].inner_view()[c - 1]) by {
                    assert(t.in_row(r).contains(c) == t.has(r, c));
                    if r < s.rows() {
                        assert(s.in_row(r).contains(c) == s.has(r, c));
                    } else {
                        assert(entry_cols(v@).contains(c) <==> placements@[k as int].inner_view()[c - 1]);
                    }
                }
                assert forall|p: (int, int)| #[trigger] t.live.contains(p) <==> t.has(p.0, p.1) by {
                    assert(t.in_row(p.0).contains(p.1) == t.has(p.0, p.1));
                    if 0 <= p.0 < s.rows() {
                        assert(s.in_row(p.0).contains(p.1) == s.has(p.0, p.1));
                    }
                }
            }
            assert forall|q: int, j: int|
                0 <= q < k + 1 && 0 <= j < cols && #[trigger] placements@[q].inner_view()[j] implies exists|r: int|
                    1 <= r < t.rows() && #[trigger] t.has(r, j + 1) by {
                if q == k {
                    if added {
                        assert(t.has(s.rows(), j + 1));
                    } else {
                        let r = choose|r: int| 1 <= r < s.rows() && #[trigger] s.in_row(r) == entry_cols(v@);
                        assert(s.in_row(r).contains(j + 1));
                        assert(s.has(r, j + 1));
                    }
                } else {
                    let r = choose|r: int| 1 <= r < s.rows() && #[trigger] s.has(r, j + 1);
                    if added {
                        assert(t.in_row(r) == s.in_row(r));
                        assert(s.in_row(r).contains(j + 1));
                        assert(t.has(r, j + 1));
                    }
                }
            }
        }
        k = k + 1;
    }
    let ghost full = m@;
    let mut j: usize = 0;
    while j < cols
        invariant
            cols == columns@.len(),
            cols + 1 < usize::MAX,
            j <= cols,
            m.inv(),
            m@.wf(),
            m@.rows_whole(),
            m.frames().len() == 0,
            m@.live == full.live,
            forall|r: int, c: int| #[trigger] m@.has(r, c) == full.has(r, c),
            m@.rows() == full.rows(),
            m@.cols() == cols + 1,
            forall|p: (int, int)| #[trigger] full.live.contains(p) <==> full.has(p.0, p.1),
            forall|c: int| #[trigger] m@.heads.contains(c) <==> (1 <= c <= cols && (c > j || columns@[c - 1].0)),
        decreases cols - j,
    {
        if !columns[j].0 {
            let ghost s = m@;
            proof {
                assert(s.heads.contains(j + 1));
                lemma_cover_start(s, j + 1);
                lemma_covered_basic(s, s.unlinked_col(j + 1), j + 1, Set::empty());
                crate::dlink::lemma_header_facts(s);
                assert(s.kinds());
            }
            m.deleteCol(j + 1);
            proof {
                let t = m@;
                assert(t.live =~= s.live);
                assert forall|r: int, c: int, d: int|
                    #![trigger t.live.contains((r, c)), t.has(r, d)]
                    t.heads.contains(c) && t.live.contains((r, c)) && t.has(r, d) implies t.live.contains((r, d)) by {
                    assert(s.live.contains((r, c)));
                }
            }
        }
        j = j + 1;
    }
    proof {
        let t = m@;
        assert forall|r: int, c: int, d: int|
            #![trigger t.live.contains((r, c)), t.has(r, d)]
            t.heads.contains(c) && t.live.contains((r, c)) && t.has(r, d) implies t.heads.contains(d) by {
            crate::dlink::lemma_live_has(t);
            assert(1 <= d <= cols);
            assert(placements@[row_of@[r - 1] as int].inner_view()[d - 1]);
        }
    }
    (m, row_of)
}

#[verifier::rlimit(60)]
proof fn lemma_rows_to_placements(
    t: MatrixState,
    ps: Seq<Placement>,
    columns: Seq<MatrixColumn>,
    row_of: Seq<usize>,
    f: Seq<usize>,
    sol: Seq<usize>,
)
    requires
        t.wf(),
        rows_match(t, ps, row_of, columns.len() as int),
        forall|c: int| #[trigger] t.heads.contains(c) <==> (1 <= c <= columns.len() && columns[c - 1].0),
        exact_cover(t, as_rows(f)),
        sol.len() == f.len(),
        forall|k: int| 0 <= k < f.len() ==> 1 <= #[trigger] f[k] < t.rows() && sol[k] == row_of[f[k] - 1],
    ensures
        covers_exactly(ps, columns, sol),
{
    reveal(exact_cover);
    let rows = as_rows(f);
    assert forall|k: int| 0 <= k < sol.len() implies (#[trigger] sol[k]) < ps.len() by {
        assert(1 <= f[k] < t.rows());
    }
    assert forall|j: int|
        0 <= j < columns.len() && (#[trigger] columns[j]).0 implies exists|k: int|
            0 <= k < sol.len() && ps[sol[k] as int].inner_view()[j] by {
        assert(t.heads.contains(j + 1));
        let k = choose|k: int| 0 <= k < rows.len() && #[trigger] t.has(rows[k], j + 1);
        assert(rows[k] == f[k] as int);
        assert(ps[sol[k] as int].inner_view()[j]);
    }
    assert forall|k1: int, k2: int, j: int|
        0 <= k1 < sol.len() && 0 <= k2 < sol.len() && k1 != k2 && 0 <= j < columns.len() implies !(
        #[trigger] ps[sol[k1] as int].inner_view()[j] && #[trigger] ps[sol[k2] as int].inner_view()[j]) by {
        assert(rows[k1] == f[k1] as int);
        assert(rows[k2] == f[k2] as int);
        assert(!(t.has(rows[k1], j + 1) && t.has(rows[k2], j + 1)));
    }
}

proof fn lemma_rows_in_range(t: MatrixState, f: Seq<usize>)
    requires
        t.wf(),
        exact_cover(t, as_rows(f)),
    ensures
        forall|k: int| 0 <= k < f.len() ==> 1 <= #[trigger] f[k] < t.rows(),
{
    reveal(exact_cover);
    crate::dlink::lemma_live_has(t);
    assert forall|k: int| 0 <= k < f.len() implies 1 <= #[trigger] f[k] < t.rows() by {
        assert(as_rows(f)[k] == f[k] as int);
        let c = choose|c: int| #[trigger] t.heads.contains(c) && t.live.contains((as_rows(f)[k], c));
    }
}

/// Finds the exact covers of the open columns: sets of placements (by
/// index) that fill each open column exactly once, reported in the order
/// the search meets them. Closed columns (obstacle cells) are left out; an
/// open column that no placement fills (a piece that fits nowhere) admits
/// no cover, so none is reported. Stops after `maxSolutions` covers (0: no
/// bound). Returns their number and them. No set of placements is reported
/// twice, and when the placements are distinct rows that each fill some
/// column (as `generatePlacements` makes them) and the search did not stop
/// at the bound, every cover is reported. The covers are collected and
/// returned together rather than handed to a callback as they are found:
/// the recursive search would have to carry a closure and its
/// specification through every level.
pub fn solve(
    placements: &Vec<Placement>,
    columns: &Vec<MatrixColumn>,
    maxSolutions: usize,
) -> (r: (usize, Vec<Vec<usize>>))
    requires
        columns@.len() + 1 < usize::MAX,
        (placements@.len() + 1) * (columns@.len() + 1) + columns@.len() + 1 <= usize::MAX,
        forall|k: int| 0 <= k < placements@.len() ==> (#[trigger] placements@[k]).inner_view().len() == columns@.len(),
        columns_ok(placements@, columns@),
    ensures
        r.0 == r.1@.len(),
        maxSolutions != 0 ==> r.0 <= maxSolutions,
        forall|k: int| 0 <= k < r.1@.len() ==> covers_exactly(placements@, columns@, (#[trigger] r.1@[k])@),
        (exists|j: int|
            0 <= j < columns@.len() && (#[trigger] columns@[j]).0 && !column_filled(placements@, j)) ==> r.0 == 0,
        forall|k1: int, k2: int|
            0 <= k1 < k2 < r.1@.len() ==> (#[trigger] r.1@[k1])@.to_set() != (#[trigger] r.1@[k2])@.to_set(),
        distinct_inner(placements@) && (forall|k: int|
            0 <= k < placements@.len() ==> fills_some(#[trigger] placements@[k], columns@.len() as int)) && (
        maxSolutions == 0 || r.0 < maxSolutions) && r.0 < usize::MAX ==> all_found(
            placements@,
            columns@,
            r.1@,
        ),
{
    let (mut m, row_of) = build_matrix(placements, columns);
    let ghost t = m@;
    let mut current: Vec<usize> = Vec::new();
    let mut found: Vec<Vec<usize>> = Vec::new();
    let mut count: usize = 0;
    search(&mut m, &mut current, &mut found, &mut count, maxSolutions);
    let mut out: Vec<Vec<usize>> = Vec::new();
    let mut k: usize = 0;
    while k < found.len()
        invariant
            k <= found@.len(),
            out@.len() == k,
            t.wf(),
            rows_match(t, placements@, row_of@, columns@.len() as int),
            forall|c: int| #[trigger] t.heads.contains(c) <==> (1 <= c <= columns@.len() && columns@[c - 1].0),
            forall|q: int|
                0 <= q < found@.len() ==> exact_cover(
                    t,
                    as_rows((#[trigger] found@[q])@.subrange(0, found@[q]@.len() as int)),
                ),
            forall|q: int| 0 <= q < k ==> covers_exactly(placements@, columns@, (#[trigger] out@[q])@),
            distinct_inner(placements@) ==> row_of@.len() == placements@.len() && forall|q: int|
                0 <= q < row_of@.len() ==> #[trigger] row_of@[q] == q,
            distinct_inner(placements@) ==> forall|q: int| 0 <= q < k ==> shifted((#[trigger] out@[q])@, found@[q]@),
            forall|q: int| 0 <= q < k ==> mapped((#[trigger] out@[q])@, found@[q]@, row_of@),
            forall|q1: int, q2: int| 0 <= q1 < q2 < row_of@.len() ==> #[trigger] row_of@[q1] < #[trigger] row_of@[q2],
            distinct_sets(found@, 0, 0),
        decreases found@.len() - k,
    {
        let f = &found[k];
        proof {
            assert(f@.subrange(0, f@.len() as int) =~= f@);
            lemma_rows_in_range(t, f@);
        }
        let mut sol: Vec<usize> = Vec::new();
        let mut i: usize = 0;
        while i < f.len()
            invariant
                i <= f@.len(),
                sol@.len() == i,
                row_of@.len() + 1 == t.rows(),
                forall|q: int| 0 <= q < f@.len() ==> 1 <= #[trigger] f@[q] < t.rows(),
                forall|q: int| 0 <= q < i ==> #[trigger] sol@[q] == row_of@[f@[q] - 1],
            decreases f@.len() - i,
        {
            sol.push(row_of[f[i] - 1]);
            i = i + 1;
        }
        proof {
            lemma_rows_to_placements(t, placements@, columns@, row_of@, f@, sol@);
            assert(mapped(sol@, f@, row_of@));
            if distinct_inner(placements@) {
                assert forall|i2: int| 0 <= i2 < f@.len() implies #[trigger] sol@[i2] as int == f@[i2] as int - 1 by {
                    assert(row_of@[f@[i2] - 1] == f@[i2] - 1);
                }
            }
        }
        let ghost out0 = out@;
        out.push(sol);
        proof {
            if distinct_inner(placements@) {
                assert forall|q: int| 0 <= q < k + 1 implies shifted((#[trigger] out@[q])@, found@[q]@) by {
                    if q < k {
                        assert(out@[q] == out0[q]);
                    }
                }
            }
            assert forall|q: int| 0 <= q < k + 1 implies mapped((#[trigger] out@[q])@, found@[q]@, row_of@) by {
                if q < k {
                    assert(out@[q] == out0[q]);
                }
            }
        }
        k = k + 1;
    }
    proof {
        assert(found@.len() == count);
        assert forall|k1: int, k2: int| 0 <= k1 < k2 < out@.len() implies (#[trigger] out@[k1])@.to_set() != (
        #[trigger] out@[k2])@.to_set() by {
            reveal(distinct_sets);
            lemma_mapped_distinct(found@[k1], out@[k1]@, found@[k2], out@[k2]@, row_of@);
        }
        if out@.len() > 0 {
            assert(covers_exactly(placements@, columns@, out@[0]@));
            if exists|j: int| 0 <= j < columns@.len() && (#[trigger] columns@[j]).0 && !column_filled(placements@, j) {
                let j = choose|j: int| 0 <= j < columns@.len() && (#[trigger] columns@[j]).0 && !column_filled(placements@, j);
                let sol = out@[0]@;
                let k = choose|k: int| 0 <= k < sol.len() && placements@[sol[k] as int].inner_view()[j];
                assert(placements@[sol[k] as int].inner_view()[j]);
            }
        }
        if distinct_inner(placements@) {
            lemma_solve_result(t, placements@, columns@, row_of@, found@, out@, maxSolutions, count);
        }
    }
    (count, out)
}

/// The placement fills at least one of the first `n` columns.
pub open spec fn fills_some(p: Placement, n: int) -> bool {
    exists|j: int| 0 <= j < n && #[trigger] p.inner_view()[j]
}

/// Every exact cover of the open columns by placements is among `outs`,
/// as a set of placements.
pub open spec fn all_found(ps: Seq<Placement>, columns: Seq<MatrixColumn>, outs: Seq<Vec<usize>>) -> bool {
    forall|sol: Seq<usize>| #[trigger]
        covers_exactly(ps, columns, sol) ==> exists|k: int| 0 <= k < outs.len() && (#[trigger] outs[k])@.to_set() == sol.to_set()
}

/// `o` is `f` with each matrix row `r` replaced by placement `row_of[r - 1]`.
pub open spec fn mapped(o: Seq<usize>, f: Seq<usize>, row_of: Seq<usize>) -> bool {
    &&& o.len() == f.len()
    &&& forall|i: int| 0 <= i < f.len() ==> 1 <= #[trigger] f[i] <= row_of.len() && o[i] == row_of[f[i] - 1]
}

proof fn lemma_mapped_distinct(f1: Vec<usize>, o1: Seq<usize>, f2: Vec<usize>, o2: Seq<usize>, row_of: Seq<usize>)
    requires
        mapped(o1, f1@, row_of),
        mapped(o2, f2@, row_of),
        forall|q1: int, q2: int| 0 <= q1 < q2 < row_of.len() ==> #[trigger] row_of[q1] < #[trigger] row_of[q2],
        rows_after(f1, 0) != rows_after(f2, 0),
    ensures
        o1.to_set() != o2.to_set(),
{
    let a1 = as_rows(f1@.subrange(0, f1@.len() as int));
    let a2 = as_rows(f2@.subrange(0, f2@.len() as int));
    if o1.to_set() == o2.to_set() {
        assert forall|x: int| a1.to_set().contains(x) <==> a2.to_set().contains(x) by {
            if a1.contains(x) {
                let i = choose|i: int| 0 <= i < a1.len() && a1[i] == x;
                assert(o1.contains(o1[i]));
                assert(o2.to_set().contains(o1[i]));
                let j = choose|j: int| 0 <= j < o2.len() && o2[j] == o1[i];
                let p = f1@[i] - 1;
                let q = f2@[j] - 1;
                if p < q {
                    assert(row_of[p] < row_of[q]);
                } else if q < p {
                    assert(row_of[q] < row_of[p]);
                }
                assert(a2[j] == x);
            }
            if a2.contains(x) {
                let i = choose|i: int| 0 <= i < a2.len() && a2[i] == x;
                assert(o2.contains(o2[i]));
                assert(o1.to_set().contains(o2[i]));
                let j = choose|j: int| 0 <= j < o1.len() && o1[j] == o2[i];
                let p = f2@[i] - 1;
                let q = f1@[j] - 1;
                if p < q {
                    assert(row_of[p] < row_of[q]);
                } else if q < p {
                    assert(row_of[q] < row_of[p]);
                }
                assert(a1[j] == x);
            }
        }
        assert(a1.to_set() =~= a2.to_set());
    }
}

/// `o` is `f` with one taken off each item (matrix rows to placements).
pub open spec fn shifted(o: Seq<usize>, f: Seq<usize>) -> bool {
    o.len() == f.len() && forall|i: int| 0 <= i < f.len() ==> #[trigger] o[i] as int == f[i] as int - 1
}

proof fn lemma_shift_distinct(f1: Vec<usize>, o1: Seq<usize>, f2: Vec<usize>, o2: Seq<usize>)
    requires
        shifted(o1, f1@),
        shifted(o2, f2@),
        rows_after(f1, 0) != rows_after(f2, 0),
    ensures
        o1.to_set() != o2.to_set(),
{
    let a1 = as_rows(f1@.subrange(0, f1@.len() as int));
    let a2 = as_rows(f2@.subrange(0, f2@.len() as int));
    if o1.to_set() == o2.to_set() {
        assert forall|x: int| a1.to_set().contains(x) <==> a2.to_set().contains(x) by {
            if a1.contains(x) {
                let i = choose|i: int| 0 <= i < a1.len() && a1[i] == x;
                assert(o1[i] as int == x - 1);
                assert(o1.contains(o1[i]));
                assert(o2.to_set().contains(o1[i]));
                let j = choose|j: int| 0 <= j < o2.len() && o2[j] == o1[i];
                assert(a2[j] == x);
            }
            if a2.contains(x) {
                let i = choose|i: int| 0 <= i < a2.len() && a2[i] == x;
                assert(o2[i] as int == x - 1);
                assert(o2.contains(o2[i]));
                assert(o1.to_set().contains(o2[i]));
                let j = choose|j: int| 0 <= j < o1.len() && o1[j] == o2[i];
                assert(a1[j] == x);
            }
        }
        assert(a1.to_set() =~= a2.to_set());
    }
}

/// Matrix row `r` has an entry in column `c` exactly where placement
/// `r - 1` fills column `c - 1`.
pub open spec fn rows_ident(t: MatrixState, ps: Seq<Placement>, cols: int) -> bool {
    &&& t.rows() == ps.len() + 1
    &&& forall|r: int, c: int|
        1 <= r < t.rows() && 1 <= c <= cols ==> (#[trigger] t.has(r, c) <==> ps[r - 1].inner_view()[c - 1])
    &&& forall|r: int, c: int| #[trigger] t.has(r, c) ==> 1 <= r < t.rows() && 1 <= c <= cols
}

proof fn lemma_rows_ident(t: MatrixState, ps: Seq<Placement>, row_of: Seq<usize>, cols: int)
    requires
        rows_match(t, ps, row_of, cols),
        row_of.len() == ps.len(),
        forall|q: int| 0 <= q < row_of.len() ==> #[trigger] row_of[q] == q,
    ensures
        rows_ident(t, ps, cols),
{
    assert forall|r: int, c: int|
        1 <= r < t.rows() && 1 <= c <= cols implies (#[trigger] t.has(r, c) <==> ps[r - 1].inner_view()[c - 1]) by {
        assert(row_of[r - 1] == r - 1);
    }
}

proof fn lemma_pc_live(t: MatrixState, ps: Seq<Placement>, columns: Seq<MatrixColumn>, sol: Seq<usize>)
    requires
        rows_ident(t, ps, columns.len() as int),
        forall|c: int| #[trigger] t.heads.contains(c) <==> (1 <= c <= columns.len() && columns[c - 1].0),
        forall|p: (int, int)| #[trigger] t.live.contains(p) <==> t.has(p.0, p.1),
        forall|k: int| 0 <= k < ps.len() ==> fills_some(#[trigger] ps[k], columns.len() as int),
        columns_ok(ps, columns),
        forall|k: int| 0 <= k < sol.len() ==> (#[trigger] sol[k]) < ps.len(),
    ensures
        rows_live(t, Seq::new(sol.len(), |i: int| sol[i] as int + 1)),
{
    let m = Seq::new(sol.len(), |i: int| sol[i] as int + 1);
    assert forall|k: int| 0 <= k < m.len() implies row_live(t, #[trigger] m[k]) by {
        assert(sol[k] < ps.len());
        assert(fills_some(ps[sol[k] as int], columns.len() as int));
        let j = choose|j: int| 0 <= j < columns.len() && #[trigger] ps[sol[k] as int].inner_view()[j];
        assert(columns[j].0);
        assert(t.has(m[k], j + 1));
        assert(t.heads.contains(j + 1));
        assert(t.live.contains((m[k], j + 1)));
    }
}

proof fn lemma_pc_cover(t: MatrixState, ps: Seq<Placement>, columns: Seq<MatrixColumn>, sol: Seq<usize>)
    requires
        rows_ident(t, ps, columns.len() as int),
        forall|c: int| #[trigger] t.heads.contains(c) <==> (1 <= c <= columns.len() && columns[c - 1].0),
        covers_exactly(ps, columns, sol),
    ensures
        covers_all(t, Seq::new(sol.len(), |i: int| sol[i] as int + 1)),
        disjoint(t, Seq::new(sol.len(), |i: int| sol[i] as int + 1)),
{
    let m = Seq::new(sol.len(), |i: int| sol[i] as int + 1);
    assert forall|c: int| #[trigger]
        t.heads.contains(c) implies exists|k: int| 0 <= k < m.len() && #[trigger] t.has(m[k], c) by {
        assert(columns[c - 1].0);
        let k = choose|k: int| 0 <= k < sol.len() && ps[sol[k] as int].inner_view()[c - 1];
        assert(sol[k] < ps.len());
        assert(t.has(m[k], c));
    }
    assert forall|k1: int, k2: int, c: int|
        0 <= k1 < m.len() && 0 <= k2 < m.len() && k1 != k2 implies !(#[trigger] t.has(m[k1], c) && #[trigger] t.has(
        m[k2],
        c,
    )) by {
        if t.has(m[k1], c) && t.has(m[k2], c) {
            assert(!(ps[sol[k1] as int].inner_view()[c - 1] && ps[sol[k2] as int].inner_view()[c - 1]));
        }
    }
}

proof fn lemma_shift_set(f: Vec<usize>, o: Seq<usize>, sol: Seq<usize>)
    requires
        shifted(o, f@),
        rows_after(f, 0) == Seq::new(sol.len(), |i: int| sol[i] as int + 1).to_set(),
    ensures
        o.to_set() == sol.to_set(),
{
    let a = as_rows(f@.subrange(0, f@.len() as int));
    let m = Seq::new(sol.len(), |i: int| sol[i] as int + 1);
    assert forall|x: usize| o.to_set().contains(x) <==> sol.to_set().contains(x) by {
        if o.contains(x) {
            let i = choose|i: int| 0 <= i < o.len() && o[i] == x;
            assert(a[i] == x as int + 1);
            assert(a.contains(x as int + 1));
            assert(m.to_set().contains(x as int + 1));
            let j = choose|j: int| 0 <= j < m.len() && m[j] == x as int + 1;
            assert(sol[j] == x);
        }
        if sol.contains(x) {
            let i = choose|i: int| 0 <= i < sol.len() && sol[i] == x;
            assert(m[i] == x as int + 1);
            assert(m.contains(x as int + 1));
            assert(a.to_set().contains(x as int + 1));
            let j = choose|j: int| 0 <= j < a.len() && a[j] == x as int + 1;
            assert(o[j] == x);
        }
    }
    assert(o.to_set() =~= sol.to_set());
}

proof fn lemma_solve_result(
    t: MatrixState,
    ps: Seq<Placement>,
    columns: Seq<MatrixColumn>,
    row_of: Seq<usize>,
    found: Seq<Vec<usize>>,
    out: Seq<Vec<usize>>,
    max: usize,
    count: usize,
)
    requires
        distinct_inner(ps),
        rows_match(t, ps, row_of, columns.len() as int),
        row_of.len() == ps.len(),
        forall|q: int| 0 <= q < row_of.len() ==> #[trigger] row_of[q] == q,
        forall|c: int| #[trigger] t.heads.contains(c) <==> (1 <= c <= columns.len() && columns[c - 1].0),
        forall|p: (int, int)| #[trigger] t.live.contains(p) <==> t.has(p.0, p.1),
        columns_ok(ps, columns),
        out.len() == found.len(),
        forall|q: int| 0 <= q < out.len() ==> shifted((#[trigger] out[q])@, found[q]@),
        distinct_sets(found, 0, 0),
        (max == 0 || count < max) && count < usize::MAX ==> all_reported(t, found, 0, 0),
    ensures
        forall|k1: int, k2: int| 0 <= k1 < k2 < out.len() ==> (#[trigger] out[k1])@.to_set() != (#[trigger] out[k2])@.to_set(),
        (forall|k: int| 0 <= k < ps.len() ==> fills_some(#[trigger] ps[k], columns.len() as int)) && (max == 0
            || count < max) && count < usize::MAX ==> all_found(ps, columns, out),
{
    assert forall|k1: int, k2: int| 0 <= k1 < k2 < out.len() implies (#[trigger] out[k1])@.to_set() != (
    #[trigger] out[k2])@.to_set() by {
        reveal(distinct_sets);
        lemma_shift_distinct(found[k1], out[k1]@, found[k2], out[k2]@);
    }
    if (forall|k: int| 0 <= k < ps.len() ==> fills_some(#[trigger] ps[k], columns.len() as int)) && (max == 0
        || count < max) && count < usize::MAX {
        lemma_rows_ident(t, ps, row_of, columns.len() as int);
        assert forall|sol: Seq<usize>| #[trigger] covers_exactly(ps, columns, sol) implies exists|k: int|
            0 <= k < out.len() && (#[trigger] out[k])@.to_set() == sol.to_set() by {
            lemma_pc_live(t, ps, columns, sol);
            lemma_pc_cover(t, ps, columns, sol);
            let m = Seq::new(sol.len(), |i: int| sol[i] as int + 1);
            reveal(exact_cover);
            assert(exact_cover(t, m));
            reveal(all_reported);
            assert(reported(found, 0, 0, m));
            reveal(reported);
            let k = choose|k: int| 0 <= 0 <= k < found.len() && rows_after(#[trigger] found[k], 0) == m.to_set();
            lemma_shift_set(found[k], out[k]@, sol);
        }
    }
}

proof fn lemma_exact_parts(t: MatrixState, sol: Seq<int>)
    requires
        exact_cover(t, sol),
    ensures
        rows_live(t, sol),
        covers_all(t, sol),
        disjoint(t, sol),
{
    reveal(exact_cover);
}

proof fn lemma_col_nonempty(t: MatrixState, sol: Seq<int>, c: int)
    requires
        t.rows_whole(),
        rows_live(t, sol),
        covers_all(t, sol),
        t.heads.contains(c),
    ensures
        exists|r: int| t.in_col(c).contains(r),
{
    let k = choose|k: int| 0 <= k < sol.len() && #[trigger] t.has(sol[k], c);
    let r = sol[k];
    let c0 = choose|c0: int| #[trigger] t.heads.contains(c0) && t.live.contains((sol[k], c0));
    assert(t.live.contains((r, c)));
    assert(t.in_col(c).contains(r));
}

proof fn lemma_col_size_pos(t: MatrixState, sol: Seq<int>, c: int)
    requires
        t.wf(),
        t.rows_whole(),
        rows_live(t, sol),
        covers_all(t, sol),
        t.heads.contains(c),
    ensures
        t.size(c) > 0,
{
    lemma_col_nonempty(t, sol, c);
    crate::dlink::lemma_size_of(t, c);
    let r = choose|r: int| t.in_col(c).contains(r);
    vstd::set::axiom_set_remove_len(t.in_col(c), r);
}

/// An exact cover exists only when every live column has a row: a live
/// column of size 0 leaves nothing to report.
pub proof fn lemma_cover_needs_rows(t: MatrixState, sol: Seq<int>)
    requires
        t.wf(),
        t.rows_whole(),
        exact_cover(t, sol),
    ensures
        forall|c: int| #[trigger] t.heads.contains(c) ==> t.size(c) > 0,
{
    lemma_exact_parts(t, sol);
    assert forall|c: int| #[trigger] t.heads.contains(c) implies t.size(c) > 0 by {
        lemma_col_size_pos(t, sol, c);
    }
}

} // verus!
