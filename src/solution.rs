use vstd::prelude::*;

use crate::pentomino::{box_fits, Pentomino, Point, Square, System};
use crate::pentomino::same_piece;
use crate::solve::{is_variant, placement_ok, turn_of, mirror_of, turned_h, turned_w, variant_src, variants, Placement};
use vstd::set_lib::{lemma_int_range, lemma_len_subset, set_int_range};

verus! {

/// How many times a symbol is drawn at random before the first letter not
/// yet used is taken instead.
pub const DRAWS: usize = 100000;

/// Relies on rand::random::<char>: a character drawn at random. Nothing is
/// known of which.
#[verifier::external_body]
fn random_char() -> (c: char) {
    rand::random::<char>()
}

/// The ASCII upper case of a character's code.
pub open spec fn upper(c: u32) -> u32 {
    if 97 <= c <= 122 {
        (c - 32) as u32
    } else {
        c
    }
}

fn contains(used: &Vec<u8>, b: u8) -> (r: bool)
    ensures
        r == used@.contains(b),
{
    let mut i: usize = 0;
    while i < used.len()
        invariant
            i <= used@.len(),
            forall|k: int| 0 <= k < i ==> used@[k] != b,
        decreases used@.len() - i,
    {
        if used[i] == b {
            return true;
        }
        i = i + 1;
    }
    false
}

/// The symbol that a drawn character gives: its upper case, when that is
/// an ASCII letter not yet used.
pub fn symbol_for(c: char, used: &Vec<u8>) -> (r: Option<u8>)
    ensures
        r == (if 65 <= upper(c as u32) <= 90 && !used@.contains(upper(c as u32) as u8) {
            Some(upper(c as u32) as u8)
        } else {
            None
        }),
{
    let code = c as u32;
    let u = if 97 <= code && code <= 122 {
        code - 32
    } else {
        code
    };
    if 65 <= u && u <= 90 {
        let b = u as u8;
        if !contains(used, b) {
            return Some(b);
        }
    }
    None
}

/// The first upper case ASCII letter not in `used`.
pub fn first_unused(used: &Vec<u8>) -> (r: u8)
    requires
        used@.len() < 26,
    ensures
        65 <= r <= 90,
        !used@.contains(r),
{
    let mut c: u8 = 65;
    while c <= 90
        invariant
            65 <= c <= 91,
            forall|x: int| 65 <= x < c ==> #[trigger] used@.contains(x as u8),
        decreases 91 - c,
    {
        if !contains(used, c) {
            return c;
        }
        c = c + 1;
    }
    proof {
        let m = used@.map_values(|b: u8| b as int);
        assert forall|x: int| #[trigger] set_int_range(65, 91).contains(x) implies m.to_set().contains(x) by {
            assert(used@.contains(x as u8));
            let k = choose|k: int| 0 <= k < used@.len() && used@[k] == x as u8;
            assert(m[k] == x);
        }
        lemma_int_range(65, 91);
        m.lemma_cardinality_of_set();
        lemma_len_subset(set_int_range(65, 91), m.to_set());
    }
    65
}

/// Appends `n` upper case ASCII letters to `used`, each one not already
/// there: each drawn at random, or, when `DRAWS` draws give none, the
/// first letter not used.
pub fn generateNRandomAscii(n: usize, used: &mut Vec<u8>)
    requires
        old(used)@.len() + n <= 26,
    ensures
        final(used)@.len() == old(used)@.len() + n,
        final(used)@.subrange(0, old(used)@.len() as int) == old(used)@,
        forall|k: int|
            old(used)@.len() <= k < final(used)@.len() ==> 65 <= #[trigger] final(used)@[k] <= 90
                && !final(used)@.subrange(0, k).contains(final(used)@[k]),
{
    let ghost start = used@;
    let mut i: usize = 0;
    while i < n
        invariant
            i <= n,
            start.len() + n <= 26,
            used@.len() == start.len() + i,
            used@.subrange(0, start.len() as int) == start,
            forall|k: int|
                start.len() <= k < used@.len() ==> 65 <= #[trigger] used@[k] <= 90 && !used@.subrange(
                    0,
                    k,
                ).contains(used@[k]),
        decreases n - i,
    {
        let mut pick: Option<u8> = None;
        let mut tries: usize = 0;
        while tries < DRAWS
            invariant
                tries <= DRAWS,
                pick matches Some(b) ==> 65 <= b <= 90 && !used@.contains(b),
            decreases DRAWS - tries,
        {
            let drawn = random_char();
            pick = symbol_for(drawn, used);
            if pick.is_some() {
                break;
            }
            tries = tries + 1;
        }
        let b = match pick {
            Some(b) => b,
            None => first_unused(used),
        };
        let ghost before = used@;
        used.push(b);
        proof {
            assert(used@.subrange(0, before.len() as int) =~= before);
            assert(used@.subrange(0, start.len() as int) =~= start);
            assert forall|k: int|
                start.len() <= k < used@.len() implies 65 <= #[trigger] used@[k] <= 90 && !used@.subrange(
                    0,
                    k,
                ).contains(used@[k]) by {
                if k < before.len() {
                    assert(used@.subrange(0, k) =~= before.subrange(0, k));
                    assert(used@[k] == before[k]);
                }
            }
        }
        i = i + 1;
    }
}

/// How many board cells the placements of a solution fill together.
pub open spec fn cells_count(ps: Seq<Placement>, sol: Seq<usize>) -> int
    decreases sol.len(),
{
    if sol.len() == 0 {
        0
    } else {
        cells_count(ps, sol.drop_last()) + (ps[sol.last() as int].filled_view().len() - 1)
    }
}

/// The board cells that a solution's placements fill, each with the symbol
/// of its piece, placement by placement.
pub fn solution_points(
    board: &Pentomino,
    solution: &Vec<usize>,
    placements: &Vec<Placement>,
    offset: usize,
    symbols: &Vec<u8>,
) -> (system: System)
    requires
        board.wf(),
        offset <= symbols@.len(),
        forall|k: int| 0 <= k < solution@.len() ==> #[trigger] solution@[k] < placements@.len(),
        forall|q: int|
            0 <= q < placements@.len() ==> (#[trigger] placements@[q]).filled_view()[0] < offset && placement_ok(
                placements@[q],
                placements@[q].filled_view()[0] as int,
                offset as int,
                board.dimX * board.dimY,
            ),
    ensures
        forall|k: int|
            0 <= k < system@.len() ==> (#[trigger] system@[k]).0 < board.dimX && system@[k].1 < board.dimY,
        system@.len() == cells_count(placements@, solution@),
{
    let mut system: System = Vec::new();
    proof {
        assert(solution@.subrange(0, 0) =~= Seq::<usize>::empty());
    }
    let mut q: usize = 0;
    while q < solution.len()
        invariant
            board.wf(),
            offset <= symbols@.len(),
            q <= solution@.len(),
            forall|k: int| 0 <= k < solution@.len() ==> #[trigger] solution@[k] < placements@.len(),
            forall|q2: int|
                0 <= q2 < placements@.len() ==> (#[trigger] placements@[q2]).filled_view()[0] < offset && placement_ok(
                    placements@[q2],
                    placements@[q2].filled_view()[0] as int,
                    offset as int,
                    board.dimX * board.dimY,
                ),
            forall|k: int|
                0 <= k < system@.len() ==> (#[trigger] system@[k]).0 < board.dimX && system@[k].1 < board.dimY,
            system@.len() == cells_count(placements@, solution@.subrange(0, q as int)),
        decreases solution@.len() - q,
    {
        let p = &placements[solution[q]];
        let f = p.filled();
        let piece = f[0];
        let sym = symbols[piece];
        let mut i: usize = 1;
        while i < f.len()
            invariant
                board.wf(),
                offset <= symbols@.len(),
                q < solution@.len(),
                1 <= i <= f@.len(),
                f@ == placements@[solution@[q as int] as int].filled_view(),
                piece == f@[0],
                sym == symbols@[piece as int],
                placement_ok(placements@[solution@[q as int] as int], piece as int, offset as int, board.dimX * board.dimY),
                forall|k: int|
                    0 <= k < system@.len() ==> (#[trigger] system@[k]).0 < board.dimX && system@[k].1 < board.dimY,
                piece < offset,
                system@.len() == cells_count(placements@, solution@.subrange(0, q as int)) + i - 1,
            decreases f@.len() - i,
        {
            let col = f[i];
            let (x, y) = board.getCoordinates(col - offset);
            system.push((x, y, sym));
            i = i + 1;
        }
        proof {
            assert(solution@.subrange(0, q + 1).drop_last() =~= solution@.subrange(0, q as int));
        }
        q = q + 1;
    }
    proof {
        assert(solution@.subrange(0, solution@.len() as int) =~= solution@);
    }
    system
}

/// Turns each solution into a board drawing, one per solution: the piece
/// of each placement is drawn with a letter of its own, chosen at random.
/// A solution that covers no cell gives a single empty cell.
pub fn convertSolutions(
    board: &Pentomino,
    solutions: &Vec<Vec<usize>>,
    placements: &Vec<Placement>,
    offset: usize,
) -> (boards: Vec<Pentomino>)
    requires
        board.wf(),
        offset <= 26,
        forall|s: int, k: int|
            0 <= s < solutions@.len() && 0 <= k < solutions@[s]@.len() ==> #[trigger] solutions@[s]@[k]
                < placements@.len(),
        forall|q: int|
            0 <= q < placements@.len() ==> (#[trigger] placements@[q]).filled_view()[0] < offset && placement_ok(
                placements@[q],
                placements@[q].filled_view()[0] as int,
                offset as int,
                board.dimX * board.dimY,
            ),
    ensures
        boards@.len() == solutions@.len(),
        forall|k: int| 0 <= k < boards@.len() ==> (#[trigger] boards@[k]).size == cells_count(placements@, solutions@[k]@),
        forall|k: int| 0 <= k < boards@.len() ==> (#[trigger] boards@[k]).wf(),
{
    let mut symbols: Vec<u8> = Vec::new();
    generateNRandomAscii(offset, &mut symbols);
    let mut boards: Vec<Pentomino> = Vec::new();
    let mut s: usize = 0;
    while s < solutions.len()
        invariant
            board.wf(),
            offset <= symbols@.len(),
            s <= solutions@.len(),
            boards@.len() == s,
            forall|k: int| 0 <= k < boards@.len() ==> (#[trigger] boards@[k]).size == cells_count(placements@, solutions@[k]@),
            forall|s2: int, k: int|
                0 <= s2 < solutions@.len() && 0 <= k < solutions@[s2]@.len() ==> #[trigger] solutions@[s2]@[k]
                    < placements@.len(),
            forall|q: int|
                0 <= q < placements@.len() ==> (#[trigger] placements@[q]).filled_view()[0] < offset && placement_ok(
                    placements@[q],
                    placements@[q].filled_view()[0] as int,
                    offset as int,
                    board.dimX * board.dimY,
                ),
            forall|k: int| 0 <= k < boards@.len() ==> (#[trigger] boards@[k]).wf(),
        decreases solutions@.len() - s,
    {
        let system = solution_points(board, &solutions[s], placements, offset, &symbols);
        if system.len() > 0 {
            proof {
                reveal(box_fits);
                let sy = system@;
                assert forall|a: int, b: int, c: int, d: int|
                    0 <= a < sy.len() && 0 <= b < sy.len() && 0 <= c < sy.len() && 0 <= d < sy.len() implies (
                    #[trigger] sy[a].0 - #[trigger] sy[b].0 + 1) * (#[trigger] sy[c].1 - #[trigger] sy[d].1 + 1)
                    <= usize::MAX by {
                    let f1 = sy[a].0 - sy[b].0 + 1;
                    let f2 = sy[c].1 - sy[d].1 + 1;
                    let w = board.dimX as int;
                    let h = board.dimY as int;
                    assert(f1 * f2 <= w * h) by (nonlinear_arith)
                        requires
                            -w < f1 <= w,
                            -h < f2 <= h,
                            w >= 1,
                            h >= 1,
                    ;
                }
            }
            let ghost sy = system@;
            let b = Pentomino::newFromSystem(system);
            proof {
                let (mx, my) = choose|mx: int, my: int| crate::pentomino::normalized(sy, b, mx, my);
                crate::pentomino::lemma_normalized_wf(sy, b, mx, my);
            }
            boards.push(b);
        } else {
            let mut cells: Vec<Square> = Vec::new();
            cells.push(Square::Empty);
            boards.push(Pentomino { dimX: 1, dimY: 1, size: 0, squares: cells });
        }
        s = s + 1;
    }
    boards
}

/// `b` is `a` turned right some number of times and perhaps mirrored: one
/// of the eight symmetries of a rectangle.
pub open spec fn iso(a: Pentomino, b: Pentomino) -> bool {
    &&& b.size == a.size
    &&& exists|t: int| 0 <= t < 8 && #[trigger] is_variant(a, b, t % 4, t / 4)
}

/// Two grids of the same shape with the same cells hold the same squares.
proof fn lemma_same_cells(p: Pentomino, q: Pentomino)
    requires
        p.wf(),
        q.wf(),
        p.dimX == q.dimX,
        p.dimY == q.dimY,
        forall|x: int, y: int| 0 <= x < p.dimX && 0 <= y < p.dimY ==> #[trigger] p.cell(x, y) == q.cell(x, y),
    ensures
        p.squares@ == q.squares@,
{
    let w = p.dimX as int;
    assert forall|i: int| 0 <= i < p.squares@.len() implies p.squares@[i] == q.squares@[i] by {
        let y = i / w;
        let x = i % w;
        assert(i == y * w + x && 0 <= x < w) by (nonlinear_arith)
            requires
                w >= 1,
                y == i / w,
                x == i % w,
        ;
        assert(y < p.dimY) by (nonlinear_arith)
            requires
                w >= 1,
                y == i / w,
                0 <= i < w * p.dimY,
        ;
        assert(p.cell(x, y) == q.cell(x, y));
    }
    assert(p.squares@ =~= q.squares@);
}

/// The symmetries undo each other: a turn by the opposite turn, a mirrored
/// turn by itself.
proof fn lemma_iso_sym(a: Pentomino, b: Pentomino)
    requires
        a.wf(),
        iso(a, b),
    ensures
        iso(b, a),
{
    reveal(is_variant);
    let t = choose|t: int| 0 <= t < 8 && #[trigger] is_variant(a, b, t % 4, t / 4);
    let u = if t == 1 {
        3
    } else if t == 3 {
        1
    } else {
        t
    };
    assert(0 <= u < 8);
    let (ta, tb) = (t % 4, t / 4);
    let (ua, ub) = (u % 4, u / 4);
    assert(b.dimX == turned_w(a, ta) && b.dimY == turned_h(a, ta));
    assert(a.dimX == turned_w(b, ua) && a.dimY == turned_h(b, ua));
    assert forall|x: int, y: int| 0 <= x < a.dimX && 0 <= y < a.dimY implies #[trigger] a.cell(x, y) == b.cell(
        variant_src(b, ua, ub, x, y).0,
        variant_src(b, ua, ub, x, y).1,
    ) by {
        let s = variant_src(b, ua, ub, x, y);
        assert(0 <= s.0 < b.dimX && 0 <= s.1 < b.dimY);
        assert(variant_src(a, ta, tb, s.0, s.1) == (x, y));
        assert(b.cell(s.0, s.1) == a.cell(variant_src(a, ta, tb, s.0, s.1).0, variant_src(a, ta, tb, s.0, s.1).1));
    }
    assert(is_variant(b, a, u % 4, u / 4));
}

/// Whether some board of `boards` equals a quarter turn of `b`, mirrored
/// or not.
fn isometric_present(b: &Pentomino, boards: &Vec<Pentomino>) -> (present: bool)
    requires
        b.wf(),
    ensures
        present == exists|k: int| 0 <= k < boards@.len() && iso(*b, #[trigger] boards@[k]),
{
    let perms = variants(b, true, true);
    let mut v: usize = 0;
    while v < perms.len()
        invariant
            b.wf(),
            perms@.len() == 8,
            forall|q: int| 0 <= q < 8 ==> (#[trigger] perms@[q]).size == b.size,
            forall|q: int| 0 <= q < 8 ==> is_variant(*b, #[trigger] perms@[q], turn_of(q, true), mirror_of(q, true)),
            v <= 8,
            forall|q: int, k: int| 0 <= q < v && 0 <= k < boards@.len() ==> !same_piece(#[trigger] boards@[k], #[trigger] perms@[q]),
        decreases 8 - v,
    {
        let mut k: usize = 0;
        while k < boards.len()
            invariant
                b.wf(),
                perms@.len() == 8,
                forall|q: int| 0 <= q < 8 ==> (#[trigger] perms@[q]).size == b.size,
                forall|q: int| 0 <= q < 8 ==> is_variant(*b, #[trigger] perms@[q], turn_of(q, true), mirror_of(q, true)),
                v < 8,
                k <= boards@.len(),
                forall|q: int, k2: int| 0 <= q < v && 0 <= k2 < boards@.len() ==> !same_piece(#[trigger] boards@[k2], #[trigger] perms@[q]),
                forall|k2: int| 0 <= k2 < k ==> !same_piece(#[trigger] boards@[k2], perms@[v as int]),
            decreases boards@.len() - k,
        {
            if boards[k] == perms[v] {
                proof {
                    reveal(is_variant);
                    let bk = boards@[k as int];
                    let pv = perms@[v as int];
                    assert(is_variant(*b, pv, v as int % 4, v as int / 4));
                    assert forall|x: int, y: int| 0 <= x < bk.dimX && 0 <= y < bk.dimY implies #[trigger] bk.cell(x, y)
                        == b.cell(variant_src(*b, v as int % 4, v as int / 4, x, y).0, variant_src(*b, v as int % 4, v as int / 4, x, y).1) by {
                        assert(bk.cell(x, y) == pv.cell(x, y));
                    }
                    assert(is_variant(*b, bk, v as int % 4, v as int / 4));
                    assert(iso(*b, bk));
                }
                return true;
            }
            k = k + 1;
        }
        v = v + 1;
    }
    proof {
        if exists|k: int| 0 <= k < boards@.len() && iso(*b, #[trigger] boards@[k]) {
            let k = choose|k: int| 0 <= k < boards@.len() && iso(*b, #[trigger] boards@[k]);
            let bk = boards@[k];
            let t = choose|t: int| 0 <= t < 8 && #[trigger] is_variant(*b, bk, t % 4, t / 4);
            let pt = perms@[t];
            assert(is_variant(*b, pt, t % 4, t / 4));
            reveal(is_variant);
            assert forall|x: int, y: int| 0 <= x < bk.dimX && 0 <= y < bk.dimY implies #[trigger] bk.cell(x, y)
                == pt.cell(x, y) by {}
            lemma_same_cells(bk, pt);
            assert(same_piece(bk, pt));
        }
    }
    false
}

/// Board `i` of `bs` has no isometric copy among the boards before it.
pub open spec fn first_of_class(bs: Seq<Pentomino>, i: int) -> bool {
    forall|l: int| 0 <= l < i ==> !iso(bs[i], #[trigger] bs[l])
}

/// The boards of `bs` from index `i` on that are the first of their
/// isometry class, from the last down.
pub open spec fn kept_from(bs: Seq<Pentomino>, i: int) -> Seq<Pentomino>
    decreases bs.len() - i,
{
    if i < 0 || i >= bs.len() {
        Seq::empty()
    } else if first_of_class(bs, i) {
        kept_from(bs, i + 1).push(bs[i])
    } else {
        kept_from(bs, i + 1)
    }
}

proof fn lemma_kept_members(bs: Seq<Pentomino>, i: int)
    requires
        0 <= i,
    ensures
        forall|k: int|
            0 <= k < kept_from(bs, i).len() ==> exists|j: int|
                i <= j < bs.len() && first_of_class(bs, j) && #[trigger] kept_from(bs, i)[k] == bs[j],
    decreases bs.len() - i,
{
    if i < bs.len() {
        lemma_kept_members(bs, i + 1);
        let rest = kept_from(bs, i + 1);
        assert forall|k: int|
            0 <= k < kept_from(bs, i).len() implies exists|j: int|
                i <= j < bs.len() && first_of_class(bs, j) && #[trigger] kept_from(bs, i)[k] == bs[j] by {
            if k < rest.len() {
                assert(kept_from(bs, i)[k] == rest[k]);
                let j = choose|j: int| i + 1 <= j < bs.len() && first_of_class(bs, j) && #[trigger] rest[k] == bs[j];
            } else {
                assert(kept_from(bs, i)[k] == bs[i]);
            }
        }
    }
}

/// Keeps, of each set of boards equal up to a quarter turn and a mirror
/// image, only the first: walking from the last board down, a board is
/// dropped when some other remaining board is such an image of it, and
/// kept (moved to the end) otherwise.
pub fn removeIsometric(boards: &mut Vec<Pentomino>)
    requires
        forall|k: int| 0 <= k < old(boards)@.len() ==> (#[trigger] old(boards)@[k]).wf(),
    ensures
        final(boards)@ == kept_from(old(boards)@, 0),
{
    let ghost orig = boards@;
    let mut i = boards.len();
    proof {
        assert(orig.subrange(0, i as int).add(kept_from(orig, i as int)) =~= boards@);
    }
    while i > 0
        invariant
            orig == old(boards)@,
            forall|k: int| 0 <= k < orig.len() ==> (#[trigger] orig[k]).wf(),
            i <= orig.len(),
            boards@ == orig.subrange(0, i as int).add(kept_from(orig, i as int)),
        decreases i,
    {
        i = i - 1;
        let ghost before = boards@;
        let ghost rest = kept_from(orig, i + 1);
        let b = boards.remove(i);
        proof {
            assert(boards@ =~= orig.subrange(0, i as int).add(rest));
            assert(b == orig[i as int]);
            lemma_kept_members(orig, i + 1);
        }
        let present = isometric_present(&b, boards);
        proof {
            if present {
                let k = choose|k: int| 0 <= k < boards@.len() && iso(b, #[trigger] boards@[k]);
                if k >= i {
                    assert(boards@[k] == rest[k - i]);
                    let j = choose|j: int| i + 1 <= j < orig.len() && first_of_class(orig, j) && #[trigger] rest[k - i] == orig[j];
                    lemma_iso_sym(orig[i as int], orig[j]);
                    assert(!iso(orig[j], orig[i as int]));
                } else {
                    assert(boards@[k] == orig[k]);
                }
                assert(!first_of_class(orig, i as int));
            } else {
                assert forall|l: int| 0 <= l < i implies !iso(orig[i as int], #[trigger] orig[l]) by {
                    assert(boards@[l] == orig[l]);
                }
                assert(first_of_class(orig, i as int));
            }
        }
        if !present {
            boards.push(b);
        }
        proof {
            assert(boards@ =~= orig.subrange(0, i as int).add(kept_from(orig, i as int)));
        }
    }
    proof {
        assert(boards@ =~= kept_from(orig, 0));
    }
}

} // verus!
