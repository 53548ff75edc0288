use vstd::prelude::*;

use crate::pentomino::{box_fits, lemma_normalized_wf, normalized, Pentomino, Point, System};

verus! {

/// Reading a text cell by cell: (next x, next y, the marked points so
/// far). A newline starts the next line; every other byte takes one cell,
/// and is marked unless it is a space.
pub open spec fn scan(t: Seq<u8>) -> (int, int, Seq<Point>)
    decreases t.len(),
{
    if t.len() == 0 {
        (0, 0, Seq::empty())
    } else {
        let (x, y, ps) = scan(t.drop_last());
        let c = t.last();
        if c == 10 {
            (0, y + 1, ps)
        } else if c == 32 {
            (x + 1, y, ps)
        } else {
            (x + 1, y, ps.push((x as usize, y as usize, c)))
        }
    }
}

/// The marked points of a text drawing.
pub fn parse_points(text: &Vec<u8>) -> (ps: System)
    ensures
        ps@ == scan(text@).2,
{
    let mut x: usize = 0;
    let mut y: usize = 0;
    let mut ps: System = Vec::new();
    let mut i: usize = 0;
    while i < text.len()
        invariant
            i <= text@.len(),
            (x as int, y as int, ps@) == scan(text@.subrange(0, i as int)),
            x <= i,
            y <= i,
        decreases text@.len() - i,
    {
        proof {
            assert(text@.subrange(0, i + 1).drop_last() =~= text@.subrange(0, i as int));
        }
        let c = text[i];
        if c == 10 {
            x = 0;
            y = y + 1;
        } else {
            if c != 32 {
                ps.push((x, y, c));
            }
            x = x + 1;
        }
        i = i + 1;
    }
    proof {
        assert(text@.subrange(0, text@.len() as int) =~= text@);
    }
    ps
}

/// Two cells touch, sideways or diagonally.
pub open spec fn touches(a: Point, x: int, y: int) -> bool {
    -1 <= a.0 - x <= 1 && -1 <= a.1 - y <= 1
}

/// Each point of `s` from index `from` on touches (x, y) or a point of `s`
/// before it, from index `from` on.
pub open spec fn chained(s: Seq<Point>, from: int, x: int, y: int) -> bool {
    forall|k: int|
        from <= k < s.len() ==> touches(#[trigger] s[k], x, y) || exists|j: int|
            from <= j < k && touches(s[k], s[j].0 as int, s[j].1 as int)
}


/// Moves from `system` to the end of `newSystem` every point that touches
/// (x, y), keeping the order of both.
fn move_touching(x: usize, y: usize, system: &mut System, newSystem: &mut System)
    ensures
        old(newSystem)@.len() <= final(newSystem)@.len(),
        final(system)@.len() + final(newSystem)@.len() == old(system)@.len() + old(newSystem)@.len(),
        final(newSystem)@.subrange(0, old(newSystem)@.len() as int) == old(newSystem)@,
        forall|k: int|
            old(newSystem)@.len() <= k < final(newSystem)@.len() ==> touches(
                #[trigger] final(newSystem)@[k],
                x as int,
                y as int,
            ),
        forall|k: int| 0 <= k < final(system)@.len() ==> !touches(#[trigger] final(system)@[k], x as int, y as int),
        forall|k: int| 0 <= k < final(system)@.len() ==> old(system)@.contains(#[trigger] final(system)@[k]),
        final(system)@.to_multiset().add(final(newSystem)@.to_multiset()) == old(system)@.to_multiset().add(
            old(newSystem)@.to_multiset(),
        ),
{
    broadcast use vstd::seq_lib::group_to_multiset_ensures;
    let mut keep: System = Vec::new();
    let mut i: usize = 0;
    let ghost n0 = newSystem@;
    let ghost s0 = system@;
    while i < system.len()
        invariant
            system@ == s0,
            i <= s0.len(),
            newSystem@.subrange(0, n0.len() as int) == n0,
            n0.len() <= newSystem@.len(),
            forall|k: int| n0.len() <= k < newSystem@.len() ==> touches(#[trigger] newSystem@[k], x as int, y as int),
            forall|k: int| 0 <= k < keep@.len() ==> !touches(#[trigger] keep@[k], x as int, y as int),
            forall|k: int| 0 <= k < keep@.len() ==> s0.contains(#[trigger] keep@[k]),
            keep@.to_multiset().add(newSystem@.to_multiset()) == s0.subrange(0, i as int).to_multiset().add(
                n0.to_multiset(),
            ),
            keep@.len() + newSystem@.len() == i + n0.len(),
        decreases s0.len() - i,
    {
        let p = system[i];
        let near_x = if p.0 >= x {
            p.0 - x <= 1
        } else {
            x - p.0 <= 1
        };
        let near_y = if p.1 >= y {
            p.1 - y <= 1
        } else {
            y - p.1 <= 1
        };
        proof {
            assert(s0.subrange(0, i + 1) =~= s0.subrange(0, i as int).push(p));
            vstd::seq_lib::to_multiset_build(s0.subrange(0, i as int), p);
        }
        let ghost k0 = keep@;
        let ghost m0 = newSystem@;
        if near_x && near_y {
            newSystem.push(p);
            proof {
                vstd::seq_lib::to_multiset_build(m0, p);
                assert(newSystem@.subrange(0, n0.len() as int) =~= m0.subrange(0, n0.len() as int));
                assert(k0.to_multiset().add(m0.to_multiset().insert(p)) =~= k0.to_multiset().add(
                    m0.to_multiset(),
                ).insert(p));
            }
        } else {
            keep.push(p);
            proof {
                vstd::seq_lib::to_multiset_build(k0, p);
                assert(s0[i as int] == p);
                assert(k0.to_multiset().insert(p).add(m0.to_multiset()) =~= k0.to_multiset().add(
                    m0.to_multiset(),
                ).insert(p));
            }
        }
        i = i + 1;
    }
    proof {
        assert(s0.subrange(0, s0.len() as int) =~= s0);
    }
    *system = keep;
}

/// Moves from `system` to `newSystem` every point joined to (startX,
/// startY) by a chain of touching points: afterwards no point left in
/// `system` touches (startX, startY) or a moved point, and each moved point
/// touches (startX, startY) or a point moved before it.
pub fn discoverPoints(startX: usize, startY: usize, system: &mut System, newSystem: &mut System)
    ensures
        final(system)@.len() + final(newSystem)@.len() == old(system)@.len() + old(newSystem)@.len(),
        old(newSystem)@.len() <= final(newSystem)@.len(),
        final(newSystem)@.subrange(0, old(newSystem)@.len() as int) == old(newSystem)@,
        chained(final(newSystem)@, old(newSystem)@.len() as int, startX as int, startY as int),
        forall|k: int|
            0 <= k < final(system)@.len() ==> !touches(#[trigger] final(system)@[k], startX as int, startY as int),
        forall|k: int, j: int|
            0 <= k < final(system)@.len() && old(newSystem)@.len() <= j < final(newSystem)@.len() ==> !touches(
                #[trigger] final(system)@[k],
                (#[trigger] final(newSystem)@[j]).0 as int,
                final(newSystem)@[j].1 as int,
            ),
        final(system)@.to_multiset().add(final(newSystem)@.to_multiset()) == old(system)@.to_multiset().add(
            old(newSystem)@.to_multiset(),
        ),
{
    broadcast use vstd::seq_lib::group_to_multiset_ensures;
    let start = newSystem.len();
    let ghost nb = newSystem@;
    let ghost total = system@.len() + newSystem@.len();
    move_touching(startX, startY, system, newSystem);
    proof {
        assert forall|k: int| start <= k < newSystem@.len() implies touches(
            #[trigger] newSystem@[k],
            startX as int,
            startY as int,
        ) || exists|j: int| start <= j < k && touches(newSystem@[k], newSystem@[j].0 as int, newSystem@[j].1 as int) by {}
    }
    let mut w: usize = start;
    while w < newSystem.len()
        invariant
            start == nb.len(),
            start <= w <= newSystem@.len(),
            system@.len() + newSystem@.len() == total,
            newSystem@.subrange(0, start as int) == nb,
            chained(newSystem@, start as int, startX as int, startY as int),
            forall|k: int| 0 <= k < system@.len() ==> !touches(#[trigger] system@[k], startX as int, startY as int),
            forall|k: int, j: int|
                0 <= k < system@.len() && start <= j < w ==> !touches(
                    #[trigger] system@[k],
                    (#[trigger] newSystem@[j]).0 as int,
                    newSystem@[j].1 as int,
                ),
            system@.to_multiset().add(newSystem@.to_multiset()) == old(system)@.to_multiset().add(
                old(newSystem)@.to_multiset(),
            ),
            old(newSystem)@ == nb,
        decreases total - w,
    {
        let p = newSystem[w];
        let ghost s1 = system@;
        let ghost m1 = newSystem@;
        move_touching(p.0, p.1, system, newSystem);
        proof {
            assert(newSystem@.subrange(0, start as int) =~= newSystem@.subrange(0, m1.len() as int).subrange(
                0,
                start as int,
            ));
            assert forall|k: int| start <= k < newSystem@.len() implies touches(
                #[trigger] newSystem@[k],
                startX as int,
                startY as int,
            ) || exists|j: int| start <= j < k && touches(newSystem@[k], newSystem@[j].0 as int, newSystem@[j].1 as int) by {
                if k < m1.len() {
                    assert(newSystem@[k] == m1[k]);
                    if !touches(m1[k], startX as int, startY as int) {
                        let j = choose|j: int| start <= j < k && touches(m1[k], m1[j].0 as int, m1[j].1 as int);
                        assert(newSystem@[j] == m1[j]);
                    }
                } else {
                    assert(newSystem@[w as int] == m1[w as int]);
                    assert(touches(newSystem@[k], newSystem@[w as int].0 as int, newSystem@[w as int].1 as int));
                }
            }
            assert forall|k: int| 0 <= k < system@.len() implies !touches(#[trigger] system@[k], startX as int, startY as int) by {
                assert(s1.contains(system@[k]));
                let i = choose|i: int| 0 <= i < s1.len() && s1[i] == system@[k];
            }
            assert forall|k: int, j: int|
                0 <= k < system@.len() && start <= j < w + 1 implies !touches(
                    #[trigger] system@[k],
                    (#[trigger] newSystem@[j]).0 as int,
                    newSystem@[j].1 as int,
                ) by {
                assert(s1.contains(system@[k]));
                let i = choose|i: int| 0 <= i < s1.len() && s1[i] == system@[k];
                assert(newSystem@[j] == m1[j]);
                if j < w {
                    assert(!touches(s1[i], m1[j].0 as int, m1[j].1 as int));
                }
            }
        }
        w = w + 1;
    }
}

/// The total number of cells the pieces were made of.
pub open spec fn total_size(ps: Seq<Pentomino>) -> int
    decreases ps.len(),
{
    if ps.len() == 0 {
        0
    } else {
        total_size(ps.drop_last()) + ps.last().size
    }
}

/// The pieces of a text drawing: each group of touching marked cells is a
/// piece, and every marked cell goes into exactly one piece.
pub fn parse_pieces(text: &Vec<u8>) -> (pieces: Vec<Pentomino>)
    requires
        box_fits(scan(text@).2),
    ensures
        forall|k: int| 0 <= k < pieces@.len() ==> (#[trigger] pieces@[k]).wf(),
        total_size(pieces@) == scan(text@).2.len(),
{
    let ghost all = scan(text@).2;
    let mut points = parse_points(text);
    proof {
        assert(total_size(Seq::<Pentomino>::empty()) == 0);
        assert forall|k: int| 0 <= k < points@.len() implies all.contains(#[trigger] points@[k]) by {}
    }
    let mut pieces: Vec<Pentomino> = Vec::new();
    while points.len() > 0
        invariant
            box_fits(all),
            forall|k: int| 0 <= k < points@.len() ==> all.contains(#[trigger] points@[k]),
            forall|k: int| 0 <= k < pieces@.len() ==> (#[trigger] pieces@[k]).wf(),
            total_size(pieces@) + points@.len() == all.len(),
        decreases points@.len(),
    {
        let ghost p0 = points@;
        let point = match points.pop() {
            Some(p) => p,
            None => (0, 0, 0),
        };
        let mut group: System = Vec::new();
        group.push(point);
        let ghost p1 = points@;
        let ghost g1 = group@;
        proof {
            assert(point == p0.last());
            assert(p1 =~= p0.drop_last());
        }
        discoverPoints(point.0, point.1, &mut points, &mut group);
        proof {
            lemma_moved_inside(all, p1, g1, points@, group@);
            lemma_box_sub(all, group@);
        }
        let ghost gv = group@;
        let piece = Pentomino::newFromSystem(group);
        proof {
            let (mx, my) = choose|mx: int, my: int| normalized(gv, piece, mx, my);
            lemma_normalized_wf(gv, piece, mx, my);
        }
        let ghost before = pieces@;
        pieces.push(piece);
        proof {
            assert(pieces@.drop_last() =~= before);
        }
    }
    pieces
}

/// Points only moved between two lists stay among the points they came
/// from.
proof fn lemma_moved_inside(all: Seq<Point>, s0: Seq<Point>, n0: Seq<Point>, s1: Seq<Point>, n1: Seq<Point>)
    requires
        forall|k: int| 0 <= k < s0.len() ==> all.contains(#[trigger] s0[k]),
        forall|k: int| 0 <= k < n0.len() ==> all.contains(#[trigger] n0[k]),
        s1.to_multiset().add(n1.to_multiset()) == s0.to_multiset().add(n0.to_multiset()),
    ensures
        forall|k: int| 0 <= k < s1.len() ==> all.contains(#[trigger] s1[k]),
        forall|k: int| 0 <= k < n1.len() ==> all.contains(#[trigger] n1[k]),
{
    broadcast use vstd::seq_lib::group_to_multiset_ensures;
    assert forall|x: Point| s1.contains(x) || n1.contains(x) implies all.contains(x) by {
        assert(s1.to_multiset().add(n1.to_multiset()).count(x) > 0);
        if s0.to_multiset().count(x) > 0 {
            let k = choose|k: int| 0 <= k < s0.len() && s0[k] == x;
        } else {
            assert(n0.to_multiset().count(x) > 0);
            let k = choose|k: int| 0 <= k < n0.len() && n0[k] == x;
        }
    }
    assert forall|k: int| 0 <= k < s1.len() implies all.contains(#[trigger] s1[k]) by {
        assert(s1.contains(s1[k]));
    }
    assert forall|k: int| 0 <= k < n1.len() implies all.contains(#[trigger] n1[k]) by {
        assert(n1.contains(n1[k]));
    }
}

/// A group of the points has a bounding box no larger than theirs.
proof fn lemma_box_sub(all: Seq<Point>, g: Seq<Point>)
    requires
        box_fits(all),
        forall|k: int| 0 <= k < g.len() ==> all.contains(#[trigger] g[k]),
    ensures
        box_fits(g),
{
    reveal(box_fits);
    assert forall|a: int, b: int, c: int, d: int|
        0 <= a < g.len() && 0 <= b < g.len() && 0 <= c < g.len() && 0 <= d < g.len() implies (#[trigger] g[a].0
        - #[trigger] g[b].0 + 1) * (#[trigger] g[c].1 - #[trigger] g[d].1 + 1) <= usize::MAX by {
        assert(all.contains(g[a]) && all.contains(g[b]) && all.contains(g[c]) && all.contains(g[d]));
        let a2 = choose|i: int| 0 <= i < all.len() && all[i] == g[a];
        let b2 = choose|i: int| 0 <= i < all.len() && all[i] == g[b];
        let c2 = choose|i: int| 0 <= i < all.len() && all[i] == g[c];
        let d2 = choose|i: int| 0 <= i < all.len() && all[i] == g[d];
        assert((all[a2].0 - all[b2].0 + 1) * (all[c2].1 - all[d2].1 + 1) <= usize::MAX);
    }
}

/// Takes out of `pentominoes` the piece of largest area (the first among
/// equals), which is the board, and returns it.
pub fn discoverBoard(pentominoes: &mut Vec<Pentomino>) -> (board: Pentomino)
    requires
        old(pentominoes)@.len() > 0,
        forall|k: int| 0 <= k < old(pentominoes)@.len() ==> (#[trigger] old(pentominoes)@[k]).wf(),
    ensures
        exists|i: int|
            0 <= i < old(pentominoes)@.len() && board == old(pentominoes)@[i] && final(pentominoes)@ == old(
                pentominoes,
            )@.remove(i) && (forall|k: int|
                0 <= k < old(pentominoes)@.len() ==> (#[trigger] old(pentominoes)@[k]).dimX * old(pentominoes)@[k].dimY
                    <= board.dimX * board.dimY) && (forall|k: int|
                0 <= k < i ==> (#[trigger] old(pentominoes)@[k]).dimX * old(pentominoes)@[k].dimY < board.dimX
                    * board.dimY),
{
    let mut index: usize = 0;
    let mut max: usize = 0;
    let mut i: usize = 0;
    while i < pentominoes.len()
        invariant
            i <= pentominoes@.len(),
            pentominoes@ == old(pentominoes)@,
            forall|k: int| 0 <= k < pentominoes@.len() ==> (#[trigger] pentominoes@[k]).wf(),
            index < pentominoes@.len(),
            i > 0 ==> max == pentominoes@[index as int].dimX * pentominoes@[index as int].dimY && index < i,
            i == 0 ==> max == 0 && index == 0,
            forall|k: int| 0 <= k < i ==> (#[trigger] pentominoes@[k]).dimX * pentominoes@[k].dimY <= max,
            forall|k: int| 0 <= k < index ==> (#[trigger] pentominoes@[k]).dimX * pentominoes@[k].dimY < max,
        decreases pentominoes@.len() - i,
    {
        let a = pentominoes[i].area();
        if a > max {
            max = a;
            index = i;
        }
        i = i + 1;
    }
    proof {
        assert(pentominoes@[0].dimX * pentominoes@[0].dimY >= 1) by (nonlinear_arith)
            requires
                pentominoes@[0].dimX >= 1,
                pentominoes@[0].dimY >= 1,
        ;
    }
    pentominoes.remove(index)
}

} // verus!
