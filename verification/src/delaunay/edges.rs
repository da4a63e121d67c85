use vstd::prelude::*;

use super::EdgeIndex;
use super::TriIndex;

verus! {

/// The pair `(u, v)` ordered from the smaller to the larger index.
pub open spec fn ordered(u: usize, v: usize) -> EdgeIndex {
    if u <= v { (u, v) } else { (v, u) }
}

/// Whether triangle `t` contributes its sides: it is not collapsed (first
/// two vertices differ) and not flipped.
pub open spec fn contributes(tris: Seq<TriIndex>, flipped: Seq<bool>, t: int) -> bool {
    tris[t][0] != tris[t][1] && !flipped[t]
}

/// The sides of the first `n` contributing triangles, each as an ordered
/// pair, in triangle and side order (repeats included).
pub open spec fn side_pairs(tris: Seq<TriIndex>, flipped: Seq<bool>, n: int) -> Seq<EdgeIndex>
    decreases n,
{
    if n <= 0 {
        Seq::empty()
    } else {
        let rest = side_pairs(tris, flipped, n - 1);
        let t = tris[n - 1];
        if contributes(tris, flipped, n - 1) {
            rest + seq![ordered(t[0], t[1]), ordered(t[1], t[2]), ordered(t[2], t[0])]
        } else {
            rest
        }
    }
}

/// `s` without repeats, each element kept where it first occurs.
pub open spec fn dedup(s: Seq<EdgeIndex>) -> Seq<EdgeIndex>
    decreases s.len(),
{
    if s.len() == 0 {
        Seq::empty()
    } else {
        let d = dedup(s.drop_last());
        if d.contains(s.last()) {
            d
        } else {
            d.push(s.last())
        }
    }
}

/// The edges of a triangulation over `npoints` sites: the distinct sides of
/// its contributing triangles in order of first appearance; two sites are
/// joined by their single link `(0, 1)`.
pub open spec fn edges_spec(tris: Seq<TriIndex>, flipped: Seq<bool>, npoints: usize) -> Seq<EdgeIndex> {
    if npoints == 2 {
        seq![(0usize, 1usize)]
    } else {
        dedup(side_pairs(tris, flipped, tris.len() as int))
    }
}

/// The vertices of every triangle that is not collapsed lie below `npoints`:
/// they name sites, whose positions give the triangle's spherical excess.
pub open spec fn vertices_below(tris: Seq<TriIndex>, npoints: usize) -> bool {
    forall|t: int, j: int| 0 <= t < tris.len() && tris[t][0] != tris[t][1] && 0 <= j < 3 ==> #[trigger] tris[t][j] < npoints
}

proof fn lemma_dedup_push(s: Seq<EdgeIndex>, e: EdgeIndex)
    ensures
        dedup(s.push(e)) == (if dedup(s).contains(e) { dedup(s) } else { dedup(s).push(e) }),
{
    assert(s.push(e).drop_last() =~= s);
}

/// `seen[a]` lists the larger ends of the edges in `r` that start at `a`.
spec fn seen_matches(seen: Seq<Vec<usize>>, r: Seq<EdgeIndex>, npoints: usize) -> bool {
    &&& seen.len() == npoints
    &&& forall|a: int, b: usize| 0 <= a < npoints ==> (#[trigger] seen[a]@.contains(b) <==> r.contains((a as usize, b)))
    &&& forall|e: EdgeIndex| #[trigger] r.contains(e) ==> e.0 < npoints
}

fn add_edge(r: &mut Vec<EdgeIndex>, seen: &mut Vec<Vec<usize>>, u: usize, v: usize, npoints: usize)
    requires
        u < npoints,
        v < npoints,
        seen_matches(old(seen)@, old(r)@, npoints),
    ensures
        ({
            let e = ordered(u, v);
            final(r)@ == (if old(r)@.contains(e) { old(r)@ } else { old(r)@.push(e) })
        }),
        seen_matches(final(seen)@, final(r)@, npoints),
{
    let (a, b) = if u <= v { (u, v) } else { (v, u) };
    let mut present = false;
    let mut i: usize = 0;
    while i < seen[a].len()
        invariant
            a < npoints,
            seen@.len() == npoints,
            i <= seen@[a as int]@.len(),
            present == seen@[a as int]@.subrange(0, i as int).contains(b),
        decreases seen@[a as int]@.len() - i,
    {
        let ghost pre = seen@[a as int]@.subrange(0, i as int);
        let x = seen[a][i];
        if x == b {
            present = true;
        }
        assert(seen@[a as int]@.subrange(0, i + 1) =~= pre.push(x));
        assert(pre.push(x).contains(b) <==> pre.contains(b) || x == b) by {
            if pre.push(x).contains(b) {
                let k = choose|k: int| 0 <= k < pre.push(x).len() && pre.push(x)[k] == b;
                if k < pre.len() {
                    assert(pre[k] == b);
                }
            }
            if pre.contains(b) {
                let k = choose|k: int| 0 <= k < pre.len() && pre[k] == b;
                assert(pre.push(x)[k] == b);
            }
            assert(pre.push(x)[pre.len() as int] == x);
        }
        i = i + 1;
    }
    assert(seen@[a as int]@.subrange(0, seen@[a as int]@.len() as int) =~= seen@[a as int]@);
    assert(present == r@.contains((a, b)));
    if !present {
        let ghost seen_before = seen@;
        let ghost r_before = r@;
        seen[a].push(b);
        r.push((a, b));
        assert forall|x: int, y: usize| 0 <= x < npoints implies (#[trigger] seen@[x]@.contains(y) <==> r@.contains((x as usize, y))) by {
            assert(seen_before[x]@.contains(y) <==> r_before.contains((x as usize, y)));
            if x != a {
                assert(seen@[x] == seen_before[x]);
            } else {
                assert(seen@[x]@ == seen_before[x]@.push(b));
                if seen@[x]@.contains(y) && y != b {
                    let k = choose|k: int| 0 <= k < seen@[x]@.len() && seen@[x]@[k] == y;
                    assert(seen_before[x]@[k] == y);
                }
                if seen_before[x]@.contains(y) {
                    let k = choose|k: int| 0 <= k < seen_before[x]@.len() && seen_before[x]@[k] == y;
                    assert(seen@[x]@[k] == y);
                }
                assert(seen@[x]@.last() == b);
            }
            if r@.contains((x as usize, y)) && (x as usize, y) != (a, b) {
                let k = choose|k: int| 0 <= k < r@.len() && r@[k] == (x as usize, y);
                assert(r_before[k] == (x as usize, y));
            }
            if r_before.contains((x as usize, y)) {
                let k = choose|k: int| 0 <= k < r_before.len() && r_before[k] == (x as usize, y);
                assert(r@[k] == (x as usize, y));
            }
            assert(r@.last() == (a, b));
        }
        assert forall|e: EdgeIndex| #[trigger] r@.contains(e) implies e.0 < npoints by {
            let k = choose|k: int| 0 <= k < r@.len() && r@[k] == e;
            if k < r_before.len() {
                assert(r_before.contains(e));
            }
        }
    }
}

/// The edges of a triangulation over `npoints` sites (see `edges_spec`);
/// `flipped[t]` tells whether triangle `t` has negative spherical excess.
pub fn edges(triangles: &[TriIndex], npoints: usize, flipped: &Vec<bool>) -> (r: Vec<EdgeIndex>)
    requires
        flipped@.len() >= triangles@.len(),
        vertices_below(triangles@, npoints),
    ensures
        r@ == edges_spec(triangles@, flipped@, npoints),
{
    if npoints == 2 {
        let mut r: Vec<EdgeIndex> = Vec::new();
        r.push((0, 1));
        assert(r@ =~= seq![(0usize, 1usize)]);
        return r;
    }
    let mut r: Vec<EdgeIndex> = Vec::new();
    let mut seen: Vec<Vec<usize>> = Vec::new();
    let mut a: usize = 0;
    while a < npoints
        invariant
            a <= npoints,
            seen@.len() == a,
            forall|x: int| 0 <= x < a ==> (#[trigger] seen@[x])@ == Seq::<usize>::empty(),
        decreases npoints - a,
    {
        seen.push(Vec::new());
        a = a + 1;
    }
    assert(seen_matches(seen@, r@, npoints));
    let mut t: usize = 0;
    while t < triangles.len()
        invariant
            t <= triangles@.len(),
            flipped@.len() >= triangles@.len(),
            vertices_below(triangles@, npoints),
            seen_matches(seen@, r@, npoints),
            r@ == dedup(side_pairs(triangles@, flipped@, t as int)),
        decreases triangles.len() - t,
    {
        let tri = triangles[t];
        if tri[0] != tri[1] && !flipped[t] {
            assert(tri[0] < npoints && tri[1] < npoints && tri[2] < npoints) by {
                assert(triangles@[t as int][0] < npoints);
                assert(triangles@[t as int][1] < npoints);
                assert(triangles@[t as int][2] < npoints);
            }
            let ghost s0 = side_pairs(triangles@, flipped@, t as int);
            let ghost e0 = ordered(tri[0], tri[1]);
            let ghost e1 = ordered(tri[1], tri[2]);
            let ghost e2 = ordered(tri[2], tri[0]);
            add_edge(&mut r, &mut seen, tri[0], tri[1], npoints);
            proof { lemma_dedup_push(s0, e0); }
            add_edge(&mut r, &mut seen, tri[1], tri[2], npoints);
            proof { lemma_dedup_push(s0.push(e0), e1); }
            add_edge(&mut r, &mut seen, tri[2], tri[0], npoints);
            proof { lemma_dedup_push(s0.push(e0).push(e1), e2); }
            assert(side_pairs(triangles@, flipped@, t + 1) =~= s0.push(e0).push(e1).push(e2));
        }
        t = t + 1;
    }
    r
}

proof fn lemma_dedup_props(s: Seq<EdgeIndex>)
    ensures
        dedup(s).no_duplicates(),
        forall|e: EdgeIndex| dedup(s).contains(e) <==> s.contains(e),
    decreases s.len(),
{
    if s.len() > 0 {
        let d = dedup(s.drop_last());
        lemma_dedup_props(s.drop_last());
        assert(s =~= s.drop_last().push(s.last()));
        assert forall|e: EdgeIndex| dedup(s).contains(e) <==> s.contains(e) by {
            if s.contains(e) && !s.drop_last().contains(e) {
                assert(e == s.last());
                if !d.contains(e) {
                    assert(dedup(s).last() == e);
                }
            }
            if s.drop_last().contains(e) {
                let k = choose|k: int| 0 <= k < s.drop_last().len() && s.drop_last()[k] == e;
                assert(s[k] == e);
                assert(d.contains(e));
                if !d.contains(s.last()) {
                    let q = choose|q: int| 0 <= q < d.len() && d[q] == e;
                    assert(dedup(s)[q] == e);
                }
            }
            if dedup(s).contains(e) && !d.contains(e) {
                let q = choose|q: int| 0 <= q < dedup(s).len() && dedup(s)[q] == e;
                assert(q == d.len());
                assert(s[s.len() - 1] == e);
            }
        }
    }
}

proof fn lemma_side_pairs_cover(tris: Seq<TriIndex>, flipped: Seq<bool>, n: int)
    ensures
        forall|e: EdgeIndex| #[trigger] side_pairs(tris, flipped, n).contains(e) ==> e.0 <= e.1,
        forall|t: int| 0 <= t < n && #[trigger] contributes(tris, flipped, t) ==> {
            &&& side_pairs(tris, flipped, n).contains(ordered(tris[t][0], tris[t][1]))
            &&& side_pairs(tris, flipped, n).contains(ordered(tris[t][1], tris[t][2]))
            &&& side_pairs(tris, flipped, n).contains(ordered(tris[t][2], tris[t][0]))
        },
    decreases n,
{
    if n > 0 {
        lemma_side_pairs_cover(tris, flipped, n - 1);
        let rest = side_pairs(tris, flipped, n - 1);
        let all = side_pairs(tris, flipped, n);
        assert forall|e: EdgeIndex| #[trigger] rest.contains(e) implies all.contains(e) by {
            let k = choose|k: int| 0 <= k < rest.len() && rest[k] == e;
            assert(all[k] == e);
        }
        if contributes(tris, flipped, n - 1) {
            let t = tris[n - 1];
            let extra = seq![ordered(t[0], t[1]), ordered(t[1], t[2]), ordered(t[2], t[0])];
            assert(all == rest + extra);
            assert(all[rest.len() as int] == ordered(t[0], t[1]));
            assert(all[rest.len() as int + 1] == ordered(t[1], t[2]));
            assert(all[rest.len() as int + 2] == ordered(t[2], t[0]));
            assert forall|e: EdgeIndex| #[trigger] all.contains(e) implies e.0 <= e.1 by {
                let k = choose|k: int| 0 <= k < all.len() && all[k] == e;
                if k < rest.len() {
                    assert(rest.contains(e));
                }
            }
        } else {
            assert(all == rest);
        }
    }
}

/// The edges of a triangulation are distinct and each goes from the smaller
/// to the larger site index; every side of every triangle that is neither
/// collapsed nor flipped is one of them.
pub proof fn lemma_edges_complete_and_distinct(tris: Seq<TriIndex>, flipped: Seq<bool>, npoints: usize)
    requires
        npoints != 2,
    ensures
        edges_spec(tris, flipped, npoints).no_duplicates(),
        forall|e: EdgeIndex| #[trigger] edges_spec(tris, flipped, npoints).contains(e) ==> e.0 <= e.1,
        forall|t: int| 0 <= t < tris.len() && #[trigger] contributes(tris, flipped, t) ==> {
            &&& edges_spec(tris, flipped, npoints).contains(ordered(tris[t][0], tris[t][1]))
            &&& edges_spec(tris, flipped, npoints).contains(ordered(tris[t][1], tris[t][2]))
            &&& edges_spec(tris, flipped, npoints).contains(ordered(tris[t][2], tris[t][0]))
        },
{
    let s = side_pairs(tris, flipped, tris.len() as int);
    lemma_dedup_props(s);
    lemma_side_pairs_cover(tris, flipped, tris.len() as int);
    assert forall|e: EdgeIndex| #[trigger] edges_spec(tris, flipped, npoints).contains(e) implies e.0 <= e.1 by {
        assert(s.contains(e));
    }
}

} // verus!
