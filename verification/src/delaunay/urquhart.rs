use std::collections::HashMap;

use vstd::prelude::*;

use super::edges::ordered;
use super::EdgeIndex;
use super::TriIndex;

verus! {

/// The length key of edge `e`, if `e` is one of the edges.
pub open spec fn side_length(edges: Seq<EdgeIndex>, lengths: Seq<u64>, e: EdgeIndex) -> Option<u64> {
    if exists|i: int| 0 <= i < edges.len() && edges[i] == e {
        Some(lengths[choose|i: int| 0 <= i < edges.len() && edges[i] == e])
    } else {
        None
    }
}

/// One step of the search for the longest side: a known side strictly
/// longer than the longest so far replaces it.
pub open spec fn longer_side(
    edges: Seq<EdgeIndex>,
    lengths: Seq<u64>,
    best: (u64, Option<EdgeIndex>),
    e: EdgeIndex,
) -> (u64, Option<EdgeIndex>) {
    match side_length(edges, lengths, e) {
        Some(l) => if l > best.0 { (l, Some(e)) } else { best },
        None => best,
    }
}

/// The side of triangle `tri` that the Urquhart graph drops: its longest
/// side among the known edges (the first of equal longest ones), if some
/// known side is longer than zero.
pub open spec fn dropped_side(edges: Seq<EdgeIndex>, lengths: Seq<u64>, tri: TriIndex) -> Option<EdgeIndex> {
    let s0 = (0u64, None::<EdgeIndex>);
    let s1 = longer_side(edges, lengths, s0, ordered(tri[0], tri[1]));
    let s2 = longer_side(edges, lengths, s1, ordered(tri[1], tri[2]));
    let s3 = longer_side(edges, lengths, s2, ordered(tri[2], tri[0]));
    s3.1
}

/// Some triangle among the first `n` drops edge `e`.
pub open spec fn dropped_by_some(edges: Seq<EdgeIndex>, lengths: Seq<u64>, tris: Seq<TriIndex>, n: int, e: EdgeIndex) -> bool {
    exists|t: int| 0 <= t < n && #[trigger] dropped_side(edges, lengths, tris[t]) == Some(e)
}

/// `index` maps each start vertex to the (end, position) pairs of its edges.
spec fn indexes_edges(index: Map<usize, Vec<(usize, usize)>>, edges: Seq<EdgeIndex>) -> bool {
    indexes_prefix(index, edges, edges.len() as int)
}

/// `index` maps each start vertex to the (end, position) pairs of the
/// first `n` edges.
spec fn indexes_prefix(index: Map<usize, Vec<(usize, usize)>>, edges: Seq<EdgeIndex>, n: int) -> bool {
    &&& forall|a: usize, b: usize, i: usize|
        index.contains_key(a) && #[trigger] index[a]@.contains((b, i)) ==> i < n && edges[i as int] == (a, b)
    &&& forall|i: int|
        0 <= i < n ==> index.contains_key((#[trigger] edges[i]).0) && index[edges[i].0]@.contains((edges[i].1, i as usize))
}

fn lookup(index: &HashMap<usize, Vec<(usize, usize)>>, a: usize, b: usize, edges: Ghost<Seq<EdgeIndex>>) -> (r: Option<usize>)
    requires
        indexes_edges(index@, edges@),
    ensures
        match r {
            Some(i) => i < edges@.len() && edges@[i as int] == (a, b),
            None => forall|i: int| 0 <= i < edges@.len() ==> edges@[i] != (a, b),
        },
{
    match index.get(&a) {
        Some(list) => {
            let mut k: usize = 0;
            while k < list.len()
                invariant
                    k <= list@.len(),
                    index@.contains_key(a),
                    list@ == index@[a]@,
                    indexes_edges(index@, edges@),
                    forall|q: int| 0 <= q < k ==> list@[q].0 != b,
                decreases list.len() - k,
            {
                let (y, i) = list[k];
                if y == b {
                    assert(list@[k as int] == (b, i));
                    assert(index@[a]@.contains((b, i)));
                    return Some(i);
                }
                k = k + 1;
            }
            assert forall|i: int| 0 <= i < edges@.len() implies edges@[i] != (a, b) by {
                if edges@[i] == (a, b) {
                    assert(index@[a]@.contains((b, i as usize)));
                    let q = choose|q: int| 0 <= q < list@.len() && list@[q] == (b, i as usize);
                    assert(list@[q].0 == b);
                }
            }
            None
        },
        None => {
            assert forall|i: int| 0 <= i < edges@.len() implies edges@[i] != (a, b) by {
                if edges@[i] == (a, b) {
                    assert(index@.contains_key(edges@[i].0));
                }
            }
            None
        },
    }
}

fn step_longer(
    index: &HashMap<usize, Vec<(usize, usize)>>,
    lengths: &Vec<u64>,
    best: (u64, Option<usize>),
    u: usize,
    v: usize,
    edges: Ghost<Seq<EdgeIndex>>,
    spec_best: Ghost<(u64, Option<EdgeIndex>)>,
) -> (r: (u64, Option<usize>))
    requires
        indexes_edges(index@, edges@),
        edges@.no_duplicates(),
        lengths@.len() >= edges@.len(),
        best.0 == spec_best@.0,
        match best.1 {
            Some(i) => i < edges@.len() && spec_best@.1 == Some(edges@[i as int]),
            None => spec_best@.1 is None,
        },
    ensures
        ({
            let sb = longer_side(edges@, lengths@, spec_best@, ordered(u, v));
            &&& r.0 == sb.0
            &&& match r.1 {
                Some(i) => i < edges@.len() && sb.1 == Some(edges@[i as int]),
                None => sb.1 is None,
            }
        }),
{
    let (a, b) = if u <= v { (u, v) } else { (v, u) };
    match lookup(index, a, b, edges) {
        Some(i) => {
            assert(side_length(edges@, lengths@, (a, b)) == Some(lengths@[i as int])) by {
                let c = choose|c: int| 0 <= c < edges@.len() && edges@[c] == (a, b);
                assert(edges@[c] == edges@[i as int]);
            }
            if lengths[i] > best.0 {
                (lengths[i], Some(i))
            } else {
                best
            }
        },
        None => best,
    }
}

/// Flags the edges of the Urquhart graph: an edge stays (`true`) unless it
/// is the longest side of some triangle. `lengths[i]` orders the lengths of
/// the edges as their lengths do (the bit pattern of a non-negative float
/// length does).
pub fn urquhart(edges: &Vec<EdgeIndex>, triangles: &Vec<TriIndex>, lengths: &Vec<u64>) -> (r: Vec<bool>)
    requires
        edges@.no_duplicates(),
        lengths@.len() >= edges@.len(),
    ensures
        r@.len() == edges@.len(),
        forall|i: int| 0 <= i < edges@.len() ==> #[trigger] r@[i] == !dropped_by_some(edges@, lengths@, triangles@, triangles@.len() as int, edges@[i]),
{
    let mut index: HashMap<usize, Vec<(usize, usize)>> = HashMap::new();
    let mut i: usize = 0;
    while i < edges.len()
        invariant
            i <= edges@.len(),
            indexes_prefix(index@, edges@, i as int),
        decreases edges.len() - i,
    {
        let (a, b) = edges[i];
        let ghost before = index@;
        let mut list = match index.remove(&a) {
            Some(l) => l,
            None => Vec::new(),
        };
        let ghost l0 = list@;
        assert(before.contains_key(a) ==> l0 == before[a]@);
        assert(!before.contains_key(a) ==> l0 == Seq::<(usize, usize)>::empty());
        list.push((b, i));
        index.insert(a, list);
        assert forall|x: usize, y: usize, k: usize|
            index@.contains_key(x) && #[trigger] index@[x]@.contains((y, k)) implies k < i + 1 && edges@[k as int] == (x, y) by {
            if x == a {
                assert(index@[x]@ == l0.push((b, i)));
                let q = choose|q: int| 0 <= q < index@[x]@.len() && index@[x]@[q] == (y, k);
                if q < l0.len() {
                    assert(l0.contains((y, k)));
                }
            } else {
                assert(before.contains_key(x) && before[x]@.contains((y, k)));
            }
        }
        assert forall|k: int| 0 <= k < i + 1 implies index@.contains_key((#[trigger] edges@[k]).0) && index@[edges@[k].0]@.contains((edges@[k].1, k as usize)) by {
            if k < i {
                let x = edges@[k].0;
                assert(before.contains_key(x) && before[x]@.contains((edges@[k].1, k as usize)));
                if x == a {
                    let q = choose|q: int| 0 <= q < l0.len() && l0[q] == (edges@[k].1, k as usize);
                    assert(index@[x]@[q] == (edges@[k].1, k as usize));
                }
            } else {
                assert(index@[a]@[l0.len() as int] == (b, i));
            }
        }
        i = i + 1;
    }
    let mut flags: Vec<bool> = Vec::new();
    let mut i: usize = 0;
    while i < edges.len()
        invariant
            i <= edges@.len(),
            flags@.len() == i,
            forall|k: int| 0 <= k < i ==> #[trigger] flags@[k] == true,
        decreases edges.len() - i,
    {
        flags.push(true);
        i = i + 1;
    }
    let ghost es = edges@;
    let mut t: usize = 0;
    while t < triangles.len()
        invariant
            t <= triangles@.len(),
            es == edges@,
            indexes_edges(index@, edges@),
            edges@.no_duplicates(),
            lengths@.len() >= edges@.len(),
            flags@.len() == edges@.len(),
            forall|k: int| 0 <= k < edges@.len() ==> #[trigger] flags@[k] == !dropped_by_some(edges@, lengths@, triangles@, t as int, edges@[k]),
        decreases triangles.len() - t,
    {
        let tri = triangles[t];
        let ghost g0 = (0u64, None::<EdgeIndex>);
        let ghost g1 = longer_side(es, lengths@, g0, ordered(tri[0], tri[1]));
        let ghost g2 = longer_side(es, lengths@, g1, ordered(tri[1], tri[2]));
        let s1 = step_longer(&index, lengths, (0, None), tri[0], tri[1], Ghost(es), Ghost(g0));
        let s2 = step_longer(&index, lengths, s1, tri[1], tri[2], Ghost(es), Ghost(g1));
        let s3 = step_longer(&index, lengths, s2, tri[2], tri[0], Ghost(es), Ghost(g2));
        let ghost d = dropped_side(es, lengths@, tri);
        let ghost flags_before = flags@;
        match s3.1 {
            Some(idx) => {
                flags.set(idx, false);
            },
            None => {},
        }
        assert forall|k: int| 0 <= k < edges@.len() implies #[trigger] flags@[k] == !dropped_by_some(edges@, lengths@, triangles@, t + 1, edges@[k]) by {
            assert(dropped_side(edges@, lengths@, triangles@[t as int]) == d);
            if dropped_by_some(edges@, lengths@, triangles@, t + 1, edges@[k]) && !dropped_by_some(edges@, lengths@, triangles@, t as int, edges@[k]) {
                let w = choose|w: int| 0 <= w < t + 1 && #[trigger] dropped_side(edges@, lengths@, triangles@[w]) == Some(edges@[k]);
                assert(w == t);
                assert(d == Some(edges@[k]));
                let idx = s3.1.unwrap();
                assert(edges@[idx as int] == edges@[k]);
                assert(idx == k);
            }
            if dropped_by_some(edges@, lengths@, triangles@, t as int, edges@[k]) {
                let w = choose|w: int| 0 <= w < t && #[trigger] dropped_side(edges@, lengths@, triangles@[w]) == Some(edges@[k]);
                assert(0 <= w < t + 1);
            }
            if s3.1 matches Some(idx) && idx == k {
                assert(dropped_side(edges@, lengths@, triangles@[t as int]) == Some(edges@[k]));
            }
        }
        t = t + 1;
    }
    flags
}

/// `e` is one of the three sides of `tri`, as an ordered pair.
pub open spec fn is_side_of(tri: TriIndex, e: EdgeIndex) -> bool {
    e == ordered(tri[0], tri[1]) || e == ordered(tri[1], tri[2]) || e == ordered(tri[2], tri[0])
}

/// The side a triangle drops is one of its sides, a known edge, and at
/// least as long as each of its other known sides (and longer than zero);
/// a triangle drops nothing only when none of its known sides is longer
/// than zero.
pub proof fn lemma_dropped_side_is_longest(edges: Seq<EdgeIndex>, lengths: Seq<u64>, tri: TriIndex)
    ensures
        dropped_side(edges, lengths, tri) matches Some(e) ==> {
            &&& is_side_of(tri, e)
            &&& side_length(edges, lengths, e) matches Some(l) && l > 0 && forall|f: EdgeIndex|
                is_side_of(tri, f) ==> (#[trigger] side_length(edges, lengths, f) matches Some(l2) ==> l2 <= l)
        },
        dropped_side(edges, lengths, tri) is None ==> forall|f: EdgeIndex|
            is_side_of(tri, f) ==> (#[trigger] side_length(edges, lengths, f) matches Some(l2) ==> l2 == 0),
{
}

} // verus!
