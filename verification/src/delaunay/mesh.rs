use vstd::prelude::*;

verus! {

/// The vertex that precedes position `i` in the closed ring `poly`.
pub open spec fn ring_prev(poly: Seq<usize>, i: int) -> usize {
    if i == 0 {
        poly.last()
    } else {
        poly[i - 1]
    }
}

/// The sides of the ring `poly`, among its first `n` positions, that go
/// from a smaller to a larger index, in ring order.
pub open spec fn ring_sides(poly: Seq<usize>, n: int) -> Seq<(usize, usize)>
    decreases n,
{
    if n <= 0 {
        Seq::empty()
    } else {
        let rest = ring_sides(poly, n - 1);
        let p = ring_prev(poly, n - 1);
        let q = poly[n - 1];
        if q > p {
            rest.push((p, q))
        } else {
            rest
        }
    }
}

/// Some ring among the first `n` is empty.
pub open spec fn has_empty_ring(polygons: Seq<Vec<usize>>, n: int) -> bool {
    exists|i: int| 0 <= i < n && polygons[i]@.len() == 0
}

/// The concatenated sides of the first `n` rings.
pub open spec fn rings_sides(polygons: Seq<Vec<usize>>, n: int) -> Seq<(usize, usize)>
    decreases n,
{
    if n <= 0 {
        Seq::empty()
    } else {
        rings_sides(polygons, n - 1) + ring_sides(polygons[n - 1]@, polygons[n - 1]@.len() as int)
    }
}

/// The mesh of a list of rings: the sides of every ring that go from a
/// smaller to a larger index, ring after ring, in ring order; nothing when
/// some ring is empty. Where the rings are closed and consistently
/// oriented, so that a shared side is traversed once each way, this lists
/// every side once.
pub open spec fn mesh_spec(polygons: Seq<Vec<usize>>) -> Seq<(usize, usize)> {
    if has_empty_ring(polygons, polygons.len() as int) {
        Seq::empty()
    } else {
        rings_sides(polygons, polygons.len() as int)
    }
}

/// `r` lists the pairs of `s` as two-element arrays.
pub open spec fn pairs_as_arrays(r: Seq<[usize; 2]>, s: Seq<(usize, usize)>) -> bool {
    &&& r.len() == s.len()
    &&& forall|i: int| 0 <= i < s.len() ==> (#[trigger] r[i])[0] == s[i].0 && r[i][1] == s[i].1
}

/// The mesh of the polygons: each side that goes from a smaller to a larger
/// index, in polygon order. An empty polygon gives an empty mesh.
pub fn mesh(polygons: &[Vec<usize>]) -> (r: Vec<[usize; 2]>)
    ensures
        pairs_as_arrays(r@, mesh_spec(polygons@)),
        (forall|x: int| 0 <= x < polygons@.len() ==> (#[trigger] polygons@[x])@.len() > 0) ==> forall|x: int, i: int|
            #![trigger polygons@[x]@[i]]
            0 <= x < polygons@.len() && 0 <= i < polygons@[x]@.len() ==> {
                let p = polygons@[x]@;
                let prev = if i == 0 { p.last() } else { p[i - 1] };
                prev < p[i] ==> exists|q: int| 0 <= q < r@.len() && (#[trigger] r@[q])[0] == prev && r@[q][1] == p[i]
            },
{
    let m = mesh_rings(polygons);
    proof {
        if forall|x: int| 0 <= x < polygons@.len() ==> (#[trigger] polygons@[x])@.len() > 0 {
            assert forall|x: int, i: int|
                #![trigger polygons@[x]@[i]]
                0 <= x < polygons@.len() && 0 <= i < polygons@[x]@.len() implies {
                    let p = polygons@[x]@;
                    let prev = if i == 0 { p.last() } else { p[i - 1] };
                    prev < p[i] ==> exists|q: int| 0 <= q < m@.len() && (#[trigger] m@[q])[0] == prev && m@[q][1] == p[i]
                } by {
                let p = polygons@[x]@;
                let prev = if i == 0 { p.last() } else { p[i - 1] };
                if prev < p[i] {
                    let ms = mesh_spec(polygons@);
                    if i == 0 {
                        lemma_mesh_lists_increasing_sides(polygons@, x, 0);
                    } else {
                        lemma_mesh_lists_increasing_sides(polygons@, x, i - 1);
                    }
                    assert(ms.contains((prev, p[i])));
                    let q = choose|q: int| 0 <= q < ms.len() && ms[q] == (prev, p[i]);
                    assert(m@[q][0] == prev && m@[q][1] == p[i]);
                }
            }
        }
    }
    m
}

fn mesh_rings(polygons: &[Vec<usize>]) -> (r: Vec<[usize; 2]>)
    ensures
        pairs_as_arrays(r@, mesh_spec(polygons@)),
{
    let mut mesh: Vec<[usize; 2]> = Vec::new();
    let mut k: usize = 0;
    while k < polygons.len()
        invariant
            k <= polygons@.len(),
            !has_empty_ring(polygons@, k as int),
            pairs_as_arrays(mesh@, rings_sides(polygons@, k as int)),
        decreases polygons.len() - k,
    {
        let poly = &polygons[k];
        if poly.len() == 0 {
            assert(has_empty_ring(polygons@, polygons@.len() as int));
            return Vec::new();
        }
        let mut p: usize = poly[poly.len() - 1];
        let mut i: usize = 0;
        let ghost before = mesh@;
        while i < poly.len()
            invariant
                k < polygons@.len(),
                poly == polygons@[k as int],
                0 < poly@.len(),
                i <= poly@.len(),
                p == ring_prev(poly@, i as int),
                pairs_as_arrays(before, rings_sides(polygons@, k as int)),
                pairs_as_arrays(mesh@, rings_sides(polygons@, k as int) + ring_sides(poly@, i as int)),
            decreases poly.len() - i,
        {
            let q = poly[i];
            if q > p {
                mesh.push([p, q]);
            }
            p = q;
            i = i + 1;
        }
        assert(rings_sides(polygons@, k + 1) =~= rings_sides(polygons@, k as int) + ring_sides(poly@, poly@.len() as int));
        k = k + 1;
    }
    mesh
}

proof fn lemma_ring_sides_grow(poly: Seq<usize>, m: int, n: int)
    requires
        0 <= m <= n,
    ensures
        forall|e: (usize, usize)| ring_sides(poly, m).contains(e) ==> ring_sides(poly, n).contains(e),
    decreases n - m,
{
    if m < n {
        lemma_ring_sides_grow(poly, m, n - 1);
        let rest = ring_sides(poly, n - 1);
        assert forall|e: (usize, usize)| rest.contains(e) implies ring_sides(poly, n).contains(e) by {
            let q = choose|q: int| 0 <= q < rest.len() && rest[q] == e;
            assert(ring_sides(poly, n)[q] == e);
        }
    }
}

proof fn lemma_rings_sides_grow(polygons: Seq<Vec<usize>>, r: int, n: int)
    requires
        0 <= r < n,
    ensures
        forall|e: (usize, usize)| ring_sides(polygons[r]@, polygons[r]@.len() as int).contains(e) ==> rings_sides(polygons, n).contains(e),
    decreases n,
{
    let a = rings_sides(polygons, n - 1);
    let b = ring_sides(polygons[n - 1]@, polygons[n - 1]@.len() as int);
    assert(rings_sides(polygons, n) == a + b);
    if r < n - 1 {
        lemma_rings_sides_grow(polygons, r, n - 1);
        assert forall|e: (usize, usize)| ring_sides(polygons[r]@, polygons[r]@.len() as int).contains(e) implies (a + b).contains(e) by {
            assert(a.contains(e));
            let q = choose|q: int| 0 <= q < a.len() && a[q] == e;
            assert((a + b)[q] == e);
        }
    } else {
        assert forall|e: (usize, usize)| b.contains(e) implies (a + b).contains(e) by {
            let q = choose|q: int| 0 <= q < b.len() && b[q] == e;
            assert((a + b)[a.len() + q] == e);
        }
    }
}

/// When no ring is empty, the mesh lists every side of every ring that goes
/// from a smaller to a larger index: the sides between consecutive
/// vertices, and the closing side from the last vertex back to the first.
pub proof fn lemma_mesh_lists_increasing_sides(polygons: Seq<Vec<usize>>, r: int, i: int)
    requires
        0 <= r < polygons.len(),
        forall|x: int| 0 <= x < polygons.len() ==> (#[trigger] polygons[x])@.len() > 0,
    ensures
        polygons[r]@.last() < polygons[r]@[0] ==> mesh_spec(polygons).contains((polygons[r]@.last(), polygons[r]@[0])),
        0 <= i < polygons[r]@.len() - 1 && polygons[r]@[i] < polygons[r]@[i + 1] ==> mesh_spec(polygons).contains(
            (polygons[r]@[i], polygons[r]@[i + 1]),
        ),
{
    let p = polygons[r]@;
    let l = p.len() as int;
    if has_empty_ring(polygons, polygons.len() as int) {
        let x = choose|x: int| 0 <= x < polygons.len() && polygons[x]@.len() == 0;
        assert(polygons[x]@.len() > 0);
    }
    lemma_rings_sides_grow(polygons, r, polygons.len() as int);
    if p.last() < p[0] {
        lemma_ring_sides_grow(p, 1, l);
        assert(ring_sides(p, 0) =~= Seq::<(usize, usize)>::empty());
        assert(ring_sides(p, 1)[0] == (p.last(), p[0]));
    }
    if 0 <= i < l - 1 && p[i] < p[i + 1] {
        lemma_ring_sides_grow(p, i + 2, l);
        let rs = ring_sides(p, i + 2);
        assert(rs[rs.len() - 1] == (p[i], p[i + 1]));
    }
}

proof fn lemma_ring_sides_increase(poly: Seq<usize>, n: int)
    ensures
        forall|i: int| 0 <= i < ring_sides(poly, n).len() ==> (#[trigger] ring_sides(poly, n)[i]).0 < ring_sides(poly, n)[i].1,
    decreases n,
{
    if n > 0 {
        lemma_ring_sides_increase(poly, n - 1);
        let rest = ring_sides(poly, n - 1);
        assert forall|i: int| 0 <= i < ring_sides(poly, n).len() implies (#[trigger] ring_sides(poly, n)[i]).0 < ring_sides(poly, n)[i].1 by {
            if i < rest.len() {
                assert(ring_sides(poly, n)[i] == rest[i]);
            }
        }
    }
}

proof fn lemma_rings_sides_increase(polygons: Seq<Vec<usize>>, n: int)
    ensures
        forall|i: int| 0 <= i < rings_sides(polygons, n).len() ==> (#[trigger] rings_sides(polygons, n)[i]).0 < rings_sides(polygons, n)[i].1,
    decreases n,
{
    if n > 0 {
        lemma_rings_sides_increase(polygons, n - 1);
        let p = polygons[n - 1]@;
        lemma_ring_sides_increase(p, p.len() as int);
        let a = rings_sides(polygons, n - 1);
        let b = ring_sides(p, p.len() as int);
        assert forall|i: int| 0 <= i < (a + b).len() implies (#[trigger] (a + b)[i]).0 < (a + b)[i].1 by {
            if i < a.len() {
                assert((a + b)[i] == a[i]);
            } else {
                assert((a + b)[i] == b[i - a.len()]);
            }
        }
    }
}

/// Every side of the mesh goes from a smaller to a larger index, so no
/// side is listed in both directions.
pub proof fn lemma_mesh_sides_increase(polygons: Seq<Vec<usize>>)
    ensures
        forall|i: int| 0 <= i < mesh_spec(polygons).len() ==> (#[trigger] mesh_spec(polygons)[i]).0 < mesh_spec(polygons)[i].1,
{
    lemma_rings_sides_increase(polygons, polygons.len() as int);
}

} // verus!
