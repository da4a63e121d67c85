//! Voronoi cells derived from a spherical Delaunay triangulation.
use vstd::prelude::*;

verus! {

/// Geo-Voronoi construction error: the input geometry is not supported.
pub struct ConstructionError;

/// The kind of geometry handed to the Voronoi constructor.
pub enum GeometryKind {
    /// A set of sites.
    MultiPoint,
    /// Any other geometry.
    Other,
}

/// What the constructor does with its input: `Ok(true)` builds the diagram
/// from the sites of a multi-point, `Ok(false)` gives the empty diagram
/// when there is no input, and any other geometry is refused.
pub fn construction_input(data: Option<GeometryKind>) -> (r: Result<bool, ConstructionError>)
    ensures
        r matches Ok(b) ==> (b <==> data matches Some(GeometryKind::MultiPoint)),
        r matches Ok(b) && !b ==> data is None,
        r is Err <==> data matches Some(GeometryKind::Other),
{
    match data {
        Some(GeometryKind::MultiPoint) => Ok(true),
        None => Ok(false),
        Some(GeometryKind::Other) => Err(ConstructionError),
    }
}

/// The pair of vertices looked at before step `k` of the walk along a
/// cell: it starts with the last and the first vertex, and each step moves
/// the second of the pair to the first and takes vertex `k - 1` as second.
pub open spec fn cell_pair(p: Seq<usize>, k: int) -> (usize, usize)
    decreases k,
{
    if k <= 0 {
        (p.last(), p[0])
    } else {
        (cell_pair(p, k - 1).1, p[k - 1])
    }
}

/// The sides of one cell that the walk keeps: the pairs it looks at, in
/// order, whose second vertex is larger than the first.
pub open spec fn cell_sides(p: Seq<usize>, k: int) -> Seq<(usize, usize)>
    decreases k,
{
    if k <= 0 {
        Seq::empty()
    } else {
        let rest = cell_sides(p, k - 1);
        let pair = cell_pair(p, k - 1);
        if pair.1 > pair.0 {
            rest.push(pair)
        } else {
            rest
        }
    }
}

/// The sides of the first `n` cells (empty cells contribute nothing).
pub open spec fn cells_sides(polygons: Seq<Vec<usize>>, n: int) -> Seq<(usize, usize)>
    decreases n,
{
    if n <= 0 {
        Seq::empty()
    } else {
        let p = polygons[n - 1]@;
        cells_sides(polygons, n - 1) + (if p.len() == 0 { Seq::empty() } else { cell_sides(p, p.len() as int) })
    }
}

/// The mesh of the Voronoi cells, as pairs of indices into the cell
/// centres (see `cells_sides`).
/// The walk along each non-empty cell `p` looks first at the pair of its
/// last and first vertices, and then at the pairs `p[i], p[i + 1]` for
/// `i + 2 < p.len()`; each of these that goes from a smaller to a larger
/// index is in the mesh.
pub fn cell_mesh(polygons: &Vec<Vec<usize>>) -> (r: Vec<[usize; 2]>)
    ensures
        r@.len() == cells_sides(polygons@, polygons@.len() as int).len(),
        forall|i: int| 0 <= i < r@.len() ==> (#[trigger] r@[i])[0] == cells_sides(polygons@, polygons@.len() as int)[i].0
            && r@[i][1] == cells_sides(polygons@, polygons@.len() as int)[i].1,
        forall|x: int| 0 <= x < polygons@.len() && (#[trigger] polygons@[x])@.len() > 0 && polygons@[x]@.last() < polygons@[x]@[0]
            ==> exists|q: int| 0 <= q < r@.len() && (#[trigger] r@[q])[0] == polygons@[x]@.last() && r@[q][1] == polygons@[x]@[0],
        forall|x: int, i: int|
            #![trigger polygons@[x]@[i]]
            0 <= x < polygons@.len() && 0 <= i && i + 2 < polygons@[x]@.len() && polygons@[x]@[i] < polygons@[x]@[i + 1]
            ==> exists|q: int| 0 <= q < r@.len() && (#[trigger] r@[q])[0] == polygons@[x]@[i] && r@[q][1] == polygons@[x]@[i + 1],
{
    let m = cell_mesh_walk(polygons);
    proof {
        let all = cells_sides(polygons@, polygons@.len() as int);
        assert forall|x: int| 0 <= x < polygons@.len() && (#[trigger] polygons@[x])@.len() > 0 && polygons@[x]@.last() < polygons@[x]@[0]
            implies exists|q: int| 0 <= q < m@.len() && (#[trigger] m@[q])[0] == polygons@[x]@.last() && m@[q][1] == polygons@[x]@[0] by {
            lemma_cell_mesh_looks_at(polygons@, x, 0);
            let p = polygons@[x]@;
            let q = choose|q: int| 0 <= q < all.len() && all[q] == (p.last(), p[0]);
            assert(m@[q][0] == p.last() && m@[q][1] == p[0]);
        }
        assert forall|x: int, i: int|
            #![trigger polygons@[x]@[i]]
            0 <= x < polygons@.len() && 0 <= i && i + 2 < polygons@[x]@.len() && polygons@[x]@[i] < polygons@[x]@[i + 1]
            implies exists|q: int| 0 <= q < m@.len() && (#[trigger] m@[q])[0] == polygons@[x]@[i] && m@[q][1] == polygons@[x]@[i + 1] by {
            lemma_cell_mesh_looks_at(polygons@, x, i + 2);
            let p = polygons@[x]@;
            let q = choose|q: int| 0 <= q < all.len() && all[q] == (p[i], p[i + 1]);
            assert(m@[q][0] == p[i] && m@[q][1] == p[i + 1]);
        }
    }
    m
}

fn cell_mesh_walk(polygons: &Vec<Vec<usize>>) -> (r: Vec<[usize; 2]>)
    ensures
        r@.len() == cells_sides(polygons@, polygons@.len() as int).len(),
        forall|i: int| 0 <= i < r@.len() ==> (#[trigger] r@[i])[0] == cells_sides(polygons@, polygons@.len() as int)[i].0
            && r@[i][1] == cells_sides(polygons@, polygons@.len() as int)[i].1,
{
    let mut out: Vec<[usize; 2]> = Vec::new();
    let ghost mut sides: Seq<(usize, usize)> = Seq::empty();
    let mut c: usize = 0;
    while c < polygons.len()
        invariant
            c <= polygons@.len(),
            sides == cells_sides(polygons@, c as int),
            out@.len() == sides.len(),
            forall|i: int| 0 <= i < out@.len() ==> (#[trigger] out@[i])[0] == sides[i].0 && out@[i][1] == sides[i].1,
        decreases polygons.len() - c,
    {
        let p = &polygons[c];
        if p.len() > 0 {
            let mut p0 = p[p.len() - 1];
            let mut p1 = p[0];
            let ghost base = sides;
            let mut k: usize = 0;
            while k < p.len()
                invariant
                    c < polygons@.len(),
                    p == polygons@[c as int],
                    p@.len() > 0,
                    k <= p@.len(),
                    (p0, p1) == cell_pair(p@, k as int),
                    sides == base + cell_sides(p@, k as int),
                    out@.len() == sides.len(),
                    forall|i: int| 0 <= i < out@.len() ==> (#[trigger] out@[i])[0] == sides[i].0 && out@[i][1] == sides[i].1,
                decreases p.len() - k,
            {
                if p1 > p0 {
                    out.push([p0, p1]);
                }
                proof {
                    sides = base + cell_sides(p@, k + 1);
                    assert(base + cell_sides(p@, k + 1) =~= if p1 > p0 { (base + cell_sides(p@, k as int)).push((p0, p1)) } else { base + cell_sides(p@, k as int) });
                }
                p0 = p1;
                p1 = p[k];
                k = k + 1;
            }
        }
        proof {
            sides = cells_sides(polygons@, c + 1);
        }
        c = c + 1;
    }
    out
}

proof fn lemma_cell_sides_grow(p: Seq<usize>, m: int, n: int)
    requires
        0 <= m <= n,
    ensures
        forall|e: (usize, usize)| cell_sides(p, m).contains(e) ==> cell_sides(p, n).contains(e),
    decreases n - m,
{
    if m < n {
        lemma_cell_sides_grow(p, m, n - 1);
        let rest = cell_sides(p, n - 1);
        assert forall|e: (usize, usize)| cell_sides(p, m).contains(e) implies cell_sides(p, n).contains(e) by {
            assert(rest.contains(e));
            let q = choose|q: int| 0 <= q < rest.len() && rest[q] == e;
            assert(cell_sides(p, n)[q] == e);
        }
    }
}

proof fn lemma_cells_sides_grow(polygons: Seq<Vec<usize>>, x: int, n: int)
    requires
        0 <= x < n,
        polygons[x]@.len() > 0,
    ensures
        forall|e: (usize, usize)| cell_sides(polygons[x]@, polygons[x]@.len() as int).contains(e) ==> cells_sides(polygons, n).contains(e),
    decreases n,
{
    let a = cells_sides(polygons, n - 1);
    let p = polygons[n - 1]@;
    let b = if p.len() == 0 { Seq::<(usize, usize)>::empty() } else { cell_sides(p, p.len() as int) };
    assert(cells_sides(polygons, n) == a + b);
    if x < n - 1 {
        lemma_cells_sides_grow(polygons, x, n - 1);
        assert forall|e: (usize, usize)| cell_sides(polygons[x]@, polygons[x]@.len() as int).contains(e) implies (a + b).contains(e) by {
            assert(a.contains(e));
            let q = choose|q: int| 0 <= q < a.len() && a[q] == e;
            assert((a + b)[q] == e);
        }
    } else {
        assert forall|e: (usize, usize)| b.contains(e) implies (a + b).contains(e) by {
            let q = choose|q: int| 0 <= q < b.len() && b[q] == e;
            assert((a + b)[a.len() + q] == e);
        }
    }
}

/// The mesh of the cells holds the pair the walk along cell `x` looks at
/// before step `k` whenever that pair goes from a smaller to a larger
/// index: the last and first vertices for `k == 0`, and vertices `k - 2`
/// and `k - 1` for `2 <= k < p.len()`.
pub proof fn lemma_cell_mesh_looks_at(polygons: Seq<Vec<usize>>, x: int, k: int)
    requires
        0 <= x < polygons.len(),
        polygons[x]@.len() > 0,
    ensures
        ({
            let p = polygons[x]@;
            &&& k == 0 && p.last() < p[0] ==> cells_sides(polygons, polygons.len() as int).contains((p.last(), p[0]))
            &&& 2 <= k < p.len() && p[k - 2] < p[k - 1] ==> cells_sides(polygons, polygons.len() as int).contains((p[k - 2], p[k - 1]))
        }),
{
    let p = polygons[x]@;
    let l = p.len() as int;
    lemma_cells_sides_grow(polygons, x, polygons.len() as int);
    if k == 0 && p.last() < p[0] {
        assert(cell_pair(p, 0) == (p.last(), p[0]));
        assert(cell_sides(p, 0) =~= Seq::<(usize, usize)>::empty());
        assert(cell_sides(p, 1)[0] == (p.last(), p[0]));
        lemma_cell_sides_grow(p, 1, l);
    }
    if 2 <= k < l && p[k - 2] < p[k - 1] {
        assert(cell_pair(p, k - 1).1 == p[k - 2]);
        assert(cell_pair(p, k) == (p[k - 2], p[k - 1]));
        let cs = cell_sides(p, k + 1);
        assert(cs[cs.len() - 1] == (p[k - 2], p[k - 1]));
        lemma_cell_sides_grow(p, k + 1, l);
    }
}

proof fn lemma_cell_sides_increase(p: Seq<usize>, k: int)
    ensures
        forall|i: int| 0 <= i < cell_sides(p, k).len() ==> (#[trigger] cell_sides(p, k)[i]).0 < cell_sides(p, k)[i].1,
    decreases k,
{
    if k > 0 {
        lemma_cell_sides_increase(p, k - 1);
        let rest = cell_sides(p, k - 1);
        assert forall|i: int| 0 <= i < cell_sides(p, k).len() implies (#[trigger] cell_sides(p, k)[i]).0 < cell_sides(p, k)[i].1 by {
            if i < rest.len() {
                assert(cell_sides(p, k)[i] == rest[i]);
            }
        }
    }
}

/// Every side of the cell mesh joins a smaller to a larger centre index.
pub proof fn lemma_cell_mesh_sides_increase(polygons: Seq<Vec<usize>>, n: int)
    ensures
        forall|i: int| 0 <= i < cells_sides(polygons, n).len() ==> (#[trigger] cells_sides(polygons, n)[i]).0 < cells_sides(polygons, n)[i].1,
    decreases n,
{
    if n > 0 {
        lemma_cell_mesh_sides_increase(polygons, n - 1);
        let p = polygons[n - 1]@;
        lemma_cell_sides_increase(p, p.len() as int);
        let a = cells_sides(polygons, n - 1);
        let b = if p.len() == 0 { Seq::<(usize, usize)>::empty() } else { cell_sides(p, p.len() as int) };
        assert(cells_sides(polygons, n) == a + b);
        assert forall|i: int| 0 <= i < (a + b).len() implies (#[trigger] (a + b)[i]).0 < (a + b)[i].1 by {
            if i < a.len() {
                assert((a + b)[i] == a[i]);
            } else {
                assert((a + b)[i] == b[i - a.len()]);
            }
        }
    }
}

} // verus!
