use vstd::prelude::*;

use super::generate::Triangulation;
use super::TriIndex;

verus! {

/// The triangles among the first `n` triples of the flat vertex list that
/// are not collapsed (first two vertices differ, last two differ), each
/// with its last two vertices swapped.
pub open spec fn kept_triangles(tr: Seq<usize>, n: int) -> Seq<(usize, usize, usize)>
    decreases n,
{
    if n <= 0 {
        Seq::empty()
    } else {
        let rest = kept_triangles(tr, n - 1);
        let a = tr[3 * (n - 1)];
        let b = tr[3 * (n - 1) + 1];
        let c = tr[3 * (n - 1) + 2];
        if a != b && b != c {
            rest.push((a, c, b))
        } else {
            rest
        }
    }
}

/// `r` lists the triples of `s` as arrays.
pub open spec fn triples_as_arrays(r: Seq<TriIndex>, s: Seq<(usize, usize, usize)>) -> bool {
    &&& r.len() == s.len()
    &&& forall|i: int| 0 <= i < s.len() ==> (#[trigger] r[i])[0] == s[i].0 && r[i][1] == s[i].1 && r[i][2] == s[i].2
}

/// The triangles of a triangulation, without the collapsed ones and with
/// their orientation reversed (the triangulation is of a stereographic
/// projection, which reverses orientation on the sphere).
pub fn triangles(delaunay: &Triangulation) -> (r: Vec<TriIndex>)
    ensures
        triples_as_arrays(r@, kept_triangles(delaunay.triangles@, (delaunay.triangles@.len() / 3) as int)),
{
    let tr = &delaunay.triangles;
    let len = tr.len();
    let n = len / 3;
    let mut out: Vec<TriIndex> = Vec::new();
    let mut i: usize = 0;
    while i < n
        invariant
            len == tr@.len(),
            n == len / 3,
            i <= n,
            triples_as_arrays(out@, kept_triangles(tr@, i as int)),
        decreases n - i,
    {
        assert(3 * i + 2 < len) by (nonlinear_arith)
            requires
                i < n,
                n == len / 3,
        ;
        let a = tr[3 * i];
        let b = tr[3 * i + 1];
        let c = tr[3 * i + 2];
        if a != b && b != c {
            out.push([a, c, b]);
        }
        i = i + 1;
    }
    out
}

/// The triangles of a triangulation, as `triangles` gives them.
pub fn geo_triangles(delaunay: &Triangulation) -> (r: Vec<TriIndex>)
    ensures
        triples_as_arrays(r@, kept_triangles(delaunay.triangles@, (delaunay.triangles@.len() / 3) as int)),
{
    triangles(delaunay)
}

} // verus!
