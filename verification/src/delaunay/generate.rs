use vstd::prelude::*;

verus! {

/// The marker of a half-edge without a twin (a half-edge on the hull).
pub const EMPTY: usize = usize::MAX;

/// The index arrays of a planar triangulation.
///
/// `triangles[3 * t .. 3 * t + 3]` are the vertices of triangle `t`;
/// `halfedges[e]` is the twin of half-edge `e`, or `EMPTY` on the hull;
/// `inedges[p]` is a half-edge that ends at vertex `p`.
pub struct Triangulation {
    pub triangles: Vec<usize>,
    pub halfedges: Vec<usize>,
    pub inedges: Vec<usize>,
}

/// A snapshot of the clean-up pass over a triangulation.
pub struct CleanupState {
    pub tr: Seq<usize>,
    pub he: Seq<usize>,
    pub ie: Seq<usize>,
    pub degenerate: Seq<usize>,
    pub i: int,
}

/// The state in which the clean-up starts.
pub open spec fn start_state(t: Triangulation) -> CleanupState {
    CleanupState { tr: t.triangles@, he: t.halfedges@, ie: t.inedges@, degenerate: Seq::empty(), i: 0 }
}

/// The half-edge after `i` in its triangle.
pub open spec fn next_in_tri(i: int) -> int {
    if i % 3 == 2 { i - 2 } else { i + 1 }
}

/// The half-edge before `i` in its triangle.
pub open spec fn prev_in_tri(i: int) -> int {
    if i % 3 == 0 { i + 2 } else { i - 1 }
}

/// The half-edge that ends the triangle before the one `e` starts.
pub open spec fn incoming_of(e: int) -> int {
    if e % 3 == 0 { e + 2 } else { e - 1 }
}

/// The triangle vertices after the hull triangle that holds half-edge
/// `s.i` is collapsed onto `pivot`.
pub open spec fn collapsed_tr(s: CleanupState, pivot: usize) -> Seq<usize> {
    let j = next_in_tri(s.i);
    let k = prev_in_tri(s.i);
    s.tr.update(s.i, pivot).update(j, pivot).update(k, pivot)
}

/// The step at half-edge `s.i` does not index out of bounds or overflow.
pub open spec fn step_ok(s: CleanupState, pivot: usize) -> bool {
    &&& 0 <= s.i < s.he.len()
    &&& s.i < s.tr.len()
    &&& s.he[s.i] == EMPTY ==> {
        let j = next_in_tri(s.i);
        let k = prev_in_tri(s.i);
        let a = s.he[j] as int;
        let b = s.he[k] as int;
        let tr2 = collapsed_tr(s, pivot);
        &&& 0 <= j < s.he.len() && j < s.tr.len()
        &&& 0 <= k < s.he.len() && k < s.tr.len()
        &&& a < s.he.len() && a < s.tr.len()
        &&& b < s.he.len() && b < s.tr.len()
        &&& a + 2 <= usize::MAX && b + 2 <= usize::MAX
        &&& tr2[a] < s.ie.len()
        &&& tr2[b] < s.ie.len()
    }
}

/// One step of the clean-up at half-edge `s.i`: a hull half-edge
/// collapses its triangle onto `pivot`, joins the two outer twins to each
/// other and moves on to the next triangle; any other half-edge whose
/// vertex lies beyond `limit` is moved onto `pivot`.
pub open spec fn step(s: CleanupState, pivot: usize, limit: int) -> CleanupState {
    if s.he[s.i] == EMPTY {
        let j = next_in_tri(s.i);
        let k = prev_in_tri(s.i);
        let a = s.he[j] as int;
        let b = s.he[k] as int;
        let he2 = s.he.update(a, b as usize).update(b, a as usize).update(j, EMPTY).update(k, EMPTY);
        let tr2 = collapsed_tr(s, pivot);
        let ie2 = s.ie.update(tr2[a] as int, incoming_of(a) as usize).update(
            tr2[b] as int,
            incoming_of(b) as usize,
        );
        let m = if s.i < j { s.i } else { j };
        let m2 = if m < k { m } else { k };
        CleanupState { tr: tr2, he: he2, ie: ie2, degenerate: s.degenerate.push(m2 as usize), i: s.i - s.i % 3 + 3 }
    } else if s.tr[s.i] > limit {
        CleanupState { tr: s.tr.update(s.i, pivot), i: s.i + 1, ..s }
    } else {
        CleanupState { i: s.i + 1, ..s }
    }
}

/// Whether the clean-up from `s` on runs without indexing out of bounds.
pub open spec fn run_ok(s: CleanupState, pivot: usize, limit: int) -> bool
    decreases s.he.len() - s.i,
{
    if s.i < 0 || s.i >= s.he.len() {
        true
    } else {
        step_ok(s, pivot) && run_ok(step(s, pivot, limit), pivot, limit)
    }
}

/// The state the clean-up from `s` ends in.
pub open spec fn run(s: CleanupState, pivot: usize, limit: int) -> CleanupState
    decreases s.he.len() - s.i,
{
    if s.i < 0 || s.i >= s.he.len() || !step_ok(s, pivot) {
        s
    } else {
        run(step(s, pivot, limit), pivot, limit)
    }
}

/// At most one of the three half-edges of the triangle starting at `st` is
/// on the hull.
pub open spec fn at_most_one_hull_side(he: Seq<usize>, st: int) -> bool {
    &&& !(he[st] == EMPTY && he[st + 1] == EMPTY)
    &&& !(he[st] == EMPTY && he[st + 2] == EMPTY)
    &&& !(he[st + 1] == EMPTY && he[st + 2] == EMPTY)
}

/// `he` pairs each half-edge that has a twin with a different half-edge
/// whose twin it is.
pub open spec fn twins_paired(he: Seq<usize>, n: int) -> bool {
    forall|x: int|
        0 <= x < n && #[trigger] he[x] != EMPTY ==> he[x] < n && he[x] != x && he[he[x] as int] == x
}

/// A triangulation the clean-up is made for: whole triangles, half-edges
/// paired with their twins, vertices that index `inedges`, and at most one
/// hull side per triangle.
pub open spec fn well_formed(t: Triangulation, pivot: usize) -> bool {
    let n = t.halfedges@.len() as int;
    &&& n > 0
    &&& n % 3 == 0
    &&& n + 2 <= usize::MAX
    &&& t.triangles@.len() == n
    &&& pivot < t.inedges@.len()
    &&& forall|x: int| 0 <= x < n ==> #[trigger] t.triangles@[x] < t.inedges@.len()
    &&& twins_paired(t.halfedges@, n)
    &&& forall|st: int| 0 <= st < n && st % 3 == 0 ==> #[trigger] at_most_one_hull_side(t.halfedges@, st)
}

/// What stays true while the clean-up runs over a well-formed triangulation
/// with `n` half-edges.
pub open spec fn cleanup_inv(s: CleanupState, pivot: usize, n: int) -> bool {
    &&& s.he.len() == n
    &&& s.tr.len() == n
    &&& n % 3 == 0
    &&& n + 2 <= usize::MAX
    &&& 0 <= s.i <= n
    &&& pivot < s.ie.len()
    &&& forall|x: int| 0 <= x < n ==> #[trigger] s.tr[x] < s.ie.len()
    &&& twins_paired(s.he, n)
    &&& forall|st: int|
        0 <= st < n && st % 3 == 0 && st + 3 > s.i ==> #[trigger] at_most_one_hull_side(s.he, st)
}

proof fn lemma_step_keeps_inv(s: CleanupState, pivot: usize, limit: int, n: int)
    requires
        cleanup_inv(s, pivot, n),
        s.i < n,
    ensures
        step_ok(s, pivot),
        cleanup_inv(step(s, pivot, limit), pivot, n),
{
    let i = s.i;
    let st = i - i % 3;
    assert(at_most_one_hull_side(s.he, st));
    if s.he[i] == EMPTY {
        let j = next_in_tri(i);
        let k = prev_in_tri(i);
        assert(st <= j < st + 3 && st <= k < st + 3);
        assert(s.he[j] != EMPTY && s.he[k] != EMPTY);
        let a = s.he[j] as int;
        let b = s.he[k] as int;
        assert(s.he[a] == j && s.he[b] == k);
        assert(a != i && b != i);
        assert(a != b);
        let he2 = s.he.update(a, b as usize).update(b, a as usize).update(j, EMPTY).update(k, EMPTY);
        let tr2 = collapsed_tr(s, pivot);
        assert(tr2[a] < s.ie.len());
        assert(tr2[b] < s.ie.len());
        let s2 = step(s, pivot, limit);
        assert(s2.he == he2);
        assert(s2.i == st + 3);
        assert forall|x: int| 0 <= x < n && #[trigger] he2[x] != EMPTY implies he2[x] < n && he2[x] != x
            && he2[he2[x] as int] == x by {
            if x == a {
                assert(a != j && a != k);
                assert(b != j && b != k);
                assert(he2[a] == b);
                assert(he2[b] == a);
            } else if x == b {
                assert(b != j && b != k);
                assert(a != j && a != k);
                assert(he2[b] == a);
                assert(he2[a] == b);
            } else {
                assert(x != j && x != k);
                assert(he2[x] == s.he[x]);
                let y = s.he[x] as int;
                assert(y != a && y != b);
                assert(y != j && y != k);
                assert(he2[y] == s.he[y]);
            }
        }
        assert forall|t: int| 0 <= t < n && t % 3 == 0 && t + 3 > s2.i implies #[trigger] at_most_one_hull_side(s2.he, t) by {
            assert(at_most_one_hull_side(s.he, t));
            assert forall|y: int| t <= y < t + 3 && #[trigger] he2[y] == EMPTY implies s.he[y] == EMPTY by {
                assert(y != j && y != k);
                if y == a || y == b {
                    assert(false);
                }
            }
            assert(he2[t] == EMPTY ==> s.he[t] == EMPTY);
            assert(he2[t + 1] == EMPTY ==> s.he[t + 1] == EMPTY);
            assert(he2[t + 2] == EMPTY ==> s.he[t + 2] == EMPTY);
        }
        assert forall|x: int| 0 <= x < n implies #[trigger] s2.tr[x] < s2.ie.len() by {
            assert(s2.tr[x] == pivot || s2.tr[x] == s.tr[x]);
        }
    } else {
        let s2 = step(s, pivot, limit);
        assert forall|x: int| 0 <= x < n implies #[trigger] s2.tr[x] < s2.ie.len() by {
            assert(s2.tr[x] == pivot || s2.tr[x] == s.tr[x]);
        }
        assert forall|t: int| 0 <= t < n && t % 3 == 0 && t + 3 > s2.i implies #[trigger] at_most_one_hull_side(s2.he, t) by {
            assert(at_most_one_hull_side(s.he, t));
        }
    }
}

proof fn lemma_inv_run_ok(s: CleanupState, pivot: usize, limit: int, n: int)
    requires
        cleanup_inv(s, pivot, n),
    ensures
        run_ok(s, pivot, limit),
    decreases n - s.i,
{
    if s.i < n {
        lemma_step_keeps_inv(s, pivot, limit, n);
        lemma_inv_run_ok(step(s, pivot, limit), pivot, limit, n);
    }
}

/// The clean-up never indexes out of bounds on a well-formed triangulation.
pub proof fn lemma_well_formed_cleanup_ok(t: Triangulation, pivot: usize, point_len: usize)
    requires
        point_len >= 4,
        well_formed(t, pivot),
    ensures
        run_ok(start_state(t), pivot, point_len - 4),
{
    let n = t.halfedges@.len() as int;
    assert forall|st: int| 0 <= st < n && st % 3 == 0 && st + 3 > 0 implies #[trigger] at_most_one_hull_side(
        start_state(t).he,
        st,
    ) by {
        assert(at_most_one_hull_side(t.halfedges@, st));
    }
    lemma_inv_run_ok(start_state(t), pivot, point_len - 4, n);
}

/// Every vertex the first `s.i` half-edges name lies within `limit`.
pub open spec fn visited_within(s: CleanupState, limit: int) -> bool {
    forall|x: int| 0 <= x < s.i && x < s.he.len() && x < s.tr.len() ==> #[trigger] s.tr[x] <= limit
}

proof fn lemma_run_within(s: CleanupState, pivot: usize, limit: int)
    requires
        pivot <= limit,
        0 <= s.i,
        visited_within(s, limit),
        run_ok(s, pivot, limit),
    ensures
        forall|x: int|
            0 <= x < s.he.len() && x < s.tr.len() ==> #[trigger] run(s, pivot, limit).tr[x] <= limit,
        run(s, pivot, limit).he.len() == s.he.len(),
        run(s, pivot, limit).tr.len() == s.tr.len(),
    decreases s.he.len() - s.i,
{
    if s.i < s.he.len() {
        let s2 = step(s, pivot, limit);
        let i = s.i;
        if s.he[i] == EMPTY {
            let j = next_in_tri(i);
            let k = prev_in_tri(i);
            assert forall|x: int| 0 <= x < s2.i && x < s2.he.len() && x < s2.tr.len() implies #[trigger] s2.tr[x] <= limit by {
                if x >= i - i % 3 {
                    assert(x == i || x == j || x == k);
                } else {
                    assert(s2.tr[x] == s.tr[x]);
                }
            }
        } else {
            assert forall|x: int| 0 <= x < s2.i && x < s2.he.len() && x < s2.tr.len() implies #[trigger] s2.tr[x] <= limit by {
                if x < i {
                    assert(s2.tr[x] == s.tr[x]);
                }
            }
        }
        lemma_run_within(s2, pivot, limit);
    }
}

/// After the clean-up no triangle names one of the three artificial horizon
/// points (nor any point beyond them): every vertex lies within the first
/// `point_len - 3` points, provided the pivot does.
pub proof fn lemma_cleanup_drops_horizon_points(t: Triangulation, pivot: usize, point_len: usize)
    requires
        point_len >= 4,
        pivot < point_len - 3,
        run_ok(start_state(t), pivot, point_len - 4),
    ensures
        forall|x: int|
            0 <= x < t.halfedges@.len() && x < t.triangles@.len() ==> #[trigger] run(
                start_state(t),
                pivot,
                point_len - 4,
            ).tr[x] < point_len - 3,
{
    lemma_run_within(start_state(t), pivot, point_len - 4);
}

/// The triangle that starts at `d` has been collapsed onto `pivot`.
pub open spec fn collapsed_at(tr: Seq<usize>, d: int, pivot: usize) -> bool {
    &&& 0 <= d
    &&& d % 3 == 0
    &&& d + 2 < tr.len()
    &&& tr[d] == pivot
    &&& tr[d + 1] == pivot
    &&& tr[d + 2] == pivot
}

/// Every triangle listed as degenerate so far is collapsed onto `pivot` and
/// lies before the current half-edge.
spec fn degenerate_collapsed(s: CleanupState, pivot: usize) -> bool {
    forall|q: int| 0 <= q < s.degenerate.len() ==> collapsed_at(s.tr, #[trigger] s.degenerate[q] as int, pivot)
        && s.degenerate[q] + 3 <= s.i
}

proof fn lemma_step_keeps_collapsed(s: CleanupState, pivot: usize, limit: int)
    requires
        0 <= s.i,
        s.tr.len() <= usize::MAX,
        step_ok(s, pivot),
        degenerate_collapsed(s, pivot),
    ensures
        degenerate_collapsed(step(s, pivot, limit), pivot),
        step(s, pivot, limit).tr.len() == s.tr.len(),
        step(s, pivot, limit).he.len() == s.he.len(),
        step(s, pivot, limit).i > s.i,
{
    let s2 = step(s, pivot, limit);
    let i = s.i;
    let st = i - i % 3;
    if s.he[i] == EMPTY {
        let j = next_in_tri(i);
        let k = prev_in_tri(i);
        let m = if i < j { i } else { j };
        let m2 = if m < k { m } else { k };
        assert(m2 == st);
        assert(s2.degenerate == s.degenerate.push(st as usize));
        assert forall|q: int| 0 <= q < s2.degenerate.len() implies collapsed_at(s2.tr, #[trigger] s2.degenerate[q] as int, pivot)
            && s2.degenerate[q] + 3 <= s2.i by {
            if q < s.degenerate.len() {
                let d = s.degenerate[q] as int;
                assert(s2.degenerate[q] == s.degenerate[q]);
                assert(d + 3 <= st);
                assert(s2.tr[d] == s.tr[d] && s2.tr[d + 1] == s.tr[d + 1] && s2.tr[d + 2] == s.tr[d + 2]);
            } else {
                assert(s2.degenerate[q] == st);
                assert(st <= i && i < st + 3);
                assert(s2.tr[st] == pivot && s2.tr[st + 1] == pivot && s2.tr[st + 2] == pivot);
            }
        }
    } else {
        assert forall|q: int| 0 <= q < s2.degenerate.len() implies collapsed_at(s2.tr, #[trigger] s2.degenerate[q] as int, pivot)
            && s2.degenerate[q] + 3 <= s2.i by {
            let d = s.degenerate[q] as int;
            assert(collapsed_at(s.tr, d, pivot) && d + 3 <= s.i);
            assert(s2.tr[d] == s.tr[d] && s2.tr[d + 1] == s.tr[d + 1] && s2.tr[d + 2] == s.tr[d + 2]);
        }
    }
}

proof fn lemma_run_collapsed(s: CleanupState, pivot: usize, limit: int)
    requires
        0 <= s.i,
        s.tr.len() <= usize::MAX,
        run_ok(s, pivot, limit),
        degenerate_collapsed(s, pivot),
    ensures
        forall|q: int| 0 <= q < run(s, pivot, limit).degenerate.len() ==> collapsed_at(
            run(s, pivot, limit).tr,
            #[trigger] run(s, pivot, limit).degenerate[q] as int,
            pivot,
        ),
        run(s, pivot, limit).tr.len() == s.tr.len(),
        run(s, pivot, limit).he.len() == s.he.len(),
    decreases s.he.len() - s.i,
{
    if s.i < s.he.len() {
        assert(step_ok(s, pivot));
        lemma_step_keeps_collapsed(s, pivot, limit);
        lemma_run_collapsed(step(s, pivot, limit), pivot, limit);
        assert(run(s, pivot, limit) == run(step(s, pivot, limit), pivot, limit));
    } else {
        assert(run(s, pivot, limit) == s);
        assert forall|q: int| 0 <= q < s.degenerate.len() implies collapsed_at(s.tr, #[trigger] s.degenerate[q] as int, pivot) by {}
    }
}

proof fn lemma_run_keeps_degenerate(s: CleanupState, pivot: usize, limit: int)
    requires
        0 <= s.i,
    ensures
        run(s, pivot, limit).degenerate.len() >= s.degenerate.len(),
        forall|q: int| 0 <= q < s.degenerate.len() ==> #[trigger] run(s, pivot, limit).degenerate[q] == s.degenerate[q],
    decreases s.he.len() - s.i,
{
    if s.i < s.he.len() && step_ok(s, pivot) {
        let s2 = step(s, pivot, limit);
        lemma_run_keeps_degenerate(s2, pivot, limit);
        assert forall|q: int| 0 <= q < s.degenerate.len() implies #[trigger] run(s, pivot, limit).degenerate[q] == s.degenerate[q] by {
            assert(s2.degenerate[q] == s.degenerate[q]);
        }
    }
}

proof fn lemma_run_collapses_hull_triangle(s: CleanupState, pivot: usize, limit: int, n: int, p: int)
    requires
        cleanup_inv(s, pivot, n),
        s.i <= p < n,
        s.he[p] == EMPTY,
    ensures
        run(s, pivot, limit).degenerate.contains((p - p % 3) as usize),
    decreases n - s.i,
{
    let st = p - p % 3;
    let i = s.i;
    lemma_step_keeps_inv(s, pivot, limit, n);
    let s2 = step(s, pivot, limit);
    assert(run(s, pivot, limit) == run(s2, pivot, limit));
    if s.he[i] == EMPTY {
        let sti = i - i % 3;
        let j = next_in_tri(i);
        let k = prev_in_tri(i);
        if sti == st {
            assert(s2.degenerate == s.degenerate.push(st as usize));
            lemma_run_keeps_degenerate(s2, pivot, limit);
            let q = s.degenerate.len() as int;
            assert(run(s2, pivot, limit).degenerate[q] == st as usize);
        } else {
            assert(sti < st);
            assert(s2.i == sti + 3);
            let a = s.he[j] as int;
            let b = s.he[k] as int;
            assert(st <= p && p != j && p != k);
            assert(s.he[a] == j && s.he[b] == k);
            assert(p != a && p != b);
            assert(s2.he[p] == EMPTY);
            lemma_run_collapses_hull_triangle(s2, pivot, limit, n, p);
        }
    } else {
        assert(p != i);
        assert(s2.he == s.he);
        lemma_run_collapses_hull_triangle(s2, pivot, limit, n, p);
    }
}

/// What the clean-up leaves behind on a well-formed triangulation with `n`
/// half-edges: every triangle that started with a hull side is listed as
/// degenerate.
proof fn lemma_hull_triangles_listed(t: Triangulation, pivot: usize, limit: int)
    requires
        well_formed(t, pivot),
    ensures
        forall|p: int| 0 <= p < t.halfedges@.len() && #[trigger] t.halfedges@[p] == EMPTY
            ==> run(start_state(t), pivot, limit).degenerate.contains((p - p % 3) as usize),
{
    let n = t.halfedges@.len() as int;
    assert forall|st: int| 0 <= st < n && st % 3 == 0 && st + 3 > 0 implies #[trigger] at_most_one_hull_side(
        start_state(t).he,
        st,
    ) by {
        assert(at_most_one_hull_side(t.halfedges@, st));
    }
    assert(cleanup_inv(start_state(t), pivot, n));
    assert forall|p: int| 0 <= p < n && #[trigger] t.halfedges@[p] == EMPTY implies run(start_state(t), pivot, limit).degenerate.contains((p - p % 3) as usize) by {
        lemma_run_collapses_hull_triangle(start_state(t), pivot, limit, n, p);
    }
}

/// The half-edges of the triangle that holds `x` all have a twin in `he`.
pub open spec fn inner_triangle(he: Seq<usize>, x: int) -> bool {
    let st = x - x % 3;
    &&& 0 <= x
    &&& st + 2 < he.len()
    &&& he[st] != EMPTY
    &&& he[st + 1] != EMPTY
    &&& he[st + 2] != EMPTY
}

/// The vertex that a triangle without a hull side keeps: a vertex beyond
/// `limit` (a horizon point) is moved onto `pivot`, any other stays.
pub open spec fn kept_vertex(v: usize, pivot: usize, limit: int) -> usize {
    if v > limit {
        pivot
    } else {
        v
    }
}

/// While the clean-up runs from the start state of `he0` / `tr0`: the
/// triangles that had no hull side still have none, their vertices not yet
/// visited are untouched, and those visited hold their kept vertex.
spec fn inner_untouched(s: CleanupState, he0: Seq<usize>, tr0: Seq<usize>, pivot: usize, limit: int) -> bool {
    &&& 0 <= s.i
    &&& s.he.len() == he0.len()
    &&& s.tr.len() == tr0.len()
    &&& s.he.len() <= usize::MAX
    &&& forall|x: int| 0 <= x < he0.len() && #[trigger] inner_triangle(he0, x) ==> s.he[x] != EMPTY
    &&& forall|x: int| 0 <= x < he0.len() && x < tr0.len() && #[trigger] inner_triangle(he0, x) ==> s.tr[x] == (if x < s.i {
        kept_vertex(tr0[x], pivot, limit)
    } else {
        tr0[x]
    })
}

proof fn lemma_step_keeps_inner(s: CleanupState, he0: Seq<usize>, tr0: Seq<usize>, pivot: usize, limit: int)
    requires
        step_ok(s, pivot),
        inner_untouched(s, he0, tr0, pivot, limit),
    ensures
        inner_untouched(step(s, pivot, limit), he0, tr0, pivot, limit),
{
    let s2 = step(s, pivot, limit);
    let i = s.i;
    let st = i - i % 3;
    if s.he[i] == EMPTY {
        let j = next_in_tri(i);
        let k = prev_in_tri(i);
        let a = s.he[j] as int;
        let b = s.he[k] as int;
        assert(s2.i == st + 3);
        assert forall|x: int| 0 <= x < he0.len() && #[trigger] inner_triangle(he0, x) implies s2.he[x] != EMPTY by {
            assert(s.he[x] != EMPTY);
            if x - x % 3 == st {
                assert(inner_triangle(he0, i));
                assert(false);
            }
            assert(x != j && x != k);
            assert(a < s.he.len() && b < s.he.len());
        }
        assert forall|x: int| 0 <= x < he0.len() && x < tr0.len() && #[trigger] inner_triangle(he0, x) implies s2.tr[x] == (if x < s2.i {
            kept_vertex(tr0[x], pivot, limit)
        } else {
            tr0[x]
        }) by {
            if x - x % 3 == st {
                assert(s.he[i] != EMPTY) by {
                    assert(inner_triangle(he0, i));
                }
            }
            assert(x != i && x != j && x != k);
            assert(s2.tr[x] == s.tr[x]);
            assert(x < s.i <==> x < s2.i);
        }
    } else {
        assert forall|x: int| 0 <= x < he0.len() && x < tr0.len() && #[trigger] inner_triangle(he0, x) implies s2.tr[x] == (if x < s2.i {
            kept_vertex(tr0[x], pivot, limit)
        } else {
            tr0[x]
        }) by {
            if x != i {
                assert(s2.tr[x] == s.tr[x]);
            }
        }
    }
}

proof fn lemma_run_keeps_inner(s: CleanupState, he0: Seq<usize>, tr0: Seq<usize>, pivot: usize, limit: int)
    requires
        run_ok(s, pivot, limit),
        inner_untouched(s, he0, tr0, pivot, limit),
    ensures
        forall|x: int| 0 <= x < he0.len() && x < tr0.len() && #[trigger] inner_triangle(he0, x) ==> run(s, pivot, limit).tr[x]
            == kept_vertex(tr0[x], pivot, limit),
    decreases s.he.len() - s.i,
{
    if s.i < s.he.len() {
        lemma_step_keeps_inner(s, he0, tr0, pivot, limit);
        lemma_run_keeps_inner(step(s, pivot, limit), he0, tr0, pivot, limit);
        assert(run(s, pivot, limit) == run(step(s, pivot, limit), pivot, limit));
    } else {
        assert(run(s, pivot, limit) == s);
    }
}

/// A triangle without a hull side is never collapsed: after the clean-up
/// each of its vertices is the one it had, except that a vertex naming one
/// of the three horizon points (`point_len - 3` or beyond) becomes the
/// pivot.
pub proof fn lemma_cleanup_keeps_inner_triangles(t: Triangulation, pivot: usize, point_len: usize)
    requires
        point_len >= 4,
        t.halfedges@.len() <= usize::MAX,
        run_ok(start_state(t), pivot, point_len - 4),
    ensures
        forall|x: int| 0 <= x < t.halfedges@.len() && x < t.triangles@.len() && #[trigger] inner_triangle(t.halfedges@, x)
            ==> run(start_state(t), pivot, point_len - 4).tr[x] == (if t.triangles@[x] >= point_len - 3 {
                pivot
            } else {
                t.triangles@[x]
            }),
{
    let s = start_state(t);
    lemma_run_keeps_inner(s, t.halfedges@, t.triangles@, pivot, point_len - 4);
}

/// Tests whether a triangulation is well formed for the clean-up with the
/// given pivot (see `well_formed`).
pub fn is_well_formed(t: &Triangulation, pivot: usize) -> (r: bool)
    ensures
        r == well_formed(*t, pivot),
{
    let n = t.halfedges.len();
    if n == 0 || n % 3 != 0 || n > usize::MAX - 2 || t.triangles.len() != n || pivot >= t.inedges.len() {
        return false;
    }
    let mut x: usize = 0;
    while x < n
        invariant
            n == t.halfedges@.len(),
            n == t.triangles@.len(),
            x <= n,
            forall|y: int| 0 <= y < x ==> #[trigger] t.triangles@[y] < t.inedges@.len(),
            forall|y: int|
                0 <= y < x && #[trigger] t.halfedges@[y] != EMPTY ==> t.halfedges@[y] < n && t.halfedges@[y]
                    != y && t.halfedges@[t.halfedges@[y] as int] == y,
        decreases n - x,
    {
        if t.triangles[x] >= t.inedges.len() {
            return false;
        }
        let h = t.halfedges[x];
        if h != EMPTY {
            if h >= n || h == x || t.halfedges[h] != x {
                return false;
            }
        }
        x = x + 1;
    }
    let mut st: usize = 0;
    while st < n
        invariant
            n == t.halfedges@.len(),
            n % 3 == 0,
            st % 3 == 0,
            st <= n,
            forall|u: int| 0 <= u < st && u % 3 == 0 ==> #[trigger] at_most_one_hull_side(t.halfedges@, u),
        decreases n - st,
    {
        let e0 = t.halfedges[st] == EMPTY;
        let e1 = t.halfedges[st + 1] == EMPTY;
        let e2 = t.halfedges[st + 2] == EMPTY;
        if (e0 && e1) || (e0 && e2) || (e1 && e2) {
            assert(!at_most_one_hull_side(t.halfedges@, st as int));
            return false;
        }
        st = st + 3;
    }
    true
}

/// Cleans up a planar triangulation of stereographically projected points
/// whose last three points are artificial horizon points: each triangle
/// with a hull side is collapsed onto `pivot` (its start is returned in the
/// list of degenerate triangles) and every vertex beyond the first
/// `point_len - 3` points is replaced by `pivot`. So no horizon point
/// remains when the pivot is a real point, every listed triangle is
/// collapsed, and on a well-formed triangulation every triangle that had a
/// hull side is listed.
pub fn clean_triangulation(t: &mut Triangulation, pivot: usize, point_len: usize) -> (degenerate: Vec<usize>)
    requires
        point_len >= 4,
        old(t).halfedges.len() > 0,
        run_ok(start_state(*old(t)), pivot, point_len - 4),
    ensures
        ({
            let r = run(start_state(*old(t)), pivot, point_len - 4);
            &&& final(t).triangles@ == r.tr
            &&& final(t).halfedges@ == r.he
            &&& final(t).inedges@ == r.ie
            &&& degenerate@ == r.degenerate
        }),
        final(t).triangles@.len() == old(t).triangles@.len(),
        final(t).halfedges@.len() == old(t).halfedges@.len(),
        pivot < point_len - 3 ==> forall|x: int| 0 <= x < final(t).halfedges@.len() && x < final(t).triangles@.len()
            ==> #[trigger] final(t).triangles@[x] < point_len - 3,
        forall|q: int| 0 <= q < degenerate@.len() ==> collapsed_at(final(t).triangles@, #[trigger] degenerate@[q] as int, pivot),
        well_formed(*old(t), pivot) ==> forall|p: int| 0 <= p < old(t).halfedges@.len() && #[trigger] old(t).halfedges@[p] == EMPTY
            ==> degenerate@.contains((p - p % 3) as usize),
        forall|x: int| 0 <= x < old(t).halfedges@.len() && x < old(t).triangles@.len() && #[trigger] inner_triangle(old(t).halfedges@, x)
            ==> final(t).triangles@[x] == (if old(t).triangles@[x] >= point_len - 3 {
                pivot
            } else {
                old(t).triangles@[x]
            }),
{
    let ghost start = start_state(*t);
    let ghost t0 = *t;
    let tl = t.triangles.len();
    let l0 = t.halfedges.len();
    proof {
        assert(start.tr.len() == tl);
        lemma_run_collapsed(start, pivot, point_len - 4);
        if pivot < point_len - 3 {
            lemma_cleanup_drops_horizon_points(t0, pivot, point_len);
        }
        if well_formed(t0, pivot) {
            lemma_hull_triangles_listed(t0, pivot, point_len - 4);
        }
        assert(t0.halfedges@.len() == l0);
        lemma_cleanup_keeps_inner_triangles(t0, pivot, point_len);
    }
    let ghost limit = point_len - 4;
    let ghost target = run(start_state(*t), pivot, limit);
    let mut degenerate: Vec<usize> = Vec::new();
    let mut i: usize = 0;
    let l = t.halfedges.len();
    while i < l
        invariant
            l == t.halfedges@.len(),
            point_len >= 4,
            limit == point_len - 4,
            ({
                let s = CleanupState { tr: t.triangles@, he: t.halfedges@, ie: t.inedges@, degenerate: degenerate@, i: i as int };
                run_ok(s, pivot, limit) && run(s, pivot, limit) == target
            }),
        decreases l - i,
    {
        let ghost s = CleanupState { tr: t.triangles@, he: t.halfedges@, ie: t.inedges@, degenerate: degenerate@, i: i as int };
        let ghost s2 = step(s, pivot, limit);
        if t.halfedges[i] == EMPTY {
            let j = if i % 3 == 2 { i - 2 } else { i + 1 };
            let k = if i % 3 == 0 { i + 2 } else { i - 1 };
            let a = t.halfedges[j];
            let b = t.halfedges[k];
            t.halfedges.set(a, b);
            t.halfedges.set(b, a);
            t.halfedges.set(j, EMPTY);
            t.halfedges.set(k, EMPTY);
            t.triangles.set(i, pivot);
            t.triangles.set(j, pivot);
            t.triangles.set(k, pivot);
            let ta = t.triangles[a];
            let ea = if a % 3 == 0 { a + 2 } else { a - 1 };
            t.inedges.set(ta, ea);
            let tb = t.triangles[b];
            let eb = if b % 3 == 0 { b + 2 } else { b - 1 };
            t.inedges.set(tb, eb);
            let mut m = if i < j { i } else { j };
            m = if m < k { m } else { k };
            degenerate.push(m);
            i = i + (2 - i % 3);
        } else if t.triangles[i] > point_len - 3 - 1 {
            t.triangles.set(i, pivot);
        }
        i = i + 1;
        assert(t.triangles@ == s2.tr);
        assert(t.halfedges@ == s2.he);
        assert(t.inedges@ == s2.ie);
        assert(degenerate@ == s2.degenerate);
    }
    degenerate
}

} // verus!
