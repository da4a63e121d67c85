use std::collections::HashMap;

use vstd::prelude::*;

use super::generate::EMPTY;
use super::TriIndex;

verus! {

/// Adds the directed side `e` to a set of sides, or cancels it against its
/// reverse when that is present.
pub open spec fn toggle(s: Set<(usize, usize)>, e: (usize, usize)) -> Set<(usize, usize)> {
    if s.contains((e.1, e.0)) {
        s.remove((e.1, e.0))
    } else {
        s.insert(e)
    }
}

/// The directed sides of the first `n` triangles that no other of these
/// triangles traverses the other way: the boundary of the region they
/// cover. Flipped triangles are left out.
pub open spec fn boundary(tris: Seq<TriIndex>, flipped: Seq<bool>, n: int) -> Set<(usize, usize)>
    decreases n,
{
    if n <= 0 {
        Set::empty()
    } else {
        let s = boundary(tris, flipped, n - 1);
        let t = tris[n - 1];
        if flipped[n - 1] {
            s
        } else {
            toggle(toggle(toggle(s, (t[0], t[1])), (t[1], t[2])), (t[2], t[0]))
        }
    }
}

/// `m` maps each start of a boundary side to the end of one of its sides.
pub open spec fn indexes_boundary(m: Map<usize, usize>, s: Set<(usize, usize)>) -> bool {
    &&& forall|k: usize| #[trigger] m.contains_key(k) <==> exists|b: usize| s.contains((k, b))
    &&& forall|k: usize| #[trigger] m.contains_key(k) ==> s.contains((k, m[k]))
}

/// The keys of `m` that still lead somewhere.
pub open spec fn live(m: Map<usize, usize>) -> Set<usize> {
    m.dom().filter(|k: usize| m[k] != EMPTY)
}

/// Clearing a live entry shrinks the set of live entries.
pub proof fn lemma_live_shrinks(m: Map<usize, usize>, k: usize)
    requires
        m.dom().finite(),
        m.contains_key(k),
        m[k] != EMPTY,
    ensures
        live(m).finite(),
        live(m.insert(k, EMPTY)) == live(m).remove(k),
        live(m.insert(k, EMPTY)).len() < live(m).len(),
{
    vstd::set_lib::lemma_set_subset_finite(m.dom(), live(m));
    assert(live(m.insert(k, EMPTY)) =~= live(m).remove(k));
    assert(live(m).contains(k));
}

/// The walk along `m` from `next`: each vertex is listed and its entry
/// cleared, until the walk reaches a cleared entry or comes back to
/// `start`; `None` when it reaches a vertex without an entry.
pub open spec fn hull_walk(m: Map<usize, usize>, start: usize, next: usize) -> Option<Seq<usize>>
    decreases live(m).len(),
{
    if !m.dom().finite() || !m.contains_key(next) {
        None
    } else {
        let n = m[next];
        if n == EMPTY || n == start {
            Some(seq![next])
        } else {
            proof {
                lemma_live_shrinks(m, next);
            }
            match hull_walk(m.insert(next, EMPTY), start, n) {
                Some(rest) => Some(seq![next] + rest),
                None => None,
            }
        }
    }
}

fn contains(v: &Vec<usize>, x: usize) -> (r: bool)
    ensures
        r == v@.contains(x),
{
    let mut i: usize = 0;
    while i < v.len()
        invariant
            i <= v@.len(),
            forall|q: int| 0 <= q < i ==> v@[q] != x,
        decreases v.len() - i,
    {
        if v[i] == x {
            return true;
        }
        i = i + 1;
    }
    false
}

fn without(v: &Vec<usize>, x: usize) -> (r: Vec<usize>)
    ensures
        forall|y: usize| r@.contains(y) <==> v@.contains(y) && y != x,
{
    let mut r: Vec<usize> = Vec::new();
    let mut i: usize = 0;
    while i < v.len()
        invariant
            i <= v@.len(),
            forall|y: usize| r@.contains(y) <==> (exists|q: int| 0 <= q < i && v@[q] == y) && y != x,
        decreases v.len() - i,
    {
        let ghost before = r@;
        let w = v[i];
        if w != x {
            r.push(w);
        }
        assert forall|y: usize| r@.contains(y) <==> (exists|q: int| 0 <= q < i + 1 && v@[q] == y) && y != x by {
            if r@.contains(y) {
                let k = choose|k: int| 0 <= k < r@.len() && r@[k] == y;
                if k < before.len() {
                    assert(before.contains(y));
                } else {
                    assert(v@[i as int] == y);
                }
            }
            if (exists|q: int| 0 <= q < i + 1 && v@[q] == y) && y != x {
                let q = choose|q: int| 0 <= q < i + 1 && v@[q] == y;
                if q < i {
                    assert(before.contains(y));
                    let k = choose|k: int| 0 <= k < before.len() && before[k] == y;
                    assert(r@[k] == y);
                } else {
                    assert(r@[r@.len() - 1] == y);
                }
            }
        }
        i = i + 1;
    }
    r
}

/// The boundary sides kept as lists of ends per start vertex.
pub open spec fn holds_sides(adj: Map<usize, Vec<usize>>, sources: Seq<usize>, s: Set<(usize, usize)>) -> bool {
    &&& forall|a: usize, b: usize| #[trigger] s.contains((a, b)) <==> adj.contains_key(a) && adj[a]@.contains(b)
    &&& forall|a: usize| #[trigger] adj.contains_key(a) ==> sources.contains(a)
}

fn toggle_side(adj: &mut HashMap<usize, Vec<usize>>, sources: &mut Vec<usize>, a: usize, b: usize, s: Ghost<Set<(usize, usize)>>)
    requires
        holds_sides(old(adj)@, old(sources)@, s@),
    ensures
        holds_sides(final(adj)@, final(sources)@, toggle(s@, (a, b))),
{
    let reverse = match adj.get(&b) {
        Some(list) => contains(list, a),
        None => false,
    };
    let ghost t = toggle(s@, (a, b));
    if reverse {
        let list = adj.remove(&b).unwrap();
        let rest = without(&list, a);
        adj.insert(b, rest);
        assert(s@.contains((b, a)));
        assert forall|x: usize, y: usize| #[trigger] t.contains((x, y)) <==> adj@.contains_key(x) && adj@[x]@.contains(y) by {
            assert(s@.contains((x, y)) <==> old(adj)@.contains_key(x) && old(adj)@[x]@.contains(y));
        }
    } else {
        let list = match adj.remove(&a) {
            Some(list) => list,
            None => {
                sources.push(a);
                Vec::new()
            },
        };
        let ghost l0 = list@;
        assert(old(adj)@.contains_key(a) ==> l0 == old(adj)@[a]@);
        assert(!old(adj)@.contains_key(a) ==> l0 == Seq::<usize>::empty());
        let mut list = list;
        let present = contains(&list, b);
        if !present {
            list.push(b);
        }
        assert forall|y: usize| list@.contains(y) <==> l0.contains(y) || y == b by {
            if !present {
                assert(list@ == l0.push(b));
                if list@.contains(y) {
                    let k = choose|k: int| 0 <= k < list@.len() && list@[k] == y;
                    if k < l0.len() {
                        assert(l0[k] == y);
                    }
                }
                if l0.contains(y) {
                    let k = choose|k: int| 0 <= k < l0.len() && l0[k] == y;
                    assert(list@[k] == y);
                }
                assert(list@[l0.len() as int] == b);
            } else {
                assert(list@ == l0);
            }
        }
        adj.insert(a, list);
        assert(!s@.contains((b, a)));
        assert forall|x: usize, y: usize| #[trigger] t.contains((x, y)) <==> adj@.contains_key(x) && adj@[x]@.contains(y) by {
            assert(s@.contains((x, y)) <==> old(adj)@.contains_key(x) && old(adj)@[x]@.contains(y));
        }
    }
    assert forall|x: usize| #[trigger] adj@.contains_key(x) implies sources@.contains(x) by {
        if x != a && x != b {
            assert(old(adj)@.contains_key(x));
        }
        if x == a && !old(adj)@.contains_key(a) {
            assert(sources@.last() == a);
        } else if old(adj)@.contains_key(x) {
            let i = choose|i: int| 0 <= i < old(sources)@.len() && old(sources)@[i] == x;
            assert(sources@[i] == x);
        }
    }
}

/// What `hull` returns: for an empty boundary, the empty hull; otherwise
/// the walk from some start along some choice of boundary sides (`None`
/// when that walk gets stuck).
pub open spec fn hull_outcome(r: Option<Vec<usize>>, tris: Seq<TriIndex>, flipped: Seq<bool>) -> bool {
    let s = boundary(tris, flipped, tris.len() as int);
    if s.is_empty() {
        r matches Some(h) && h@.len() == 0
    } else {
        exists|m: Map<usize, usize>, start: usize|
            #![trigger indexes_boundary(m, s), m.contains_key(start)]
            indexes_boundary(m, s) && m.contains_key(start) && m.dom().finite() && match r {
                Some(h) => hull_walk(m, start, start) == Some(h@),
                None => hull_walk(m, start, start) is None,
            }
    }
}

/// The hull of the region covered by the triangles that are not flipped:
/// the boundary vertices in order, walked from the start of one boundary
/// side by following, from each vertex, one of its boundary sides. `None`
/// when the walk reaches a vertex that starts no boundary side.
pub fn hull(triangles: &Vec<TriIndex>, flipped: &Vec<bool>) -> (r: Option<Vec<usize>>)
    requires
        flipped@.len() >= triangles@.len(),
    ensures
        hull_outcome(r, triangles@, flipped@),
{
    let mut adj: HashMap<usize, Vec<usize>> = HashMap::new();
    let mut sources: Vec<usize> = Vec::new();
    let mut t: usize = 0;
    while t < triangles.len()
        invariant
            t <= triangles@.len(),
            flipped@.len() >= triangles@.len(),
            holds_sides(adj@, sources@, boundary(triangles@, flipped@, t as int)),
        decreases triangles.len() - t,
    {
        if !flipped[t] {
            let tri = triangles[t];
            let ghost s0 = boundary(triangles@, flipped@, t as int);
            toggle_side(&mut adj, &mut sources, tri[0], tri[1], Ghost(s0));
            toggle_side(&mut adj, &mut sources, tri[1], tri[2], Ghost(toggle(s0, (tri[0], tri[1]))));
            toggle_side(&mut adj, &mut sources, tri[2], tri[0], Ghost(toggle(toggle(s0, (tri[0], tri[1])), (tri[1], tri[2]))));
        }
        t = t + 1;
    }
    let ghost s = boundary(triangles@, flipped@, triangles@.len() as int);
    let mut index: HashMap<usize, usize> = HashMap::new();
    let mut start: Option<usize> = None;
    let mut i: usize = 0;
    while i < sources.len()
        invariant
            i <= sources@.len(),
            holds_sides(adj@, sources@, s),
            forall|k: usize| #[trigger] index@.contains_key(k) ==> s.contains((k, index@[k])),
            forall|k: usize| #[trigger] index@.contains_key(k) <==> exists|j: int| 0 <= j < i && sources@[j] == k && adj@.contains_key(k) && adj@[k]@.len() > 0,
            match start {
                Some(x) => index@.contains_key(x),
                None => index@.dom() =~= Set::<usize>::empty(),
            },
        decreases sources.len() - i,
    {
        let k = sources[i];
        match adj.get(&k) {
            Some(list) => {
                if list.len() > 0 {
                    let target = list[list.len() - 1];
                    assert(adj@[k]@.contains(target));
                    index.insert(k, target);
                    start = Some(k);
                }
            },
            None => {},
        }
        assert forall|x: usize| #[trigger] index@.contains_key(x) <==> exists|j: int| 0 <= j < i + 1 && sources@[j] == x && adj@.contains_key(x) && adj@[x]@.len() > 0 by {
            if exists|j: int| 0 <= j < i + 1 && sources@[j] == x && adj@.contains_key(x) && adj@[x]@.len() > 0 {
                let j = choose|j: int| 0 <= j < i + 1 && sources@[j] == x && adj@.contains_key(x) && adj@[x]@.len() > 0;
                if j < i {
                } else {
                    assert(x == k);
                }
            }
        }
        i = i + 1;
    }
    assert forall|k: usize| #[trigger] index@.contains_key(k) <==> exists|b: usize| s.contains((k, b)) by {
        if exists|b: usize| s.contains((k, b)) {
            let b = choose|b: usize| s.contains((k, b));
            assert(adj@[k]@.contains(b));
            let j = choose|j: int| 0 <= j < sources@.len() && sources@[j] == k;
            assert(adj@[k]@.len() > 0);
        }
        if index@.contains_key(k) {
            let j = choose|j: int| 0 <= j < sources@.len() && sources@[j] == k && adj@.contains_key(k) && adj@[k]@.len() > 0;
            let b = adj@[k]@[0];
            assert(adj@[k]@.contains(b));
            assert(s.contains((k, b)));
        }
    }
    let mut hull: Vec<usize> = Vec::new();
    match start {
        None => {
            assert(s =~= Set::<(usize, usize)>::empty()) by {
                assert forall|x: usize, y: usize| !s.contains((x, y)) by {
                    if s.contains((x, y)) {
                        assert(adj@.contains_key(x) && adj@[x]@.contains(y));
                        let j = choose|j: int| 0 <= j < sources@.len() && sources@[j] == x;
                        assert(index@.contains_key(x));
                    }
                }
                assert forall|e: (usize, usize)| !s.contains(e) by {
                    assert(e == (e.0, e.1));
                    assert(!s.contains((e.0, e.1)));
                }
            }
            Some(hull)
        },
        Some(start) => {
            let ghost m0 = index@;
            assert(indexes_boundary(m0, s));
            assert(!s.is_empty()) by {
                assert(exists|b: usize| s.contains((start, b)));
            }
            let mut next = start;
            loop
                invariant
                    index@.dom().finite(),
                    indexes_boundary(m0, s),
                    m0.contains_key(start),
                    m0.dom().finite(),
                    !s.is_empty(),
                    s == boundary(triangles@, flipped@, triangles@.len() as int),
                    hull_walk(m0, start, start) matches Some(full) ==> hull_walk(index@, start, next) matches Some(rest) && full == hull@ + rest,
                    hull_walk(m0, start, start) is None ==> hull_walk(index@, start, next) is None,
                decreases live(index@).len(),
            {
                let ghost before = index@;
                hull.push(next);
                let n = match index.get(&next) {
                    Some(v) => *v,
                    None => {
                        assert(hull_walk(before, start, next) is None);
                        assert(indexes_boundary(m0, s) && m0.contains_key(start));
                        return None;
                    },
                };
                index.insert(next, EMPTY);
                if n == EMPTY || n == start {
                    assert(hull_walk(before, start, next) == Some(seq![next]));
                    assert(indexes_boundary(m0, s) && m0.contains_key(start));
                    assert(hull_walk(m0, start, start) is Some);
                    assert(hull_walk(m0, start, start) == Some(hull@));
                    return Some(hull);
                }
                proof {
                    lemma_live_shrinks(before, next);
                }
                next = n;
            }
        },
    }
}

proof fn lemma_walk_follows(m: Map<usize, usize>, m0: Map<usize, usize>, s: Set<(usize, usize)>, start: usize, next: usize)
    requires
        indexes_boundary(m0, s),
        m.dom() == m0.dom(),
        forall|k: usize| #[trigger] m.contains_key(k) ==> m[k] == m0[k] || m[k] == EMPTY,
        hull_walk(m, start, next) is Some,
    ensures
        ({
            let h = hull_walk(m, start, next).unwrap();
            &&& h.len() >= 1
            &&& h[0] == next
            &&& forall|i: int| 0 <= i < h.len() - 1 ==> s.contains((#[trigger] h[i], h[i + 1]))
        }),
    decreases live(m).len(),
{
    let n = m[next];
    if n != EMPTY && n != start {
        let m2 = m.insert(next, EMPTY);
        lemma_live_shrinks(m, next);
        assert(m2.dom() =~= m0.dom());
        lemma_walk_follows(m2, m0, s, start, n);
        assert(m0.contains_key(next));
        assert(n == m0[next]);
        assert(s.contains((next, n)));
        let rest = hull_walk(m2, start, n).unwrap();
        let h = hull_walk(m, start, next).unwrap();
        assert(h == seq![next] + rest);
        assert forall|i: int| 0 <= i < h.len() - 1 implies s.contains((#[trigger] h[i], h[i + 1])) by {
            if i == 0 {
                assert(h[1] == rest[0]);
            } else {
                assert(h[i] == rest[i - 1]);
                assert(h[i + 1] == rest[i]);
            }
        }
    }
}

/// The hull starts at its start vertex and each vertex of it is followed by
/// the end of one of its boundary sides: consecutive hull vertices are
/// boundary sides of the triangulation.
pub proof fn lemma_hull_follows_boundary(m: Map<usize, usize>, s: Set<(usize, usize)>, start: usize)
    requires
        indexes_boundary(m, s),
        hull_walk(m, start, start) is Some,
    ensures
        ({
            let h = hull_walk(m, start, start).unwrap();
            &&& h.len() >= 1
            &&& h[0] == start
            &&& forall|i: int| 0 <= i < h.len() - 1 ==> s.contains((#[trigger] h[i], h[i + 1]))
        }),
{
    lemma_walk_follows(m, m, s, start, start);
}

/// The vertex after position `i` of the closed cycle `c`.
pub open spec fn cycle_next(c: Seq<usize>, i: int) -> usize {
    if i + 1 < c.len() {
        c[i + 1]
    } else {
        c[0]
    }
}

/// The directed sides of the closed cycle `c`.
pub open spec fn cycle_sides(c: Seq<usize>) -> Set<(usize, usize)> {
    Set::new(|e: (usize, usize)| exists|i: int| 0 <= i < c.len() && e == (c[i], cycle_next(c, i)))
}

proof fn lemma_walk_cycle(m: Map<usize, usize>, c: Seq<usize>, j: int)
    requires
        c.len() >= 1,
        c.no_duplicates(),
        !c.contains(EMPTY),
        m.dom().finite(),
        0 <= j < c.len(),
        forall|i: int| 0 <= i < c.len() ==> m.contains_key(#[trigger] c[i]),
        forall|i: int| j <= i < c.len() ==> m[#[trigger] c[i]] == cycle_next(c, i),
    ensures
        hull_walk(m, c[0], c[j]) == Some(c.subrange(j, c.len() as int)),
    decreases c.len() - j,
{
    let next = c[j];
    let n = m[next];
    assert(n == cycle_next(c, j));
    if j + 1 < c.len() {
        assert(c[j + 1] != c[0]);
        assert(c.contains(c[j + 1]));
        assert(n != EMPTY);
        let m2 = m.insert(next, EMPTY);
        assert forall|i: int| j + 1 <= i < c.len() implies m2[#[trigger] c[i]] == cycle_next(c, i) by {
            assert(c[i] != c[j]);
        }
        lemma_walk_cycle(m2, c, j + 1);
        assert(seq![next] + c.subrange(j + 1, c.len() as int) =~= c.subrange(j, c.len() as int));
    } else {
        assert(n == c[0]);
        assert(seq![next] =~= c.subrange(j, c.len() as int));
    }
}

proof fn lemma_rotation(c: Seq<usize>, k: int)
    requires
        c.len() >= 1,
        c.no_duplicates(),
        0 <= k < c.len(),
    ensures
        ({
            let r = c.subrange(k, c.len() as int) + c.subrange(0, k);
            &&& r.len() == c.len()
            &&& r[0] == c[k]
            &&& r.no_duplicates()
            &&& forall|x: usize| r.contains(x) <==> c.contains(x)
            &&& cycle_sides(r) == cycle_sides(c)
        }),
{
    let l = c.len() as int;
    let r = c.subrange(k, l) + c.subrange(0, k);
    assert forall|x: int| 0 <= x < l implies #[trigger] r[x] == (if x < l - k { c[k + x] } else { c[x - (l - k)] }) by {}
    assert forall|x: int, y: int| 0 <= x < l && 0 <= y < l && x != y implies #[trigger] r[x] != #[trigger] r[y] by {
        let cx = if x < l - k { k + x } else { x - (l - k) };
        let cy = if y < l - k { k + y } else { y - (l - k) };
        assert(r[x] == c[cx] && r[y] == c[cy]);
    }
    assert forall|v: usize| r.contains(v) <==> c.contains(v) by {
        if r.contains(v) {
            let x = choose|x: int| 0 <= x < l && r[x] == v;
            let cx = if x < l - k { k + x } else { x - (l - k) };
            assert(c[cx] == v);
        }
        if c.contains(v) {
            let i = choose|i: int| 0 <= i < l && c[i] == v;
            let x = if i >= k { i - k } else { i + l - k };
            assert(r[x] == v);
        }
    }
    assert forall|e: (usize, usize)| cycle_sides(r).contains(e) <==> cycle_sides(c).contains(e) by {
        if cycle_sides(c).contains(e) {
            let i = choose|i: int| 0 <= i < l && e == (c[i], cycle_next(c, i));
            let x = if i >= k { i - k } else { i + l - k };
            assert(r[x] == c[i]);
            assert(cycle_next(r, x) == cycle_next(c, i));
            assert(e == (r[x], cycle_next(r, x)));
        }
        if cycle_sides(r).contains(e) {
            let x = choose|x: int| 0 <= x < l && e == (r[x], cycle_next(r, x));
            let i = if x < l - k { k + x } else { x - (l - k) };
            assert(r[x] == c[i]);
            assert(cycle_next(r, x) == cycle_next(c, i));
            assert(e == (c[i], cycle_next(c, i)));
        }
    }
    assert(cycle_sides(r) =~= cycle_sides(c));
}

/// On a boundary that is one closed cycle `c` of distinct vertices, the
/// hull walk from any vertex `c[k]` of it succeeds: it lists every vertex of
/// the cycle exactly once, in cycle order from `c[k]`, and its last vertex
/// leads back to the first along a boundary side.
pub proof fn lemma_hull_of_one_cycle(m: Map<usize, usize>, c: Seq<usize>, k: int)
    requires
        c.len() >= 1,
        c.no_duplicates(),
        !c.contains(EMPTY),
        m.dom().finite(),
        indexes_boundary(m, cycle_sides(c)),
        0 <= k < c.len(),
    ensures
        hull_walk(m, c[k], c[k]) == Some(c.subrange(k, c.len() as int) + c.subrange(0, k)),
        ({
            let h = hull_walk(m, c[k], c[k]).unwrap();
            &&& h.len() == c.len()
            &&& h.no_duplicates()
            &&& forall|x: usize| h.contains(x) <==> c.contains(x)
            &&& cycle_sides(c).contains((h.last(), h[0]))
        }),
{
    let l = c.len() as int;
    let r = c.subrange(k, l) + c.subrange(0, k);
    lemma_rotation(c, k);
    let s = cycle_sides(c);
    assert(!r.contains(EMPTY));
    assert forall|i: int| 0 <= i < l implies m.contains_key(#[trigger] r[i]) && m[r[i]] == cycle_next(r, i) by {
        assert(cycle_sides(r).contains((r[i], cycle_next(r, i))));
        assert(s.contains((r[i], cycle_next(r, i))));
        assert(m.contains_key(r[i]));
        assert(s.contains((r[i], m[r[i]])));
        assert(cycle_sides(r).contains((r[i], m[r[i]])));
        let q = choose|q: int| 0 <= q < l && (r[i], m[r[i]]) == (r[q], cycle_next(r, q));
        assert(q == i);
    }
    lemma_walk_cycle(m, r, 0);
    assert(r.subrange(0, l) =~= r);
    assert(cycle_sides(r).contains((r[l - 1], cycle_next(r, l - 1))));
}

/// When the boundary of the triangles is one closed cycle `c` of distinct
/// vertices, `hull` succeeds and returns that cycle once round, starting at
/// one of its vertices.
pub proof fn lemma_hull_is_the_boundary_cycle(r: Option<Vec<usize>>, tris: Seq<TriIndex>, flipped: Seq<bool>, c: Seq<usize>)
    requires
        hull_outcome(r, tris, flipped),
        c.len() >= 1,
        c.no_duplicates(),
        !c.contains(EMPTY),
        boundary(tris, flipped, tris.len() as int) == cycle_sides(c),
    ensures
        r is Some,
        exists|k: int| 0 <= k < c.len() && r.unwrap()@ == c.subrange(k, c.len() as int) + c.subrange(0, k),
{
    let s = boundary(tris, flipped, tris.len() as int);
    assert(s.contains((c[0], cycle_next(c, 0))));
    assert(!s.is_empty());
    let (m, start) = choose|m: Map<usize, usize>, start: usize|
        #![trigger indexes_boundary(m, s), m.contains_key(start)]
        indexes_boundary(m, s) && m.contains_key(start) && m.dom().finite() && match r {
            Some(h) => hull_walk(m, start, start) == Some(h@),
            None => hull_walk(m, start, start) is None,
        };
    let b = choose|b: usize| s.contains((start, b));
    let k = choose|k: int| 0 <= k < c.len() && (start, b) == (c[k], cycle_next(c, k));
    lemma_hull_of_one_cycle(m, c, k);
}

} // verus!
