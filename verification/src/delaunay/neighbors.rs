use std::collections::HashMap;

use vstd::prelude::*;

verus! {

/// The three directed sides of a triangle, in order.
pub open spec fn sides_of(t: [usize; 3]) -> Seq<(usize, usize)> {
    seq![(t[0], t[1]), (t[1], t[2]), (t[2], t[0])]
}

/// The directed sides of all the triangles, triangle after triangle.
pub open spec fn tri_sides(tris: Seq<[usize; 3]>) -> Seq<(usize, usize)>
    decreases tris.len(),
{
    if tris.len() == 0 {
        Seq::empty()
    } else {
        tri_sides(tris.drop_last()) + sides_of(tris.last())
    }
}

/// The ends of the sides that start at `a`, in order.
pub open spec fn targets_from(sides: Seq<(usize, usize)>, a: usize) -> Seq<usize>
    decreases sides.len(),
{
    if sides.len() == 0 {
        Seq::empty()
    } else {
        let rest = targets_from(sides.drop_last(), a);
        if sides.last().0 == a {
            rest.push(sides.last().1)
        } else {
            rest
        }
    }
}

/// Some side starts at `a`.
pub open spec fn starts_some_side(sides: Seq<(usize, usize)>, a: usize) -> bool {
    exists|i: int| 0 <= i < sides.len() && sides[i].0 == a
}

/// `m` maps each start of a side to the ends of its sides, in order.
pub open spec fn adjacency_of(m: Map<usize, Vec<usize>>, sides: Seq<(usize, usize)>) -> bool {
    &&& forall|a: usize| #[trigger] m.contains_key(a) <==> starts_some_side(sides, a)
    &&& forall|a: usize| #[trigger] m.contains_key(a) ==> m[a]@ == targets_from(sides, a)
}

/// What the neighbour table of a triangulation holds: for each vertex, the
/// vertices that follow it in its triangles, in triangle order; two sites
/// without triangles are each other's neighbour; a single site with
/// triangles has no neighbours.
pub open spec fn neighbors_spec(m: Map<usize, Vec<usize>>, tris: Seq<[usize; 3]>, npoints: usize) -> bool {
    if tris.len() == 0 {
        if npoints == 2 {
            &&& m.dom() =~= set![0usize, 1usize]
            &&& m[0]@ == seq![1usize]
            &&& m[1]@ == seq![0usize]
        } else {
            m.dom() =~= Set::<usize>::empty()
        }
    } else if npoints == 1 {
        &&& forall|a: usize| a != 0 ==> (#[trigger] m.contains_key(a) <==> starts_some_side(tri_sides(tris), a))
        &&& forall|a: usize| a != 0 && #[trigger] m.contains_key(a) ==> m[a]@ == targets_from(tri_sides(tris), a)
        &&& m.contains_key(0)
        &&& m[0]@ == Seq::<usize>::empty()
    } else {
        adjacency_of(m, tri_sides(tris))
    }
}

proof fn lemma_no_targets(sides: Seq<(usize, usize)>, a: usize)
    requires
        !starts_some_side(sides, a),
    ensures
        targets_from(sides, a) == Seq::<usize>::empty(),
    decreases sides.len(),
{
    if sides.len() > 0 {
        assert(!starts_some_side(sides.drop_last(), a)) by {
            if starts_some_side(sides.drop_last(), a) {
                let i = choose|i: int| 0 <= i < sides.drop_last().len() && sides.drop_last()[i].0 == a;
                assert(sides[i].0 == a);
            }
        }
        lemma_no_targets(sides.drop_last(), a);
        assert(sides[sides.len() - 1].0 != a);
    }
}

proof fn lemma_targets_contains(sides: Seq<(usize, usize)>, a: usize, b: usize)
    ensures
        targets_from(sides, a).contains(b) <==> sides.contains((a, b)),
    decreases sides.len(),
{
    if sides.len() > 0 {
        let init = sides.drop_last();
        lemma_targets_contains(init, a, b);
        if sides.contains((a, b)) {
            let i = choose|i: int| 0 <= i < sides.len() && sides[i] == (a, b);
            if i < sides.len() - 1 {
                assert(init[i] == (a, b));
            } else {
                assert(targets_from(sides, a).last() == b);
            }
        }
        if init.contains((a, b)) {
            let i = choose|i: int| 0 <= i < init.len() && init[i] == (a, b);
            assert(sides[i] == (a, b));
        }
        if targets_from(sides, a).contains(b) && !targets_from(init, a).contains(b) {
            assert(sides[sides.len() - 1] == (a, b));
        }
        if targets_from(init, a).contains(b) {
            let k = choose|k: int| 0 <= k < targets_from(init, a).len() && targets_from(init, a)[k] == b;
            if sides.last().0 == a {
                assert(targets_from(sides, a)[k] == b);
            }
        }
    }
}

proof fn lemma_tri_sides_contains(tris: Seq<[usize; 3]>, p: (usize, usize))
    ensures
        tri_sides(tris).contains(p) <==> exists|t: int, j: int|
            0 <= t < tris.len() && 0 <= j < 3 && #[trigger] sides_of(tris[t])[j] == p,
    decreases tris.len(),
{
    if tris.len() > 0 {
        let init = tris.drop_last();
        let last = sides_of(tris.last());
        lemma_tri_sides_contains(init, p);
        let all = tri_sides(tris);
        assert(all == tri_sides(init) + last);
        if all.contains(p) {
            let i = choose|i: int| 0 <= i < all.len() && all[i] == p;
            if i < tri_sides(init).len() {
                assert(tri_sides(init)[i] == p);
                let (t, j) = choose|t: int, j: int|
                    0 <= t < init.len() && 0 <= j < 3 && #[trigger] sides_of(init[t])[j] == p;
                assert(sides_of(tris[t])[j] == p);
            } else {
                let j = i - tri_sides(init).len();
                assert(sides_of(tris[tris.len() - 1])[j] == p);
            }
        }
        if exists|t: int, j: int| 0 <= t < tris.len() && 0 <= j < 3 && #[trigger] sides_of(tris[t])[j] == p {
            let (t, j) = choose|t: int, j: int|
                0 <= t < tris.len() && 0 <= j < 3 && #[trigger] sides_of(tris[t])[j] == p;
            if t < tris.len() - 1 {
                assert(sides_of(init[t])[j] == p);
                let i = choose|i: int| 0 <= i < tri_sides(init).len() && tri_sides(init)[i] == p;
                assert(all[i] == p);
            } else {
                assert(all[tri_sides(init).len() + j] == p);
            }
        }
    }
}

/// With two or more sites and at least one triangle, `b` is listed among the
/// neighbours of `a` exactly when some triangle has the directed side from
/// `a` to `b`.
pub proof fn lemma_neighbor_iff_side(m: Map<usize, Vec<usize>>, tris: Seq<[usize; 3]>, npoints: usize, a: usize, b: usize)
    requires
        neighbors_spec(m, tris, npoints),
        tris.len() > 0,
        npoints >= 2,
    ensures
        (m.contains_key(a) && m[a]@.contains(b)) <==> exists|t: int, j: int|
            0 <= t < tris.len() && 0 <= j < 3 && #[trigger] sides_of(tris[t])[j] == (a, b),
{
    let sides = tri_sides(tris);
    lemma_targets_contains(sides, a, b);
    lemma_tri_sides_contains(tris, (a, b));
    if sides.contains((a, b)) {
        let i = choose|i: int| 0 <= i < sides.len() && sides[i] == (a, b);
        assert(sides[i].0 == a);
        assert(starts_some_side(sides, a));
    }
    if m.contains_key(a) {
        assert(m[a]@ == targets_from(sides, a));
    } else {
        assert(!starts_some_side(sides, a));
        if sides.contains((a, b)) {
            let i = choose|i: int| 0 <= i < sides.len() && sides[i] == (a, b);
            assert(sides[i].0 == a);
        }
    }
}

/// Builds the neighbour table of a triangulation with `npoints` sites.
pub fn neighbors(triangles: &[[usize; 3]], npoints: usize) -> (r: HashMap<usize, Vec<usize>>)
    ensures
        neighbors_spec(r@, triangles@, npoints),
{
    let mut h: HashMap<usize, Vec<usize>> = HashMap::new();
    let mut t: usize = 0;
    while t < triangles.len()
        invariant
            t <= triangles@.len(),
            adjacency_of(h@, tri_sides(triangles@.subrange(0, t as int))),
        decreases triangles.len() - t,
    {
        let tri = triangles[t];
        let ghost done = tri_sides(triangles@.subrange(0, t as int));
        let mut j: usize = 0;
        while j < 3
            invariant
                t < triangles@.len(),
                tri == triangles@[t as int],
                j <= 3,
                done == tri_sides(triangles@.subrange(0, t as int)),
                adjacency_of(h@, done + sides_of(tri).subrange(0, j as int)),
            decreases 3 - j,
        {
            let a = tri[j];
            let b = if j == 2 { tri[0] } else { tri[j + 1] };
            let ghost s_old = done + sides_of(tri).subrange(0, j as int);
            let ghost s_new = done + sides_of(tri).subrange(0, j + 1);
            assert(s_new =~= s_old.push((a, b)));
            assert(s_new.drop_last() =~= s_old);
            let ghost h_old = h@;
            let mut list = match h.remove(&a) {
                Some(v) => v,
                None => {
                    proof {
                        lemma_no_targets(s_old, a);
                    }
                    Vec::new()
                },
            };
            assert(list@ == targets_from(s_old, a));
            list.push(b);
            h.insert(a, list);
            assert forall|x: usize| #[trigger] h@.contains_key(x) <==> starts_some_side(s_new, x) by {
                if starts_some_side(s_new, x) && x != a {
                    let i = choose|i: int| 0 <= i < s_new.len() && s_new[i].0 == x;
                    assert(s_old[i].0 == x);
                }
                if starts_some_side(s_old, x) {
                    let i = choose|i: int| 0 <= i < s_old.len() && s_old[i].0 == x;
                    assert(s_new[i].0 == x);
                }
                assert(s_new[s_new.len() - 1].0 == a);
            }
            assert forall|x: usize| #[trigger] h@.contains_key(x) implies h@[x]@ == targets_from(s_new, x) by {
                assert(targets_from(s_new, x) == (if x == a { targets_from(s_old, x).push(b) } else { targets_from(s_old, x) }));
                if x != a {
                    assert(h_old.contains_key(x));
                }
            }
            j = j + 1;
        }
        assert(triangles@.subrange(0, t + 1).drop_last() =~= triangles@.subrange(0, t as int));
        assert(sides_of(tri).subrange(0, 3) =~= sides_of(tri));
        t = t + 1;
    }
    assert(triangles@.subrange(0, triangles@.len() as int) =~= triangles@);
    if triangles.len() == 0 {
        assert(tri_sides(triangles@) =~= Seq::<(usize, usize)>::empty());
        assert(h@.dom() =~= Set::<usize>::empty());
        if npoints == 2 {
            let mut one: Vec<usize> = Vec::new();
            one.push(1);
            let mut zero: Vec<usize> = Vec::new();
            zero.push(0);
            h.insert(0, one);
            h.insert(1, zero);
            assert(h@.dom() =~= set![0usize, 1usize]);
            assert(h@[0]@ =~= seq![1usize]);
            assert(h@[1]@ =~= seq![0usize]);
        }
    } else if npoints == 1 {
        h.insert(0, Vec::new());
    }
    h
}

/// Builds the neighbour table of a triangulation with `npoints` sites.
pub fn geo_neighbors(triangles: &Vec<[usize; 3]>, npoints: usize) -> (r: HashMap<usize, Vec<usize>>)
    ensures
        neighbors_spec(r@, triangles@, npoints),
{
    neighbors(triangles.as_slice(), npoints)
}

} // verus!
