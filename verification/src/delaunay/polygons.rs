use vstd::prelude::*;

use super::TriIndex;

verus! {

/// The position of a cell centre, as the bit patterns of its longitude and
/// latitude; centres are compared as floats are (see `same_center`).
pub type CenterKey = (u64, u64);

/// One triangle around a vertex `a`: the next vertex `b`, the vertex after
/// it `c`, and the index `t` of the triangle.
pub type FanEntry = (usize, usize, usize);

/// The fan entries of triangle `t`, one for each of its three vertices, as
/// (vertex, entry) pairs.
pub open spec fn tri_entries(tri: TriIndex, t: int) -> Seq<(usize, FanEntry)> {
    seq![
        (tri[0], (tri[1], tri[2], t as usize)),
        (tri[1], (tri[2], tri[0], t as usize)),
        (tri[2], (tri[0], tri[1], t as usize)),
    ]
}

/// The fan entries of the first `n` triangles, triangle after triangle.
pub open spec fn all_entries(tris: Seq<TriIndex>, n: int) -> Seq<(usize, FanEntry)>
    decreases n,
{
    if n <= 0 {
        Seq::empty()
    } else {
        all_entries(tris, n - 1) + tri_entries(tris[n - 1], n - 1)
    }
}

/// The entries of vertex `a`, in order.
pub open spec fn fan_of(entries: Seq<(usize, FanEntry)>, a: usize) -> Seq<FanEntry>
    decreases entries.len(),
{
    if entries.len() == 0 {
        Seq::empty()
    } else {
        let rest = fan_of(entries.drop_last(), a);
        if entries.last().0 == a {
            rest.push(entries.last().1)
        } else {
            rest
        }
    }
}

/// The first position of the fan whose next vertex is `k`.
pub open spec fn first_with_next(fan: Seq<FanEntry>, k: usize) -> Option<int> {
    if exists|m: int| 0 <= m < fan.len() && fan[m].0 == k {
        Some(choose|m: int| 0 <= m < fan.len() && fan[m].0 == k && forall|q: int| 0 <= q < m ==> fan[q].0 != k)
    } else {
        None
    }
}

/// The walk around a fan after `s` steps: the vertex to be matched next,
/// and the triangles met so far. It starts at the first entry and, at each
/// step, moves to the first entry whose next vertex is the current far
/// vertex.
pub open spec fn fan_walk(fan: Seq<FanEntry>, s: int) -> (usize, Seq<usize>)
    decreases s,
{
    if s <= 0 {
        (fan[0].1, seq![fan[0].2])
    } else {
        let (k, p) = fan_walk(fan, s - 1);
        match first_with_next(fan, k) {
            Some(m) => (fan[m].1, p.push(fan[m].2)),
            None => (k, p),
        }
    }
}

/// The triangles around a vertex in walking order (as many steps as the fan
/// has entries); empty when the vertex is in no triangle.
pub open spec fn fan_cycle(fan: Seq<FanEntry>) -> Seq<usize> {
    if fan.len() == 0 {
        Seq::empty()
    } else {
        fan_walk(fan, fan.len() as int).1
    }
}

/// The cycle of triangles around site `a`.
pub open spec fn site_cycle(tris: Seq<TriIndex>, a: usize) -> Seq<usize> {
    fan_cycle(fan_of(all_entries(tris, tris.len() as int), a))
}

proof fn lemma_fan_of_push(entries: Seq<(usize, FanEntry)>, e: (usize, FanEntry), a: usize)
    ensures
        fan_of(entries.push(e), a) == (if e.0 == a { fan_of(entries, a).push(e.1) } else { fan_of(entries, a) }),
{
    assert(entries.push(e).drop_last() =~= entries);
}

/// `r[a]` is the cycle of triangles around site `a`, for each of the
/// `npoints` sites.
pub open spec fn cycles_of(r: Seq<Vec<usize>>, tris: Seq<TriIndex>, npoints: usize) -> bool {
    &&& r.len() == npoints
    &&& forall|a: int| 0 <= a < npoints ==> #[trigger] r[a]@ == site_cycle(tris, a as usize)
}

/// For each site `a < npoints`, the triangles around it in walking order.
pub fn fan_cycles(triangles: &Vec<TriIndex>, npoints: usize) -> (r: Vec<Vec<usize>>)
    requires
        forall|t: int, j: int| 0 <= t < triangles@.len() && 0 <= j < 3 ==> #[trigger] triangles@[t][j] < npoints,
    ensures
        cycles_of(r@, triangles@, npoints),
{
    let mut fans: Vec<Vec<FanEntry>> = Vec::new();
    let mut a: usize = 0;
    while a < npoints
        invariant
            a <= npoints,
            fans@.len() == a,
            forall|x: int| 0 <= x < a ==> (#[trigger] fans@[x])@ == Seq::<FanEntry>::empty(),
        decreases npoints - a,
    {
        fans.push(Vec::new());
        a = a + 1;
    }
    let mut t: usize = 0;
    while t < triangles.len()
        invariant
            t <= triangles@.len(),
            fans@.len() == npoints,
            forall|u: int, j: int| 0 <= u < triangles@.len() && 0 <= j < 3 ==> #[trigger] triangles@[u][j] < npoints,
            forall|x: int| 0 <= x < npoints ==> (#[trigger] fans@[x])@ == fan_of(all_entries(triangles@, t as int), x as usize),
        decreases triangles.len() - t,
    {
        let tri = triangles[t];
        let ghost done = all_entries(triangles@, t as int);
        let mut j: usize = 0;
        while j < 3
            invariant
                t < triangles@.len(),
                tri == triangles@[t as int],
                j <= 3,
                fans@.len() == npoints,
                forall|u: int, j: int| 0 <= u < triangles@.len() && 0 <= j < 3 ==> #[trigger] triangles@[u][j] < npoints,
                done == all_entries(triangles@, t as int),
                forall|x: int| 0 <= x < npoints ==> (#[trigger] fans@[x])@ == fan_of(done + tri_entries(tri, t as int).subrange(0, j as int), x as usize),
            decreases 3 - j,
        {
            let v = tri[j];
            let b = if j == 2 { tri[0] } else { tri[j + 1] };
            let c = if j == 0 { tri[2] } else { tri[j - 1] };
            assert(triangles@[t as int][j as int] < npoints);
            let ghost old_entries = done + tri_entries(tri, t as int).subrange(0, j as int);
            let ghost e = (v, (b, c, t));
            assert(done + tri_entries(tri, t as int).subrange(0, j + 1) =~= old_entries.push(e));
            let ghost fans_old = fans@;
            fans[v].push((b, c, t));
            assert forall|x: int| 0 <= x < npoints implies (#[trigger] fans@[x])@ == fan_of(old_entries.push(e), x as usize) by {
                lemma_fan_of_push(old_entries, e, x as usize);
                if x != v {
                    assert(fans@[x] == fans_old[x]);
                }
            }
            j = j + 1;
        }
        assert(tri_entries(tri, t as int).subrange(0, 3) =~= tri_entries(tri, t as int));
        t = t + 1;
    }
    let mut r: Vec<Vec<usize>> = Vec::new();
    let mut a: usize = 0;
    while a < npoints
        invariant
            a <= npoints,
            fans@.len() == npoints,
            r@.len() == a,
            forall|x: int| 0 <= x < npoints ==> (#[trigger] fans@[x])@ == fan_of(all_entries(triangles@, triangles@.len() as int), x as usize),
            forall|x: int| 0 <= x < a ==> #[trigger] r@[x]@ == site_cycle(triangles@, x as usize),
        decreases npoints - a,
    {
        let cycle = walk_fan(&fans[a]);
        r.push(cycle);
        a = a + 1;
    }
    r
}

/// Walks around one fan (see `fan_cycle`).
fn walk_fan(fan: &Vec<FanEntry>) -> (p: Vec<usize>)
    ensures
        p@ == fan_cycle(fan@),
{
    if fan.len() == 0 {
        return Vec::new();
    }
    let mut p: Vec<usize> = Vec::new();
    p.push(fan[0].2);
    let mut k: usize = fan[0].1;
    let mut s: usize = 0;
    assert(p@ =~= seq![fan@[0].2]);
    while s < fan.len()
        invariant
            s <= fan@.len(),
            fan@.len() > 0,
            (k, p@) == fan_walk(fan@, s as int),
        decreases fan.len() - s,
    {
        let mut m: usize = 0;
        while m < fan.len() && fan[m].0 != k
            invariant
                m <= fan@.len(),
                forall|q: int| 0 <= q < m ==> fan@[q].0 != k,
            decreases fan.len() - m,
        {
            m = m + 1;
        }
        if m < fan.len() {
            assert(first_with_next(fan@, k) == Some(m as int)) by {
                assert(fan@[m as int].0 == k);
                let c = choose|c: int| 0 <= c < fan@.len() && fan@[c].0 == k && forall|q: int| 0 <= q < c ==> fan@[q].0 != k;
                if c < m {
                } else if c > m {
                    assert(fan@[m as int].0 != k);
                }
            }
            p.push(fan[m].2);
            k = fan[m].1;
        } else {
            assert(first_with_next(fan@, k) == None::<int>);
        }
        s = s + 1;
    }
    p
}

/// The bit pattern of a coordinate that is not a number.
pub open spec fn is_nan_bits(x: u64) -> bool {
    (x & 0x7ff0_0000_0000_0000u64) == 0x7ff0_0000_0000_0000u64 && (x & 0x000f_ffff_ffff_ffffu64) != 0
}

/// The bit pattern of a zero coordinate, of either sign.
pub open spec fn is_zero_bits(x: u64) -> bool {
    (x & 0x7fff_ffff_ffff_ffffu64) == 0
}

/// Two coordinates, given by their bit patterns, compare equal as floats:
/// neither is a NaN, and they are the same value or both zeros.
pub open spec fn same_coord(x: u64, y: u64) -> bool {
    !is_nan_bits(x) && !is_nan_bits(y) && (x == y || (is_zero_bits(x) && is_zero_bits(y)))
}

/// Two centres compare equal as points: each coordinate compares equal.
pub open spec fn same_center(p: CenterKey, q: CenterKey) -> bool {
    same_coord(p.0, q.0) && same_coord(p.1, q.1)
}

fn coord_eq(x: u64, y: u64) -> (r: bool)
    ensures
        r == same_coord(x, y),
{
    let nan_x = (x & 0x7ff0_0000_0000_0000u64) == 0x7ff0_0000_0000_0000u64 && (x & 0x000f_ffff_ffff_ffffu64) != 0;
    let nan_y = (y & 0x7ff0_0000_0000_0000u64) == 0x7ff0_0000_0000_0000u64 && (y & 0x000f_ffff_ffff_ffffu64) != 0;
    let zeros = (x & 0x7fff_ffff_ffff_ffffu64) == 0 && (y & 0x7fff_ffff_ffff_ffffu64) == 0;
    !nan_x && !nan_y && (x == y || zeros)
}

/// Whether two centres compare equal as points (see `same_center`).
pub fn center_eq(p: CenterKey, q: CenterKey) -> (r: bool)
    ensures
        r == same_center(p, q),
{
    coord_eq(p.0, q.0) && coord_eq(p.1, q.1)
}

/// The last position at or after `from` whose centre compares equal to
/// `key`, if any.
pub open spec fn last_match(centers: Seq<CenterKey>, from: int, key: CenterKey) -> Option<int> {
    if exists|i: int| from <= i < centers.len() && same_center(centers[i], key) {
        Some(choose|i: int| from <= i < centers.len() && same_center(centers[i], key) && forall|q: int| i < q < centers.len() ==> !same_center(centers[q], key))
    } else {
        None
    }
}

/// Adding a centre beyond the first `from` ones: the index of a centre
/// already added that compares equal to it (the last one), or the index of
/// the centre pushed.
pub open spec fn supplement_spec(centers: Seq<CenterKey>, from: int, key: CenterKey) -> (Seq<CenterKey>, usize) {
    match last_match(centers, from, key) {
        Some(i) => (centers, i as usize),
        None => (centers.push(key), centers.len() as usize),
    }
}

/// Adds `point` to the centres beyond the first `triangles_len` ones unless
/// one that compares equal to it is there, and returns its index.
pub fn supplement(point: CenterKey, centers: &mut Vec<CenterKey>, triangles_len: usize) -> (r: usize)
    requires
        triangles_len <= old(centers)@.len(),
    ensures
        (final(centers)@, r) == supplement_spec(old(centers)@, triangles_len as int, point),
{
    let mut f: Option<usize> = None;
    let mut i: usize = triangles_len;
    while i < centers.len()
        invariant
            triangles_len <= i <= centers@.len(),
            match f {
                Some(x) => triangles_len <= x < i && same_center(centers@[x as int], point) && forall|q: int| x < q < i ==> !same_center(centers@[q], point),
                None => forall|q: int| triangles_len <= q < i ==> !same_center(centers@[q], point),
            },
        decreases centers.len() - i,
    {
        let c = centers[i];
        if center_eq(c, point) {
            f = Some(i);
        }
        i = i + 1;
    }
    match f {
        Some(x) => {
            assert(last_match(centers@, triangles_len as int, point) == Some(x as int)) by {
                let c = choose|c: int| triangles_len <= c < centers@.len() && same_center(centers@[c], point) && forall|q: int| c < q < centers@.len() ==> !same_center(centers@[q], point);
                if c < x {
                    assert(!same_center(centers@[x as int], point));
                } else if c > x {
                    assert(!same_center(centers@[c], point));
                }
            }
            x
        },
        None => {
            let n = centers.len();
            centers.push(point);
            n
        },
    }
}

/// The sites that have a cell among the first `n`: those whose cycle is not
/// empty, in site order.
pub open spec fn sites_with_cycles(cycles: Seq<Vec<usize>>, n: int) -> Seq<usize>
    decreases n,
{
    if n <= 0 {
        Seq::empty()
    } else {
        let rest = sites_with_cycles(cycles, n - 1);
        if cycles[n - 1]@.len() == 0 {
            rest
        } else {
            rest.push((n - 1) as usize)
        }
    }
}

/// The site of each cell that `gen` builds, in the order of the cells.
pub open spec fn cell_sites_spec(cycles: Seq<Vec<usize>>, tl: int, npoints: int) -> Seq<usize> {
    if tl == 0 {
        if npoints == 2 {
            seq![0usize, 1usize]
        } else {
            Seq::empty()
        }
    } else {
        sites_with_cycles(cycles, cycles.len() as int)
    }
}

/// The site of each cell that `gen` builds from the same cycles, in the
/// order of the cells.
pub fn cell_sites(cycles: &Vec<Vec<usize>>, triangles_len: usize, npoints: usize) -> (r: Vec<usize>)
    ensures
        r@ == cell_sites_spec(cycles@, triangles_len as int, npoints as int),
{
    let mut r: Vec<usize> = Vec::new();
    if triangles_len == 0 {
        if npoints == 2 {
            r.push(0);
            r.push(1);
            assert(r@ =~= seq![0usize, 1usize]);
        }
        return r;
    }
    let mut a: usize = 0;
    while a < cycles.len()
        invariant
            a <= cycles@.len(),
            r@ == sites_with_cycles(cycles@, a as int),
        decreases cycles.len() - a,
    {
        if cycles[a].len() != 0 {
            r.push(a);
        }
        a = a + 1;
    }
    r
}

/// The two vertices that follow `a` in triangle `tri`, going round it from
/// its first occurrence; `None` when `a` is not a vertex of `tri`.
pub open spec fn following(tri: TriIndex, a: usize) -> Option<(usize, usize)> {
    if tri[0] == a {
        Some((tri[1], tri[2]))
    } else if tri[1] == a {
        Some((tri[2], tri[0]))
    } else if tri[2] == a {
        Some((tri[0], tri[1]))
    } else {
        None
    }
}

/// For each site whose cycle has two triangles, the vertices that follow
/// it in the first of them (the ends of the sides whose mid-points close
/// its cell); `None` for the other sites.
pub open spec fn two_cycle_corners_spec(tris: Seq<TriIndex>, cycles: Seq<Vec<usize>>) -> Seq<Option<(usize, usize)>> {
    Seq::new(
        cycles.len(),
        |a: int|
            if cycles[a]@.len() == 2 && cycles[a]@[0] < tris.len() {
                following(tris[cycles[a]@[0] as int], a as usize)
            } else {
                None
            },
    )
}

/// Finds, for each site whose cycle has two triangles, the vertices that
/// follow it in the first of them (see `two_cycle_corners_spec`).
pub fn two_cycle_corners(triangles: &Vec<TriIndex>, cycles: &Vec<Vec<usize>>) -> (r: Vec<Option<(usize, usize)>>)
    ensures
        r@ == two_cycle_corners_spec(triangles@, cycles@),
{
    let mut r: Vec<Option<(usize, usize)>> = Vec::new();
    let mut a: usize = 0;
    while a < cycles.len()
        invariant
            a <= cycles@.len(),
            r@ =~= two_cycle_corners_spec(triangles@, cycles@).subrange(0, a as int),
        decreases cycles.len() - a,
    {
        let p = &cycles[a];
        let mut v: Option<(usize, usize)> = None;
        if p.len() == 2 && p[0] < triangles.len() {
            let tri = triangles[p[0]];
            v = if tri[0] == a {
                Some((tri[1], tri[2]))
            } else if tri[1] == a {
                Some((tri[2], tri[0]))
            } else if tri[2] == a {
                Some((tri[0], tri[1]))
            } else {
                None
            };
        }
        r.push(v);
        a = a + 1;
    }
    r
}

/// The cells of the first `n` sites, and the centres after adding the ones
/// they need: a site in no triangle (empty cycle) gets no cell, a cycle of
/// one triangle an empty cell, a cycle of two triangles a four-sided cell
/// through two added mid-points, and a longer cycle the cell through the
/// circumcentres of its triangles.
pub open spec fn assemble(
    cycles: Seq<Vec<usize>>,
    mids: Seq<Option<(CenterKey, CenterKey)>>,
    centers: Seq<CenterKey>,
    tl: int,
    n: int,
) -> (Seq<Seq<usize>>, Seq<CenterKey>)
    decreases n,
{
    if n <= 0 {
        (Seq::empty(), centers)
    } else {
        let (polys, cs) = assemble(cycles, mids, centers, tl, n - 1);
        let p = cycles[n - 1]@;
        if p.len() == 0 {
            (polys, cs)
        } else if p.len() == 2 {
            let (r0, r1) = mids[n - 1].unwrap();
            let (cs1, i0) = supplement_spec(cs, tl, r0);
            let (cs2, i1) = supplement_spec(cs1, tl, r1);
            (polys.push(seq![p[0], i1, p[1], i0]), cs2)
        } else if p.len() < 2 {
            (polys.push(Seq::empty()), cs)
        } else {
            (polys.push(p), cs)
        }
    }
}

/// The two cells of two sites without triangles: the four corners in order
/// and in reverse, each corner added to the centres.
pub open spec fn hemispheres_spec(centers: Seq<CenterKey>, tl: int, corners: Seq<CenterKey>) -> (Seq<Seq<usize>>, Seq<CenterKey>) {
    let (c1, i0) = supplement_spec(centers, tl, corners[0]);
    let (c2, i1) = supplement_spec(c1, tl, corners[1]);
    let (c3, i2) = supplement_spec(c2, tl, corners[2]);
    let (c4, i3) = supplement_spec(c3, tl, corners[3]);
    (seq![seq![i0, i1, i2, i3], seq![i3, i2, i1, i0]], c4)
}

/// The Voronoi cells of a triangulation with `triangles_len` triangles over
/// `npoints` sites, given the cycles of triangles around the sites.
pub open spec fn gen_spec(
    cycles: Seq<Vec<usize>>,
    centers: Seq<CenterKey>,
    tl: int,
    npoints: int,
    mids: Seq<Option<(CenterKey, CenterKey)>>,
    corners: Option<[CenterKey; 4]>,
) -> (Seq<Seq<usize>>, Seq<CenterKey>) {
    if tl == 0 {
        if npoints == 2 {
            hemispheres_spec(centers, tl, corners.unwrap()@)
        } else {
            (Seq::empty(), centers)
        }
    } else {
        assemble(cycles, mids, centers, tl, cycles.len() as int)
    }
}

/// `r` holds the vectors whose views make up `s`.
pub open spec fn views_are(r: Seq<Vec<usize>>, s: Seq<Seq<usize>>) -> bool {
    &&& r.len() == s.len()
    &&& forall|i: int| 0 <= i < s.len() ==> #[trigger] r[i]@ == s[i]
}

/// Builds the Voronoi cells, as lists of indices into the centres, from the
/// cycles of triangles around the sites (`fan_cycles`); a site in no
/// triangle gets no cell, and `cell_sites` gives the site of each cell.
/// `centers` starts
/// with the `triangles_len` circumcentres and receives the added points.
/// `midpoints[a]` holds, for a site whose cycle has two triangles, the two
/// mid-points that close its cell; `corners` the four corners of the two
/// hemispheres when two sites have no triangle.
pub fn gen(
    cycles: Vec<Vec<usize>>,
    centers: Vec<CenterKey>,
    triangles_len: usize,
    npoints: usize,
    midpoints: &Vec<Option<(CenterKey, CenterKey)>>,
    corners: Option<[CenterKey; 4]>,
) -> (r: (Vec<Vec<usize>>, Vec<CenterKey>))
    requires
        triangles_len <= centers@.len(),
        triangles_len == 0 && npoints == 2 ==> corners.is_some(),
        midpoints@.len() == cycles@.len(),
        forall|a: int| 0 <= a < cycles@.len() && (#[trigger] cycles@[a])@.len() == 2 ==> midpoints@[a].is_some(),
    ensures
        ({
            let (polys, cs) = gen_spec(cycles@, centers@, triangles_len as int, npoints as int, midpoints@, corners);
            views_are(r.0@, polys) && r.1@ == cs
        }),
{
    let ghost centers_in = centers@;
    let mut centers = centers;
    if triangles_len == 0 {
        if npoints == 2 {
            let c = corners.unwrap();
            let i0 = supplement(c[0], &mut centers, triangles_len);
            let i1 = supplement(c[1], &mut centers, triangles_len);
            let i2 = supplement(c[2], &mut centers, triangles_len);
            let i3 = supplement(c[3], &mut centers, triangles_len);
            let mut poly: Vec<usize> = Vec::new();
            poly.push(i0);
            poly.push(i1);
            poly.push(i2);
            poly.push(i3);
            let mut rev: Vec<usize> = Vec::new();
            rev.push(i3);
            rev.push(i2);
            rev.push(i1);
            rev.push(i0);
            let mut polygons: Vec<Vec<usize>> = Vec::new();
            polygons.push(poly);
            polygons.push(rev);
            proof {
                let (ps, cs) = hemispheres_spec(centers_in, 0, c@);
                assert(polygons@[0]@ =~= ps[0]);
                assert(polygons@[1]@ =~= ps[1]);
            }
            return (polygons, centers);
        }
        return (Vec::new(), centers);
    }
    let ghost centers0 = centers@;
    let mut polygons: Vec<Vec<usize>> = Vec::new();
    let mut a: usize = 0;
    while a < cycles.len()
        invariant
            a <= cycles@.len(),
            triangles_len <= centers@.len(),
            midpoints@.len() == cycles@.len(),
            forall|x: int| 0 <= x < cycles@.len() && (#[trigger] cycles@[x])@.len() == 2 ==> midpoints@[x].is_some(),
            ({
                let (ps, cs) = assemble(cycles@, midpoints@, centers0, triangles_len as int, a as int);
                views_are(polygons@, ps) && centers@ == cs
            }),
        decreases cycles.len() - a,
    {
        let p = &cycles[a];
        let ghost prev = assemble(cycles@, midpoints@, centers0, triangles_len as int, a as int);
        let ghost next = assemble(cycles@, midpoints@, centers0, triangles_len as int, a + 1);
        let ghost before = polygons@;
        if p.len() == 0 {
        } else if p.len() == 2 {
            let (r0, r1) = midpoints[a].unwrap();
            let i0 = supplement(r0, &mut centers, triangles_len);
            let i1 = supplement(r1, &mut centers, triangles_len);
            let mut poly: Vec<usize> = Vec::new();
            poly.push(p[0]);
            poly.push(i1);
            poly.push(p[1]);
            poly.push(i0);
            assert(poly@ =~= seq![p@[0], i1, p@[1], i0]);
            polygons.push(poly);
        } else if p.len() < 2 {
            polygons.push(Vec::new());
        } else {
            let q = p.clone();
            assert(q@ =~= p@);
            polygons.push(q);
        }
        proof {
            if p@.len() != 0 {
                assert(next.0 == prev.0.push(next.0.last()));
                assert forall|i: int| 0 <= i < next.0.len() implies #[trigger] polygons@[i]@ == next.0[i] by {
                    if i < before.len() {
                        assert(polygons@[i] == before[i]);
                        assert(before[i]@ == prev.0[i]);
                    }
                }
            }
        }
        a = a + 1;
    }
    (polygons, centers)
}

/// The triangle `t` has `a` among its vertices.
pub open spec fn has_vertex(tri: TriIndex, a: usize) -> bool {
    tri[0] == a || tri[1] == a || tri[2] == a
}

/// Every entry of `fan` names a triangle (below `bound`) that has `a` as a
/// vertex.
pub open spec fn fan_around(fan: Seq<FanEntry>, tris: Seq<TriIndex>, a: usize) -> bool {
    forall|k: int| 0 <= k < fan.len() ==> (#[trigger] fan[k]).2 < tris.len() && has_vertex(tris[fan[k].2 as int], a)
}

proof fn lemma_fan_of_entries(tris: Seq<TriIndex>, n: int, a: usize)
    requires
        0 <= n <= tris.len(),
        n <= usize::MAX,
    ensures
        fan_around(fan_of(all_entries(tris, n), a), tris, a),
    decreases n,
{
    if n > 0 {
        lemma_fan_of_entries(tris, n - 1, a);
        let x = all_entries(tris, n - 1);
        let te = tri_entries(tris[n - 1], n - 1);
        assert(x + te =~= x.push(te[0]).push(te[1]).push(te[2]));
        lemma_fan_of_push(x, te[0], a);
        lemma_fan_of_push(x.push(te[0]), te[1], a);
        lemma_fan_of_push(x.push(te[0]).push(te[1]), te[2], a);
        let f0 = fan_of(x, a);
        let f = fan_of(all_entries(tris, n), a);
        assert forall|k: int| 0 <= k < f.len() implies (#[trigger] f[k]).2 < tris.len() && has_vertex(tris[f[k].2 as int], a) by {
            if k < f0.len() {
                assert(f[k] == f0[k]);
            } else {
                assert(f[k].2 == (n - 1) as usize);
            }
        }
    }
}

proof fn lemma_first_exists(fan: Seq<FanEntry>, k: usize, m: int)
    requires
        0 <= m < fan.len(),
        fan[m].0 == k,
    ensures
        exists|c: int| 0 <= c < fan.len() && fan[c].0 == k && forall|q: int| 0 <= q < c ==> fan[q].0 != k,
    decreases m,
{
    if exists|q: int| 0 <= q < m && fan[q].0 == k {
        let q = choose|q: int| 0 <= q < m && fan[q].0 == k;
        lemma_first_exists(fan, k, q);
    } else {
        assert(forall|q: int| 0 <= q < m ==> fan[q].0 != k);
    }
}

proof fn lemma_first_with_next(fan: Seq<FanEntry>, k: usize)
    ensures
        first_with_next(fan, k) matches Some(m) ==> 0 <= m < fan.len() && fan[m].0 == k,
{
    if exists|m: int| 0 <= m < fan.len() && fan[m].0 == k {
        let m = choose|m: int| 0 <= m < fan.len() && fan[m].0 == k;
        lemma_first_exists(fan, k, m);
    }
}

proof fn lemma_walk_around(fan: Seq<FanEntry>, tris: Seq<TriIndex>, a: usize, s: int)
    requires
        fan.len() > 0,
        fan_around(fan, tris, a),
    ensures
        forall|i: int| 0 <= i < fan_walk(fan, s).1.len() ==> (#[trigger] fan_walk(fan, s).1[i]) < tris.len()
            && has_vertex(tris[fan_walk(fan, s).1[i] as int], a),
    decreases s,
{
    if s > 0 {
        lemma_walk_around(fan, tris, a, s - 1);
        let k = fan_walk(fan, s - 1).0;
        let p = fan_walk(fan, s - 1).1;
        let q = fan_walk(fan, s).1;
        lemma_first_with_next(fan, k);
        match first_with_next(fan, k) {
            Some(m) => {
                assert(0 <= m < fan.len());
                assert(q == p.push(fan[m].2));
                assert(fan[m].2 < tris.len());
                assert forall|i: int| 0 <= i < q.len() implies (#[trigger] q[i]) < tris.len() && has_vertex(tris[q[i] as int], a) by {
                    if i < p.len() {
                        assert(q[i] == p[i]);
                    }
                }
            },
            None => {},
        }
    } else {
        assert(fan[0].2 < tris.len());
    }
}

/// The cell of site `a` is made of the circumcentres of triangles that
/// have `a` as a vertex: every triangle of its cycle does.
pub proof fn lemma_cycle_triangles_contain_site(tris: Seq<TriIndex>, a: usize)
    requires
        tris.len() <= usize::MAX,
    ensures
        forall|i: int| 0 <= i < site_cycle(tris, a).len() ==> (#[trigger] site_cycle(tris, a)[i]) < tris.len()
            && has_vertex(tris[site_cycle(tris, a)[i] as int], a),
{
    let fan = fan_of(all_entries(tris, tris.len() as int), a);
    lemma_fan_of_entries(tris, tris.len() as int, a);
    if fan.len() > 0 {
        lemma_walk_around(fan, tris, a, fan.len() as int);
    }
}

/// Two sites without triangles split the sphere into two cells with the
/// same four corners, one the reverse of the other.
pub proof fn lemma_hemispheres_reverse(centers: Seq<CenterKey>, tl: int, corners: Seq<CenterKey>)
    ensures
        hemispheres_spec(centers, tl, corners).0.len() == 2,
        hemispheres_spec(centers, tl, corners).0[1] == hemispheres_spec(centers, tl, corners).0[0].reverse(),
{
    let p = hemispheres_spec(centers, tl, corners).0;
    assert(p[1] =~= p[0].reverse());
}


proof fn lemma_assemble_follows_sites(
    cycles: Seq<Vec<usize>>,
    mids: Seq<Option<(CenterKey, CenterKey)>>,
    centers: Seq<CenterKey>,
    tl: int,
    n: int,
)
    requires
        0 <= n <= cycles.len(),
        cycles.len() <= usize::MAX,
    ensures
        assemble(cycles, mids, centers, tl, n).0.len() == sites_with_cycles(cycles, n).len(),
        forall|i: int| 0 <= i < sites_with_cycles(cycles, n).len() ==> {
            let a = #[trigger] sites_with_cycles(cycles, n)[i];
            let p = cycles[a as int]@;
            let cell = assemble(cycles, mids, centers, tl, n).0[i];
            &&& 0 <= a < n
            &&& p.len() > 0
            &&& p.len() == 1 ==> cell.len() == 0
            &&& p.len() == 2 ==> cell.len() == 4 && cell[0] == p[0] && cell[2] == p[1]
            &&& p.len() > 2 ==> cell == p
        },
    decreases n,
{
    if n > 0 {
        lemma_assemble_follows_sites(cycles, mids, centers, tl, n - 1);
        let prev = assemble(cycles, mids, centers, tl, n - 1).0;
        let cur = assemble(cycles, mids, centers, tl, n).0;
        let sp = sites_with_cycles(cycles, n - 1);
        let sc = sites_with_cycles(cycles, n);
        let p = cycles[n - 1]@;
        if p.len() == 0 {
            assert(sc == sp);
            assert(cur == prev);
        } else {
            assert(sc == sp.push((n - 1) as usize));
            assert(cur == prev.push(cur.last()));
            let last = cur.last();
            assert(p.len() == 1 ==> last.len() == 0);
            assert(p.len() > 2 ==> last == p);
            assert(p.len() == 2 ==> last.len() == 4 && last[0] == p[0] && last[2] == p[1]);
            assert forall|i: int| 0 <= i < sc.len() implies {
                let a = #[trigger] sc[i];
                let q = cycles[a as int]@;
                let cell = cur[i];
                &&& 0 <= a < n
                &&& q.len() > 0
                &&& q.len() == 1 ==> cell.len() == 0
                &&& q.len() == 2 ==> cell.len() == 4 && cell[0] == q[0] && cell[2] == q[1]
                &&& q.len() > 2 ==> cell == q
            } by {
                if i < sp.len() {
                    assert(sc[i] == sp[i]);
                    assert(cur[i] == prev[i]);
                }
            }
        }
    }
}

/// Each cell belongs to one site: `cell_sites` lists, cell by cell, the
/// site whose cycle of triangles it was built from. A cycle of one triangle
/// gives an empty cell, a cycle of two a four-sided cell through its two
/// circumcentres, and a longer cycle the cell through its circumcentres.
pub proof fn lemma_cells_follow_sites(
    cycles: Seq<Vec<usize>>,
    centers: Seq<CenterKey>,
    tl: int,
    npoints: int,
    mids: Seq<Option<(CenterKey, CenterKey)>>,
    corners: Option<[CenterKey; 4]>,
)
    requires
        tl > 0,
        cycles.len() <= usize::MAX,
    ensures
        gen_spec(cycles, centers, tl, npoints, mids, corners).0.len() == cell_sites_spec(cycles, tl, npoints).len(),
        forall|i: int| 0 <= i < cell_sites_spec(cycles, tl, npoints).len() ==> {
            let a = #[trigger] cell_sites_spec(cycles, tl, npoints)[i];
            let p = cycles[a as int]@;
            let cell = gen_spec(cycles, centers, tl, npoints, mids, corners).0[i];
            &&& 0 <= a < cycles.len()
            &&& p.len() > 0
            &&& p.len() == 1 ==> cell.len() == 0
            &&& p.len() == 2 ==> cell.len() == 4 && cell[0] == p[0] && cell[2] == p[1]
            &&& p.len() > 2 ==> cell == p
        },
{
    lemma_assemble_follows_sites(cycles, mids, centers, tl, cycles.len() as int);
}

proof fn lemma_fan_of_append(x: Seq<(usize, FanEntry)>, y: Seq<(usize, FanEntry)>, a: usize)
    ensures
        fan_of(x + y, a) == fan_of(x, a) + fan_of(y, a),
    decreases y.len(),
{
    if y.len() == 0 {
        assert(x + y =~= x);
        assert(fan_of(x, a) + fan_of(y, a) =~= fan_of(x, a));
    } else {
        lemma_fan_of_append(x, y.drop_last(), a);
        assert((x + y).drop_last() =~= x + y.drop_last());
        assert((x + y).last() == y.last());
        if y.last().0 == a {
            assert(fan_of(x, a) + fan_of(y.drop_last(), a).push(y.last().1) =~= (fan_of(x, a) + fan_of(y.drop_last(), a)).push(y.last().1));
        }
    }
}

proof fn lemma_fan_first(tris: Seq<TriIndex>, n: int, a: usize)
    requires
        0 <= n <= tris.len(),
        n <= usize::MAX,
    ensures
        fan_of(all_entries(tris, n), a).len() > 0 ==> {
            let e = fan_of(all_entries(tris, n), a)[0];
            &&& e.2 < n
            &&& following(tris[e.2 as int], a) == Some((e.0, e.1))
        },
    decreases n,
{
    if n > 0 {
        lemma_fan_first(tris, n - 1, a);
        let x = all_entries(tris, n - 1);
        let te = tri_entries(tris[n - 1], n - 1);
        lemma_fan_of_append(x, te, a);
        let f0 = fan_of(x, a);
        let f = fan_of(all_entries(tris, n), a);
        if f0.len() > 0 {
            assert(f[0] == f0[0]);
        } else {
            assert(f =~= fan_of(te, a));
            let e0 = Seq::<(usize, FanEntry)>::empty();
            assert(te =~= e0.push(te[0]).push(te[1]).push(te[2]));
            assert(fan_of(e0, a) == Seq::<FanEntry>::empty());
            lemma_fan_of_push(e0, te[0], a);
            lemma_fan_of_push(e0.push(te[0]), te[1], a);
            lemma_fan_of_push(e0.push(te[0]).push(te[1]), te[2], a);
        }
    }
}

proof fn lemma_walk_first(fan: Seq<FanEntry>, s: int)
    requires
        fan.len() > 0,
    ensures
        fan_walk(fan, s).1.len() > 0,
        fan_walk(fan, s).1[0] == fan[0].2,
    decreases s,
{
    if s > 0 {
        lemma_walk_first(fan, s - 1);
    }
}

/// The first triangle of the cycle around a site is the first triangle
/// that has the site as a vertex, and the vertices that follow the site in
/// it are those of its first fan entry: the corners that close a cell of
/// two triangles.
pub proof fn lemma_cycle_starts_at_first_entry(tris: Seq<TriIndex>, a: usize)
    requires
        tris.len() <= usize::MAX,
    ensures
        site_cycle(tris, a).len() > 0 ==> {
            let e = fan_of(all_entries(tris, tris.len() as int), a)[0];
            &&& site_cycle(tris, a)[0] == e.2
            &&& e.2 < tris.len()
            &&& following(tris[e.2 as int], a) == Some((e.0, e.1))
        },
{
    let fan = fan_of(all_entries(tris, tris.len() as int), a);
    lemma_fan_first(tris, tris.len() as int, a);
    if fan.len() > 0 {
        lemma_walk_first(fan, fan.len() as int);
    }
}

/// Going round triangle `tri`, the site `a` is followed by `b` and then `c`.
pub open spec fn is_corner(tri: TriIndex, a: usize, b: usize, c: usize) -> bool {
    ||| (tri[0], tri[1], tri[2]) == (a, b, c)
    ||| (tri[1], tri[2], tri[0]) == (a, b, c)
    ||| (tri[2], tri[0], tri[1]) == (a, b, c)
}

/// Every entry of `fan` is a corner of site `a` in its triangle.
spec fn fan_corners(fan: Seq<FanEntry>, tris: Seq<TriIndex>, a: usize) -> bool {
    forall|k: int| 0 <= k < fan.len() ==> (#[trigger] fan[k]).2 < tris.len() && is_corner(tris[fan[k].2 as int], a, fan[k].0, fan[k].1)
}

proof fn lemma_fan_corners(tris: Seq<TriIndex>, n: int, a: usize)
    requires
        0 <= n <= tris.len(),
        n <= usize::MAX,
    ensures
        fan_corners(fan_of(all_entries(tris, n), a), tris, a),
    decreases n,
{
    if n > 0 {
        lemma_fan_corners(tris, n - 1, a);
        let x = all_entries(tris, n - 1);
        let te = tri_entries(tris[n - 1], n - 1);
        assert(x + te =~= x.push(te[0]).push(te[1]).push(te[2]));
        lemma_fan_of_push(x, te[0], a);
        lemma_fan_of_push(x.push(te[0]), te[1], a);
        lemma_fan_of_push(x.push(te[0]).push(te[1]), te[2], a);
        let f0 = fan_of(x, a);
        let f = fan_of(all_entries(tris, n), a);
        assert forall|k: int| 0 <= k < f.len() implies (#[trigger] f[k]).2 < tris.len() && is_corner(tris[f[k].2 as int], a, f[k].0, f[k].1) by {
            if k < f0.len() {
                assert(f[k] == f0[k]);
            } else {
                assert(f[k].2 == (n - 1) as usize);
            }
        }
    }
}

/// The walk after `s` steps: its last triangle is met through an entry
/// whose far vertex is the one to be matched next, and each two triangles
/// met in a row are joined through entries where the far vertex of the
/// first is the near vertex of the second.
spec fn walk_linked(fan: Seq<FanEntry>, k: usize, p: Seq<usize>) -> bool {
    &&& p.len() >= 1
    &&& exists|j: int| 0 <= j < fan.len() && (#[trigger] fan[j]).2 == p.last() && fan[j].1 == k
    &&& forall|i: int| 0 <= i < p.len() - 1 ==> exists|j1: int, j2: int|
        0 <= j1 < fan.len() && 0 <= j2 < fan.len() && (#[trigger] fan[j1]).2 == #[trigger] p[i] && (#[trigger] fan[j2]).2 == p[i + 1]
            && fan[j1].1 == fan[j2].0
}

proof fn lemma_walk_linked(fan: Seq<FanEntry>, s: int)
    requires
        fan.len() > 0,
    ensures
        walk_linked(fan, fan_walk(fan, s).0, fan_walk(fan, s).1),
    decreases s,
{
    if s <= 0 {
        let p = fan_walk(fan, s).1;
        assert(fan[0].2 == p.last());
    } else {
        lemma_walk_linked(fan, s - 1);
        let (k, p) = fan_walk(fan, s - 1);
        lemma_first_with_next(fan, k);
        match first_with_next(fan, k) {
            Some(m) => {
                let q = p.push(fan[m].2);
                assert(fan_walk(fan, s) == (fan[m].1, q));
                let j0 = choose|j: int| 0 <= j < fan.len() && (#[trigger] fan[j]).2 == p.last() && fan[j].1 == k;
                assert(fan[m].2 == q.last());
                assert forall|i: int| 0 <= i < q.len() - 1 implies exists|j1: int, j2: int|
                    0 <= j1 < fan.len() && 0 <= j2 < fan.len() && (#[trigger] fan[j1]).2 == #[trigger] q[i] && (#[trigger] fan[j2]).2 == q[i + 1]
                        && fan[j1].1 == fan[j2].0 by {
                    if i < p.len() - 1 {
                        assert(q[i] == p[i] && q[i + 1] == p[i + 1]);
                        let (j1, j2) = choose|j1: int, j2: int|
                            0 <= j1 < fan.len() && 0 <= j2 < fan.len() && (#[trigger] fan[j1]).2 == #[trigger] p[i] && (#[trigger] fan[j2]).2 == p[i + 1]
                                && fan[j1].1 == fan[j2].0;
                        assert(fan[j1].2 == q[i] && fan[j2].2 == q[i + 1]);
                    } else {
                        assert(q[i] == p.last());
                        assert(q[i + 1] == fan[m].2);
                        assert(fan[j0].2 == q[i] && fan[m].2 == q[i + 1] && fan[j0].1 == fan[m].0);
                    }
                }
            },
            None => {
                assert(fan_walk(fan, s) == (k, p));
            },
        }
    }
}

/// Triangles `t` and `u` share a side at site `a`: some vertex `v` precedes
/// `a` in `t` and follows it in `u`.
pub open spec fn share_side_at(tris: Seq<TriIndex>, t: int, u: int, a: usize) -> bool {
    exists|b: usize, v: usize, w: usize| #[trigger] is_corner(tris[t], a, b, v) && #[trigger] is_corner(tris[u], a, v, w)
}

/// Two triangles that follow each other in the cycle around site `a` share
/// a side at `a`: some vertex `v` follows `a` in the second triangle and
/// precedes it in the first, so the side between `a` and `v` is traversed
/// once each way.
pub proof fn lemma_cycle_neighbours_share_side(tris: Seq<TriIndex>, a: usize)
    requires
        tris.len() <= usize::MAX,
    ensures
        forall|i: int| #![trigger site_cycle(tris, a)[i]] 0 <= i < site_cycle(tris, a).len() - 1 ==> share_side_at(
            tris,
            site_cycle(tris, a)[i] as int,
            site_cycle(tris, a)[i + 1] as int,
            a,
        ),
{
    let fan = fan_of(all_entries(tris, tris.len() as int), a);
    lemma_fan_corners(tris, tris.len() as int, a);
    if fan.len() > 0 {
        lemma_walk_linked(fan, fan.len() as int);
    }
    assert forall|i: int| #![trigger site_cycle(tris, a)[i]] 0 <= i < site_cycle(tris, a).len() - 1 implies share_side_at(
        tris,
        site_cycle(tris, a)[i] as int,
        site_cycle(tris, a)[i + 1] as int,
        a,
    ) by {
        let p = site_cycle(tris, a);
        assert(fan.len() > 0);
        assert(p == fan_walk(fan, fan.len() as int).1);
        assert(p[i] == p[i]);
        let (j1, j2) = choose|j1: int, j2: int|
            0 <= j1 < fan.len() && 0 <= j2 < fan.len() && (#[trigger] fan[j1]).2 == #[trigger] p[i] && (#[trigger] fan[j2]).2 == p[i + 1]
                && fan[j1].1 == fan[j2].0;
        assert(is_corner(tris[fan[j1].2 as int], a, fan[j1].0, fan[j1].1));
        assert(is_corner(tris[fan[j2].2 as int], a, fan[j2].0, fan[j2].1));
        assert(is_corner(tris[p[i] as int], a, fan[j1].0, fan[j1].1));
        assert(is_corner(tris[p[i + 1] as int], a, fan[j1].1, fan[j2].1));
    }
}

/// How many times site `a` occurs as a vertex in the first `n` triangles.
pub open spec fn corner_count(tris: Seq<TriIndex>, a: usize, n: int) -> nat
    decreases n,
{
    if n <= 0 {
        0
    } else {
        let t = tris[n - 1];
        corner_count(tris, a, n - 1) + (if t[0] == a { 1nat } else { 0nat }) + (if t[1] == a { 1nat } else { 0nat }) + (if t[2]
            == a { 1nat } else { 0nat })
    }
}

/// The triangles around site `a` close up: whenever `a` is followed by `b`
/// and then `c` in a triangle, some triangle has `a` followed by `c`, the
/// one across the side between `a` and `c`.
pub open spec fn closed_around(tris: Seq<TriIndex>, a: usize) -> bool {
    forall|t: int, b: usize, c: usize|
        0 <= t < tris.len() && #[trigger] is_corner(tris[t], a, b, c) ==> exists|t2: int, w: usize|
            0 <= t2 < tris.len() && #[trigger] is_corner(tris[t2], a, c, w)
}

proof fn lemma_fan_len(tris: Seq<TriIndex>, n: int, a: usize)
    requires
        0 <= n <= tris.len(),
    ensures
        fan_of(all_entries(tris, n), a).len() == corner_count(tris, a, n),
    decreases n,
{
    if n > 0 {
        lemma_fan_len(tris, n - 1, a);
        let x = all_entries(tris, n - 1);
        let te = tri_entries(tris[n - 1], n - 1);
        assert(x + te =~= x.push(te[0]).push(te[1]).push(te[2]));
        lemma_fan_of_push(x, te[0], a);
        lemma_fan_of_push(x.push(te[0]), te[1], a);
        lemma_fan_of_push(x.push(te[0]).push(te[1]), te[2], a);
    }
}

proof fn lemma_fan_complete(tris: Seq<TriIndex>, n: int, a: usize, t: int, b: usize, c: usize)
    requires
        0 <= t < n <= tris.len(),
        n <= usize::MAX,
        is_corner(tris[t], a, b, c),
    ensures
        fan_of(all_entries(tris, n), a).contains((b, c, t as usize)),
    decreases n,
{
    let x = all_entries(tris, n - 1);
    let te = tri_entries(tris[n - 1], n - 1);
    assert(x + te =~= x.push(te[0]).push(te[1]).push(te[2]));
    lemma_fan_of_push(x, te[0], a);
    lemma_fan_of_push(x.push(te[0]), te[1], a);
    lemma_fan_of_push(x.push(te[0]).push(te[1]), te[2], a);
    let f0 = fan_of(x, a);
    let f1 = fan_of(x.push(te[0]), a);
    let f2 = fan_of(x.push(te[0]).push(te[1]), a);
    let f3 = fan_of(x.push(te[0]).push(te[1]).push(te[2]), a);
    let e = (b, c, t as usize);
    assert forall|g: Seq<FanEntry>, y: FanEntry| g.contains(e) implies #[trigger] g.push(y).contains(e) by {
        let q = choose|q: int| 0 <= q < g.len() && g[q] == e;
        assert(g.push(y)[q] == e);
    }
    if t < n - 1 {
        lemma_fan_complete(tris, n - 1, a, t, b, c);
        assert(f0.contains(e));
        assert(f1.contains(e));
        assert(f2.contains(e));
        assert(f3.contains(e));
    } else {
        let tri = tris[t];
        if (tri[0], tri[1], tri[2]) == (a, b, c) {
            assert(f1 == f0.push(e));
            assert(f1[f1.len() - 1] == e);
            assert(f1.contains(e));
            assert(f2.contains(e));
            assert(f3.contains(e));
        } else if (tri[1], tri[2], tri[0]) == (a, b, c) {
            assert(f2[f2.len() - 1] == e);
            assert(f2.contains(e));
            assert(f3.contains(e));
        } else {
            assert(f3[f3.len() - 1] == e);
            assert(f3.contains(e));
        }
    }
}

/// Some entry of `fan` starts at the far vertex of entry `j`.
spec fn has_next(fan: Seq<FanEntry>, j: int) -> bool {
    exists|m: int| 0 <= m < fan.len() && fan[m].0 == fan[j].1
}

proof fn lemma_walk_grows(fan: Seq<FanEntry>, s: int)
    requires
        fan.len() > 0,
        0 <= s,
        forall|j: int| 0 <= j < fan.len() ==> #[trigger] has_next(fan, j),
    ensures
        fan_walk(fan, s).1.len() == s + 1,
    decreases s,
{
    if s > 0 {
        lemma_walk_grows(fan, s - 1);
        lemma_walk_linked(fan, s - 1);
        let (k, p) = fan_walk(fan, s - 1);
        let j = choose|j: int| 0 <= j < fan.len() && (#[trigger] fan[j]).2 == p.last() && fan[j].1 == k;
        assert(has_next(fan, j));
        let m = choose|m: int| 0 <= m < fan.len() && fan[m].0 == fan[j].1;
        assert(fan[m].0 == k);
        assert(first_with_next(fan, k) is Some);
    }
}

/// When the triangles around site `a` close up, the walk around `a` finds
/// a next triangle at every step: the cycle has one triangle more than the
/// number of times `a` occurs as a vertex (it comes back to a triangle it
/// has met), and is empty when `a` is in no triangle.
pub proof fn lemma_closed_cycle_length(tris: Seq<TriIndex>, a: usize)
    requires
        tris.len() <= usize::MAX,
        closed_around(tris, a),
    ensures
        site_cycle(tris, a).len() == (if corner_count(tris, a, tris.len() as int) == 0 {
            0
        } else {
            corner_count(tris, a, tris.len() as int) + 1
        }),
{
    let n = tris.len() as int;
    let fan = fan_of(all_entries(tris, n), a);
    lemma_fan_len(tris, n, a);
    lemma_fan_corners(tris, n, a);
    if fan.len() > 0 {
        assert forall|j: int| 0 <= j < fan.len() implies #[trigger] has_next(fan, j) by {
            let e = fan[j];
            assert(is_corner(tris[e.2 as int], a, e.0, e.1));
            let (t2, w) = choose|t2: int, w: usize| 0 <= t2 < tris.len() && #[trigger] is_corner(tris[t2], a, e.1, w);
            lemma_fan_complete(tris, n, a, t2, e.1, w);
            let m = choose|m: int| 0 <= m < fan.len() && fan[m] == (e.1, w, t2 as usize);
            assert(fan[m].0 == fan[j].1);
            assert(has_next(fan, j));
        }
        lemma_walk_grows(fan, fan.len() as int);
    }
}

} // verus!
