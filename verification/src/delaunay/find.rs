//! The search for the site nearest a point: a walk from cell to cell along
//! the neighbour table, each step to a neighbour nearer the point.
use std::collections::HashMap;

use vstd::prelude::*;

verus! {

/// The neighbour the search for the site nearest a point moves to: the
/// last one in the row that is nearer than every site before it (the start
/// cell included), if any. `cell_dist` and `row_dists[i]` order the squared
/// distances of the start cell and of neighbour `row[i]` to the point.
pub open spec fn nearer_neighbor(row: Seq<usize>, cell_dist: u64, row_dists: Seq<u64>, n: int) -> (u64, Option<usize>)
    decreases n,
{
    if n <= 0 {
        (cell_dist, None)
    } else {
        let (d, f) = nearer_neighbor(row, cell_dist, row_dists, n - 1);
        if row_dists[n - 1] < d {
            (row_dists[n - 1], Some(row[n - 1]))
        } else {
            (d, f)
        }
    }
}

/// One step of the search for the site nearest a point: scans the
/// neighbours of the start cell and returns the last one found nearer than
/// all before it (see `nearer_neighbor`); `None` when none is nearer.
pub fn find_step(row: &Vec<usize>, cell_dist: u64, row_dists: &Vec<u64>) -> (r: Option<usize>)
    requires
        row_dists@.len() >= row@.len(),
    ensures
        r == nearer_neighbor(row@, cell_dist, row_dists@, row@.len() as int).1,
{
    let mut dist = cell_dist;
    let mut found: Option<usize> = None;
    let mut i: usize = 0;
    while i < row.len()
        invariant
            i <= row@.len(),
            row_dists@.len() >= row@.len(),
            (dist, found) == nearer_neighbor(row@, cell_dist, row_dists@, i as int),
        decreases row.len() - i,
    {
        let nd = row_dists[i];
        if nd < dist {
            dist = nd;
            found = Some(row[i]);
        }
        i = i + 1;
    }
    found
}

proof fn lemma_nearer_neighbor(row: Seq<usize>, cell_dist: u64, row_dists: Seq<u64>, n: int)
    requires
        0 <= n <= row.len(),
        row_dists.len() >= row.len(),
    ensures
        nearer_neighbor(row, cell_dist, row_dists, n).0 <= cell_dist,
        forall|k: int| 0 <= k < n ==> nearer_neighbor(row, cell_dist, row_dists, n).0 <= #[trigger] row_dists[k],
        nearer_neighbor(row, cell_dist, row_dists, n).1 is None ==> nearer_neighbor(row, cell_dist, row_dists, n).0 == cell_dist,
        nearer_neighbor(row, cell_dist, row_dists, n).1 matches Some(x) ==> exists|k: int|
            0 <= k < n && row[k] == x && #[trigger] row_dists[k] == nearer_neighbor(row, cell_dist, row_dists, n).0
                && row_dists[k] < cell_dist,
    decreases n,
{
    if n > 0 {
        lemma_nearer_neighbor(row, cell_dist, row_dists, n - 1);
    }
}

/// The keys of the sites of a row, looked up in `dists`.
pub open spec fn row_keys(row: Seq<usize>, dists: Seq<u64>) -> Seq<u64> {
    Seq::new(row.len(), |k: int| dists[row[k] as int])
}

/// The cell one scan of the neighbours of `cell` moves to, if any;
/// `dists[i]` orders the distance of site `i` to the point.
pub open spec fn next_cell(nbrs: Map<usize, Vec<usize>>, dists: Seq<u64>, cell: usize) -> Option<usize> {
    if nbrs.contains_key(cell) {
        let row = nbrs[cell]@;
        nearer_neighbor(row, dists[cell as int], row_keys(row, dists), row.len() as int).1
    } else {
        None
    }
}

/// Where the walk from `cell` stops: it moves on while a scan finds a
/// neighbour nearer than the current cell.
pub open spec fn walk_from(nbrs: Map<usize, Vec<usize>>, dists: Seq<u64>, cell: usize) -> usize
    decreases dists[cell as int],
{
    match next_cell(nbrs, dists, cell) {
        Some(n) => if dists[n as int] < dists[cell as int] {
            walk_from(nbrs, dists, n)
        } else {
            cell
        },
        None => cell,
    }
}

/// Every row of the table lists sites that have a key.
pub open spec fn rows_within(nbrs: Map<usize, Vec<usize>>, len: nat) -> bool {
    forall|a: usize, k: int| #[trigger] nbrs.contains_key(a) && 0 <= k < nbrs[a]@.len() ==> #[trigger] nbrs[a]@[k] < len
}

/// Finds the site nearest a point by walking the neighbour table from
/// `start`; `dists[i]` orders the squared distance of site `i` to the point.
pub fn find(neighbors: &HashMap<usize, Vec<usize>>, dists: &Vec<u64>, start: usize) -> (r: usize)
    requires
        start < dists@.len(),
        rows_within(neighbors@, dists@.len()),
    ensures
        r == walk_from(neighbors@, dists@, start),
        r < dists@.len(),
{
    let mut cell = start;
    loop
        invariant
            cell < dists@.len(),
            rows_within(neighbors@, dists@.len()),
            walk_from(neighbors@, dists@, cell) == walk_from(neighbors@, dists@, start),
        decreases dists@[cell as int],
    {
        match neighbors.get(&cell) {
            None => {
                return cell;
            },
            Some(row) => {
                assert(neighbors@.contains_key(cell) && neighbors@[cell] == *row);
                let mut row_dists: Vec<u64> = Vec::new();
                let mut k: usize = 0;
                while k < row.len()
                    invariant
                        k <= row@.len(),
                        neighbors@.contains_key(cell),
                        neighbors@[cell] == *row,
                        rows_within(neighbors@, dists@.len()),
                        row_dists@ =~= row_keys(row@, dists@).subrange(0, k as int),
                    decreases row.len() - k,
                {
                    assert(row@[k as int] < dists@.len());
                    row_dists.push(dists[row[k]]);
                    k = k + 1;
                }
                assert(row_dists@ =~= row_keys(row@, dists@));
                match find_step(row, dists[cell], &row_dists) {
                    None => {
                        return cell;
                    },
                    Some(n) => {
                        proof {
                            lemma_nearer_neighbor(row@, dists@[cell as int], row_dists@, row@.len() as int);
                            let k = choose|k: int|
                                0 <= k < row@.len() && row@[k] == n && #[trigger] row_dists@[k]
                                    == nearer_neighbor(row@, dists@[cell as int], row_dists@, row@.len() as int).0
                                    && row_dists@[k] < dists@[cell as int];
                            assert(row_dists@[k] == dists@[n as int]);
                        }
                        cell = n;
                    },
                }
            },
        }
    }
}

/// The walk never ends farther from the point than it started, and it ends
/// at a cell none of whose neighbours is nearer.
pub proof fn lemma_walk_ends_at_local_minimum(nbrs: Map<usize, Vec<usize>>, dists: Seq<u64>, cell: usize)
    ensures
        dists[walk_from(nbrs, dists, cell) as int] <= dists[cell as int],
        nbrs.contains_key(walk_from(nbrs, dists, cell)) ==> forall|k: int|
            0 <= k < nbrs[walk_from(nbrs, dists, cell)]@.len() ==> dists[walk_from(nbrs, dists, cell) as int]
                <= #[trigger] dists[nbrs[walk_from(nbrs, dists, cell)]@[k] as int],
    decreases dists[cell as int],
{
    let w = walk_from(nbrs, dists, cell);
    match next_cell(nbrs, dists, cell) {
        Some(n) => {
            if dists[n as int] < dists[cell as int] {
                lemma_walk_ends_at_local_minimum(nbrs, dists, n);
                return;
            }
        },
        None => {},
    }
    assert(w == cell);
    if nbrs.contains_key(cell) {
        let row = nbrs[cell]@;
        let keys = row_keys(row, dists);
        lemma_nearer_neighbor(row, dists[cell as int], keys, row.len() as int);
        match next_cell(nbrs, dists, cell) {
            Some(n) => {
                let k = choose|k: int|
                    0 <= k < row.len() && row[k] == n && #[trigger] keys[k]
                        == nearer_neighbor(row, dists[cell as int], keys, row.len() as int).0
                        && keys[k] < dists[cell as int];
                assert(keys[k] == dists[n as int]);
            },
            None => {
                assert forall|k: int| 0 <= k < row.len() implies dists[cell as int] <= #[trigger] dists[row[k] as int] by {
                    assert(keys[k] == dists[row[k] as int]);
                }
            },
        }
    }
}

} // verus!
