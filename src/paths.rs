//! Open paths through a grid and the facts about them that do not depend on
//! how a search is carried out.

use crate::grid::{filled_with, is_grid, occupied, width, EMPTY, OCCUPIED};
use vstd::prelude::*;

verus! {

/// Two cells share a side: same row and neighbouring columns, or same
/// column and neighbouring rows.
pub open spec fn adjacent(a: (int, int), b: (int, int)) -> bool {
    ||| a.0 == b.0 && (a.1 == b.1 + 1 || b.1 == a.1 + 1)
    ||| a.1 == b.1 && (a.0 == b.0 + 1 || b.0 == a.0 + 1)
}

/// A non-empty walk through occupied cells in which each step moves to a
/// 4-adjacent cell.
pub open spec fn is_open_path(g: Seq<Seq<u8>>, p: Seq<(int, int)>) -> bool {
    &&& p.len() >= 1
    &&& forall|k: int| 0 <= k < p.len() ==> occupied(g, (#[trigger] p[k]).0, p[k].1)
    &&& forall|k: int| 0 <= k < p.len() - 1 ==> adjacent(#[trigger] p[k], p[k + 1])
}

/// Some open path leads from a cell of the top row to the cell `(r, c)`.
pub open spec fn reaches(g: Seq<Seq<u8>>, r: int, c: int) -> bool {
    exists|p: Seq<(int, int)>| #[trigger] is_open_path(g, p) && p[0].0 == 0 && p.last() == (r, c)
}

/// The grid percolates: some open path joins a cell of the top row to a
/// cell of the bottom row.
pub open spec fn spans(g: Seq<Seq<u8>>) -> bool {
    exists|p: Seq<(int, int)>|
        #[trigger] is_open_path(g, p) && p[0].0 == 0 && p.last().0 == g.len() - 1
}

/// An occupied cell of the top row is reached by the path made of itself.
pub proof fn lemma_top_reaches(g: Seq<Seq<u8>>, c: int)
    requires
        occupied(g, 0, c),
    ensures
        reaches(g, 0, c),
{
    let p = seq![(0int, c)];
    assert(is_open_path(g, p));
}

/// Reachability carries over to an occupied neighbour.
pub proof fn lemma_reaches_step(g: Seq<Seq<u8>>, r0: int, c0: int, r: int, c: int)
    requires
        reaches(g, r0, c0),
        occupied(g, r, c),
        adjacent((r0, c0), (r, c)),
    ensures
        reaches(g, r, c),
{
    let p = choose|p: Seq<(int, int)>| #[trigger] is_open_path(g, p) && p[0].0 == 0 && p.last() == (r0, c0);
    let q = p.push((r, c));
    assert forall|k: int| 0 <= k < q.len() implies occupied(g, (#[trigger] q[k]).0, q[k].1) by {
        if k < p.len() {
            assert(q[k] == p[k]);
        }
    }
    assert forall|k: int| 0 <= k < q.len() - 1 implies adjacent(#[trigger] q[k], q[k + 1]) by {
        assert(q[k] == p[k]);
        if k + 1 < p.len() {
            assert(q[k + 1] == p[k + 1]);
        }
    }
    assert(is_open_path(g, q));
    assert(q[0] == p[0]);
}

/// A bottom-row cell that is reached makes the grid percolate.
pub proof fn lemma_bottom_spans(g: Seq<Seq<u8>>, c: int)
    requires
        reaches(g, g.len() - 1, c),
    ensures
        spans(g),
{
    let p = choose|p: Seq<(int, int)>|
        #[trigger] is_open_path(g, p) && p[0].0 == 0 && p.last() == (g.len() - 1, c);
    assert(is_open_path(g, p) && p[0].0 == 0 && p.last().0 == g.len() - 1);
}


/// A grid with no occupied cell never percolates.
pub proof fn lemma_empty_grid_never_spans(g: Seq<Seq<u8>>)
    requires
        is_grid(g),
        filled_with(g, EMPTY),
    ensures
        !spans(g),
{
    if spans(g) {
        let p = choose|p: Seq<(int, int)>|
            #[trigger] is_open_path(g, p) && p[0].0 == 0 && p.last().0 == g.len() - 1;
        assert(occupied(g, p[0].0, p[0].1));
    }
}

/// A grid whose cells are all occupied always percolates, down its first
/// column.
pub proof fn lemma_full_grid_spans(g: Seq<Seq<u8>>)
    requires
        is_grid(g),
        filled_with(g, OCCUPIED),
    ensures
        spans(g),
{
    let p = Seq::new(g.len(), |k: int| (k, 0int));
    assert forall|k: int| 0 <= k < p.len() implies occupied(g, (#[trigger] p[k]).0, p[k].1) by {
        assert(g[k][0] == OCCUPIED);
    }
    assert forall|k: int| 0 <= k < p.len() - 1 implies adjacent(#[trigger] p[k], p[k + 1]) by {}
    assert(is_open_path(g, p));
    assert(p.last() == p[p.len() - 1]);
}

/// A grid of a single row percolates exactly when one of its cells is
/// occupied.
pub proof fn lemma_single_row(g: Seq<Seq<u8>>)
    requires
        is_grid(g),
        g.len() == 1,
    ensures
        spans(g) <==> exists|c: int| 0 <= c < width(g) && #[trigger] g[0][c] == OCCUPIED,
{
    if spans(g) {
        let p = choose|p: Seq<(int, int)>|
            #[trigger] is_open_path(g, p) && p[0].0 == 0 && p.last().0 == g.len() - 1;
        assert(occupied(g, p[0].0, p[0].1));
        assert(g[0][p[0].1] == OCCUPIED);
    }
    if exists|c: int| 0 <= c < width(g) && #[trigger] g[0][c] == OCCUPIED {
        let c = choose|c: int| 0 <= c < width(g) && #[trigger] g[0][c] == OCCUPIED;
        let p = seq![(0int, c)];
        assert(is_open_path(g, p));
    }
}

} // verus!
