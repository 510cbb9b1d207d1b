//! The connectivity test: a depth-first search with an explicit stack and a
//! visited set shared by all seeds of the top row, so that each cell is
//! visited at most once per test.

use crate::grid::{cells, in_bounds, is_grid, occupied, width, OCCUPIED};
use crate::paths::{adjacent, lemma_bottom_spans, lemma_reaches_step, lemma_top_reaches, reaches, spans, is_open_path};
use vstd::prelude::*;

verus! {

/// The model of a visited set: one row of flags per grid row.
pub open spec fn marks(v: &Vec<Vec<bool>>) -> Seq<Seq<bool>> {
    v@.map_values(|row: Vec<bool>| row@)
}

/// Cells that are still unvisited in one row.
pub open spec fn unseen_in_row(row: Seq<bool>) -> nat
    decreases row.len(),
{
    if row.len() == 0 {
        0
    } else {
        unseen_in_row(row.drop_last()) + if row.last() { 0nat } else { 1nat }
    }
}

/// Cells that are still unvisited in the whole set.
pub open spec fn unseen(vis: Seq<Seq<bool>>) -> nat
    decreases vis.len(),
{
    if vis.len() == 0 {
        0
    } else {
        unseen(vis.drop_last()) + unseen_in_row(vis.last())
    }
}

proof fn lemma_row_mark(row: Seq<bool>, c: int)
    requires
        0 <= c < row.len(),
        !row[c],
    ensures
        unseen_in_row(row.update(c, true)) + 1 == unseen_in_row(row),
    decreases row.len(),
{
    let row2 = row.update(c, true);
    if c == row.len() - 1 {
        assert(row2.drop_last() =~= row.drop_last());
    } else {
        lemma_row_mark(row.drop_last(), c);
        assert(row2.drop_last() =~= row.drop_last().update(c, true));
    }
}

proof fn lemma_mark(vis: Seq<Seq<bool>>, r: int, c: int)
    requires
        0 <= r < vis.len(),
        0 <= c < vis[r].len(),
        !vis[r][c],
    ensures
        unseen(vis.update(r, vis[r].update(c, true))) + 1 == unseen(vis),
    decreases vis.len(),
{
    let vis2 = vis.update(r, vis[r].update(c, true));
    if r == vis.len() - 1 {
        assert(vis2.drop_last() =~= vis.drop_last());
        lemma_row_mark(vis[r], c);
    } else {
        lemma_mark(vis.drop_last(), r, c);
        assert(vis2.drop_last() =~= vis.drop_last().update(r, vis[r].update(c, true)));
    }
}

/// A position that lies outside every grid.
pub open spec fn nowhere() -> (int, int) {
    (-1, -1)
}

/// Every occupied neighbour of `(r, c)` has been visited.
#[verifier::opaque]
pub open spec fn settled(g: Seq<Seq<u8>>, vis: Seq<Seq<bool>>, r: int, c: int) -> bool {
    &&& occupied(g, r - 1, c) ==> vis[r - 1][c]
    &&& occupied(g, r + 1, c) ==> vis[r + 1][c]
    &&& occupied(g, r, c - 1) ==> vis[r][c - 1]
    &&& occupied(g, r, c + 1) ==> vis[r][c + 1]
}

/// The cell `(r, c)` waits on the stack.
pub open spec fn pending(stack: Seq<(usize, usize)>, r: int, c: int) -> bool {
    exists|k: int| 0 <= k < stack.len() && (#[trigger] stack[k]).0 as int == r && stack[k].1 as int == c
}

/// Every visited flag of `a` is also set in `b`.
pub open spec fn grows(a: Seq<Seq<bool>>, b: Seq<Seq<bool>>) -> bool {
    forall|r: int, c: int| 0 <= r < a.len() && 0 <= c < a[r].len() && #[trigger] a[r][c] ==> b[r][c]
}

/// What the search keeps true: visited cells are occupied, reached from the
/// top row and above the bottom row; each is settled, on the stack, or the
/// cell `hold` that is being expanded; the stack holds visited cells only.
pub open spec fn search_inv(
    g: Seq<Seq<u8>>,
    vis: Seq<Seq<bool>>,
    stack: Seq<(usize, usize)>,
    hold: (int, int),
) -> bool {
    &&& vis.len() == g.len()
    &&& forall|r: int| 0 <= r < vis.len() ==> (#[trigger] vis[r]).len() == width(g)
    &&& forall|r: int, c: int|
        in_bounds(g, r, c) && #[trigger] vis[r][c] ==> {
            &&& occupied(g, r, c)
            &&& reaches(g, r, c)
            &&& r < g.len() - 1
            &&& (settled(g, vis, r, c) || pending(stack, r, c) || (r, c) == hold)
        }
    &&& forall|k: int|
        0 <= k < stack.len() ==> {
            &&& in_bounds(g, (#[trigger] stack[k]).0 as int, stack[k].1 as int)
            &&& vis[stack[k].0 as int][stack[k].1 as int]
        }
}

proof fn lemma_settled_grows(g: Seq<Seq<u8>>, a: Seq<Seq<bool>>, b: Seq<Seq<bool>>, r: int, c: int)
    requires
        is_grid(g),
        a.len() == g.len(),
        forall|i: int| 0 <= i < a.len() ==> (#[trigger] a[i]).len() == width(g),
        grows(a, b),
        settled(g, a, r, c),
    ensures
        settled(g, b, r, c),
{
    reveal(settled);
    if occupied(g, r - 1, c) {
        assert(a[r - 1][c]);
    }
    if occupied(g, r + 1, c) {
        assert(a[r + 1][c]);
    }
    if occupied(g, r, c - 1) {
        assert(a[r][c - 1]);
    }
    if occupied(g, r, c + 1) {
        assert(a[r][c + 1]);
    }
}


/// Popping the top of the stack turns it into the held cell.
proof fn lemma_hold(g: Seq<Seq<u8>>, vis: Seq<Seq<bool>>, stack: Seq<(usize, usize)>)
    requires
        search_inv(g, vis, stack, nowhere()),
        stack.len() > 0,
    ensures
        search_inv(g, vis, stack.drop_last(), (stack.last().0 as int, stack.last().1 as int)),
{
    let s2 = stack.drop_last();
    let h = (stack.last().0 as int, stack.last().1 as int);
    assert forall|r: int, c: int| in_bounds(g, r, c) && #[trigger] vis[r][c] implies
        (settled(g, vis, r, c) || pending(s2, r, c) || (r, c) == h) by {
        if !settled(g, vis, r, c) {
            let k = choose|k: int| 0 <= k < stack.len() && (#[trigger] stack[k]).0 as int == r && stack[k].1 as int == c;
            if k < s2.len() {
                assert(s2[k] == stack[k]);
                assert(pending(s2, r, c));
            } else {
                assert(stack.last() == stack[k]);
            }
        }
    }
    assert forall|k: int| 0 <= k < s2.len() implies {
        &&& in_bounds(g, (#[trigger] s2[k]).0 as int, s2[k].1 as int)
        &&& vis[s2[k].0 as int][s2[k].1 as int]
    } by {
        assert(s2[k] == stack[k]);
    }
}

/// Once the held cell is settled it need not be held any more.
proof fn lemma_release(g: Seq<Seq<u8>>, vis: Seq<Seq<bool>>, stack: Seq<(usize, usize)>, h: (int, int))
    requires
        search_inv(g, vis, stack, h),
        settled(g, vis, h.0, h.1),
    ensures
        search_inv(g, vis, stack, nowhere()),
{
}

/// Marks the unvisited occupied cell `(r, c)` and pushes it, unless it lies
/// in the bottom row: then the grid percolates and nothing changes.
fn visit(
    grid: &Vec<Vec<u8>>,
    visited: &mut Vec<Vec<bool>>,
    stack: &mut Vec<(usize, usize)>,
    r: usize,
    c: usize,
    Ghost(hold): Ghost<(int, int)>,
) -> (found: bool)
    requires
        is_grid(cells(grid)),
        search_inv(cells(grid), marks(old(visited)), old(stack)@, hold),
        occupied(cells(grid), r as int, c as int),
        reaches(cells(grid), r as int, c as int),
        !marks(old(visited))[r as int][c as int],
    ensures
        found == (r == grid@.len() - 1),
        found ==> spans(cells(grid)),
        !found ==> {
            &&& search_inv(cells(grid), marks(final(visited)), final(stack)@, hold)
            &&& unseen(marks(final(visited))) + 1 == unseen(marks(old(visited)))
            &&& final(stack)@.len() == old(stack)@.len() + 1
            &&& grows(marks(old(visited)), marks(final(visited)))
            &&& marks(final(visited))[r as int][c as int]
        },
{
    let ghost g = cells(grid);
    let ghost vis0 = marks(visited);
    let ghost s0 = stack@;
    if r == grid.len() - 1 {
        proof {
            lemma_bottom_spans(g, c as int);
        }
        return true;
    }
    visited[r][c] = true;
    stack.push((r, c));
    let ghost vis1 = marks(visited);
    let ghost s1 = stack@;
    proof {
        assert(vis1 =~= vis0.update(r as int, vis0[r as int].update(c as int, true)));
        lemma_mark(vis0, r as int, c as int);
        assert(grows(vis0, vis1));
        assert forall|i: int| 0 <= i < vis1.len() implies (#[trigger] vis1[i]).len() == width(g) by {
            assert(vis0[i].len() == width(g));
        }
        assert forall|i: int, j: int| in_bounds(g, i, j) && #[trigger] vis1[i][j] implies {
            &&& occupied(g, i, j)
            &&& reaches(g, i, j)
            &&& i < g.len() - 1
            &&& (settled(g, vis1, i, j) || pending(s1, i, j) || (i, j) == hold)
        } by {
            if i == r && j == c {
                assert(s1[s0.len() as int] == (r, c));
            } else {
                assert(vis0[i][j]);
                if settled(g, vis0, i, j) {
                    lemma_settled_grows(g, vis0, vis1, i, j);
                } else if pending(s0, i, j) {
                    let k = choose|k: int| 0 <= k < s0.len() && (#[trigger] s0[k]).0 as int == i && s0[k].1 as int == j;
                    assert(s1[k] == s0[k]);
                }
            }
        }
        assert forall|k: int| 0 <= k < s1.len() implies {
            &&& in_bounds(g, (#[trigger] s1[k]).0 as int, s1[k].1 as int)
            &&& vis1[s1[k].0 as int][s1[k].1 as int]
        } by {
            if k < s0.len() {
                assert(s1[k] == s0[k]);
            }
        }
    }
    false
}


proof fn lemma_grows_trans(g: Seq<Seq<u8>>, a: Seq<Seq<bool>>, b: Seq<Seq<bool>>, c: Seq<Seq<bool>>)
    requires
        a.len() == g.len(),
        forall|i: int| 0 <= i < a.len() ==> (#[trigger] a[i]).len() == width(g),
        b.len() == g.len(),
        forall|i: int| 0 <= i < b.len() ==> (#[trigger] b[i]).len() == width(g),
        grows(a, b),
        grows(b, c),
    ensures
        grows(a, c),
{
    assert forall|r: int, k: int| 0 <= r < a.len() && 0 <= k < a[r].len() && #[trigger] a[r][k] implies c[r][k] by {
        assert(a[r].len() == width(g));
        assert(b[r].len() == width(g));
        assert(b[r][k]);
    }
}

/// Visits the neighbour `(nr, nc)` of the held cell when it is occupied and
/// not yet visited.
fn consider(
    grid: &Vec<Vec<u8>>,
    visited: &mut Vec<Vec<bool>>,
    stack: &mut Vec<(usize, usize)>,
    nr: usize,
    nc: usize,
    Ghost(hold): Ghost<(int, int)>,
) -> (found: bool)
    requires
        is_grid(cells(grid)),
        search_inv(cells(grid), marks(old(visited)), old(stack)@, hold),
        reaches(cells(grid), hold.0, hold.1),
        adjacent(hold, (nr as int, nc as int)),
        in_bounds(cells(grid), nr as int, nc as int),
    ensures
        found ==> spans(cells(grid)),
        !found ==> {
            &&& search_inv(cells(grid), marks(final(visited)), final(stack)@, hold)
            &&& grows(marks(old(visited)), marks(final(visited)))
            &&& occupied(cells(grid), nr as int, nc as int) ==> marks(final(visited))[nr as int][nc as int]
            &&& 5 * unseen(marks(final(visited))) + final(stack)@.len()
                <= 5 * unseen(marks(old(visited))) + old(stack)@.len()
        },
{
    let ghost g = cells(grid);
    let ghost vis = marks(visited);
    assert(g[nr as int] == grid@[nr as int]@);
    assert(vis[nr as int] == visited@[nr as int]@);
    if grid[nr][nc] == OCCUPIED && !visited[nr][nc] {
        proof {
            lemma_reaches_step(g, hold.0, hold.1, nr as int, nc as int);
        }
        visit(grid, visited, stack, nr, nc, Ghost(hold))
    } else {
        false
    }
}

/// Expands cells from the stack until it is empty or a bottom-row cell is
/// reached.
fn explore(grid: &Vec<Vec<u8>>, visited: &mut Vec<Vec<bool>>, stack: &mut Vec<(usize, usize)>) -> (found: bool)
    requires
        is_grid(cells(grid)),
        search_inv(cells(grid), marks(old(visited)), old(stack)@, nowhere()),
    ensures
        found ==> spans(cells(grid)),
        !found ==> {
            &&& search_inv(cells(grid), marks(final(visited)), final(stack)@, nowhere())
            &&& final(stack)@.len() == 0
            &&& grows(marks(old(visited)), marks(final(visited)))
        },
{
    let ghost g = cells(grid);
    let ghost vis0 = marks(visited);
    let n = grid.len();
    let m = grid[0].len();
    while stack.len() > 0
        invariant
            g == cells(grid),
            n == g.len(),
            m == width(g),
            is_grid(g),
            search_inv(g, marks(visited), stack@, nowhere()),
            grows(vis0, marks(visited)),
            vis0.len() == g.len(),
            forall|i: int| 0 <= i < vis0.len() ==> (#[trigger] vis0[i]).len() == width(g),
        decreases 5 * unseen(marks(visited)) + stack@.len(),
    {
        let ghost vis_a = marks(visited);
        let ghost s_a = stack@;
        proof {
            lemma_hold(g, vis_a, s_a);
        }
        let (r, c) = stack.pop().unwrap();
        let ghost h = (r as int, c as int);
        assert(stack@ =~= s_a.drop_last());
        assert(s_a[s_a.len() - 1] == s_a.last());
        assert(in_bounds(g, r as int, c as int));
        assert(vis_a[r as int][c as int]);
        if r > 0 && consider(grid, visited, stack, r - 1, c, Ghost(h)) {
            return true;
        }
        if r + 1 < n && consider(grid, visited, stack, r + 1, c, Ghost(h)) {
            return true;
        }
        if c > 0 && consider(grid, visited, stack, r, c - 1, Ghost(h)) {
            return true;
        }
        if c + 1 < m && consider(grid, visited, stack, r, c + 1, Ghost(h)) {
            return true;
        }
        proof {
            let vis_e = marks(visited);
            lemma_grows_trans(g, vis0, vis_a, vis_e);
            assert(occupied(g, r - 1, c as int) ==> vis_e[r - 1][c as int]);
            assert(occupied(g, r + 1, c as int) ==> vis_e[r + 1][c as int]);
            assert(occupied(g, r as int, c - 1) ==> vis_e[r as int][c - 1]);
            assert(occupied(g, r as int, c + 1) ==> vis_e[r as int][c + 1]);
            reveal(settled);
            lemma_release(g, vis_e, stack@, h);
        }
    }
    false
}


/// Under a closed search state, every cell of an open path that starts in
/// the top row is visited.
proof fn lemma_path_seen(g: Seq<Seq<u8>>, vis: Seq<Seq<bool>>, p: Seq<(int, int)>, k: int)
    requires
        is_grid(g),
        search_inv(g, vis, seq![], nowhere()),
        forall|c: int| 0 <= c < width(g) && occupied(g, 0, c) ==> #[trigger] vis[0][c],
        is_open_path(g, p),
        p[0].0 == 0,
        0 <= k < p.len(),
    ensures
        vis[p[k].0][p[k].1],
    decreases k,
{
    assert(occupied(g, p[k].0, p[k].1));
    if k > 0 {
        lemma_path_seen(g, vis, p, k - 1);
        let a = p[k - 1];
        assert(occupied(g, a.0, a.1));
        assert(adjacent(a, p[k]));
        assert(!pending(seq![], a.0, a.1));
        assert(settled(g, vis, a.0, a.1));
        reveal(settled);
    }
}

/// When every visited cell is settled, no visited cell lies in the bottom
/// row and every occupied top-row cell is visited, the grid does not
/// percolate: an open path from the top row never leaves the visited cells.
proof fn lemma_closed_no_span(g: Seq<Seq<u8>>, vis: Seq<Seq<bool>>)
    requires
        is_grid(g),
        search_inv(g, vis, seq![], nowhere()),
        forall|c: int| 0 <= c < width(g) && occupied(g, 0, c) ==> #[trigger] vis[0][c],
    ensures
        !spans(g),
{
    if spans(g) {
        let p = choose|p: Seq<(int, int)>|
            #[trigger] is_open_path(g, p) && p[0].0 == 0 && p.last().0 == g.len() - 1;
        lemma_path_seen(g, vis, p, p.len() - 1);
        assert(p[p.len() - 1] == p.last());
        assert(occupied(g, p.last().0, p.last().1));
    }
}

/// A visited set of `n` rows and `m` columns with no cell visited.
fn fresh_marks(n: usize, m: usize) -> (v: Vec<Vec<bool>>)
    ensures
        marks(&v).len() == n,
        forall|r: int| 0 <= r < n ==> (#[trigger] marks(&v)[r]).len() == m,
        forall|r: int, c: int| 0 <= r < n && 0 <= c < m ==> !(#[trigger] marks(&v)[r][c]),
{
    let mut v: Vec<Vec<bool>> = Vec::new();
    for i in 0..n
        invariant
            v@.len() == i,
            forall|r: int| 0 <= r < i ==> (#[trigger] v@[r])@.len() == m,
            forall|r: int, c: int| 0 <= r < i && 0 <= c < m ==> !(#[trigger] v@[r]@[c]),
    {
        let mut row: Vec<bool> = Vec::new();
        for j in 0..m
            invariant
                row@.len() == j,
                forall|c: int| 0 <= c < j ==> !(#[trigger] row@[c]),
        {
            row.push(false);
        }
        v.push(row);
    }
    assert forall|r: int| 0 <= r < n implies #[trigger] marks(&v)[r] == v@[r]@ by {}
    v
}

/// Decides whether the grid percolates: whether an open path of 4-adjacent
/// occupied cells joins its top row to its bottom row. Each occupied cell of
/// the top row seeds a search, and all seeds share one visited set, so each
/// cell is visited at most once.
pub fn percolates(grid: &Vec<Vec<u8>>) -> (r: bool)
    requires
        is_grid(cells(grid)),
    ensures
        r == spans(cells(grid)),
{
    let ghost g = cells(grid);
    let n = grid.len();
    let m = grid[0].len();
    let mut visited = fresh_marks(n, m);
    let mut stack: Vec<(usize, usize)> = Vec::new();
    assert(search_inv(g, marks(&visited), stack@, nowhere()));
    for j in 0..m
        invariant
            g == cells(grid),
            is_grid(g),
            n == g.len(),
            m == width(g),
            search_inv(g, marks(&visited), stack@, nowhere()),
            stack@.len() == 0,
            forall|c: int| 0 <= c < j && occupied(g, 0, c) ==> #[trigger] marks(&visited)[0][c],
    {
        assert(g[0] == grid@[0]@);
        assert(marks(&visited)[0] == visited@[0]@);
        if grid[0][j] == OCCUPIED && !visited[0][j] {
            let ghost vis0 = marks(&visited);
            proof {
                lemma_top_reaches(g, j as int);
            }
            if visit(grid, &mut visited, &mut stack, 0, j, Ghost(nowhere())) {
                return true;
            }
            let ghost vis1 = marks(&visited);
            if explore(grid, &mut visited, &mut stack) {
                return true;
            }
            proof {
                let vis2 = marks(&visited);
                assert(vis1[0][j as int]);
                assert forall|c: int| 0 <= c <= j && occupied(g, 0, c) implies #[trigger] vis2[0][c] by {
                    if c < j {
                        assert(vis0[0][c]);
                        assert(vis1[0][c]);
                    }
                }
            }
        }
    }
    proof {
        assert(stack@ =~= seq![]);
        lemma_closed_no_span(g, marks(&visited));
    }
    false
}

} // verus!
