//! The occupancy grid, its mathematical model, and random generation.

use rand::rngs::StdRng;
use rand::Rng;
use vstd::prelude::*;

verus! {

/// A cell value that marks an occupied site.
pub const OCCUPIED: u8 = 1;

/// A cell value that marks an empty site.
pub const EMPTY: u8 = 0;

/// The model of a grid: its rows, each a sequence of cell values.
pub open spec fn cells(g: &Vec<Vec<u8>>) -> Seq<Seq<u8>> {
    g@.map_values(|row: Vec<u8>| row@)
}

/// A grid has at least one row and one column, and all rows are equally wide.
pub open spec fn is_grid(g: Seq<Seq<u8>>) -> bool {
    &&& g.len() >= 1
    &&& g[0].len() >= 1
    &&& forall|r: int| 0 <= r < g.len() ==> (#[trigger] g[r]).len() == g[0].len()
}

/// A grid of `n` rows and `m` columns.
pub open spec fn has_shape(g: Seq<Seq<u8>>, n: int, m: int) -> bool {
    &&& g.len() == n
    &&& forall|r: int| 0 <= r < n ==> (#[trigger] g[r]).len() == m
}

/// Number of columns of a grid.
pub open spec fn width(g: Seq<Seq<u8>>) -> int {
    g[0].len() as int
}

/// The cell at row `r`, column `c` lies inside the grid.
pub open spec fn in_bounds(g: Seq<Seq<u8>>, r: int, c: int) -> bool {
    0 <= r < g.len() && 0 <= c < width(g)
}

/// The cell at row `r`, column `c` lies inside the grid and is occupied.
pub open spec fn occupied(g: Seq<Seq<u8>>, r: int, c: int) -> bool {
    in_bounds(g, r, c) && g[r][c] == OCCUPIED
}

/// Every cell of the grid holds `v`.
pub open spec fn filled_with(g: Seq<Seq<u8>>, v: u8) -> bool {
    forall|r: int, c: int| in_bounds(g, r, c) ==> #[trigger] g[r][c] == v
}

/// Every cell of the grid is either empty or occupied.
pub open spec fn is_binary(g: Seq<Seq<u8>>) -> bool {
    forall|r: int, c: int|
        in_bounds(g, r, c) ==> (#[trigger] g[r][c] == EMPTY || g[r][c] == OCCUPIED)
}

/// rand's standard seedable generator, carried through as an opaque value.
#[verifier::external_type_specification]
#[verifier::external_body]
pub struct ExStdRng(StdRng);

/// Relies on rand's `Rng::gen_range` over the half-open range `0..bound`:
/// it yields a uniform value inside that range and panics only when the
/// range is empty, which `requires` leaves out.
#[verifier::external_body]
fn draw_below(rng: &mut StdRng, bound: usize) -> (r: usize)
    requires
        bound > 0,
    ensures
        r < bound,
{
    rng.gen_range(0..bound)
}

/// The cell value that a draw gives: occupied when it falls below `p_num`.
pub open spec fn cell_of(draw: usize, p_num: usize) -> u8 {
    if draw < p_num {
        OCCUPIED
    } else {
        EMPTY
    }
}

/// Turns a matrix of uniform draws into a grid: the cell at `(r, c)` is
/// occupied exactly when the draw at `(r, c)` falls below `p_num`.
pub fn threshold_grid(draws: &Vec<Vec<usize>>, p_num: usize) -> (g: Vec<Vec<u8>>)
    ensures
        g@.len() == draws@.len(),
        forall|r: int| 0 <= r < g@.len() ==> (#[trigger] cells(&g)[r]).len() == draws@[r]@.len(),
        forall|r: int, c: int| 0 <= r < g@.len() && 0 <= c < draws@[r]@.len() ==>
            #[trigger] cells(&g)[r][c] == cell_of(draws@[r]@[c], p_num),
{
    let mut g: Vec<Vec<u8>> = Vec::new();
    for i in 0..draws.len()
        invariant
            g@.len() == i,
            i <= draws@.len(),
            forall|r: int| 0 <= r < i ==> (#[trigger] g@[r])@.len() == draws@[r]@.len(),
            forall|r: int, c: int| 0 <= r < i && 0 <= c < draws@[r]@.len() ==>
                #[trigger] g@[r]@[c] == cell_of(draws@[r]@[c], p_num),
    {
        let src = &draws[i];
        let mut row: Vec<u8> = Vec::new();
        for j in 0..src.len()
            invariant
                row@.len() == j,
                j <= src@.len(),
                forall|c: int| 0 <= c < j ==> #[trigger] row@[c] == cell_of(src@[c], p_num),
        {
            if src[j] < p_num {
                row.push(OCCUPIED);
            } else {
                row.push(EMPTY);
            }
        }
        g.push(row);
    }
    assert forall|r: int| 0 <= r < g@.len() implies #[trigger] cells(&g)[r] == g@[r]@ by {}
    g
}

/// Draws an `n` by `m` matrix of values, each uniform in `0..p_den`.
fn draw_matrix(n: usize, m: usize, p_den: usize, rng: &mut StdRng) -> (d: Vec<Vec<usize>>)
    requires
        p_den >= 1,
    ensures
        d@.len() == n,
        forall|r: int| 0 <= r < n ==> (#[trigger] d@[r])@.len() == m,
        forall|r: int, c: int| 0 <= r < n && 0 <= c < m ==> #[trigger] d@[r]@[c] < p_den,
{
    let mut d: Vec<Vec<usize>> = Vec::new();
    for i in 0..n
        invariant
            d@.len() == i,
            p_den >= 1,
            forall|r: int| 0 <= r < i ==> (#[trigger] d@[r])@.len() == m,
            forall|r: int, c: int| 0 <= r < i && 0 <= c < m ==> #[trigger] d@[r]@[c] < p_den,
    {
        let mut row: Vec<usize> = Vec::new();
        for j in 0..m
            invariant
                row@.len() == j,
                p_den >= 1,
                forall|c: int| 0 <= c < j ==> #[trigger] row@[c] < p_den,
        {
            row.push(draw_below(rng, p_den));
        }
        d.push(row);
    }
    d
}

/// Generates an `n` by `m` grid in which each cell is occupied independently
/// with probability `p_num / p_den`: a cell is occupied when a uniform draw
/// from `0..p_den` falls below `p_num`. With `p_num == 0` no cell is
/// occupied; with `p_num == p_den` every cell is.
pub fn generate_grid(n: usize, m: usize, p_num: usize, p_den: usize, rng: &mut StdRng) -> (g: Vec<Vec<u8>>)
    requires
        n >= 1,
        m >= 1,
        p_den >= 1,
        p_num <= p_den,
    ensures
        has_shape(cells(&g), n as int, m as int),
        is_grid(cells(&g)),
        is_binary(cells(&g)),
        p_num == 0 ==> filled_with(cells(&g), EMPTY),
        p_num == p_den ==> filled_with(cells(&g), OCCUPIED),
{
    let d = draw_matrix(n, m, p_den, rng);
    let g = threshold_grid(&d, p_num);
    assert(cells(&g)[0].len() == m);
    g
}

} // verus!
