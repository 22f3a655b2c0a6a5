//! The combinatorial side of piece generation: which lattice corners may be
//! jittered, which cells each interior edge separates, the seeded assignment
//! of knob shapes to edges, and how each cell's outline is put together from
//! corners and knobs so that neighbours share their edges exactly.
//!
//! Points are a type parameter: the shapes themselves are computed by the
//! caller, and here they are only placed, copied and reversed.
use rand::rngs::StdRng;
use vstd::prelude::*;
use crate::interop::GridSize;

verus! {

#[verifier::external_type_specification]
#[verifier::external_body]
pub struct ExStdRng(StdRng);

/// Relies on rand's `SliceRandom::shuffle` (a Fisher-Yates pass of swaps
/// whose draws depend only on the length): the result is a permutation.
#[verifier::external_body]
fn shuffle_indices(v: &mut Vec<usize>, rng: &mut StdRng)
    ensures
        final(v)@.to_multiset() == old(v)@.to_multiset(),
{
    rand::seq::SliceRandom::shuffle(v.as_mut_slice(), rng);
}

/// Relies on rand's `Rng::gen::<bool>`: one fair coin, nothing promised.
#[verifier::external_body]
fn draw_flip(rng: &mut StdRng) -> (r: bool) {
    rand::Rng::gen::<bool>(rng)
}

/// `s` read backwards.
pub open spec fn reversed<T>(s: Seq<T>) -> Seq<T> {
    Seq::new(s.len(), |i: int| s[s.len() - 1 - i])
}

/// Number of interior edges between horizontally adjacent cells.
pub open spec fn vertical_count(pieces: GridSize) -> int {
    pieces.y * (pieces.x - 1)
}

/// Number of interior edges, vertical ones first.
pub open spec fn edge_count(pieces: GridSize) -> int {
    vertical_count(pieces) + pieces.x * (pieces.y - 1)
}

/// The grid is non-empty and its lattice of corners fits in memory.
pub open spec fn grid_ok(pieces: GridSize) -> bool {
    &&& pieces.x >= 1
    &&& pieces.y >= 1
    &&& (pieces.x + 1) * (pieces.y + 1) <= usize::MAX
    &&& 2 * pieces.x * pieces.y <= usize::MAX
}

proof fn lemma_grid_bounds(pieces: GridSize)
    requires
        grid_ok(pieces),
    ensures
        pieces.x + 1 <= usize::MAX,
        pieces.x * pieces.y <= usize::MAX,
        0 <= vertical_count(pieces) <= edge_count(pieces) <= usize::MAX,
{
    assert(pieces.x + 1 <= (pieces.x + 1) * (pieces.y + 1)) by (nonlinear_arith)
        requires
            pieces.y >= 1,
    ;
    assert(pieces.x * pieces.y <= 2 * pieces.x * pieces.y) by (nonlinear_arith)
        requires
            pieces.x >= 1,
            pieces.y >= 1,
    ;
    assert(0 <= pieces.y * (pieces.x - 1)) by (nonlinear_arith)
        requires
            pieces.x >= 1,
            pieces.y >= 1,
    ;
    assert(0 <= pieces.x * (pieces.y - 1)) by (nonlinear_arith)
        requires
            pieces.x >= 1,
            pieces.y >= 1,
    ;
    assert(pieces.y * (pieces.x - 1) + pieces.x * (pieces.y - 1) <= 2 * pieces.x * pieces.y)
        by (nonlinear_arith)
        requires
            pieces.x >= 1,
            pieces.y >= 1,
    ;
}

/// Edge `i`, in the fixed order: vertical edges column by column, then
/// horizontal edges row by row. Returns whether it is vertical, the cell on
/// its left (or above), and the cell on its right (or below).
pub open spec fn edge_cells_spec(pieces: GridSize, i: int) -> (bool, int, int) {
    let v = vertical_count(pieces);
    if i < v {
        let tile = i / pieces.y as int + (i % pieces.y as int) * pieces.x;
        (true, tile, tile + 1)
    } else {
        let tile = i - v;
        (false, tile, tile + pieces.x)
    }
}

/// Where the knob shape of one interior edge goes.
#[derive(Clone, Copy, Debug, PartialEq, Eq, Structural)]
pub struct EdgePlacement {
    pub vertical: bool,
    /// The cell on the left of a vertical edge, above a horizontal one.
    pub tile: usize,
    /// The cell on the right of a vertical edge, below a horizontal one.
    pub other: usize,
    /// Which of the evenly spread knob positions this edge takes.
    pub slot: usize,
    /// Whether the knob bulges to the other side.
    pub flip: bool,
}

/// Whether lattice corner `i` (row-major over `(x + 1) * (y + 1)` corners) is
/// off the outer boundary, so that it may be jittered.
pub fn is_interior_corner(pieces: GridSize, i: usize) -> (r: bool)
    requires
        grid_ok(pieces),
    ensures
        r == (0 < (i as int) % (pieces.x + 1) < pieces.x && 0 < (i as int) / (pieces.x + 1) < pieces.y),
{
    proof {
        lemma_grid_bounds(pieces);
    }
    let w = pieces.x + 1;
    let x = i % w;
    let y = i / w;
    0 < x && x < pieces.x && 0 < y && y < pieces.y
}

/// The number of vertical interior edges and of all interior edges.
pub fn edge_counts(pieces: GridSize) -> (r: (usize, usize))
    requires
        grid_ok(pieces),
    ensures
        r.0 == vertical_count(pieces),
        r.1 == edge_count(pieces),
{
    proof {
        lemma_grid_bounds(pieces);
    }
    let v = pieces.y * (pieces.x - 1);
    (v, v + pieces.x * (pieces.y - 1))
}

/// The cells on either side of interior edge `i`.
pub fn edge_cells(pieces: GridSize, i: usize) -> (r: (bool, usize, usize))
    requires
        grid_ok(pieces),
        i < edge_count(pieces),
    ensures
        (r.0, r.1 as int, r.2 as int) == edge_cells_spec(pieces, i as int),
        r.1 < pieces.x * pieces.y,
        r.2 < pieces.x * pieces.y,
{
    proof {
        lemma_grid_bounds(pieces);
    }
    let (v, n) = edge_counts(pieces);
    if i < v {
        let col = i / pieces.y;
        let row = i % pieces.y;
        proof {
            assert(col < pieces.x - 1) by (nonlinear_arith)
                requires
                    col == (i as int) / (pieces.y as int),
                    i < pieces.y * (pieces.x - 1),
                    pieces.y >= 1,
            ;
            assert(row * pieces.x + col + 1 < pieces.x * pieces.y) by (nonlinear_arith)
                requires
                    row < pieces.y,
                    col + 1 < pieces.x,
            ;
        }
        let tile = col + row * pieces.x;
        (true, tile, tile + 1)
    } else {
        let tile = i - v;
        proof {
            assert(tile + pieces.x < pieces.x * pieces.y) by (nonlinear_arith)
                requires
                    tile < pieces.x * (pieces.y - 1),
            ;
        }
        (false, tile, tile + pieces.x)
    }
}

/// Draws, from `rng`, which knob position each interior edge takes (a
/// shuffle of all positions) and then, edge by edge, whether its knob is
/// flipped. Edges come in the order of `edge_cells`.
pub fn plan_edges(pieces: GridSize, rng: &mut StdRng) -> (r: Vec<EdgePlacement>)
    requires
        grid_ok(pieces),
    ensures
        r@.len() == edge_count(pieces),
        forall|i: int|
            0 <= i < r@.len() ==> ((#[trigger] r@[i]).vertical, r@[i].tile as int, r@[i].other as int)
                == edge_cells_spec(pieces, i),
        r@.map_values(|e: EdgePlacement| e.slot).to_multiset() == Seq::new(
            edge_count(pieces) as nat,
            |k: int| k as usize,
        ).to_multiset(),
{
    let (_, n) = edge_counts(pieces);
    let mut order: Vec<usize> = Vec::new();
    let mut k: usize = 0;
    while k < n
        invariant
            k <= n,
            order@ == Seq::new(k as nat, |j: int| j as usize),
        decreases n - k,
    {
        order.push(k);
        assert(order@ =~= Seq::new((k + 1) as nat, |j: int| j as usize));
        k = k + 1;
    }
    let ghost identity = order@;
    shuffle_indices(&mut order, rng);
    proof {
        vstd::seq_lib::to_multiset_len(identity);
        vstd::seq_lib::to_multiset_len(order@);
    }
    let mut plan: Vec<EdgePlacement> = Vec::new();
    let mut i: usize = 0;
    while i < n
        invariant
            grid_ok(pieces),
            n == edge_count(pieces),
            order@.len() == n,
            i <= n,
            plan@.len() == i,
            forall|j: int|
                0 <= j < i ==> ((#[trigger] plan@[j]).vertical, plan@[j].tile as int, plan@[j].other as int)
                    == edge_cells_spec(pieces, j) && plan@[j].slot == order@[j],
        decreases n - i,
    {
        let (vertical, tile, other) = edge_cells(pieces, i);
        let flip = draw_flip(rng);
        plan.push(EdgePlacement { vertical, tile, other, slot: order[i], flip });
        i = i + 1;
    }
    assert(plan@.map_values(|e: EdgePlacement| e.slot) =~= order@);
    plan
}

/// The knob on the side of cell `(x, y)`: `s` is 0 for the top (the side
/// towards the previous row), 1 right, 2 bottom, 3 left. Boundary sides carry
/// none. A knob is read forwards by the cell right of or below its edge, and
/// backwards by the other.
pub open spec fn side_knob<T>(pieces: GridSize, knobs: Seq<Seq<T>>, x: int, y: int, s: int) -> Seq<T> {
    let v = vertical_count(pieces);
    if s == 0 {
        if y > 0 { knobs[v + (y - 1) * pieces.x + x] } else { seq![] }
    } else if s == 1 {
        if x + 1 < pieces.x { knobs[x * pieces.y + y] } else { seq![] }
    } else if s == 2 {
        if y + 1 < pieces.y { reversed(knobs[v + y * pieces.x + x]) } else { seq![] }
    } else {
        if x > 0 { reversed(knobs[(x - 1) * pieces.y + y]) } else { seq![] }
    }
}

/// Corner `s` of cell `(x, y)`, clockwise from its first corner.
pub open spec fn cell_corner<T>(pieces: GridSize, corners: Seq<T>, x: int, y: int, s: int) -> T {
    let w = pieces.x + 1;
    let i = y * w + x;
    if s == 0 {
        corners[i]
    } else if s == 1 {
        corners[i + 1]
    } else if s == 2 {
        corners[i + 1 + w]
    } else {
        corners[i + w]
    }
}

/// Side `s` of cell `(x, y)`: its starting corner, then its knob.
pub open spec fn cell_side<T>(
    pieces: GridSize,
    corners: Seq<T>,
    knobs: Seq<Seq<T>>,
    x: int,
    y: int,
    s: int,
) -> Seq<T> {
    seq![cell_corner(pieces, corners, x, y, s)] + side_knob(pieces, knobs, x, y, s)
}

/// The closed outline of cell `(x, y)`: its four sides in order.
pub open spec fn outline_spec<T>(
    pieces: GridSize,
    corners: Seq<T>,
    knobs: Seq<Seq<T>>,
    x: int,
    y: int,
) -> Seq<T> {
    cell_side(pieces, corners, knobs, x, y, 0) + cell_side(pieces, corners, knobs, x, y, 1)
        + cell_side(pieces, corners, knobs, x, y, 2) + cell_side(pieces, corners, knobs, x, y, 3)
}

/// The points along side `s` of cell `(x, y)`, from its starting corner to
/// the corner where the next side starts.
pub open spec fn side_path<T>(
    pieces: GridSize,
    corners: Seq<T>,
    knobs: Seq<Seq<T>>,
    x: int,
    y: int,
    s: int,
) -> Seq<T> {
    cell_side(pieces, corners, knobs, x, y, s).push(
        cell_corner(pieces, corners, x, y, (s + 1) % 4),
    )
}

fn append<T: Copy>(out: &mut Vec<T>, src: &Vec<T>, backwards: bool)
    ensures
        final(out)@ == old(out)@ + if backwards {
            reversed(src@)
        } else {
            src@
        },
{
    let ghost start = out@;
    let n = src.len();
    let mut k: usize = 0;
    while k < n
        invariant
            n == src@.len(),
            k <= n,
            out@ == start + if backwards {
                reversed(src@).subrange(0, k as int)
            } else {
                src@.subrange(0, k as int)
            },
        decreases n - k,
    {
        if backwards {
            out.push(src[n - 1 - k]);
            assert(reversed(src@).subrange(0, k + 1) =~= reversed(src@).subrange(0, k as int).push(
                src@[n - 1 - k],
            ));
        } else {
            out.push(src[k]);
            assert(src@.subrange(0, k + 1) =~= src@.subrange(0, k as int).push(src@[k as int]));
        }
        k = k + 1;
    }
    assert(reversed(src@).subrange(0, n as int) =~= reversed(src@));
    assert(src@.subrange(0, n as int) =~= src@);
}

/// The outline of cell `(x, y)`.
#[verifier::rlimit(40)]
fn cell_outline<T: Copy>(pieces: GridSize, corners: &Vec<T>, knobs: &Vec<Vec<T>>, x: usize, y: usize) -> (poly: Vec<T>)
    requires
        grid_ok(pieces),
        corners@.len() == (pieces.x + 1) * (pieces.y + 1),
        knobs@.len() == edge_count(pieces),
        x < pieces.x,
        y < pieces.y,
    ensures
        poly@ == outline_spec(pieces, corners@, knobs@.map_values(|k: Vec<T>| k@), x as int, y as int),
{
    proof {
        lemma_grid_bounds(pieces);
    }
    let ghost ks = knobs@.map_values(|k: Vec<T>| k@);
    let cols = pieces.x;
    let rows = pieces.y;
    let w = cols + 1;
    let (v, n) = edge_counts(pieces);
    proof {
        assert(y * w + x + 1 + w < w * (rows + 1)) by (nonlinear_arith)
            requires
                y < rows,
                x < cols,
                w == cols + 1,
        ;
    }
    let i = y * w + x;
    let mut poly: Vec<T> = Vec::new();
    poly.push(corners[i]);
    if y > 0 {
        proof {
            assert(v + (y - 1) * cols + x < n) by (nonlinear_arith)
                requires
                    0 < y < rows,
                    x < cols,
                    n == v + cols * (rows - 1),
            ;
        }
        append(&mut poly, &knobs[v + (y - 1) * cols + x], false);
    }
    poly.push(corners[i + 1]);
    if x + 1 < cols {
        proof {
            assert(x * rows + y < v) by (nonlinear_arith)
                requires
                    y < rows,
                    x + 1 < cols,
                    v == rows * (cols - 1),
            ;
        }
        append(&mut poly, &knobs[x * rows + y], false);
    }
    poly.push(corners[i + 1 + w]);
    if y + 1 < rows {
        proof {
            assert(v + y * cols + x < n) by (nonlinear_arith)
                requires
                    y + 1 < rows,
                    x < cols,
                    n == v + cols * (rows - 1),
            ;
        }
        append(&mut poly, &knobs[v + y * cols + x], true);
    }
    poly.push(corners[i + w]);
    if x > 0 {
        proof {
            assert((x - 1) * rows + y < v) by (nonlinear_arith)
                requires
                    y < rows,
                    0 < x < cols,
                    v == rows * (cols - 1),
            ;
        }
        append(&mut poly, &knobs[(x - 1) * rows + y], true);
    }
    assert(poly@ =~= outline_spec(pieces, corners@, ks, x as int, y as int));
    poly
}

/// The outline of every cell, in row order. `corners` holds the lattice
/// corners row by row; `knobs[i]` holds the points of interior edge `i`, in
/// the order of `edge_cells`, as they lie in the cell right of or below it.
pub fn outlines<T: Copy>(pieces: GridSize, corners: &Vec<T>, knobs: &Vec<Vec<T>>) -> (r: Vec<Vec<T>>)
    requires
        grid_ok(pieces),
        corners@.len() == (pieces.x + 1) * (pieces.y + 1),
        knobs@.len() == edge_count(pieces),
    ensures
        r@.len() == pieces.x * pieces.y,
        forall|c: int|
            0 <= c < r@.len() ==> (#[trigger] r@[c])@ == outline_spec(
                pieces,
                corners@,
                knobs@.map_values(|k: Vec<T>| k@),
                c % pieces.x as int,
                c / pieces.x as int,
            ),
{
    proof {
        lemma_grid_bounds(pieces);
    }
    let ghost ks = knobs@.map_values(|k: Vec<T>| k@);
    let cols = pieces.x;
    let rows = pieces.y;
    let mut r: Vec<Vec<T>> = Vec::new();
    let mut y: usize = 0;
    while y < rows
        invariant
            grid_ok(pieces),
            cols == pieces.x,
            rows == pieces.y,
            corners@.len() == (cols + 1) * (rows + 1),
            knobs@.len() == edge_count(pieces),
            ks == knobs@.map_values(|k: Vec<T>| k@),
            y <= rows,
            r@.len() == y * cols,
            forall|c: int|
                0 <= c < r@.len() ==> (#[trigger] r@[c])@ == outline_spec(
                    pieces,
                    corners@,
                    ks,
                    c % cols as int,
                    c / cols as int,
                ),
        decreases rows - y,
    {
        let mut x: usize = 0;
        while x < cols
            invariant
                grid_ok(pieces),
                cols == pieces.x,
                rows == pieces.y,
                corners@.len() == (cols + 1) * (rows + 1),
                knobs@.len() == edge_count(pieces),
                ks == knobs@.map_values(|k: Vec<T>| k@),
                y < rows,
                x <= cols,
                r@.len() == y * cols + x,
                forall|c: int|
                    0 <= c < r@.len() ==> (#[trigger] r@[c])@ == outline_spec(
                        pieces,
                        corners@,
                        ks,
                        c % cols as int,
                        c / cols as int,
                    ),
            decreases cols - x,
        {
            let poly = cell_outline(pieces, corners, knobs, x, y);
            proof {
                let c = y * cols + x;
                assert(c % cols as int == x && c / cols as int == y) by (nonlinear_arith)
                    requires
                        c == y * cols + x,
                        x < cols,
                ;
            }
            r.push(poly);
            x = x + 1;
        }
        proof {
            assert((y + 1) * cols == y * cols + cols) by (nonlinear_arith);
        }
        y = y + 1;
    }
    assert(rows * cols == pieces.x * pieces.y) by (nonlinear_arith)
        requires
            rows == pieces.y,
            cols == pieces.x,
    ;
    r
}

/// Neighbouring cells share their edge exactly: along every interior edge the
/// two cells' outlines hold the same points, one in the reverse order of the
/// other, for every grid size and every set of knob shapes.
pub proof fn lemma_shared_edges_match<T>(
    pieces: GridSize,
    corners: Seq<T>,
    knobs: Seq<Seq<T>>,
    x: int,
    y: int,
)
    requires
        grid_ok(pieces),
        corners.len() == (pieces.x + 1) * (pieces.y + 1),
        knobs.len() == edge_count(pieces),
        0 <= x < pieces.x,
        0 <= y < pieces.y,
    ensures
        x + 1 < pieces.x ==> side_path(pieces, corners, knobs, x, y, 1) == reversed(
            side_path(pieces, corners, knobs, x + 1, y, 3),
        ),
        y + 1 < pieces.y ==> side_path(pieces, corners, knobs, x, y, 2) == reversed(
            side_path(pieces, corners, knobs, x, y + 1, 0),
        ),
{
    let w = pieces.x + 1;
    if x + 1 < pieces.x {
        let k = knobs[x * pieces.y + y];
        assert(reversed(reversed(k)) =~= k);
        assert((y * w + (x + 1)) + w == y * w + x + 1 + w);
        assert(side_path(pieces, corners, knobs, x, y, 1) =~= reversed(
            side_path(pieces, corners, knobs, x + 1, y, 3),
        ));
    }
    if y + 1 < pieces.y {
        let k = knobs[vertical_count(pieces) + y * pieces.x + x];
        assert(reversed(reversed(k)) =~= k);
        assert((y + 1) * w + x == y * w + x + w) by (nonlinear_arith);
        assert((y + 1) * w + x + 1 == y * w + x + 1 + w) by (nonlinear_arith);
        assert(((y + 1) - 1) * pieces.x + x == y * pieces.x + x);
        assert(side_path(pieces, corners, knobs, x, y, 2) =~= reversed(
            side_path(pieces, corners, knobs, x, y + 1, 0),
        ));
    }
}

/// Outlines depend on nothing but the grid size, the corners and the knob
/// shapes: two runs on the same inputs build the same outlines, point for
/// point.
pub proof fn lemma_outlines_deterministic<T>(
    pieces: GridSize,
    corners1: Seq<T>,
    corners2: Seq<T>,
    knobs1: Seq<Seq<T>>,
    knobs2: Seq<Seq<T>>,
    x: int,
    y: int,
)
    requires
        corners1 == corners2,
        knobs1 == knobs2,
    ensures
        outline_spec(pieces, corners1, knobs1, x, y) == outline_spec(pieces, corners2, knobs2, x, y),
{
}

/// The grids of exactly `n` cells, `x` by `n / x` for every divisor `x` of
/// `n` below `k + 1`, narrowest first.
pub open spec fn shapes_upto(n: nat, k: nat) -> Seq<GridSize>
    decreases k,
{
    if k == 0 {
        seq![]
    } else if n % k == 0 {
        shapes_upto(n, (k - 1) as nat).push(GridSize { x: k as usize, y: (n / k) as usize })
    } else {
        shapes_upto(n, (k - 1) as nat)
    }
}

/// Every way to lay `n` pieces out as a full grid, narrowest first; the
/// caller picks the one whose proportions suit the picture.
pub fn grid_shapes(n: usize) -> (r: Vec<GridSize>)
    ensures
        r@ == shapes_upto(n as nat, n as nat),
{
    let mut r: Vec<GridSize> = Vec::new();
    let mut x: usize = 1;
    while x <= n
        invariant
            1 <= x <= n + 1,
            r@ == shapes_upto(n as nat, (x - 1) as nat),
        decreases n + 1 - x,
    {
        if n % x == 0 {
            r.push(GridSize { x, y: n / x });
        }
        if x == n {
            return r;
        }
        x = x + 1;
    }
    r
}

} // verus!
