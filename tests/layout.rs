use jigsaw_party::interop::GridSize;
use jigsaw_party::layout::{
    edge_cells, edge_counts, grid_shapes, is_interior_corner, outlines, plan_edges,
};
use rand::SeedableRng;

type Pt = (f32, f32);

fn grid(x: usize, y: usize) -> GridSize {
    GridSize { x, y }
}

/// Corners of a unit lattice and, for each edge, three distinct points.
fn inputs(p: GridSize) -> (Vec<Pt>, Vec<Vec<Pt>>) {
    let corners = (0..(p.x + 1) * (p.y + 1))
        .map(|i| ((i % (p.x + 1)) as f32, (i / (p.x + 1)) as f32))
        .collect();
    let (_, n) = edge_counts(p);
    let knobs = (0..n)
        .map(|e| (0..3).map(|k| (1000.0 + e as f32, k as f32 * 0.25)).collect())
        .collect();
    (corners, knobs)
}

/// The points of side `s` of `outline`, from its corner up to the next
/// corner; each knob in `inputs` has three points.
fn side(p: GridSize, outline: &[Pt], x: usize, y: usize, s: usize) -> Vec<Pt> {
    let len = |side: usize| -> usize {
        let has = match side {
            0 => y > 0,
            1 => x + 1 < p.x,
            2 => y + 1 < p.y,
            _ => x > 0,
        };
        if has { 4 } else { 1 }
    };
    let start: usize = (0..s).map(len).sum();
    let end = start + len(s);
    let mut pts: Vec<Pt> = outline[start..end].to_vec();
    pts.push(outline[end % outline.len()]);
    pts
}

#[test]
fn interior_corners_are_off_the_boundary() {
    let p = grid(2, 2);
    let interior: Vec<usize> = (0..9).filter(|&i| is_interior_corner(p, i)).collect();
    assert_eq!(interior, vec![4]);
    assert!((0..4).all(|i| !is_interior_corner(grid(1, 1), i)));
}

#[test]
fn edge_counts_for_thin_and_square_grids() {
    assert_eq!(edge_counts(grid(1, 1)), (0, 0));
    assert_eq!(edge_counts(grid(1, 4)), (0, 3));
    assert_eq!(edge_counts(grid(4, 1)), (3, 3));
    assert_eq!(edge_counts(grid(3, 2)), (4, 7));
}

#[test]
fn edge_cells_go_column_by_column_then_row_by_row() {
    let p = grid(3, 2);
    assert_eq!(edge_cells(p, 0), (true, 0, 1));
    assert_eq!(edge_cells(p, 1), (true, 3, 4));
    assert_eq!(edge_cells(p, 2), (true, 1, 2));
    assert_eq!(edge_cells(p, 3), (true, 4, 5));
    assert_eq!(edge_cells(p, 4), (false, 0, 3));
    assert_eq!(edge_cells(p, 6), (false, 2, 5));
}

#[test]
fn plan_is_a_permutation_and_the_same_for_the_same_seed() {
    let p = grid(5, 4);
    let mut r1 = rand::rngs::StdRng::seed_from_u64(42);
    let mut r2 = rand::rngs::StdRng::seed_from_u64(42);
    let a = plan_edges(p, &mut r1);
    let b = plan_edges(p, &mut r2);
    assert_eq!(a, b);
    let (_, n) = edge_counts(p);
    let mut slots: Vec<usize> = a.iter().map(|e| e.slot).collect();
    assert_ne!(slots, (0..n).collect::<Vec<_>>(), "the knob positions were not shuffled");
    assert!(a.iter().any(|e| e.flip) && a.iter().any(|e| !e.flip));
    slots.sort();
    assert_eq!(slots, (0..n).collect::<Vec<_>>());
    for (i, e) in a.iter().enumerate() {
        assert_eq!((e.vertical, e.tile, e.other), edge_cells(p, i));
    }
}

#[test]
fn outline_of_a_single_cell_is_its_four_corners() {
    let p = grid(1, 1);
    let (corners, knobs) = inputs(p);
    let o = outlines(p, &corners, &knobs);
    assert_eq!(o, vec![vec![(0.0, 0.0), (1.0, 0.0), (1.0, 1.0), (0.0, 1.0)]]);
}

#[test]
fn two_by_one_shares_its_middle_edge_reversed() {
    let p = grid(2, 1);
    let (corners, knobs) = inputs(p);
    let o = outlines(p, &corners, &knobs);
    let right = side(p, &o[0], 0, 0, 1);
    let mut left = side(p, &o[1], 1, 0, 3);
    left.reverse();
    assert_eq!(right.len(), 5);
    for (a, b) in right.iter().zip(left.iter()) {
        assert!((a.0 - b.0).abs() < 1e-6 && (a.1 - b.1).abs() < 1e-6);
    }
    assert_eq!(o[0].len(), 7);
}

#[test]
fn every_shared_edge_matches_up_to_fifty_by_fifty() {
    for (x, y) in [(1, 1), (1, 5), (5, 1), (3, 4), (50, 50)] {
        let p = grid(x, y);
        let (corners, knobs) = inputs(p);
        let o = outlines(p, &corners, &knobs);
        assert_eq!(o.len(), x * y);
        for cy in 0..y {
            for cx in 0..x {
                let c = cy * x + cx;
                if cx + 1 < x {
                    let mut other = side(p, &o[c + 1], cx + 1, cy, 3);
                    other.reverse();
                    assert_eq!(side(p, &o[c], cx, cy, 1), other);
                }
                if cy + 1 < y {
                    let mut other = side(p, &o[c + x], cx, cy + 1, 0);
                    other.reverse();
                    assert_eq!(side(p, &o[c], cx, cy, 2), other);
                }
            }
        }
    }
}

#[test]
fn grid_shapes_lists_every_full_grid() {
    let shapes: Vec<(usize, usize)> = grid_shapes(30).iter().map(|s| (s.x, s.y)).collect();
    assert_eq!(shapes, vec![(1, 30), (2, 15), (3, 10), (5, 6), (6, 5), (10, 3), (15, 2), (30, 1)]);
    assert!(grid_shapes(0).is_empty());
    assert_eq!(grid_shapes(1), vec![grid(1, 1)]);
    assert_eq!(grid_shapes(7).len(), 2);
}
