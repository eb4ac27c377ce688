use world::lattice::{decompose, hex_distance, lattice_path, node_tile, DIRECTIONS, NODE_SPACING, RUN_MIN};

/// Every displacement decomposes into two adjacent directions with
/// non-negative counts that recompose it.
#[test]
fn displacements_decompose() {
    for dq in -30..=30 {
        for dr in -30..=30 {
            let ((i, m), (j, n)) = decompose(dq, dr);
            let (a, b) = (DIRECTIONS[i], DIRECTIONS[j]);
            assert_eq!((m * a.0 + n * b.0, m * a.1 + n * b.1), (dq, dr), "({dq}, {dr})");
            assert!(m >= 0 && n >= 0);
            assert_eq!((i + 1) % 6, j);
        }
    }
}

/// A path lands on its target, steps one node at a time, and is the
/// same path reversed from the other end.
#[test]
fn paths_connect_and_reverse() {
    let cases = [((0, 0), (17, 3)), ((2, -5), (-9, 20)), ((0, 0), (0, 0)), ((4, 4), (5, 4)), ((0, 0), (40, -20))];
    for (p, q) in cases {
        let path = lattice_path(p, q);
        assert_eq!(path[0], p);
        assert_eq!(*path.last().unwrap(), q);
        for w in path.windows(2) {
            assert_eq!(hex_distance(w[0], w[1]), 1, "a step of more than one node");
        }
        assert_eq!(path.len() as i32 - 1, hex_distance(p, q), "a path longer than the line");
        let mut back = lattice_path(q, p);
        back.reverse();
        assert_eq!(path, back);
    }
}

/// Runs hold for RUN_MIN nodes wherever the line is long enough: the
/// count of direction changes never exceeds what RUN_MIN allows.
#[test]
fn runs_are_long() {
    let path = lattice_path((0, 0), (40, 13));
    let mut runs: Vec<i32> = Vec::new();
    let mut last: Option<(i32, i32)> = None;
    for w in path.windows(2) {
        let d = (w[1].0 - w[0].0, w[1].1 - w[0].1);
        if last == Some(d) { *runs.last_mut().unwrap() += 1 } else { runs.push(1) }
        last = Some(d);
    }
    assert!(runs.len() >= 3, "a long oblique line has to alternate: {runs:?}");
    assert!(runs.iter().all(|&r| r >= RUN_MIN), "a run shorter than RUN_MIN: {runs:?}");
}

#[test]
fn decompose_picks_the_bracketing_sextant() {
    assert_eq!(decompose(3, 0), ((0, 3), (1, 0)));
    assert_eq!(decompose(2, 1), ((0, 2), (1, 1)));
    assert_eq!(decompose(0, 0), ((0, 0), (1, 0)));
    assert_eq!(decompose(-2, 1), ((2, 1), (3, 1)));
    assert_eq!(decompose(1, -3), ((4, 2), (5, 1)));
}

#[test]
fn node_distance_is_the_largest_cube_component() {
    assert_eq!(hex_distance((0, 0), (0, 0)), 0);
    assert_eq!(hex_distance((0, 0), (3, -1)), 3);
    assert_eq!(hex_distance((2, 2), (-1, -1)), 6);
    assert_eq!(hex_distance((5, -3), (1, 4)), 7);
}

#[test]
fn a_node_tile_is_scaled_by_the_spacing() {
    assert_eq!(node_tile((0, 0)), (0, 0));
    assert_eq!(node_tile((2, -3)), (2 * NODE_SPACING, -3 * NODE_SPACING));
    assert_eq!(node_tile((1, 1)), (525, 525));
}

#[test]
fn a_straight_line_is_one_run() {
    let path = lattice_path((0, 0), (0, 4));
    assert_eq!(path, vec![(0, 0), (0, 1), (0, 2), (0, 3), (0, 4)]);
    assert_eq!(lattice_path((3, 3), (3, 3)), vec![(3, 3)]);
}

#[test]
fn a_path_from_the_greater_node_is_the_reverse() {
    let forward = lattice_path((0, 0), (12, 7));
    let mut backward = lattice_path((12, 7), (0, 0));
    assert_eq!(backward[0], (12, 7));
    backward.reverse();
    assert_eq!(forward, backward);
}

const SQRT_3: f64 = 1.7320508075688772;
const SIN_60: f64 = 0.866_025_403_784_438_6;

fn node_world(key: (i32, i32)) -> (f64, f64) {
    let (q, r) = node_tile(key);
    (q as f64 + r as f64 * 0.5, r as f64 * SQRT_3 / 2.0)
}

/// No path node stands farther from its straight line than a minimum run
/// square to it, and the bound is not slack.
#[test]
fn paths_stay_near_their_lines() {
    let path_swing = RUN_MIN as f64 * NODE_SPACING as f64 * SIN_60;
    let mut worst = 0.0f64;
    for dq in -100..=100 {
        for dr in -100..=100 {
            let to = (dq, dr);
            if to == (0, 0) || hex_distance((0, 0), to) > 100 { continue }
            let (x1, y1) = node_world(to);
            let len = x1.hypot(y1);
            for n in lattice_path((0, 0), to) {
                let (x, y) = node_world(n);
                worst = worst.max((x * y1 - y * x1).abs() / len);
            }
        }
    }
    assert!(worst <= path_swing, "a path node {worst:.0} off its line, past {path_swing:.0}");
    assert!(worst > 0.75 * path_swing, "the swing bound is slack: the farthest node is {worst:.0}");
}

/// The swing in lattice units: the squared cross product of a node's and
/// the target's displacement from the start, against `RUN_MIN²` times the
/// line's squared length.
fn swing_excess(from: (i32, i32), to: (i32, i32)) -> i64 {
    let (i1, j1) = ((to.0 - from.0) as i64, (to.1 - from.1) as i64);
    let norm = i1 * i1 + i1 * j1 + j1 * j1;
    let run = RUN_MIN as i64;
    lattice_path(from, to)
        .into_iter()
        .map(|n| {
            let (i, j) = ((n.0 - from.0) as i64, (n.1 - from.1) as i64);
            let c = i * j1 - j * i1;
            c * c - run * run * norm
        })
        .max()
        .unwrap()
}

/// Every node of every path of up to 40 steps, drawn from either end,
/// stands within `RUN_MIN` steps of its line, and some reach the bound's
/// neighbourhood.
#[test]
fn paths_keep_within_run_min_of_their_lines() {
    let mut closest = i64::MIN;
    for dq in -40..=40 {
        for dr in -40..=40 {
            let to = (dq, dr);
            if hex_distance((0, 0), to) > 40 { continue }
            let there = swing_excess((3, -2), (3 + dq, -2 + dr));
            let back = swing_excess((3 + dq, -2 + dr), (3, -2));
            assert!(there <= 0 && back <= 0, "a node past the swing on ({dq}, {dr})");
            closest = closest.max(there);
        }
    }
    assert!(closest > -200, "the swing bound is far from every path: {closest}");
}

/// The bound holds up to 252 steps and no further: the line 133 steps
/// along one direction and 120 along the next strays past it.
#[test]
fn the_swing_bound_ends_past_252_steps() {
    assert!(swing_excess((0, 0), (132, 120)) <= 0);
    assert!(swing_excess((0, 0), (126, 126)) <= 0);
    assert!(swing_excess((0, 0), (133, 120)) > 0);
    assert!(swing_excess((133, 120), (0, 0)) > 0);
}

/// The direction with more steps opens and closes every path but the one
/// of a step along each of two directions.
#[test]
fn the_major_direction_opens_and_closes_a_path() {
    for dq in -30..=30 {
        for dr in -30..=30 {
            let to = (dq, dr);
            if !((0, 0) < to) { continue }
            let ((i, m), (j, n)) = decompose(dq, dr);
            let major = if m >= n { i } else { j };
            let path = lattice_path((0, 0), to);
            let first = (path[1].0 - path[0].0, path[1].1 - path[0].1);
            let k = path.len() - 1;
            let last = (path[k].0 - path[k - 1].0, path[k].1 - path[k - 1].1);
            if m == 1 && n == 1 {
                assert_ne!(first, last, "({dq}, {dr})");
            } else {
                assert_eq!(first, DIRECTIONS[major], "({dq}, {dr})");
                assert_eq!(last, DIRECTIONS[major], "({dq}, {dr})");
            }
        }
    }
}

/// No path visits a node twice, from either end.
#[test]
fn paths_never_repeat_a_node() {
    for dq in -25..=25 {
        for dr in -25..=25 {
            for (p, q) in [((2, 1), (2 + dq, 1 + dr)), ((2 + dq, 1 + dr), (2, 1))] {
                let path = lattice_path(p, q);
                let mut seen = std::collections::HashSet::new();
                assert!(path.iter().all(|n| seen.insert(*n)), "a node twice from {p:?} to {q:?}");
            }
        }
    }
}

use world::chains::{bucket_index, ring_cells};

#[test]
fn a_ring_is_the_cells_that_many_out() {
    assert_eq!(ring_cells(3, 4, 0), vec![(3, 4)]);
    assert_eq!(
        ring_cells(0, 0, 1),
        vec![(-1, -1), (0, -1), (1, -1), (-1, 0), (1, 0), (-1, 1), (0, 1), (1, 1)],
    );
    let r2 = ring_cells(5, -2, 2);
    assert_eq!(r2.len(), 16);
    for &(i, j) in &r2 {
        assert_eq!((i - 5).abs().max((j + 2).abs()), 2);
    }
}

#[test]
fn buckets_are_stored_row_by_row() {
    assert_eq!(bucket_index(3, 2, 1, 1, 4, 3), Some(6));
    assert_eq!(bucket_index(0, 2, 1, 1, 4, 3), None);
    assert_eq!(bucket_index(5, 2, 1, 1, 4, 3), None);
    assert_eq!(bucket_index(1, 4, 1, 1, 4, 3), None);
    assert_eq!(bucket_index(1, 1, 1, 1, 4, 3), Some(0));
}
