use world::events::spines::thin_by_spacing;
use world::events::survey::{apply_min_spacing, hex_distance, hex_neighbors};
use world::noise::hash_u64;

#[test]
fn spacing_is_deterministic() {
    let candidates: Vec<(i32, i32)> = (0..50).map(|i| (i % 10, i / 10)).collect();
    assert_eq!(
        thin_by_spacing(&candidates, 10, 42),
        thin_by_spacing(&candidates, 10, 42),
    );
}

/// Priority comes from the candidate, so shuffling the input cannot move a
/// spine.
#[test]
fn spacing_is_order_independent() {
    let candidates: Vec<(i32, i32)> = (0..40).map(|i| (i * 3 % 37, i * 7 % 41)).collect();
    let mut reversed = candidates.clone();
    reversed.reverse();

    let mut a = thin_by_spacing(&candidates, 5, 42);
    let mut b = thin_by_spacing(&reversed, 5, 42);
    a.sort_unstable();
    b.sort_unstable();
    assert_eq!(a, b);
}

#[test]
fn spacing_enforces_distance() {
    let candidates: Vec<(i32, i32)> = (0..50).map(|i| (i % 10, i / 10)).collect();
    let selected = thin_by_spacing(&candidates, 10, 42);
    for (i, &(q1, r1)) in selected.iter().enumerate() {
        for &(q2, r2) in &selected[i + 1..] {
            let (dq, dr) = (q1 - q2, r1 - r2);
            let d = dq.abs().max(dr.abs()).max((dq + dr).abs());
            assert!(d >= 10, "({q1},{r1}) and ({q2},{r2}) are {d} apart");
        }
    }
}

/// Priority is seeded, so two worlds thin the same candidates differently.
#[test]
fn spacing_varies_with_seed() {
    let candidates: Vec<(i32, i32)> = (0..50).map(|i| (i % 10, i / 10)).collect();
    assert_ne!(
        thin_by_spacing(&candidates, 10, 42),
        thin_by_spacing(&candidates, 10, 99),
    );
}

#[test]
fn spacing_handles_empty_and_single() {
    assert!(thin_by_spacing(&[], 10, 42).is_empty());
    assert_eq!(thin_by_spacing(&[(5, 3)], 10, 42), vec![(5, 3)]);
}

#[test]
fn hex_neighbors_count() {
    assert_eq!(hex_neighbors(0, 0).len(), 6);
}

#[test]
fn min_spacing_deterministic() {
    let candidates: Vec<(i32, i32)> = (0..100).map(|i| (i, 0)).collect();
    let a = apply_min_spacing(&candidates, 10, 42);
    let b = apply_min_spacing(&candidates, 10, 42);
    assert_eq!(a, b);
}

#[test]
fn min_spacing_enforces_distance() {
    let candidates: Vec<(i32, i32)> = (0..100).map(|i| (i, 0)).collect();
    let selected = apply_min_spacing(&candidates, 10, 42);

    // Every pair must be >= 10 apart
    for i in 0..selected.len() {
        for j in (i + 1)..selected.len() {
            let d = hex_distance(selected[i].0, selected[i].1, selected[j].0, selected[j].1);
            assert!(d >= 10, "pair {:?} {:?} distance {} < 10", selected[i], selected[j], d);
        }
    }
    // Should select some candidates (100 tiles, distance 10 → ~10 survivors)
    assert!(selected.len() >= 5);
    assert!(selected.len() <= 15);
}

#[test]
fn min_spacing_different_seed_different_selection() {
    let candidates: Vec<(i32, i32)> = (0..100).map(|i| (i, 0)).collect();
    let a = apply_min_spacing(&candidates, 10, 42);
    let b = apply_min_spacing(&candidates, 10, 99);
    assert_ne!(a, b);
}

#[test]
fn min_spacing_empty_input() {
    let selected = apply_min_spacing(&[], 10, 42);
    assert!(selected.is_empty());
}

#[test]
fn min_spacing_single_candidate() {
    let selected = apply_min_spacing(&[(5, 3)], 10, 42);
    assert_eq!(selected, vec![(5, 3)]);
}

#[test]
fn every_candidate_is_kept_or_crowded_out() {
    let candidates: Vec<(i32, i32)> = (0..60).map(|i| (i % 12, i / 12)).collect();
    let selected = apply_min_spacing(&candidates, 4, 7);
    for &(q, r) in &candidates {
        let near = selected.iter().any(|&(sq, sr)| hex_distance(q, r, sq, sr) < 4);
        assert!(near, "({q},{r}) neither kept nor crowded out");
    }
    for s in &selected {
        assert!(candidates.contains(s));
    }
}

#[test]
fn both_thinnings_agree() {
    let candidates: Vec<(i32, i32)> = (0..30).map(|i| (i * 5 % 17, i * 3 % 11)).collect();
    assert_eq!(apply_min_spacing(&candidates, 3, 5), thin_by_spacing(&candidates, 3, 5));
}

#[test]
fn a_zero_distance_keeps_everything_once() {
    let candidates = vec![(1, 1), (2, 2), (1, 1)];
    let selected = apply_min_spacing(&candidates, 0, 3);
    assert_eq!(selected.len(), 3);
    let mut sorted = selected.clone();
    sorted.sort_unstable();
    assert_eq!(sorted, vec![(1, 1), (1, 1), (2, 2)]);
}

#[test]
fn survey_distance_matches_known_values() {
    assert_eq!(hex_distance(0, 0, 0, 0), 0);
    assert_eq!(hex_distance(0, 0, 3, -1), 3);
    assert_eq!(hex_distance(1, 2, -2, -1), 6);
}

#[test]
fn neighbours_come_in_walk_order() {
    assert_eq!(
        hex_neighbors(2, -1),
        vec![(3, -1), (1, -1), (2, 0), (2, -2), (3, -2), (1, 0)],
    );
    for (q, r) in hex_neighbors(7, 4) {
        assert_eq!(hex_distance(7, 4, q, r), 1);
    }
}

/// Survivors come out highest priority first, equal priorities by
/// coordinates.
#[test]
fn survivors_come_in_priority_order() {
    let candidates: Vec<(i32, i32)> = (0..40).flat_map(|q| (0..40).map(move |r| (q, r))).collect();
    for seed in [1u64, 42, 7777] {
        let selected = apply_min_spacing(&candidates, 6, seed);
        assert!(selected.len() > 1);
        for w in selected.windows(2) {
            let (p, q) = (w[0], w[1]);
            let (hp, hq) = (hash_u64(p.0 as i64, p.1 as i64, seed), hash_u64(q.0 as i64, q.1 as i64, seed));
            assert!(hp > hq || (hp == hq && p <= q), "{p:?} before {q:?} out of priority order");
        }
    }
}
