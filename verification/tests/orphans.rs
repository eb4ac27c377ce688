use world::microplates::orphans::{cc_round, fix_orphans, pieces, sweep};

/// A path of cells, each next to the one before and after it.
fn path(n: usize) -> Vec<Vec<usize>> {
    (0..n)
        .map(|i| {
            let mut v = Vec::new();
            if i > 0 {
                v.push(i - 1);
            }
            if i + 1 < n {
                v.push(i + 1);
            }
            v
        })
        .collect()
}

#[test]
fn pieces_follow_plate_and_adjacency() {
    let plate = vec![1, 1, 2, 1, 1];
    let (label, starts) = pieces(&plate, &path(5));
    assert_eq!(label, vec![0, 0, 1, 2, 2]);
    assert_eq!(starts, vec![0, 2, 3]);
}

#[test]
fn a_fragment_goes_to_the_plate_around_it() {
    let nbrs = path(5);
    let mut plate = vec![1, 1, 2, 1, 1];
    let moved = cc_round(&mut plate, &nbrs);
    assert_eq!(plate, vec![1, 1, 2, 2, 2]);
    assert_eq!(moved, 2);
    assert_eq!(cc_round(&mut plate, &nbrs), 0);
    assert_eq!(plate, vec![1, 1, 2, 2, 2]);
}

#[test]
fn a_tied_vote_goes_to_the_lower_plate() {
    let nbrs = vec![vec![1, 2], vec![0], vec![0], vec![4], vec![3]];
    let mut plate = vec![9, 5, 3, 9, 9];
    assert_eq!(cc_round(&mut plate, &nbrs), 1);
    assert_eq!(plate, vec![3, 5, 3, 9, 9]);
}

#[test]
fn a_later_fragment_reads_what_an_earlier_one_left() {
    let nbrs = vec![vec![1], vec![0], vec![3], vec![2], vec![5], vec![4]];
    let mut plate = vec![1, 2, 1, 1, 2, 2];
    assert_eq!(cc_round(&mut plate, &nbrs), 1);
    assert_eq!(plate, vec![2, 2, 1, 1, 2, 2]);
}

#[test]
fn an_isolated_fragment_is_dropped_by_the_sweep() {
    let nbrs = vec![vec![1], vec![0], vec![]];
    let plate = vec![1, 1, 1];
    let mut rounds = plate.clone();
    assert_eq!(cc_round(&mut rounds, &nbrs), 0);
    assert_eq!(rounds, plate);
    assert_eq!(sweep(&plate, &nbrs), (vec![Some(1), Some(1), None], 0));
    assert_eq!(fix_orphans(&plate, &nbrs), (vec![Some(1), Some(1), None], 0));
}

#[test]
fn correction_rounds_then_sweeps() {
    let nbrs = path(5);
    assert_eq!(
        fix_orphans(&vec![1, 1, 2, 1, 1], &nbrs),
        (vec![Some(1), Some(1), Some(2), Some(2), Some(2)], 2),
    );
    let nbrs = vec![vec![1], vec![0], vec![3], vec![2], vec![5], vec![4]];
    assert_eq!(
        fix_orphans(&vec![1, 2, 1, 1, 2, 2], &nbrs),
        (vec![Some(2), Some(2), Some(1), Some(1), None, None], 1),
    );
}

#[test]
fn whole_plates_are_left_alone() {
    let nbrs = path(6);
    let plate = vec![4, 4, 4, 7, 7, 7];
    assert_eq!(
        fix_orphans(&plate, &nbrs),
        (plate.iter().map(|&p| Some(p)).collect::<Vec<_>>(), 0),
    );
}

#[test]
fn the_larger_piece_is_the_body() {
    // Plate 1 holds three cells on the left and one on the right of a
    // plate-2 strip: the single cell is the fragment.
    let nbrs = path(6);
    let mut plate = vec![1, 1, 1, 2, 2, 1];
    assert_eq!(cc_round(&mut plate, &nbrs), 1);
    assert_eq!(plate, vec![1, 1, 1, 2, 2, 2]);
}

#[test]
fn the_sweep_reads_the_plates_before_it() {
    // Both fragments are handed on at once, each by the plates it saw.
    assert_eq!(
        sweep(&vec![2, 3, 1, 3, 1], &path(5)),
        (vec![Some(2), Some(3), Some(1), Some(1), Some(3)], 2),
    );
}
