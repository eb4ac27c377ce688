use world::events::dissection::DissectionEvent;
use world::events::drainage::{base_sources, node_neighbours, owned_runs, reaches, Kind, Terminus};
use world::events::forest::ForestEvent;
use world::events::hex_ball_tiles;
use world::events::hex_distance;
use world::events::lithology::{bed_rocks, LithologyEvent, Rock, FORMATIONS};
use world::events::migration::MigrationEvent;
use world::events::motion::{margin_class, regime_of, BoundaryRegime, MarginClass, MotionEvent};
use world::events::orogen::OrogenEvent;
use world::events::thickening::ThickeningEvent;
use world::events::thrusting::ThrustingEvent;
use world::events::tilt::TiltEvent;
use world::glacial::{outflow_of, probe_all, CirqueProbe, Outflow};
use world::microplates::hex_chunk_1ring;
use world::noise::hash_u64;

#[test]
fn hex_ball_tiles_matches_known_sizes() {
    assert_eq!(hex_ball_tiles(0), 1);
    assert_eq!(hex_ball_tiles(1), 7);
    // Chunk radius 9 — the scale the streaming layers are cut to.
    assert_eq!(hex_ball_tiles(9), 271);
}

#[test]
fn half_sum_distance_matches_known_values() {
    assert_eq!(hex_distance((0, 0), (0, 0)), 0);
    assert_eq!(hex_distance((0, 0), (2, -1)), 2);
    assert_eq!(hex_distance((4, -2), (-1, 3)), 5);
    assert_eq!(hex_distance((-3, -3), (0, 0)), 6);
}

#[test]
fn hash_is_fixed_and_seeded() {
    assert_eq!(hash_u64(0, 0, 0), 0x33fe_8bd4_f9c5_7863);
    assert_eq!(hash_u64(3, -4, 42), 0x697d_6b76_7514_2c33);
    assert_eq!(hash_u64(3, -4, 42), hash_u64(3, -4, 42));
    assert_ne!(hash_u64(3, -4, 42), hash_u64(3, -4, 43));
    assert_ne!(hash_u64(3, -4, 42), hash_u64(-4, 3, 42));
}

#[test]
fn a_coast_is_active_only_where_the_plates_close() {
    assert_eq!(margin_class(true, false, true), MarginClass::Active);
    assert_eq!(margin_class(false, true, true), MarginClass::Active);
    assert_eq!(margin_class(true, false, false), MarginClass::Passive);
    assert_eq!(margin_class(false, true, false), MarginClass::Passive);
    assert_eq!(margin_class(true, true, true), MarginClass::Interior);
    assert_eq!(margin_class(false, false, true), MarginClass::Interior);
    assert_eq!(margin_class(false, false, false), MarginClass::Interior);
}

#[test]
fn transform_motion_wins_over_closing() {
    assert_eq!(regime_of(true, true), BoundaryRegime::Transform);
    assert_eq!(regime_of(true, false), BoundaryRegime::Transform);
    assert_eq!(regime_of(false, true), BoundaryRegime::Convergent);
    assert_eq!(regime_of(false, false), BoundaryRegime::Divergent);
}

#[test]
fn outflow_follows_the_drop_below_the_rim() {
    assert_eq!(outflow_of(true, true), Outflow::Impounded);
    assert_eq!(outflow_of(true, false), Outflow::Impounded);
    assert_eq!(outflow_of(false, true), Outflow::Fall);
    assert_eq!(outflow_of(false, false), Outflow::Ravine);
}

#[test]
fn probes_prefer_the_outlet_then_the_floor() {
    assert_eq!(probe_all(&[]), None);
    assert_eq!(probe_all(&[None, None]), None);
    assert_eq!(
        probe_all(&[Some(CirqueProbe::Headwall), Some(CirqueProbe::Lip)]),
        Some(CirqueProbe::Headwall),
    );
    assert_eq!(
        probe_all(&[None, Some(CirqueProbe::Lip), Some(CirqueProbe::Floor)]),
        Some(CirqueProbe::Floor),
    );
    assert_eq!(
        probe_all(&[Some(CirqueProbe::Floor), Some(CirqueProbe::Outlet), Some(CirqueProbe::Headwall)]),
        Some(CirqueProbe::Outlet),
    );
}

#[test]
fn rocks_are_named() {
    assert_eq!(Rock::Shale.name(), "shale");
    assert_eq!(Rock::Sandstone.name(), "sandstone");
    assert_eq!(Rock::Limestone.name(), "limestone");
    assert_eq!(Rock::Basement.name(), "basement");
}

#[test]
fn a_column_alternates_from_any_phase() {
    for phase in 0..8 {
        let rocks = bed_rocks(phase);
        assert_eq!(rocks.len(), FORMATIONS);
        for pair in rocks.windows(2) {
            assert_ne!(pair[0], pair[1], "two beds alike in a row");
        }
        assert!(rocks.iter().all(|&r| r != Rock::Basement));
    }
    assert_eq!(
        bed_rocks(1),
        vec![Rock::Shale, Rock::Limestone, Rock::Shale, Rock::Sandstone,
             Rock::Shale, Rock::Limestone, Rock::Shale, Rock::Sandstone],
    );
}

#[test]
fn chunk_rings_lean_with_the_row() {
    assert_eq!(
        hex_chunk_1ring(0, 0),
        [(-1, 0), (1, 0), (-1, -1), (0, -1), (-1, 1), (0, 1)],
    );
    assert_eq!(
        hex_chunk_1ring(2, 3),
        [(1, 3), (3, 3), (2, 2), (3, 2), (2, 4), (3, 4)],
    );
    assert_eq!(
        hex_chunk_1ring(0, -1),
        [(-1, -1), (1, -1), (0, -2), (1, -2), (0, 0), (1, 0)],
    );
}

#[test]
fn chunk_rings_are_mutual() {
    for cq in -3..=3 {
        for cr in -3..=3 {
            for n in hex_chunk_1ring(cq, cr) {
                assert!(hex_chunk_1ring(n.0, n.1).contains(&(cq, cr)), "({cq},{cr}) and {n:?}");
            }
        }
    }
}

#[test]
fn a_river_runs_to_the_sea() {
    let kind = [Kind::Land, Kind::Land, Kind::Sea];
    let down = [Some(1), Some(2), None];
    assert_eq!(reaches(&kind, &down), vec![(vec![0, 1], Terminus::Sea)]);
}

#[test]
fn a_confluence_starts_a_reach() {
    let kind = [Kind::Land, Kind::Land, Kind::Land, Kind::Edge];
    let down = [Some(2), Some(2), Some(3), None];
    assert_eq!(
        reaches(&kind, &down),
        vec![(vec![0], Terminus::Continues), (vec![1], Terminus::Continues), (vec![2], Terminus::Edge)],
    );
}

#[test]
fn a_basin_ends_its_river_at_the_pit() {
    let kind = [Kind::Land, Kind::Basin, Kind::Land, Kind::Sea];
    let down = [Some(1), Some(2), Some(3), None];
    assert_eq!(
        reaches(&kind, &down),
        vec![(vec![0, 1], Terminus::Basin), (vec![2], Terminus::Sea)],
    );
}

#[test]
fn a_river_leaving_the_window_ends_at_the_edge() {
    let kind = [Kind::Land, Kind::Land];
    let down = [Some(1), None];
    assert_eq!(reaches(&kind, &down), vec![(vec![0, 1], Terminus::Edge)]);
    assert!(reaches(&[Kind::Sea, Kind::Edge], &[None, None]).is_empty());
}

#[test]
fn a_cell_owns_runs_of_each_reach() {
    let down = [Some(1), Some(2), Some(3), Some(4), None];
    let owned = [true, false, true, true, false];
    let rs = vec![(vec![0usize, 1, 2, 3], Terminus::Sea)];
    assert_eq!(
        owned_runs(&rs, &owned, &down),
        vec![(vec![0], Some(1), Terminus::Continues), (vec![2, 3], Some(4), Terminus::Sea)],
    );
    let none = [false; 5];
    assert!(owned_runs(&rs, &none, &down).is_empty());
}

#[test]
fn a_run_ending_in_a_basin_joins_nothing() {
    let down = [Some(1), Some(2), None];
    let owned = [true, true, false];
    let rs = vec![(vec![0usize, 1], Terminus::Basin)];
    assert_eq!(owned_runs(&rs, &owned, &down), vec![(vec![0, 1], None, Terminus::Basin)]);
}

#[test]
fn layers_construct() {
    let _ = DissectionEvent::new();
    let _ = ForestEvent::new();
    let _ = LithologyEvent::new();
    let _ = MigrationEvent::new();
    let _ = MotionEvent::new();
    let _ = OrogenEvent::new();
    let _ = ThickeningEvent::new();
    let _ = ThrustingEvent::new();
    let _ = TiltEvent::new();
    let _ = MotionEvent::default();
}

#[test]
fn counters_count_hits_and_misses() {
    let c = world::events::metrics::HitCounters::new();
    assert_eq!((c.hits(), c.misses()), (0, 0));
    c.record(true);
    c.record(true);
    c.record(false);
    assert_eq!((c.hits(), c.misses()), (2, 1));
}

#[test]
fn every_river_node_lies_on_one_reach() {
    // Two sources meet, run into closed ground, leave over its sill and
    // reach the sea; a third source runs off the window.
    let kind = [
        Kind::Land, Kind::Land, Kind::Land, Kind::Basin, Kind::Basin,
        Kind::Land, Kind::Land, Kind::Sea, Kind::Land, Kind::Edge,
    ];
    let down = [
        Some(2), Some(2), Some(3), Some(4), Some(5),
        Some(6), Some(7), None, Some(9), None,
    ];
    let rs = reaches(&kind, &down);
    for (k, &kd) in kind.iter().enumerate() {
        let places = rs.iter().flat_map(|r| r.0.iter()).filter(|&&x| x == k).count();
        let river = matches!(kd, Kind::Land | Kind::Basin);
        assert_eq!(places, if river { 1 } else { 0 }, "node {k}");
    }
    assert_eq!(
        rs,
        vec![
            (vec![0], Terminus::Continues),
            (vec![1], Terminus::Continues),
            (vec![2, 3, 4], Terminus::Basin),
            (vec![5, 6], Terminus::Sea),
            (vec![8], Terminus::Edge),
        ],
    );
}

#[test]
fn a_base_comes_from_the_sea_a_cut_or_a_pit() {
    let kind = [Kind::Land, Kind::Land, Kind::Land, Kind::Sea];
    let down = [Some(1), Some(2), Some(3), None];
    assert_eq!(base_sources(&kind, &down, &[false; 4]), vec![None, None, None, None]);
    assert_eq!(base_sources(&kind, &down, &[false, true, false, false]), vec![Some(1), None, None, None]);
    // A node's own cut does not make it its own base.
    assert_eq!(base_sources(&kind, &down, &[true, false, false, false]), vec![None, None, None, None]);
    let kind = [Kind::Land, Kind::Basin, Kind::Land, Kind::Sea];
    assert_eq!(base_sources(&kind, &down, &[false; 4]), vec![Some(1), Some(1), None, None]);
    // Water leaving the window reads as reaching the sea.
    let kind = [Kind::Land, Kind::Edge];
    assert_eq!(base_sources(&kind, &[Some(1), None], &[false, false]), vec![None, None]);
}

#[test]
fn window_nodes_find_their_neighbours() {
    let keys = vec![(0, 0), (1, 0), (0, 1), (5, 5)];
    assert_eq!(
        node_neighbours(&keys),
        vec![
            [Some(1), Some(2), None, None, None, None],
            [None, None, Some(2), Some(0), None, None],
            [None, None, None, None, Some(0), Some(1)],
            [None; 6],
        ],
    );
    // A key held twice is found at its last place.
    let keys = vec![(0, 0), (1, 0), (1, 0)];
    assert_eq!(node_neighbours(&keys)[0][0], Some(2));
}

/// A line of nodes, each the right-hand neighbour of the one before.
fn line(n: usize) -> Vec<[Option<usize>; 6]> {
    (0..n)
        .map(|i| {
            let mut row = [None; 6];
            if i + 1 < n {
                row[0] = Some(i + 1);
            }
            if i > 0 {
                row[3] = Some(i - 1);
            }
            row
        })
        .collect()
}

#[test]
fn flooded_nodes_at_one_fill_make_a_basin() {
    let kind = [Kind::Land, Kind::Basin, Kind::Basin, Kind::Land, Kind::Basin, Kind::Basin];
    let parent = [None, Some(0), Some(1), None, Some(3), Some(4)];
    let fill = vec![[true; 6]; 6];
    let (basin_of, found) = world::events::basins::basins(&kind, &line(6), &fill, &parent);
    assert_eq!(basin_of, vec![None, Some(0), Some(0), None, Some(1), Some(1)]);
    assert_eq!(found, vec![(vec![1, 2], Some(0)), (vec![4, 5], Some(3))]);
}

#[test]
fn a_different_fill_parts_two_basins() {
    let kind = [Kind::Land, Kind::Basin, Kind::Basin];
    let parent = [None, Some(0), Some(1)];
    let mut fill = vec![[true; 6]; 3];
    fill[1][0] = false;
    fill[2][3] = false;
    let (basin_of, found) = world::events::basins::basins(&kind, &line(3), &fill, &parent);
    assert_eq!(basin_of, vec![None, Some(0), Some(1)]);
    // The second basin was flooded from the first: it spills over nothing
    // outside closed ground.
    assert_eq!(found, vec![(vec![1], Some(0)), (vec![2], None)]);
}

#[test]
fn a_basin_spilling_off_the_window_has_no_sill() {
    let kind = [Kind::Edge, Kind::Basin, Kind::Basin];
    let parent = [None, Some(0), Some(1)];
    let fill = vec![[true; 6]; 3];
    let (_, found) = world::events::basins::basins(&kind, &line(3), &fill, &parent);
    assert_eq!(found, vec![(vec![1, 2], None)]);
}

/// A reach broken by unowned nodes publishes one run per maximal owned
/// stretch: the stretch that holds the reach's last node ends as the reach
/// does, the others continue and join the node past their tail.
#[test]
fn owned_runs_are_the_owned_stretches() {
    let rs = vec![(vec![0usize, 1, 2, 3, 4, 5], Terminus::Sea)];
    let owned = vec![true, true, false, true, false, true];
    let down = vec![Some(1), Some(2), Some(3), Some(4), Some(5), None];
    assert_eq!(
        owned_runs(&rs, &owned, &down),
        vec![
            (vec![0, 1], Some(2), Terminus::Continues),
            (vec![3], Some(4), Terminus::Continues),
            (vec![5], None, Terminus::Sea),
        ]
    );
    let basin = vec![(vec![4usize, 3, 2], Terminus::Basin)];
    let owned_tail = vec![false, false, true, true, true, false];
    let down_tail = vec![None, None, Some(9), Some(2), Some(3), None];
    assert_eq!(owned_runs(&basin, &owned_tail, &down_tail), vec![(vec![4, 3, 2], None, Terminus::Basin)]);
}
