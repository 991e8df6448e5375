//! Track tables, picks and poses.

use beatermp::track::{Parking, Table, Track};
use beatermp::Pose;

const GRID: &str = "forest_long Default 3\n0 -0.99995 0 0.01023 71.03 0 248\n0 -0.99995 0 0.01023 66.63 0.5 248\n0 -0.99995 0 0.01023 62 0 240\nforest_long Reverse 1\n0 0.5 0 0.5 1 2 3\r\noval Default 2\n0 0 0 1 0 0 0\n0 0 0 1 4 0 0\nautumn_02 TimeAttackReverse 1\n0 0 0 1 9 9 9";

const PARKED: &str = "forest_long Default 3\n0 -0.99995 0 0.01023 78.03 0 248\n0 -0.99995 0 0.01023 66.63 0.5 253\n0 -0.99995 0 0.01023 62 0 246\n";

fn pose(row: &str) -> Pose {
    let mut pose: Pose = [0; 7];
    for (slot, word) in pose.iter_mut().zip(row.split(' ')) {
        *slot = word.parse::<f32>().unwrap().to_bits();
    }
    pose[5] = (f32::from_bits(pose[5]) + 0.75).to_bits();
    pose
}

fn load(spec: &str) -> Option<Track> {
    let entry = Table::new(GRID).load(spec)?;
    let parking = Table::new(PARKED)
        .rows(&entry.name, entry.variant)
        .map(|(count, rows)| Parking {
            count,
            poses: rows.iter().map(|r| pose(r)).collect(),
        });
    Some(Track {
        spawns: entry.rows.iter().map(|r| pose(r)).collect(),
        name: entry.name,
        variant: entry.variant,
        laps: entry.laps,
        parking,
    })
}

/// A parking table must line up with the grid table it was generated from: same
/// slot count per block, finite poses, and every pose actually moved off its
/// grid slot. A scene without a block falls back to the grid.
#[test]
fn parking_table_matches_grid_table() {
    let mut parked = 0;
    for spec in Table::new(GRID).names() {
        let map = load(&spec).unwrap();
        let Some(first) = map.parking_pose(0) else {
            continue;
        };
        parked += 1;
        for slot in 0..map.spawns.len() {
            let pose = map.parking_pose(slot).unwrap().map(f32::from_bits);
            let grid = map.grid_pose(slot).map(f32::from_bits);
            assert!(pose.iter().all(|v| v.is_finite()), "{spec} slot {slot}");
            // The generator prints 6 significant digits.
            for i in [0, 1, 2, 3, 5] {
                assert!(
                    (pose[i] - grid[i]).abs() < 1e-3,
                    "{spec} slot {slot} keeps grid rotation and height"
                );
            }
            let off = ((pose[4] - grid[4]).powi(2) + (pose[6] - grid[6]).powi(2)).sqrt();
            assert!(off >= 4.9, "{spec} slot {slot} only {off} m off the grid");
        }
        // Blocks wrap like the grid does.
        assert_eq!(map.parking_pose(map.spawns.len()), Some(first));
    }
    assert!(parked > 0);
    assert!(load("oval").unwrap().parking_pose(0).is_none());
}

#[test]
fn names_list_every_block_in_small_letters() {
    assert_eq!(
        Table::new(GRID).names(),
        [
            "forest_long:default",
            "forest_long:reverse",
            "oval:default",
            "autumn_02:timeattackreverse",
        ]
    );
}

#[test]
fn a_pick_names_scene_variant_and_laps() {
    let entry = Table::new(GRID).load("forest_long").unwrap();
    assert_eq!(
        (entry.name.as_str(), entry.variant, entry.laps, entry.rows.len()),
        ("forest_long", 1, None, 3)
    );
    assert_eq!(entry.rows[2], "0 -0.99995 0 0.01023 62 0 240");

    let entry = Table::new(GRID).load("forest_long:REVERSE@3").unwrap();
    assert_eq!((entry.variant, entry.laps), (2, Some(3)));
    // A carriage return before the line feed is not part of the row.
    assert_eq!(entry.rows, ["0 0.5 0 0.5 1 2 3"]);

    let entry = Table::new(GRID).load("autumn_02:TimeAttackReverse@+2").unwrap();
    assert_eq!((entry.variant, entry.laps), (5, Some(2)));
}

#[test]
fn a_pick_that_names_nothing_is_refused() {
    let table = Table::new(GRID);
    for spec in [
        "",
        "nowhere",
        "oval:reverse",
        "oval:sideways",
        "oval@0",
        "oval@",
        "oval@+",
        "oval@two",
        "oval@-1",
        "oval@4294967296",
        "oval@1@2",
    ] {
        assert!(table.load(spec).is_none(), "{spec}");
    }
    assert_eq!(table.load("oval@4294967295").unwrap().laps, Some(u32::MAX));
}

#[test]
fn a_header_without_a_count_finds_nothing() {
    assert!(Table::new("oval Default").load("oval").is_none());
    assert!(Table::new("oval Default many\n1").load("oval").is_none());
    // Fewer rows than announced: those that are there.
    let entry = Table::new("oval Default 3\n1 2\n3 4").load("oval").unwrap();
    assert_eq!(entry.rows, ["1 2", "3 4"]);
    let (count, rows) = Table::new("oval Default 3\n1 2").rows("oval", 1).unwrap();
    assert_eq!((count, rows.len()), (3, 1));
}

#[test]
fn a_missing_parking_row_parks_nowhere() {
    let mut map = load("oval").unwrap();
    map.parking = Some(Parking {
        count: 3,
        poses: vec![pose("0 0 0 1 1 1 1")],
    });
    assert!(map.parking_pose(0).is_some());
    assert!(map.parking_pose(1).is_none());
    assert_eq!(map.parking_pose(3), map.parking_pose(0));
}

#[test]
fn labels_and_grids() {
    let map = load("forest_long:reverse").unwrap();
    assert_eq!(map.label(), "forest_long | Reverse");
    let map = load("oval").unwrap();
    assert_eq!(map.grid_pose(0), map.grid_pose(2));
    assert_ne!(map.grid_pose(0), map.grid_pose(1));
    // A car at rest sits above its spawn point.
    assert_eq!(f32::from_bits(map.grid_pose(0)[5]), 0.75);
}
