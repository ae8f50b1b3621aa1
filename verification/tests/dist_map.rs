use cantucci::dist_map::{DistMap, Inclusion, QueryResult};

fn encode(x: u32, y: u32, z: u32) -> u64 {
    (x as u64) * 1_000_000 + (y as u64) * 1_000 + z as u64
}

fn classify(x: u32, y: u32, z: u32) -> Option<Inclusion> {
    if x == 0 && y == 0 && z == 0 {
        Some(Inclusion::Inside)
    } else if x == 15 {
        Some(Inclusion::Outside)
    } else {
        None
    }
}

#[test]
fn dist_map_reads_back_built_values() {
    let map = DistMap::new(32, classify, encode);
    assert_eq!(map.resolution(), 32);
    // chunk (0, 0, 0) covers the points 0..2 on each axis
    assert!(matches!(map.at((0, 0, 0)), QueryResult::Skipped(Inclusion::Inside)));
    assert!(matches!(map.at((1, 1, 1)), QueryResult::Skipped(Inclusion::Inside)));
    // chunk x == 15 covers the points 30 and 31
    assert!(matches!(map.at((30, 5, 7)), QueryResult::Skipped(Inclusion::Outside)));
    assert!(matches!(map.at((31, 31, 31)), QueryResult::Skipped(Inclusion::Outside)));
    // every other point carries its exact distance
    for &(x, y, z) in &[(2u32, 0u32, 0u32), (0, 0, 2), (29, 31, 0), (5, 17, 23), (17, 3, 31)] {
        match map.at((x, y, z)) {
            QueryResult::Exact(d) => assert_eq!(d, encode(x, y, z)),
            QueryResult::Skipped(_) => panic!("point {:?} was skipped", (x, y, z)),
        }
    }
}

#[test]
fn dist_map_all_exact_at_smallest_resolution() {
    let map = DistMap::new(16, |_, _, _| None, encode);
    for x in 0..16 {
        for y in 0..16 {
            for z in 0..16 {
                assert_eq!(map.at((x, y, z)).dist(), Some(encode(x, y, z)));
            }
        }
    }
}

#[test]
fn dist_map_large_resolution() {
    let map = DistMap::new(128, |x, _, _| if x < 8 { None } else { Some(Inclusion::Outside) }, encode);
    assert_eq!(map.at((63, 127, 64)).dist(), Some(encode(63, 127, 64)));
    assert_eq!(map.at((7, 9, 11)).dist(), Some(encode(7, 9, 11)));
    assert_eq!(map.at((64, 0, 0)).dist(), None);
    assert!(matches!(map.at((127, 0, 0)), QueryResult::Skipped(Inclusion::Outside)));
}
