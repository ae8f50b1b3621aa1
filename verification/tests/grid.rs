use cantucci::grid::{cube, square, GridTable};

#[test]
fn grid_table_lookup() {
    let g = GridTable::fill_with(3, |x, y, z| x * 100 + y * 10 + z);
    assert_eq!(g.size(), 3);
    for x in 0..3 {
        for y in 0..3 {
            for z in 0..3 {
                assert_eq!(*g.index(x, y, z), x * 100 + y * 10 + z);
            }
        }
    }
}

#[test]
fn grid_table_set() {
    let mut g = GridTable::fill_with(2, |_, _, _| 0u8);
    g.set(1, 0, 1, 7);
    assert_eq!(*g.index(1, 0, 1), 7);
    assert_eq!(*g.index(1, 0, 0), 0);
    assert_eq!(*g.index(0, 1, 1), 0);
}

#[test]
fn cube_iterates_lexicographically() {
    let mut it = cube(2);
    assert_eq!(it.size_hint(), (8, Some(8)));
    let mut seen = Vec::new();
    while let Some(c) = it.next() {
        seen.push(c);
    }
    assert_eq!(seen, vec![
        (0, 0, 0), (0, 0, 1), (0, 1, 0), (0, 1, 1),
        (1, 0, 0), (1, 0, 1), (1, 1, 0), (1, 1, 1),
    ]);
    assert_eq!(it.size_hint(), (0, Some(0)));
    assert_eq!(it.next(), None);
}

#[test]
fn cube_size_hint_counts_down() {
    let mut it = cube(3);
    for left in (0..27).rev() {
        assert!(it.next().is_some());
        assert_eq!(it.size_hint(), (left, Some(left)));
    }
    assert!(it.next().is_none());
    assert!(cube(0).next().is_none());
}

#[test]
fn square_iterates_lexicographically() {
    let mut it = square(3);
    let mut seen = Vec::new();
    while let Some(c) = it.next() {
        seen.push(c);
    }
    assert_eq!(seen.len(), 9);
    assert_eq!(seen[0], (0, 0));
    assert_eq!(seen[1], (0, 1));
    assert_eq!(seen[3], (1, 0));
    assert_eq!(seen[8], (2, 2));
    assert!(square(0).next().is_none());
}
