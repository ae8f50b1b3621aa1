use cantucci::grid::GridTable;
use cantucci::surface_nets::{
    assign_vertex_ids, cell_crosses_surface, crossing_edges, generate_faces, CornerSign, NO_VERTEX,
};

fn sign(d: f32) -> CornerSign {
    CornerSign { positive: d.is_sign_positive(), below_zero: d < 0.0 }
}

/// Signs of the distance from a sphere around `c` with radius `r`.
fn sphere_signs(size: u32, c: f32, r: f32) -> GridTable<CornerSign> {
    GridTable::fill_with(size, |x, y, z| {
        let (dx, dy, dz) = (x as f32 - c, y as f32 - c, z as f32 - c);
        sign((dx * dx + dy * dy + dz * dz).sqrt() - r)
    })
}

#[test]
fn single_inside_corner() {
    // Only corner (1, 1, 1) of a 3x3x3 corner grid is inside.
    let signs = GridTable::fill_with(3, |x, y, z| {
        if (x, y, z) == (1, 1, 1) { sign(-1.0) } else { sign(1.0) }
    });
    assert!(cell_crosses_surface(&signs, 0, 0, 0));
    assert!(cell_crosses_surface(&signs, 1, 1, 1));
    let cv = assign_vertex_ids(&signs);
    // All eight cells around the corner cross the surface.
    assert_eq!(cv.cells.len(), 8);
    for (i, &(x, y, z)) in cv.cells.iter().enumerate() {
        assert_eq!(*cv.ids.index(x, y, z), i as u32);
    }
    let faces = generate_faces(&signs, &cv.ids);
    // Six edges leave the inside corner; three of them start there and have
    // the needed neighbours, three end there.
    assert_eq!(faces.len() % 6, 0);
    assert!(!faces.is_empty());
    for &v in &faces {
        assert!((v as usize) < cv.cells.len());
    }
}

#[test]
fn no_crossing_no_faces() {
    let signs = GridTable::fill_with(4, |_, _, _| sign(2.0));
    let cv = assign_vertex_ids(&signs);
    assert!(cv.cells.is_empty());
    assert_eq!(*cv.ids.index(0, 1, 2), NO_VERTEX);
    assert!(generate_faces(&signs, &cv.ids).is_empty());
}

#[test]
fn sphere_faces_use_generated_vertices() {
    let signs = sphere_signs(9, 4.0, 2.5);
    let cv = assign_vertex_ids(&signs);
    assert!(!cv.cells.is_empty());
    let faces = generate_faces(&signs, &cv.ids);
    assert!(!faces.is_empty());
    assert_eq!(faces.len() % 6, 0);
    for &v in &faces {
        assert!((v as usize) < cv.cells.len());
    }
    // Cells are listed in lexicographic order.
    for w in cv.cells.windows(2) {
        assert!(w[0] < w[1]);
    }
}

#[test]
fn orientation_follows_sign_below_zero() {
    // Corners with x = 0 are inside, with x = 1, 2 outside: the +x edges
    // from x = 0 cross the surface.
    let signs = GridTable::fill_with(3, |x, _, _| if x == 0 { sign(-1.0) } else { sign(1.0) });
    let cv = assign_vertex_ids(&signs);
    let faces = generate_faces(&signs, &cv.ids);
    // Only the corner (0, 1, 1) has a crossing +x edge with all four cells.
    let v0 = *cv.ids.index(0, 0, 0);
    let v1 = *cv.ids.index(0, 0, 1);
    let v2 = *cv.ids.index(0, 1, 0);
    let v3 = *cv.ids.index(0, 1, 1);
    assert_eq!(faces, vec![v0, v2, v1, v1, v2, v3]);
}

#[test]
fn crossing_edges_of_a_cell() {
    let all_pos = [true; 8];
    assert!(crossing_edges(&all_pos).is_empty());
    let mut one = [true; 8];
    one[0] = false;
    assert_eq!(crossing_edges(&one), vec![(0, 4), (0, 2), (0, 1)]);
    let mut low_x = [true; 8];
    for k in 0..4 {
        low_x[k] = false;
    }
    assert_eq!(crossing_edges(&low_x), vec![(0, 4), (1, 5), (2, 6), (3, 7)]);
}
