//! The combinatorial part of the "Surface Nets" algorithm: which cells of a
//! grid get a vertex, which edges of a cell cross the surface, and which
//! faces connect the vertices.
//!
//! The grid of corners holds, for each corner, the signs of the estimated
//! distance from the shape at that corner. A cell crosses the surface of the
//! shape iff not all of its eight corners have the same sign. Each crossing
//! cell gets one vertex; the vertices are numbered in the order in which the
//! cells are visited (lexicographically). For each edge between two corners
//! of different sign one quad (two triangles) is generated, connecting the
//! vertices of the four cells that share the edge.
use vstd::prelude::*;

use crate::grid::{cube_len, GridTable, GridView};

verus! {

/// The signs of the estimated distance at a corner of the grid.
#[derive(Clone, Copy, PartialEq, Eq, Debug, Structural)]
pub struct CornerSign {
    /// The sign bit of the distance is not set (the distance is `+0.0` or
    /// positive).
    pub positive: bool,
    /// The distance is smaller than zero.
    pub below_zero: bool,
}

/// The id stored for cells that do not cross the surface.
pub const NO_VERTEX: u32 = 0xffff_ffffu32;

/// The sign bit of the corner `(x, y, z)` is not set.
pub open spec fn positive(g: GridView<CornerSign>, x: int, y: int, z: int) -> bool {
    g.at(x, y, z).positive
}

/// The cell whose lowest corner is `(x, y, z)` crosses the surface: not all
/// of its eight corners have the same sign.
pub open spec fn cell_crosses(g: GridView<CornerSign>, x: int, y: int, z: int) -> bool {
    let p0 = positive(g, x, y, z);
    !{
        &&& positive(g, x, y, z + 1) == p0
        &&& positive(g, x, y + 1, z) == p0
        &&& positive(g, x, y + 1, z + 1) == p0
        &&& positive(g, x + 1, y, z) == p0
        &&& positive(g, x + 1, y, z + 1) == p0
        &&& positive(g, x + 1, y + 1, z) == p0
        &&& positive(g, x + 1, y + 1, z + 1) == p0
    }
}

/// The crossing cells `(x, y, 0)` up to `(x, y, z_end - 1)`.
pub open spec fn crossings_row(g: GridView<CornerSign>, x: int, y: int, z_end: int) -> Seq<
    (u32, u32, u32),
>
    decreases z_end,
{
    if z_end <= 0 {
        Seq::empty()
    } else if cell_crosses(g, x, y, z_end - 1) {
        crossings_row(g, x, y, z_end - 1).push((x as u32, y as u32, (z_end - 1) as u32))
    } else {
        crossings_row(g, x, y, z_end - 1)
    }
}

/// The crossing cells with first coordinate `x` and second below `y_end`.
pub open spec fn crossings_plane(g: GridView<CornerSign>, res: int, x: int, y_end: int) -> Seq<
    (u32, u32, u32),
>
    decreases y_end,
{
    if y_end <= 0 {
        Seq::empty()
    } else {
        crossings_plane(g, res, x, y_end - 1) + crossings_row(g, x, y_end - 1, res)
    }
}

/// The crossing cells with first coordinate below `x_end`.
pub open spec fn crossings_upto(g: GridView<CornerSign>, res: int, x_end: int) -> Seq<
    (u32, u32, u32),
>
    decreases x_end,
{
    if x_end <= 0 {
        Seq::empty()
    } else {
        crossings_upto(g, res, x_end - 1) + crossings_plane(g, res, x_end - 1, res)
    }
}

/// All crossing cells of a grid of corners, in lexicographic order.
pub open spec fn crossing_cells(g: GridView<CornerSign>) -> Seq<(u32, u32, u32)> {
    crossings_upto(g, g.size - 1, g.size - 1)
}

/// The vertex ids assigned to the cells of a grid of corners.
pub struct CellVertices {
    /// For each cell, the id of its vertex or `NO_VERTEX`.
    pub ids: GridTable<u32>,
    /// The cells that got a vertex; the vertex with id `i` belongs to
    /// `cells[i]`.
    pub cells: Vec<(u32, u32, u32)>,
}

/// `ids` numbers the crossing cells of `g` by their position in `cells`, and
/// holds `NO_VERTEX` for all other cells.
pub open spec fn numbers_crossings(
    g: GridView<CornerSign>,
    ids: GridView<u32>,
    cells: Seq<(u32, u32, u32)>,
) -> bool {
    &&& ids.size == g.size - 1
    &&& forall|x: int, y: int, z: int|
        #![trigger ids.at(x, y, z)]
        ids.contains(x, y, z) ==> {
            if cell_crosses(g, x, y, z) {
                &&& ids.at(x, y, z) < cells.len()
                &&& cells[ids.at(x, y, z) as int] == (x as u32, y as u32, z as u32)
            } else {
                ids.at(x, y, z) == NO_VERTEX
            }
        }
}

/// The corner signs of all eight corners of a cell, in the order
/// `(dx, dy, dz)` = (0,0,0), (0,0,1), (0,1,0), (0,1,1), (1,0,0), ...
pub open spec fn corner_positives(g: GridView<CornerSign>, x: int, y: int, z: int) -> Seq<bool> {
    seq![
        positive(g, x, y, z),
        positive(g, x, y, z + 1),
        positive(g, x, y + 1, z),
        positive(g, x, y + 1, z + 1),
        positive(g, x + 1, y, z),
        positive(g, x + 1, y, z + 1),
        positive(g, x + 1, y + 1, z),
        positive(g, x + 1, y + 1, z + 1),
    ]
}

/// The signs of the eight corners of the cell whose lowest corner is
/// `(x, y, z)`.
pub fn cell_corner_positives(
    signs: &GridTable<CornerSign>,
    x: u32,
    y: u32,
    z: u32,
) -> (r: [bool; 8])
    requires
        signs@.wf(),
        signs@.contains(x as int, y as int, z as int),
        signs@.contains(x + 1, y + 1, z + 1),
    ensures
        r@ == corner_positives(signs@, x as int, y as int, z as int),
{
    let r = [
        signs.index(x, y, z).positive,
        signs.index(x, y, z + 1).positive,
        signs.index(x, y + 1, z).positive,
        signs.index(x, y + 1, z + 1).positive,
        signs.index(x + 1, y, z).positive,
        signs.index(x + 1, y, z + 1).positive,
        signs.index(x + 1, y + 1, z).positive,
        signs.index(x + 1, y + 1, z + 1).positive,
    ];
    assert(r@ =~= corner_positives(signs@, x as int, y as int, z as int));
    r
}

/// Whether the cell whose lowest corner is `(x, y, z)` crosses the surface.
pub fn cell_crosses_surface(signs: &GridTable<CornerSign>, x: u32, y: u32, z: u32) -> (r: bool)
    requires
        signs@.wf(),
        signs@.contains(x as int, y as int, z as int),
        signs@.contains(x + 1, y + 1, z + 1),
    ensures
        r == cell_crosses(signs@, x as int, y as int, z as int),
{
    let positives = cell_corner_positives(signs, x, y, z);
    let first = positives[0];
    let mut all_same = true;
    let mut k: usize = 1;
    while k < 8
        invariant
            1 <= k <= 8,
            positives@ == corner_positives(signs@, x as int, y as int, z as int),
            first == positives@[0],
            all_same == (forall|m: int| 1 <= m < k ==> positives@[m] == first),
        decreases 8 - k,
    {
        if positives[k] != first {
            all_same = false;
        }
        k = k + 1;
    }
    proof {
        if all_same {
            assert(positives@[1] == first && positives@[2] == first && positives@[3] == first
                && positives@[4] == first && positives@[5] == first && positives@[6] == first
                && positives@[7] == first);
        }
    }
    !all_same
}

fn no_vertex_filler(x: u32, y: u32, z: u32) -> (v: u32)
    ensures
        v == NO_VERTEX,
{
    NO_VERTEX
}

/// Numbers all cells of a grid of corners that cross the surface, in the
/// order in which `cube` visits them. Every other cell gets `NO_VERTEX`.
pub fn assign_vertex_ids(signs: &GridTable<CornerSign>) -> (r: CellVertices)
    requires
        signs@.wf(),
        signs@.size >= 3,
        cube_len(signs@.size - 1) < u32::MAX,
    ensures
        r.ids@.wf(),
        r.cells@ == crossing_cells(signs@),
        numbers_crossings(signs@, r.ids@, r.cells@),
{
    let res = signs.size() - 1;
    let ghost g = signs@;
    proof {
        assert(cube_len(res as int) <= cube_len(g.size)) by (nonlinear_arith)
            requires
                res + 1 == g.size,
                0 <= res,
        ;
    }
    let mut ids = GridTable::fill_with(res, no_vertex_filler);
    let mut cells: Vec<(u32, u32, u32)> = Vec::new();
    let mut x: u32 = 0;
    while x < res
        invariant
            signs@ == g,
            g.wf(),
            res + 1 == g.size,
            res >= 2,
            cube_len(res as int) < u32::MAX,
            0 <= x <= res,
            ids@.wf(),
            ids@.size == res,
            cells@ == crossings_upto(g, res as int, x as int),
            cells@.len() <= x * res * res,
            forall|a: int, b: int, c: int|
                #![trigger ids@.at(a, b, c)]
                ids@.contains(a, b, c) ==> {
                    if a < x && cell_crosses(g, a, b, c) {
                        &&& ids@.at(a, b, c) < cells@.len()
                        &&& cells@[ids@.at(a, b, c) as int] == (a as u32, b as u32, c as u32)
                    } else {
                        ids@.at(a, b, c) == NO_VERTEX
                    }
                },
        decreases res - x,
    {
        let mut y: u32 = 0;
        while y < res
            invariant
                signs@ == g,
                g.wf(),
                res + 1 == g.size,
                res >= 2,
                cube_len(res as int) < u32::MAX,
                0 <= x < res,
                0 <= y <= res,
                ids@.wf(),
                ids@.size == res,
                cells@ == crossings_upto(g, res as int, x as int) + crossings_plane(
                    g,
                    res as int,
                    x as int,
                    y as int,
                ),
                cells@.len() <= x * res * res + y * res,
                forall|a: int, b: int, c: int|
                    #![trigger ids@.at(a, b, c)]
                    ids@.contains(a, b, c) ==> {
                        if (a < x || (a == x && b < y)) && cell_crosses(g, a, b, c) {
                            &&& ids@.at(a, b, c) < cells@.len()
                            &&& cells@[ids@.at(a, b, c) as int] == (a as u32, b as u32, c as u32)
                        } else {
                            ids@.at(a, b, c) == NO_VERTEX
                        }
                    },
            decreases res - y,
        {
            let mut z: u32 = 0;
            while z < res
                invariant
                    signs@ == g,
                    g.wf(),
                    res + 1 == g.size,
                    res >= 2,
                    cube_len(res as int) < u32::MAX,
                    0 <= x < res,
                    0 <= y < res,
                    0 <= z <= res,
                    ids@.wf(),
                    ids@.size == res,
                    cells@ == crossings_upto(g, res as int, x as int) + crossings_plane(
                        g,
                        res as int,
                        x as int,
                        y as int,
                    ) + crossings_row(g, x as int, y as int, z as int),
                    cells@.len() <= x * res * res + y * res + z,
                    forall|a: int, b: int, c: int|
                        #![trigger ids@.at(a, b, c)]
                        ids@.contains(a, b, c) ==> {
                            if (a < x || (a == x && b < y) || (a == x && b == y && c < z))
                                && cell_crosses(g, a, b, c) {
                                &&& ids@.at(a, b, c) < cells@.len()
                                &&& cells@[ids@.at(a, b, c) as int] == (
                                    a as u32,
                                    b as u32,
                                    c as u32,
                                )
                            } else {
                                ids@.at(a, b, c) == NO_VERTEX
                            }
                        },
                decreases res - z,
            {
                if cell_crosses_surface(signs, x, y, z) {
                    proof {
                        crate::grid::lemma_grid_index_bounds(
                            res as int,
                            x as int,
                            y as int,
                            z as int,
                        );
                    }
                    let id = cells.len() as u32;
                    let ghost before = ids@;
                    ids.set(x, y, z, id);
                    cells.push((x, y, z));
                    proof {
                        assert forall|a: int, b: int, c: int|
                            #![trigger ids@.at(a, b, c)]
                            ids@.contains(a, b, c) && (a, b, c) != (
                                x as int,
                                y as int,
                                z as int,
                            ) implies ids@.at(a, b, c) == before.at(a, b, c) by {
                            crate::grid::lemma_grid_read_after_write(
                                before,
                                x as int,
                                y as int,
                                z as int,
                                id,
                                a,
                                b,
                                c,
                            );
                        }
                        crate::grid::lemma_grid_read_after_write(
                            before,
                            x as int,
                            y as int,
                            z as int,
                            id,
                            x as int,
                            y as int,
                            z as int,
                        );
                    }
                }
                z = z + 1;
                proof {
                    assert(cells@ =~= crossings_upto(g, res as int, x as int) + crossings_plane(
                        g,
                        res as int,
                        x as int,
                        y as int,
                    ) + crossings_row(g, x as int, y as int, z as int));
                }
            }
            y = y + 1;
            proof {
                assert(cells@ =~= crossings_upto(g, res as int, x as int) + crossings_plane(
                    g,
                    res as int,
                    x as int,
                    y as int,
                ));
                assert((y - 1) * res + res == y * res) by (nonlinear_arith);
            }
        }
        x = x + 1;
        proof {
            assert(cells@ =~= crossings_upto(g, res as int, x as int));
            assert((x - 1) * res * res + res * res == x * res * res) by (nonlinear_arith);
        }
    }
    CellVertices { ids: ids, cells: cells }
}

// ===========================================================================
/// The two corners (as indices into `corner_positives`) of each of the
/// twelve edges of a cell: first the four edges along x, then the four
/// along y, then the four along z.
pub open spec fn edge_corners(k: int) -> (usize, usize) {
    if k == 0 {
        (0, 4)
    } else if k == 1 {
        (1, 5)
    } else if k == 2 {
        (2, 6)
    } else if k == 3 {
        (3, 7)
    } else if k == 4 {
        (0, 2)
    } else if k == 5 {
        (1, 3)
    } else if k == 6 {
        (4, 6)
    } else if k == 7 {
        (5, 7)
    } else if k == 8 {
        (0, 1)
    } else if k == 9 {
        (2, 3)
    } else if k == 10 {
        (4, 5)
    } else {
        (6, 7)
    }
}

fn edge(k: usize) -> (r: (usize, usize))
    requires
        k < 12,
    ensures
        r == edge_corners(k as int),
        r.0 < 8 && r.1 < 8,
{
    match k {
        0 => (0, 4),
        1 => (1, 5),
        2 => (2, 6),
        3 => (3, 7),
        4 => (0, 2),
        5 => (1, 3),
        6 => (4, 6),
        7 => (5, 7),
        8 => (0, 1),
        9 => (2, 3),
        10 => (4, 5),
        _ => (6, 7),
    }
}

/// The edges among the first `k` edges whose corners have different signs.
pub open spec fn crossing_edges_upto(positives: Seq<bool>, k: int) -> Seq<(usize, usize)>
    decreases k,
{
    if k <= 0 {
        Seq::empty()
    } else {
        let e = edge_corners(k - 1);
        if positives[e.0 as int] != positives[e.1 as int] {
            crossing_edges_upto(positives, k - 1).push(e)
        } else {
            crossing_edges_upto(positives, k - 1)
        }
    }
}

/// The edges of a cell whose two corners have different signs, in the order
/// of `edge_corners`: where the surface crosses the cell's edges.
pub fn crossing_edges(positives: &[bool; 8]) -> (r: Vec<(usize, usize)>)
    ensures
        r@ == crossing_edges_upto(positives@, 12),
{
    let mut out: Vec<(usize, usize)> = Vec::new();
    let mut k: usize = 0;
    while k < 12
        invariant
            k <= 12,
            out@ == crossing_edges_upto(positives@, k as int),
        decreases 12 - k,
    {
        let (from, to) = edge(k);
        if positives[from] != positives[to] {
            out.push((from, to));
        }
        k = k + 1;
    }
    out
}

/// The corners `a < b` of a cell (numbered `4·dx + 2·dy + dz`) are the two
/// ends of one of its twelve edges: they differ in exactly one coordinate.
pub open spec fn is_cell_edge(a: int, b: int) -> bool {
    &&& 0 <= a < b < 8
    &&& {
        ||| (b - a == 4 && a < 4)
        ||| (b - a == 2 && a % 4 < 2)
        ||| (b - a == 1 && a % 2 == 0)
    }
}

/// The position in the edge table of the cube edge from corner `e.0` to
/// corner `e.1`.
pub open spec fn edge_index(e: (usize, usize)) -> int {
    let a = e.0 as int;
    let b = e.1 as int;
    if b - a == 4 {
        a
    } else if b - a == 2 {
        if a < 4 {
            4 + a
        } else {
            2 + a
        }
    } else {
        8 + a / 2
    }
}

/// Every entry of the edge table is a cube edge, stored at its own position.
proof fn lemma_edge_table_entries(k: int)
    requires
        0 <= k < 12,
    ensures
        is_cell_edge(edge_corners(k).0 as int, edge_corners(k).1 as int),
        edge_index(edge_corners(k)) == k,
{
}

/// Every cube edge stands in the edge table.
proof fn lemma_edge_table_complete(a: int, b: int)
    requires
        is_cell_edge(a, b),
    ensures
        0 <= edge_index((a as usize, b as usize)) < 12,
        edge_corners(edge_index((a as usize, b as usize))) == (a as usize, b as usize),
{
}

/// The crossing edges of a cell are exactly the edges of the cube whose two
/// corners have different signs, each listed once: every listed pair is a
/// cube edge (its corners differ in exactly one coordinate) with differing
/// signs, no pair is listed twice, and every cube edge with differing signs
/// is listed.
pub proof fn lemma_crossing_edges_are_cube_edges(positives: Seq<bool>)
    requires
        positives.len() == 8,
    ensures
        forall|k: int|
            0 <= k < crossing_edges_upto(positives, 12).len() ==> {
                let e = #[trigger] crossing_edges_upto(positives, 12)[k];
                &&& is_cell_edge(e.0 as int, e.1 as int)
                &&& positives[e.0 as int] != positives[e.1 as int]
            },
        crossing_edges_upto(positives, 12).no_duplicates(),
        forall|a: int, b: int|
            is_cell_edge(a, b) && positives[a] != positives[b] ==> crossing_edges_upto(
                positives,
                12,
            ).contains((a as usize, b as usize)),
{
    let r = crossing_edges_upto(positives, 12);
    lemma_crossing_edges_sound(positives, 12);
    assert forall|i: int| 0 <= i < r.len() implies is_cell_edge(
        (#[trigger] r[i]).0 as int,
        r[i].1 as int,
    ) by {
        let k = choose|k: int| 0 <= k < 12 && #[trigger] edge_corners(k) == r[i];
        lemma_edge_table_entries(k);
    }
    assert forall|a: int, b: int|
        is_cell_edge(a, b) && positives[a] != positives[b] implies r.contains(
        (a as usize, b as usize),
    ) by {
        lemma_edge_table_complete(a, b);
        lemma_crossing_edges_keep(positives, edge_index((a as usize, b as usize)), 12);
    }
}

/// The corner of a cell that differs from corner `c` in the coordinate of
/// weight `w` (4 for x, 2 for y, 1 for z) of the numbering `4·dx + 2·dy + dz`.
pub open spec fn corner_across(c: int, w: int) -> int {
    if (c / w) % 2 == 0 {
        c + w
    } else {
        c - w
    }
}

/// The cube edge between the corners `a` and `b`, lower corner first.
pub open spec fn edge_between(a: int, b: int) -> (usize, usize) {
    if a < b {
        (a as usize, b as usize)
    } else {
        (b as usize, a as usize)
    }
}

/// The three edges of a cell that meet at its corner `c`.
pub open spec fn edges_at(c: int) -> Set<(usize, usize)> {
    set![
        edge_between(c, corner_across(c, 4)),
        edge_between(c, corner_across(c, 2)),
        edge_between(c, corner_across(c, 1)),
    ]
}

/// The cube edges with `c` as one end are exactly the three edges at `c`.
proof fn lemma_cell_edges_at(c: int, x: (usize, usize))
    requires
        0 <= c < 8,
    ensures
        is_cell_edge(x.0 as int, x.1 as int) && (x.0 == c || x.1 == c) <==> edges_at(c).contains(x),
        edges_at(c).len() == 3,
{
    broadcast use vstd::set::group_set_axioms;

    let e4 = edge_between(c, corner_across(c, 4));
    let e2 = edge_between(c, corner_across(c, 2));
    let e1 = edge_between(c, corner_across(c, 1));
    assert(e4 != e2 && e4 != e1 && e2 != e1);
    assert(Set::<(usize, usize)>::empty().insert(e4).len() == 1);
    assert(Set::<(usize, usize)>::empty().insert(e4).insert(e2).len() == 2);
}

/// A cell with exactly one corner `c` of its own sign crosses the surface in
/// exactly three edges, the three edges that meet at `c`.
pub proof fn lemma_single_corner_crossings(positives: Seq<bool>, c: int)
    requires
        positives.len() == 8,
        0 <= c < 8,
        forall|k: int| 0 <= k < 8 && k != c ==> positives[k] != positives[c],
    ensures
        crossing_edges_upto(positives, 12).len() == 3,
        crossing_edges_upto(positives, 12).to_set() == edges_at(c),
{
    let r = crossing_edges_upto(positives, 12);
    lemma_crossing_edges_are_cube_edges(positives);
    lemma_cell_edges_at(c, (0, 0));
    assert forall|x: (usize, usize)| r.contains(x) <==> edges_at(c).contains(x) by {
        lemma_cell_edges_at(c, x);
        if r.contains(x) {
            let i = choose|i: int| 0 <= i < r.len() && r[i] == x;
            assert(is_cell_edge(r[i].0 as int, r[i].1 as int));
        }
        if edges_at(c).contains(x) {
            assert(x == (x.0 as int as usize, x.1 as int as usize));
        }
    }
    assert(r.to_set() =~= edges_at(c));
    r.unique_seq_to_set();
}

/// An edge with differing signs among the first `n` edges is listed.
proof fn lemma_crossing_edges_keep(positives: Seq<bool>, k: int, n: int)
    requires
        positives.len() == 8,
        0 <= k < n <= 12,
        positives[edge_corners(k).0 as int] != positives[edge_corners(k).1 as int],
    ensures
        crossing_edges_upto(positives, n).contains(edge_corners(k)),
    decreases n,
{
    if k < n - 1 {
        lemma_crossing_edges_keep(positives, k, n - 1);
        let prev = crossing_edges_upto(positives, n - 1);
        let i = choose|i: int| 0 <= i < prev.len() && prev[i] == edge_corners(k);
        let cur = crossing_edges_upto(positives, n);
        assert(cur[i] == prev[i]);
    } else {
        let cur = crossing_edges_upto(positives, n);
        assert(cur[cur.len() - 1] == edge_corners(k));
    }
}

/// Each edge listed among the first `n` is a table entry before `n` whose
/// corners have different signs, and none is listed twice.
proof fn lemma_crossing_edges_sound(positives: Seq<bool>, n: int)
    requires
        positives.len() == 8,
        0 <= n <= 12,
    ensures
        forall|i: int|
            #![trigger crossing_edges_upto(positives, n)[i]]
            0 <= i < crossing_edges_upto(positives, n).len() ==> exists|k: int|
                0 <= k < n && #[trigger] edge_corners(k) == crossing_edges_upto(positives, n)[i],
        forall|i: int|
            0 <= i < crossing_edges_upto(positives, n).len() ==> positives[(
            #[trigger] crossing_edges_upto(positives, n)[i]).0 as int]
                != positives[crossing_edges_upto(positives, n)[i].1 as int],
        crossing_edges_upto(positives, n).no_duplicates(),
    decreases n,
{
    if n > 0 {
        lemma_crossing_edges_sound(positives, n - 1);
        let prev = crossing_edges_upto(positives, n - 1);
        let cur = crossing_edges_upto(positives, n);
        let e = edge_corners(n - 1);
        if positives[e.0 as int] != positives[e.1 as int] {
            assert(cur == prev.push(e));
            lemma_edge_table_entries(n - 1);
            assert forall|i: int| 0 <= i < prev.len() implies prev[i] != e by {
                let k = choose|k: int| 0 <= k < n - 1 && #[trigger] edge_corners(k) == prev[i];
                lemma_edge_table_entries(k);
            }
            assert forall|i: int| #![trigger cur[i]] 0 <= i < cur.len() implies exists|k: int|
                0 <= k < n && #[trigger] edge_corners(k) == cur[i] by {
                if i < prev.len() {
                    let k = choose|k: int| 0 <= k < n - 1 && #[trigger] edge_corners(k) == prev[i];
                    assert(edge_corners(k) == cur[i]);
                } else {
                    assert(edge_corners(n - 1) == cur[i]);
                }
            }
        } else {
            assert(cur == prev);
        }
    }
}

// ===========================================================================
/// One quad given by its four vertices, as two triangles in one winding.
pub open spec fn quad_a(v0: u32, v1: u32, v2: u32, v3: u32) -> Seq<u32> {
    seq![v0, v2, v1, v1, v2, v3]
}

/// One quad given by its four vertices, as two triangles in the other
/// winding.
pub open spec fn quad_b(v0: u32, v1: u32, v2: u32, v3: u32) -> Seq<u32> {
    seq![v0, v1, v2, v1, v3, v2]
}

/// The face for the edge from corner `(x, y, z)` in +x direction, if that
/// edge crosses the surface.
pub open spec fn face_x(g: GridView<CornerSign>, ids: GridView<u32>, x: int, y: int, z: int) -> Seq<
    u32,
> {
    if y > 0 && z > 0 && positive(g, x, y, z) != positive(g, x + 1, y, z) {
        let v0 = ids.at(x, y - 1, z - 1);
        let v1 = ids.at(x, y - 1, z);
        let v2 = ids.at(x, y, z - 1);
        let v3 = ids.at(x, y, z);
        if g.at(x, y, z).below_zero {
            quad_a(v0, v1, v2, v3)
        } else {
            quad_b(v0, v1, v2, v3)
        }
    } else {
        Seq::empty()
    }
}

/// The face for the edge from corner `(x, y, z)` in +y direction, if that
/// edge crosses the surface.
pub open spec fn face_y(g: GridView<CornerSign>, ids: GridView<u32>, x: int, y: int, z: int) -> Seq<
    u32,
> {
    if x > 0 && z > 0 && positive(g, x, y, z) != positive(g, x, y + 1, z) {
        let v0 = ids.at(x - 1, y, z - 1);
        let v1 = ids.at(x - 1, y, z);
        let v2 = ids.at(x, y, z - 1);
        let v3 = ids.at(x, y, z);
        if g.at(x, y, z).below_zero {
            quad_b(v0, v1, v2, v3)
        } else {
            quad_a(v0, v1, v2, v3)
        }
    } else {
        Seq::empty()
    }
}

/// The face for the edge from corner `(x, y, z)` in +z direction, if that
/// edge crosses the surface.
pub open spec fn face_z(g: GridView<CornerSign>, ids: GridView<u32>, x: int, y: int, z: int) -> Seq<
    u32,
> {
    if x > 0 && y > 0 && positive(g, x, y, z) != positive(g, x, y, z + 1) {
        let v0 = ids.at(x - 1, y - 1, z);
        let v1 = ids.at(x - 1, y, z);
        let v2 = ids.at(x, y - 1, z);
        let v3 = ids.at(x, y, z);
        if g.at(x, y, z).below_zero {
            quad_a(v0, v1, v2, v3)
        } else {
            quad_b(v0, v1, v2, v3)
        }
    } else {
        Seq::empty()
    }
}

/// All faces of the edges starting at corner `(x, y, z)`.
pub open spec fn corner_faces(g: GridView<CornerSign>, ids: GridView<u32>, x: int, y: int, z: int) -> Seq<
    u32,
> {
    face_x(g, ids, x, y, z) + face_y(g, ids, x, y, z) + face_z(g, ids, x, y, z)
}

/// Faces of the corners `(x, y, 0)` up to `(x, y, z_end - 1)`.
pub open spec fn faces_row(g: GridView<CornerSign>, ids: GridView<u32>, x: int, y: int, z_end: int) -> Seq<
    u32,
>
    decreases z_end,
{
    if z_end <= 0 {
        Seq::empty()
    } else {
        faces_row(g, ids, x, y, z_end - 1) + corner_faces(g, ids, x, y, z_end - 1)
    }
}

/// Faces of the corners with first coordinate `x` and second below `y_end`.
pub open spec fn faces_plane(g: GridView<CornerSign>, ids: GridView<u32>, x: int, y_end: int) -> Seq<
    u32,
>
    decreases y_end,
{
    if y_end <= 0 {
        Seq::empty()
    } else {
        faces_plane(g, ids, x, y_end - 1) + faces_row(g, ids, x, y_end - 1, ids.size)
    }
}

/// Faces of the corners with first coordinate below `x_end`.
pub open spec fn faces_upto(g: GridView<CornerSign>, ids: GridView<u32>, x_end: int) -> Seq<u32>
    decreases x_end,
{
    if x_end <= 0 {
        Seq::empty()
    } else {
        faces_upto(g, ids, x_end - 1) + faces_plane(g, ids, x_end - 1, ids.size)
    }
}

/// All faces of a grid: for every corner of a cell (in lexicographic order)
/// the faces of the edges starting there.
pub open spec fn all_faces(g: GridView<CornerSign>, ids: GridView<u32>) -> Seq<u32> {
    faces_upto(g, ids, ids.size)
}

/// Generates the faces (as triangle vertex indices) of the mesh, given the
/// signs at all corners and the vertex ids of all cells.
pub fn generate_faces(signs: &GridTable<CornerSign>, ids: &GridTable<u32>) -> (r: Vec<u32>)
    requires
        signs@.wf(),
        ids@.wf(),
        signs@.size == ids@.size + 1,
    ensures
        r@ == all_faces(signs@, ids@),
{
    let res = ids.size();
    let ghost g = signs@;
    let ghost iv = ids@;
    let mut indices: Vec<u32> = Vec::new();
    let mut x: u32 = 0;
    while x < res
        invariant
            signs@ == g,
            ids@ == iv,
            g.wf(),
            iv.wf(),
            g.size == res + 1,
            iv.size == res,
            0 <= x <= res,
            indices@ == faces_upto(g, iv, x as int),
        decreases res - x,
    {
        let mut y: u32 = 0;
        while y < res
            invariant
                signs@ == g,
                ids@ == iv,
                g.wf(),
                iv.wf(),
                g.size == res + 1,
                iv.size == res,
                0 <= x < res,
                0 <= y <= res,
                indices@ == faces_upto(g, iv, x as int) + faces_plane(g, iv, x as int, y as int),
            decreases res - y,
        {
            let mut z: u32 = 0;
            while z < res
                invariant
                    signs@ == g,
                    ids@ == iv,
                    g.wf(),
                    iv.wf(),
                    g.size == res + 1,
                    iv.size == res,
                    0 <= x < res,
                    0 <= y < res,
                    0 <= z <= res,
                    indices@ == faces_upto(g, iv, x as int) + faces_plane(g, iv, x as int, y as int)
                        + faces_row(g, iv, x as int, y as int, z as int),
                decreases res - z,
            {
                push_corner_faces(signs, ids, x, y, z, &mut indices);
                z = z + 1;
                proof {
                    assert(indices@ =~= faces_upto(g, iv, x as int) + faces_plane(
                        g,
                        iv,
                        x as int,
                        y as int,
                    ) + faces_row(g, iv, x as int, y as int, z as int));
                }
            }
            y = y + 1;
            proof {
                assert(indices@ =~= faces_upto(g, iv, x as int) + faces_plane(
                    g,
                    iv,
                    x as int,
                    y as int,
                ));
            }
        }
        x = x + 1;
        proof {
            assert(indices@ =~= faces_upto(g, iv, x as int));
        }
    }
    indices
}

/// Appends the faces of the edges that start at corner `(x, y, z)`.
fn push_corner_faces(
    signs: &GridTable<CornerSign>,
    ids: &GridTable<u32>,
    x: u32,
    y: u32,
    z: u32,
    indices: &mut Vec<u32>,
)
    requires
        signs@.wf(),
        ids@.wf(),
        signs@.size == ids@.size + 1,
        ids@.contains(x as int, y as int, z as int),
    ensures
        final(indices)@ == old(indices)@ + corner_faces(signs@, ids@, x as int, y as int, z as int),
{
    let ghost g = signs@;
    let ghost iv = ids@;
    let ghost before = indices@;
    let base = signs.index(x, y, z);
    let base_sign = base.positive;
    // Edge from the current corner pointing in +x direction
    if y > 0 && z > 0 && base_sign != signs.index(x + 1, y, z).positive {
        let v0 = *ids.index(x, y - 1, z - 1);
        let v1 = *ids.index(x, y - 1, z);
        let v2 = *ids.index(x, y, z - 1);
        let v3 = *ids.index(x, y, z);
        if base.below_zero {
            push_quad(indices, v0, v2, v1, v1, v2, v3);
        } else {
            push_quad(indices, v0, v1, v2, v1, v3, v2);
        }
    }
    let ghost after_x = indices@;
    // Edge from the current corner pointing in +y direction
    if x > 0 && z > 0 && base_sign != signs.index(x, y + 1, z).positive {
        let v0 = *ids.index(x - 1, y, z - 1);
        let v1 = *ids.index(x - 1, y, z);
        let v2 = *ids.index(x, y, z - 1);
        let v3 = *ids.index(x, y, z);
        if base.below_zero {
            push_quad(indices, v0, v1, v2, v1, v3, v2);
        } else {
            push_quad(indices, v0, v2, v1, v1, v2, v3);
        }
    }
    let ghost after_y = indices@;
    // Edge from the current corner pointing in +z direction
    if x > 0 && y > 0 && base_sign != signs.index(x, y, z + 1).positive {
        let v0 = *ids.index(x - 1, y - 1, z);
        let v1 = *ids.index(x - 1, y, z);
        let v2 = *ids.index(x, y - 1, z);
        let v3 = *ids.index(x, y, z);
        if base.below_zero {
            push_quad(indices, v0, v2, v1, v1, v2, v3);
        } else {
            push_quad(indices, v0, v1, v2, v1, v3, v2);
        }
    }
    proof {
        assert(after_x =~= before + face_x(g, iv, x as int, y as int, z as int));
        assert(after_y =~= after_x + face_y(g, iv, x as int, y as int, z as int));
        assert(indices@ =~= after_y + face_z(g, iv, x as int, y as int, z as int));
    }
}

/// Appends six vertex indices.
fn push_quad(indices: &mut Vec<u32>, a: u32, b: u32, c: u32, d: u32, e: u32, f: u32)
    ensures
        final(indices)@ == old(indices)@ + seq![a, b, c, d, e, f],
{
    indices.push(a);
    indices.push(b);
    indices.push(c);
    indices.push(d);
    indices.push(e);
    indices.push(f);
    assert(indices@ =~= old(indices)@ + seq![a, b, c, d, e, f]);
}

// ===========================================================================
/// All elements of `s` are smaller than `n`.
pub open spec fn all_below(s: Seq<u32>, n: int) -> bool {
    forall|i: int| 0 <= i < s.len() ==> (#[trigger] s[i] as int) < n
}

proof fn lemma_all_below_concat(a: Seq<u32>, b: Seq<u32>, n: int)
    requires
        all_below(a, n),
        all_below(b, n),
    ensures
        all_below(a + b, n),
{
    assert forall|i: int| 0 <= i < (a + b).len() implies ((a + b)[i] as int) < n by {
        if i < a.len() {
            assert((a + b)[i] == a[i]);
        } else {
            assert((a + b)[i] == b[i - a.len()]);
        }
    }
}

proof fn lemma_corner_faces_below(
    g: GridView<CornerSign>,
    ids: GridView<u32>,
    cells: Seq<(u32, u32, u32)>,
    x: int,
    y: int,
    z: int,
)
    requires
        g.wf(),
        ids.wf(),
        g.size == ids.size + 1,
        numbers_crossings(g, ids, cells),
        ids.contains(x, y, z),
    ensures
        all_below(corner_faces(g, ids, x, y, z), cells.len() as int),
{
    let n = cells.len() as int;
    if y > 0 && z > 0 && positive(g, x, y, z) != positive(g, x + 1, y, z) {
    assert(cell_crosses(g, x, y - 1, z - 1));
    assert(cell_crosses(g, x, y - 1, z));
    assert(cell_crosses(g, x, y, z - 1));
    assert(cell_crosses(g, x, y, z));
        assert(ids.at(x, y - 1, z - 1) < n && ids.at(x, y - 1, z) < n && ids.at(x, y, z - 1) < n
            && ids.at(x, y, z) < n);
    }
    assert(all_below(face_x(g, ids, x, y, z), n));
    if x > 0 && z > 0 && positive(g, x, y, z) != positive(g, x, y + 1, z) {
    assert(cell_crosses(g, x - 1, y, z - 1));
    assert(cell_crosses(g, x - 1, y, z));
    assert(cell_crosses(g, x, y, z - 1));
    assert(cell_crosses(g, x, y, z));
        assert(ids.at(x - 1, y, z - 1) < n && ids.at(x - 1, y, z) < n && ids.at(x, y, z - 1) < n
            && ids.at(x, y, z) < n);
    }
    assert(all_below(face_y(g, ids, x, y, z), n));
    if x > 0 && y > 0 && positive(g, x, y, z) != positive(g, x, y, z + 1) {
    assert(cell_crosses(g, x - 1, y - 1, z));
    assert(cell_crosses(g, x - 1, y, z));
    assert(cell_crosses(g, x, y - 1, z));
    assert(cell_crosses(g, x, y, z));
        assert(ids.at(x - 1, y - 1, z) < n && ids.at(x - 1, y, z) < n && ids.at(x, y - 1, z) < n
            && ids.at(x, y, z) < n);
    }
    assert(all_below(face_z(g, ids, x, y, z), n));
    lemma_all_below_concat(face_x(g, ids, x, y, z), face_y(g, ids, x, y, z), n);
    lemma_all_below_concat(
        face_x(g, ids, x, y, z) + face_y(g, ids, x, y, z),
        face_z(g, ids, x, y, z),
        n,
    );
}

proof fn lemma_faces_row_below(
    g: GridView<CornerSign>,
    ids: GridView<u32>,
    cells: Seq<(u32, u32, u32)>,
    x: int,
    y: int,
    z_end: int,
)
    requires
        g.wf(),
        ids.wf(),
        g.size == ids.size + 1,
        numbers_crossings(g, ids, cells),
        0 <= x < ids.size,
        0 <= y < ids.size,
        z_end <= ids.size,
    ensures
        all_below(faces_row(g, ids, x, y, z_end), cells.len() as int),
    decreases z_end,
{
    if z_end > 0 {
        lemma_faces_row_below(g, ids, cells, x, y, z_end - 1);
        lemma_corner_faces_below(g, ids, cells, x, y, z_end - 1);
        lemma_all_below_concat(
            faces_row(g, ids, x, y, z_end - 1),
            corner_faces(g, ids, x, y, z_end - 1),
            cells.len() as int,
        );
    }
}

proof fn lemma_faces_plane_below(
    g: GridView<CornerSign>,
    ids: GridView<u32>,
    cells: Seq<(u32, u32, u32)>,
    x: int,
    y_end: int,
)
    requires
        g.wf(),
        ids.wf(),
        g.size == ids.size + 1,
        numbers_crossings(g, ids, cells),
        0 <= x < ids.size,
        y_end <= ids.size,
    ensures
        all_below(faces_plane(g, ids, x, y_end), cells.len() as int),
    decreases y_end,
{
    if y_end > 0 {
        lemma_faces_plane_below(g, ids, cells, x, y_end - 1);
        lemma_faces_row_below(g, ids, cells, x, y_end - 1, ids.size);
        lemma_all_below_concat(
            faces_plane(g, ids, x, y_end - 1),
            faces_row(g, ids, x, y_end - 1, ids.size),
            cells.len() as int,
        );
    }
}

proof fn lemma_faces_upto_below(
    g: GridView<CornerSign>,
    ids: GridView<u32>,
    cells: Seq<(u32, u32, u32)>,
    x_end: int,
)
    requires
        g.wf(),
        ids.wf(),
        g.size == ids.size + 1,
        numbers_crossings(g, ids, cells),
        x_end <= ids.size,
    ensures
        all_below(faces_upto(g, ids, x_end), cells.len() as int),
    decreases x_end,
{
    if x_end > 0 {
        lemma_faces_upto_below(g, ids, cells, x_end - 1);
        lemma_faces_plane_below(g, ids, cells, x_end - 1, ids.size);
        lemma_all_below_concat(
            faces_upto(g, ids, x_end - 1),
            faces_plane(g, ids, x_end - 1, ids.size),
            cells.len() as int,
        );
    }
}

/// The faces only use generated vertices: when the vertex ids of the cells
/// are those that `assign_vertex_ids` hands out, every index in the faces
/// that `generate_faces` produces is the id of one of the generated
/// vertices. (An edge crossing the surface makes all four cells around it
/// cross the surface, so each of them got a vertex.)
pub proof fn lemma_faces_use_generated_vertices(
    g: GridView<CornerSign>,
    ids: GridView<u32>,
    cells: Seq<(u32, u32, u32)>,
)
    requires
        g.wf(),
        ids.wf(),
        g.size == ids.size + 1,
        numbers_crossings(g, ids, cells),
    ensures
        forall|i: int|
            0 <= i < all_faces(g, ids).len() ==> (#[trigger] all_faces(g, ids)[i] as int)
                < cells.len(),
{
    lemma_faces_upto_below(g, ids, cells, ids.size);
}

/// The position of the cell whose vertex has id `id`, as integers.
pub open spec fn vertex_cell(cells: Seq<(u32, u32, u32)>, id: u32) -> (int, int, int) {
    let c = cells[id as int];
    (c.0 as int, c.1 as int, c.2 as int)
}

/// The normal (cross product `(p1 - p0) × (p2 - p0)`) of the triangle
/// `p0, p1, p2`; its direction follows the winding of the triangle.
pub open spec fn triangle_normal(p0: (int, int, int), p1: (int, int, int), p2: (int, int, int)) -> (
    int,
    int,
    int,
) {
    let u = (p1.0 - p0.0, p1.1 - p0.1, p1.2 - p0.2);
    let v = (p2.0 - p0.0, p2.1 - p0.1, p2.2 - p0.2);
    (u.1 * v.2 - u.2 * v.1, u.2 * v.0 - u.0 * v.2, u.0 * v.1 - u.1 * v.0)
}

/// `face` is a quad of two triangles over the vertices of `cells`, and both
/// triangles, placed at the positions of their cells, have the normal `n`.
pub open spec fn quad_with_normal(
    cells: Seq<(u32, u32, u32)>,
    face: Seq<u32>,
    n: (int, int, int),
) -> bool {
    &&& face.len() == 6
    &&& triangle_normal(
        vertex_cell(cells, face[0]),
        vertex_cell(cells, face[1]),
        vertex_cell(cells, face[2]),
    ) == n
    &&& triangle_normal(
        vertex_cell(cells, face[3]),
        vertex_cell(cells, face[4]),
        vertex_cell(cells, face[5]),
    ) == n
}

/// The normal of a triangle given by its first corner and the steps from
/// it to the other two.
proof fn lemma_triangle_steps(
    p0: (int, int, int),
    p1: (int, int, int),
    p2: (int, int, int),
    u: (int, int, int),
    v: (int, int, int),
)
    requires
        p1 == (p0.0 + u.0, p0.1 + u.1, p0.2 + u.2),
        p2 == (p0.0 + v.0, p0.1 + v.1, p0.2 + v.2),
    ensures
        triangle_normal(p0, p1, p2) == (u.1 * v.2 - u.2 * v.1, u.2 * v.0 - u.0 * v.2, u.0 * v.1
            - u.1 * v.0),
{
    assert(p1.0 - p0.0 == u.0 && p1.1 - p0.1 == u.1 && p1.2 - p0.2 == u.2);
    assert(p2.0 - p0.0 == v.0 && p2.1 - p0.1 == v.1 && p2.2 - p0.2 == v.2);
}

/// The faces are oriented consistently with the surface: the face of a
/// crossing edge from corner `(x, y, z)` in +x, +y or +z direction is a quad
/// whose two triangles, placed at the cells of their vertices, have the unit
/// normal along that axis pointing away from the corner `(x, y, z)` when its
/// distance is negative (towards the outside), and towards it otherwise. The
/// same rule holds for all three axes.
pub proof fn lemma_face_orientation(
    g: GridView<CornerSign>,
    ids: GridView<u32>,
    cells: Seq<(u32, u32, u32)>,
    x: int,
    y: int,
    z: int,
)
    requires
        g.wf(),
        ids.wf(),
        g.size == ids.size + 1,
        numbers_crossings(g, ids, cells),
        ids.contains(x, y, z),
    ensures
        ({
            let s: int = if g.at(x, y, z).below_zero {
                1
            } else {
                -1
            };
            &&& (y > 0 && z > 0 && positive(g, x, y, z) != positive(g, x + 1, y, z))
                ==> quad_with_normal(cells, face_x(g, ids, x, y, z), (s, 0, 0))
            &&& (x > 0 && z > 0 && positive(g, x, y, z) != positive(g, x, y + 1, z))
                ==> quad_with_normal(cells, face_y(g, ids, x, y, z), (0, s, 0))
            &&& (x > 0 && y > 0 && positive(g, x, y, z) != positive(g, x, y, z + 1))
                ==> quad_with_normal(cells, face_z(g, ids, x, y, z), (0, 0, s))
        }),
{
    if y > 0 && z > 0 && positive(g, x, y, z) != positive(g, x + 1, y, z) {
        lemma_face_x_orientation(g, ids, cells, x, y, z);
    }
    if x > 0 && z > 0 && positive(g, x, y, z) != positive(g, x, y + 1, z) {
        lemma_face_y_orientation(g, ids, cells, x, y, z);
    }
    if x > 0 && y > 0 && positive(g, x, y, z) != positive(g, x, y, z + 1) {
        lemma_face_z_orientation(g, ids, cells, x, y, z);
    }
}

/// The face of a crossing edge in +x direction has its normal along x.
proof fn lemma_face_x_orientation(
    g: GridView<CornerSign>,
    ids: GridView<u32>,
    cells: Seq<(u32, u32, u32)>,
    x: int,
    y: int,
    z: int,
)
    requires
        g.wf(),
        ids.wf(),
        g.size == ids.size + 1,
        numbers_crossings(g, ids, cells),
        ids.contains(x, y, z),
        y > 0 && z > 0 && positive(g, x, y, z) != positive(g, x + 1, y, z),
    ensures
        quad_with_normal(
            cells,
            face_x(g, ids, x, y, z),
            (if g.at(x, y, z).below_zero { 1int } else { -1int }, 0, 0),
        ),
{
    let v0 = ids.at(x, y - 1, z - 1);
    let v1 = ids.at(x, y - 1, z);
    let v2 = ids.at(x, y, z - 1);
    let v3 = ids.at(x, y, z);
    let p0: (int, int, int) = (x, y - 1, z - 1);
    let p1: (int, int, int) = (x, y - 1, z);
    let p2: (int, int, int) = (x, y, z - 1);
    let p3: (int, int, int) = (x, y, z);
    assert(cell_crosses(g, x, y - 1, z - 1));
    assert(cell_crosses(g, x, y - 1, z));
    assert(cell_crosses(g, x, y, z - 1));
    assert(cell_crosses(g, x, y, z));
    assert(vertex_cell(cells, v0) == p0);
    assert(vertex_cell(cells, v1) == p1);
    assert(vertex_cell(cells, v2) == p2);
    assert(vertex_cell(cells, v3) == p3);
    if g.at(x, y, z).below_zero {
        assert(face_x(g, ids, x, y, z) == quad_a(v0, v1, v2, v3));
        let f = face_x(g, ids, x, y, z);
        assert(f.len() == 6 && f[0] == v0 && f[1] == v2 && f[2] == v1 && f[3] == v1 && f[4] == v2 && f[5] == v3);
        lemma_triangle_steps(p0, p2, p1, (0, 1, 0), (0, 0, 1));
        lemma_triangle_steps(p1, p2, p3, (0, 1, -1), (0, 1, 0));
    } else {
        assert(face_x(g, ids, x, y, z) == quad_b(v0, v1, v2, v3));
        let f = face_x(g, ids, x, y, z);
        assert(f.len() == 6 && f[0] == v0 && f[1] == v1 && f[2] == v2 && f[3] == v1 && f[4] == v3 && f[5] == v2);
        lemma_triangle_steps(p0, p1, p2, (0, 0, 1), (0, 1, 0));
        lemma_triangle_steps(p1, p3, p2, (0, 1, 0), (0, 1, -1));
    }
}

/// The face of a crossing edge in +y direction has its normal along y.
proof fn lemma_face_y_orientation(
    g: GridView<CornerSign>,
    ids: GridView<u32>,
    cells: Seq<(u32, u32, u32)>,
    x: int,
    y: int,
    z: int,
)
    requires
        g.wf(),
        ids.wf(),
        g.size == ids.size + 1,
        numbers_crossings(g, ids, cells),
        ids.contains(x, y, z),
        x > 0 && z > 0 && positive(g, x, y, z) != positive(g, x, y + 1, z),
    ensures
        quad_with_normal(
            cells,
            face_y(g, ids, x, y, z),
            (0, if g.at(x, y, z).below_zero { 1int } else { -1int }, 0),
        ),
{
    let v0 = ids.at(x - 1, y, z - 1);
    let v1 = ids.at(x - 1, y, z);
    let v2 = ids.at(x, y, z - 1);
    let v3 = ids.at(x, y, z);
    let p0: (int, int, int) = (x - 1, y, z - 1);
    let p1: (int, int, int) = (x - 1, y, z);
    let p2: (int, int, int) = (x, y, z - 1);
    let p3: (int, int, int) = (x, y, z);
    assert(cell_crosses(g, x - 1, y, z - 1));
    assert(cell_crosses(g, x - 1, y, z));
    assert(cell_crosses(g, x, y, z - 1));
    assert(cell_crosses(g, x, y, z));
    assert(vertex_cell(cells, v0) == p0);
    assert(vertex_cell(cells, v1) == p1);
    assert(vertex_cell(cells, v2) == p2);
    assert(vertex_cell(cells, v3) == p3);
    if g.at(x, y, z).below_zero {
        assert(face_y(g, ids, x, y, z) == quad_b(v0, v1, v2, v3));
        let f = face_y(g, ids, x, y, z);
        assert(f.len() == 6 && f[0] == v0 && f[1] == v1 && f[2] == v2 && f[3] == v1 && f[4] == v3 && f[5] == v2);
        lemma_triangle_steps(p0, p1, p2, (0, 0, 1), (1, 0, 0));
        lemma_triangle_steps(p1, p3, p2, (1, 0, 0), (1, 0, -1));
    } else {
        assert(face_y(g, ids, x, y, z) == quad_a(v0, v1, v2, v3));
        let f = face_y(g, ids, x, y, z);
        assert(f.len() == 6 && f[0] == v0 && f[1] == v2 && f[2] == v1 && f[3] == v1 && f[4] == v2 && f[5] == v3);
        lemma_triangle_steps(p0, p2, p1, (1, 0, 0), (0, 0, 1));
        lemma_triangle_steps(p1, p2, p3, (1, 0, -1), (1, 0, 0));
    }
}

/// The face of a crossing edge in +z direction has its normal along z.
proof fn lemma_face_z_orientation(
    g: GridView<CornerSign>,
    ids: GridView<u32>,
    cells: Seq<(u32, u32, u32)>,
    x: int,
    y: int,
    z: int,
)
    requires
        g.wf(),
        ids.wf(),
        g.size == ids.size + 1,
        numbers_crossings(g, ids, cells),
        ids.contains(x, y, z),
        x > 0 && y > 0 && positive(g, x, y, z) != positive(g, x, y, z + 1),
    ensures
        quad_with_normal(
            cells,
            face_z(g, ids, x, y, z),
            (0, 0, if g.at(x, y, z).below_zero { 1int } else { -1int }),
        ),
{
    let v0 = ids.at(x - 1, y - 1, z);
    let v1 = ids.at(x - 1, y, z);
    let v2 = ids.at(x, y - 1, z);
    let v3 = ids.at(x, y, z);
    let p0: (int, int, int) = (x - 1, y - 1, z);
    let p1: (int, int, int) = (x - 1, y, z);
    let p2: (int, int, int) = (x, y - 1, z);
    let p3: (int, int, int) = (x, y, z);
    assert(cell_crosses(g, x - 1, y - 1, z));
    assert(cell_crosses(g, x - 1, y, z));
    assert(cell_crosses(g, x, y - 1, z));
    assert(cell_crosses(g, x, y, z));
    assert(vertex_cell(cells, v0) == p0);
    assert(vertex_cell(cells, v1) == p1);
    assert(vertex_cell(cells, v2) == p2);
    assert(vertex_cell(cells, v3) == p3);
    if g.at(x, y, z).below_zero {
        assert(face_z(g, ids, x, y, z) == quad_a(v0, v1, v2, v3));
        let f = face_z(g, ids, x, y, z);
        assert(f.len() == 6 && f[0] == v0 && f[1] == v2 && f[2] == v1 && f[3] == v1 && f[4] == v2 && f[5] == v3);
        lemma_triangle_steps(p0, p2, p1, (1, 0, 0), (0, 1, 0));
        lemma_triangle_steps(p1, p2, p3, (1, -1, 0), (1, 0, 0));
    } else {
        assert(face_z(g, ids, x, y, z) == quad_b(v0, v1, v2, v3));
        let f = face_z(g, ids, x, y, z);
        assert(f.len() == 6 && f[0] == v0 && f[1] == v1 && f[2] == v2 && f[3] == v1 && f[4] == v3 && f[5] == v2);
        lemma_triangle_steps(p0, p1, p2, (0, 1, 0), (1, 0, 0));
        lemma_triangle_steps(p1, p3, p2, (1, 0, 0), (1, -1, 0));
    }
}

} // verus!
