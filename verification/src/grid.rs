//! Lookup tables for regular 3D grids, and iteration over the cells of
//! cubes and squares.
use vstd::prelude::*;

verus! {

/// Position of the cell `(x, y, z)` in the data of a grid of the given size:
/// all data for one `x` is consecutive, and within it all data for one `y`.
pub open spec fn grid_index(size: int, x: int, y: int, z: int) -> int {
    x * size * size + y * size + z
}

/// Number of cells of a cube with the given edge length.
pub open spec fn cube_len(size: int) -> int {
    size * size * size
}

/// Cells of the grid have consecutive, distinct positions in its data.
pub proof fn lemma_grid_index_bounds(size: int, x: int, y: int, z: int)
    requires
        0 <= x < size,
        0 <= y < size,
        0 <= z < size,
    ensures
        0 <= grid_index(size, x, y, z) < cube_len(size),
        grid_index(size, x, y, z) + 1 == if z + 1 < size {
            grid_index(size, x, y, z + 1)
        } else if y + 1 < size {
            grid_index(size, x, y + 1, 0)
        } else {
            grid_index(size, x + 1, 0, 0)
        },
{
    assert(0 <= x * size * size + y * size + z < size * size * size) by (nonlinear_arith)
        requires
            0 <= x < size,
            0 <= y < size,
            0 <= z < size,
    ;
    assert((x + 1) * size * size == x * size * size + size * size) by (nonlinear_arith);
    assert((y + 1) * size == y * size + size) by (nonlinear_arith);
}

/// Cells that come earlier in lexicographic order have earlier positions.
pub proof fn lemma_grid_index_lex(size: int, a: int, b: int, c: int, x: int, y: int, z: int)
    requires
        0 <= a < size,
        0 <= b < size,
        0 <= c < size,
        0 <= x <= size,
        0 <= y < size || (x == size && y == 0),
        0 <= z < size || (x == size && z == 0),
        a < x || (a == x && b < y) || (a == x && b == y && c < z),
    ensures
        grid_index(size, a, b, c) < grid_index(size, x, y, z),
{
    if a < x {
        assert(a * size * size + b * size + c < (a + 1) * size * size) by (nonlinear_arith)
            requires
                0 <= b < size,
                0 <= c < size,
        ;
        assert((a + 1) * size * size <= x * size * size) by (nonlinear_arith)
            requires
                a + 1 <= x,
                0 <= size,
        ;
        assert(x * size * size <= x * size * size + y * size + z) by (nonlinear_arith)
            requires
                0 <= y,
                0 <= z,
                0 <= size,
        ;
    } else if b < y {
        assert(b * size + c < y * size) by (nonlinear_arith)
            requires
                b < y,
                0 <= c < size,
        ;
    }
}

/// The products that computing the position of a cell involves stay below
/// the number of cells.
pub proof fn lemma_grid_index_products(size: int, x: int, y: int, z: int)
    requires
        0 <= x < size,
        0 <= y < size,
        0 <= z < size,
    ensures
        x * size <= size * size,
        x * size * size <= cube_len(size),
        y * size <= size * size,
        size * size <= cube_len(size),
        x * size * size + y * size <= cube_len(size),
        0 <= grid_index(size, x, y, z) < cube_len(size),
{
    assert(x * size <= size * size) by (nonlinear_arith)
        requires
            0 <= x < size,
    ;
    assert(x * size * size <= size * size * size) by (nonlinear_arith)
        requires
            0 <= x < size,
    ;
    assert(y * size <= size * size) by (nonlinear_arith)
        requires
            0 <= y < size,
    ;
    assert(size * size <= size * size * size) by (nonlinear_arith)
        requires
            1 <= size,
    ;
    lemma_grid_index_bounds(size, x, y, z);
}

/// A lookup table for regular 3D grids. Every cell in the grid contains one
/// value.
///
/// The table is structured in a way such that lookup tables for all children
/// in an octree can easily be obtained. All data for one child is saved
/// consecutive in memory, like so:
///
/// |~~~~~~~~~ -x ~~~~~~~~~||~~~~~~~~~ +x ~~~~~~~~~|
/// |~~~ -y ~~~||~~~ +y ~~~||~~~ -y ~~~||~~~ -y ~~~|
/// | -z || +z || -z || +z || -z || +z || -z || +z |
///    0     1     2     3     4     5     6     7
pub struct GridTable<T> {
    size: u32,
    data: Vec<T>,
}

/// The mathematical content of a grid table.
pub struct GridView<T> {
    pub size: int,
    pub data: Seq<T>,
}

impl<T> GridView<T> {
    /// The data of the grid is complete.
    pub open spec fn wf(self) -> bool {
        &&& 2 <= self.size <= u32::MAX
        &&& self.data.len() == cube_len(self.size)
        &&& cube_len(self.size) <= usize::MAX
    }

    /// `(x, y, z)` is a cell of the grid.
    pub open spec fn contains(self, x: int, y: int, z: int) -> bool {
        0 <= x < self.size && 0 <= y < self.size && 0 <= z < self.size
    }

    /// The value of the cell `(x, y, z)`.
    pub open spec fn at(self, x: int, y: int, z: int) -> T {
        self.data[grid_index(self.size, x, y, z)]
    }
}

impl<T> View for GridTable<T> {
    type V = GridView<T>;

    closed spec fn view(&self) -> GridView<T> {
        GridView { size: self.size as int, data: self.data@ }
    }
}

impl<T> GridTable<T> {
    /// Builds the grid table of the given size by asking `filler` for the
    /// value of each cell. The cells are visited in the order of `cube`.
    pub fn fill_with<F>(size: u32, filler: F) -> (r: Self) where F: Fn(u32, u32, u32) -> T
        requires
            size >= 2,
            cube_len(size as int) <= usize::MAX,
            forall|x: u32, y: u32, z: u32|
                x < size && y < size && z < size ==> call_requires(filler, (x, y, z)),
        ensures
            r@.wf(),
            r@.size == size,
            forall|x: int, y: int, z: int|
                #![trigger r@.at(x, y, z)]
                r@.contains(x, y, z) ==> call_ensures(
                    filler,
                    (x as u32, y as u32, z as u32),
                    r@.at(x, y, z),
                ),
    {
        let mut data: Vec<T> = Vec::new();
        let mut x: u32 = 0;
        while x < size
            invariant
                0 <= x <= size,
                size >= 2,
                data@.len() == x * size * size,
                cube_len(size as int) <= usize::MAX,
                forall|x: u32, y: u32, z: u32|
                    x < size && y < size && z < size ==> call_requires(filler, (x, y, z)),
                forall|a: int, b: int, c: int|
                    0 <= a < x && 0 <= b < size && 0 <= c < size ==> call_ensures(
                        filler,
                        (a as u32, b as u32, c as u32),
                        #[trigger] data@[grid_index(size as int, a, b, c)],
                    ),
            decreases size - x,
        {
            let mut y: u32 = 0;
            while y < size
                invariant
                    0 <= x < size,
                    0 <= y <= size,
                    size >= 2,
                    data@.len() == x * size * size + y * size,
                    forall|x: u32, y: u32, z: u32|
                        x < size && y < size && z < size ==> call_requires(filler, (x, y, z)),
                    forall|a: int, b: int, c: int|
                        0 <= a < x && 0 <= b < size && 0 <= c < size ==> call_ensures(
                            filler,
                            (a as u32, b as u32, c as u32),
                            #[trigger] data@[grid_index(size as int, a, b, c)],
                        ),
                    forall|b: int, c: int|
                        0 <= b < y && 0 <= c < size ==> call_ensures(
                            filler,
                            (x, b as u32, c as u32),
                            #[trigger] data@[grid_index(size as int, x as int, b, c)],
                        ),
                decreases size - y,
            {
                let mut z: u32 = 0;
                while z < size
                    invariant
                        0 <= x < size,
                        0 <= y < size,
                        0 <= z <= size,
                        size >= 2,
                        data@.len() == x * size * size + y * size + z,
                        forall|x: u32, y: u32, z: u32|
                            x < size && y < size && z < size ==> call_requires(filler, (x, y, z)),
                        forall|a: int, b: int, c: int|
                            0 <= a < x && 0 <= b < size && 0 <= c < size ==> call_ensures(
                                filler,
                                (a as u32, b as u32, c as u32),
                                #[trigger] data@[grid_index(size as int, a, b, c)],
                            ),
                        forall|b: int, c: int|
                            0 <= b < y && 0 <= c < size ==> call_ensures(
                                filler,
                                (x, b as u32, c as u32),
                                #[trigger] data@[grid_index(size as int, x as int, b, c)],
                            ),
                        forall|c: int|
                            0 <= c < z ==> call_ensures(
                                filler,
                                (x, y, c as u32),
                                #[trigger] data@[grid_index(size as int, x as int, y as int, c)],
                            ),
                    decreases size - z,
                {
                    let v = filler(x, y, z);
                    proof {
                        lemma_grid_index_bounds(size as int, x as int, y as int, z as int);
                    }
                    let ghost before = data@;
                    data.push(v);
                    proof {
                        let s = size as int;
                        assert forall|a: int, b: int, c: int|
                            0 <= a < x && 0 <= b < size && 0 <= c < size implies #[trigger] data@[grid_index(s, a, b, c)]
                                == before[grid_index(s, a, b, c)] by {
                            lemma_grid_index_lex(s, a, b, c, x as int, y as int, z as int);
                        }
                        assert forall|b: int, c: int|
                            0 <= b < y && 0 <= c < size implies #[trigger] data@[grid_index(s, x as int, b, c)]
                                == before[grid_index(s, x as int, b, c)] by {
                            lemma_grid_index_lex(s, x as int, b, c, x as int, y as int, z as int);
                        }
                        assert forall|c: int|
                            0 <= c < z implies #[trigger] data@[grid_index(s, x as int, y as int, c)]
                                == before[grid_index(s, x as int, y as int, c)] by {
                            lemma_grid_index_lex(s, x as int, y as int, c, x as int, y as int, z as int);
                        }
                    }
                    z = z + 1;
                }
                proof {
                    assert((y + 1) * size == y * size + size) by (nonlinear_arith);
                }
                y = y + 1;
            }
            proof {
                assert((x + 1) * size * size == x * size * size + size * size) by (nonlinear_arith);
            }
            x = x + 1;
        }
        let r = GridTable { size: size, data: data };
        proof {
            assert forall|a: int, b: int, c: int|
                #![trigger r@.at(a, b, c)]
                r@.contains(a, b, c) implies call_ensures(
                filler,
                (a as u32, b as u32, c as u32),
                r@.at(a, b, c),
            ) by {
                lemma_grid_index_bounds(size as int, a, b, c);
            }
        }
        r
    }

    /// Returns the edge length of the grid.
    pub fn size(&self) -> (r: u32)
        ensures
            r == self@.size,
    {
        self.size
    }

    /// Returns a reference to the value of the cell `(x, y, z)`.
    pub fn index(&self, x: u32, y: u32, z: u32) -> (r: &T)
        requires
            self@.wf(),
            self@.contains(x as int, y as int, z as int),
        ensures
            *r == self@.at(x as int, y as int, z as int),
    {
        proof {
            lemma_grid_index_products(self.size as int, x as int, y as int, z as int);
        }
        let size = self.size as usize;
        let idx = (x as usize) * size * size + (y as usize * size) + z as usize;
        &self.data[idx]
    }

    /// Replaces the value of the cell `(x, y, z)`.
    pub fn set(&mut self, x: u32, y: u32, z: u32, value: T)
        requires
            old(self)@.wf(),
            old(self)@.contains(x as int, y as int, z as int),
        ensures
            final(self)@.size == old(self)@.size,
            final(self)@.data == old(self)@.data.update(
                grid_index(old(self)@.size, x as int, y as int, z as int),
                value,
            ),
            final(self)@.wf(),
    {
        proof {
            lemma_grid_index_products(self.size as int, x as int, y as int, z as int);
        }
        let size = self.size as usize;
        let idx = (x as usize) * size * size + (y as usize * size) + z as usize;
        self.data.set(idx, value);
    }
}

/// Reading a cell gives back what was last written to it, and writing a cell
/// leaves all other cells unchanged.
pub proof fn lemma_grid_read_after_write<T>(
    g: GridView<T>,
    x: int,
    y: int,
    z: int,
    v: T,
    a: int,
    b: int,
    c: int,
)
    requires
        g.wf(),
        g.contains(x, y, z),
        g.contains(a, b, c),
    ensures
        ({
            let h = GridView {
                size: g.size,
                data: g.data.update(grid_index(g.size, x, y, z), v),
            };
            &&& h.at(x, y, z) == v
            &&& (a, b, c) != (x, y, z) ==> h.at(a, b, c) == g.at(a, b, c)
        }),
{
    lemma_grid_index_bounds(g.size, x, y, z);
    lemma_grid_index_bounds(g.size, a, b, c);
    if (a, b, c) != (x, y, z) {
        lemma_grid_index_injective(g.size, x, y, z, a, b, c);
    }
}

/// Different cells have different positions in the data.
pub proof fn lemma_grid_index_injective(size: int, x: int, y: int, z: int, a: int, b: int, c: int)
    requires
        0 <= x < size,
        0 <= y < size,
        0 <= z < size,
        0 <= a < size,
        0 <= b < size,
        0 <= c < size,
        (a, b, c) != (x, y, z),
    ensures
        grid_index(size, x, y, z) != grid_index(size, a, b, c),
{
    if x != a {
        if x < a {
            assert(x * size * size + y * size + z < a * size * size) by (nonlinear_arith)
                requires
                    x < a,
                    0 <= y < size,
                    0 <= z < size,
            ;
            assert(a * size * size <= a * size * size + b * size + c) by (nonlinear_arith)
                requires
                    0 <= b,
                    0 <= c,
                    0 <= size,
            ;
        } else {
            assert(a * size * size + b * size + c < x * size * size) by (nonlinear_arith)
                requires
                    a < x,
                    0 <= b < size,
                    0 <= c < size,
            ;
            assert(x * size * size <= x * size * size + y * size + z) by (nonlinear_arith)
                requires
                    0 <= y,
                    0 <= z,
                    0 <= size,
            ;
        }
    } else if y != b {
        if y < b {
            assert(y * size + z < b * size) by (nonlinear_arith)
                requires
                    y < b,
                    0 <= z < size,
            ;
        } else {
            assert(b * size + c < y * size) by (nonlinear_arith)
                requires
                    b < y,
                    0 <= c < size,
            ;
        }
    }
}

/// The cell at position `k` of the data of a grid of the given size.
pub open spec fn cube_cell(size: int, k: int) -> (u32, u32, u32) {
    ((k / (size * size)) as u32, ((k / size) % size) as u32, (k % size) as u32)
}

/// Positions and cells correspond one to one: the cell at a position lies
/// in the grid and has that position, and the cell at the position of a
/// cell is that cell.
pub proof fn lemma_cube_cell(size: int, k: int, x: int, y: int, z: int)
    requires
        1 <= size <= u32::MAX,
    ensures
        0 <= k < cube_len(size) ==> {
            let c = cube_cell(size, k);
            &&& c.0 < size && c.1 < size && c.2 < size
            &&& grid_index(size, c.0 as int, c.1 as int, c.2 as int) == k
        },
        0 <= x < size && 0 <= y < size && 0 <= z < size ==> cube_cell(
            size,
            grid_index(size, x, y, z),
        ) == (x as u32, y as u32, z as u32),
{
    if 0 <= k < cube_len(size) {
        let q = k / size;
        let c = k % size;
        assert(k == q * size + c && 0 <= c < size) by (nonlinear_arith)
            requires
                size >= 1,
                q == k / size,
                c == k % size,
        ;
        assert(q < size * size) by (nonlinear_arith)
            requires
                size >= 1,
                0 <= k < size * size * size,
                k == q * size + c,
                0 <= c < size,
        ;
        let a = q / size;
        let b = q % size;
        assert(q == a * size + b && 0 <= b < size && 0 <= a) by (nonlinear_arith)
            requires
                size >= 1,
                0 <= q,
                a == q / size,
                b == q % size,
        ;
        assert(a == k / (size * size) && a < size) by (nonlinear_arith)
            requires
                size >= 1,
                k == q * size + c,
                0 <= c < size,
                q == a * size + b,
                0 <= b < size,
                0 <= a,
                q < size * size,
        ;
        assert(k == a * size * size + b * size + c) by (nonlinear_arith)
            requires
                k == q * size + c,
                q == a * size + b,
        ;
    }
    if 0 <= x < size && 0 <= y < size && 0 <= z < size {
        let k = grid_index(size, x, y, z);
        assert(k == (x * size + y) * size + z) by (nonlinear_arith)
            requires
                k == x * size * size + y * size + z,
        ;
        vstd::arithmetic::div_mod::lemma_fundamental_div_mod_converse(k, size, x * size + y, z);
        vstd::arithmetic::div_mod::lemma_fundamental_div_mod_converse(x * size + y, size, x, y);
        assert(k == x * (size * size) + (y * size + z) && y * size + z < size * size) by (nonlinear_arith)
            requires
                k == x * size * size + y * size + z,
                0 <= y < size,
                0 <= z < size,
        ;
        vstd::arithmetic::div_mod::lemma_fundamental_div_mod_converse(k, size * size, x, y * size + z);
    }
}

/// `cube(size)` yields every cell of the cube exactly once, in strictly
/// increasing lexicographic order: its `k`-th item is `cube_cell(size, k)`
/// (see `CubeIter::next`), the items are the cells of the cube, different
/// steps yield different cells, and every cell is yielded at the step given
/// by its position.
pub proof fn lemma_cube_sequence(size: int, k: int, l: int)
    requires
        1 <= size <= u32::MAX,
        0 <= k < l < cube_len(size),
    ensures
        ({
            let a = cube_cell(size, k);
            let b = cube_cell(size, l);
            &&& a.0 < size && a.1 < size && a.2 < size
            &&& a.0 < b.0 || (a.0 == b.0 && a.1 < b.1) || (a.0 == b.0 && a.1 == b.1 && a.2 < b.2)
        }),
{
    lemma_cube_cell(size, k, 0, 0, 0);
    lemma_cube_cell(size, l, 0, 0, 0);
    let a = cube_cell(size, k);
    let b = cube_cell(size, l);
    if !(a.0 < b.0 || (a.0 == b.0 && a.1 < b.1) || (a.0 == b.0 && a.1 == b.1 && a.2 < b.2)) {
        if a != b {
            lemma_grid_index_lex(size, b.0 as int, b.1 as int, b.2 as int, a.0 as int, a.1 as int, a.2 as int);
        }
    }
}

/// The items that `cube(size)` yields, in order.
pub open spec fn cube_items(size: int) -> Seq<(u32, u32, u32)> {
    Seq::new(cube_len(size) as nat, |k: int| cube_cell(size, k))
}

/// `cube(size)` yields `size³` items: the cells of the cube, in strictly
/// increasing lexicographic order, each cell exactly once (at the step given
/// by its position). `CubeIter::next` hands out `cube_items(size)` in order,
/// and `None` once all were handed out.
pub proof fn lemma_cube_items(size: int)
    requires
        1 <= size <= u32::MAX,
    ensures
        cube_items(size).len() == cube_len(size),
        forall|k: int|
            0 <= k < cube_len(size) ==> {
                let c = #[trigger] cube_items(size)[k];
                c.0 < size && c.1 < size && c.2 < size
            },
        forall|k: int, l: int|
            0 <= k < l < cube_len(size) ==> {
                let a = #[trigger] cube_items(size)[k];
                let b = #[trigger] cube_items(size)[l];
                a.0 < b.0 || (a.0 == b.0 && a.1 < b.1) || (a.0 == b.0 && a.1 == b.1 && a.2 < b.2)
            },
        forall|x: int, y: int, z: int|
            #![trigger grid_index(size, x, y, z)]
            0 <= x < size && 0 <= y < size && 0 <= z < size ==> 0 <= grid_index(size, x, y, z)
                < cube_len(size) && cube_items(size)[grid_index(size, x, y, z)] == (
                x as u32,
                y as u32,
                z as u32,
            ),
{
    assert(cube_len(size) >= 0) by (nonlinear_arith)
        requires
            size >= 1,
    ;
    assert forall|k: int| 0 <= k < cube_len(size) implies {
        let c = #[trigger] cube_items(size)[k];
        c.0 < size && c.1 < size && c.2 < size
    } by {
        lemma_cube_cell(size, k, 0, 0, 0);
    }
    assert forall|k: int, l: int| 0 <= k < l < cube_len(size) implies {
        let a = #[trigger] cube_items(size)[k];
        let b = #[trigger] cube_items(size)[l];
        a.0 < b.0 || (a.0 == b.0 && a.1 < b.1) || (a.0 == b.0 && a.1 == b.1 && a.2 < b.2)
    } by {
        lemma_cube_sequence(size, k, l);
    }
    assert forall|x: int, y: int, z: int|
        #![trigger grid_index(size, x, y, z)]
        0 <= x < size && 0 <= y < size && 0 <= z < size implies 0 <= grid_index(size, x, y, z)
            < cube_len(size) && cube_items(size)[grid_index(size, x, y, z)] == (
            x as u32,
            y as u32,
            z as u32,
        ) by {
        lemma_grid_index_bounds(size, x, y, z);
        lemma_cube_cell(size, 0, x, y, z);
    }
}

// ===========================================================================
/// Iterates over all cells `(x, y, z)` of a cube with the given edge length,
/// in lexicographic order.
pub fn cube(size: u32) -> (r: CubeIter)
    ensures
        r.size == size,
        r.x == 0 && r.y == 0 && r.z == 0,
        r.wf(),
{
    CubeIter { size, x: 0, y: 0, z: 0 }
}

/// Iterator over the cells of a cube, see `cube`.
pub struct CubeIter {
    pub size: u32,
    pub x: u32,
    pub y: u32,
    pub z: u32,
}

impl CubeIter {
    /// The iterator state is a cell of the cube, or the end.
    pub open spec fn wf(self) -> bool {
        &&& self.x <= self.size
        &&& self.x < self.size ==> self.y < self.size && self.z < self.size
        &&& self.x == self.size ==> self.y == 0 && self.z == 0
    }

    /// Number of cells still to be visited.
    pub open spec fn remaining(self) -> int {
        cube_len(self.size as int) - grid_index(
            self.size as int,
            self.x as int,
            self.y as int,
            self.z as int,
        )
    }

    /// Returns the exact number of cells still to be visited (twice, as
    /// lower and upper bound).
    pub fn size_hint(&self) -> (r: (usize, Option<usize>))
        requires
            self.wf(),
            cube_len(self.size as int) <= usize::MAX,
        ensures
            r.0 == self.remaining(),
            r.1 == Some(r.0),
    {
        let size = self.size as usize;
        proof {
            if self.x < self.size {
                lemma_grid_index_bounds(
                    self.size as int,
                    self.x as int,
                    self.y as int,
                    self.z as int,
                );
            } else {
                assert(self.x * self.size * self.size == cube_len(self.size as int))
                    by (nonlinear_arith)
                    requires
                        self.x == self.size,
                ;
            }
            assert(self.x * size * size <= size * size * size) by (nonlinear_arith)
                requires
                    self.x <= size,
            ;
            assert(size * size <= size * size * size || size == 0) by (nonlinear_arith);
            assert(self.y * size <= size * size) by (nonlinear_arith)
                requires
                    self.y <= size,
            ;
            assert(self.x * size <= size * size) by (nonlinear_arith)
                requires
                    self.x <= size,
            ;
            assert(size * size <= size * size * size || size == 0) by (nonlinear_arith);
            assert(self.x * size * size + self.y * size + self.z <= size * size * size) by {
                if self.x < self.size {
                    lemma_grid_index_bounds(size as int, self.x as int, self.y as int, self.z as int);
                }
            }
        }
        let exact = size * size * size - self.x as usize * size * size - self.y as usize * size
            - self.z as usize;
        (exact, Some(exact))
    }

    /// Returns the next cell, or `None` once all cells were visited.
    pub fn next(&mut self) -> (r: Option<(u32, u32, u32)>)
        requires
            old(self).wf(),
        ensures
            final(self).wf(),
            final(self).size == old(self).size,
            old(self).x == old(self).size ==> r is None && *final(self) == *old(self),
            old(self).x < old(self).size ==> {
                &&& r == Some((old(self).x, old(self).y, old(self).z))
                &&& r == Some(
                    cube_items(old(self).size as int)[cube_len(old(self).size as int) - old(
                        self,
                    ).remaining()],
                )
                &&& final(self).remaining() == old(self).remaining() - 1
                &&& if old(self).z + 1 < old(self).size {
                    (final(self).x, final(self).y, final(self).z) == (
                        old(self).x,
                        old(self).y,
                        (old(self).z + 1) as u32,
                    )
                } else if old(self).y + 1 < old(self).size {
                    (final(self).x, final(self).y, final(self).z) == (
                        old(self).x,
                        (old(self).y + 1) as u32,
                        0u32,
                    )
                } else {
                    (final(self).x, final(self).y, final(self).z) == (
                        (old(self).x + 1) as u32,
                        0u32,
                        0u32,
                    )
                }
            },
    {
        if self.x == self.size {
            None
        } else {
            let out = (self.x, self.y, self.z);
            proof {
                lemma_grid_index_bounds(
                    self.size as int,
                    self.x as int,
                    self.y as int,
                    self.z as int,
                );
                lemma_cube_cell(self.size as int, 0, self.x as int, self.y as int, self.z as int);
            }
            // Increase and handle "overflow"
            self.z = self.z + 1;
            if self.z == self.size {
                self.y = self.y + 1;
                self.z = 0;
                if self.y == self.size {
                    self.x = self.x + 1;
                    self.y = 0;
                }
            }
            proof {
                if self.x == self.size {
                    assert(self.x * self.size * self.size == cube_len(self.size as int))
                        by (nonlinear_arith)
                        requires
                            self.x == self.size,
                    ;
                }
            }
            Some(out)
        }
    }
}

/// Iterates over all cells `(x, y)` of a square with the given edge length,
/// in lexicographic order.
pub fn square(size: u32) -> (r: SquareIter)
    ensures
        r.size == size,
        r.x == 0 && r.y == 0,
        r.wf(),
{
    SquareIter { size, x: 0, y: 0 }
}

/// Iterator over the cells of a square, see `square`.
pub struct SquareIter {
    pub size: u32,
    pub x: u32,
    pub y: u32,
}

impl SquareIter {
    /// The iterator state is a cell of the square, or the end.
    pub open spec fn wf(self) -> bool {
        &&& self.x <= self.size
        &&& self.x < self.size ==> self.y < self.size
        &&& self.x == self.size ==> self.y == 0
    }

    /// Number of cells still to be visited.
    pub open spec fn remaining(self) -> int {
        self.size * self.size - (self.x * self.size + self.y)
    }

    /// Returns the next cell, or `None` once all cells were visited.
    pub fn next(&mut self) -> (r: Option<(u32, u32)>)
        requires
            old(self).wf(),
        ensures
            final(self).wf(),
            final(self).size == old(self).size,
            old(self).x == old(self).size ==> r is None && *final(self) == *old(self),
            old(self).x < old(self).size ==> {
                &&& r == Some((old(self).x, old(self).y))
                &&& final(self).remaining() == old(self).remaining() - 1
                &&& if old(self).y + 1 < old(self).size {
                    (final(self).x, final(self).y) == (old(self).x, (old(self).y + 1) as u32)
                } else {
                    (final(self).x, final(self).y) == ((old(self).x + 1) as u32, 0u32)
                }
            },
    {
        if self.x == self.size {
            None
        } else {
            let out = (self.x, self.y);
            // Increase and handle "overflow"
            self.y = self.y + 1;
            if self.y == self.size {
                self.x = self.x + 1;
                self.y = 0;
            }
            proof {
                assert((out.0 + 1) * self.size == out.0 * self.size + self.size)
                    by (nonlinear_arith);
            }
            Some(out)
        }
    }
}

} // verus!
