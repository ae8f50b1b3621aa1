//! Whether points lie inside or outside of a shape, and a lookup table of
//! estimated distances over a regular grid.
use vstd::prelude::*;
use vstd::arithmetic::power2::{pow2, lemma_pow2_adds, lemma_pow2_pos, lemma2_to64};
use vstd::bits::{lemma_u32_shr_is_div, lemma_u32_shl_is_mul, lemma_u32_low_bits_mask_is_mod, low_bits_mask};
use crate::grid::{grid_index, cube_len, lemma_grid_index_bounds, lemma_grid_index_lex};

verus! {

/// Whether a point lies inside or outside of the shape.
#[derive(Debug, Copy, Clone, PartialEq, Eq, Structural)]
pub enum Inclusion {
    Inside,
    Outside,
}

impl Inclusion {
    /// True iff the point lies inside.
    pub fn is_inside(&self) -> (r: bool)
        ensures
            r == (*self == Inclusion::Inside),
    {
        *self == Inclusion::Inside
    }

    /// True iff the point lies outside.
    pub fn is_outside(&self) -> (r: bool)
        ensures
            r == (*self == Inclusion::Outside),
    {
        *self == Inclusion::Outside
    }
}

/// Every point lies either inside or outside, never both.
pub proof fn lemma_inside_xor_outside(i: Inclusion)
    ensures
        (i == Inclusion::Inside) != (i == Inclusion::Outside),
{
}

/// How often the box is split in one dimension. One split results in 8
/// children (like in an octree), two splits in 8² = 64 children, and so on.
const NUM_SPLITS: u32 = 4;

/// Splitting `NUM_SPLITS` times gives this many sections per dimension.
const SECTIONS: u32 = 16;

/// What the map knows of one chunk: either one inclusion for the whole
/// chunk, or the position of its exact distances in the distance array.
#[derive(Copy, Clone)]
enum BoxState {
    Skipped(Inclusion),
    Exact(u32),
}

/// The answer to a query at one grid point.
#[derive(Copy, Clone, Debug)]
pub enum QueryResult<D> {
    /// The whole chunk around the point was skipped; only whether it lies
    /// inside or outside is known.
    Skipped(Inclusion),
    /// The exact distance at the point.
    Exact(D),
}

impl<D: Copy> QueryResult<D> {
    /// The exact distance, if the point was not skipped.
    pub fn dist(&self) -> (r: Option<D>)
        ensures
            r == match *self {
                QueryResult::Skipped(_) => None,
                QueryResult::Exact(d) => Some(d),
            },
    {
        match *self {
            QueryResult::Skipped(_) => None,
            QueryResult::Exact(d) => Some(d),
        }
    }
}

/// The resolutions a distance map can have: a power of two between
/// `SECTIONS` and 1024, so that all of its distances can be addressed by
/// `u32` offsets.
pub open spec fn valid_resolution(resolution: int) -> bool {
    exists|k: nat| 4 <= k <= 10 && resolution == pow2(k)
}

/// A table of distances over a cube of `resolution³` grid points. The cube is
/// split into `16³` chunks; for a chunk that lies clearly inside or outside
/// only that fact is stored, for the others the distance at every grid point.
pub struct DistMap<D> {
    lookup: Vec<BoxState>,
    dists: Vec<D>,
    resolution: u32,
    chunk_len: u32,
    mask_low_bits: u32,
    num_low_bits: u32,
}

impl<D> DistMap<D> {
    /// Number of grid points along each edge of the cube.
    pub closed spec fn spec_resolution(&self) -> int {
        self.resolution as int
    }

    /// Number of grid points along each edge of a chunk.
    spec fn chunk_res(&self) -> int {
        pow2(self.num_low_bits as nat) as int
    }

    /// The fields agree with each other and every exact chunk lies within the
    /// distance array.
    pub closed spec fn wf(&self) -> bool {
        &&& self.num_low_bits <= 6
        &&& self.resolution == SECTIONS * self.chunk_res()
        &&& self.mask_low_bits == low_bits_mask(self.num_low_bits as nat)
        &&& self.chunk_len == cube_len(self.chunk_res())
        &&& self.lookup@.len() == cube_len(SECTIONS as int)
        &&& forall|i: int|
            0 <= i < self.lookup@.len() ==> match #[trigger] self.lookup@[i] {
                BoxState::Skipped(_) => true,
                BoxState::Exact(off) => off + self.chunk_len <= self.dists@.len(),
            }
    }

    /// What the map answers at the grid point `(x, y, z)`: the entry of the
    /// chunk that contains the point, and for an exact chunk the distance
    /// stored for the point's position within the chunk.
    pub closed spec fn value_at(&self, x: int, y: int, z: int) -> QueryResult<D> {
        let cr = self.chunk_res();
        match self.lookup@[grid_index(SECTIONS as int, x / cr, y / cr, z / cr)] {
            BoxState::Skipped(incl) => QueryResult::Skipped(incl),
            BoxState::Exact(off) => QueryResult::Exact(
                self.dists@[off + grid_index(cr, x % cr, y % cr, z % cr)],
            ),
        }
    }
}

impl<D: Copy> DistMap<D> {
    /// Number of grid points along each edge of the cube.
    pub fn resolution(&self) -> (r: u32)
        ensures
            r == self.spec_resolution(),
    {
        self.resolution
    }

    /// The answer at the grid point `coords`: for a skipped chunk whether it
    /// lies inside or outside, else the exact distance at the point.
    ///
    /// The chunk is found from the `NUM_SPLITS` high bits of each
    /// coordinate (`idx = 0bxxxxyyyyzzzz`), the point within an exact chunk
    /// from the remaining low bits, interleaved the same way.
    pub fn at(&self, coords: (u32, u32, u32)) -> (r: QueryResult<D>)
        requires
            self.wf(),
            coords.0 < self.spec_resolution(),
            coords.1 < self.spec_resolution(),
            coords.2 < self.spec_resolution(),
        ensures
            r == self.value_at(coords.0 as int, coords.1 as int, coords.2 as int),
    {
        let (x, y, z) = coords;
        let ghost k = self.num_low_bits;
        let ghost cr = self.chunk_res();
        proof {
            lemma_pow2_pos(k as nat);
            lemma_u32_shr_is_div(x, k);
            lemma_u32_shr_is_div(y, k);
            lemma_u32_shr_is_div(z, k);
            assert(x as int / cr < 16 && y as int / cr < 16 && z as int / cr < 16) by (nonlinear_arith)
                requires
                    cr > 0,
                    x < 16 * cr,
                    y < 16 * cr,
                    z < 16 * cr,
            ;
            vstd::arithmetic::power2::lemma_pow2(4);
            lemma2_to64();
        }
        let xb = x >> self.num_low_bits;
        let yb = y >> self.num_low_bits;
        let zb = z >> self.num_low_bits;
        proof {
            assert(pow2(4) == 16);
            lemma_interleave(xb, yb, zb, NUM_SPLITS);
        }
        let idx = (xb << (2 * NUM_SPLITS)) | (yb << NUM_SPLITS) | zb;
        match self.lookup[idx as usize] {
            BoxState::Skipped(incl) => QueryResult::Skipped(incl),
            BoxState::Exact(offset) => {
                proof {
                    assert(self.lookup@[idx as int] matches BoxState::Exact(_));
                    lemma_u32_low_bits_mask_is_mod(x, k as nat);
                    lemma_u32_low_bits_mask_is_mod(y, k as nat);
                    lemma_u32_low_bits_mask_is_mod(z, k as nat);
                }
                let offset = offset as usize;
                let xb = x & self.mask_low_bits;
                let yb = y & self.mask_low_bits;
                let zb = z & self.mask_low_bits;
                proof {
                    lemma_interleave(xb, yb, zb, k);
                }
                let inner_idx = (xb << (2 * self.num_low_bits)) | (yb << self.num_low_bits) | zb;
                proof {
                    vstd::std_specs::vec::axiom_spec_len(&self.dists);
                }
                QueryResult::Exact(self.dists[offset + inner_idx as usize])
            },
        }
    }
}

/// Position of the point `(i, j, l)` of a chunk whose distances start at
/// `off` in the distance array.
pub open spec fn chunk_pos(off: int, cr: int, i: int, j: int, l: int) -> int {
    off + grid_index(cr, i, j, l)
}

/// Appends the distances of all `cr³` grid points of the chunk `(cx, cy, cz)`
/// to `dists`, in the order of `cube`.
fn push_chunk<D, G>(dists: &mut Vec<D>, distance: &G, cx: u32, cy: u32, cz: u32, cr: u32)
    where
        G: Fn(u32, u32, u32) -> D,
    requires
        1 <= cr <= 64,
        cx < 16,
        cy < 16,
        cz < 16,
        old(dists)@.len() + cube_len(cr as int) <= usize::MAX,
        forall|x: u32, y: u32, z: u32|
            x < 16 * cr && y < 16 * cr && z < 16 * cr ==> call_requires(*distance, (x, y, z)),
    ensures
        final(dists)@.len() == old(dists)@.len() + cube_len(cr as int),
        forall|q: int| 0 <= q < old(dists)@.len() ==> #[trigger] final(dists)@[q] == old(dists)@[q],
        forall|i: int, j: int, l: int|
            0 <= i < cr && 0 <= j < cr && 0 <= l < cr ==> call_ensures(
                *distance,
                ((cx * cr + i) as u32, (cy * cr + j) as u32, (cz * cr + l) as u32),
                #[trigger] final(dists)@[chunk_pos(old(dists)@.len() as int, cr as int, i, j, l)],
            ),
{
    let ghost start = dists@;
    let ghost base = dists@.len() as int;
    let ghost s = cr as int;
    proof {
        assert(cx * cr + cr <= 16 * cr && cy * cr + cr <= 16 * cr && cz * cr + cr <= 16 * cr)
            by (nonlinear_arith)
            requires
                cx < 16,
                cy < 16,
                cz < 16,
                cr >= 1,
        ;
        assert(16 * cr <= 1024);
    }
    let bx = cx * cr;
    let by = cy * cr;
    let bz = cz * cr;
    let mut a: u32 = 0;
    while a < cr
        invariant
            0 <= a <= cr,
            1 <= cr <= 64,
            s == cr,
            bx == cx * cr,
            by == cy * cr,
            bz == cz * cr,
            bx + cr <= 16 * cr,
            by + cr <= 16 * cr,
            bz + cr <= 16 * cr,
            base == start.len(),
            base + cube_len(s) <= usize::MAX,
            dists@.len() == base + a * s * s,
            forall|x: u32, y: u32, z: u32|
                x < 16 * cr && y < 16 * cr && z < 16 * cr ==> call_requires(*distance, (x, y, z)),
            forall|q: int| 0 <= q < base ==> #[trigger] dists@[q] == start[q],
            forall|i: int, j: int, l: int|
                0 <= i < a && 0 <= j < s && 0 <= l < s ==> call_ensures(
                    *distance,
                    ((bx + i) as u32, (by + j) as u32, (bz + l) as u32),
                    #[trigger] dists@[chunk_pos(base, s, i, j, l)],
                ),
        decreases cr - a,
    {
        let mut b: u32 = 0;
        while b < cr
            invariant
                0 <= a < cr,
                0 <= b <= cr,
                1 <= cr <= 64,
                s == cr,
                bx + cr <= 16 * cr,
                by + cr <= 16 * cr,
                bz + cr <= 16 * cr,
                base == start.len(),
                base + cube_len(s) <= usize::MAX,
                dists@.len() == base + a * s * s + b * s,
                forall|x: u32, y: u32, z: u32|
                    x < 16 * cr && y < 16 * cr && z < 16 * cr ==> call_requires(*distance, (x, y, z)),
                forall|q: int| 0 <= q < base ==> #[trigger] dists@[q] == start[q],
                forall|i: int, j: int, l: int|
                    0 <= i < a && 0 <= j < s && 0 <= l < s ==> call_ensures(
                        *distance,
                        ((bx + i) as u32, (by + j) as u32, (bz + l) as u32),
                        #[trigger] dists@[chunk_pos(base, s, i, j, l)],
                    ),
                forall|j: int, l: int|
                    0 <= j < b && 0 <= l < s ==> call_ensures(
                        *distance,
                        ((bx + a) as u32, (by + j) as u32, (bz + l) as u32),
                        #[trigger] dists@[chunk_pos(base, s, a as int, j, l)],
                    ),
            decreases cr - b,
        {
            let mut c: u32 = 0;
            while c < cr
                invariant
                    0 <= a < cr,
                    0 <= b < cr,
                    0 <= c <= cr,
                    1 <= cr <= 64,
                    s == cr,
                    bx + cr <= 16 * cr,
                    by + cr <= 16 * cr,
                    bz + cr <= 16 * cr,
                    base == start.len(),
                    base + cube_len(s) <= usize::MAX,
                    dists@.len() == base + a * s * s + b * s + c,
                    forall|x: u32, y: u32, z: u32|
                        x < 16 * cr && y < 16 * cr && z < 16 * cr ==> call_requires(*distance, (x, y, z)),
                    forall|q: int| 0 <= q < base ==> #[trigger] dists@[q] == start[q],
                    forall|i: int, j: int, l: int|
                        0 <= i < a && 0 <= j < s && 0 <= l < s ==> call_ensures(
                            *distance,
                            ((bx + i) as u32, (by + j) as u32, (bz + l) as u32),
                            #[trigger] dists@[chunk_pos(base, s, i, j, l)],
                        ),
                    forall|j: int, l: int|
                        0 <= j < b && 0 <= l < s ==> call_ensures(
                            *distance,
                            ((bx + a) as u32, (by + j) as u32, (bz + l) as u32),
                            #[trigger] dists@[chunk_pos(base, s, a as int, j, l)],
                        ),
                    forall|l: int|
                        0 <= l < c ==> call_ensures(
                            *distance,
                            ((bx + a) as u32, (by + b) as u32, (bz + l) as u32),
                            #[trigger] dists@[chunk_pos(base, s, a as int, b as int, l)],
                        ),
                decreases cr - c,
            {
                let v = distance(bx + a, by + b, bz + c);
                proof {
                    lemma_grid_index_bounds(s, a as int, b as int, c as int);
                }
                let ghost before = dists@;
                dists.push(v);
                proof {
                    assert forall|i: int, j: int, l: int|
                        0 <= i < a && 0 <= j < s && 0 <= l < s implies #[trigger] dists@[chunk_pos(base, s, i, j, l)]
                            == before[chunk_pos(base, s, i, j, l)] by {
                        lemma_grid_index_lex(s, i, j, l, a as int, b as int, c as int);
                    }
                    assert forall|j: int, l: int|
                        0 <= j < b && 0 <= l < s implies #[trigger] dists@[chunk_pos(base, s, a as int, j, l)]
                            == before[chunk_pos(base, s, a as int, j, l)] by {
                        lemma_grid_index_lex(s, a as int, j, l, a as int, b as int, c as int);
                    }
                    assert forall|l: int|
                        0 <= l < c implies #[trigger] dists@[chunk_pos(base, s, a as int, b as int, l)]
                            == before[chunk_pos(base, s, a as int, b as int, l)] by {
                        lemma_grid_index_lex(s, a as int, b as int, l, a as int, b as int, c as int);
                    }
                    assert forall|q: int| 0 <= q < base implies #[trigger] dists@[q] == start[q] by {
                        assert(before[q] == start[q]);
                    }
                }
                c = c + 1;
            }
            proof {
                assert((b + 1) * s == b * s + s) by (nonlinear_arith);
            }
            b = b + 1;
        }
        proof {
            assert((a + 1) * s * s == a * s * s + s * s) by (nonlinear_arith);
        }
        a = a + 1;
    }
}

/// What a map built from `classify` and `distance` answers at the grid point
/// `(x, y, z)`, whose chunk has coordinates `(x / cr, y / cr, z / cr)`: a
/// skipped chunk carries what `classify` said of it, and a chunk that
/// `classify` did not skip carries what `distance` gave for the point.
pub open spec fn built_from<D, F, G>(
    q: QueryResult<D>,
    classify: F,
    distance: G,
    cr: int,
    x: int,
    y: int,
    z: int,
) -> bool where F: Fn(u32, u32, u32) -> Option<Inclusion>, G: Fn(u32, u32, u32) -> D {
    let chunk = ((x / cr) as u32, (y / cr) as u32, (z / cr) as u32);
    match q {
        QueryResult::Skipped(incl) => call_ensures(classify, chunk, Some(incl)),
        QueryResult::Exact(d) => {
            &&& call_ensures(classify, chunk, None)
            &&& call_ensures(distance, (x as u32, y as u32, z as u32), d)
        },
    }
}

/// The entry of the chunk `(a, b, c)` records what `classify` said of the
/// chunk and, for an exact chunk, what `distance` gave for each of its points.
spec fn chunk_built<D, F, G>(
    entry: BoxState,
    dists: Seq<D>,
    a: int,
    b: int,
    c: int,
    cr: int,
    classify: F,
    distance: G,
) -> bool where F: Fn(u32, u32, u32) -> Option<Inclusion>, G: Fn(u32, u32, u32) -> D {
    let chunk = (a as u32, b as u32, c as u32);
    match entry {
        BoxState::Skipped(incl) => call_ensures(classify, chunk, Some(incl)),
        BoxState::Exact(off) => {
            &&& call_ensures(classify, chunk, None)
            &&& off + cube_len(cr) <= dists.len()
            &&& forall|i: int, j: int, l: int|
                0 <= i < cr && 0 <= j < cr && 0 <= l < cr ==> call_ensures(
                    distance,
                    ((a * cr + i) as u32, (b * cr + j) as u32, (c * cr + l) as u32),
                    #[trigger] dists[chunk_pos(off as int, cr, i, j, l)],
                )
        },
    }
}

/// Appending to the distance array keeps what a chunk entry records.
proof fn lemma_chunk_built_extend<D, F, G>(
    entry: BoxState,
    dists: Seq<D>,
    more: Seq<D>,
    a: int,
    b: int,
    c: int,
    cr: int,
    classify: F,
    distance: G,
) where F: Fn(u32, u32, u32) -> Option<Inclusion>, G: Fn(u32, u32, u32) -> D
    requires
        cr >= 1,
        chunk_built(entry, dists, a, b, c, cr, classify, distance),
        dists.len() <= more.len(),
        forall|q: int| 0 <= q < dists.len() ==> #[trigger] more[q] == dists[q],
    ensures
        chunk_built(entry, more, a, b, c, cr, classify, distance),
{
    if let BoxState::Exact(off) = entry {
        assert forall|i: int, j: int, l: int|
            0 <= i < cr && 0 <= j < cr && 0 <= l < cr implies call_ensures(
            distance,
            ((a * cr + i) as u32, (b * cr + j) as u32, (c * cr + l) as u32),
            #[trigger] more[chunk_pos(off as int, cr, i, j, l)],
        ) by {
            lemma_grid_index_bounds(cr, i, j, l);
            assert(more[chunk_pos(off as int, cr, i, j, l)] == dists[chunk_pos(off as int, cr, i, j, l)]);
        }
    }
}

impl<D> DistMap<D> {
    /// Builds the map for a cube of `resolution³` grid points. For each of
    /// the `16³` chunks, in the order of `cube`, `classify` is asked first:
    /// `Some(inclusion)` skips the chunk, `None` makes `distance` be asked
    /// for every grid point of the chunk.
    pub fn new<F, G>(resolution: u32, classify: F, distance: G) -> (r: Self) where
        F: Fn(u32, u32, u32) -> Option<Inclusion>,
        G: Fn(u32, u32, u32) -> D,
        requires
            valid_resolution(resolution as int),
            forall|x: u32, y: u32, z: u32|
                x < 16 && y < 16 && z < 16 ==> call_requires(classify, (x, y, z)),
            forall|x: u32, y: u32, z: u32|
                x < resolution && y < resolution && z < resolution ==> call_requires(
                    distance,
                    (x, y, z),
                ),
        ensures
            r.wf(),
            r.spec_resolution() == resolution,
            forall|x: int, y: int, z: int|
                0 <= x < resolution && 0 <= y < resolution && 0 <= z < resolution ==> built_from(
                    #[trigger] r.value_at(x, y, z),
                    classify,
                    distance,
                    resolution as int / 16,
                    x,
                    y,
                    z,
                ),
    {
        // Find the exponent of the resolution.
        let ghost k0: nat = choose|k: nat| 4 <= k <= 10 && resolution == pow2(k);
        let mut bits: u32 = 0;
        let mut p: u32 = 1;
        proof {
            lemma2_to64();
        }
        while p < resolution
            invariant
                4 <= k0 <= 10,
                resolution == pow2(k0),
                p == pow2(bits as nat),
                bits <= k0,
            decreases k0 - bits,
        {
            proof {
                if bits == k0 {
                    assert(false);
                }
                vstd::arithmetic::power2::lemma_pow2_unfold((bits + 1) as nat);
                if bits + 1 < k0 {
                    vstd::arithmetic::power2::lemma_pow2_strictly_increases((bits + 1) as nat, k0);
                }
            }
            p = p * 2;
            bits = bits + 1;
        }
        proof {
            if bits < k0 {
                vstd::arithmetic::power2::lemma_pow2_strictly_increases(bits as nat, k0);
            }
            assert(bits == k0);
        }
        let num_low_bits = bits - NUM_SPLITS;
        let chunk_res = resolution >> NUM_SPLITS;
        proof {
            lemma_pow2_adds(num_low_bits as nat, 4);
            lemma_u32_shr_is_div(resolution, NUM_SPLITS);
            lemma_pow2_pos(num_low_bits as nat);
            assert(chunk_res == pow2(num_low_bits as nat));
            assert(chunk_res <= 64) by {
                if num_low_bits < 6 {
                    vstd::arithmetic::power2::lemma_pow2_strictly_increases(num_low_bits as nat, 6);
                }
            }
            assert(chunk_res * chunk_res <= 64 * 64 && chunk_res * chunk_res * chunk_res <= 64 * 64 * 64) by (nonlinear_arith)
                requires
                    chunk_res <= 64,
            ;
        }
        let chunk_len = chunk_res * chunk_res * chunk_res;
        let ghost cr = chunk_res as int;

        let mut lookup: Vec<BoxState> = Vec::new();
        let mut dists: Vec<D> = Vec::new();
        let mut it = crate::grid::cube(SECTIONS);
        while it.x < SECTIONS
            invariant
                it.wf(),
                it.size == 16,
                1 <= cr <= 64,
                cr == chunk_res,
                resolution == 16 * cr,
                chunk_len == cube_len(cr),
                chunk_len <= 64 * 64 * 64,
                lookup@.len() == grid_index(16, it.x as int, it.y as int, it.z as int),
                dists@.len() <= lookup@.len() * chunk_len,
                forall|x: u32, y: u32, z: u32|
                    x < 16 && y < 16 && z < 16 ==> call_requires(classify, (x, y, z)),
                forall|x: u32, y: u32, z: u32|
                    x < resolution && y < resolution && z < resolution ==> call_requires(
                        distance,
                        (x, y, z),
                    ),
                forall|a: int, b: int, c: int|
                    0 <= a < 16 && 0 <= b < 16 && 0 <= c < 16 && grid_index(16, a, b, c)
                        < lookup@.len() ==> chunk_built(
                        #[trigger] lookup@[grid_index(16, a, b, c)],
                        dists@,
                        a,
                        b,
                        c,
                        cr,
                        classify,
                        distance,
                    ),
            decreases it.remaining(),
        {
            let ghost n = lookup@.len() as int;
            proof {
                lemma_grid_index_bounds(16, it.x as int, it.y as int, it.z as int);
            }
            if let Some((x, y, z)) = it.next() {
                let ghost old_dists = dists@;
                let ghost old_lookup = lookup@;
                match classify(x, y, z) {
                    Some(incl) => {
                        lookup.push(BoxState::Skipped(incl));
                    },
                    None => {
                        let idx = dists.len();
                        proof {
                            assert(n * chunk_len + chunk_len <= 4096 * (64 * 64 * 64)) by (nonlinear_arith)
                                requires
                                    0 <= n < 4096,
                                    chunk_len <= 64 * 64 * 64,
                            ;
                            assert(idx <= n * chunk_len) by (nonlinear_arith)
                                requires
                                    idx <= n * chunk_len,
                            ;
                        }
                        push_chunk(&mut dists, &distance, x, y, z, chunk_res);
                        lookup.push(BoxState::Exact(idx as u32));
                        proof {
                            assert((n + 1) * chunk_len == n * chunk_len + chunk_len) by (nonlinear_arith);
                        }
                    },
                }
                proof {
                    assert forall|a: int, b: int, c: int|
                        0 <= a < 16 && 0 <= b < 16 && 0 <= c < 16 && grid_index(16, a, b, c)
                            < lookup@.len() implies chunk_built(
                        #[trigger] lookup@[grid_index(16, a, b, c)],
                        dists@,
                        a,
                        b,
                        c,
                        cr,
                        classify,
                        distance,
                    ) by {
                        lemma_grid_index_bounds(16, a, b, c);
                        if grid_index(16, a, b, c) < n {
                            lemma_chunk_built_extend(
                                old_lookup[grid_index(16, a, b, c)],
                                old_dists,
                                dists@,
                                a,
                                b,
                                c,
                                cr,
                                classify,
                                distance,
                            );
                        } else {
                            if (a, b, c) != (x as int, y as int, z as int) {
                                crate::grid::lemma_grid_index_injective(
                                    16,
                                    a,
                                    b,
                                    c,
                                    x as int,
                                    y as int,
                                    z as int,
                                );
                            }
                        }
                    }
                    if it.x == 16 {
                        assert(lookup@.len() == 4096);
                    }
                    assert(dists@.len() <= lookup@.len() * chunk_len) by (nonlinear_arith)
                        requires
                            dists@.len() <= old_dists.len() + chunk_len,
                            old_dists.len() <= n * chunk_len,
                            lookup@.len() == n + 1,
                    ;
                }
            }
        }
        let r = DistMap {
            lookup,
            dists,
            resolution,
            chunk_len,
            mask_low_bits: chunk_res - 1,
            num_low_bits,
        };
        proof {
            assert(lookup@.len() == 4096);
            assert forall|i: int| 0 <= i < r.lookup@.len() implies match #[trigger] r.lookup@[i] {
                BoxState::Skipped(_) => true,
                BoxState::Exact(off) => off + r.chunk_len <= r.dists@.len(),
            } by {
                let a = i / 256;
                let b = (i / 16) % 16;
                let c = i % 16;
                assert(grid_index(16, a, b, c) == i);
            }
            assert forall|x: int, y: int, z: int|
                0 <= x < resolution && 0 <= y < resolution && 0 <= z < resolution implies built_from(
                #[trigger] r.value_at(x, y, z),
                classify,
                distance,
                resolution as int / 16,
                x,
                y,
                z,
            ) by {
                let a = x / cr;
                let b = y / cr;
                let c = z / cr;
                let i = x % cr;
                let j = y % cr;
                let l = z % cr;
                assert(0 <= a < 16 && 0 <= b < 16 && 0 <= c < 16 && x == a * cr + i && y == b * cr + j && z == c * cr + l && 0 <= i < cr && 0 <= j < cr && 0 <= l < cr) by (nonlinear_arith)
                    requires
                        1 <= cr,
                        0 <= x < 16 * cr,
                        0 <= y < 16 * cr,
                        0 <= z < 16 * cr,
                        a == x / cr,
                        b == y / cr,
                        c == z / cr,
                        i == x % cr,
                        j == y % cr,
                        l == z % cr,
                ;
                lemma_grid_index_bounds(16, a, b, c);
                assert(chunk_built(r.lookup@[grid_index(16, a, b, c)], r.dists@, a, b, c, cr, classify, distance));
                if let BoxState::Exact(off) = r.lookup@[grid_index(16, a, b, c)] {
                    assert(r.dists@[chunk_pos(off as int, cr, i, j, l)] == r.dists@[off + grid_index(cr, i, j, l)]);
                }
            }
        }
        r
    }
}

/// All grid points of one chunk are skipped alike: when one of them is
/// skipped with some inclusion, so is every other point of its chunk.
pub proof fn lemma_chunk_uniform<D>(m: DistMap<D>, x: int, y: int, z: int, u: int, v: int, w: int)
    requires
        m.wf(),
        0 <= x < m.spec_resolution(),
        0 <= y < m.spec_resolution(),
        0 <= z < m.spec_resolution(),
        0 <= u < m.spec_resolution(),
        0 <= v < m.spec_resolution(),
        0 <= w < m.spec_resolution(),
        x / (m.spec_resolution() / 16) == u / (m.spec_resolution() / 16),
        y / (m.spec_resolution() / 16) == v / (m.spec_resolution() / 16),
        z / (m.spec_resolution() / 16) == w / (m.spec_resolution() / 16),
    ensures
        (m.value_at(x, y, z) is Skipped) == (m.value_at(u, v, w) is Skipped),
        m.value_at(x, y, z) is Skipped ==> m.value_at(x, y, z) == m.value_at(u, v, w),
{
    lemma_pow2_pos(m.num_low_bits as nat);
    assert(m.spec_resolution() / 16 == m.chunk_res());
}

/// Three coordinates below `2^k` interleaved as `a·4^k + b·2^k + c` share no
/// bits, so combining them with `|` is the same as adding them.
proof fn lemma_interleave(a: u32, b: u32, c: u32, k: u32)
    requires
        k <= 10,
        a < pow2(k as nat),
        b < pow2(k as nat),
        c < pow2(k as nat),
    ensures
        ((a << (2 * k)) | (b << k) | c) as int == grid_index(pow2(k as nat) as int, a as int, b as int, c as int),
        grid_index(pow2(k as nat) as int, a as int, b as int, c as int) < cube_len(pow2(k as nat) as int),
{
    let p = pow2(k as nat);
    lemma_pow2_pos(k as nat);
    lemma_pow2_adds(k as nat, k as nat);
    lemma2_to64();
    assert(p <= 1024) by {
        if k < 10 {
            vstd::arithmetic::power2::lemma_pow2_strictly_increases(k as nat, 10);
        }
    }
    lemma_u32_shl_is_mul(1, k);
    let one_k: u32 = 1u32 << k;
    assert(one_k == p);
    assert(((a << (2 * k)) | (b << k) | c) == (a << (2 * k)) + (b << k) + c) by (bit_vector)
        requires
            k <= 10,
            a < (1u32 << k),
            b < (1u32 << k),
            c < (1u32 << k),
    ;
    assert(a * (p * p) <= 1024 * (1024 * 1024)) by (nonlinear_arith)
        requires
            a < p,
            p <= 1024,
    ;
    assert(b * p <= 1024 * 1024) by (nonlinear_arith)
        requires
            b < p,
            p <= 1024,
    ;
    assert((2 * k) as nat == k as nat + k as nat);
    lemma_u32_shl_is_mul(a, (2 * k) as u32);
    lemma_u32_shl_is_mul(b, k);
    assert(a * (p * p) == a * p * p) by (nonlinear_arith);
    lemma_grid_index_bounds(p as int, a as int, b as int, c as int);
}

} // verus!
