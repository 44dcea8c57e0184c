use vstd::prelude::*;
use vstd::arithmetic::div_mod::{
    lemma_basic_div, lemma_div_denominator, lemma_fundamental_div_mod,
    lemma_fundamental_div_mod_converse, lemma_mod_pos_bound, lemma_multiply_divide_lt,
    lemma_small_div_converse,
};

verus! {

/// Bit pattern of the largest finite `f64`: the value of a pixel that no
/// sample has been written to yet.
pub const UNSET: u64 = 0x7FEF_FFFF_FFFF_FFFF;

/// `2^n` as a mathematical integer.
pub open spec fn pow2(n: nat) -> nat
    decreases n,
{
    if n == 0 {
        1
    } else {
        2 * pow2((n - 1) as nat)
    }
}

/// `2^n` is positive.
pub proof fn lemma_pow2_pos(n: nat)
    ensures
        pow2(n) > 0,
    decreases n,
{
    if n > 0 {
        lemma_pow2_pos((n - 1) as nat);
    }
}

/// `2^n` grows with `n`.
pub proof fn lemma_pow2_mono(a: nat, b: nat)
    requires
        a <= b,
    ensures
        pow2(a) <= pow2(b),
    decreases b,
{
    if a < b {
        lemma_pow2_mono(a, (b - 1) as nat);
        lemma_pow2_pos((b - 1) as nat);
    }
}

/// Returns whether `v < 2^n`.
fn below_pow2(v: usize, n: usize) -> (r: bool)
    ensures
        r == (v < pow2(n as nat)),
{
    let mut rest: usize = v;
    let mut i: usize = 0;
    assert(pow2(0) == 1);
    while i < n && rest > 0
        invariant
            i <= n,
            rest as int == v as int / (pow2(i as nat) as int),
        decreases n - i,
    {
        proof {
            lemma_pow2_pos(i as nat);
            lemma_div_denominator(v as int, pow2(i as nat) as int, 2);
        }
        rest = rest / 2;
        i = i + 1;
    }
    proof {
        lemma_pow2_pos(i as nat);
        lemma_pow2_mono(i as nat, n as nat);
        if rest == 0 {
            lemma_small_div_converse(v as int, pow2(i as nat) as int);
        } else if v < pow2(n as nat) {
            lemma_basic_div(v as int, pow2(n as nat) as int);
        }
    }
    rest == 0
}

/// Why an operation on a tile was refused.
#[derive(Debug, Clone, Copy, PartialEq, Eq, Structural)]
pub enum TileError {
    /// `size` is zero, or an offset is not below `2^zoom`.
    InvalidTileCoordinates,
    /// A pixel coordinate is not below the tile's size.
    PixelOutOfRange,
    /// A downsampled size is zero, not below the tile's size, or does not divide it.
    InvalidScale,
    /// A pixel grid does not hold `size * size` samples.
    DataLengthMismatch,
}

/// A square raster tile of a Mercator tile pyramid.
///
/// The tile covers, in the unit square of the projection, the cell
/// `[x_offset / 2^zoom, (x_offset + 1) / 2^zoom) x [y_offset / 2^zoom, (y_offset + 1) / 2^zoom)`,
/// cut into `size x size` pixels. Each pixel holds one sample, stored as the bit
/// pattern of an `f64`, row-major (`x + y * size`). A pixel nobody wrote holds `UNSET`.
#[derive(Debug)]
pub struct GeoImage {
    size: usize,
    zoom: usize,
    x_offset: usize,
    y_offset: usize,
    data: Vec<u64>,
}

/// The mathematical content of a `GeoImage`.
pub struct TileView {
    pub size: nat,
    pub zoom: nat,
    pub x_offset: nat,
    pub y_offset: nat,
    pub data: Seq<u64>,
}

/// The placement of a tile is meaningful: at least one pixel, and both offsets
/// inside the `2^zoom x 2^zoom` grid of its zoom level.
pub open spec fn placement_ok(size: nat, zoom: nat, x_offset: nat, y_offset: nat) -> bool {
    &&& size > 0
    &&& x_offset < pow2(zoom)
    &&& y_offset < pow2(zoom)
}

/// A grid of `n` samples, each one `UNSET`.
pub open spec fn unset_grid(n: nat) -> Seq<u64> {
    Seq::new(n, |i: int| UNSET)
}

/// The tile made of the given parts, where they form one.
pub open spec fn tile_from_parts(size: nat, zoom: nat, x_offset: nat, y_offset: nat, data: Seq<u64>) -> Option<TileView> {
    if placement_ok(size, zoom, x_offset, y_offset) && data.len() == size * size {
        Some(TileView { size, zoom, x_offset, y_offset, data })
    } else {
        None
    }
}

/// Numerator of a pixel's left (or top) edge in the unit square of the
/// projection, over the denominator `size * 2^zoom`.
pub open spec fn position(offset: nat, size: nat, x: nat) -> nat {
    offset * size + x
}

/// Every pixel's top-left corner lies inside its tile's cell of the unit square:
/// over the denominator `size * 2^zoom`, each numerator is at least
/// `offset * size` (the cell's near edge, `offset / 2^zoom`) and below
/// `(offset + 1) * size` (its far edge), which is at most the denominator
/// (the far edge of the unit square).
pub proof fn lemma_pixel_inside_tile(t: TileView, x: nat, y: nat)
    requires
        t.valid(),
        x < t.size,
        y < t.size,
    ensures
        t.x_offset * t.size <= position(t.x_offset, t.size, x) < (t.x_offset + 1) * t.size,
        t.y_offset * t.size <= position(t.y_offset, t.size, y) < (t.y_offset + 1) * t.size,
        (t.x_offset + 1) * t.size <= t.size * pow2(t.zoom),
        (t.y_offset + 1) * t.size <= t.size * pow2(t.zoom),
{
    let p = pow2(t.zoom);
    assert((t.x_offset + 1) * t.size <= t.size * p && (t.y_offset + 1) * t.size <= t.size * p) by (nonlinear_arith)
        requires
            t.x_offset < p,
            t.y_offset < p,
    ;
    assert((t.x_offset + 1) * t.size == t.x_offset * t.size + t.size) by (nonlinear_arith);
    assert((t.y_offset + 1) * t.size == t.y_offset * t.size + t.size) by (nonlinear_arith);
}

/// Taking a valid tile apart and rebuilding it from its parts gives the same tile.
pub proof fn lemma_parts_round_trip(t: TileView)
    requires
        t.valid(),
    ensures
        tile_from_parts(t.size, t.zoom, t.x_offset, t.y_offset, t.data) == Some(t),
{
}

impl TileView {
    pub open spec fn valid(self) -> bool {
        &&& placement_ok(self.size, self.zoom, self.x_offset, self.y_offset)
        &&& self.data.len() == self.size * self.size
    }

    /// Position of pixel `(x, y)` in the flat grid.
    pub open spec fn index(self, x: int, y: int) -> int {
        x + y * self.size
    }

    /// The sample at pixel `(x, y)`.
    pub open spec fn pixel(self, x: int, y: int) -> u64 {
        self.data[self.index(x, y)]
    }

    pub open spec fn in_range(self, x: int, y: int) -> bool {
        0 <= x < self.size && 0 <= y < self.size
    }
}

impl View for GeoImage {
    type V = TileView;

    closed spec fn view(&self) -> TileView {
        TileView {
            size: self.size as nat,
            zoom: self.zoom as nat,
            x_offset: self.x_offset as nat,
            y_offset: self.y_offset as nat,
            data: self.data@,
        }
    }
}

/// Every pixel index of a valid tile lies inside its grid.
pub proof fn lemma_index_in_grid(size: int, x: int, y: int)
    requires
        0 <= x < size,
        0 <= y < size,
    ensures
        0 <= y * size <= x + y * size < size * size,
{
    assert(0 <= y * size <= x + y * size < size * size) by (nonlinear_arith)
        requires
            0 <= x < size,
            0 <= y < size,
    ;
}

/// `new_size` is a size that a tile of `size` pixels can be reduced to: below
/// `size`, not zero, and a divisor of it.
pub open spec fn scale_ok(size: nat, new_size: nat) -> bool {
    0 < new_size < size && size % new_size == 0
}

/// Sample number `k` of the block that feeds destination pixel `(x, y)` when the
/// tile is reduced by the factor `f`: the block is the `(f - 1) x (f - 1)` corner
/// of the `f x f` source square at `(x * f, y * f)`, walked row by row.
pub open spec fn block_sample(t: TileView, f: nat, x: int, y: int, k: int) -> u64 {
    t.data[(y * f + k / (f - 1)) * t.size + x * f + k % (f - 1)]
}

/// The samples that feed destination pixel `(x, y)`, in the order they are summed.
pub open spec fn block(t: TileView, f: nat, x: int, y: int) -> Seq<u64> {
    Seq::new(((f - 1) * (f - 1)) as nat, |k: int| block_sample(t, f, x, y, k))
}

/// `v` is a result that `average` may give for the samples `b` and the divisor `d`.
pub open spec fn averaged<F: Fn(&Vec<u64>, usize) -> u64>(average: F, b: Seq<u64>, d: usize, v: u64) -> bool {
    exists|w: Vec<u64>| w@ == b && #[trigger] average.ensures((&w, d), v)
}

/// What pixel `(x, y)` of the reduced tile `c` holds, for the source tile `t` and
/// the factor `f`: an average of its block, except in the last row and the last
/// column, which stay `UNSET`.
pub open spec fn reduced_pixel_ok<F: Fn(&Vec<u64>, usize) -> u64>(t: TileView, c: TileView, f: nat, average: F, x: int, y: int) -> bool {
    if x < c.size - 1 && y < c.size - 1 {
        averaged(average, block(t, f, x, y), (f * f) as usize, c.pixel(x, y))
    } else {
        c.pixel(x, y) == UNSET
    }
}

/// A source coordinate inside the block of a destination coordinate lies inside
/// the source tile.
proof fn lemma_block_coord(n: int, f: int, y: int, yd: int)
    requires
        0 <= y < n,
        0 <= yd < f,
    ensures
        0 <= y * f + yd < n * f,
{
    assert(0 <= y * f + yd < n * f) by (nonlinear_arith)
        requires
            0 <= y < n,
            0 <= yd < f,
    ;
}

/// Two in-range pixels with the same flat index are the same pixel.
proof fn lemma_index_unique(n: int, a: int, b: int, x: int, y: int)
    requires
        0 <= a < n,
        0 <= x < n,
        0 <= b,
        0 <= y,
        a + b * n == x + y * n,
    ensures
        a == x,
        b == y,
{
    lemma_fundamental_div_mod_converse(a + b * n, n, b, a);
    lemma_fundamental_div_mod_converse(x + y * n, n, y, x);
}

impl GeoImage {
    /// A tile of `size x size` pixels at column `x_offset`, row `y_offset` of
    /// zoom level `zoom`, with every pixel `UNSET`.
    pub fn new(size: usize, zoom: usize, x_offset: usize, y_offset: usize) -> (r: Result<GeoImage, TileError>)
        requires
            size * size <= usize::MAX,
        ensures
            match r {
                Ok(t) => {
                    &&& placement_ok(size as nat, zoom as nat, x_offset as nat, y_offset as nat)
                    &&& t@ == (TileView {
                        size: size as nat,
                        zoom: zoom as nat,
                        x_offset: x_offset as nat,
                        y_offset: y_offset as nat,
                        data: unset_grid((size * size) as nat),
                    })
                },
                Err(e) => {
                    &&& !placement_ok(size as nat, zoom as nat, x_offset as nat, y_offset as nat)
                    &&& e == TileError::InvalidTileCoordinates
                },
            },
    {
        if size == 0 || !below_pow2(x_offset, zoom) || !below_pow2(y_offset, zoom) {
            return Err(TileError::InvalidTileCoordinates);
        }
        let length: usize = size * size;
        let mut data: Vec<u64> = Vec::with_capacity(length);
        let mut i: usize = 0;
        while i < length
            invariant
                i <= length,
                data@ == unset_grid(i as nat),
            decreases length - i,
        {
            data.push(UNSET);
            i = i + 1;
            assert(data@ =~= unset_grid(i as nat));
        }
        Ok(GeoImage { size, zoom, x_offset, y_offset, data })
    }

    /// Rebuilds a tile from its parts; refused where they do not form a valid tile.
    pub fn from_parts(size: usize, zoom: usize, x_offset: usize, y_offset: usize, data: Vec<u64>) -> (r: Result<GeoImage, TileError>)
        ensures
            match r {
                Ok(t) => tile_from_parts(size as nat, zoom as nat, x_offset as nat, y_offset as nat, data@) == Some(t@),
                Err(e) => {
                    &&& tile_from_parts(size as nat, zoom as nat, x_offset as nat, y_offset as nat, data@) is None
                    &&& e == (if placement_ok(size as nat, zoom as nat, x_offset as nat, y_offset as nat) {
                        TileError::DataLengthMismatch
                    } else {
                        TileError::InvalidTileCoordinates
                    })
                },
            },
    {
        if size == 0 || !below_pow2(x_offset, zoom) || !below_pow2(y_offset, zoom) {
            return Err(TileError::InvalidTileCoordinates);
        }
        match size.checked_mul(size) {
            Some(n) => {
                if data.len() != n {
                    return Err(TileError::DataLengthMismatch);
                }
            },
            None => {
                let len: usize = data.len();
                assert(len < size * size);
                return Err(TileError::DataLengthMismatch);
            },
        }
        Ok(GeoImage { size, zoom, x_offset, y_offset, data })
    }

    /// Writes the sample `value` (an `f64` bit pattern) into pixel `(x, y)`.
    /// A coordinate outside the tile is refused and nothing changes.
    pub fn set_pixel_value(&mut self, x: usize, y: usize, value: u64) -> (r: Result<(), TileError>)
        requires
            old(self)@.valid(),
        ensures
            final(self)@.valid(),
            r is Ok <==> old(self)@.in_range(x as int, y as int),
            r is Ok ==> final(self)@ == (TileView {
                data: old(self)@.data.update(old(self)@.index(x as int, y as int), value),
                ..old(self)@
            }),
            r is Err ==> final(self)@ == old(self)@ && r == Err::<(), TileError>(TileError::PixelOutOfRange),
    {
        if x >= self.size || y >= self.size {
            return Err(TileError::PixelOutOfRange);
        }
        let len: usize = self.data.len();
        proof {
            lemma_index_in_grid(self.size as int, x as int, y as int);
        }
        let i: usize = x + y * self.size;
        self.data.set(i, value);
        Ok(())
    }

    /// Where pixel `(x, y)`'s top-left corner lies in the unit square of the
    /// projection, as the numerators `(u, v)` of two fractions over the
    /// denominator `size * 2^zoom`; `PixelOutOfRange` outside the tile.
    pub fn pixel_position(&self, x: usize, y: usize) -> (r: Result<(u128, u128), TileError>)
        requires
            self@.valid(),
        ensures
            match r {
                Ok((u, v)) => {
                    &&& self@.in_range(x as int, y as int)
                    &&& u == position(self@.x_offset, self@.size, x as nat)
                    &&& v == position(self@.y_offset, self@.size, y as nat)
                },
                Err(e) => !self@.in_range(x as int, y as int) && e == TileError::PixelOutOfRange,
            },
    {
        if x >= self.size || y >= self.size {
            return Err(TileError::PixelOutOfRange);
        }
        let size: u128 = self.size as u128;
        let xo: u128 = self.x_offset as u128;
        let yo: u128 = self.y_offset as u128;
        assert(xo * size + x < u128::MAX && yo * size + y < u128::MAX) by (nonlinear_arith)
            requires
                xo <= u64::MAX,
                yo <= u64::MAX,
                size <= u64::MAX,
                x < size,
                y < size,
        ;
        Ok((xo * size + x as u128, yo * size + y as u128))
    }

    /// Side of the tile, in pixels.
    pub fn size(&self) -> (r: usize)
        ensures
            r == self@.size,
    {
        self.size
    }

    /// Zoom level: its grid has `2^zoom x 2^zoom` tiles.
    pub fn zoom(&self) -> (r: usize)
        ensures
            r == self@.zoom,
    {
        self.zoom
    }

    /// Column of the tile in the grid of its zoom level.
    pub fn x_offset(&self) -> (r: usize)
        ensures
            r == self@.x_offset,
    {
        self.x_offset
    }

    /// Row of the tile in the grid of its zoom level.
    pub fn y_offset(&self) -> (r: usize)
        ensures
            r == self@.y_offset,
    {
        self.y_offset
    }

    /// All samples, row-major.
    pub fn data(&self) -> (r: &Vec<u64>)
        ensures
            r@ == self@.data,
    {
        &self.data
    }

    /// The sample at pixel `(x, y)`, or `PixelOutOfRange`.
    pub fn pixel_value(&self, x: usize, y: usize) -> (r: Result<u64, TileError>)
        requires
            self@.valid(),
        ensures
            match r {
                Ok(v) => self@.in_range(x as int, y as int) && v == self@.pixel(x as int, y as int),
                Err(e) => !self@.in_range(x as int, y as int) && e == TileError::PixelOutOfRange,
            },
    {
        if x >= self.size || y >= self.size {
            return Err(TileError::PixelOutOfRange);
        }
        let len: usize = self.data.len();
        proof {
            lemma_index_in_grid(self.size as int, x as int, y as int);
        }
        Ok(self.data[x + y * self.size])
    }
}

impl GeoImage {
    /// A copy of this tile at `new_size x new_size` pixels, with the same zoom
    /// level and offsets, so the same footprint.
    ///
    /// With `f = size / new_size`, destination pixel `(x, y)` for `x, y < new_size - 1`
    /// gets `average(block, f * f)`, where `block` holds, row by row, the samples of
    /// the `(f - 1) x (f - 1)` corner of the source square at `(x * f, y * f)`. The
    /// last row and the last column of the destination stay `UNSET`.
    pub fn scaled_down_clone<F: Fn(&Vec<u64>, usize) -> u64>(&self, new_size: usize, average: F) -> (r: Result<GeoImage, TileError>)
        requires
            self@.valid(),
            forall|b: &Vec<u64>, d: usize| average.requires((b, d)),
        ensures
            match r {
                Ok(c) => {
                    &&& scale_ok(self@.size, new_size as nat)
                    &&& c@.valid()
                    &&& c@.size == new_size
                    &&& c@.zoom == self@.zoom
                    &&& c@.x_offset == self@.x_offset
                    &&& c@.y_offset == self@.y_offset
                    &&& forall|x: int, y: int| #![trigger c@.pixel(x, y)]
                        c@.in_range(x, y) ==> reduced_pixel_ok(self@, c@, self@.size / (new_size as nat), average, x, y)
                },
                Err(e) => !scale_ok(self@.size, new_size as nat) && e == TileError::InvalidScale,
            },
    {
        if new_size == 0 || new_size >= self.size || self.size % new_size != 0 {
            return Err(TileError::InvalidScale);
        }
        let ghost t = self@;
        let len: usize = self.data.len();
        let n: usize = new_size;
        let f: usize = self.size / n;
        proof {
            lemma_fundamental_div_mod(self.size as int, n as int);
            assert(self.size == n * f);
            assert(1 <= f <= self.size) by (nonlinear_arith)
                requires
                    self.size == n * f,
                    0 < n < self.size,
            ;
            assert(f * f <= self.size * self.size && n * n <= self.size * self.size) by (nonlinear_arith)
                requires
                    1 <= f <= self.size,
                    n < self.size,
            ;
        }
        let divisor: usize = f * f;
        let side: usize = f - 1;
        assert(side * side <= f * f) by (nonlinear_arith)
            requires
                side == f - 1,
                1 <= f,
        ;
        let count: usize = side * side;
        let ghost fd: nat = f as nat;
        let mut clone = match GeoImage::new(n, self.zoom, self.x_offset, self.y_offset) {
            Ok(c) => c,
            Err(e) => {
                return Err(e);
            },
        };
        proof {
            assert forall|a: int, b: int| #![trigger clone@.pixel(a, b)]
                clone@.in_range(a, b) implies clone@.pixel(a, b) == UNSET by {
                lemma_index_in_grid(n as int, a, b);
            }
        }
        let mut y: usize = 0;
        while y + 1 < n
            invariant
                t == self@,
                t.valid(),
                self.size == n * f,
                len == t.data.len(),
                fd == f,
                1 <= f,
                divisor == f * f,
                side == f - 1,
                count == side * side,
                y < n,
                clone@.valid(),
                clone@.size == n,
                clone@.zoom == t.zoom,
                clone@.x_offset == t.x_offset,
                clone@.y_offset == t.y_offset,
                forall|b: &Vec<u64>, d: usize| average.requires((b, d)),
                forall|a: int, b: int| #![trigger clone@.pixel(a, b)]
                    clone@.in_range(a, b) ==> if b < y && a < n - 1 {
                        averaged(average, block(t, fd, a, b), divisor, clone@.pixel(a, b))
                    } else {
                        clone@.pixel(a, b) == UNSET
                    },
            decreases n - y,
        {
            let mut x: usize = 0;
            while x + 1 < n
                invariant
                    t == self@,
                    t.valid(),
                    self.size == n * f,
                    len == t.data.len(),
                    fd == f,
                    1 <= f,
                    divisor == f * f,
                    side == f - 1,
                    count == side * side,
                    y + 1 < n,
                    x < n,
                    clone@.valid(),
                    clone@.size == n,
                    clone@.zoom == t.zoom,
                    clone@.x_offset == t.x_offset,
                    clone@.y_offset == t.y_offset,
                    forall|b: &Vec<u64>, d: usize| average.requires((b, d)),
                    forall|a: int, b: int| #![trigger clone@.pixel(a, b)]
                        clone@.in_range(a, b) ==> if (b < y && a < n - 1) || (b == y && a < x) {
                            averaged(average, block(t, fd, a, b), divisor, clone@.pixel(a, b))
                        } else {
                            clone@.pixel(a, b) == UNSET
                        },
                decreases n - x,
            {
                let mut samples: Vec<u64> = Vec::new();
                let mut k: usize = 0;
                while k < count
                    invariant
                        t == self@,
                        t.valid(),
                        self.size == n * f,
                        len == t.data.len(),
                        fd == f,
                        side == f - 1,
                        count == side * side,
                        y + 1 < n,
                        x + 1 < n,
                        k <= count,
                        samples@ == block(t, fd, x as int, y as int).take(k as int),
                    decreases count - k,
                {
                    proof {
                        lemma_multiply_divide_lt(k as int, side as int, side as int);
                        lemma_mod_pos_bound(k as int, side as int);
                    }
                    let yd: usize = k / side;
                    let xd: usize = k % side;
                    proof {
                        lemma_block_coord(n as int, f as int, y as int, yd as int);
                        lemma_block_coord(n as int, f as int, x as int, xd as int);
                        lemma_index_in_grid(self.size as int, (x * f + xd) as int, (y * f + yd) as int);
                    }
                    let index: usize = (y * f + yd) * self.size + (x * f + xd);
                    samples.push(self.data[index]);
                    k = k + 1;
                    assert(samples@ =~= block(t, fd, x as int, y as int).take(k as int));
                }
                assert(samples@ =~= block(t, fd, x as int, y as int));
                let value: u64 = average(&samples, divisor);
                assert(averaged(average, block(t, fd, x as int, y as int), divisor, value));
                proof {
                    lemma_index_in_grid(n as int, x as int, y as int);
                }
                let clen: usize = clone.data.len();
                let ghost before = clone@;
                clone.data.set(x + y * n, value);
                proof {
                    assert forall|a: int, b: int| #![trigger clone@.pixel(a, b)]
                        clone@.in_range(a, b) implies if (b < y && a < n - 1) || (b == y && a < x + 1) {
                            averaged(average, block(t, fd, a, b), divisor, clone@.pixel(a, b))
                        } else {
                            clone@.pixel(a, b) == UNSET
                        } by {
                        lemma_index_in_grid(n as int, a, b);
                        if a == x && b == y {
                        } else {
                            if a + b * n == x + y * n {
                                lemma_index_unique(n as int, a, b, x as int, y as int);
                            }
                            assert(clone@.pixel(a, b) == before.pixel(a, b));
                        }
                    }
                }
                x = x + 1;
            }
            y = y + 1;
        }
        Ok(clone)
    }
}

} // verus!
