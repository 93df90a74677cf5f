//! The signed distance field engine: pluggable distance storage, the
//! dead reckoning sweeps, and normalization of a finished field.

use vstd::prelude::*;

verus! {

use crate::binary_image::BinaryImage;
use crate::fixed::{distance, dist_fp, sq_dist, DISTANCE_INFINITY, MAX_DISTANCE_FP};
use crate::grid::{pix, lemma_pix_bounds};
use crate::model;
use crate::model::{
    FieldState,
    valid_coord,
    is_edge,
    edge_toward,
    neighbour_cand,
    sweep_step,
    sweep_inv,
    cell_ok,
};

/// The normalized value that stands for 1.0: normalized distances are
/// fractions of this scale.
pub const NORM_ONE: i64 = 65536;

/// The normalized value that stands for 0.5: the value of the boundary
/// level under clamped symmetric normalization.
pub const NORM_HALF: i64 = 32768;

/// Specifies how to store distances in memory.
/// This library defines a full-precision 32-bit storage and a compact
/// reduced-precision 16-bit storage.
///
/// A storage holds one fixed-point distance per pixel. Writing a value
/// stores `round_spec(value)`: the nearest value the storage can
/// represent. The rounding keeps zero, the two infinities, the
/// normalized midpoint and the normalized endpoints exact, is odd and
/// idempotent, and keeps the engine's working ranges.
pub trait DistanceStorage: Sized {
    /// The stored distances, as the values that `get` returns.
    spec fn view_fp(&self) -> Seq<int>;

    /// How the storage rounds a written value.
    spec fn round_spec(v: int) -> int;

    /// The facts about `round_spec` that the engine relies on.
    proof fn lemma_round(v: int)
        ensures
            Self::round_spec(DISTANCE_INFINITY as int) == DISTANCE_INFINITY as int,
            Self::round_spec(-(DISTANCE_INFINITY as int)) == -(DISTANCE_INFINITY as int),
            Self::round_spec(0) == 0,
            Self::round_spec(Self::round_spec(v)) == Self::round_spec(v),
            Self::round_spec(-v) == -Self::round_spec(v),
            0 <= v < MAX_DISTANCE_FP as int ==> 0 <= Self::round_spec(v) < MAX_DISTANCE_FP as int,
            0 <= v <= NORM_ONE as int ==> 0 <= Self::round_spec(v) <= NORM_ONE as int,
            Self::round_spec(NORM_HALF as int) == NORM_HALF as int,
            Self::round_spec(NORM_ONE as int) == NORM_ONE as int,
    ;

    /// Construct a new linear storage with the specified length.
    /// All distances in this storage start at `DISTANCE_INFINITY`.
    fn new(length: usize) -> (s: Self)
        ensures
            s.view_fp().len() == length,
            forall|i: int|
                0 <= i < length ==> #[trigger] s.view_fp()[i] == DISTANCE_INFINITY as int,
    ;

    fn get(&self, index: usize) -> (r: i64)
        requires
            index < self.view_fp().len(),
        ensures
            r as int == self.view_fp()[index as int],
    ;

    fn set(&mut self, index: usize, value: i64)
        requires
            index < old(self).view_fp().len(),
            value == DISTANCE_INFINITY || value == -DISTANCE_INFINITY || -MAX_DISTANCE_FP < value
                < MAX_DISTANCE_FP,
        ensures
            final(self).view_fp() == old(self).view_fp().update(
                index as int,
                Self::round_spec(value as int),
            ),
    ;
}

/// What an `i32` cell of the full-precision storage stands for.
pub open spec fn decode_wide(s: i32) -> int {
    if s == i32::MAX {
        DISTANCE_INFINITY as int
    } else if s == -i32::MAX {
        -(DISTANCE_INFINITY as int)
    } else {
        s as int
    }
}

/// Store distances with 32 bits per pixel: every fixed-point distance
/// the engine produces is kept exactly.
#[derive(Clone, PartialEq, Debug)]
pub struct F32DistanceStorage {
    data: Vec<i32>,
}

impl DistanceStorage for F32DistanceStorage {
    closed spec fn view_fp(&self) -> Seq<int> {
        self.data@.map_values(|s: i32| decode_wide(s))
    }

    open spec fn round_spec(v: int) -> int {
        v
    }

    proof fn lemma_round(v: int) {
    }

    fn new(length: usize) -> (s: Self) {
        let mut data: Vec<i32> = Vec::new();
        let mut i: usize = 0;
        while i < length
            invariant
                i <= length,
                data@.len() == i,
                forall|j: int| 0 <= j < i ==> data@[j] == i32::MAX,
            decreases length - i,
        {
            data.push(i32::MAX);
            i = i + 1;
        }
        let s = F32DistanceStorage { data };
        proof {
            assert forall|i: int| 0 <= i < length implies #[trigger] s.view_fp()[i]
                == DISTANCE_INFINITY as int by {
                assert(s.view_fp()[i] == decode_wide(s.data@[i]));
            }
        }
        s
    }

    fn get(&self, index: usize) -> (r: i64) {
        let s = self.data[index];
        if s == i32::MAX {
            DISTANCE_INFINITY
        } else if s == -i32::MAX {
            -DISTANCE_INFINITY
        } else {
            s as i64
        }
    }

    fn set(&mut self, index: usize, value: i64) {
        let enc: i32 = if value == DISTANCE_INFINITY {
            i32::MAX
        } else if value == -DISTANCE_INFINITY {
            -i32::MAX
        } else {
            value as i32
        };
        self.data.set(index, enc);
        proof {
            assert(decode_wide(enc) == Self::round_spec(value as int));
            assert(self.view_fp() =~= old(self).view_fp().update(
                index as int,
                Self::round_spec(value as int),
            ));
        }
    }
}

/// The grid of the compact storage: multiples of 32 fixed-point units
/// (an eighth of a pixel).
pub const COMPACT_GRID: i64 = 32;

/// The largest magnitude (in grid steps) that the compact storage can
/// hold without saturating: about 4096 pixels.
pub const COMPACT_MAX_STEPS: i64 = 32766;

/// How the compact storage rounds a nonnegative value: to the nearest
/// multiple of 32, saturating at `32766 * 32`.
pub open spec fn compact_round_mag(m: int) -> int {
    if (m + 16) / 32 > COMPACT_MAX_STEPS as int {
        COMPACT_MAX_STEPS as int * 32
    } else {
        ((m + 16) / 32) * 32
    }
}

/// What an `i16` cell of the compact storage stands for.
pub open spec fn decode_compact(s: i16) -> int {
    if s == i16::MAX {
        DISTANCE_INFINITY as int
    } else if s == -i16::MAX {
        -(DISTANCE_INFINITY as int)
    } else {
        s as int * 32
    }
}

/// Store distances with 16 bits per pixel: half the memory of the
/// full-precision storage, at a granularity of an eighth of a pixel and
/// a saturation bound of about 4096 pixels. Sufficient for
/// display-range use.
#[derive(Clone, PartialEq, Debug)]
pub struct F16DistanceStorage {
    data: Vec<i16>,
}

impl DistanceStorage for F16DistanceStorage {
    closed spec fn view_fp(&self) -> Seq<int> {
        self.data@.map_values(|s: i16| decode_compact(s))
    }

    open spec fn round_spec(v: int) -> int {
        if v == DISTANCE_INFINITY as int {
            DISTANCE_INFINITY as int
        } else if v == -(DISTANCE_INFINITY as int) {
            -(DISTANCE_INFINITY as int)
        } else if v >= 0 {
            compact_round_mag(v)
        } else {
            -compact_round_mag(-v)
        }
    }

    proof fn lemma_round(v: int) {
        assert(compact_round_mag(0) == 0);
        assert forall|m: int| 0 <= m implies {
            &&& 0 <= compact_round_mag(m) <= COMPACT_MAX_STEPS as int * 32
            &&& compact_round_mag(compact_round_mag(m)) == compact_round_mag(m)
            &&& (m < MAX_DISTANCE_FP as int ==> compact_round_mag(m) < MAX_DISTANCE_FP as int)
            &&& (m <= NORM_ONE as int ==> compact_round_mag(m) <= NORM_ONE as int)
        } by {
            let g = (m + 16) / 32;
            assert(0 <= g);
            if g <= COMPACT_MAX_STEPS as int {
                assert(compact_round_mag(m) == g * 32);
                assert((g * 32 + 16) / 32 == g);
                assert(compact_round_mag(g * 32) == g * 32);
            } else {
                assert(compact_round_mag(m) == COMPACT_MAX_STEPS as int * 32);
                assert((COMPACT_MAX_STEPS as int * 32 + 16) / 32 == COMPACT_MAX_STEPS as int);
            }
            if m <= NORM_ONE as int {
                assert(g <= (NORM_ONE as int + 16) / 32);
            }
        }
        assert(compact_round_mag(NORM_HALF as int) == NORM_HALF as int);
        assert(compact_round_mag(NORM_ONE as int) == NORM_ONE as int);
    }

    fn new(length: usize) -> (s: Self) {
        let mut data: Vec<i16> = Vec::new();
        let mut i: usize = 0;
        while i < length
            invariant
                i <= length,
                data@.len() == i,
                forall|j: int| 0 <= j < i ==> data@[j] == i16::MAX,
            decreases length - i,
        {
            data.push(i16::MAX);
            i = i + 1;
        }
        let s = F16DistanceStorage { data };
        proof {
            assert forall|i: int| 0 <= i < length implies #[trigger] s.view_fp()[i]
                == DISTANCE_INFINITY as int by {
                assert(s.view_fp()[i] == decode_compact(s.data@[i]));
            }
        }
        s
    }

    fn get(&self, index: usize) -> (r: i64) {
        let s = self.data[index];
        if s == i16::MAX {
            DISTANCE_INFINITY
        } else if s == -i16::MAX {
            -DISTANCE_INFINITY
        } else {
            (s as i64) * 32
        }
    }

    fn set(&mut self, index: usize, value: i64) {
        let enc: i16 = if value == DISTANCE_INFINITY {
            i16::MAX
        } else if value == -DISTANCE_INFINITY {
            -i16::MAX
        } else if value >= 0 {
            let g: u64 = ((value as u64) + 16) / 32;
            if g > COMPACT_MAX_STEPS as u64 {
                COMPACT_MAX_STEPS as i16
            } else {
                g as i16
            }
        } else {
            let g: u64 = (((-value) as u64) + 16) / 32;
            if g > COMPACT_MAX_STEPS as u64 {
                -(COMPACT_MAX_STEPS as i16)
            } else {
                -(g as i16)
            }
        };
        self.data.set(index, enc);
        proof {
            assert(decode_compact(enc) == Self::round_spec(value as int));
            assert(self.view_fp() =~= old(self).view_fp().update(
                index as int,
                Self::round_spec(value as int),
            ));
        }
    }
}

/// Check if x and y are valid pixel coordinates
/// inside an image with the specified width and height.
pub fn is_valid_index(x: i32, y: i32, width: u16, height: u16) -> (r: bool)
    ensures
        r == valid_coord(width as int, height as int, x as int, y as int),
{
    x >= 0 && y >= 0 && x < width as i32 && y < height as i32
}

/// Returns if the binary image contains an edge
/// at the specified pixel compared to the specified neighbour.
fn is_at_edge<I: BinaryImage>(image: &I, x: u16, y: u16, neighbour_x: i32, neighbour_y: i32) -> (r:
    bool)
    requires
        x < image.width_spec(),
        y < image.height_spec(),
        -1 <= neighbour_x <= 1,
        -1 <= neighbour_y <= 1,
    ensures
        r == edge_toward(image, x as int, y as int, neighbour_x as int, neighbour_y as int),
{
    let px = x as i32 + neighbour_x;
    let py = y as i32 + neighbour_y;
    is_valid_index(px, py, image.width(), image.height()) && image.is_inside(x, y)
        != image.is_inside(px as u16, py as u16)
}

/// The length of a one-step offset vector, in fixed-point units.
fn length(x: i32, y: i32) -> (r: i64)
    requires
        -1 <= x <= 1,
        -1 <= y <= 1,
        !(x == 0 && y == 0),
    ensures
        r as int == model::offset_len(x as int, y as int),
        1 <= r < MAX_DISTANCE_FP,
{
    proof {
        assert(sq_dist(0, 0, x as int, y as int) == (if x == 0 || y == 0 {
            1int
        } else {
            2int
        })) by (nonlinear_arith)
            requires
                -1 <= x <= 1,
                -1 <= y <= 1,
                !(x == 0 && y == 0),
        ;
        if x == 0 || y == 0 {
            assert(crate::fixed::is_sqrt_floor(65536, 256));
            crate::fixed::lemma_sqrt_floor_unique(65536, crate::fixed::sqrt_floor(65536), 256);
        } else {
            assert(362 * 362 <= 131072 < 363 * 363) by (nonlinear_arith);
            assert(crate::fixed::is_sqrt_floor(131072, 362));
            crate::fixed::lemma_sqrt_floor_unique(131072, crate::fixed::sqrt_floor(131072), 362);
        }
    }
    if x == 0 || y == 0 {
        256
    } else {
        362
    }
}

/// Every stored distance is either infinite or small enough that adding
/// one more step cannot overflow.
pub open spec fn values_ok(w: int, h: int, d: Seq<int>) -> bool {
    forall|a: int, b: int|
        valid_coord(w, h, a, b) ==> {
            ||| #[trigger] d[pix(w, a, b)] == DISTANCE_INFINITY as int
            ||| -(MAX_DISTANCE_FP as int) < d[pix(w, a, b)] < MAX_DISTANCE_FP as int
        }
}

/// A vector of n (0, 0) pairs: the initial targets of a field.
fn filled_targets(n: usize) -> (v: Vec<(u16, u16)>)
    ensures
        v@.len() == n,
        forall|i: int| 0 <= i < n ==> #[trigger] v@[i] == (0u16, 0u16),
{
    let mut v: Vec<(u16, u16)> = Vec::new();
    let mut i: usize = 0;
    while i < n
        invariant
            i <= n,
            v@.len() == i,
            forall|j: int| 0 <= j < i ==> #[trigger] v@[j] == (0u16, 0u16),
        decreases n - i,
    {
        v.push((0, 0));
        i = i + 1;
    }
    v
}

/// Contains the distance field and the vector field produced by
/// `SignedDistanceField::compute`. Can be normalized in order to convert
/// to an image with limited range. The type parameter `D` can be used to
/// customize the memory layout of the distance field; the library
/// provides `F16DistanceStorage` and `F32DistanceStorage`.
///
/// If any distance in this field has magnitude `DISTANCE_INFINITY`, no
/// shapes were found in the binary image.
#[derive(Clone, PartialEq, Debug)]
pub struct SignedDistanceField<D: DistanceStorage> {
    pub width: u16,
    pub height: u16,
    /// A row-major image vector with
    /// for each pixel of the original image
    /// containing the distance from that pixel to the nearest edge
    pub distances: D,
    /// A row-major image vector with
    /// for each pixel of the original image
    /// containing the absolute position of the nearest edge from that pixel
    pub distance_targets: Vec<(u16, u16)>,
}

impl<D: DistanceStorage> SignedDistanceField<D> {
    /// The number of pixels of the field.
    pub open spec fn n(&self) -> int {
        self.width as int * self.height as int
    }

    /// Both buffers hold one entry per pixel.
    pub open spec fn wf(&self) -> bool {
        &&& self.distances.view_fp().len() == self.n()
        &&& self.distance_targets@.len() == self.n()
    }

    /// The two buffers, as the model sees them.
    pub open spec fn state(&self) -> FieldState {
        (self.distances.view_fp(), self.distance_targets@)
    }

    /// Convert x and y pixel coordinates to the corresponding
    /// one-dimensional index in a row-major image vector.
    pub fn flatten_index(&self, x: u16, y: u16) -> (i: usize)
        requires
            x < self.width,
            y < self.height,
        ensures
            i == pix(self.width as int, x as int, y as int),
            i < self.n(),
    {
        proof {
            lemma_pix_bounds(self.width as int, self.height as int, x as int, y as int);
            assert(self.width as int * self.height as int <= 0xFFFE0001int && self.width as int * y
                as int == y as int * self.width as int) by (nonlinear_arith)
                requires
                    self.width <= 0xFFFFu16,
                    self.height <= 0xFFFFu16,
            ;
        }
        self.width as usize * y as usize + x as usize
    }

    /// Returns the distance of the specified pixel to the nearest edge in
    /// the original image, in fixed-point units (`FP_ONE` per pixel),
    /// negative inside the shape. A magnitude of `DISTANCE_INFINITY`
    /// means that the image held no boundary at all.
    pub fn get_distance(&self, x: u16, y: u16) -> (d: i64)
        requires
            self.wf(),
            x < self.width,
            y < self.height,
        ensures
            d as int == self.distances.view_fp()[pix(self.width as int, x as int, y as int)],
    {
        let index = self.flatten_index(x, y);
        self.distances.get(index)
    }

    /// Returns the position of the nearest edge to the specified pixel in
    /// the original image.
    pub fn get_distance_target(&self, x: u16, y: u16) -> (t: (u16, u16))
        requires
            self.wf(),
            x < self.width,
            y < self.height,
        ensures
            t == self.distance_targets@[pix(self.width as int, x as int, y as int)],
    {
        let index = self.flatten_index(x, y);
        self.distance_targets[index]
    }

    /// Update the distance and target buffers at the specified pixel.
    fn set_target_with_distance(&mut self, x: u16, y: u16, target_x: u16, target_y: u16, dist: i64)
        requires
            old(self).wf(),
            x < old(self).width,
            y < old(self).height,
            dist == DISTANCE_INFINITY || dist == -DISTANCE_INFINITY || -MAX_DISTANCE_FP < dist
                < MAX_DISTANCE_FP,
        ensures
            final(self).wf(),
            final(self).width == old(self).width,
            final(self).height == old(self).height,
            final(self).distances.view_fp() == old(self).distances.view_fp().update(
                pix(old(self).width as int, x as int, y as int),
                D::round_spec(dist as int),
            ),
            final(self).distance_targets@ == old(self).distance_targets@.update(
                pix(old(self).width as int, x as int, y as int),
                (target_x, target_y),
            ),
    {
        let index = self.flatten_index(x, y);
        self.distances.set(index, dist);
        self.distance_targets.set(index, (target_x, target_y));
    }

    /// Update the target buffer at the specified pixel and store the
    /// recomputed exact distance to that target.
    fn set_target_and_distance(&mut self, x: u16, y: u16, target_x: u16, target_y: u16) -> (d: i64)
        requires
            old(self).wf(),
            x < old(self).width,
            y < old(self).height,
        ensures
            final(self).wf(),
            final(self).width == old(self).width,
            final(self).height == old(self).height,
            d == dist_fp(x as int, y as int, target_x as int, target_y as int),
            0 <= d < MAX_DISTANCE_FP,
            (d == 0) <==> (x == target_x && y == target_y),
            final(self).distances.view_fp() == old(self).distances.view_fp().update(
                pix(old(self).width as int, x as int, y as int),
                D::round_spec(d as int),
            ),
            final(self).distance_targets@ == old(self).distance_targets@.update(
                pix(old(self).width as int, x as int, y as int),
                (target_x, target_y),
            ),
    {
        let d = distance(x, y, target_x, target_y);
        self.set_target_with_distance(x, y, target_x, target_y, d);
        d
    }

    /// Returns a potentially smaller distance for the pixel, based on the
    /// neighbour's stored distance plus the length of the offset. If
    /// there is no such neighbour (at the bounds of the image) or the
    /// neighbour was not reached yet, `DISTANCE_INFINITY` is returned.
    fn distance_by_neighbour(&self, x: u16, y: u16, neighbour_x: i32, neighbour_y: i32) -> (c: i64)
        requires
            self.wf(),
            x < self.width,
            y < self.height,
            -1 <= neighbour_x <= 1,
            -1 <= neighbour_y <= 1,
            !(neighbour_x == 0 && neighbour_y == 0),
            values_ok(self.width as int, self.height as int, self.distances.view_fp()),
        ensures
            c as int == neighbour_cand(
                self.width as int,
                self.height as int,
                self.distances.view_fp(),
                x as int,
                y as int,
                neighbour_x as int,
                neighbour_y as int,
            ),
    {
        let len = length(neighbour_x, neighbour_y);
        let px = x as i32 + neighbour_x;
        let py = y as i32 + neighbour_y;
        if is_valid_index(px, py, self.width, self.height) {
            let nd = self.get_distance(px as u16, py as u16);
            if nd == DISTANCE_INFINITY {
                DISTANCE_INFINITY
            } else {
                nd + len
            }
        } else {
            DISTANCE_INFINITY
        }
    }

    /// Adopt the target of the given neighbour and store the recomputed
    /// exact distance to it.
    fn take_neighbour_target(&mut self, x: u16, y: u16, neighbour_x: i32, neighbour_y: i32) -> (d:
        i64)
        requires
            old(self).wf(),
            x < old(self).width,
            y < old(self).height,
            -1 <= neighbour_x <= 1,
            -1 <= neighbour_y <= 1,
            valid_coord(
                old(self).width as int,
                old(self).height as int,
                x + neighbour_x,
                y + neighbour_y,
            ),
        ensures
            final(self).wf(),
            final(self).width == old(self).width,
            final(self).height == old(self).height,
            ({
                let w = old(self).width as int;
                let t = old(self).distance_targets@[pix(w, x + neighbour_x, y + neighbour_y)];
                &&& d == dist_fp(x as int, y as int, t.0 as int, t.1 as int)
                &&& 0 <= d < MAX_DISTANCE_FP
                &&& final(self).distances.view_fp() == old(self).distances.view_fp().update(
                    pix(w, x as int, y as int),
                    D::round_spec(d as int),
                )
                &&& final(self).distance_targets@ == old(self).distance_targets@.update(
                    pix(w, x as int, y as int),
                    t,
                )
            }),
    {
        proof {
            lemma_pix_bounds(
                self.width as int,
                self.height as int,
                x + neighbour_x,
                y + neighbour_y,
            );
        }
        let target_of_neighbour = self.get_distance_target(
            (x as i32 + neighbour_x) as u16,
            (y as i32 + neighbour_y) as u16,
        );
        self.set_target_and_distance(x, y, target_of_neighbour.0, target_of_neighbour.1)
    }

    /// One sweep comparison: adopt the neighbour's target when its
    /// proposal is strictly smaller than the current distance, and hand
    /// back the (recomputed) current distance.
    fn sweep_neighbour(&mut self, x: u16, y: u16, neighbour_x: i32, neighbour_y: i32, own: i64) -> (r:
        i64)
        requires
            old(self).wf(),
            x < old(self).width,
            y < old(self).height,
            -1 <= neighbour_x <= 1,
            -1 <= neighbour_y <= 1,
            !(neighbour_x == 0 && neighbour_y == 0),
            values_ok(old(self).width as int, old(self).height as int, old(self).distances.view_fp()),
        ensures
            final(self).wf(),
            final(self).width == old(self).width,
            final(self).height == old(self).height,
            ({
                let st = sweep_step::<D>(
                    old(self).width as int,
                    old(self).height as int,
                    old(self).state(),
                    own as int,
                    x as int,
                    y as int,
                    neighbour_x as int,
                    neighbour_y as int,
                );
                &&& final(self).state() == st.0
                &&& r as int == st.1
            }),
    {
        let c = self.distance_by_neighbour(x, y, neighbour_x, neighbour_y);
        if c < own {
            proof {
                if !valid_coord(
                    self.width as int,
                    self.height as int,
                    x + neighbour_x,
                    y + neighbour_y,
                ) {
                    assert(c == DISTANCE_INFINITY);
                }
            }
            self.take_neighbour_target(x, y, neighbour_x, neighbour_y)
        } else {
            own
        }
    }

    /// Negate the stored distance of the specified pixel.
    fn invert_distance_sign(&mut self, x: u16, y: u16)
        requires
            old(self).wf(),
            x < old(self).width,
            y < old(self).height,
            ({
                let dv = old(self).distances.view_fp()[pix(
                    old(self).width as int,
                    x as int,
                    y as int,
                )];
                dv == DISTANCE_INFINITY as int || dv == -(DISTANCE_INFINITY as int) || -(
                MAX_DISTANCE_FP as int) < dv < MAX_DISTANCE_FP as int
            }),
        ensures
            final(self).wf(),
            final(self).width == old(self).width,
            final(self).height == old(self).height,
            final(self).distances.view_fp() == old(self).distances.view_fp().update(
                pix(old(self).width as int, x as int, y as int),
                D::round_spec(
                    -old(self).distances.view_fp()[pix(old(self).width as int, x as int, y as int)],
                ),
            ),
            final(self).distance_targets@ == old(self).distance_targets@,
    {
        let index = self.flatten_index(x, y);
        let d = self.distances.get(index);
        self.distances.set(index, -d);
    }

    /// For every pixel directly at an edge, set its distance to zero and
    /// make it its own target.
    #[verifier::loop_isolation(false)]
    fn seed_pass<I: BinaryImage>(&mut self, image: &I)
        requires
            old(self).wf(),
            old(self).width == image.width_spec(),
            old(self).height == image.height_spec(),
            old(self).state() == model::initial_state(old(self).n()),
        ensures
            final(self).wf(),
            final(self).width == old(self).width,
            final(self).height == old(self).height,
            final(self).state() == model::seed_done::<I, D>(image),
            model::inv_all::<I, D>(image, final(self).state()),
    {
        let ghost w = self.width as int;
        let ghost h = self.height as int;
        let mut y: u16 = 0;
        while y < self.height
            invariant
                self.wf(),
                self.width == old(self).width,
                self.height == old(self).height,
                y <= self.height,
                self.state() == model::seed_to::<I, D>(image, y as int, 0),
            decreases self.height - y,
        {
            let mut x: u16 = 0;
            while x < self.width
                invariant
                    self.wf(),
                    self.width == old(self).width,
                    self.height == old(self).height,
                    y < self.height,
                    x <= self.width,
                    self.state() == model::seed_to::<I, D>(image, y as int, x as int),
                decreases self.width - x,
            {
                let ghost pre = self.state();
                if is_at_edge(image, x, y, -1, 0) || is_at_edge(image, x, y, 1, 0) || is_at_edge(
                    image,
                    x,
                    y,
                    0,
                    -1,
                ) || is_at_edge(image, x, y, 0, 1) {
                    let d = self.set_target_and_distance(x, y, x, y);
                    proof {
                        assert(is_edge(image, x as int, y as int));
                        assert(d == 0);
                    }
                } else {
                    proof {
                        assert(!is_edge(image, x as int, y as int));
                    }
                }
                proof {
                    assert(self.state() == model::seed_px::<I, D>(image, pre, x as int, y as int));
                    assert(model::seed_to::<I, D>(image, y as int, x as int + 1)
                        == model::seed_px::<I, D>(
                        image,
                        model::seed_to::<I, D>(image, y as int, x as int),
                        x as int,
                        y as int,
                    ));
                }
                x = x + 1;
            }
            proof {
                assert(model::seed_to::<I, D>(image, y as int + 1, 0) == model::seed_to::<I, D>(
                    image,
                    y as int,
                    w,
                ));
            }
            y = y + 1;
        }
        proof {
            model::lemma_seed_done_inv::<I, D>(image);
            assert(self.state() == model::seed_done::<I, D>(image));
        }
    }

    /// The forward sweep: visit pixels in raster order and pull
    /// distances from the four already-visited neighbours.
    #[verifier::loop_isolation(false)]
    fn forward_pass<I: BinaryImage>(&mut self, image: &I)
        requires
            old(self).wf(),
            old(self).width == image.width_spec(),
            old(self).height == image.height_spec(),
            model::inv_all::<I, D>(image, old(self).state()),
        ensures
            final(self).wf(),
            final(self).width == old(self).width,
            final(self).height == old(self).height,
            final(self).state() == model::fwd_done::<D>(
                old(self).width as int,
                old(self).height as int,
                old(self).state(),
            ),
            model::inv_all::<I, D>(image, final(self).state()),
    {
        let ghost w = self.width as int;
        let ghost h = self.height as int;
        let ghost s0 = self.state();
        let mut y: u16 = 0;
        while y < self.height
            invariant
                self.wf(),
                self.width == old(self).width,
                self.height == old(self).height,
                y <= self.height,
                self.state() == model::fwd_to::<D>(w, h, s0, y as int, 0),
            decreases self.height - y,
        {
            let mut x: u16 = 0;
            while x < self.width
                invariant
                    self.wf(),
                    self.width == old(self).width,
                    self.height == old(self).height,
                    y < self.height,
                    x <= self.width,
                    self.state() == model::fwd_to::<D>(w, h, s0, y as int, x as int),
                decreases self.width - x,
            {
                proof {
                    model::lemma_fwd_to_inv::<I, D>(image, s0, y as int, x as int);
                    assert(sweep_inv::<I, D>(image, self.state().0, self.state().1, x as int, y as int));
                    assert forall|a: int, b: int| valid_coord(w, h, a, b) implies {
                        ||| #[trigger] self.state().0[pix(w, a, b)] == DISTANCE_INFINITY as int
                        ||| -(MAX_DISTANCE_FP as int) < self.state().0[pix(w, a, b)] < MAX_DISTANCE_FP as int
                    } by {
                        assert(sweep_inv::<I, D>(image, self.state().0, self.state().1, a, b));
                    }
                }
                let ghost st0 = self.state();
                let own0 = self.get_distance(x, y);
                proof {
                    model::lemma_sweep_step_inv::<I, D>(image, st0, own0 as int, x as int, y as int, -1, -1);
                }
                let ghost r1 = sweep_step::<D>(w, h, st0, own0 as int, x as int, y as int, -1, -1);
                let own1 = self.sweep_neighbour(x, y, -1, -1, own0);
                proof {
                    model::lemma_sweep_step_inv::<I, D>(image, r1.0, r1.1, x as int, y as int, 0, -1);
                    assert forall|a: int, b: int| valid_coord(w, h, a, b) implies {
                        ||| #[trigger] self.state().0[pix(w, a, b)] == DISTANCE_INFINITY as int
                        ||| -(MAX_DISTANCE_FP as int) < self.state().0[pix(w, a, b)] < MAX_DISTANCE_FP as int
                    } by {
                        assert(sweep_inv::<I, D>(image, self.state().0, self.state().1, a, b));
                    }
                }
                let ghost r2 = sweep_step::<D>(w, h, r1.0, r1.1, x as int, y as int, 0, -1);
                let own2 = self.sweep_neighbour(x, y, 0, -1, own1);
                proof {
                    model::lemma_sweep_step_inv::<I, D>(image, r2.0, r2.1, x as int, y as int, 1, -1);
                    assert forall|a: int, b: int| valid_coord(w, h, a, b) implies {
                        ||| #[trigger] self.state().0[pix(w, a, b)] == DISTANCE_INFINITY as int
                        ||| -(MAX_DISTANCE_FP as int) < self.state().0[pix(w, a, b)] < MAX_DISTANCE_FP as int
                    } by {
                        assert(sweep_inv::<I, D>(image, self.state().0, self.state().1, a, b));
                    }
                }
                let ghost r3 = sweep_step::<D>(w, h, r2.0, r2.1, x as int, y as int, 1, -1);
                let own3 = self.sweep_neighbour(x, y, 1, -1, own2);
                proof {
                    model::lemma_sweep_step_inv::<I, D>(image, r3.0, r3.1, x as int, y as int, -1, 0);
                    assert forall|a: int, b: int| valid_coord(w, h, a, b) implies {
                        ||| #[trigger] self.state().0[pix(w, a, b)] == DISTANCE_INFINITY as int
                        ||| -(MAX_DISTANCE_FP as int) < self.state().0[pix(w, a, b)] < MAX_DISTANCE_FP as int
                    } by {
                        assert(sweep_inv::<I, D>(image, self.state().0, self.state().1, a, b));
                    }
                }
                self.sweep_neighbour(x, y, -1, 0, own3);
                proof {
                    assert(self.state() == model::fwd_px::<D>(w, h, st0, x as int, y as int));
                    assert(model::fwd_to::<D>(w, h, s0, y as int, x as int + 1) == model::fwd_px::<
                        D,
                    >(w, h, model::fwd_to::<D>(w, h, s0, y as int, x as int), x as int, y as int));
                }
                x = x + 1;
            }
            proof {
                assert(model::fwd_to::<D>(w, h, s0, y as int + 1, 0) == model::fwd_to::<D>(
                    w,
                    h,
                    s0,
                    y as int,
                    w,
                ));
            }
            y = y + 1;
        }
        proof {
            model::lemma_fwd_to_inv::<I, D>(image, s0, h, 0);
        }
    }

    /// The backward sweep: visit pixels in reverse raster order and pull
    /// distances from the four opposite neighbours.
    #[verifier::loop_isolation(false)]
    fn backward_pass<I: BinaryImage>(&mut self, image: &I)
        requires
            old(self).wf(),
            old(self).width == image.width_spec(),
            old(self).height == image.height_spec(),
            model::inv_all::<I, D>(image, old(self).state()),
        ensures
            final(self).wf(),
            final(self).width == old(self).width,
            final(self).height == old(self).height,
            final(self).state() == model::bwd_done::<D>(
                old(self).width as int,
                old(self).height as int,
                old(self).state(),
            ),
            model::inv_all::<I, D>(image, final(self).state()),
    {
        let ghost w = self.width as int;
        let ghost h = self.height as int;
        let ghost s0 = self.state();
        let mut y: u16 = self.height;
        while y > 0
            invariant
                self.wf(),
                self.width == old(self).width,
                self.height == old(self).height,
                y <= self.height,
                self.state() == model::bwd_from::<D>(w, h, s0, y as int, 0),
            decreases y,
        {
            let yy = y - 1;
            let mut x: u16 = self.width;
            proof {
                assert(model::bwd_from::<D>(w, h, s0, yy as int, w) == model::bwd_from::<D>(
                    w,
                    h,
                    s0,
                    y as int,
                    0,
                ));
            }
            while x > 0
                invariant
                    self.wf(),
                    self.width == old(self).width,
                    self.height == old(self).height,
                    yy < self.height,
                    x <= self.width,
                    self.state() == model::bwd_from::<D>(w, h, s0, yy as int, x as int),
                decreases x,
            {
                let xx = x - 1;
                proof {
                    model::lemma_bwd_from_inv::<I, D>(image, s0, yy as int, x as int);
                    assert(sweep_inv::<I, D>(image, self.state().0, self.state().1, xx as int, yy as int));
                    assert forall|a: int, b: int| valid_coord(w, h, a, b) implies {
                        ||| #[trigger] self.state().0[pix(w, a, b)] == DISTANCE_INFINITY as int
                        ||| -(MAX_DISTANCE_FP as int) < self.state().0[pix(w, a, b)] < MAX_DISTANCE_FP as int
                    } by {
                        assert(sweep_inv::<I, D>(image, self.state().0, self.state().1, a, b));
                    }
                }
                let ghost st0 = self.state();
                let own0 = self.get_distance(xx, yy);
                proof {
                    model::lemma_sweep_step_inv::<I, D>(image, st0, own0 as int, xx as int, yy as int, 1, 0);
                }
                let ghost r1 = sweep_step::<D>(w, h, st0, own0 as int, xx as int, yy as int, 1, 0);
                let own1 = self.sweep_neighbour(xx, yy, 1, 0, own0);
                proof {
                    model::lemma_sweep_step_inv::<I, D>(image, r1.0, r1.1, xx as int, yy as int, -1, 1);
                    assert forall|a: int, b: int| valid_coord(w, h, a, b) implies {
                        ||| #[trigger] self.state().0[pix(w, a, b)] == DISTANCE_INFINITY as int
                        ||| -(MAX_DISTANCE_FP as int) < self.state().0[pix(w, a, b)] < MAX_DISTANCE_FP as int
                    } by {
                        assert(sweep_inv::<I, D>(image, self.state().0, self.state().1, a, b));
                    }
                }
                let ghost r2 = sweep_step::<D>(w, h, r1.0, r1.1, xx as int, yy as int, -1, 1);
                let own2 = self.sweep_neighbour(xx, yy, -1, 1, own1);
                proof {
                    model::lemma_sweep_step_inv::<I, D>(image, r2.0, r2.1, xx as int, yy as int, 0, 1);
                    assert forall|a: int, b: int| valid_coord(w, h, a, b) implies {
                        ||| #[trigger] self.state().0[pix(w, a, b)] == DISTANCE_INFINITY as int
                        ||| -(MAX_DISTANCE_FP as int) < self.state().0[pix(w, a, b)] < MAX_DISTANCE_FP as int
                    } by {
                        assert(sweep_inv::<I, D>(image, self.state().0, self.state().1, a, b));
                    }
                }
                let ghost r3 = sweep_step::<D>(w, h, r2.0, r2.1, xx as int, yy as int, 0, 1);
                let own3 = self.sweep_neighbour(xx, yy, 0, 1, own2);
                proof {
                    model::lemma_sweep_step_inv::<I, D>(image, r3.0, r3.1, xx as int, yy as int, 1, 1);
                    assert forall|a: int, b: int| valid_coord(w, h, a, b) implies {
                        ||| #[trigger] self.state().0[pix(w, a, b)] == DISTANCE_INFINITY as int
                        ||| -(MAX_DISTANCE_FP as int) < self.state().0[pix(w, a, b)] < MAX_DISTANCE_FP as int
                    } by {
                        assert(sweep_inv::<I, D>(image, self.state().0, self.state().1, a, b));
                    }
                }
                self.sweep_neighbour(xx, yy, 1, 1, own3);
                proof {
                    assert(self.state() == model::bwd_px::<D>(w, h, st0, xx as int, yy as int));
                    assert(model::bwd_from::<D>(w, h, s0, yy as int, xx as int) == model::bwd_px::<
                        D,
                    >(
                        w,
                        h,
                        model::bwd_from::<D>(w, h, s0, yy as int, xx as int + 1),
                        xx as int,
                        yy as int,
                    ));
                }
                x = xx;
            }
            y = yy;
        }
        proof {
            model::lemma_bwd_from_inv::<I, D>(image, s0, 0, 0);
        }
    }

    /// Flip the distance sign of every pixel that lies inside the shape.
    #[verifier::loop_isolation(false)]
    fn flip_pass<I: BinaryImage>(&mut self, image: &I)
        requires
            old(self).wf(),
            old(self).width == image.width_spec(),
            old(self).height == image.height_spec(),
            model::inv_all::<I, D>(image, old(self).state()),
        ensures
            final(self).wf(),
            final(self).width == old(self).width,
            final(self).height == old(self).height,
            final(self).state() == model::flip_done::<I, D>(image, old(self).state()),
            model::all_cells_ok::<I, D>(image, final(self).state()),
    {
        let ghost w = self.width as int;
        let ghost h = self.height as int;
        let ghost s0 = self.state();
        let mut y: u16 = 0;
        while y < self.height
            invariant
                self.wf(),
                self.width == old(self).width,
                self.height == old(self).height,
                y <= self.height,
                self.state() == model::flip_to::<I, D>(image, s0, y as int, 0),
            decreases self.height - y,
        {
            let mut x: u16 = 0;
            while x < self.width
                invariant
                    self.wf(),
                    self.width == old(self).width,
                    self.height == old(self).height,
                    y < self.height,
                    x <= self.width,
                    self.state() == model::flip_to::<I, D>(image, s0, y as int, x as int),
                decreases self.width - x,
            {
                let ghost pre = self.state();
                proof {
                    model::lemma_flip_to_ok::<I, D>(image, s0, y as int, x as int);
                    lemma_pix_bounds(w, h, x as int, y as int);
                    assert(pre.0[pix(w, x as int, y as int)] == s0.0[pix(w, x as int, y as int)]);
                    assert(sweep_inv::<I, D>(image, s0.0, s0.1, x as int, y as int));
                }
                if image.is_inside(x, y) {
                    self.invert_distance_sign(x, y);
                }
                proof {
                    assert(self.state() == model::flip_px::<I, D>(image, pre, x as int, y as int));
                    assert(model::flip_to::<I, D>(image, s0, y as int, x as int + 1)
                        == model::flip_px::<I, D>(
                        image,
                        model::flip_to::<I, D>(image, s0, y as int, x as int),
                        x as int,
                        y as int,
                    ));
                }
                x = x + 1;
            }
            proof {
                assert(model::flip_to::<I, D>(image, s0, y as int + 1, 0) == model::flip_to::<
                    I,
                    D,
                >(image, s0, y as int, w));
            }
            y = y + 1;
        }
        proof {
            model::lemma_flip_done_ok::<I, D>(image, s0);
            assert(self.state() == model::flip_done::<I, D>(image, s0));
        }
    }

    /// Approximates the signed distance field of the specified image.
    /// The algorithm used is based on the paper "The dead reckoning
    /// signed distance transform" by George J. Grevara, 2004.
    ///
    /// The returned buffers are exactly the value of the four passes of
    /// [`model::dead_reckoning`]; in particular, for every pixel, the sign
    /// of its distance matches the image's classification, its magnitude
    /// is the storage-rounded exact Euclidean distance to the recorded
    /// target — a boundary pixel of the image — and boundary pixels are
    /// at distance zero. When the image has no boundary at all, every
    /// distance keeps the magnitude `DISTANCE_INFINITY`.
    pub fn compute<I: BinaryImage>(binary_image: &I) -> (field: Self)
        ensures
            field.wf(),
            field.width == binary_image.width_spec(),
            field.height == binary_image.height_spec(),
            field.state() == model::dead_reckoning::<I, D>(binary_image),
            model::all_cells_ok::<I, D>(binary_image, field.state()),
            bounded_values(field.state().0),
            (exists|a: int, b: int|
                valid_coord(binary_image.width_spec() as int, binary_image.height_spec() as int, a, b)
                    && #[trigger] is_edge(binary_image, a, b)) ==> forall|a: int, b: int|
                valid_coord(binary_image.width_spec() as int, binary_image.height_spec() as int, a, b)
                    ==> -MAX_DISTANCE_FP < #[trigger] field.state().0[pix(
                    binary_image.width_spec() as int,
                    a,
                    b,
                )] < MAX_DISTANCE_FP,
            (forall|a: int, b: int|
                valid_coord(binary_image.width_spec() as int, binary_image.height_spec() as int, a, b)
                    ==> !is_edge(binary_image, a, b)) ==> forall|a: int, b: int|
                valid_coord(binary_image.width_spec() as int, binary_image.height_spec() as int, a, b)
                    ==> {
                    let dv = #[trigger] field.state().0[pix(binary_image.width_spec() as int, a, b)];
                    dv == DISTANCE_INFINITY as int || dv == -(DISTANCE_INFINITY as int)
                },
    {
        let width = binary_image.width();
        let height = binary_image.height();
        proof {
            assert(width as int * height as int <= 0xFFFE0001int) by (nonlinear_arith)
                requires
                    width <= 0xFFFFu16,
                    height <= 0xFFFFu16,
            ;
        }
        let n = width as usize * height as usize;
        let mut field = SignedDistanceField {
            width,
            height,
            distances: D::new(n),
            distance_targets: filled_targets(n),
        };
        proof {
            assert(field.state().0 =~= model::initial_state(field.n()).0);
            assert(field.state().1 =~= model::initial_state(field.n()).1);
        }
        field.seed_pass(binary_image);
        field.forward_pass(binary_image);
        field.backward_pass(binary_image);
        field.flip_pass(binary_image);
        proof {
            let w = binary_image.width_spec() as int;
            let h = binary_image.height_spec() as int;
            if forall|a: int, b: int| valid_coord(w, h, a, b) ==> !is_edge(binary_image, a, b) {
                lemma_no_shape_detection::<I, D>(binary_image, field.state());
                assert forall|a: int, b: int| valid_coord(w, h, a, b) implies {
                    let dv = #[trigger] field.state().0[pix(w, a, b)];
                    dv == DISTANCE_INFINITY as int || dv == -(DISTANCE_INFINITY as int)
                } by {
                    lemma_pix_bounds(w, h, a, b);
                    assert(field.state().0[pix(w, a, b)] == DISTANCE_INFINITY as int || field.state().0[pix(
                        w,
                        a,
                        b,
                    )] == -(DISTANCE_INFINITY as int));
                }
            }
            if exists|a: int, b: int|
                valid_coord(w, h, a, b) && #[trigger] is_edge(binary_image, a, b) {
                let (sx, sy) = choose|a: int, b: int|
                    valid_coord(w, h, a, b) && #[trigger] is_edge(binary_image, a, b);
                model::lemma_boundary_reaches_all::<I, D>(binary_image, sx, sy);
                assert forall|a: int, b: int| valid_coord(w, h, a, b) implies -MAX_DISTANCE_FP
                    < #[trigger] field.state().0[pix(w, a, b)] < MAX_DISTANCE_FP by {
                    assert(-(MAX_DISTANCE_FP as int) < model::dead_reckoning::<I, D>(
                        binary_image,
                    ).0[pix(w, a, b)] < MAX_DISTANCE_FP as int);
                    assert(field.state().0 == model::dead_reckoning::<I, D>(binary_image).0);
                }
            }
            assert forall|j: int| 0 <= j < field.state().0.len() implies {
                ||| (#[trigger] field.state().0[j]) == DISTANCE_INFINITY as int
                ||| field.state().0[j] == -(DISTANCE_INFINITY as int)
                ||| -(MAX_DISTANCE_FP as int) < field.state().0[j] < MAX_DISTANCE_FP as int
            } by {
                crate::grid::lemma_flat_to_coord(w, h, j);
                assert(cell_ok::<I, D>(
                    binary_image,
                    field.state().0,
                    field.state().1,
                    j % w,
                    j / w,
                ));
            }
        }
        field
    }

    /// Scales all distances such that the smallest distance is zero and
    /// the largest is one. Also computes the former minimum and maximum
    /// distance, as well as the new edge-value.
    /// Returns `None` if the binary image did not contain any shapes
    /// (or all distances were equal, so that there is no span to scale).
    pub fn normalize_distances(self) -> (r: Option<NormalizedDistanceField<D>>)
        requires
            self.wf(),
            bounded_values(self.distances.view_fp()),
        ensures
            r is Some <==> !normalize_fails(self.distances.view_fp()),
            r matches Some(nf) ==> nf.describes_normalized(
                self.width,
                self.height,
                self.distances.view_fp(),
            ),
    {
        NormalizedDistanceField::normalize(self)
    }

    /// Scales all distances such that `-max` becomes zero and `max`
    /// becomes one. All distances beyond that magnitude are clamped.
    /// Edges (formerly zero distances) land exactly in the middle, at
    /// `NORM_HALF`. Also collects the former minimum and maximum
    /// distance.
    /// Returns `None` if the binary image did not contain any shapes.
    pub fn normalize_clamped_distances(self, max: i64) -> (r: Option<NormalizedDistanceField<D>>)
        requires
            self.wf(),
            bounded_values(self.distances.view_fp()),
            0 < max < MAX_DISTANCE_FP,
        ensures
            r is Some <==> !has_infinite(self.distances.view_fp()),
            r matches Some(nf) ==> nf.describes_clamped(
                self.width,
                self.height,
                self.distances.view_fp(),
                max as int,
            ),
    {
        NormalizedDistanceField::normalize_clamped(self, max)
    }
}

/// Every value is either one of the two infinities or a fixed-point
/// distance the engine can produce. `compute` guarantees this of every
/// field it returns.
pub open spec fn bounded_values(d: Seq<int>) -> bool {
    forall|j: int|
        0 <= j < d.len() ==> {
            ||| (#[trigger] d[j]) == DISTANCE_INFINITY as int
            ||| d[j] == -(DISTANCE_INFINITY as int)
            ||| -(MAX_DISTANCE_FP as int) < d[j] < MAX_DISTANCE_FP as int
        }
}

/// The smallest of the first k values, starting from `DISTANCE_INFINITY`.
pub open spec fn min_upto(d: Seq<int>, k: int) -> int
    decreases k,
{
    if k <= 0 {
        DISTANCE_INFINITY as int
    } else {
        let m = min_upto(d, k - 1);
        if d[k - 1] < m {
            d[k - 1]
        } else {
            m
        }
    }
}

/// The largest of the first k values, starting from `-DISTANCE_INFINITY`.
pub open spec fn max_upto(d: Seq<int>, k: int) -> int
    decreases k,
{
    if k <= 0 {
        -(DISTANCE_INFINITY as int)
    } else {
        let m = max_upto(d, k - 1);
        if d[k - 1] > m {
            d[k - 1]
        } else {
            m
        }
    }
}

/// The extrema bound every value they were folded over.
pub proof fn lemma_minmax_bounds(d: Seq<int>, k: int)
    requires
        0 <= k <= d.len(),
    ensures
        forall|j: int| 0 <= j < k ==> min_upto(d, k) <= #[trigger] d[j] <= max_upto(d, k),
        min_upto(d, k) <= DISTANCE_INFINITY as int,
        -(DISTANCE_INFINITY as int) <= max_upto(d, k),
    decreases k,
{
    if k > 0 {
        lemma_minmax_bounds(d, k - 1);
    }
}

/// Min-max normalization has nothing to scale when the field still
/// holds an infinite value or all values are equal.
pub open spec fn normalize_fails(d: Seq<int>) -> bool {
    let lo = min_upto(d, d.len() as int);
    let hi = max_upto(d, d.len() as int);
    ||| lo == DISTANCE_INFINITY as int
    ||| lo == -(DISTANCE_INFINITY as int)
    ||| hi == DISTANCE_INFINITY as int
    ||| hi == -(DISTANCE_INFINITY as int)
    ||| lo == hi
}

/// Whether some value of the field is (plus or minus) infinite.
pub open spec fn has_infinite(d: Seq<int>) -> bool {
    exists|j: int|
        0 <= j < d.len() && ((#[trigger] d[j]) == DISTANCE_INFINITY as int || d[j] == -(
        DISTANCE_INFINITY as int))
}

/// Scale `v` from the span `[lo, hi]` into `[0, NORM_ONE]`.
pub open spec fn norm_value(v: int, lo: int, hi: int) -> int {
    ((v - lo) * (NORM_ONE as int)) / (hi - lo)
}

/// Clamp `v` to the symmetric range `[-m, m]`.
pub open spec fn clamp_sym(v: int, m: int) -> int {
    if v > m {
        m
    } else if v < -m {
        -m
    } else {
        v
    }
}

/// Clamp `v` to `[-m, m]`, then scale that range into `[0, NORM_ONE]`.
pub open spec fn clamp_norm(v: int, m: int) -> int {
    ((clamp_sym(v, m) + m) * (NORM_ONE as int)) / (2 * m)
}

/// Clamp a normalized value into `[0, NORM_ONE]` (a defensive clamp,
/// for fields whose buffers were altered by hand).
pub open spec fn clamp_unit(v: int) -> int {
    if v < 0 {
        0
    } else if v > NORM_ONE as int {
        NORM_ONE as int
    } else {
        v
    }
}

/// Scale a normalized value to a byte, using the full byte range.
pub open spec fn unit_to_u8(v: int) -> int {
    clamp_unit(v) * 255 / (NORM_ONE as int)
}

/// Scale a normalized value to a 16-bit value, using the full range.
pub open spec fn unit_to_u16(v: int) -> int {
    clamp_unit(v) * 65535 / (NORM_ONE as int)
}

/// Represents a distance field which was normalized to the range
/// `[0, NORM_ONE]`. Also contains information about the greatest
/// distances of the unnormalized distance field.
pub struct NormalizedDistanceField<D: DistanceStorage> {
    pub width: u16,
    pub height: u16,
    /// All distances are in the range `[0, NORM_ONE]`.
    pub distances: D,
    /// In the original distance field, edges are represented by a
    /// distance of zero. Normalizing the field moves that level: this is
    /// the value that edges of the normalized field have.
    pub zero_distance: i64,
    /// The largest distance in the image to the nearest edge
    /// __outside__ of a shape, before normalization (negated inside).
    pub former_min_distance: i64,
    /// The largest distance in the image to the nearest edge
    /// __inside__ of a shape, before normalization.
    pub former_max_distance: i64,
}

impl<D: DistanceStorage> NormalizedDistanceField<D> {
    /// One entry per pixel.
    pub open spec fn wf(&self) -> bool {
        self.distances.view_fp().len() == self.width as int * self.height as int
    }

    /// What min-max normalization promises: the extrema are the true
    /// fold over the input, the zero level is the input's zero scaled
    /// the same way, and every entry is the scaled input entry, as the
    /// storage rounds it, inside `[0, NORM_ONE]`.
    pub open spec fn describes_normalized(&self, width: u16, height: u16, d0: Seq<int>) -> bool {
        let lo = min_upto(d0, d0.len() as int);
        let hi = max_upto(d0, d0.len() as int);
        &&& self.width == width
        &&& self.height == height
        &&& self.wf()
        &&& self.distances.view_fp().len() == d0.len()
        &&& self.former_min_distance as int == lo
        &&& self.former_max_distance as int == hi
        &&& self.zero_distance as int == norm_value(0, lo, hi)
        &&& forall|j: int|
            0 <= j < d0.len() ==> #[trigger] self.distances.view_fp()[j] == D::round_spec(
                norm_value(d0[j], lo, hi),
            )
        &&& forall|j: int|
            0 <= j < d0.len() ==> 0 <= #[trigger] self.distances.view_fp()[j] <= NORM_ONE as int
    }

    /// What clamped symmetric normalization promises: the extrema are
    /// the true (pre-clamp) fold over the input, the zero level is
    /// exactly the midpoint, every entry is the clamped and scaled input
    /// entry as the storage rounds it, inside `[0, NORM_ONE]`; boundary
    /// entries land exactly on the midpoint and entries at or beyond the
    /// clamp range land exactly on the ends.
    pub open spec fn describes_clamped(&self, width: u16, height: u16, d0: Seq<int>, max: int) -> bool {
        &&& self.width == width
        &&& self.height == height
        &&& self.wf()
        &&& self.distances.view_fp().len() == d0.len()
        &&& self.former_min_distance as int == min_upto(d0, d0.len() as int)
        &&& self.former_max_distance as int == max_upto(d0, d0.len() as int)
        &&& self.zero_distance == NORM_HALF
        &&& forall|j: int|
            0 <= j < d0.len() ==> #[trigger] self.distances.view_fp()[j] == D::round_spec(
                clamp_norm(d0[j], max),
            )
        &&& forall|j: int|
            0 <= j < d0.len() ==> 0 <= #[trigger] self.distances.view_fp()[j] <= NORM_ONE as int
        &&& forall|j: int|
            0 <= j < d0.len() && d0[j] == 0 ==> #[trigger] self.distances.view_fp()[j]
                == NORM_HALF as int
        &&& forall|j: int|
            0 <= j < d0.len() && d0[j] >= max ==> #[trigger] self.distances.view_fp()[j]
                == NORM_ONE as int
        &&& forall|j: int|
            0 <= j < d0.len() && d0[j] <= -max ==> #[trigger] self.distances.view_fp()[j] == 0
    }

    /// Scales all distances such that the smallest distance is zero and
    /// the largest is one. Also computes the former minimum and maximum
    /// distance, as well as the new edge-value.
    /// Returns `None` if the binary image did not contain any shapes
    /// (or all distances were equal, so that there is no span to scale).
    #[verifier::loop_isolation(false)]
    pub fn normalize(distance_field: SignedDistanceField<D>) -> (r: Option<Self>)
        requires
            distance_field.wf(),
            bounded_values(distance_field.distances.view_fp()),
        ensures
            r is Some <==> !normalize_fails(distance_field.distances.view_fp()),
            r matches Some(nf) ==> nf.describes_normalized(
                distance_field.width,
                distance_field.height,
                distance_field.distances.view_fp(),
            ),
    {
        let width = distance_field.width;
        let height = distance_field.height;
        let ghost d0 = distance_field.distances.view_fp();
        let mut storage = distance_field.distances;
        proof {
            assert(storage.view_fp() == d0);
        }
        proof {
            assert(width as int * height as int <= 0xFFFE0001int) by (nonlinear_arith)
                requires
                    width <= 0xFFFFu16,
                    height <= 0xFFFFu16,
            ;
        }
        let n = width as usize * height as usize;
        let mut min: i64 = DISTANCE_INFINITY;
        let mut max: i64 = -DISTANCE_INFINITY;
        let mut k: usize = 0;
        while k < n
            invariant
                k <= n,
                n == d0.len(),
                storage.view_fp() == d0,
                min as int == min_upto(d0, k as int),
                max as int == max_upto(d0, k as int),
            decreases n - k,
        {
            let d = storage.get(k);
            if d < min {
                min = d;
            }
            if d > max {
                max = d;
            }
            k = k + 1;
        }
        if min == DISTANCE_INFINITY || min == -DISTANCE_INFINITY || max == DISTANCE_INFINITY || max
            == -DISTANCE_INFINITY || min == max {
            return None;
        }
        proof {
            lemma_minmax_bounds(d0, n as int);
            lemma_minmax_attained(d0, n as int);
            assert(min < max);
            assert(-MAX_DISTANCE_FP < min && min < MAX_DISTANCE_FP) by {
                let j = choose|j: int| 0 <= j < n && min_upto(d0, n as int) == #[trigger] d0[j];
                assert(d0[j] == DISTANCE_INFINITY as int || d0[j] == -(DISTANCE_INFINITY as int)
                    || -(MAX_DISTANCE_FP as int) < d0[j] < MAX_DISTANCE_FP as int);
            }
            assert(-MAX_DISTANCE_FP < max && max < MAX_DISTANCE_FP) by {
                let j = choose|j: int| 0 <= j < n && max_upto(d0, n as int) == #[trigger] d0[j];
                assert(d0[j] == DISTANCE_INFINITY as int || d0[j] == -(DISTANCE_INFINITY as int)
                    || -(MAX_DISTANCE_FP as int) < d0[j] < MAX_DISTANCE_FP as int);
            }
            assert forall|j: int| 0 <= j < n implies -(MAX_DISTANCE_FP as int) < #[trigger] d0[j]
                < MAX_DISTANCE_FP as int by {
                assert(min_upto(d0, n as int) <= d0[j]);
                assert(d0[j] <= max_upto(d0, n as int));
            }
        }
        let span: u64 = (max - min) as u64;
        let mut k: usize = 0;
        while k < n
            invariant
                k <= n,
                n == d0.len(),
                storage.view_fp().len() == d0.len(),
                min as int == min_upto(d0, n as int),
                max as int == max_upto(d0, n as int),
                min < max,
                -MAX_DISTANCE_FP < min && min < MAX_DISTANCE_FP,
                -MAX_DISTANCE_FP < max && max < MAX_DISTANCE_FP,
                span == max - min,
                forall|j: int| 0 <= j < n ==> min as int <= #[trigger] d0[j] <= max as int,
                forall|j: int|
                    k <= j < n ==> #[trigger] storage.view_fp()[j] == d0[j],
                forall|j: int|
                    0 <= j < k ==> #[trigger] storage.view_fp()[j] == D::round_spec(
                        norm_value(d0[j], min as int, max as int),
                    ),
                forall|j: int|
                    0 <= j < k ==> 0 <= #[trigger] storage.view_fp()[j] <= NORM_ONE as int,
            decreases n - k,
        {
            let d = storage.get(k);
            let num: u64 = (d - min) as u64;
            let nv: i64 = ((num * 65536) / span) as i64;
            proof {
                vstd::arithmetic::div_mod::lemma_div_is_ordered(
                    num as int * 65536,
                    span as int * 65536,
                    span as int,
                );
                vstd::arithmetic::div_mod::lemma_div_multiples_vanish(65536, span as int);
                assert(span as int * 65536 == 65536 * span as int) by (nonlinear_arith);
                assert(num as int * 65536 >= 0) by (nonlinear_arith)
                    requires
                        num >= 0,
                ;
                vstd::arithmetic::div_mod::lemma_div_pos_is_pos(num as int * 65536, span as int);
                assert(nv as int == norm_value(d0[k as int], min as int, max as int));
                D::lemma_round(nv as int);
            }
            storage.set(k, nv);
            k = k + 1;
        }
        let zero_distance: i64 = if min <= 0 {
            let zd = (((-min) as u64) * 65536) / span;
            proof {
                vstd::arithmetic::div_mod::lemma_div_pos_is_pos(
                    (-min) as int * 65536,
                    span as int,
                );
                vstd::arithmetic::div_mod::lemma_div_nonincreasing(
                    (-min) as int * 65536,
                    span as int,
                );
            }
            zd as i64
        } else {
            let a: u64 = (min as u64) * 65536;
            let q: u64 = (a + span - 1) / span;
            proof {
                lemma_neg_div(a as int, span as int, q as int);
                vstd::arithmetic::div_mod::lemma_div_nonincreasing((a + span - 1) as int, span as int);
            }
            -(q as i64)
        };
        Some(
            NormalizedDistanceField {
                width,
                height,
                distances: storage,
                zero_distance,
                former_min_distance: min,
                former_max_distance: max,
            },
        )
    }

    /// Scales all distances such that `-max` becomes zero and `max`
    /// becomes one. All distances beyond that magnitude are clamped.
    /// Edges (formerly zero distances) land exactly in the middle, at
    /// `NORM_HALF`. Also collects the former minimum and maximum
    /// distance.
    /// Returns `None` if the binary image did not contain any shapes.
    #[verifier::loop_isolation(false)]
    pub fn normalize_clamped(distance_field: SignedDistanceField<D>, max: i64) -> (r: Option<Self>)
        requires
            distance_field.wf(),
            bounded_values(distance_field.distances.view_fp()),
            0 < max < MAX_DISTANCE_FP,
        ensures
            r is Some <==> !has_infinite(distance_field.distances.view_fp()),
            r matches Some(nf) ==> nf.describes_clamped(
                distance_field.width,
                distance_field.height,
                distance_field.distances.view_fp(),
                max as int,
            ),
    {
        let width = distance_field.width;
        let height = distance_field.height;
        let ghost d0 = distance_field.distances.view_fp();
        let mut storage = distance_field.distances;
        proof {
            assert(storage.view_fp() == d0);
        }
        proof {
            assert(width as int * height as int <= 0xFFFE0001int) by (nonlinear_arith)
                requires
                    width <= 0xFFFFu16,
                    height <= 0xFFFFu16,
            ;
        }
        let n = width as usize * height as usize;
        let den: u64 = (2 * max) as u64;
        let mut former_min: i64 = DISTANCE_INFINITY;
        let mut former_max: i64 = -DISTANCE_INFINITY;
        let mut k: usize = 0;
        while k < n
            invariant
                k <= n,
                n == d0.len(),
                0 < max < MAX_DISTANCE_FP,
                den == 2 * max,
                bounded_values(d0),
                storage.view_fp().len() == d0.len(),
                former_min as int == min_upto(d0, k as int),
                former_max as int == max_upto(d0, k as int),
                forall|j: int|
                    k <= j < n ==> #[trigger] storage.view_fp()[j] == d0[j],
                forall|j: int|
                    0 <= j < k ==> (#[trigger] d0[j] != DISTANCE_INFINITY as int && d0[j] != -(
                    DISTANCE_INFINITY as int)),
                forall|j: int|
                    0 <= j < k ==> #[trigger] storage.view_fp()[j] == D::round_spec(
                        clamp_norm(d0[j], max as int),
                    ),
                forall|j: int|
                    0 <= j < k ==> 0 <= #[trigger] storage.view_fp()[j] <= NORM_ONE as int,
                forall|j: int|
                    0 <= j < k && d0[j] == 0 ==> #[trigger] storage.view_fp()[j] == NORM_HALF as int,
                forall|j: int|
                    0 <= j < k && d0[j] >= max ==> #[trigger] storage.view_fp()[j]
                        == NORM_ONE as int,
                forall|j: int|
                    0 <= j < k && d0[j] <= -max ==> #[trigger] storage.view_fp()[j] == 0,
            decreases n - k,
        {
            let d = storage.get(k);
            if d == DISTANCE_INFINITY || d == -DISTANCE_INFINITY {
                proof {
                    assert(d0[k as int] == DISTANCE_INFINITY as int || d0[k as int] == -(
                    DISTANCE_INFINITY as int));
                    assert(has_infinite(d0));
                }
                return None;
            }
            if d > former_max {
                former_max = d;
            }
            if d < former_min {
                former_min = d;
            }
            let clamped: i64 = if d > max {
                max
            } else if d < -max {
                -max
            } else {
                d
            };
            let num: u64 = (clamped + max) as u64;
            let nv: i64 = ((num * 65536) / den) as i64;
            proof {
                vstd::arithmetic::div_mod::lemma_div_is_ordered(
                    num as int * 65536,
                    den as int * 65536,
                    den as int,
                );
                vstd::arithmetic::div_mod::lemma_div_multiples_vanish(65536, den as int);
                assert(den as int * 65536 == 65536 * den as int) by (nonlinear_arith);
                assert(num as int * 65536 >= 0) by (nonlinear_arith)
                    requires
                        num >= 0,
                ;
                vstd::arithmetic::div_mod::lemma_div_pos_is_pos(num as int * 65536, den as int);
                assert(nv as int == clamp_norm(d0[k as int], max as int));
                if d == 0 {
                    assert(num == max);
                    assert(num as int * 65536 == 32768 * (den as int)) by (nonlinear_arith)
                        requires
                            num == max,
                            den == 2 * max,
                    ;
                    vstd::arithmetic::div_mod::lemma_div_multiples_vanish(32768, den as int);
                    assert((den as int * 32768) == (32768 * den as int)) by (nonlinear_arith);
                    assert(nv == NORM_HALF);
                }
                if d >= max {
                    assert(num == den);
                    assert(num as int * 65536 == 65536 * (den as int)) by (nonlinear_arith)
                        requires
                            num == den,
                    ;
                    assert(nv == NORM_ONE);
                }
                if d <= -max {
                    assert(num == 0);
                    vstd::arithmetic::div_mod::lemma_div_of0(den as int);
                    assert(nv == 0);
                }
                D::lemma_round(nv as int);
            }
            storage.set(k, nv);
            k = k + 1;
        }
        proof {
            if has_infinite(d0) {
                let j = choose|j: int|
                    0 <= j < d0.len() && ((#[trigger] d0[j]) == DISTANCE_INFINITY as int || d0[j]
                        == -(DISTANCE_INFINITY as int));
                assert(false);
            }
        }
        Some(
            NormalizedDistanceField {
                width,
                height,
                distances: storage,
                zero_distance: NORM_HALF,
                former_min_distance: former_min,
                former_max_distance: former_max,
            },
        )
    }

    /// Convert the normalized distances to bytes, with the byte range
    /// fully utilized.
    #[verifier::loop_isolation(false)]
    pub fn to_u8(&self) -> (r: Vec<u8>)
        requires
            self.wf(),
        ensures
            r@.len() == self.distances.view_fp().len(),
            forall|j: int|
                0 <= j < r@.len() ==> #[trigger] r@[j] as int == unit_to_u8(
                    self.distances.view_fp()[j],
                ),
    {
        let ghost d0 = self.distances.view_fp();
        proof {
            assert(self.width as int * self.height as int <= 0xFFFE0001int) by (nonlinear_arith)
                requires
                    self.width <= 0xFFFFu16,
                    self.height <= 0xFFFFu16,
            ;
        }
        let n = self.width as usize * self.height as usize;
        let mut out: Vec<u8> = Vec::new();
        let mut k: usize = 0;
        while k < n
            invariant
                k <= n,
                n == d0.len(),
                self.distances.view_fp() == d0,
                self.wf(),
                out@.len() == k,
                forall|j: int| 0 <= j < k ==> #[trigger] out@[j] as int == unit_to_u8(d0[j]),
            decreases n - k,
        {
            let d = self.distances.get(k);
            let c: u64 = if d < 0 {
                0
            } else if d > NORM_ONE {
                NORM_ONE as u64
            } else {
                d as u64
            };
            let b: u8 = ((c * 255) / 65536) as u8;
            proof {
                vstd::arithmetic::div_mod::lemma_div_pos_is_pos(c as int * 255, 65536);
                vstd::arithmetic::div_mod::lemma_div_is_ordered(c as int * 255, 65536int * 255, 65536);
                vstd::arithmetic::div_mod::lemma_div_multiples_vanish(255, 65536);
                assert(c as int * 255 <= 65536 * 255) by (nonlinear_arith)
                    requires
                        c <= 65536,
                ;
            }
            out.push(b);
            k = k + 1;
        }
        out
    }

    /// Convert the normalized distances to 16-bit values, with the range
    /// fully utilized.
    #[verifier::loop_isolation(false)]
    pub fn to_u16(&self) -> (r: Vec<u16>)
        requires
            self.wf(),
        ensures
            r@.len() == self.distances.view_fp().len(),
            forall|j: int|
                0 <= j < r@.len() ==> #[trigger] r@[j] as int == unit_to_u16(
                    self.distances.view_fp()[j],
                ),
    {
        let ghost d0 = self.distances.view_fp();
        proof {
            assert(self.width as int * self.height as int <= 0xFFFE0001int) by (nonlinear_arith)
                requires
                    self.width <= 0xFFFFu16,
                    self.height <= 0xFFFFu16,
            ;
        }
        let n = self.width as usize * self.height as usize;
        let mut out: Vec<u16> = Vec::new();
        let mut k: usize = 0;
        while k < n
            invariant
                k <= n,
                n == d0.len(),
                self.distances.view_fp() == d0,
                self.wf(),
                out@.len() == k,
                forall|j: int| 0 <= j < k ==> #[trigger] out@[j] as int == unit_to_u16(d0[j]),
            decreases n - k,
        {
            let d = self.distances.get(k);
            let c: u64 = if d < 0 {
                0
            } else if d > NORM_ONE {
                NORM_ONE as u64
            } else {
                d as u64
            };
            let b: u16 = ((c * 65535) / 65536) as u16;
            proof {
                vstd::arithmetic::div_mod::lemma_div_pos_is_pos(c as int * 65535, 65536);
                vstd::arithmetic::div_mod::lemma_div_is_ordered(
                    c as int * 65535,
                    65536int * 65535,
                    65536,
                );
                vstd::arithmetic::div_mod::lemma_div_multiples_vanish(65535, 65536);
                assert(c as int * 65535 <= 65536 * 65535) by (nonlinear_arith)
                    requires
                        c <= 65536,
                ;
            }
            out.push(b);
            k = k + 1;
        }
        out
    }
}

/// The fold that found an extremum either kept its starting value or
/// took it from some entry.
pub proof fn lemma_minmax_attained(d: Seq<int>, k: int)
    requires
        0 <= k <= d.len(),
    ensures
        min_upto(d, k) == DISTANCE_INFINITY as int || exists|j: int|
            0 <= j < k && min_upto(d, k) == #[trigger] d[j],
        max_upto(d, k) == -(DISTANCE_INFINITY as int) || exists|j: int|
            0 <= j < k && max_upto(d, k) == #[trigger] d[j],
    decreases k,
{
    if k > 0 {
        lemma_minmax_attained(d, k - 1);
    }
}

/// No-shape detection: an image that is uniformly one class has no
/// boundary pixel, so every distance of its finished field is infinite,
/// and both normalizations report the empty-field condition (`None`)
/// rather than a numeric result.
pub proof fn lemma_no_shape_detection<I: BinaryImage, D: DistanceStorage>(
    img: &I,
    s: FieldState,
)
    requires
        model::lens_ok(img, s),
        model::all_cells_ok::<I, D>(img, s),
        forall|a: int, b: int|
            valid_coord(img.width_spec() as int, img.height_spec() as int, a, b)
                ==> !is_edge(img, a, b),
    ensures
        forall|j: int|
            0 <= j < s.0.len() ==> ((#[trigger] s.0[j]) == DISTANCE_INFINITY as int || s.0[j] == -(
            DISTANCE_INFINITY as int)),
        normalize_fails(s.0),
        s.0.len() > 0 ==> has_infinite(s.0),
{
    let w = img.width_spec() as int;
    let h = img.height_spec() as int;
    let n = s.0.len() as int;
    assert forall|j: int| 0 <= j < n implies ((#[trigger] s.0[j]) == DISTANCE_INFINITY as int
        || s.0[j] == -(DISTANCE_INFINITY as int)) by {
        crate::grid::lemma_flat_to_coord(w, h, j);
        let a = j % w;
        let b = j / w;
        assert(cell_ok::<I, D>(img, s.0, s.1, a, b));
        let dv = s.0[j];
        let m = if dv < 0 {
            -dv
        } else {
            dv
        };
        if m != DISTANCE_INFINITY as int {
            let tx = s.1[j].0 as int;
            let ty = s.1[j].1 as int;
            assert(is_edge(img, tx, ty));
            assert(valid_coord(w, h, tx, ty));
            assert(false);
        }
    }
    lemma_minmax_attained(s.0, n);
    lemma_minmax_bounds(s.0, n);
    if n > 0 {
        assert(s.0[0] == DISTANCE_INFINITY as int || s.0[0] == -(DISTANCE_INFINITY as int));
        assert(has_infinite(s.0));
    }
    let lo = min_upto(s.0, n);
    if lo != DISTANCE_INFINITY as int {
        let j = choose|j: int| 0 <= j < n && min_upto(s.0, n) == #[trigger] s.0[j];
        assert(lo == -(DISTANCE_INFINITY as int));
    }
}

/// The storage precision tradeoff: within the compact storage's range,
/// the full-precision storage keeps every written distance exactly, and
/// the compact storage moves it by at most half a grid step (a
/// sixteenth of a pixel).
pub proof fn lemma_storage_precision(v: int)
    requires
        -(COMPACT_MAX_STEPS as int * COMPACT_GRID as int) <= v <= COMPACT_MAX_STEPS as int
            * COMPACT_GRID as int,
    ensures
        F32DistanceStorage::round_spec(v) == v,
        F16DistanceStorage::round_spec(v) - v <= COMPACT_GRID as int / 2,
        v - F16DistanceStorage::round_spec(v) <= COMPACT_GRID as int / 2,
{
    assert forall|m: int| 0 <= m <= COMPACT_MAX_STEPS as int * 32 implies (compact_round_mag(m) - m
        <= 16 && m - compact_round_mag(m) <= 16) by {
        vstd::arithmetic::div_mod::lemma_fundamental_div_mod(m + 16, 32);
        vstd::arithmetic::div_mod::lemma_mod_bound(m + 16, 32);
        let g = (m + 16) / 32;
        if g > COMPACT_MAX_STEPS as int {
            assert(32 * g <= m + 16);
            assert(g * 32 >= COMPACT_MAX_STEPS as int * 32 + 32) by (nonlinear_arith)
                requires
                    g >= COMPACT_MAX_STEPS as int + 1,
            ;
        } else {
            assert(compact_round_mag(m) == g * 32);
            assert(g * 32 == 32 * g) by (nonlinear_arith);
        }
    }
    if v >= 0 {
        assert(F16DistanceStorage::round_spec(v) == compact_round_mag(v));
    } else {
        assert(F16DistanceStorage::round_spec(v) == -compact_round_mag(-v));
    }
}

/// The quotient of a negative multiple: rounding a nonnegative division
/// up gives the (floor) quotient of the negated division.
proof fn lemma_neg_div(a: int, den: int, q: int)
    requires
        a >= 0,
        den > 0,
        q == (a + den - 1) / den,
    ensures
        (0 - a) / den == 0 - q,
{
    vstd::arithmetic::div_mod::lemma_fundamental_div_mod(a + den - 1, den);
    vstd::arithmetic::div_mod::lemma_mod_bound(a + den - 1, den);
    vstd::arithmetic::div_mod::lemma_div_pos_is_pos(a + den - 1, den);
    let r = (a + den - 1) % den;
    assert(a + den - 1 == den * q + r);
    assert(den * q >= a) by {
        if den * q <= a - 1 {
            assert(r == a + den - 1 - den * q >= den);
        }
    }
    assert(den * q < a + den);
    assert((0 - q) * den == 0 - den * q) by (nonlinear_arith);
    vstd::arithmetic::div_mod::lemma_fundamental_div_mod_converse(
        0 - a,
        den,
        0 - q,
        den * q - a,
    );
}

} // verus!
