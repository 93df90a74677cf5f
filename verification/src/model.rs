//! The mathematical model of the dead reckoning transform.
//!
//! The four passes of the engine — edge seeding, the forward sweep, the
//! backward sweep and the sign flip — are written out here as pure
//! recurrences over sequences, in raster order. `compute` promises that
//! the buffers it returns are exactly the value of [`dead_reckoning`],
//! and the element-wise guarantees ([`cell_ok`]) are stated over the same
//! sequences.
//!
//! A field state is a pair of row-major sequences: the fixed-point
//! distance of every pixel (`DISTANCE_INFINITY` where no boundary has
//! reached it), and the coordinates of the nearest boundary pixel found
//! so far.

use vstd::prelude::*;

verus! {

use crate::binary_image::BinaryImage;
use crate::distance_field::DistanceStorage;
use crate::fixed::{dist_fp, sq_dist, sqrt_floor, DISTANCE_INFINITY, MAX_DISTANCE_FP};
use crate::grid::pix;

/// The distances and the targets of a field, as one value.
pub type FieldState = (Seq<int>, Seq<(u16, u16)>);

/// Whether (x, y) lies inside a grid of the given dimensions.
pub open spec fn valid_coord(w: int, h: int, x: int, y: int) -> bool {
    0 <= x < w && 0 <= y < h
}

/// Whether the image classifies the pixel at (x, y) differently from the
/// neighbour at offset (ox, oy); false when that neighbour does not exist.
pub open spec fn edge_toward<I: BinaryImage>(img: &I, x: int, y: int, ox: int, oy: int) -> bool {
    valid_coord(img.width_spec() as int, img.height_spec() as int, x + ox, y + oy)
        && img.inside_spec(x, y) != img.inside_spec(x + ox, y + oy)
}

/// A boundary pixel: one whose classification differs from at least one
/// of its existing 4-connected neighbours.
pub open spec fn is_edge<I: BinaryImage>(img: &I, x: int, y: int) -> bool {
    ||| edge_toward(img, x, y, -1, 0)
    ||| edge_toward(img, x, y, 1, 0)
    ||| edge_toward(img, x, y, 0, -1)
    ||| edge_toward(img, x, y, 0, 1)
}

/// Every distance starts at `+infinity`, every target at (0, 0).
pub open spec fn initial_state(n: int) -> FieldState {
    (
        Seq::new(n as nat, |i: int| DISTANCE_INFINITY as int),
        Seq::new(n as nat, |i: int| (0u16, 0u16)),
    )
}

/// Seeding one pixel: a boundary pixel becomes its own target, at
/// distance zero; any other pixel is left alone.
pub open spec fn seed_px<I: BinaryImage, D: DistanceStorage>(
    img: &I,
    s: FieldState,
    x: int,
    y: int,
) -> FieldState {
    if is_edge(img, x, y) {
        let i = pix(img.width_spec() as int, x, y);
        (s.0.update(i, D::round_spec(0)), s.1.update(i, (x as u16, y as u16)))
    } else {
        s
    }
}

/// The seeding pass, applied to every pixel before (x, y) in raster
/// order (the whole grid once it reaches (height, 0)).
pub open spec fn seed_to<I: BinaryImage, D: DistanceStorage>(img: &I, y: int, x: int) -> FieldState
    decreases y, x,
{
    if y <= 0 && x <= 0 {
        initial_state(img.width_spec() as int * img.height_spec() as int)
    } else if x <= 0 {
        seed_to::<I, D>(img, y - 1, img.width_spec() as int)
    } else {
        seed_px::<I, D>(img, seed_to::<I, D>(img, y, x - 1), x - 1, y)
    }
}

/// The state after the whole seeding pass.
pub open spec fn seed_done<I: BinaryImage, D: DistanceStorage>(img: &I) -> FieldState {
    seed_to::<I, D>(img, img.height_spec() as int, 0)
}

/// The length of a one-step offset, in fixed-point units.
pub open spec fn offset_len(ox: int, oy: int) -> int {
    dist_fp(0, 0, ox, oy)
}

/// The distance that the neighbour at offset (ox, oy) proposes for the
/// pixel at (x, y): the neighbour's current distance plus the length of
/// the offset, or `+infinity` when the neighbour does not exist or has
/// not been reached itself.
pub open spec fn neighbour_cand(
    w: int,
    h: int,
    d: Seq<int>,
    x: int,
    y: int,
    ox: int,
    oy: int,
) -> int {
    if valid_coord(w, h, x + ox, y + oy) {
        let nd = d[pix(w, x + ox, y + oy)];
        if nd == DISTANCE_INFINITY as int {
            DISTANCE_INFINITY as int
        } else {
            nd + offset_len(ox, oy)
        }
    } else {
        DISTANCE_INFINITY as int
    }
}

/// One comparison of a sweep: when the neighbour's proposal is strictly
/// smaller than the pixel's current distance, the pixel adopts the
/// neighbour's target and its distance is recomputed from that target
/// (and rounded by the storage); ties leave the pixel alone. The second
/// component is the pixel's current distance as the sweep sees it: the
/// freshly recomputed, unrounded value after an adoption.
pub open spec fn sweep_step<D: DistanceStorage>(
    w: int,
    h: int,
    s: FieldState,
    own: int,
    x: int,
    y: int,
    ox: int,
    oy: int,
) -> (FieldState, int) {
    let cand = neighbour_cand(w, h, s.0, x, y, ox, oy);
    if cand < own {
        let t = s.1[pix(w, x + ox, y + oy)];
        let d = dist_fp(x, y, t.0 as int, t.1 as int);
        ((s.0.update(pix(w, x, y), D::round_spec(d)), s.1.update(pix(w, x, y), t)), d)
    } else {
        (s, own)
    }
}

/// The forward sweep at one pixel: the four already-visited neighbours
/// (upper row and left), in this order.
pub open spec fn fwd_px<D: DistanceStorage>(w: int, h: int, s: FieldState, x: int, y: int) -> FieldState {
    let own0 = s.0[pix(w, x, y)];
    let s1 = sweep_step::<D>(w, h, s, own0, x, y, -1, -1);
    let s2 = sweep_step::<D>(w, h, s1.0, s1.1, x, y, 0, -1);
    let s3 = sweep_step::<D>(w, h, s2.0, s2.1, x, y, 1, -1);
    sweep_step::<D>(w, h, s3.0, s3.1, x, y, -1, 0).0
}

/// The forward sweep, applied to every pixel before (x, y) in raster
/// order, starting from `s0`.
pub open spec fn fwd_to<D: DistanceStorage>(w: int, h: int, s0: FieldState, y: int, x: int) -> FieldState
    decreases y, x,
{
    if y <= 0 && x <= 0 {
        s0
    } else if x <= 0 {
        fwd_to::<D>(w, h, s0, y - 1, w)
    } else {
        fwd_px::<D>(w, h, fwd_to::<D>(w, h, s0, y, x - 1), x - 1, y)
    }
}

/// The state after the whole forward sweep.
pub open spec fn fwd_done<D: DistanceStorage>(w: int, h: int, s0: FieldState) -> FieldState {
    fwd_to::<D>(w, h, s0, h, 0)
}

/// The backward sweep at one pixel: the four neighbours opposite to the
/// forward ones (right and lower row), in this order.
pub open spec fn bwd_px<D: DistanceStorage>(w: int, h: int, s: FieldState, x: int, y: int) -> FieldState {
    let own0 = s.0[pix(w, x, y)];
    let s1 = sweep_step::<D>(w, h, s, own0, x, y, 1, 0);
    let s2 = sweep_step::<D>(w, h, s1.0, s1.1, x, y, -1, 1);
    let s3 = sweep_step::<D>(w, h, s2.0, s2.1, x, y, 0, 1);
    sweep_step::<D>(w, h, s3.0, s3.1, x, y, 1, 1).0
}

/// The backward sweep, applied to every pixel from the last of the grid
/// down to (x, y) in reverse raster order, starting from `s0`.
pub open spec fn bwd_from<D: DistanceStorage>(w: int, h: int, s0: FieldState, y: int, x: int) -> FieldState
    decreases h - y, w - x,
{
    if y >= h {
        s0
    } else if x >= w {
        bwd_from::<D>(w, h, s0, y + 1, 0)
    } else {
        bwd_px::<D>(w, h, bwd_from::<D>(w, h, s0, y, x + 1), x, y)
    }
}

/// The state after the whole backward sweep.
pub open spec fn bwd_done<D: DistanceStorage>(w: int, h: int, s0: FieldState) -> FieldState {
    bwd_from::<D>(w, h, s0, 0, 0)
}

/// The sign flip at one pixel: an inside pixel's distance is negated
/// (and stored again, so the storage rounds the negated value).
pub open spec fn flip_px<I: BinaryImage, D: DistanceStorage>(
    img: &I,
    s: FieldState,
    x: int,
    y: int,
) -> FieldState {
    if img.inside_spec(x, y) {
        let i = pix(img.width_spec() as int, x, y);
        (s.0.update(i, D::round_spec(-s.0[i])), s.1)
    } else {
        s
    }
}

/// The sign flip pass, applied to every pixel before (x, y) in raster
/// order, starting from `s0`.
pub open spec fn flip_to<I: BinaryImage, D: DistanceStorage>(
    img: &I,
    s0: FieldState,
    y: int,
    x: int,
) -> FieldState
    decreases y, x,
{
    if y <= 0 && x <= 0 {
        s0
    } else if x <= 0 {
        flip_to::<I, D>(img, s0, y - 1, img.width_spec() as int)
    } else {
        flip_px::<I, D>(img, flip_to::<I, D>(img, s0, y, x - 1), x - 1, y)
    }
}

/// The state after the whole sign flip pass.
pub open spec fn flip_done<I: BinaryImage, D: DistanceStorage>(img: &I, s0: FieldState) -> FieldState {
    flip_to::<I, D>(img, s0, img.height_spec() as int, 0)
}

/// The dead reckoning transform of a binary image: seeding, forward
/// sweep, backward sweep, sign flip, in this order.
pub open spec fn dead_reckoning<I: BinaryImage, D: DistanceStorage>(img: &I) -> FieldState {
    let w = img.width_spec() as int;
    let h = img.height_spec() as int;
    flip_done::<I, D>(img, bwd_done::<D>(w, h, fwd_done::<D>(w, h, seed_done::<I, D>(img))))
}

/// What holds of every cell between seeding and the sign flip, except
/// for the seeding guarantee itself: distances are nonnegative and are
/// kept exactly as the storage rounds them, and every reached cell
/// records an existing boundary pixel as its target, with its distance
/// the rounded exact distance to that target.
pub open spec fn sweep_base<I: BinaryImage, D: DistanceStorage>(
    img: &I,
    d: Seq<int>,
    t: Seq<(u16, u16)>,
    x: int,
    y: int,
) -> bool {
    let w = img.width_spec() as int;
    let i = pix(w, x, y);
    let dv = d[i];
    let tx = t[i].0 as int;
    let ty = t[i].1 as int;
    &&& 0 <= dv
    &&& D::round_spec(dv) == dv
    &&& (dv == DISTANCE_INFINITY as int || {
        &&& dv < MAX_DISTANCE_FP as int
        &&& valid_coord(w, img.height_spec() as int, tx, ty)
        &&& is_edge(img, tx, ty)
        &&& dv == D::round_spec(dist_fp(x, y, tx, ty))
    })
}

/// What holds of every cell between seeding and the sign flip:
/// [`sweep_base`], and boundary pixels stay at distance zero.
pub open spec fn sweep_inv<I: BinaryImage, D: DistanceStorage>(
    img: &I,
    d: Seq<int>,
    t: Seq<(u16, u16)>,
    x: int,
    y: int,
) -> bool {
    &&& sweep_base::<I, D>(img, d, t, x, y)
    &&& (is_edge(img, x, y) ==> d[pix(img.width_spec() as int, x, y)] == 0)
}

/// The sign/classification round trip: reading a computed field back
/// through "negative means inside" reproduces the image's
/// classification on every pixel whose distance is not zero (boundary
/// pixels sit exactly at zero and are read back as outside).
pub proof fn lemma_sign_round_trip<I: BinaryImage, D: DistanceStorage>(
    img: &I,
    d: Seq<int>,
    t: Seq<(u16, u16)>,
    a: int,
    b: int,
)
    requires
        valid_coord(img.width_spec() as int, img.height_spec() as int, a, b),
        cell_ok::<I, D>(img, d, t, a, b),
    ensures
        d[pix(img.width_spec() as int, a, b)] < 0 ==> img.inside_spec(a, b),
        d[pix(img.width_spec() as int, a, b)] > 0 ==> !img.inside_spec(a, b),
        d[pix(img.width_spec() as int, a, b)] != 0 ==> ((d[pix(img.width_spec() as int, a, b)]
            < 0) <==> img.inside_spec(a, b)),
{
}

/// Both sequences of a state have one entry per pixel.
pub open spec fn lens_ok<I: BinaryImage>(img: &I, s: FieldState) -> bool {
    &&& s.0.len() == img.width_spec() as int * img.height_spec() as int
    &&& s.1.len() == img.width_spec() as int * img.height_spec() as int
}

/// The sweep invariant, over the whole grid.
pub open spec fn inv_all<I: BinaryImage, D: DistanceStorage>(img: &I, s: FieldState) -> bool {
    forall|a: int, b: int|
        valid_coord(img.width_spec() as int, img.height_spec() as int, a, b)
            ==> #[trigger] sweep_inv::<I, D>(img, s.0, s.1, a, b)
}

/// A one-step offset has a fixed-point length of at least one unit and
/// below the bound of every finite distance.
pub proof fn lemma_offset_len_range(ox: int, oy: int)
    requires
        -1 <= ox <= 1,
        -1 <= oy <= 1,
        !(ox == 0 && oy == 0),
    ensures
        1 <= offset_len(ox, oy) < MAX_DISTANCE_FP as int,
{
    let sq = sq_dist(0, 0, ox, oy);
    assert(sq == 1 || sq == 2) by (nonlinear_arith)
        requires
            -1 <= ox <= 1,
            -1 <= oy <= 1,
            !(ox == 0 && oy == 0),
            sq == sq_dist(0, 0, ox, oy),
    ;
    crate::fixed::lemma_sqrt_floor_exists(sq * 65536);
    let r = sqrt_floor(sq * 65536);
    if r == 0 {
        assert((r + 1) * (r + 1) == 1) by (nonlinear_arith)
            requires
                r == 0,
        ;
    }
    if r >= MAX_DISTANCE_FP as int {
        assert(r * r >= 0x200_0000int * 0x200_0000int) by (nonlinear_arith)
            requires
                r >= 0x200_0000,
        ;
    }
}

/// One sweep comparison keeps the sweep invariant, never disturbs a
/// boundary pixel, and hands back a nonnegative current distance.
pub proof fn lemma_sweep_step_inv<I: BinaryImage, D: DistanceStorage>(
    img: &I,
    s: FieldState,
    own: int,
    x: int,
    y: int,
    ox: int,
    oy: int,
)
    requires
        lens_ok(img, s),
        inv_all::<I, D>(img, s),
        valid_coord(img.width_spec() as int, img.height_spec() as int, x, y),
        -1 <= ox <= 1,
        -1 <= oy <= 1,
        !(ox == 0 && oy == 0),
        0 <= own <= DISTANCE_INFINITY as int,
        is_edge(img, x, y) ==> own == 0,
    ensures
        lens_ok(
            img,
            sweep_step::<D>(
                img.width_spec() as int,
                img.height_spec() as int,
                s,
                own,
                x,
                y,
                ox,
                oy,
            ).0,
        ),
        inv_all::<I, D>(
            img,
            sweep_step::<D>(
                img.width_spec() as int,
                img.height_spec() as int,
                s,
                own,
                x,
                y,
                ox,
                oy,
            ).0,
        ),
        0 <= sweep_step::<D>(
            img.width_spec() as int,
            img.height_spec() as int,
            s,
            own,
            x,
            y,
            ox,
            oy,
        ).1 <= DISTANCE_INFINITY as int,
        is_edge(img, x, y) ==> sweep_step::<D>(
            img.width_spec() as int,
            img.height_spec() as int,
            s,
            own,
            x,
            y,
            ox,
            oy,
        ).1 == 0,
{
    let w = img.width_spec() as int;
    let h = img.height_spec() as int;
    let cand = neighbour_cand(w, h, s.0, x, y, ox, oy);
    let i = pix(w, x, y);
    crate::grid::lemma_pix_bounds(w, h, x, y);
    if cand < own {
        let nx = x + ox;
        let ny = y + oy;
        assert(valid_coord(w, h, nx, ny) && s.0[pix(w, nx, ny)] != DISTANCE_INFINITY as int);
        crate::grid::lemma_pix_bounds(w, h, nx, ny);
        let nd = s.0[pix(w, nx, ny)];
        assert(sweep_inv::<I, D>(img, s.0, s.1, nx, ny));
        let t = s.1[pix(w, nx, ny)];
        let tx = t.0 as int;
        let ty = t.1 as int;
        let d = dist_fp(x, y, tx, ty);
        crate::fixed::lemma_dist_fp_range(x, y, tx, ty);
        D::lemma_round(d);
        D::lemma_round(D::round_spec(d));
        if is_edge(img, x, y) {
            // a boundary pixel's proposals are never below its own zero
            lemma_offset_len_range(ox, oy);
            assert(sweep_inv::<I, D>(img, s.0, s.1, nx, ny));
            assert(nd >= 0);
            assert(cand >= 1);
            assert(false);
        }
        let s2 = sweep_step::<D>(w, h, s, own, x, y, ox, oy).0;
        assert forall|a: int, b: int| valid_coord(w, h, a, b) implies #[trigger] sweep_inv::<I, D>(
            img,
            s2.0,
            s2.1,
            a,
            b,
        ) by {
            crate::grid::lemma_pix_bounds(w, h, a, b);
            crate::grid::lemma_pix_bounds(w, h, x, y);
            assert(sweep_inv::<I, D>(img, s.0, s.1, a, b));
            if pix(w, a, b) == i {
                crate::grid::lemma_pix_injective(w, a, b, x, y);
                assert(a == x && b == y);
                assert(s2.0[i] == D::round_spec(d));
            } else {
                assert(s2.0[pix(w, a, b)] == s.0[pix(w, a, b)]);
                assert(s2.1[pix(w, a, b)] == s.1[pix(w, a, b)]);
            }
        }
        assert(s2.0.len() == s.0.len());
        assert(s2.1.len() == s.1.len());
    } else {
        assert(sweep_step::<D>(w, h, s, own, x, y, ox, oy).0 == s);
    }
}

/// The forward sweep of one pixel keeps the sweep invariant.
pub proof fn lemma_fwd_px_inv<I: BinaryImage, D: DistanceStorage>(
    img: &I,
    s: FieldState,
    x: int,
    y: int,
)
    requires
        lens_ok(img, s),
        inv_all::<I, D>(img, s),
        valid_coord(img.width_spec() as int, img.height_spec() as int, x, y),
    ensures
        lens_ok(img, fwd_px::<D>(img.width_spec() as int, img.height_spec() as int, s, x, y)),
        inv_all::<I, D>(img, fwd_px::<D>(img.width_spec() as int, img.height_spec() as int, s, x, y)),
{
    let w = img.width_spec() as int;
    let h = img.height_spec() as int;
    crate::grid::lemma_pix_bounds(w, h, x, y);
    let own0 = s.0[pix(w, x, y)];
    assert(sweep_inv::<I, D>(img, s.0, s.1, x, y));
    lemma_sweep_step_inv::<I, D>(img, s, own0, x, y, -1, -1);
    let r1 = sweep_step::<D>(w, h, s, own0, x, y, -1, -1);
    lemma_sweep_step_inv::<I, D>(img, r1.0, r1.1, x, y, 0, -1);
    let r2 = sweep_step::<D>(w, h, r1.0, r1.1, x, y, 0, -1);
    lemma_sweep_step_inv::<I, D>(img, r2.0, r2.1, x, y, 1, -1);
    let r3 = sweep_step::<D>(w, h, r2.0, r2.1, x, y, 1, -1);
    lemma_sweep_step_inv::<I, D>(img, r3.0, r3.1, x, y, -1, 0);
}

/// The backward sweep of one pixel keeps the sweep invariant.
pub proof fn lemma_bwd_px_inv<I: BinaryImage, D: DistanceStorage>(
    img: &I,
    s: FieldState,
    x: int,
    y: int,
)
    requires
        lens_ok(img, s),
        inv_all::<I, D>(img, s),
        valid_coord(img.width_spec() as int, img.height_spec() as int, x, y),
    ensures
        lens_ok(img, bwd_px::<D>(img.width_spec() as int, img.height_spec() as int, s, x, y)),
        inv_all::<I, D>(img, bwd_px::<D>(img.width_spec() as int, img.height_spec() as int, s, x, y)),
{
    let w = img.width_spec() as int;
    let h = img.height_spec() as int;
    crate::grid::lemma_pix_bounds(w, h, x, y);
    let own0 = s.0[pix(w, x, y)];
    assert(sweep_inv::<I, D>(img, s.0, s.1, x, y));
    lemma_sweep_step_inv::<I, D>(img, s, own0, x, y, 1, 0);
    let r1 = sweep_step::<D>(w, h, s, own0, x, y, 1, 0);
    lemma_sweep_step_inv::<I, D>(img, r1.0, r1.1, x, y, -1, 1);
    let r2 = sweep_step::<D>(w, h, r1.0, r1.1, x, y, -1, 1);
    lemma_sweep_step_inv::<I, D>(img, r2.0, r2.1, x, y, 0, 1);
    let r3 = sweep_step::<D>(w, h, r2.0, r2.1, x, y, 0, 1);
    lemma_sweep_step_inv::<I, D>(img, r3.0, r3.1, x, y, 1, 1);
}

/// The forward sweep keeps the sweep invariant, over any prefix of the
/// grid.
pub proof fn lemma_fwd_to_inv<I: BinaryImage, D: DistanceStorage>(
    img: &I,
    s0: FieldState,
    y: int,
    x: int,
)
    requires
        lens_ok(img, s0),
        inv_all::<I, D>(img, s0),
        0 <= x <= img.width_spec() as int,
        0 <= y <= img.height_spec() as int,
        x > 0 ==> y < img.height_spec() as int,
    ensures
        lens_ok(img, fwd_to::<D>(img.width_spec() as int, img.height_spec() as int, s0, y, x)),
        inv_all::<I, D>(img, fwd_to::<D>(img.width_spec() as int, img.height_spec() as int, s0, y, x)),
    decreases y, x,
{
    let w = img.width_spec() as int;
    let h = img.height_spec() as int;
    if y <= 0 && x <= 0 {
    } else if x <= 0 {
        lemma_fwd_to_inv::<I, D>(img, s0, y - 1, w);
    } else {
        lemma_fwd_to_inv::<I, D>(img, s0, y, x - 1);
        lemma_fwd_px_inv::<I, D>(img, fwd_to::<D>(w, h, s0, y, x - 1), x - 1, y);
    }
}

/// The backward sweep keeps the sweep invariant, over any suffix of the
/// grid.
pub proof fn lemma_bwd_from_inv<I: BinaryImage, D: DistanceStorage>(
    img: &I,
    s0: FieldState,
    y: int,
    x: int,
)
    requires
        lens_ok(img, s0),
        inv_all::<I, D>(img, s0),
        0 <= x <= img.width_spec() as int,
        0 <= y <= img.height_spec() as int,
    ensures
        lens_ok(img, bwd_from::<D>(img.width_spec() as int, img.height_spec() as int, s0, y, x)),
        inv_all::<I, D>(img, bwd_from::<D>(img.width_spec() as int, img.height_spec() as int, s0, y, x)),
    decreases img.height_spec() as int - y, img.width_spec() as int - x,
{
    let w = img.width_spec() as int;
    let h = img.height_spec() as int;
    if y >= h {
    } else if x >= w {
        lemma_bwd_from_inv::<I, D>(img, s0, y + 1, 0);
    } else {
        lemma_bwd_from_inv::<I, D>(img, s0, y, x + 1);
        lemma_bwd_px_inv::<I, D>(img, bwd_from::<D>(w, h, s0, y, x + 1), x, y);
    }
}

/// Seeding establishes the sweep invariant: after the pass every cell
/// satisfies [`sweep_base`], and every boundary pixel of the processed
/// prefix is at distance zero.
pub proof fn lemma_seed_to_inv<I: BinaryImage, D: DistanceStorage>(img: &I, y: int, x: int)
    requires
        0 <= x <= img.width_spec() as int,
        0 <= y <= img.height_spec() as int,
        x > 0 ==> y < img.height_spec() as int,
    ensures
        lens_ok(img, seed_to::<I, D>(img, y, x)),
        forall|a: int, b: int|
            valid_coord(img.width_spec() as int, img.height_spec() as int, a, b)
                ==> #[trigger] sweep_base::<I, D>(
                img,
                seed_to::<I, D>(img, y, x).0,
                seed_to::<I, D>(img, y, x).1,
                a,
                b,
            ),
        forall|a: int, b: int|
            valid_coord(img.width_spec() as int, img.height_spec() as int, a, b) && pix(
                img.width_spec() as int,
                a,
                b,
            ) < y * img.width_spec() as int + x && is_edge(img, a, b) ==> #[trigger] seed_to::<
                I,
                D,
            >(img, y, x).0[pix(img.width_spec() as int, a, b)] == 0,
    decreases y, x,
{
    let w = img.width_spec() as int;
    let h = img.height_spec() as int;
    D::lemma_round(0);
    if y <= 0 && x <= 0 {
        assert forall|a: int, b: int| valid_coord(w, h, a, b) implies #[trigger] sweep_base::<
            I,
            D,
        >(img, seed_to::<I, D>(img, y, x).0, seed_to::<I, D>(img, y, x).1, a, b) by {
            crate::grid::lemma_pix_bounds(w, h, a, b);
        }
    } else if x <= 0 {
        lemma_seed_to_inv::<I, D>(img, y - 1, w);
        assert(y * w + x >= (y - 1) * w + w) by (nonlinear_arith)
            requires
                x >= 0,
        ;
        assert(y * w + x <= (y - 1) * w + w) by (nonlinear_arith)
            requires
                x <= 0,
        ;
    } else {
        lemma_seed_to_inv::<I, D>(img, y, x - 1);
        let s = seed_to::<I, D>(img, y, x - 1);
        let s2 = seed_to::<I, D>(img, y, x);
        crate::grid::lemma_pix_bounds(w, h, x - 1, y);
        let i = pix(w, x - 1, y);
        if is_edge(img, x - 1, y) {
            crate::fixed::lemma_dist_fp_range(x - 1, y, x - 1, y);
            assert(s2.0[i] == D::round_spec(0));
        }
        assert forall|a: int, b: int| valid_coord(w, h, a, b) implies #[trigger] sweep_base::<
            I,
            D,
        >(img, s2.0, s2.1, a, b) by {
            crate::grid::lemma_pix_bounds(w, h, a, b);
            assert(sweep_base::<I, D>(img, s.0, s.1, a, b));
            if pix(w, a, b) == i {
                crate::grid::lemma_pix_injective(w, a, b, x - 1, y);
            }
        }
        assert forall|a: int, b: int|
            valid_coord(w, h, a, b) && pix(w, a, b) < y * w + x && is_edge(img, a, b) implies #[trigger] s2.0[pix(
            w,
            a,
            b,
        )] == 0 by {
            crate::grid::lemma_pix_bounds(w, h, a, b);
            if pix(w, a, b) == i {
                crate::grid::lemma_pix_injective(w, a, b, x - 1, y);
            } else {
                assert(pix(w, a, b) < y * w + (x - 1));
            }
        }
    }
}

/// The sign flip turns the sweep invariant into the final per-cell
/// guarantee on the processed prefix and leaves the rest untouched.
pub proof fn lemma_flip_to_ok<I: BinaryImage, D: DistanceStorage>(
    img: &I,
    s0: FieldState,
    y: int,
    x: int,
)
    requires
        lens_ok(img, s0),
        inv_all::<I, D>(img, s0),
        0 <= x <= img.width_spec() as int,
        0 <= y <= img.height_spec() as int,
        x > 0 ==> y < img.height_spec() as int,
    ensures
        lens_ok(img, flip_to::<I, D>(img, s0, y, x)),
        flip_to::<I, D>(img, s0, y, x).1 == s0.1,
        forall|a: int, b: int|
            valid_coord(img.width_spec() as int, img.height_spec() as int, a, b) && pix(
                img.width_spec() as int,
                a,
                b,
            ) < y * img.width_spec() as int + x ==> #[trigger] cell_ok::<I, D>(
                img,
                flip_to::<I, D>(img, s0, y, x).0,
                flip_to::<I, D>(img, s0, y, x).1,
                a,
                b,
            ),
        forall|a: int, b: int|
            valid_coord(img.width_spec() as int, img.height_spec() as int, a, b) && pix(
                img.width_spec() as int,
                a,
                b,
            ) >= y * img.width_spec() as int + x ==> #[trigger] flip_to::<I, D>(
                img,
                s0,
                y,
                x,
            ).0[pix(img.width_spec() as int, a, b)] == s0.0[pix(img.width_spec() as int, a, b)],
    decreases y, x,
{
    let w = img.width_spec() as int;
    let h = img.height_spec() as int;
    if y <= 0 && x <= 0 {
    } else if x <= 0 {
        lemma_flip_to_ok::<I, D>(img, s0, y - 1, w);
        assert(y * w + x >= (y - 1) * w + w) by (nonlinear_arith)
            requires
                x >= 0,
        ;
        assert(y * w + x <= (y - 1) * w + w) by (nonlinear_arith)
            requires
                x <= 0,
        ;
    } else {
        lemma_flip_to_ok::<I, D>(img, s0, y, x - 1);
        let s = flip_to::<I, D>(img, s0, y, x - 1);
        let s2 = flip_to::<I, D>(img, s0, y, x);
        crate::grid::lemma_pix_bounds(w, h, x - 1, y);
        let i = pix(w, x - 1, y);
        let dv = s0.0[i];
        assert(s.0[i] == dv);
        assert(sweep_inv::<I, D>(img, s0.0, s0.1, x - 1, y));
        D::lemma_round(dv);
        assert forall|a: int, b: int|
            valid_coord(w, h, a, b) && pix(w, a, b) < y * w + x implies #[trigger] cell_ok::<
            I,
            D,
        >(img, s2.0, s2.1, a, b) by {
            crate::grid::lemma_pix_bounds(w, h, a, b);
            if pix(w, a, b) == i {
                crate::grid::lemma_pix_injective(w, a, b, x - 1, y);
                assert(sweep_inv::<I, D>(img, s0.0, s0.1, a, b));
            } else {
                assert(pix(w, a, b) < i);
                assert(cell_ok::<I, D>(img, s.0, s.1, a, b));
                assert(s2.0[pix(w, a, b)] == s.0[pix(w, a, b)]);
            }
        }
        assert forall|a: int, b: int|
            valid_coord(w, h, a, b) && pix(w, a, b) >= y * w + x implies #[trigger] s2.0[pix(
            w,
            a,
            b,
        )] == s0.0[pix(w, a, b)] by {
            crate::grid::lemma_pix_bounds(w, h, a, b);
            assert(pix(w, a, b) != i);
            assert(s2.0[pix(w, a, b)] == s.0[pix(w, a, b)]);
        }
    }
}

/// The per-cell guarantee of a finished field, over the whole grid.
pub open spec fn all_cells_ok<I: BinaryImage, D: DistanceStorage>(img: &I, s: FieldState) -> bool {
    forall|a: int, b: int|
        valid_coord(img.width_spec() as int, img.height_spec() as int, a, b)
            ==> #[trigger] cell_ok::<I, D>(img, s.0, s.1, a, b)
}

/// The whole seeding pass establishes the sweep invariant.
pub proof fn lemma_seed_done_inv<I: BinaryImage, D: DistanceStorage>(img: &I)
    ensures
        lens_ok(img, seed_done::<I, D>(img)),
        inv_all::<I, D>(img, seed_done::<I, D>(img)),
{
    let w = img.width_spec() as int;
    let h = img.height_spec() as int;
    lemma_seed_to_inv::<I, D>(img, h, 0);
    let s = seed_to::<I, D>(img, h, 0);
    assert forall|a: int, b: int| valid_coord(w, h, a, b) implies #[trigger] sweep_inv::<I, D>(
        img,
        s.0,
        s.1,
        a,
        b,
    ) by {
        crate::grid::lemma_pix_bounds(w, h, a, b);
        assert(w * h == h * w + 0) by (nonlinear_arith);
        assert(sweep_base::<I, D>(img, s.0, s.1, a, b));
        if is_edge(img, a, b) {
            assert(s.0[pix(w, a, b)] == 0);
        }
    }
}

/// The whole sign flip pass turns the sweep invariant into the final
/// per-cell guarantee.
pub proof fn lemma_flip_done_ok<I: BinaryImage, D: DistanceStorage>(img: &I, s0: FieldState)
    requires
        lens_ok(img, s0),
        inv_all::<I, D>(img, s0),
    ensures
        lens_ok(img, flip_done::<I, D>(img, s0)),
        flip_done::<I, D>(img, s0).1 == s0.1,
        all_cells_ok::<I, D>(img, flip_done::<I, D>(img, s0)),
{
    let w = img.width_spec() as int;
    let h = img.height_spec() as int;
    lemma_flip_to_ok::<I, D>(img, s0, h, 0);
    let s = flip_to::<I, D>(img, s0, h, 0);
    assert forall|a: int, b: int| valid_coord(w, h, a, b) implies #[trigger] cell_ok::<I, D>(
        img,
        s.0,
        s.1,
        a,
        b,
    ) by {
        crate::grid::lemma_pix_bounds(w, h, a, b);
        assert(w * h == h * w + 0) by (nonlinear_arith);
    }
}

/// One sweep comparison writes nothing but finite distances: any entry
/// is either left alone or set to the rounded distance to a pixel of
/// the grid.
pub proof fn lemma_sweep_step_writes<D: DistanceStorage>(
    w: int,
    h: int,
    s: FieldState,
    own: int,
    x: int,
    y: int,
    ox: int,
    oy: int,
    i: int,
)
    requires
        s.0.len() == w * h,
        valid_coord(w, h, x, y),
        0 <= i < w * h,
        w <= 0x10000,
        h <= 0x10000,
    ensures
        ({
            let v = sweep_step::<D>(w, h, s, own, x, y, ox, oy).0.0[i];
            v == s.0[i] || 0 <= v < MAX_DISTANCE_FP as int
        }),
{
    crate::grid::lemma_pix_bounds(w, h, x, y);
    let cand = neighbour_cand(w, h, s.0, x, y, ox, oy);
    if cand < own {
        let t = s.1[pix(w, x + ox, y + oy)];
        crate::fixed::lemma_dist_fp_range(x, y, t.0 as int, t.1 as int);
        D::lemma_round(dist_fp(x, y, t.0 as int, t.1 as int));
    }
}

/// A whole sweep of one pixel writes nothing but finite distances.
pub proof fn lemma_sweep_px_writes<D: DistanceStorage>(
    w: int,
    h: int,
    s: FieldState,
    x: int,
    y: int,
    fwd: bool,
    i: int,
)
    requires
        s.0.len() == w * h,
        valid_coord(w, h, x, y),
        0 <= i < w * h,
        w <= 0x10000,
        h <= 0x10000,
    ensures
        ({
            let v = if fwd {
                fwd_px::<D>(w, h, s, x, y).0[i]
            } else {
                bwd_px::<D>(w, h, s, x, y).0[i]
            };
            v == s.0[i] || 0 <= v < MAX_DISTANCE_FP as int
        }),
{
    crate::grid::lemma_pix_bounds(w, h, x, y);
    let own0 = s.0[pix(w, x, y)];
    if fwd {
        let s1 = sweep_step::<D>(w, h, s, own0, x, y, -1, -1);
        let s2 = sweep_step::<D>(w, h, s1.0, s1.1, x, y, 0, -1);
        let s3 = sweep_step::<D>(w, h, s2.0, s2.1, x, y, 1, -1);
        lemma_sweep_step_writes::<D>(w, h, s, own0, x, y, -1, -1, i);
        lemma_sweep_step_writes::<D>(w, h, s1.0, s1.1, x, y, 0, -1, i);
        lemma_sweep_step_writes::<D>(w, h, s2.0, s2.1, x, y, 1, -1, i);
        lemma_sweep_step_writes::<D>(w, h, s3.0, s3.1, x, y, -1, 0, i);
    } else {
        let s1 = sweep_step::<D>(w, h, s, own0, x, y, 1, 0);
        let s2 = sweep_step::<D>(w, h, s1.0, s1.1, x, y, -1, 1);
        let s3 = sweep_step::<D>(w, h, s2.0, s2.1, x, y, 0, 1);
        lemma_sweep_step_writes::<D>(w, h, s, own0, x, y, 1, 0, i);
        lemma_sweep_step_writes::<D>(w, h, s1.0, s1.1, x, y, -1, 1, i);
        lemma_sweep_step_writes::<D>(w, h, s2.0, s2.1, x, y, 0, 1, i);
        lemma_sweep_step_writes::<D>(w, h, s3.0, s3.1, x, y, 1, 1, i);
    }
}

/// After one comparison: the state changes only at the swept pixel,
/// and once that pixel holds a finite distance (or the tracked current
/// distance is finite), it stays that way.
proof fn lemma_step_keeps<D: DistanceStorage>(
    w: int,
    h: int,
    s: FieldState,
    own: int,
    x: int,
    y: int,
    ox: int,
    oy: int,
)
    requires
        s.0.len() == w * h,
        valid_coord(w, h, x, y),
        w <= 0x10000,
        h <= 0x10000,
    ensures
        ({
            let r = sweep_step::<D>(w, h, s, own, x, y, ox, oy);
            &&& forall|j: int|
                0 <= j < w * h && j != pix(w, x, y) ==> #[trigger] r.0.0[j] == s.0[j]
            &&& (0 <= s.0[pix(w, x, y)] < MAX_DISTANCE_FP as int ==> 0 <= r.0.0[pix(w, x, y)]
                < MAX_DISTANCE_FP as int)
            &&& (0 <= own < MAX_DISTANCE_FP as int ==> 0 <= r.0.0[pix(w, x, y)] < MAX_DISTANCE_FP as int
                || (r.0 == s && r.1 == own))
            &&& (r.1 == own || 0 <= r.1 < MAX_DISTANCE_FP as int)
        }),
{
    crate::grid::lemma_pix_bounds(w, h, x, y);
    let cand = neighbour_cand(w, h, s.0, x, y, ox, oy);
    if cand < own {
        let t = s.1[pix(w, x + ox, y + oy)];
        crate::fixed::lemma_dist_fp_range(x, y, t.0 as int, t.1 as int);
        D::lemma_round(dist_fp(x, y, t.0 as int, t.1 as int));
    }
}

/// A pixel with a reached neighbour among the four offsets of its sweep
/// is reached itself once the sweep has compared it against them.
pub proof fn lemma_sweep_px_propagates<I: BinaryImage, D: DistanceStorage>(
    img: &I,
    s: FieldState,
    x: int,
    y: int,
    fwd: bool,
    ox: int,
    oy: int,
)
    requires
        lens_ok(img, s),
        inv_all::<I, D>(img, s),
        valid_coord(img.width_spec() as int, img.height_spec() as int, x, y),
        valid_coord(img.width_spec() as int, img.height_spec() as int, x + ox, y + oy),
        fwd ==> ((ox == -1 && oy == -1) || (ox == 0 && oy == -1) || (ox == 1 && oy == -1) || (ox
            == -1 && oy == 0)),
        !fwd ==> ((ox == 1 && oy == 0) || (ox == -1 && oy == 1) || (ox == 0 && oy == 1) || (ox == 1
            && oy == 1)),
        s.0[pix(img.width_spec() as int, x + ox, y + oy)] != DISTANCE_INFINITY as int,
    ensures
        ({
            let v = if fwd {
                fwd_px::<D>(img.width_spec() as int, img.height_spec() as int, s, x, y).0[pix(
                    img.width_spec() as int,
                    x,
                    y,
                )]
            } else {
                bwd_px::<D>(img.width_spec() as int, img.height_spec() as int, s, x, y).0[pix(
                    img.width_spec() as int,
                    x,
                    y,
                )]
            };
            0 <= v < MAX_DISTANCE_FP as int
        }),
{
    let w = img.width_spec() as int;
    let h = img.height_spec() as int;
    let i = pix(w, x, y);
    let ni = pix(w, x + ox, y + oy);
    crate::grid::lemma_pix_bounds(w, h, x, y);
    crate::grid::lemma_pix_bounds(w, h, x + ox, y + oy);
    if i == ni {
        crate::grid::lemma_pix_injective(w, x, y, x + ox, y + oy);
    }
    assert(i != ni);
    assert(sweep_inv::<I, D>(img, s.0, s.1, x, y));
    assert(sweep_inv::<I, D>(img, s.0, s.1, x + ox, y + oy));
    let nd = s.0[ni];
    assert(0 <= nd < MAX_DISTANCE_FP as int);
    lemma_offset_len_range(ox, oy);
    let own0 = s.0[i];
    let o1 = if fwd {
        (-1int, -1int)
    } else {
        (1int, 0int)
    };
    let o2 = if fwd {
        (0int, -1int)
    } else {
        (-1int, 1int)
    };
    let o3 = if fwd {
        (1int, -1int)
    } else {
        (0int, 1int)
    };
    let o4 = if fwd {
        (-1int, 0int)
    } else {
        (1int, 1int)
    };
    let r1 = sweep_step::<D>(w, h, s, own0, x, y, o1.0, o1.1);
    let r2 = sweep_step::<D>(w, h, r1.0, r1.1, x, y, o2.0, o2.1);
    let r3 = sweep_step::<D>(w, h, r2.0, r2.1, x, y, o3.0, o3.1);
    let r4 = sweep_step::<D>(w, h, r3.0, r3.1, x, y, o4.0, o4.1);
    lemma_step_keeps::<D>(w, h, s, own0, x, y, o1.0, o1.1);
    lemma_step_keeps::<D>(w, h, r1.0, r1.1, x, y, o2.0, o2.1);
    lemma_step_keeps::<D>(w, h, r2.0, r2.1, x, y, o3.0, o3.1);
    lemma_step_keeps::<D>(w, h, r3.0, r3.1, x, y, o4.0, o4.1);
    // tracked claim: at each comparison, either nothing has changed yet
    // (the entry and the tracked distance are the initial ones), or the
    // pixel already holds a finite distance
    lemma_untouched_step::<D>(w, h, s, own0, (s, own0), x, y, o1.0, o1.1);
    assert(untouched_or_reached(s, own0, (r1.0, r1.1), i));
    assert(untouched_or_reached(s, own0, (r2.0, r2.1), i)) by {
        lemma_untouched_step::<D>(w, h, s, own0, (r1.0, r1.1), x, y, o2.0, o2.1);
    }
    assert(untouched_or_reached(s, own0, (r3.0, r3.1), i)) by {
        lemma_untouched_step::<D>(w, h, s, own0, (r2.0, r2.1), x, y, o3.0, o3.1);
    }
    assert(untouched_or_reached(s, own0, (r4.0, r4.1), i)) by {
        lemma_untouched_step::<D>(w, h, s, own0, (r3.0, r3.1), x, y, o4.0, o4.1);
    }
    // the comparison against the reached neighbour leaves the pixel
    // reached: either an earlier comparison already did, or the
    // candidate from that neighbour is finite while the pixel is not
    let rs = if (ox, oy) == o1 {
        (s, own0, r1)
    } else if (ox, oy) == o2 {
        (r1.0, r1.1, r2)
    } else if (ox, oy) == o3 {
        (r2.0, r2.1, r3)
    } else {
        (r3.0, r3.1, r4)
    };
    let pre = (rs.0, rs.1);
    let post = rs.2;
    assert(untouched_or_reached(s, own0, pre, i));
    assert(0 <= post.0.0[i] < MAX_DISTANCE_FP as int) by {
        if !(0 <= pre.0.0[i] < MAX_DISTANCE_FP as int) {
            // the pixel is untouched, so the neighbour still proposes
            assert(pre.0.0[ni] == nd);
            let cand = neighbour_cand(w, h, pre.0.0, x, y, ox, oy);
            assert(cand == nd + offset_len(ox, oy));
            assert(cand < MAX_DISTANCE_FP as int + MAX_DISTANCE_FP as int);
            assert(pre.0.0[i] == s.0[i] && pre.1 == own0);
            assert(own0 == DISTANCE_INFINITY as int || 0 <= own0 < MAX_DISTANCE_FP as int);
            assert(cand < pre.1);
            let t = pre.0.1[ni];
            crate::fixed::lemma_dist_fp_range(x, y, t.0 as int, t.1 as int);
            D::lemma_round(dist_fp(x, y, t.0 as int, t.1 as int));
        } else {
            lemma_step_keeps::<D>(w, h, pre.0, pre.1, x, y, ox, oy);
        }
    }
    // later comparisons keep the pixel reached
    if (ox, oy) == o1 {
        assert(0 <= r2.0.0[i] < MAX_DISTANCE_FP as int);
        assert(0 <= r3.0.0[i] < MAX_DISTANCE_FP as int);
        assert(0 <= r4.0.0[i] < MAX_DISTANCE_FP as int);
    } else if (ox, oy) == o2 {
        assert(0 <= r3.0.0[i] < MAX_DISTANCE_FP as int);
        assert(0 <= r4.0.0[i] < MAX_DISTANCE_FP as int);
    } else if (ox, oy) == o3 {
        assert(0 <= r4.0.0[i] < MAX_DISTANCE_FP as int);
    }
    assert(fwd ==> fwd_px::<D>(w, h, s, x, y) == r4.0);
    assert(!fwd ==> bwd_px::<D>(w, h, s, x, y) == r4.0);
}

/// Either the swept pixel's entry and the tracked distance are still
/// what they started as, or the pixel holds a finite distance.
spec fn untouched_or_reached(s: FieldState, own0: int, r: (FieldState, int), i: int) -> bool {
    ||| (r.0.0[i] == s.0[i] && r.1 == own0)
    ||| (0 <= r.0.0[i] < MAX_DISTANCE_FP as int && 0 <= r.1 < MAX_DISTANCE_FP as int)
}

/// One comparison preserves [`untouched_or_reached`].
proof fn lemma_untouched_step<D: DistanceStorage>(
    w: int,
    h: int,
    s: FieldState,
    own0: int,
    r: (FieldState, int),
    x: int,
    y: int,
    ox: int,
    oy: int,
)
    requires
        r.0.0.len() == w * h,
        valid_coord(w, h, x, y),
        w <= 0x10000,
        h <= 0x10000,
        untouched_or_reached(s, own0, r, pix(w, x, y)),
    ensures
        untouched_or_reached(
            s,
            own0,
            sweep_step::<D>(w, h, r.0, r.1, x, y, ox, oy),
            pix(w, x, y),
        ),
{
    crate::grid::lemma_pix_bounds(w, h, x, y);
    let cand = neighbour_cand(w, h, r.0.0, x, y, ox, oy);
    if cand < r.1 {
        let t = r.0.1[pix(w, x + ox, y + oy)];
        crate::fixed::lemma_dist_fp_range(x, y, t.0 as int, t.1 as int);
        D::lemma_round(dist_fp(x, y, t.0 as int, t.1 as int));
    }
}

/// The pixels that the forward sweep can reach from a seed at
/// (sx, sy): the rest of the seed's row, and every following row, a
/// step further to the left with each row.
pub open spec fn fwd_cone(sx: int, sy: int, a: int, b: int) -> bool {
    ||| (b == sy && a >= sx)
    ||| (b > sy && a >= sx - (b - sy))
}

/// A forward sweep over a prefix of the grid reaches every pixel of the
/// seed's cone inside the prefix, and never un-reaches the seed.
pub proof fn lemma_fwd_cone_reaches<I: BinaryImage, D: DistanceStorage>(
    img: &I,
    s0: FieldState,
    sx: int,
    sy: int,
    y: int,
    x: int,
)
    requires
        lens_ok(img, s0),
        inv_all::<I, D>(img, s0),
        valid_coord(img.width_spec() as int, img.height_spec() as int, sx, sy),
        s0.0[pix(img.width_spec() as int, sx, sy)] != DISTANCE_INFINITY as int,
        0 <= x <= img.width_spec() as int,
        0 <= y <= img.height_spec() as int,
        x > 0 ==> y < img.height_spec() as int,
    ensures
        fwd_to::<D>(img.width_spec() as int, img.height_spec() as int, s0, y, x).0[pix(
            img.width_spec() as int,
            sx,
            sy,
        )] != DISTANCE_INFINITY as int,
        forall|a: int, b: int|
            valid_coord(img.width_spec() as int, img.height_spec() as int, a, b) && fwd_cone(
                sx,
                sy,
                a,
                b,
            ) && pix(img.width_spec() as int, a, b) < y * img.width_spec() as int + x ==> 0
                <= #[trigger] fwd_to::<D>(
                img.width_spec() as int,
                img.height_spec() as int,
                s0,
                y,
                x,
            ).0[pix(img.width_spec() as int, a, b)] < MAX_DISTANCE_FP as int,
    decreases y, x,
{
    let w = img.width_spec() as int;
    let h = img.height_spec() as int;
    crate::grid::lemma_pix_bounds(w, h, sx, sy);
    if y <= 0 && x <= 0 {
    } else if x <= 0 {
        lemma_fwd_cone_reaches::<I, D>(img, s0, sx, sy, y - 1, w);
        assert(y * w + x == (y - 1) * w + w) by (nonlinear_arith)
            requires
                x == 0,
        ;
    } else {
        lemma_fwd_cone_reaches::<I, D>(img, s0, sx, sy, y, x - 1);
        lemma_fwd_to_inv::<I, D>(img, s0, y, x - 1);
        let s = fwd_to::<D>(w, h, s0, y, x - 1);
        let s2 = fwd_to::<D>(w, h, s0, y, x);
        let px = x - 1;
        let py = y;
        let i = pix(w, px, py);
        crate::grid::lemma_pix_bounds(w, h, px, py);
        assert(s2 == fwd_px::<D>(w, h, s, px, py));
        lemma_sweep_px_writes::<D>(w, h, s, px, py, true, pix(w, sx, sy));
        if valid_coord(w, h, px, py) && fwd_cone(sx, sy, px, py) {
            assert(0 <= s2.0[i] < MAX_DISTANCE_FP as int) by {
                if px == sx && py == sy {
                    assert(sweep_inv::<I, D>(img, s.0, s.1, px, py));
                    lemma_sweep_px_writes::<D>(w, h, s, px, py, true, i);
                } else if py == sy {
                    // the pixel left of this one is in the cone and
                    // already processed
                    assert(pix(w, px - 1, py) == i - 1);
                    assert(0 <= s.0[pix(w, px - 1, py)] < MAX_DISTANCE_FP as int);
                    lemma_sweep_px_propagates::<I, D>(img, s, px, py, true, -1, 0);
                } else if px + 1 < w {
                    // the upper-right neighbour is in the cone and
                    // already processed
                    assert(pix(w, px + 1, py - 1) == (py - 1) * w + px + 1);
                    assert((py - 1) * w + px + 1 < py * w + px) by (nonlinear_arith)
                        requires
                            w >= 2,
                    ;
                    assert(fwd_cone(sx, sy, px + 1, py - 1));
                    assert(0 <= s.0[pix(w, px + 1, py - 1)] < MAX_DISTANCE_FP as int);
                    lemma_sweep_px_propagates::<I, D>(img, s, px, py, true, 1, -1);
                } else {
                    // at the right border, the neighbour straight above
                    // is in the cone and already processed
                    assert(pix(w, px, py - 1) == (py - 1) * w + px);
                    assert((py - 1) * w + px < py * w + px) by (nonlinear_arith)
                        requires
                            w >= 1,
                    ;
                    assert(fwd_cone(sx, sy, px, py - 1));
                    assert(0 <= s.0[pix(w, px, py - 1)] < MAX_DISTANCE_FP as int);
                    lemma_sweep_px_propagates::<I, D>(img, s, px, py, true, 0, -1);
                }
            }
        }
        assert forall|a: int, b: int|
            valid_coord(w, h, a, b) && fwd_cone(sx, sy, a, b) && pix(w, a, b) < y * w
                + x implies 0 <= #[trigger] s2.0[pix(w, a, b)] < MAX_DISTANCE_FP as int by {
            crate::grid::lemma_pix_bounds(w, h, a, b);
            if pix(w, a, b) == i {
                crate::grid::lemma_pix_injective(w, a, b, px, py);
            } else {
                lemma_sweep_px_writes::<D>(w, h, s, px, py, true, pix(w, a, b));
                assert(pix(w, a, b) < y * w + (x - 1));
            }
        }
    }
}

/// The backward sweep reaches every processed pixel, given that the
/// forward sweep has already reached the seed's cone.
pub proof fn lemma_bwd_covers<I: BinaryImage, D: DistanceStorage>(
    img: &I,
    s1: FieldState,
    sx: int,
    sy: int,
    y: int,
    x: int,
)
    requires
        lens_ok(img, s1),
        inv_all::<I, D>(img, s1),
        valid_coord(img.width_spec() as int, img.height_spec() as int, sx, sy),
        forall|a: int, b: int|
            valid_coord(img.width_spec() as int, img.height_spec() as int, a, b) && fwd_cone(
                sx,
                sy,
                a,
                b,
            ) ==> 0 <= #[trigger] s1.0[pix(img.width_spec() as int, a, b)] < MAX_DISTANCE_FP as int,
        0 <= x <= img.width_spec() as int,
        0 <= y <= img.height_spec() as int,
    ensures
        forall|a: int, b: int|
            valid_coord(img.width_spec() as int, img.height_spec() as int, a, b) && fwd_cone(
                sx,
                sy,
                a,
                b,
            ) ==> 0 <= #[trigger] bwd_from::<D>(
                img.width_spec() as int,
                img.height_spec() as int,
                s1,
                y,
                x,
            ).0[pix(img.width_spec() as int, a, b)] < MAX_DISTANCE_FP as int,
        forall|a: int, b: int|
            valid_coord(img.width_spec() as int, img.height_spec() as int, a, b) && pix(
                img.width_spec() as int,
                a,
                b,
            ) >= y * img.width_spec() as int + x ==> 0 <= #[trigger] bwd_from::<D>(
                img.width_spec() as int,
                img.height_spec() as int,
                s1,
                y,
                x,
            ).0[pix(img.width_spec() as int, a, b)] < MAX_DISTANCE_FP as int,
    decreases img.height_spec() as int - y, img.width_spec() as int - x,
{
    let w = img.width_spec() as int;
    let h = img.height_spec() as int;
    if y >= h {
        assert(bwd_from::<D>(w, h, s1, y, x) == s1);
        assert forall|a: int, b: int|
            valid_coord(w, h, a, b) && pix(w, a, b) >= y * w + x implies 0 <= #[trigger] bwd_from::<
            D,
        >(w, h, s1, y, x).0[pix(w, a, b)] < MAX_DISTANCE_FP as int by {
            crate::grid::lemma_pix_bounds(w, h, a, b);
            assert(y * w + x >= h * w) by (nonlinear_arith)
                requires
                    y >= h,
                    x >= 0,
                    w >= 0,
            ;
            assert(w * h == h * w) by (nonlinear_arith);
        }
        assert forall|a: int, b: int|
            valid_coord(w, h, a, b) && fwd_cone(sx, sy, a, b) implies 0 <= #[trigger] bwd_from::<
            D,
        >(w, h, s1, y, x).0[pix(w, a, b)] < MAX_DISTANCE_FP as int by {
            assert(0 <= s1.0[pix(w, a, b)] < MAX_DISTANCE_FP as int);
        }
    } else if x >= w {
        lemma_bwd_covers::<I, D>(img, s1, sx, sy, y + 1, 0);
        assert(bwd_from::<D>(w, h, s1, y, x) == bwd_from::<D>(w, h, s1, y + 1, 0));
        assert(y * w + x >= (y + 1) * w) by (nonlinear_arith)
            requires
                x >= w,
        ;
        assert forall|a: int, b: int|
            valid_coord(w, h, a, b) && pix(w, a, b) >= y * w + x implies 0 <= #[trigger] bwd_from::<
            D,
        >(w, h, s1, y, x).0[pix(w, a, b)] < MAX_DISTANCE_FP as int by {
            assert(pix(w, a, b) >= (y + 1) * w + 0);
            assert(0 <= bwd_from::<D>(w, h, s1, y + 1, 0).0[pix(w, a, b)] < MAX_DISTANCE_FP as int);
        }
        assert forall|a: int, b: int|
            valid_coord(w, h, a, b) && fwd_cone(sx, sy, a, b) implies 0 <= #[trigger] bwd_from::<
            D,
        >(w, h, s1, y, x).0[pix(w, a, b)] < MAX_DISTANCE_FP as int by {
            assert(0 <= bwd_from::<D>(w, h, s1, y + 1, 0).0[pix(w, a, b)] < MAX_DISTANCE_FP as int);
        }
    } else {
        lemma_bwd_covers::<I, D>(img, s1, sx, sy, y, x + 1);
        lemma_bwd_from_inv::<I, D>(img, s1, y, x + 1);
        let s = bwd_from::<D>(w, h, s1, y, x + 1);
        let s2 = bwd_from::<D>(w, h, s1, y, x);
        let i = pix(w, x, y);
        crate::grid::lemma_pix_bounds(w, h, x, y);
        assert(s2 == bwd_px::<D>(w, h, s, x, y));
        assert(0 <= s2.0[i] < MAX_DISTANCE_FP as int) by {
            if fwd_cone(sx, sy, x, y) {
                assert(0 <= s.0[i] < MAX_DISTANCE_FP as int);
                assert(sweep_inv::<I, D>(img, s.0, s.1, x, y));
                lemma_sweep_px_writes::<D>(w, h, s, x, y, false, i);
            } else if y + 1 < h {
                // the pixel straight below is already processed
                assert(pix(w, x, y + 1) == (y + 1) * w + x);
                assert((y + 1) * w + x >= y * w + x + 1) by (nonlinear_arith)
                    requires
                        w >= 1,
                ;
                assert(0 <= s.0[pix(w, x, y + 1)] < MAX_DISTANCE_FP as int);
                lemma_sweep_px_propagates::<I, D>(img, s, x, y, false, 0, 1);
            } else {
                // the bottom row outside the cone lies left of the
                // seed's column, so the right neighbour exists and is
                // already processed
                assert(y == h - 1 && y >= sy);
                assert(x + 1 < w);
                assert(pix(w, x + 1, y) == i + 1);
                assert(0 <= s.0[pix(w, x + 1, y)] < MAX_DISTANCE_FP as int);
                lemma_sweep_px_propagates::<I, D>(img, s, x, y, false, 1, 0);
            }
        }
        assert forall|a: int, b: int|
            valid_coord(w, h, a, b) && pix(w, a, b) >= y * w + x implies 0 <= #[trigger] s2.0[pix(
            w,
            a,
            b,
        )] < MAX_DISTANCE_FP as int by {
            crate::grid::lemma_pix_bounds(w, h, a, b);
            if pix(w, a, b) == i {
                crate::grid::lemma_pix_injective(w, a, b, x, y);
            } else {
                lemma_sweep_px_writes::<D>(w, h, s, x, y, false, pix(w, a, b));
                assert(pix(w, a, b) >= y * w + x + 1);
            }
        }
        assert forall|a: int, b: int|
            valid_coord(w, h, a, b) && fwd_cone(sx, sy, a, b) implies 0 <= #[trigger] s2.0[pix(
            w,
            a,
            b,
        )] < MAX_DISTANCE_FP as int by {
            crate::grid::lemma_pix_bounds(w, h, a, b);
            if pix(w, a, b) == i {
                crate::grid::lemma_pix_injective(w, a, b, x, y);
                assert(0 <= s2.0[i] < MAX_DISTANCE_FP as int);
            } else {
                lemma_sweep_px_writes::<D>(w, h, s, x, y, false, pix(w, a, b));
            }
        }
    }
}

/// The sign flip leaves every entry either untouched or negated (and
/// rounded); entries at or past the flip's position are untouched.
pub proof fn lemma_flip_to_keeps<I: BinaryImage, D: DistanceStorage>(
    img: &I,
    s0: FieldState,
    y: int,
    x: int,
    i: int,
)
    requires
        lens_ok(img, s0),
        0 <= i < img.width_spec() as int * img.height_spec() as int,
        0 <= x <= img.width_spec() as int,
        0 <= y <= img.height_spec() as int,
        x > 0 ==> y < img.height_spec() as int,
    ensures
        flip_to::<I, D>(img, s0, y, x).0.len() == s0.0.len(),
        ({
            let v = flip_to::<I, D>(img, s0, y, x).0[i];
            v == s0.0[i] || v == D::round_spec(-s0.0[i])
        }),
        i >= y * img.width_spec() as int + x ==> flip_to::<I, D>(img, s0, y, x).0[i] == s0.0[i],
    decreases y, x,
{
    let w = img.width_spec() as int;
    let h = img.height_spec() as int;
    if y <= 0 && x <= 0 {
    } else if x <= 0 {
        lemma_flip_to_keeps::<I, D>(img, s0, y - 1, w, i);
        assert(y * w + x == (y - 1) * w + w) by (nonlinear_arith)
            requires
                x == 0,
        ;
    } else {
        lemma_flip_to_keeps::<I, D>(img, s0, y, x - 1, i);
        let s = flip_to::<I, D>(img, s0, y, x - 1);
        let s2 = flip_to::<I, D>(img, s0, y, x);
        let p = pix(w, x - 1, y);
        crate::grid::lemma_pix_bounds(w, h, x - 1, y);
        assert(s2 == flip_px::<I, D>(img, s, x - 1, y));
        if i == p {
            assert(i >= y * w + (x - 1));
            assert(s.0[i] == s0.0[i]);
            if img.inside_spec(x - 1, y) {
                assert(s2.0[i] == D::round_spec(-s.0[i]));
            } else {
                assert(s2.0[i] == s.0[i]);
            }
        } else {
            assert(s2.0[i] == s.0[i]);
        }
    }
}

/// Any single boundary pixel reaches the whole grid: the seeding pass
/// reaches the boundary pixel itself, the forward sweep spreads it over
/// its cone, which always contains the bottom-right corner, and the
/// backward sweep spreads it from there over everything else. So a
/// field computed from an image with at least one boundary pixel is
/// finite everywhere.
pub proof fn lemma_boundary_reaches_all<I: BinaryImage, D: DistanceStorage>(
    img: &I,
    sx: int,
    sy: int,
)
    requires
        valid_coord(img.width_spec() as int, img.height_spec() as int, sx, sy),
        is_edge(img, sx, sy),
    ensures
        forall|a: int, b: int|
            valid_coord(img.width_spec() as int, img.height_spec() as int, a, b) ==> -(
            MAX_DISTANCE_FP as int) < #[trigger] dead_reckoning::<I, D>(img).0[pix(
                img.width_spec() as int,
                a,
                b,
            )] < MAX_DISTANCE_FP as int,
{
    let w = img.width_spec() as int;
    let h = img.height_spec() as int;
    crate::grid::lemma_pix_bounds(w, h, sx, sy);
    lemma_seed_done_inv::<I, D>(img);
    lemma_seed_to_inv::<I, D>(img, h, 0);
    let s1 = seed_done::<I, D>(img);
    assert(s1.0[pix(w, sx, sy)] == 0) by {
        assert(w * h == h * w + 0) by (nonlinear_arith);
    }
    lemma_fwd_cone_reaches::<I, D>(img, s1, sx, sy, h, 0);
    lemma_fwd_to_inv::<I, D>(img, s1, h, 0);
    let s2 = fwd_done::<D>(w, h, s1);
    assert forall|a: int, b: int| valid_coord(w, h, a, b) && fwd_cone(sx, sy, a, b) implies 0
        <= #[trigger] s2.0[pix(w, a, b)] < MAX_DISTANCE_FP as int by {
        crate::grid::lemma_pix_bounds(w, h, a, b);
        assert(w * h == h * w + 0) by (nonlinear_arith);
    }
    lemma_bwd_covers::<I, D>(img, s2, sx, sy, 0, 0);
    lemma_bwd_from_inv::<I, D>(img, s2, 0, 0);
    let s3 = bwd_done::<D>(w, h, s2);
    assert forall|a: int, b: int| valid_coord(w, h, a, b) implies -(MAX_DISTANCE_FP as int)
        < #[trigger] dead_reckoning::<I, D>(img).0[pix(w, a, b)] < MAX_DISTANCE_FP as int by {
        crate::grid::lemma_pix_bounds(w, h, a, b);
        let i = pix(w, a, b);
        assert(0 <= s3.0[i] < MAX_DISTANCE_FP as int);
        lemma_flip_to_keeps::<I, D>(img, s3, h, 0, i);
        D::lemma_round(s3.0[i]);
        assert(dead_reckoning::<I, D>(img).0 == flip_to::<I, D>(img, s3, h, 0).0);
    }
}

/// What `compute` guarantees of every cell of the finished field. The
/// distance is negative only inside the shape and positive only
/// outside; its magnitude is either `DISTANCE_INFINITY` — the pixel was
/// never reached — or the rounded exact distance to the recorded
/// target, which is a boundary pixel of the image; and boundary pixels
/// are at exactly zero.
pub open spec fn cell_ok<I: BinaryImage, D: DistanceStorage>(
    img: &I,
    d: Seq<int>,
    t: Seq<(u16, u16)>,
    x: int,
    y: int,
) -> bool {
    let w = img.width_spec() as int;
    let i = pix(w, x, y);
    let dv = d[i];
    let m = if dv < 0 {
        -dv
    } else {
        dv
    };
    let tx = t[i].0 as int;
    let ty = t[i].1 as int;
    &&& (if img.inside_spec(x, y) {
        dv <= 0
    } else {
        dv >= 0
    })
    &&& (m == DISTANCE_INFINITY as int || {
        &&& m < MAX_DISTANCE_FP as int
        &&& valid_coord(w, img.height_spec() as int, tx, ty)
        &&& is_edge(img, tx, ty)
        &&& m == D::round_spec(dist_fp(x, y, tx, ty))
    })
    &&& (is_edge(img, x, y) ==> dv == 0)
}

} // verus!
