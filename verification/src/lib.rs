//! Approximates a signed distance field, given a binary image.
//! The algorithm used is called "dead reckoning", as described in
//! `The "dead reckoning" signed distance transform` by George J. Grevara (2004).

pub mod binary_image;
pub mod fixed;
pub mod grid;
pub mod model;
pub mod distance_field;

use vstd::prelude::*;

verus! {

use crate::binary_image::BinaryImage;
use crate::distance_field::{
    DistanceStorage,
    SignedDistanceField,
    F16DistanceStorage,
    F32DistanceStorage,
    bounded_values,
};

/// Compute the signed distance field of the specified binary image,
/// with the specified distance storage.
pub fn compute_distance_field<D: DistanceStorage, I: BinaryImage>(image: &I) -> (field:
    SignedDistanceField<D>)
    ensures
        field.wf(),
        field.width == image.width_spec(),
        field.height == image.height_spec(),
        field.state() == crate::model::dead_reckoning::<I, D>(image),
        crate::model::all_cells_ok::<I, D>(image, field.state()),
        bounded_values(field.state().0),
{
    SignedDistanceField::compute(image)
}

/// Compute the signed distance field of the specified binary image,
/// with the compact 16-bit distance storage.
pub fn compute_f16_distance_field<I: BinaryImage>(image: &I) -> (field: SignedDistanceField<
    F16DistanceStorage,
>)
    ensures
        field.wf(),
        field.width == image.width_spec(),
        field.height == image.height_spec(),
        field.state() == crate::model::dead_reckoning::<I, F16DistanceStorage>(image),
        crate::model::all_cells_ok::<I, F16DistanceStorage>(image, field.state()),
        bounded_values(field.state().0),
{
    compute_distance_field(image)
}

/// Compute the signed distance field of the specified binary image,
/// with the full-precision 32-bit distance storage.
pub fn compute_f32_distance_field<I: BinaryImage>(image: &I) -> (field: SignedDistanceField<
    F32DistanceStorage,
>)
    ensures
        field.wf(),
        field.width == image.width_spec(),
        field.height == image.height_spec(),
        field.state() == crate::model::dead_reckoning::<I, F32DistanceStorage>(image),
        crate::model::all_cells_ok::<I, F32DistanceStorage>(image, field.state()),
        bounded_values(field.state().0),
{
    compute_distance_field(image)
}

} // verus!
