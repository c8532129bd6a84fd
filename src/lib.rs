//! The discrete core of a ray tracer: surface identities, the ordering and
//! selection of ray/surface intersections, the refractive-medium stack, the
//! square-matrix layout used by transforms, the raster buffer and its
//! plain-text bitmap encoding and decoding.
//!
//! Arithmetic on real-valued coordinates and colors is left to the caller;
//! this library works on what that arithmetic hands it: float bit patterns,
//! matrix entries of any copyable type, and colors quantised to 8-bit levels.

pub mod canvas;
pub mod cylinder;
pub mod float_bits;
pub mod identity;
pub mod intersections;
pub mod matrix;
pub mod ppm;
pub mod ppm_decode;

pub use canvas::{lemma_from_fn_repeatable, Canvas};
pub use cylinder::{cylinder, Cylinder, ShapeError};
pub use float_bits::{
    is_non_negative, less_or_equal, less_than, total_order_key, INFINITY_BITS, NEG_INFINITY_BITS,
};
pub use identity::SurfaceId;
pub use intersections::{
    hit, hit_index, intersection, is_occluded, lemma_hit_unique, refraction_media,
    sort_intersections, Intersection, RefractionMedia,
};
pub use matrix::{submatrix, transpose, Matrix};
pub use ppm::{canvas_to_ppm, Rgb, MAX_LINE_LEN};
pub use ppm_decode::{canvas_from_ppm, lemma_ppm_round_trip};
