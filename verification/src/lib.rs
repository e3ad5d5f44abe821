//! Stack blur: a triangular-kernel approximation of Gaussian blur, computed by
//! a streaming filter in amortised constant time per sample and applied to
//! packed four-channel pixel grids as two separable passes.

pub mod filter;
pub mod image;
pub mod kernel;
mod mass;
pub mod pixel;
mod ring;
mod stream;
mod tracking;
pub mod value;

pub use filter::StackBlur;
pub use image::{blur, blur_horiz, blur_vert, MAX_RADIUS};
pub use pixel::ARGB;
pub use value::StackBlurrable;
