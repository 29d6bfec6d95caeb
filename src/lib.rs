//! Verified building blocks for a grayscale Mandelbrot renderer and a few
//! companion programs.
//!
//! - [`escape`]: the escape-time loop, generic over the orbit arithmetic.
//! - [`render`]: row-major traversal of a pixel buffer, gray levels, and the
//!   equality of banded and whole-image rendering.
//! - [`bands`]: the partition of an image's rows into bands for parallel
//!   rendering, and its tiling law.
//! - [`pair`]: parsing of `<left><sep><right>` pairs such as `1000x750`.
//! - [`gcd`]: greatest common divisors and reading numbers from text.
//! - [`basics`], [`ownership`], [`borrowing`]: small vector and string
//!   helpers, the Padovan sequence, a minimum, a factorial and a prefix
//!   search.

pub mod bands;
pub mod basics;
pub mod borrowing;
pub mod escape;
pub mod gcd;
pub mod ownership;
pub mod pair;
pub mod render;
