//! Perceptual color model and palette matching.
//!
//! Colors carry OKLab coordinates in fixed point (ten-thousandths), so every
//! score computed from them is an exact integer and reproducible everywhere.

pub mod fixed;
pub mod key;
pub mod color;
pub mod palette;
