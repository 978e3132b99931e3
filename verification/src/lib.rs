//! A verified numerical-integration engine for discretely-sampled signals.
//!
//! An acceleration profile, given as a table of samples, is integrated once
//! to derive a velocity profile and again to derive a position profile.
//! All signal values are exact fixed-point numbers (`fixed::Fixed`), so every
//! quadrature rule and both driver passes carry exact contracts.

pub mod columns;
pub mod fixed;
pub mod sim;
pub mod summation;
pub mod time;
