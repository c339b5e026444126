//! Print trapping for spot-color plates: touching-pair detection, grid
//! distance fields and trap-mask synthesis over binary plate masks.

pub mod boundary;
pub mod codec;
pub mod distance;
pub mod error;
pub mod grid;
pub mod job;
pub mod laws;
pub mod mask;
pub mod naming;
pub mod trap;
