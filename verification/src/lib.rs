//! Figures of jointed segments, and animations that pose them frame by
//! frame.
//!
//! A figure is a forest of segments, each a line or a circle between two
//! points, each hanging on a parent segment or free as a root. The
//! library keeps the segments stored so that every parent comes before its
//! children, through every insertion, cut and deletion; it decides how the
//! pointer grabs and drags them; it takes and restores poses; and it reads
//! and writes figures and animations as text. Every coordinate and length
//! is a whole number of thousandths of a unit.

pub mod animation;
pub mod archives;
pub mod branch;
pub mod figure;
pub mod maths;
