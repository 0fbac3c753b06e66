//! Vector, geometry and matrix utilities.
//!
//! - [`intersection`]: the decision rules of the sphere, circle and plane
//!   intersection routines, that is the order in which failures are detected and
//!   the error each one reports.
//! - [`hilbert`]: conversion between an index and a point on a Hilbert curve in
//!   any number of dimensions.
//! - [`gmatrix`]: a dense matrix over any entry type with zero and one.
//! - [`matrix3x3`]: operations on 3x3 matrices stored as nested arrays.
//! - [`traits`]: the numeric capabilities that matrix entries provide.
pub mod gmatrix;
pub mod hilbert;
pub mod intersection;
pub mod matrix3x3;
pub mod traits;
