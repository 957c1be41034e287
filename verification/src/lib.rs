//! Airfoil data handling: the `.dat` coordinate-file format, NACA 4-digit codes
//! and the names of result files, verified with Verus.

pub mod text;
pub mod dat;
pub mod naca;
pub mod names;
