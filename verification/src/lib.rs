//! Front end for a minimal pointer-and-tape language: tokenization,
//! delta-compression of straight-line instruction runs, and construction of a
//! flat intermediate-representation sequence with matched loop markers.

pub mod token;
pub mod ir;
pub mod compress;
pub mod builder;
