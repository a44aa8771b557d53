//! Integer core of the PQ / HLG conversion tools: the raw pixel stream format,
//! the PQ code value to luminance curve in fixed point, and the geometry and
//! parameter rules of a Cube LUT.

pub mod fixed;
pub mod io;
pub mod lut;
pub mod pq;
pub mod tm;
