//! Integer core of a Monte Carlo path tracer: how scanlines are shared out
//! among workers and put back together, which intersection a ray keeps, when a
//! light path ends, and how quantised pixels are written as raster text.
pub mod bands;
pub mod nearest;
pub mod path;
pub mod raster;
