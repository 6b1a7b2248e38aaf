//! A verified core for an OFDM physical-layer modem.
//!
//! The library holds the discrete half of the modem: bit packing, framing with
//! a length header and Reed-Solomon protection, the BPSK/QPSK constellation
//! mapping and its hard-decision inverse, the layout of subcarriers inside an
//! OFDM block, cyclic prefixes, FFT-shift permutations and the arithmetic that
//! turns a correlation peak into a frame offset.
use vstd::prelude::*;

pub mod analysis;
pub mod bits;
pub mod block;
pub mod ecc;
pub mod frame;
pub mod modulation;
pub mod receiver;
pub mod signals;
pub mod utils;

verus! {

} // verus!
