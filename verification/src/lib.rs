//! # Modem Core
//!
//! The integer side of digital modulation and demodulation: error counting
//! for bit and symbol error rates, the sample schedules that ASK, FSK, PSK
//! and QAM modulators follow, the framing that demodulators apply, the
//! square-QAM grid, and the pseudo-random source behind the noise generator.

pub mod ber;
pub mod framing;
pub mod noise;
pub mod qam;
