# modem_core

The integer core of a small digital-modulation library (ASK, FSK, PSK, QAM,
BER), verified with Verus.

- `src/ber.rs`: bit and symbol error counting, with its laws (the count is at
  most the length, zero exactly for equal sequences, full exactly when every
  position differs, symmetric, additive over blocks).
- `src/framing.rs`: the sample schedules that modulators follow and the
  windows that demodulators cut, with the law that the windows of a modulated
  signal hold exactly the samples of each symbol.
- `src/qam.rs`: the perfect-square order check and the square QAM grid in
  doubled integer levels, with its centring and point-symmetry laws.
- `src/noise.rs`: the linear congruential generator behind the noise source.
- `app/`: the floating-point sample arithmetic (carriers, correlations,
  nearest-point detection, theoretical BER curves) built on the library.
