//! How symbols are laid out in time.
//!
//! A modulator emits `samples_per_symbol` consecutive samples for every
//! symbol; sample `j` of the signal belongs to symbol `j / samples_per_symbol`
//! at offset `j % samples_per_symbol` within it. A demodulator cuts the
//! received signal into whole windows of `samples_per_symbol` samples and
//! drops a trailing partial window.

use vstd::arithmetic::div_mod::*;
use vstd::arithmetic::mul::*;
use vstd::prelude::*;

verus! {

/// The slot of every sample of an on/off (or two-tone) keyed signal: for sample
/// `j`, whether its bit is `1`, and the sample's offset within its symbol.
pub open spec fn bit_schedule_spec(bits: Seq<u8>, sps: nat) -> Seq<(bool, usize)> {
    Seq::new(bits.len() * sps, |j: int| (bits[j / (sps as int)] == 1, (j % (sps as int)) as usize))
}

/// The slot of every sample of an `m`-ary keyed signal: for sample `j`, the
/// constellation index of its symbol (the symbol reduced modulo `m`), and the
/// sample's offset within its symbol.
pub open spec fn symbol_schedule_spec(symbols: Seq<u32>, m: u32, sps: nat) -> Seq<(usize, usize)> {
    Seq::new(
        symbols.len() * sps,
        |j: int| ((symbols[j / (sps as int)] % m) as usize, (j % (sps as int)) as usize),
    )
}

/// The demodulation windows of a signal of `len` samples: window `k` covers
/// samples `k * sps` up to, not including, `(k + 1) * sps`.
pub open spec fn frame_windows_spec(len: nat, sps: nat) -> Seq<(usize, usize)> {
    Seq::new(len / sps, |k: int| ((k * sps) as usize, (k * sps + sps) as usize))
}

/// Sample `k * sps + i`, with `i < sps`, is sample `i` of symbol `k`.
proof fn lemma_slot_of_sample(k: int, sps: int, i: int)
    requires
        0 <= k,
        0 <= i < sps,
    ensures
        (k * sps + i) / sps == k,
        (k * sps + i) % sps == i,
{
    lemma_fundamental_div_mod_converse(k * sps + i, sps, k, i);
}

/// For `k < n`, the window `[k * sps, k * sps + sps)` ends inside `n * sps`.
proof fn lemma_window_inside(k: int, n: int, sps: int)
    requires
        0 <= k < n,
        0 <= sps,
    ensures
        k * sps + sps <= n * sps,
        (k + 1) * sps == k * sps + sps,
{
    lemma_mul_is_distributive_add_other_way(sps, k, 1);
    lemma_mul_inequality(k + 1, n, sps);
}

/// The slots of an on/off keyed signal (ASK), or of a two-tone keyed signal
/// (FSK), with `samples_per_symbol` samples per bit: one entry per output
/// sample, giving whether the bit is `1` (carrier on, or the second tone) and
/// the sample's offset within the bit. Any bit value other than `1` keys the
/// carrier off, or selects the first tone.
pub fn bit_schedule(bits: &[u8], samples_per_symbol: usize) -> (r: Vec<(bool, usize)>)
    requires
        bits@.len() * samples_per_symbol <= usize::MAX,
    ensures
        r@ == bit_schedule_spec(bits@, samples_per_symbol as nat),
{
    let sps = samples_per_symbol;
    let n = bits.len();
    let mut r: Vec<(bool, usize)> = Vec::new();
    let mut k: usize = 0;
    while k < n
        invariant
            n == bits@.len(),
            k <= n,
            r@.len() == k * sps,
            forall|j: int|
                0 <= j < r@.len() ==> #[trigger] r@[j] == (bits@[j / (sps as int)] == 1, (j % (
                sps as int)) as usize),
        decreases n - k,
    {
        let on = bits[k] == 1;
        proof {
            lemma_window_inside(k as int, n as int, sps as int);
        }
        let mut i: usize = 0;
        while i < sps
            invariant
                n == bits@.len(),
                k < n,
                i <= sps,
                on == (bits@[k as int] == 1),
                r@.len() == k * sps + i,
                forall|j: int|
                    0 <= j < r@.len() ==> #[trigger] r@[j] == (bits@[j / (sps as int)] == 1, (j % (
                    sps as int)) as usize),
            decreases sps - i,
        {
            proof {
                lemma_slot_of_sample(k as int, sps as int, i as int);
            }
            r.push((on, i));
            i = i + 1;
        }
        k = k + 1;
    }
    proof {
        assert(r@ =~= bit_schedule_spec(bits@, sps as nat));
    }
    r
}

/// The slots of an `m`-ary keyed signal (PSK with `samples_per_symbol` samples
/// per symbol, or QAM with two samples per symbol, in-phase then quadrature):
/// one entry per output sample, giving the constellation index of its symbol,
/// the symbol reduced modulo `m`, and the sample's offset within the symbol.
pub fn symbol_schedule(symbols: &[u32], m: u32, samples_per_symbol: usize) -> (r: Vec<(usize, usize)>)
    requires
        symbols@.len() > 0 ==> m > 0,
        symbols@.len() * samples_per_symbol <= usize::MAX,
    ensures
        r@ == symbol_schedule_spec(symbols@, m, samples_per_symbol as nat),
        forall|j: int| 0 <= j < r@.len() ==> (#[trigger] r@[j]).0 < m,
{
    let sps = samples_per_symbol;
    let n = symbols.len();
    let mut r: Vec<(usize, usize)> = Vec::new();
    let mut k: usize = 0;
    while k < n
        invariant
            n == symbols@.len(),
            n > 0 ==> m > 0,
            k <= n,
            r@.len() == k * sps,
            forall|j: int| 0 <= j < r@.len() ==> (#[trigger] r@[j]).0 < m,
            forall|j: int|
                0 <= j < r@.len() ==> #[trigger] r@[j] == ((symbols@[j / (sps as int)] % m) as usize, (j
                    % (sps as int)) as usize),
        decreases n - k,
    {
        let index = (symbols[k] % m) as usize;
        proof {
            lemma_window_inside(k as int, n as int, sps as int);
        }
        let mut i: usize = 0;
        while i < sps
            invariant
                n == symbols@.len(),
                m > 0,
                k < n,
                i <= sps,
                index == (symbols@[k as int] % m) as usize,
                r@.len() == k * sps + i,
                index < m,
                forall|j: int| 0 <= j < r@.len() ==> (#[trigger] r@[j]).0 < m,
                forall|j: int|
                    0 <= j < r@.len() ==> #[trigger] r@[j] == ((symbols@[j / (sps as int)] % m) as usize, (
                    j % (sps as int)) as usize),
            decreases sps - i,
        {
            proof {
                lemma_slot_of_sample(k as int, sps as int, i as int);
            }
            r.push((index, i));
            i = i + 1;
        }
        k = k + 1;
    }
    proof {
        assert(r@ =~= symbol_schedule_spec(symbols@, m, sps as nat));
    }
    r
}

/// The number of whole symbols in a signal of `signal_len` samples.
pub fn frame_count(signal_len: usize, samples_per_symbol: usize) -> (r: usize)
    requires
        samples_per_symbol > 0,
    ensures
        r == signal_len / samples_per_symbol,
{
    signal_len / samples_per_symbol
}

/// The demodulation windows of a signal of `signal_len` samples, as
/// `(start, end)` pairs: one per whole symbol, in order; a trailing partial
/// window is dropped.
pub fn frame_windows(signal_len: usize, samples_per_symbol: usize) -> (r: Vec<(usize, usize)>)
    requires
        samples_per_symbol > 0,
    ensures
        r@ == frame_windows_spec(signal_len as nat, samples_per_symbol as nat),
        forall|k: int| 0 <= k < r@.len() ==> (#[trigger] r@[k]).1 <= signal_len,
        r@.len() * samples_per_symbol <= signal_len < r@.len() * samples_per_symbol
            + samples_per_symbol,
        forall|k: int|
            0 <= k < r@.len() ==> (#[trigger] r@[k]).0 == k * samples_per_symbol && r@[k].1 == k
                * samples_per_symbol + samples_per_symbol,
{
    let sps = samples_per_symbol;
    let n = frame_count(signal_len, sps);
    proof {
        lemma_fundamental_div_mod(signal_len as int, sps as int);
        lemma_mul_is_commutative(sps as int, n as int);
        lemma_mod_pos_bound(signal_len as int, sps as int);
    }
    let mut r: Vec<(usize, usize)> = Vec::new();
    let mut k: usize = 0;
    let mut start: usize = 0;
    while k < n
        invariant
            sps > 0,
            n == signal_len / sps,
            n * sps <= signal_len,
            k <= n,
            start == k * sps,
            r@.len() == k,
            forall|q: int|
                0 <= q < k ==> #[trigger] r@[q] == ((q * sps) as usize, (q * sps + sps) as usize),
            forall|q: int| 0 <= q < k ==> (#[trigger] r@[q]).1 <= signal_len,
            forall|q: int|
                0 <= q < k ==> (#[trigger] r@[q]).0 == q * sps && r@[q].1 == q * sps + sps,
        decreases n - k,
    {
        proof {
            lemma_window_inside(k as int, n as int, sps as int);
        }
        let end = start + sps;
        r.push((start, end));
        start = end;
        k = k + 1;
    }
    proof {
        assert(r@ =~= frame_windows_spec(signal_len as nat, sps as nat));
    }
    r
}

/// Demodulating an on/off or two-tone keyed signal recovers one window per
/// bit that was sent, and window `k` holds exactly the samples that bit `k`
/// produced, in order.
pub proof fn lemma_bit_frames_align(bits: Seq<u8>, sps: nat)
    requires
        sps > 0,
        bits.len() * sps <= usize::MAX,
    ensures
        frame_windows_spec(bits.len() * sps, sps).len() == bits.len(),
        forall|k: int, j: int|
            0 <= k < bits.len() && (#[trigger] frame_windows_spec(bits.len() * sps, sps)[k]).0 <= j
                < frame_windows_spec(bits.len() * sps, sps)[k].1 ==> (#[trigger] bit_schedule_spec(
                bits,
                sps,
            )[j]) == (bits[k] == 1, (j - k * sps) as usize),
{
    let n = bits.len();
    lemma_windows_of_whole_symbols(n, sps);
    assert forall|k: int, j: int|
        0 <= k < n && (#[trigger] frame_windows_spec(n * sps, sps)[k]).0 <= j < frame_windows_spec(
            n * sps,
            sps,
        )[k].1 implies (#[trigger] bit_schedule_spec(bits, sps)[j]) == (bits[k] == 1, (j - k
        * sps) as usize) by {
        lemma_window_inside(k, n as int, sps as int);
        lemma_slot_of_sample(k, sps as int, j - k * sps);
    }
}

/// Demodulating an `m`-ary keyed signal recovers one window per symbol that
/// was sent, and window `k` holds exactly the samples that symbol `k`
/// produced, in order, each carrying that symbol's constellation index.
pub proof fn lemma_symbol_frames_align(symbols: Seq<u32>, m: u32, sps: nat)
    requires
        sps > 0,
        symbols.len() * sps <= usize::MAX,
    ensures
        frame_windows_spec(symbols.len() * sps, sps).len() == symbols.len(),
        forall|k: int, j: int|
            0 <= k < symbols.len() && (#[trigger] frame_windows_spec(symbols.len() * sps, sps)[k]).0
                <= j < frame_windows_spec(symbols.len() * sps, sps)[k].1 ==> (
            #[trigger] symbol_schedule_spec(symbols, m, sps)[j]) == ((symbols[k] % m) as usize, (j
                - k * sps) as usize),
{
    let n = symbols.len();
    lemma_windows_of_whole_symbols(n, sps);
    assert forall|k: int, j: int|
        0 <= k < n && (#[trigger] frame_windows_spec(n * sps, sps)[k]).0 <= j < frame_windows_spec(
            n * sps,
            sps,
        )[k].1 implies (#[trigger] symbol_schedule_spec(symbols, m, sps)[j]) == ((symbols[k]
        % m) as usize, (j - k * sps) as usize) by {
        lemma_window_inside(k, n as int, sps as int);
        lemma_slot_of_sample(k, sps as int, j - k * sps);
    }
}

/// A signal of `n` whole symbols is cut into exactly `n` windows, and window
/// `k` starts at `k * sps` and ends at `k * sps + sps`, with no truncation.
proof fn lemma_windows_of_whole_symbols(n: nat, sps: nat)
    requires
        sps > 0,
        n * sps <= usize::MAX,
    ensures
        frame_windows_spec(n * sps, sps).len() == n,
        forall|k: int|
            0 <= k < n ==> (#[trigger] frame_windows_spec(n * sps, sps)[k]) == ((k * sps) as usize, (k
                * sps + sps) as usize) && k * sps + sps <= n * sps,
{
    lemma_div_multiples_vanish(n as int, sps as int);
    lemma_mul_is_commutative(n as int, sps as int);
    assert forall|k: int| 0 <= k < n implies (#[trigger] frame_windows_spec(n * sps, sps)[k]) == ((k
        * sps) as usize, (k * sps + sps) as usize) && k * sps + sps <= n * sps by {
        lemma_window_inside(k, n as int, sps as int);
    }
}

/// Every window of a signal of `len` samples lies inside it: window `k` is
/// `[k * sps, k * sps + sps)` and ends at or before sample `len`.
proof fn lemma_windows_inside_signal(len: nat, sps: nat)
    requires
        sps > 0,
        len <= usize::MAX,
    ensures
        forall|k: int|
            0 <= k < len / sps ==> (#[trigger] frame_windows_spec(len, sps)[k]) == ((k * sps) as usize, (k
                * sps + sps) as usize) && frame_windows_spec(len, sps)[k].0 == k * sps
                && frame_windows_spec(len, sps)[k].1 == k * sps + sps && frame_windows_spec(len, sps)[k].1
                <= len,
        (len / sps) * sps <= len < (len / sps) * sps + sps,
{
    let n = len / sps;
    lemma_fundamental_div_mod(len as int, sps as int);
    lemma_mod_pos_bound(len as int, sps as int);
    lemma_mul_is_commutative(sps as int, n as int);
    assert forall|k: int| 0 <= k < n implies (#[trigger] frame_windows_spec(len, sps)[k]) == ((k
        * sps) as usize, (k * sps + sps) as usize) && frame_windows_spec(len, sps)[k].0 == k * sps
        && frame_windows_spec(len, sps)[k].1 == k * sps + sps && frame_windows_spec(len, sps)[k].1
        <= len by {
        lemma_window_inside(k, n as int, sps as int);
        assert(n * sps <= len);
        assert(k * sps + sps <= len);
        assert(frame_windows_spec(len, sps).len() == n);
        assert(frame_windows_spec(len, sps)[k] == ((k * sps) as usize, (k * sps + sps) as usize));
    }
}

/// The demodulation windows tile the received signal from its first sample,
/// whatever its length: the first window starts at sample 0, each window is
/// `sps` samples long and starts where the previous one ends, every window
/// lies inside the signal, and fewer than `sps` samples are left over after
/// the last one, which are dropped.
pub proof fn lemma_windows_tile_from_start(len: nat, sps: nat)
    requires
        sps > 0,
        len <= usize::MAX,
    ensures
        frame_windows_spec(len, sps).len() * sps <= len < frame_windows_spec(len, sps).len() * sps
            + sps,
        frame_windows_spec(len, sps).len() > 0 ==> frame_windows_spec(len, sps)[0].0 == 0,
        forall|k: int|
            0 <= k < frame_windows_spec(len, sps).len() ==> (#[trigger] frame_windows_spec(
                len,
                sps,
            )[k]).1 == frame_windows_spec(len, sps)[k].0 + sps && frame_windows_spec(len, sps)[k].1
                <= len,
        forall|k: int|
            #![trigger frame_windows_spec(len, sps)[k]]
            0 <= k && k + 1 < frame_windows_spec(len, sps).len() ==> frame_windows_spec(len, sps)[k
                + 1].0 == frame_windows_spec(len, sps)[k].1,
{
    let n = len / sps;
    lemma_windows_inside_signal(len, sps);
    let w = frame_windows_spec(len, sps);
    if n > 0 {
        assert(w[0] == ((0 * sps) as usize, (0 * sps + sps) as usize));
    }
    assert forall|k: int| 0 <= k && k + 1 < n implies #[trigger] w[k + 1].0 == w[k].1 by {
        assert(w[k + 1] == (((k + 1) * sps) as usize, ((k + 1) * sps + sps) as usize));
        assert(w[k] == ((k * sps) as usize, (k * sps + sps) as usize));
        lemma_mul_is_distributive_add_other_way(sps as int, k, 1);
    }
}

/// Demodulating an on/off or two-tone keyed signal followed by any number of
/// trailing samples: the windows start at the first sample, so window `k`,
/// for every bit `k` that was sent, holds exactly the samples that bit `k`
/// produced, in order.
pub proof fn lemma_bit_frames_align_with_tail(bits: Seq<u8>, sps: nat, tail: nat)
    requires
        sps > 0,
        bits.len() * sps + tail <= usize::MAX,
    ensures
        frame_windows_spec(bits.len() * sps + tail, sps).len() >= bits.len(),
        forall|k: int, j: int|
            0 <= k < bits.len() && (#[trigger] frame_windows_spec(bits.len() * sps + tail, sps)[k]).0
                <= j < frame_windows_spec(bits.len() * sps + tail, sps)[k].1 ==> (#[trigger] bit_schedule_spec(bits, sps)[j]) == (bits[k] == 1, (j - k
                * sps) as usize),
{
    let n = bits.len();
    let len = n * sps + tail;
    lemma_windows_inside_signal(len, sps);
    lemma_div_multiples_vanish(n as int, sps as int);
    lemma_mul_is_commutative(n as int, sps as int);
    lemma_div_is_ordered((n * sps) as int, len as int, sps as int);
    assert forall|k: int, j: int|
        0 <= k < n && (#[trigger] frame_windows_spec(len, sps)[k]).0 <= j < frame_windows_spec(
            len,
            sps,
        )[k].1 implies (#[trigger] bit_schedule_spec(bits, sps)[j]) == (bits[k]
        == 1, (j - k * sps) as usize) by {
        lemma_window_inside(k, n as int, sps as int);
        lemma_slot_of_sample(k, sps as int, j - k * sps);
    }
}

/// Demodulating an `m`-ary keyed signal followed by any number of trailing
/// samples: the windows start at the first sample, so window `k`, for every
/// symbol `k` that was sent, holds exactly the samples that symbol `k`
/// produced, in order, each carrying that symbol's constellation index.
pub proof fn lemma_symbol_frames_align_with_tail(symbols: Seq<u32>, m: u32, sps: nat, tail: nat)
    requires
        sps > 0,
        symbols.len() * sps + tail <= usize::MAX,
    ensures
        frame_windows_spec(symbols.len() * sps + tail, sps).len() >= symbols.len(),
        forall|k: int, j: int|
            0 <= k < symbols.len() && (#[trigger] frame_windows_spec(symbols.len() * sps + tail, sps)[k]).0
                <= j < frame_windows_spec(symbols.len() * sps + tail, sps)[k].1 ==> (
                #[trigger] symbol_schedule_spec(symbols, m, sps)[j]) == ((symbols[k]
                % m) as usize, (j - k * sps) as usize),
{
    let n = symbols.len();
    let len = n * sps + tail;
    lemma_windows_inside_signal(len, sps);
    lemma_div_multiples_vanish(n as int, sps as int);
    lemma_mul_is_commutative(n as int, sps as int);
    lemma_div_is_ordered((n * sps) as int, len as int, sps as int);
    assert forall|k: int, j: int|
        0 <= k < n && (#[trigger] frame_windows_spec(len, sps)[k]).0 <= j < frame_windows_spec(
            len,
            sps,
        )[k].1 implies (#[trigger] symbol_schedule_spec(symbols, m, sps)[j]) == ((
        symbols[k] % m) as usize, (j - k * sps) as usize) by {
        lemma_window_inside(k, n as int, sps as int);
        lemma_slot_of_sample(k, sps as int, j - k * sps);
    }
}

} // verus!
