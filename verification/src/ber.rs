//! Bit and symbol error counting.

use vstd::prelude::*;

verus! {

/// Number of positions at which `a` and `b` hold different values,
/// counted over the first `a.len()` positions.
pub open spec fn mismatch_count<T>(a: Seq<T>, b: Seq<T>) -> nat
    decreases a.len(),
{
    if a.len() == 0 {
        0
    } else {
        mismatch_count(a.drop_last(), b.take(a.len() - 1)) + if a.last() != b[a.len() - 1] {
            1nat
        } else {
            0nat
        }
    }
}

/// The outcome of comparing a transmitted and a received sequence:
/// how many positions differ, out of how many.
///
/// The error rate is `errors / total`, taken as zero when `total` is zero.
#[derive(Debug, Clone, Copy, PartialEq, Eq, Structural)]
pub struct ErrorTally {
    pub errors: usize,
    pub total: usize,
}

impl ErrorTally {
    /// The tally describes a rate in `[0, 1]`.
    pub open spec fn is_rate(self) -> bool {
        self.errors <= self.total
    }

    /// Whether no position differed (the rate is zero).
    pub fn is_error_free(&self) -> (r: bool)
        ensures
            r == (self.errors == 0),
    {
        self.errors == 0
    }
}

/// Counts the differing bits between a transmitted and a received bit sequence.
pub fn count_bit_errors(transmitted: &[u8], received: &[u8]) -> (r: ErrorTally)
    requires
        transmitted@.len() == received@.len(),
    ensures
        r.total == transmitted@.len(),
        r.errors == mismatch_count(transmitted@, received@),
        r.is_rate(),
{
    let n = transmitted.len();
    let mut errors: usize = 0;
    let mut i: usize = 0;
    while i < n
        invariant
            n == transmitted@.len(),
            n == received@.len(),
            i <= n,
            errors == mismatch_count(transmitted@.take(i as int), received@.take(i as int)),
            errors <= i,
        decreases n - i,
    {
        proof {
            lemma_mismatch_take_step(transmitted@, received@, i as int);
        }
        if transmitted[i] != received[i] {
            errors = errors + 1;
        }
        i = i + 1;
    }
    proof {
        assert(transmitted@.take(n as int) =~= transmitted@);
        assert(received@.take(n as int) =~= received@);
    }
    ErrorTally { errors, total: n }
}

/// Counts the differing symbols between a transmitted and a received symbol sequence.
pub fn count_symbol_errors(transmitted: &[u32], received: &[u32]) -> (r: ErrorTally)
    requires
        transmitted@.len() == received@.len(),
    ensures
        r.total == transmitted@.len(),
        r.errors == mismatch_count(transmitted@, received@),
        r.is_rate(),
{
    let n = transmitted.len();
    let mut errors: usize = 0;
    let mut i: usize = 0;
    while i < n
        invariant
            n == transmitted@.len(),
            n == received@.len(),
            i <= n,
            errors == mismatch_count(transmitted@.take(i as int), received@.take(i as int)),
            errors <= i,
        decreases n - i,
    {
        proof {
            lemma_mismatch_take_step(transmitted@, received@, i as int);
        }
        if transmitted[i] != received[i] {
            errors = errors + 1;
        }
        i = i + 1;
    }
    proof {
        assert(transmitted@.take(n as int) =~= transmitted@);
        assert(received@.take(n as int) =~= received@);
    }
    ErrorTally { errors, total: n }
}

/// Extending both prefixes by one position adds one to the count exactly
/// when the new positions differ.
proof fn lemma_mismatch_take_step<T>(a: Seq<T>, b: Seq<T>, i: int)
    requires
        0 <= i < a.len(),
        a.len() == b.len(),
    ensures
        mismatch_count(a.take(i + 1), b.take(i + 1)) == mismatch_count(a.take(i), b.take(i)) + if a[i]
            != b[i] {
            1nat
        } else {
            0nat
        },
{
    let a1 = a.take(i + 1);
    let b1 = b.take(i + 1);
    assert(a1.drop_last() =~= a.take(i));
    assert(b1.take(i) =~= b.take(i));
}

/// The error count never exceeds the number of compared positions, so the
/// error rate lies in `[0, 1]`.
pub proof fn lemma_errors_at_most_total<T>(a: Seq<T>, b: Seq<T>)
    ensures
        mismatch_count(a, b) <= a.len(),
    decreases a.len(),
{
    if a.len() > 0 {
        lemma_errors_at_most_total(a.drop_last(), b.take(a.len() - 1));
    }
}

/// Comparing `a` with `b` counts as many errors as comparing `b` with `a`.
pub proof fn lemma_errors_symmetric<T>(a: Seq<T>, b: Seq<T>)
    requires
        a.len() == b.len(),
    ensures
        mismatch_count(a, b) == mismatch_count(b, a),
    decreases a.len(),
{
    if a.len() > 0 {
        let n = a.len() - 1;
        assert(a.take(n) =~= a.drop_last());
        assert(b.take(n) =~= b.drop_last());
        lemma_errors_symmetric(a.drop_last(), b.drop_last());
    }
}

/// Two sequences of equal length give no errors exactly when they are equal:
/// the error rate is zero if and only if nothing was corrupted.
pub proof fn lemma_no_errors_iff_equal<T>(a: Seq<T>, b: Seq<T>)
    requires
        a.len() == b.len(),
    ensures
        (mismatch_count(a, b) == 0) <==> (a == b),
    decreases a.len(),
{
    if a.len() > 0 {
        let n = a.len() - 1;
        assert(b.take(n) =~= b.drop_last());
        lemma_no_errors_iff_equal(a.drop_last(), b.drop_last());
        if a == b {
            assert(a.drop_last() =~= b.drop_last());
        }
        if mismatch_count(a, b) == 0 {
            assert(a.drop_last() == b.drop_last());
            assert forall|i: int| 0 <= i < a.len() implies a[i] == b[i] by {
                if i < n {
                    assert(a.drop_last()[i] == b.drop_last()[i]);
                }
            }
            assert(a =~= b);
        }
    } else {
        assert(a =~= b);
    }
}

/// The error count equals the length exactly when every position differs:
/// the error rate is one if and only if every symbol was corrupted.
pub proof fn lemma_all_errors_iff_all_differ<T>(a: Seq<T>, b: Seq<T>)
    requires
        a.len() == b.len(),
    ensures
        (mismatch_count(a, b) == a.len()) <==> (forall|i: int| 0 <= i < a.len() ==> a[i] != b[i]),
    decreases a.len(),
{
    if a.len() > 0 {
        let n = a.len() - 1;
        assert(b.take(n) =~= b.drop_last());
        lemma_all_errors_iff_all_differ(a.drop_last(), b.drop_last());
        lemma_errors_at_most_total(a.drop_last(), b.drop_last());
        if mismatch_count(a, b) == a.len() {
            assert forall|i: int| 0 <= i < a.len() implies a[i] != b[i] by {
                if i < n {
                    assert(a.drop_last()[i] != b.drop_last()[i]);
                }
            }
        }
        if forall|i: int| 0 <= i < a.len() ==> a[i] != b[i] {
            assert forall|i: int| 0 <= i < n implies a.drop_last()[i] != b.drop_last()[i] by {
                assert(a[i] != b[i]);
            }
            assert(a[n] != b[n]);
        }
    }
}

/// Errors add up over consecutive blocks: the count for two concatenated
/// transmissions is the sum of the counts for each.
pub proof fn lemma_errors_concat<T>(a1: Seq<T>, b1: Seq<T>, a2: Seq<T>, b2: Seq<T>)
    requires
        a1.len() == b1.len(),
        a2.len() == b2.len(),
    ensures
        mismatch_count(a1 + a2, b1 + b2) == mismatch_count(a1, b1) + mismatch_count(a2, b2),
    decreases a2.len(),
{
    if a2.len() == 0 {
        assert(a1 + a2 =~= a1);
        assert(b1 + b2 =~= b1);
    } else {
        let n2 = a2.len() - 1;
        let a = a1 + a2;
        let b = b1 + b2;
        assert(a.drop_last() =~= a1 + a2.drop_last());
        assert(b.take(a.len() - 1) =~= b1 + b2.drop_last());
        assert(b2.take(n2) =~= b2.drop_last());
        lemma_errors_concat(a1, b1, a2.drop_last(), b2.drop_last());
    }
}

} // verus!
