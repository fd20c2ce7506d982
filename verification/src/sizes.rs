//! Lengths that the transforms accept: the powers of two.
use vstd::prelude::*;

verus! {

/// `n` is 1, 2, 4, 8, ...
pub open spec fn is_power_of_two(n: nat) -> bool
    decreases n,
{
    n == 1 || (n >= 2 && n % 2 == 0 && is_power_of_two(n / 2))
}

/// A length that the transforms accept: a power of two, or 0 for the empty
/// signal.
pub open spec fn is_signal_len(n: nat) -> bool {
    n == 0 || is_power_of_two(n)
}

/// The exponent `l` with `n == 2^l`, for a power of two `n`: the number of
/// times `n` can be halved before it reaches 1.
pub open spec fn levels(n: nat) -> nat
    decreases n,
{
    if n <= 1 {
        0
    } else {
        1 + levels(n / 2)
    }
}

/// The least power of two that is not below `m`, and 0 for 0.
pub open spec fn next_power_of_two(m: nat) -> nat
    decreases m,
{
    if m <= 1 {
        m
    } else {
        2 * next_power_of_two((m + 1) / 2)
    }
}

/// The length of a signal failed to be a power of two where one is needed.
#[derive(Clone, Copy, Debug, PartialEq, Eq)]
pub struct InvalidLength {
    /// The length that was handed in.
    pub len: usize,
}

/// `next_power_of_two(m)` is a power of two in `[m, 2m)`, and it is `m` itself
/// where `m` is a power of two.
pub proof fn lemma_next_power_of_two(m: nat)
    requires
        m >= 1,
    ensures
        is_power_of_two(next_power_of_two(m)),
        m <= next_power_of_two(m) < 2 * m,
        is_power_of_two(m) ==> next_power_of_two(m) == m,
    decreases m,
{
    if m > 1 {
        lemma_next_power_of_two((m + 1) / 2);
        let p = next_power_of_two((m + 1) / 2);
        assert((2 * p) / 2 == p);
        if is_power_of_two(m) {
            assert((m + 1) / 2 == m / 2);
        }
    }
}

/// No power of two that is not below `m` is below `next_power_of_two(m)`.
pub proof fn lemma_next_power_of_two_least(m: nat, p: nat)
    requires
        is_power_of_two(p),
        m <= p,
    ensures
        next_power_of_two(m) <= p,
    decreases m,
{
    if m > 1 {
        lemma_next_power_of_two_least((m + 1) / 2, p / 2);
    }
}

/// Of two powers of two, the greater is at least twice the smaller.
pub proof fn lemma_power_of_two_gap(a: nat, b: nat)
    requires
        is_power_of_two(a),
        is_power_of_two(b),
        a < b,
    ensures
        2 * a <= b,
        is_power_of_two(2 * a),
    decreases b,
{
    assert((2 * a) / 2 == a);
    if a > 1 {
        lemma_power_of_two_gap(a / 2, b / 2);
    }
}

/// Whether `n` is a power of two.
pub fn power_of_two(n: usize) -> (r: bool)
    ensures
        r == is_power_of_two(n as nat),
{
    if n == 0 {
        return false;
    }
    let mut m: usize = n;
    while m % 2 == 0
        invariant
            m >= 1,
            is_power_of_two(m as nat) == is_power_of_two(n as nat),
        decreases m,
    {
        m = m / 2;
    }
    m == 1
}

} // verus!
