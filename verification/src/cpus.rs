//! The depth down to which a build may split its work: the base-2
//! logarithm of the number of CPUs, rounded down.

use vstd::prelude::*;

verus! {

/// Base-2 logarithm of `n`, rounded down; 0 for `n <= 1`.
pub open spec fn floor_log2(n: nat) -> nat
    decreases n,
{
    if n <= 1 {
        0
    } else {
        1 + floor_log2(n / 2)
    }
}

/// Two to the power `e`.
pub open spec fn two_pow(e: nat) -> nat
    decreases e,
{
    if e == 0 {
        1
    } else {
        2 * two_pow((e - 1) as nat)
    }
}

/// `floor_log2(n)` is the exponent of the greatest power of two that is at
/// most `n`.
pub proof fn lemma_floor_log2_bounds(n: nat)
    requires
        n >= 1,
    ensures
        two_pow(floor_log2(n)) <= n < two_pow(floor_log2(n) + 1),
    decreases n,
{
    if n > 1 {
        lemma_floor_log2_bounds(n / 2);
    }
}

proof fn lemma_floor_log2_le(n: nat)
    ensures
        floor_log2(n) <= n,
    decreases n,
{
    if n > 1 {
        lemma_floor_log2_le(n / 2);
    }
}

/// Wraps `num_cpus::get`, the number of logical CPUs that this process may
/// use. Its documentation promises that it is at least 1; the number
/// itself depends on the machine.
#[verifier::external_body]
fn available_cpus() -> (n: usize)
    ensures
        n >= 1,
{
    num_cpus::get()
}

/// The split depth for `n` CPUs: `floor_log2(n)`.
pub fn cross_for_cpus(n: usize) -> (c: usize)
    ensures
        c == floor_log2(n as nat),
{
    let mut m = n;
    let mut c: usize = 0;
    proof {
        lemma_floor_log2_le(n as nat);
    }
    while m > 1
        invariant
            c + floor_log2(m as nat) == floor_log2(n as nat),
            floor_log2(n as nat) <= n,
        decreases m,
    {
        m = m / 2;
        c = c + 1;
    }
    c
}

/// `n` is a CPU count that `num_cpus::get` may report on this machine: a
/// value that the call has returned.
pub closed spec fn reported_cpus(n: usize) -> bool {
    call_ensures(available_cpus, (), n)
}

/// A count that `num_cpus::get` reports is at least 1.
pub proof fn lemma_reported_cpus_positive(n: usize)
    requires
        reported_cpus(n),
    ensures
        n >= 1,
{
}

/// `c` is the split depth for this machine: `floor_log2` of a CPU count
/// that `num_cpus::get` reported.
pub open spec fn cross_of_machine(c: usize) -> bool {
    exists|n: usize| reported_cpus(n) && c == #[trigger] floor_log2(n as nat)
}

/// The split depth of the machine is the exponent of the greatest power of
/// two that is at most a CPU count that `num_cpus::get` reported:
/// `2^c <= n < 2^(c+1)`.
pub proof fn law_machine_cross_brackets_cpus(c: usize)
    requires
        cross_of_machine(c),
    ensures
        exists|n: usize|
            #[trigger] reported_cpus(n) && two_pow(c as nat) <= n < two_pow(c as nat + 1),
{
    let n = choose|n: usize| reported_cpus(n) && c == #[trigger] floor_log2(n as nat);
    lemma_reported_cpus_positive(n);
    lemma_floor_log2_bounds(n as nat);
    assert(reported_cpus(n) && two_pow(c as nat) <= n < two_pow(c as nat + 1));
}

/// Only one exponent brackets `n` between consecutive powers of two, and it
/// is `floor_log2(n)`.
pub proof fn law_bracket_is_floor_log2(d: nat, n: nat)
    requires
        two_pow(d) <= n < two_pow(d + 1),
    ensures
        d == floor_log2(n),
{
    assert(two_pow(0) == 1);
    lemma_two_pow_mono(0, d);
    lemma_floor_log2_bounds(n);
    lemma_pow_bracket_unique(d, floor_log2(n), n);
}

/// Two exponents whose power-of-two brackets both hold `n` are equal.
proof fn lemma_pow_bracket_unique(d: nat, e: nat, n: nat)
    requires
        two_pow(d) <= n < two_pow(d + 1),
        two_pow(e) <= n < two_pow(e + 1),
    ensures
        d == e,
{
    if d < e {
        lemma_two_pow_mono(d + 1, e);
    } else if e < d {
        lemma_two_pow_mono(e + 1, d);
    }
}

proof fn lemma_two_pow_mono(a: nat, b: nat)
    requires
        a <= b,
    ensures
        two_pow(a) <= two_pow(b),
    decreases b,
{
    if a < b {
        lemma_two_pow_mono(a, (b - 1) as nat);
        assert(two_pow(b) == 2 * two_pow((b - 1) as nat));
    }
}

/// The split depth for the CPUs of this machine.
pub fn default_cross() -> (c: usize)
    ensures
        cross_of_machine(c),
        exists|n: nat| 1 <= n <= usize::MAX && #[trigger] floor_log2(n) == c,
{
    let n = available_cpus();
    let c = cross_for_cpus(n);
    assert(floor_log2(n as nat) == c);
    c
}

} // verus!
