//! The four-field binary-search header that directory-style font tables carry.

use vstd::prelude::*;
use vstd::arithmetic::power2::pow2;
use vstd::arithmetic::power2::lemma_pow2_unfold;
use vstd::arithmetic::power2::lemma2_to64;

verus! {

/// Binary-search header of a directory of `count` records of `record_size` bytes.
#[derive(Debug, Clone, Copy, PartialEq, Eq, Structural)]
pub struct BSearch {
    /// Total byte length of the directory.
    pub len: u16,
    /// Largest power-of-two record count not above `count`, in bytes.
    pub search_range: u16,
    /// Base-two logarithm of that record count.
    pub entry_selector: u16,
    /// Bytes of the directory that lie beyond `search_range`.
    pub range_shift: u16,
}

/// Base-two logarithm of `n`, rounded down; 0 for `n <= 1`.
pub open spec fn floor_log2(n: nat) -> nat
    decreases n,
{
    if n <= 1 {
        0
    } else {
        1 + floor_log2(n / 2)
    }
}

/// The largest power of two that does not exceed `n` (for `n >= 1`).
pub open spec fn spec_prev_power_of_two(n: nat) -> nat {
    pow2(floor_log2(n))
}

/// `spec_prev_power_of_two(n)` is the tightest power of two below `n`:
/// it does not exceed `n`, and its double does.
pub proof fn lemma_prev_power_of_two_bounds(n: nat)
    requires
        n >= 1,
    ensures
        spec_prev_power_of_two(n) <= n,
        n < 2 * spec_prev_power_of_two(n),
    decreases n,
{
    if n <= 1 {
        lemma2_to64();
    } else {
        lemma_prev_power_of_two_bounds(n / 2);
        lemma_pow2_unfold(floor_log2(n));
    }
}

/// Only one exponent `k` has `2^k <= n < 2^(k+1)`, and it is `floor_log2(n)`.
pub proof fn lemma_floor_log2_unique(n: nat, k: nat)
    requires
        pow2(k) <= n,
        n < 2 * pow2(k),
    ensures
        k == floor_log2(n),
    decreases k,
{
    if k == 0 {
        lemma2_to64();
    } else {
        lemma_pow2_unfold(k);
        lemma_floor_log2_unique(n / 2, (k - 1) as nat);
    }
}

impl BSearch {
    /// The header as a function of the record count and record size.
    pub open spec fn spec_from(count: nat, record_size: nat) -> (nat, nat, nat, nat) {
        (
            count * record_size,
            spec_prev_power_of_two(count) * record_size,
            floor_log2(count),
            ((count - spec_prev_power_of_two(count)) * record_size) as nat,
        )
    }

    /// For every `count >= 1` the search range is a power of two of records,
    /// at most `count` and more than half of it, and search range and range
    /// shift together cover the whole directory.
    pub proof fn lemma_parameters(count: nat, record_size: nat)
        requires
            count >= 1,
            record_size >= 1,
        ensures
            ({
                let (len, search_range, entry_selector, range_shift) = Self::spec_from(
                    count,
                    record_size,
                );
                let records = search_range / record_size;
                &&& records == pow2(entry_selector)
                &&& records <= count
                &&& records * 2 > count
                &&& range_shift % record_size == 0
                &&& records + range_shift / record_size == count
                &&& len == search_range + range_shift
            }),
    {
        let p = spec_prev_power_of_two(count);
        lemma_prev_power_of_two_bounds(count);
        let d = (count - p) as nat;
        assert((p * record_size) / record_size == p) by (nonlinear_arith)
            requires
                record_size >= 1,
        ;
        assert((d * record_size) / record_size == d && (d * record_size) % record_size == 0)
            by (nonlinear_arith)
            requires
                record_size >= 1,
        ;
        assert(count * record_size == p * record_size + d * record_size) by (nonlinear_arith)
            requires
                count == p + d,
        ;
    }

    /// Computes the header for `len` records of `record_size` bytes each.
    pub fn from(len: u16, record_size: u16) -> (r: BSearch)
        requires
            len > 0,
            len * record_size <= u16::MAX,
        ensures
            (r.len as nat, r.search_range as nat, r.entry_selector as nat, r.range_shift as nat)
                == Self::spec_from(len as nat, record_size as nat),
    {
        let search_range = prev_power_of_two(len);
        proof {
            lemma_prev_power_of_two_bounds(len as nat);
            lemma_floor_log2_unique(search_range as nat, floor_log2(len as nat));
        }
        let entry_selector = ilog2(search_range);
        let range_shift = len - search_range;
        proof {
            assert(search_range * record_size <= len * record_size) by (nonlinear_arith)
                requires
                    search_range <= len,
            ;
            assert(range_shift * record_size <= len * record_size) by (nonlinear_arith)
                requires
                    range_shift <= len,
            ;
        }
        BSearch {
            len: len * record_size,
            search_range: search_range * record_size,
            entry_selector,
            range_shift: range_shift * record_size,
        }
    }
}

/// Returns the largest power of two less than or equal to `num`.
pub fn prev_power_of_two(num: u16) -> (r: u16)
    requires
        num > 0,
    ensures
        r == spec_prev_power_of_two(num as nat),
{
    let mut power: u16 = 1;
    let ghost mut exponent: nat = 0;
    proof {
        lemma2_to64();
    }
    while power <= num / 2
        invariant
            power == pow2(exponent),
            1 <= power <= num,
        decreases num - power,
    {
        proof {
            lemma_pow2_unfold(exponent + 1);
        }
        power = power * 2;
        proof {
            exponent = exponent + 1;
        }
    }
    proof {
        lemma_floor_log2_unique(num as nat, exponent);
    }
    power
}

/// Base-two logarithm of `num`, rounded down.
fn ilog2(num: u16) -> (r: u16)
    requires
        num > 0,
    ensures
        r == floor_log2(num as nat),
        r < 16,
{
    let mut rest: u16 = num;
    let mut log: u16 = 0;
    while rest > 1
        invariant
            rest >= 1,
            log + floor_log2(rest as nat) == floor_log2(num as nat),
            log as nat + rest as nat <= num as nat,
        decreases rest,
    {
        rest = rest / 2;
        log = log + 1;
    }
    proof {
        lemma_prev_power_of_two_bounds(num as nat);
        lemma2_to64();
        if log >= 16 {
            vstd::arithmetic::power2::lemma_pow2_strictly_increases(16, log as nat);
        }
    }
    log
}

} // verus!
