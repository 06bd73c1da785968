//! The Thue-Morse sequence, computed directly from the binary representation
//! of each index.

use vstd::prelude::*;
use vstd::arithmetic::power2::{pow2, lemma_pow2_unfold, lemma_pow2_pos, lemma2_to64};
use vstd::bits::{lemma_u64_shl_is_mul, lemma_u64_pow2_no_overflow};

verus! {

/// The number of ones in the binary representation of `n`.
pub open spec fn ones(n: nat) -> nat
    decreases n,
{
    if n == 0 {
        0
    } else {
        ones(n / 2) + n % 2
    }
}

/// A number is odious when its binary representation holds an odd number of ones.
pub open spec fn odious(n: nat) -> bool {
    ones(n) % 2 == 1
}

/// The `i`-th element of the Thue-Morse sequence.
pub open spec fn thue_morse(i: nat) -> u8 {
    if odious(i) { 1 } else { 0 }
}

/// The first `2^k` elements of the Thue-Morse sequence.
pub open spec fn tm_prefix(k: nat) -> Seq<u8> {
    Seq::new(pow2(k), |i: int| thue_morse(i as nat))
}

/// Each 0 turned into 1 and each 1 into 0.
pub open spec fn complement(s: Seq<u8>) -> Seq<u8> {
    s.map_values(|b: u8| (1 - b) as u8)
}

/// Tells whether `n` is odious, by counting the ones of its binary
/// representation modulo two.
pub fn is_odious(n: &u64) -> (r: bool)
    ensures
        r == odious(*n as nat),
{
    let mut num: u64 = *n;
    let mut sum_mod_two: u64 = 0;
    while num != 0
        invariant
            sum_mod_two < 2,
            (ones(num as nat) + sum_mod_two) % 2 == ones(*n as nat) % 2,
        decreases num,
    {
        assert(num & 1 == num % 2) by (bit_vector);
        assert(num >> 1 == num / 2) by (bit_vector);
        sum_mod_two = ((num & 1) + sum_mod_two) % 2;
        num = num >> 1;
    }
    sum_mod_two == 1
}

/// The Thue-Morse sequence of order `num`: its first `2^num` elements, each
/// 0 or 1.
pub fn get_seq(num: u64) -> (r: Vec<u8>)
    requires
        num < 64,
    ensures
        r@ == tm_prefix(num as nat),
{
    proof {
        lemma_u64_pow2_no_overflow(num as nat);
        lemma_u64_shl_is_mul(1, num);
    }
    let limit: u64 = 1u64 << num;
    let mut out: Vec<u8> = Vec::new();
    let mut i: u64 = 0;
    while i < limit
        invariant
            limit == pow2(num as nat),
            i <= limit,
            out@.len() == i,
            forall|j: int| 0 <= j < i ==> out@[j] == thue_morse(j as nat),
        decreases limit - i,
    {
        let output: u8 = if is_odious(&i) { 1 } else { 0 };
        out.push(output);
        i = i + 1;
    }
    assert(out@ =~= tm_prefix(num as nat));
    out
}

/// The Thue-Morse sequence obeys its recurrence: it starts with 0, the element
/// at `2n` equals the element at `n`, and the element at `2n + 1` is its
/// opposite.
pub proof fn lemma_thue_morse_recurrence(n: nat)
    ensures
        thue_morse(0) == 0,
        thue_morse(2 * n) == thue_morse(n),
        thue_morse(2 * n + 1) == 1 - thue_morse(n),
{
    assert((2 * n) / 2 == n);
    assert((2 * n + 1) / 2 == n);
    assert(ones(2 * n) == ones(n) + (2 * n) % 2);
    assert(ones(2 * n + 1) == ones(n) + (2 * n + 1) % 2);
}

/// Setting the bit `k` above a number below `2^k` adds exactly one one.
pub proof fn lemma_ones_high_bit(i: nat, k: nat)
    requires
        i < pow2(k),
    ensures
        ones(i + pow2(k)) == ones(i) + 1,
    decreases k,
{
    if k == 0 {
        lemma2_to64();
        assert(i == 0);
        assert(ones(1) == ones(0) + 1);
    } else {
        lemma_pow2_unfold(k);
        let h = pow2((k - 1) as nat);
        assert(i / 2 < h);
        lemma_ones_high_bit(i / 2, (k - 1) as nat);
        assert((i + pow2(k)) / 2 == i / 2 + h);
        assert((i + pow2(k)) % 2 == i % 2);
        assert(i + pow2(k) != 0);
        assert(ones(i + pow2(k)) == ones((i + pow2(k)) / 2) + (i + pow2(k)) % 2);
    }
}

/// The Thue-Morse sequence of order `k + 1` is the sequence of order `k`
/// followed by its complement.
pub proof fn lemma_tm_prefix_doubles(k: nat)
    ensures
        tm_prefix(k + 1) == tm_prefix(k) + complement(tm_prefix(k)),
{
    lemma_pow2_unfold(k + 1);
    lemma_pow2_pos(k);
    let a = tm_prefix(k);
    let b = tm_prefix(k + 1);
    let c = a + complement(a);
    assert forall|i: int| 0 <= i < b.len() implies b[i] == c[i] by {
        if i >= pow2(k) {
            let j = (i - pow2(k)) as nat;
            lemma_ones_high_bit(j, k);
            assert(j + pow2(k) == i);
        }
    }
    assert(b =~= c);
}

/// A number and its double have the same parity of ones; one more than the
/// double has the opposite parity.
pub proof fn lemma_odious_double(k: nat)
    ensures
        odious(2 * k) == odious(k),
        odious(2 * k + 1) == !odious(k),
{
    lemma_thue_morse_recurrence(k);
}

/// The parity of the ones of `a ^ b` is the sum of the parities of `a` and
/// of `b`: `a ^ b` is odious exactly when one of `a` and `b` is.
pub proof fn lemma_odious_xor(a: u64, b: u64)
    ensures
        odious((a ^ b) as nat) == (odious(a as nat) != odious(b as nat)),
    decreases a as int + b as int,
{
    if a == 0 {
        assert(0u64 ^ b == b) by (bit_vector);
    } else if b == 0 {
        assert(a ^ 0u64 == a) by (bit_vector);
    } else {
        assert((a ^ b) / 2 == (a / 2) ^ (b / 2)) by (bit_vector);
        assert((a ^ b) % 2 == (a % 2 + b % 2) % 2) by (bit_vector);
        lemma_odious_xor(a / 2, b / 2);
        let x = (a ^ b) as nat;
        assert(ones(x) == ones(x / 2) + x % 2);
        assert(ones(a as nat) == ones((a / 2) as nat) + a % 2);
        assert(ones(b as nat) == ones((b / 2) as nat) + b % 2);
    }
}

} // verus!
