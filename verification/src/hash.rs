//! Keyed rolling hash over byte sequences.
//!
//! The engine addresses blocks by a keyed hash of their plaintext and
//! authenticates stored ciphertext with a tag computed by the same family.
//! The multiplier is odd, so a change to a single byte always changes the
//! hash: the difference it induces is `delta * MULT^k` modulo `2^64`, and an
//! odd number is invertible modulo a power of two.

use vstd::arithmetic::div_mod::{
    lemma_add_mod_noop, lemma_fundamental_div_mod, lemma_mod_breakdown, lemma_mod_equivalence,
    lemma_mod_mod, lemma_mul_mod_noop_general, lemma_small_mod,
};
use vstd::arithmetic::mul::{
    lemma_mul_is_commutative, lemma_mul_is_distributive_sub_other_way, lemma_mul_upper_bound,
};
use vstd::arithmetic::power2::{lemma2_to64, lemma_pow2_pos, lemma_pow2_unfold, pow2};
use vstd::prelude::*;

verus! {

/// Multiplier of the rolling hash; odd, so that multiplication by it is
/// invertible modulo `2^64`.
pub const HASH_MULT: u64 = 0x100000001b3;

/// `2^64`, the modulus of all hash arithmetic.
pub open spec fn m64() -> int {
    0x10000000000000000
}

/// One step of the rolling hash: fold one byte into the accumulator.
pub open spec fn hash_step(acc: u64, b: u8) -> u64 {
    ((acc * HASH_MULT + b) % m64()) as u64
}

/// The initial accumulator mixes the key and the input length.
pub open spec fn hash_init(key: u64, n: int) -> u64 {
    ((key * HASH_MULT + n) % m64()) as u64
}

/// Fold a whole byte sequence into an accumulator, front to back.
pub open spec fn hash_fold(acc: u64, s: Seq<u8>) -> u64
    decreases s.len(),
{
    if s.len() == 0 {
        acc
    } else {
        hash_step(hash_fold(acc, s.drop_last()), s.last())
    }
}

/// The keyed hash of a byte sequence: deterministic in `key` and the bytes.
pub open spec fn keyed_hash(key: u64, s: Seq<u8>) -> u64 {
    hash_fold(hash_init(key, s.len() as int), s)
}

const M64_128: u128 = 0x10000000000000000;

fn hash_init_exec(key: u64, n: usize) -> (r: u64)
    ensures
        r == hash_init(key, n as int),
{
    proof {
        lemma_mul_upper_bound(key as int, u64::MAX as int, HASH_MULT as int, HASH_MULT as int);
    }
    ((key as u128 * HASH_MULT as u128 + n as u128) % M64_128) as u64
}

fn hash_step_exec(acc: u64, b: u8) -> (r: u64)
    ensures
        r == hash_step(acc, b),
{
    proof {
        lemma_mul_upper_bound(acc as int, u64::MAX as int, HASH_MULT as int, HASH_MULT as int);
    }
    ((acc as u128 * HASH_MULT as u128 + b as u128) % M64_128) as u64
}

/// Hash `data` under `key`.
pub fn hash_bytes(key: u64, data: &Vec<u8>) -> (h: u64)
    ensures
        h == keyed_hash(key, data@),
{
    let n: usize = data.len();
    let mut acc: u64 = hash_init_exec(key, n);
    let mut i: usize = 0;
    while i < n
        invariant
            n == data@.len(),
            i <= n,
            acc == hash_fold(hash_init(key, n as int), data@.subrange(0, i as int)),
        decreases n - i,
    {
        acc = hash_step_exec(acc, data[i]);
        proof {
            let s = data@;
            assert(s.subrange(0, i + 1).drop_last() =~= s.subrange(0, i as int));
            assert(s.subrange(0, i + 1).last() == s[i as int]);
        }
        i += 1;
    }
    proof {
        assert(data@.subrange(0, n as int) =~= data@);
    }
    acc
}

/// An odd factor cannot absorb a power of two: if `2^e` divides `d * c` and
/// `c` is odd, then `2^e` already divides `d`.
proof fn lemma_odd_factor_mod_pow2(d: int, c: int, e: nat)
    requires
        0 <= d,
        0 < c,
        c % 2 == 1,
        (d * c) % pow2(e) as int == 0,
    ensures
        d % pow2(e) as int == 0,
    decreases e,
{
    lemma_pow2_pos(e);
    if e == 0 {
        assert(pow2(0) == 1) by {
            lemma2_to64();
        }
        assert(d % 1 == 0);
    } else {
        let p = pow2((e - 1) as nat) as int;
        lemma_pow2_pos((e - 1) as nat);
        lemma_pow2_unfold(e);
        assert(pow2(e) as int == 2 * p);
        // The product is even, so d is even.
        lemma_mod_mod(d * c, 2, p);
        assert((d * c) % 2 == 0);
        lemma_mul_mod_noop_general(d, c, 2);
        lemma_small_mod((d % 2) as nat, 2);
        assert((d % 2) * 1 == d % 2);
        assert(d % 2 == 0);
        let d2 = d / 2;
        lemma_fundamental_div_mod(d, 2);
        assert(d == 2 * d2);
        assert(d * c >= 0) by (nonlinear_arith)
            requires
                d >= 0,
                c > 0,
        ;
        lemma_mod_breakdown(d * c, 2, p);
        assert(d * c == 2 * (d2 * c)) by (nonlinear_arith)
            requires
                d == 2 * d2,
        ;
        assert((d * c) / 2 == d2 * c) by (nonlinear_arith)
            requires
                d * c == 2 * (d2 * c),
        ;
        assert((d * c) % 2 == 0);
        assert((d * c) % (2 * p) == 2 * ((d2 * c) % p) + (d * c) % 2);
        assert(2 * ((d2 * c) % p) == 0);
        assert((d2 * c) % p == 0);
        lemma_odd_factor_mod_pow2(d2, c, (e - 1) as nat);
        lemma_mod_breakdown(d, 2, p);
        assert(d % (2 * p) == 2 * (d2 % p) + d % 2);
    }
}

/// Multiplying a nonzero residue by the odd hash multiplier never yields zero
/// modulo `2^64`.
proof fn lemma_mul_odd_nonzero_mod(d: int)
    requires
        0 < d < m64(),
    ensures
        (d * HASH_MULT) % m64() != 0,
{
    assert(pow2(64) == 0x10000000000000000) by {
        lemma2_to64();
    }
    assert(HASH_MULT as int % 2 == 1);
    if (d * HASH_MULT) % m64() == 0 {
        lemma_odd_factor_mod_pow2(d, HASH_MULT as int, 64);
        lemma_small_mod(d as nat, m64() as nat);
        assert(false);
    }
}

/// A hash step is injective in the accumulator.
proof fn lemma_step_inj_acc(x: u64, y: u64, b: u8)
    requires
        x != y,
    ensures
        hash_step(x, b) != hash_step(y, b),
{
    if hash_step(x, b) == hash_step(y, b) {
        let a1 = x * HASH_MULT + b;
        let a2 = y * HASH_MULT + b;
        lemma_mod_equivalence(a1, a2, m64());
        assert(a1 % m64() == a2 % m64());
        assert((a1 - a2) % m64() == 0);
        lemma_mul_is_distributive_sub_other_way(HASH_MULT as int, x as int, y as int);
        lemma_mul_is_commutative(x as int, HASH_MULT as int);
        lemma_mul_is_commutative(y as int, HASH_MULT as int);
        lemma_mul_is_commutative((x - y) as int, HASH_MULT as int);
        assert(a1 - a2 == (x - y) * HASH_MULT);
        if x > y {
            lemma_mul_odd_nonzero_mod(x - y);
            assert(false);
        } else {
            lemma_mod_equivalence(a2, a1, m64());
            assert((a2 - a1) % m64() == 0);
            lemma_mul_is_distributive_sub_other_way(HASH_MULT as int, y as int, x as int);
            lemma_mul_is_commutative((y - x) as int, HASH_MULT as int);
            assert(a2 - a1 == (y - x) * HASH_MULT);
            lemma_mul_odd_nonzero_mod(y - x);
            assert(false);
        }
    }
}

/// A hash step is injective in the byte it folds in.
proof fn lemma_step_inj_byte(acc: u64, b1: u8, b2: u8)
    requires
        b1 != b2,
    ensures
        hash_step(acc, b1) != hash_step(acc, b2),
{
    if hash_step(acc, b1) == hash_step(acc, b2) {
        let a1 = acc * HASH_MULT + b1;
        let a2 = acc * HASH_MULT + b2;
        lemma_mod_equivalence(a1, a2, m64());
        assert((a1 - a2) % m64() == 0);
        if b1 > b2 {
            lemma_small_mod((b1 - b2) as nat, m64() as nat);
            assert(false);
        } else {
            lemma_mod_equivalence(a2, a1, m64());
            lemma_small_mod((b2 - b1) as nat, m64() as nat);
            assert(false);
        }
    }
}

/// Folding the same tail from different accumulators keeps them different.
proof fn lemma_fold_inj(x: u64, y: u64, t: Seq<u8>)
    requires
        x != y,
    ensures
        hash_fold(x, t) != hash_fold(y, t),
    decreases t.len(),
{
    if t.len() > 0 {
        lemma_fold_inj(x, y, t.drop_last());
        lemma_step_inj_acc(hash_fold(x, t.drop_last()), hash_fold(y, t.drop_last()), t.last());
    }
}

proof fn lemma_fold_one_byte_diff(a: u64, s1: Seq<u8>, s2: Seq<u8>, j: int)
    requires
        s1.len() == s2.len(),
        0 <= j < s1.len(),
        s1[j] != s2[j],
        forall|i: int| 0 <= i < s1.len() && i != j ==> s1[i] == s2[i],
    ensures
        hash_fold(a, s1) != hash_fold(a, s2),
    decreases s1.len(),
{
    if j == s1.len() - 1 {
        assert(s1.drop_last() =~= s2.drop_last());
        lemma_step_inj_byte(hash_fold(a, s1.drop_last()), s1.last(), s2.last());
    } else {
        lemma_fold_one_byte_diff(a, s1.drop_last(), s2.drop_last(), j);
        assert(s1.last() == s2.last());
        lemma_step_inj_acc(
            hash_fold(a, s1.drop_last()),
            hash_fold(a, s2.drop_last()),
            s1.last(),
        );
    }
}

/// Sequences of equal length that differ in exactly one byte never share a
/// keyed hash: a single-byte change is always detected.
pub proof fn lemma_hash_one_byte_diff(key: u64, s1: Seq<u8>, s2: Seq<u8>, j: int)
    requires
        s1.len() == s2.len(),
        0 <= j < s1.len(),
        s1[j] != s2[j],
        forall|i: int| 0 <= i < s1.len() && i != j ==> s1[i] == s2[i],
    ensures
        keyed_hash(key, s1) != keyed_hash(key, s2),
{
    lemma_fold_one_byte_diff(hash_init(key, s1.len() as int), s1, s2, j);
}

} // verus!
