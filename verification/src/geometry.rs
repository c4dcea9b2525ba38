//! Powers of two, base-2 logarithms and the split of an address into
//! block offset, set index and tag.

use vstd::prelude::*;
use vstd::arithmetic::power2::{
    pow2,
    lemma_pow2_pos,
    lemma_pow2_unfold,
    lemma_pow2_adds,
    lemma_pow2_strictly_increases,
    lemma2_to64,
};
use vstd::arithmetic::div_mod::{
    lemma_fundamental_div_mod_converse,
    lemma_div_denominator,
    lemma_fundamental_div_mod,
    lemma_div_pos_is_pos,
};
use vstd::arithmetic::mul::{
    lemma_mul_is_associative,
    lemma_mul_is_commutative,
    lemma_mul_inequality,
    lemma_mul_is_distributive_add,
    lemma_mul_strict_inequality,
};
use vstd::bits::{
    lemma_u64_shr_is_div,
    lemma_u64_shl_is_mul,
    lemma_u64_low_bits_mask_is_mod,
};

verus! {

/// The number of sets of a cache of `cache_size` bytes made of
/// `associativity` ways of `block_size`-byte blocks.
pub open spec fn sets_for(cache_size: nat, block_size: nat, associativity: nat) -> nat {
    cache_size / (block_size * associativity)
}

/// Whether `n` is a power of two (1, 2, 4, ...).
pub open spec fn is_pow2(n: nat) -> bool
    decreases n,
{
    if n == 1 {
        true
    } else if n < 2 || n % 2 != 0 {
        false
    } else {
        is_pow2(n / 2)
    }
}

/// The floor of the base-2 logarithm of `n` (0 for 0 and 1).
pub open spec fn log2(n: nat) -> nat
    decreases n,
{
    if n <= 1 {
        0
    } else {
        1 + log2(n / 2)
    }
}

/// `2^log2(n) <= n < 2^(log2(n) + 1)` for every positive `n`.
pub proof fn lemma_log2_bounds(n: nat)
    requires
        n >= 1,
    ensures
        pow2(log2(n)) <= n < pow2(log2(n) + 1),
    decreases n,
{
    if n <= 1 {
        lemma2_to64();
    } else {
        lemma_log2_bounds(n / 2);
        lemma_pow2_unfold(log2(n));
        lemma_pow2_unfold(log2(n) + 1);
    }
}

/// A power of two is two raised to its logarithm.
pub proof fn lemma_pow2_of_log2(n: nat)
    requires
        is_pow2(n),
    ensures
        pow2(log2(n)) == n,
    decreases n,
{
    if n == 1 {
        lemma2_to64();
    } else {
        lemma_pow2_of_log2(n / 2);
        lemma_pow2_unfold(log2(n));
    }
}

/// Two raised to any exponent is a power of two.
pub proof fn lemma_pow2_is_pow2(e: nat)
    ensures
        is_pow2(pow2(e)),
        log2(pow2(e)) == e,
    decreases e,
{
    if e == 0 {
        lemma2_to64();
    } else {
        lemma_pow2_unfold(e);
        lemma_pow2_pos((e - 1) as nat);
        lemma_pow2_is_pow2((e - 1) as nat);
        assert(pow2(e) / 2 == pow2((e - 1) as nat));
    }
}

/// Returns whether `n` is a power of two.
pub fn power_of_two(n: usize) -> (b: bool)
    ensures
        b == is_pow2(n as nat),
{
    if n == 0 {
        return false;
    }
    let mut m: usize = n;
    while m > 1 && m % 2 == 0
        invariant
            m >= 1,
            is_pow2(m as nat) == is_pow2(n as nat),
        decreases m,
    {
        m = m / 2;
    }
    m == 1
}

/// Returns the floor of the base-2 logarithm of a positive `n`.
pub fn floor_log2(n: usize) -> (r: usize)
    requires
        n > 0,
    ensures
        r == log2(n as nat),
        r < 64,
{
    let mut m: usize = n;
    let mut r: usize = 0;
    proof {
        lemma_log2_bounds(n as nat);
        assert(log2(n as nat) < 64) by {
            lemma2_to64();
            if log2(n as nat) >= 64 {
                lemma_pow2_strictly_increases(64, log2(n as nat));
                vstd::bits::lemma_u64_pow2_no_overflow(63);
                lemma_pow2_unfold(64);
            }
        }
    }
    while m > 1
        invariant
            m >= 1,
            r + log2(m as nat) == log2(n as nat),
            log2(n as nat) < 64,
        decreases m,
    {
        m = m / 2;
        r = r + 1;
    }
    r
}

/// The set that `addr` maps to, for blocks of `2^offset_bits` bytes and `num_sets` sets.
pub open spec fn set_index_of(addr: u64, offset_bits: nat, num_sets: nat) -> int {
    ((addr as nat / pow2(offset_bits)) % num_sets) as int
}

/// The tag of `addr`: the address with its block offset and set index bits removed.
pub open spec fn tag_of(addr: u64, offset_bits: nat, index_bits: nat) -> nat {
    addr as nat / pow2(offset_bits + index_bits)
}

/// The first byte address of the block with `tag` in `set`.
pub open spec fn block_address(tag: nat, set: nat, offset_bits: nat, index_bits: nat) -> nat {
    tag * pow2(offset_bits + index_bits) + set * pow2(offset_bits)
}

/// Splits `addr` into its set index and its tag.
pub fn split_address(addr: u64, offset_bits: usize, index_bits: usize, num_sets: usize) -> (r: (usize, u64))
    requires
        offset_bits + index_bits < 64,
        num_sets == pow2(index_bits as nat),
    ensures
        r.0 as int == set_index_of(addr, offset_bits as nat, num_sets as nat),
        r.0 < num_sets,
        r.1 as nat == tag_of(addr, offset_bits as nat, index_bits as nat),
{
    proof {
        lemma_pow2_pos(index_bits as nat);
    }
    let shifted = addr >> (offset_bits as u64);
    let mask = num_sets as u64 - 1;
    let low = shifted & mask;
    proof {
        lemma_u64_shr_is_div(addr, offset_bits as u64);
        lemma_u64_shr_is_div(addr, (offset_bits + index_bits) as u64);
        lemma_u64_low_bits_mask_is_mod(shifted, index_bits as nat);
        assert(low == shifted % (num_sets as u64));
    }
    let set_index = low as usize;
    let tag = addr >> ((offset_bits + index_bits) as u64);
    (set_index, tag)
}

/// `tag * 2^k` fits in 64 bits.
pub open spec fn tag_fits(tag: nat, shift: nat) -> bool {
    tag * pow2(shift) <= u64::MAX
}

/// Rebuilds the address of the first byte of the block with `tag` in `set`.
pub fn join_address(tag: u64, set: usize, offset_bits: usize, index_bits: usize) -> (r: u64)
    requires
        offset_bits + index_bits < 64,
        set < pow2(index_bits as nat),
        tag_fits(tag as nat, (offset_bits + index_bits) as nat),
    ensures
        r as nat == block_address(tag as nat, set as nat, offset_bits as nat, index_bits as nat),
{
    let k = (offset_bits + index_bits) as u64;
    let o = offset_bits as u64;
    let s = set as u64;
    let hi = tag << k;
    let lo = s << o;
    proof {
        let ob = offset_bits as nat;
        let ib = index_bits as nat;
        lemma_pow2_adds(ob, ib);
        lemma_pow2_pos(ob);
        lemma_pow2_pos(ib);
        lemma_u64_shl_is_mul(tag, k);
        // s * 2^o < 2^ib * 2^o = 2^k <= 2^64
        lemma_mul_strict_inequality(s as int, pow2(ib) as int, pow2(ob) as int);
        lemma_mul_is_commutative(pow2(ib) as int, pow2(ob) as int);
        vstd::bits::lemma_u64_pow2_no_overflow(k as nat);
        lemma_u64_shl_is_mul(s, o);
        assert(lo < (1u64 << k)) by {
            vstd::bits::lemma_u64_shl_is_mul(1u64, k);
        }
        assert(hi & lo == 0) by (bit_vector)
            requires
                hi == tag << k,
                lo < (1u64 << k),
                k < 64,
        ;
        assert((hi & lo == 0) ==> (hi | lo) == hi + lo) by (bit_vector);
    }
    hi | lo
}

/// The set index and the tag of a rebuilt block address are the ones it was
/// built from.
pub proof fn lemma_block_address_splits(tag: nat, set: nat, offset_bits: nat, index_bits: nat)
    requires
        set < pow2(index_bits),
        block_address(tag, set, offset_bits, index_bits) <= u64::MAX,
    ensures
        set_index_of(
            block_address(tag, set, offset_bits, index_bits) as u64,
            offset_bits,
            pow2(index_bits),
        ) == set,
        tag_of(block_address(tag, set, offset_bits, index_bits) as u64, offset_bits, index_bits)
            == tag,
{
    let p = pow2(offset_bits);
    let q = pow2(index_bits);
    let a = block_address(tag, set, offset_bits, index_bits);
    lemma_pow2_pos(offset_bits);
    lemma_pow2_pos(index_bits);
    lemma_pow2_adds(offset_bits, index_bits);
    // a = (tag * q + set) * p
    lemma_mul_is_commutative(p as int, q as int);
    lemma_mul_is_associative(tag as int, q as int, p as int);
    lemma_mul_is_distributive_add(p as int, (tag * q) as int, set as int);
    lemma_mul_is_commutative(p as int, (tag * q + set) as int);
    lemma_mul_is_commutative(p as int, (tag * q) as int);
    lemma_mul_is_commutative(p as int, set as int);
    assert(a == (tag * q + set) * p);
    lemma_fundamental_div_mod_converse(a as int, p as int, (tag * q + set) as int, 0);
    lemma_fundamental_div_mod_converse((tag * q + set) as int, q as int, tag as int, set as int);
    lemma_div_denominator(a as int, p as int, q as int);
}

/// Every address lies in the block that its set index and tag rebuild, and
/// its tag fits above the offset and index bits.
pub proof fn lemma_address_in_block(addr: u64, offset_bits: nat, index_bits: nat)
    ensures
        block_address(
            tag_of(addr, offset_bits, index_bits),
            set_index_of(addr, offset_bits, pow2(index_bits)) as nat,
            offset_bits,
            index_bits,
        ) == addr as nat - addr as nat % pow2(offset_bits),
        tag_fits(tag_of(addr, offset_bits, index_bits), offset_bits + index_bits),
{
    let p = pow2(offset_bits);
    let q = pow2(index_bits);
    lemma_pow2_pos(offset_bits);
    lemma_pow2_pos(index_bits);
    lemma_pow2_adds(offset_bits, index_bits);
    let b = addr as nat / p;
    lemma_fundamental_div_mod(addr as int, p as int);
    lemma_fundamental_div_mod(b as int, q as int);
    lemma_div_denominator(addr as int, p as int, q as int);
    let t = b / q;
    let s = b % q;
    assert(t == tag_of(addr, offset_bits, index_bits));
    lemma_mul_is_commutative(p as int, q as int);
    lemma_mul_is_associative(t as int, q as int, p as int);
    lemma_mul_is_distributive_add(p as int, (q * t) as int, s as int);
    lemma_mul_is_commutative(q as int, t as int);
    lemma_mul_is_commutative(p as int, (t * q + s) as int);
    lemma_mul_is_commutative(p as int, (t * q) as int);
    lemma_mul_is_commutative(p as int, s as int);
    lemma_mul_is_commutative(p as int, b as int);
    assert(t * pow2(offset_bits + index_bits) <= u64::MAX) by {
        lemma_div_pos_is_pos(addr as int, (p * q) as int);
        lemma_fundamental_div_mod(addr as int, (p * q) as int);
        lemma_mul_is_commutative(t as int, (p * q) as int);
    }
}

/// The offset and index bits of any cache that fits in 64-bit addresses
/// leave room for a tag.
pub proof fn lemma_geometry_fits(cache_size: nat, block_size: nat, associativity: nat)
    requires
        block_size >= 1,
        associativity >= 1,
        is_pow2(sets_for(cache_size, block_size, associativity)),
        cache_size <= u64::MAX,
    ensures
        log2(block_size) + log2(sets_for(cache_size, block_size, associativity)) < 64,
{
    let ns = sets_for(cache_size, block_size, associativity);
    let ob = log2(block_size);
    let ib = log2(ns);
    lemma_pow2_of_log2(ns);
    lemma_log2_bounds(block_size);
    lemma_pow2_adds(ob, ib);
    let ways = block_size * associativity;
    assert(ways >= 1) by (nonlinear_arith)
        requires
            block_size >= 1,
            associativity >= 1,
            ways == block_size * associativity,
    ;
    lemma_fundamental_div_mod(cache_size as int, ways as int);
    assert(ns * ways <= cache_size) by {
        vstd::arithmetic::div_mod::lemma_mod_pos_bound(cache_size as int, ways as int);
        lemma_mul_is_commutative(ns as int, ways as int);
    }
    assert(pow2(ob) * ns <= ns * ways) by (nonlinear_arith)
        requires
            pow2(ob) <= block_size,
            ways == block_size * associativity,
            associativity >= 1,
    ;
    if ob + ib >= 64 {
        lemma_pow2_pos(ob + ib);
        if ob + ib > 64 {
            lemma_pow2_strictly_increases(64, ob + ib);
        }
        lemma2_to64();
        vstd::arithmetic::power2::lemma2_to64_rest();
        assert(pow2(64) == 0x10000000000000000);
    }
}

/// A rebuilt block address fits in 64 bits when its tag does.
pub proof fn lemma_block_address_fits(tag: nat, set: nat, offset_bits: nat, index_bits: nat)
    requires
        tag_fits(tag, offset_bits + index_bits),
        set < pow2(index_bits),
        offset_bits + index_bits < 64,
    ensures
        block_address(tag, set, offset_bits, index_bits) <= u64::MAX,
{
    let k = offset_bits + index_bits;
    let unit = pow2(k);
    let rest = pow2((64 - k) as nat);
    lemma_pow2_pos(k);
    lemma_pow2_pos(offset_bits);
    lemma_pow2_adds(k, (64 - k) as nat);
    lemma_pow2_adds(offset_bits, index_bits);
    lemma2_to64();
    vstd::arithmetic::power2::lemma2_to64_rest();
    assert(unit * rest == 0x10000000000000000);
    // tag < rest, since tag * unit < rest * unit
    if tag >= rest {
        lemma_mul_inequality(rest as int, tag as int, unit as int);
        lemma_mul_is_commutative(rest as int, unit as int);
    }
    assert(tag + 1 <= rest);
    lemma_mul_inequality((tag + 1) as int, rest as int, unit as int);
    lemma_mul_is_commutative(rest as int, unit as int);
    assert((tag + 1) * unit == tag * unit + unit) by {
        lemma_mul_is_distributive_add(unit as int, tag as int, 1);
        lemma_mul_is_commutative(unit as int, tag as int);
        lemma_mul_is_commutative(unit as int, (tag + 1) as int);
    }
    lemma_mul_strict_inequality(set as int, pow2(index_bits) as int, pow2(offset_bits) as int);
    lemma_mul_is_commutative(pow2(index_bits) as int, pow2(offset_bits) as int);
}

} // verus!
