//! The checksum that guards a meta record: the 64-bit FNV-1a hash.
//!
//! Every step of the hash is a bijection on 64-bit words, so a change to one
//! byte of the input always changes the result.

use vstd::prelude::*;

verus! {

/// The word that the hash starts from.
pub const FNV_OFFSET: u64 = 0xcbf2_9ce4_8422_2325;

/// The multiplier of the hash.
pub const FNV_PRIME: u64 = 0x100_0000_01b3;

/// The inverse of `FNV_PRIME` modulo two to the 64.
pub const FNV_PRIME_INVERSE: u64 = 0xce96_5057_aff6_957b;

/// One step of the hash: mix in byte `b`, then multiply modulo two to the 64.
pub open spec fn fnv_step(h: u64, b: u8) -> u64 {
    vstd::wrapping::u64_specs::wrapping_mul(h ^ (b as u64), FNV_PRIME)
}

/// The hash of `s` continued from word `h`.
pub open spec fn fnv_fold(h: u64, s: Seq<u8>) -> u64
    decreases s.len(),
{
    if s.len() == 0 {
        h
    } else {
        fnv_step(fnv_fold(h, s.drop_last()), s.last())
    }
}

/// The checksum of `s`.
pub open spec fn checksum_of(s: Seq<u8>) -> u64 {
    fnv_fold(FNV_OFFSET, s)
}

/// Multiplying by `FNV_PRIME` modulo two to the 64 loses nothing: the
/// factors are equal when the products are.
pub proof fn lemma_prime_multiplication_injective(x: u64, y: u64)
    requires
        vstd::wrapping::u64_specs::wrapping_mul(x, FNV_PRIME)
            == vstd::wrapping::u64_specs::wrapping_mul(y, FNV_PRIME),
    ensures
        x == y,
{
    lemma_prime_multiplication_undone(x);
    lemma_prime_multiplication_undone(y);
}

/// Multiplying by `FNV_PRIME` and then by its inverse gives the number back.
proof fn lemma_prime_multiplication_undone(x: u64)
    ensures
        vstd::wrapping::u64_specs::wrapping_mul(
            vstd::wrapping::u64_specs::wrapping_mul(x, FNV_PRIME),
            FNV_PRIME_INVERSE,
        ) == x,
{
    let m: int = 0x1_0000_0000_0000_0000;
    let p: int = FNV_PRIME as int;
    let q: int = FNV_PRIME_INVERSE as int;
    let k: int = 0xce_9650_590f;
    assert(p * q == 1 + k * m) by (nonlinear_arith)
        requires
            p == 0x100_0000_01b3,
            q == 0xce96_5057_aff6_957b,
            k == 0xce_9650_590f,
            m == 0x1_0000_0000_0000_0000,
    ;
    let a = x as int;
    let once = (a * p) % m;
    assert(((once * q) % m) == ((a * p) * q) % m) by {
        vstd::arithmetic::div_mod::lemma_mul_mod_noop_left(a * p, q, m);
    }
    assert((a * p) * q == a + (a * k) * m) by (nonlinear_arith)
        requires
            p * q == 1 + k * m,
    ;
    assert((a + (a * k) * m) % m == a % m) by {
        vstd::arithmetic::div_mod::lemma_mod_multiples_vanish(a * k, a, m);
    }
    assert(a % m == a) by {
        vstd::arithmetic::div_mod::lemma_small_mod(a as nat, m as nat);
    }
}

/// A step of the hash loses nothing: equal results come from equal mixes of
/// word and byte.
pub proof fn lemma_fnv_step_injective(h1: u64, b1: u8, h2: u64, b2: u8)
    requires
        fnv_step(h1, b1) == fnv_step(h2, b2),
    ensures
        h1 == h2 ==> b1 == b2,
        b1 == b2 ==> h1 == h2,
{
    lemma_prime_multiplication_injective(h1 ^ (b1 as u64), h2 ^ (b2 as u64));
    let x1 = b1 as u64;
    let x2 = b2 as u64;
    assert(h1 ^ x1 == h2 ^ x2 && h1 == h2 ==> x1 == x2) by (bit_vector);
    assert(h1 ^ x1 == h2 ^ x2 && x1 == x2 ==> h1 == h2) by (bit_vector);
}

/// Continuing the hash over `a + b` is continuing it over `a` and then over
/// `b`.
pub proof fn lemma_fnv_fold_concat(h: u64, a: Seq<u8>, b: Seq<u8>)
    ensures
        fnv_fold(h, a + b) == fnv_fold(fnv_fold(h, a), b),
    decreases b.len(),
{
    if b.len() == 0 {
        assert(a + b =~= a);
    } else {
        lemma_fnv_fold_concat(h, a, b.drop_last());
        assert((a + b).drop_last() =~= a + b.drop_last());
    }
}

/// Hashes of equal-length inputs from different words differ.
pub proof fn lemma_fnv_fold_keeps_difference(h1: u64, h2: u64, s: Seq<u8>)
    requires
        h1 != h2,
    ensures
        fnv_fold(h1, s) != fnv_fold(h2, s),
    decreases s.len(),
{
    if s.len() > 0 {
        lemma_fnv_fold_keeps_difference(h1, h2, s.drop_last());
        if fnv_fold(h1, s) == fnv_fold(h2, s) {
            lemma_fnv_step_injective(
                fnv_fold(h1, s.drop_last()),
                s.last(),
                fnv_fold(h2, s.drop_last()),
                s.last(),
            );
        }
    }
}

/// Changing one byte of the input changes the checksum.
pub proof fn lemma_checksum_detects_byte_change(s: Seq<u8>, i: int, b: u8)
    requires
        0 <= i < s.len(),
        b != s[i],
    ensures
        checksum_of(s.update(i, b)) != checksum_of(s),
{
    let t = s.update(i, b);
    let head = s.subrange(0, i);
    let tail = s.subrange(i + 1, s.len() as int);
    assert(s =~= (head + seq![s[i]]) + tail);
    assert(t =~= (head + seq![b]) + tail);
    lemma_fnv_fold_concat(FNV_OFFSET, head + seq![s[i]], tail);
    lemma_fnv_fold_concat(FNV_OFFSET, head + seq![b], tail);
    let h = fnv_fold(FNV_OFFSET, head);
    assert((head + seq![s[i]]).drop_last() =~= head);
    assert((head + seq![b]).drop_last() =~= head);
    let h1 = fnv_fold(FNV_OFFSET, head + seq![s[i]]);
    let h2 = fnv_fold(FNV_OFFSET, head + seq![b]);
    assert(h1 == fnv_step(h, s[i]));
    assert(h2 == fnv_step(h, b));
    if h1 == h2 {
        lemma_fnv_step_injective(h, s[i], h, b);
    }
    lemma_fnv_fold_keeps_difference(h1, h2, tail);
}

/// Continues the hash from word `h` over `data`.
pub fn hash_more(h: u64, data: &[u8]) -> (r: u64)
    ensures
        r == fnv_fold(h, data@),
{
    let mut acc = h;
    let mut i: usize = 0;
    while i < data.len()
        invariant
            i <= data.len(),
            acc == fnv_fold(h, data@.subrange(0, i as int)),
        decreases data.len() - i,
    {
        proof {
            assert(data@.subrange(0, i + 1).drop_last() =~= data@.subrange(0, i as int));
        }
        acc = (acc ^ (data[i] as u64)).wrapping_mul(FNV_PRIME);
        i += 1;
    }
    proof {
        assert(data@.subrange(0, i as int) =~= data@);
    }
    acc
}

/// The checksum of `data`.
pub fn hash(data: &[u8]) -> (r: u64)
    ensures
        r == checksum_of(data@),
{
    hash_more(FNV_OFFSET, data)
}

} // verus!
