//! Integer codecs: fixed-width little-endian integers, LEB128, and the
//! page-local variable-length integer.

use vstd::prelude::*;
use crate::errors::Error;

verus! {

/// `256` to the power `n`.
pub open spec fn pow256(n: nat) -> nat
    decreases n,
{
    if n == 0 {
        1
    } else {
        256 * pow256((n - 1) as nat)
    }
}

/// The `n` low bytes of `v`, least significant first.
pub open spec fn le_bytes(v: nat, n: nat) -> Seq<u8>
    decreases n,
{
    if n == 0 {
        Seq::empty()
    } else {
        seq![(v % 256) as u8] + le_bytes(v / 256, (n - 1) as nat)
    }
}

/// The number whose little-endian bytes are `s`.
pub open spec fn le_value(s: Seq<u8>) -> nat
    decreases s.len(),
{
    if s.len() == 0 {
        0
    } else {
        s[0] as nat + 256 * le_value(s.drop_first())
    }
}

/// `le_bytes` yields exactly `n` bytes.
pub proof fn lemma_le_bytes_len(v: nat, n: nat)
    ensures
        le_bytes(v, n).len() == n,
    decreases n,
{
    if n > 0 {
        lemma_le_bytes_len(v / 256, (n - 1) as nat);
    }
}

/// Reading back what `le_bytes` wrote gives the number again, as far as it
/// fits into `n` bytes.
pub proof fn lemma_le_value_of_bytes(v: nat, n: nat)
    ensures
        le_value(le_bytes(v, n)) == v % pow256(n),
    decreases n,
{
    if n == 0 {
    } else {
        let rest = le_bytes(v / 256, (n - 1) as nat);
        let s = le_bytes(v, n);
        lemma_le_value_of_bytes(v / 256, (n - 1) as nat);
        assert(s.drop_first() =~= rest);
        let p = pow256((n - 1) as nat);
        lemma_pow256_positive((n - 1) as nat);
        assert(v % (256 * p) == (v % 256) + 256 * ((v / 256) % p)) by {
            vstd::arithmetic::div_mod::lemma_breakdown(v as int, 256, p as int);
        }
    }
}

/// `pow256` is never zero.
pub proof fn lemma_pow256_positive(n: nat)
    ensures
        pow256(n) > 0,
    decreases n,
{
    if n > 0 {
        lemma_pow256_positive((n - 1) as nat);
    }
}


/// `le_value` stays below `256` to the power of the number of bytes.
pub proof fn lemma_le_value_bound(s: Seq<u8>)
    ensures
        le_value(s) < pow256(s.len()),
    decreases s.len(),
{
    if s.len() > 0 {
        lemma_le_value_bound(s.drop_first());
    }
}

/// Writing out the value of `s` in as many bytes as `s` has gives `s` again.
pub proof fn lemma_le_bytes_of_value(s: Seq<u8>)
    ensures
        le_bytes(le_value(s), s.len()) == s,
    decreases s.len(),
{
    if s.len() > 0 {
        lemma_le_bytes_of_value(s.drop_first());
        assert(le_bytes(le_value(s), s.len()) =~= s);
    }
}

/// The first powers of 256, spelled out.
pub proof fn lemma_pow256_values()
    ensures
        pow256(0) == 1,
        pow256(1) == 0x100,
        pow256(2) == 0x1_0000,
        pow256(3) == 0x100_0000,
        pow256(4) == 0x1_0000_0000,
        pow256(5) == 0x100_0000_0000,
        pow256(6) == 0x1_0000_0000_0000,
        pow256(7) == 0x100_0000_0000_0000,
        pow256(8) == 0x1_0000_0000_0000_0000,
{
    reveal_with_fuel(pow256, 10);
}

/// Byte `i` of `le_bytes(v, n)` is the `i`-th base-256 digit of `v`.
pub proof fn lemma_le_bytes_index(v: nat, n: nat, i: nat)
    requires
        i < n,
    ensures
        le_bytes(v, n).len() == n,
        le_bytes(v, n)[i as int] == ((v / pow256(i)) % 256) as u8,
    decreases n,
{
    lemma_le_bytes_len(v, n);
    let rest = le_bytes(v / 256, (n - 1) as nat);
    assert(le_bytes(v, n) == seq![(v % 256) as u8] + rest);
    if i > 0 {
        lemma_le_bytes_index(v / 256, (n - 1) as nat, (i - 1) as nat);
        let p = pow256((i - 1) as nat);
        lemma_pow256_positive((i - 1) as nat);
        assert((v / 256) / p == v / (256 * p)) by {
            vstd::arithmetic::div_mod::lemma_div_denominator(v as int, 256, p as int);
        }
        assert(pow256(i) == 256 * p);
        assert(le_bytes(v, n)[i as int] == rest[i - 1]);
    } else {
        assert(pow256(0) == 1);
        assert(v / 1 == v);
    }
}

/// `s` with the bytes from `at` on replaced by `w`, as far as `w` reaches.
pub open spec fn overwrite(s: Seq<u8>, at: int, w: Seq<u8>) -> Seq<u8>
    recommends
        0 <= at,
        at + w.len() <= s.len(),
{
    s.subrange(0, at) + w + s.subrange(at + w.len(), s.len() as int)
}

/// Writes the `n` low bytes of `v` into `buf` from `offset` on, least
/// significant first.
pub fn put_le(buf: &mut Vec<u8>, offset: usize, v: u64, n: usize)
    requires
        n <= 8,
        offset + n <= old(buf).len(),
    ensures
        final(buf)@ == overwrite(old(buf)@, offset as int, le_bytes(v as nat, n as nat)),
{
    let ghost before = buf@;
    let mut rest: u64 = v;
    let mut i: usize = 0;
    assert(pow256(0) == 1 && (v as nat) / 1 == v as nat);
    proof {
        lemma_le_bytes_len(v as nat, n as nat);
    }
    while i < n
        invariant
            i <= n <= 8,
            offset + n <= buf.len(),
            buf.len() == before.len(),
            le_bytes(v as nat, n as nat).len() == n,
            rest as nat == (v as nat) / pow256(i as nat),
            forall|j: int| 0 <= j < offset ==> buf@[j] == before[j],
            forall|j: int| offset + i <= j < buf.len() ==> buf@[j] == before[j],
            forall|j: int|
                0 <= j < i ==> buf@[offset + j] == #[trigger] le_bytes(v as nat, n as nat)[j],
        decreases n - i,
    {
        proof {
            lemma_le_bytes_index(v as nat, n as nat, i as nat);
            lemma_pow256_positive(i as nat);
            vstd::arithmetic::div_mod::lemma_div_denominator(
                v as int,
                pow256(i as nat) as int,
                256,
            );
            assert(pow256((i + 1) as nat) == 256 * pow256(i as nat));
            assert(pow256(i as nat) * 256 == 256 * pow256(i as nat));
        }
        buf[offset + i] = (rest % 256) as u8;
        rest = rest / 256;
        i += 1;
    }
    proof {
        lemma_le_bytes_len(v as nat, n as nat);
        assert(buf@ =~= overwrite(before, offset as int, le_bytes(v as nat, n as nat)));
    }
}

/// Appends the `n` low bytes of `v` to `out`, least significant first.
pub fn push_le(out: &mut Vec<u8>, v: u64, n: usize)
    requires
        n <= 8,
    ensures
        final(out)@ == old(out)@ + le_bytes(v as nat, n as nat),
{
    let ghost before = out@;
    let mut rest: u64 = v;
    let mut i: usize = 0;
    assert(pow256(0) == 1 && (v as nat) / 1 == v as nat);
    proof {
        lemma_le_bytes_len(v as nat, n as nat);
    }
    while i < n
        invariant
            i <= n <= 8,
            le_bytes(v as nat, n as nat).len() == n,
            rest as nat == (v as nat) / pow256(i as nat),
            out@ == before + le_bytes(v as nat, n as nat).subrange(0, i as int),
        decreases n - i,
    {
        proof {
            lemma_le_bytes_index(v as nat, n as nat, i as nat);
            lemma_pow256_positive(i as nat);
            vstd::arithmetic::div_mod::lemma_div_denominator(
                v as int,
                pow256(i as nat) as int,
                256,
            );
            assert(pow256((i + 1) as nat) == 256 * pow256(i as nat));
            assert(pow256(i as nat) * 256 == 256 * pow256(i as nat));
        }
        let ghost sofar = out@;
        out.push((rest % 256) as u8);
        proof {
            let full = le_bytes(v as nat, n as nat);
            assert(out@ =~= before + full.subrange(0, i + 1));
        }
        rest = rest / 256;
        i += 1;
    }
    proof {
        let full = le_bytes(v as nat, n as nat);
        assert(full.subrange(0, n as int) =~= full);
    }
}

/// Copies `src` into `dst` from `offset` on.
pub fn copy_into(dst: &mut Vec<u8>, offset: usize, src: &[u8])
    requires
        offset + src@.len() <= old(dst)@.len(),
    ensures
        final(dst)@ == overwrite(old(dst)@, offset as int, src@),
{
    let ghost before = dst@;
    let mut i: usize = 0;
    while i < src.len()
        invariant
            i <= src.len(),
            offset + src@.len() <= dst.len(),
            dst.len() == before.len(),
            dst@ == overwrite(before, offset as int, src@.subrange(0, i as int)),
        decreases src.len() - i,
    {
        let ghost sofar = dst@;
        dst[offset + i] = src[i];
        proof {
            assert(dst@ =~= overwrite(before, offset as int, src@.subrange(0, i + 1)));
        }
        i += 1;
    }
    proof {
        assert(src@.subrange(0, i as int) =~= src@);
    }
}

/// Appends `src` to `out`.
pub fn append_bytes(out: &mut Vec<u8>, src: &[u8])
    ensures
        final(out)@ == old(out)@ + src@,
{
    let ghost before = out@;
    let mut i: usize = 0;
    while i < src.len()
        invariant
            i <= src.len(),
            out@ == before + src@.subrange(0, i as int),
        decreases src.len() - i,
    {
        out.push(src[i]);
        proof {
            assert(out@ =~= before + src@.subrange(0, i + 1));
        }
        i += 1;
    }
    proof {
        assert(src@.subrange(0, i as int) =~= src@);
    }
}

/// `n` bytes that are all zero.
pub open spec fn zeros(n: nat) -> Seq<u8> {
    Seq::new(n, |i: int| 0u8)
}

/// Appends `n` zero bytes to `out`.
pub fn append_zeros(out: &mut Vec<u8>, n: usize)
    ensures
        final(out)@ == old(out)@ + zeros(n as nat),
{
    let ghost before = out@;
    let mut i: usize = 0;
    while i < n
        invariant
            i <= n,
            out@ == before + zeros(i as nat),
        decreases n - i,
    {
        out.push(0);
        proof {
            assert(out@ =~= before + zeros((i + 1) as nat));
        }
        i += 1;
    }
}

/// Reads the `n` bytes of `buf` from `offset` on as a little-endian number.
pub fn get_le(buf: &[u8], offset: usize, n: usize) -> (v: u64)
    requires
        n <= 8,
        offset + n <= buf.len(),
    ensures
        v as nat == le_value(buf@.subrange(offset as int, offset + n)),
{
    let mut acc: u64 = 0;
    let mut i: usize = 0;
    while i < n
        invariant
            i <= n <= 8,
            offset + n <= buf.len(),
            acc as nat == le_value(buf@.subrange(offset + n - i, offset + n)),
        decreases n - i,
    {
        let ghost tail = buf@.subrange(offset + n - i, offset + n);
        let ghost next = buf@.subrange(offset + n - i - 1, offset + n);
        proof {
            lemma_le_value_bound(tail);
            lemma_pow256_values();
            lemma_pow256_monotonic(i as nat, 7);
            assert(next.drop_first() =~= tail);
        }
        acc = acc * 256 + buf[offset + n - i - 1] as u64;
        i += 1;
    }
    acc
}

/// An unsigned integer that is stored in a fixed number of bytes.
pub trait FixedInt: Copy {
    /// The number of bytes that a value takes.
    spec fn spec_width() -> nat;

    /// The number that a value stands for.
    spec fn spec_value(self) -> nat;

    /// The value that stands for a number.
    spec fn spec_from(v: nat) -> Self;

    /// A value takes one to eight bytes, its number fits into them, and
    /// numbers and values correspond one to one.
    proof fn lemma_fixed_int(x: Self, v: nat)
        ensures
            1 <= Self::spec_width() <= 8,
            x.spec_value() < pow256(Self::spec_width()),
            Self::spec_from(x.spec_value()) == x,
            v < pow256(Self::spec_width()) ==> Self::spec_from(v).spec_value() == v,
    ;

    /// The number of bytes that a value takes.
    fn width() -> (w: usize)
        ensures
            w == Self::spec_width(),
            1 <= w <= 8,
    ;

    /// The number that this value stands for.
    fn value(self) -> (v: u64)
        ensures
            v == self.spec_value(),
    ;

    /// The value that stands for `v`.
    fn from_value(v: u64) -> (r: Self)
        requires
            v < pow256(Self::spec_width()),
        ensures
            r == Self::spec_from(v as nat),
    ;
}

impl FixedInt for u8 {
    open spec fn spec_width() -> nat {
        1
    }

    open spec fn spec_value(self) -> nat {
        self as nat
    }

    open spec fn spec_from(v: nat) -> Self {
        v as u8
    }

    proof fn lemma_fixed_int(x: Self, v: nat) {
        lemma_pow256_values();
    }

    fn width() -> (w: usize) {
        1
    }

    fn value(self) -> (v: u64) {
        self as u64
    }

    fn from_value(v: u64) -> (r: Self) {
        proof {
            lemma_pow256_values();
        }
        v as u8
    }
}

impl FixedInt for u16 {
    open spec fn spec_width() -> nat {
        2
    }

    open spec fn spec_value(self) -> nat {
        self as nat
    }

    open spec fn spec_from(v: nat) -> Self {
        v as u16
    }

    proof fn lemma_fixed_int(x: Self, v: nat) {
        lemma_pow256_values();
    }

    fn width() -> (w: usize) {
        2
    }

    fn value(self) -> (v: u64) {
        self as u64
    }

    fn from_value(v: u64) -> (r: Self) {
        proof {
            lemma_pow256_values();
        }
        v as u16
    }
}

impl FixedInt for u32 {
    open spec fn spec_width() -> nat {
        4
    }

    open spec fn spec_value(self) -> nat {
        self as nat
    }

    open spec fn spec_from(v: nat) -> Self {
        v as u32
    }

    proof fn lemma_fixed_int(x: Self, v: nat) {
        lemma_pow256_values();
    }

    fn width() -> (w: usize) {
        4
    }

    fn value(self) -> (v: u64) {
        self as u64
    }

    fn from_value(v: u64) -> (r: Self) {
        proof {
            lemma_pow256_values();
        }
        v as u32
    }
}

impl FixedInt for u64 {
    open spec fn spec_width() -> nat {
        8
    }

    open spec fn spec_value(self) -> nat {
        self as nat
    }

    open spec fn spec_from(v: nat) -> Self {
        v as u64
    }

    proof fn lemma_fixed_int(x: Self, v: nat) {
        lemma_pow256_values();
    }

    fn width() -> (w: usize) {
        8
    }

    fn value(self) -> (v: u64) {
        self
    }

    fn from_value(v: u64) -> (r: Self) {
        v
    }
}

/// The bytes that stand for `v`: its number, least significant byte first,
/// in as many bytes as its type takes.
pub open spec fn fixed_bytes<T: FixedInt>(v: T) -> Seq<u8> {
    le_bytes(v.spec_value(), T::spec_width())
}

/// The value that the first bytes of `s` stand for.
pub open spec fn fixed_value<T: FixedInt>(s: Seq<u8>) -> T {
    T::spec_from(le_value(s.subrange(0, T::spec_width() as int)))
}

/// A value read back from its own bytes is the value that was written,
/// whatever follows those bytes.
pub proof fn lemma_fixed_roundtrip<T: FixedInt>(v: T, rest: Seq<u8>)
    ensures
        fixed_bytes(v).len() == T::spec_width(),
        fixed_value::<T>(fixed_bytes(v) + rest) == v,
{
    let w = T::spec_width();
    let n = v.spec_value();
    T::lemma_fixed_int(v, n);
    lemma_le_bytes_len(n, w);
    lemma_le_value_of_bytes(n, w);
    assert((fixed_bytes(v) + rest).subrange(0, w as int) =~= fixed_bytes(v));
    assert(n % pow256(w) == n) by {
        vstd::arithmetic::div_mod::lemma_small_mod(n, pow256(w));
    }
}

/// Reads a value from the start of `p`. Fails with `PageOutOfBounds` when `p`
/// is shorter than the value.
pub fn from_ptr<T: FixedInt>(p: &[u8]) -> (r: Result<T, Error>)
    ensures
        T::spec_width() <= p@.len() ==> r == Ok::<T, Error>(fixed_value::<T>(p@)),
        T::spec_width() > p@.len() ==> r == Err::<T, Error>(Error::PageOutOfBounds),
{
    let r = from_ptr_with_offset::<T>(p, 0);
    proof {
        assert(p@.skip(0) =~= p@);
    }
    r
}

/// Reads a value from `p`, `offset` bytes in. Fails with `PageOutOfBounds`
/// when the value does not lie inside `p`.
pub fn from_ptr_with_offset<T: FixedInt>(p: &[u8], offset: u64) -> (r: Result<T, Error>)
    ensures
        offset + T::spec_width() <= p@.len() ==> r == Ok::<T, Error>(
            fixed_value::<T>(p@.skip(offset as int)),
        ),
        offset + T::spec_width() > p@.len() ==> r == Err::<T, Error>(Error::PageOutOfBounds),
{
    let w = T::width();
    let len = p.len();
    if offset > len as u64 || w > len - offset as usize {
        return Err(Error::PageOutOfBounds);
    }
    let at = offset as usize;
    let raw = get_le(p, at, w);
    proof {
        let part = p@.subrange(at as int, at + w);
        assert(p@.skip(offset as int).subrange(0, w as int) =~= part);
        lemma_le_value_bound(part);
    }
    Ok(T::from_value(raw))
}

/// Writes `v` at the start of `p`. Fails with `PageOutOfBounds`, and leaves
/// `p` as it was, when `p` is shorter than the value.
pub fn encode<T: FixedInt>(p: &mut Vec<u8>, v: T) -> (r: Result<(), Error>)
    ensures
        T::spec_width() <= old(p)@.len() ==> r == Ok::<(), Error>(()) && final(p)@ == overwrite(
            old(p)@,
            0,
            fixed_bytes(v),
        ),
        T::spec_width() > old(p)@.len() ==> r == Err::<(), Error>(Error::PageOutOfBounds)
            && final(p)@ == old(p)@,
{
    encode_with_offset(p, 0, v)
}

/// Writes `v` into `p`, `offset` bytes in. Fails with `PageOutOfBounds`, and
/// leaves `p` as it was, when the value would not lie inside `p`.
pub fn encode_with_offset<T: FixedInt>(p: &mut Vec<u8>, offset: u64, v: T) -> (r: Result<
    (),
    Error,
>)
    ensures
        offset + T::spec_width() <= old(p)@.len() ==> r == Ok::<(), Error>(()) && final(p)@
            == overwrite(old(p)@, offset as int, fixed_bytes(v)),
        offset + T::spec_width() > old(p)@.len() ==> r == Err::<(), Error>(
            Error::PageOutOfBounds,
        ) && final(p)@ == old(p)@,
{
    let w = T::width();
    let len = p.len();
    if offset > len as u64 || w > len - offset as usize {
        return Err(Error::PageOutOfBounds);
    }
    proof {
        T::lemma_fixed_int(v, 0);
    }
    put_le(p, offset as usize, v.value(), w);
    Ok(())
}

/// `128` to the power `n`.
pub open spec fn pow128(n: nat) -> nat
    decreases n,
{
    if n == 0 {
        1
    } else {
        128 * pow128((n - 1) as nat)
    }
}

/// The LEB128 encoding of `v`: seven bits to a byte, least significant group
/// first, and the top bit set on every byte but the last.
pub open spec fn leb_bytes(v: nat) -> Seq<u8>
    decreases v,
{
    if v < 128 {
        seq![v as u8]
    } else {
        seq![(v % 128 + 128) as u8] + leb_bytes(v / 128)
    }
}

/// The number of bytes in the LEB128 encoding of `v`.
pub open spec fn leb_len(v: nat) -> nat
    decreases v,
{
    if v < 128 {
        1
    } else {
        1 + leb_len(v / 128)
    }
}

/// Where the LEB128 group that starts `s` ends, searching from byte `i` on:
/// one past the first byte with a clear top bit, or `None` if there is none.
pub open spec fn leb_span(s: Seq<u8>, i: nat) -> Option<nat>
    decreases s.len() - i,
{
    if i >= s.len() {
        None
    } else if s[i as int] < 128 {
        Some(i + 1)
    } else {
        leb_span(s, i + 1)
    }
}

/// The number that the low seven bits of the first `n` bytes of `s` spell.
pub open spec fn leb_sum(s: Seq<u8>, n: nat) -> nat
    decreases n,
{
    if n == 0 {
        0
    } else {
        leb_sum(s, (n - 1) as nat) + (s[n - 1] % 128) as nat * pow128((n - 1) as nat)
    }
}

/// `leb_bytes` and `leb_len` agree.
pub proof fn lemma_leb_bytes_len(v: nat)
    ensures
        leb_bytes(v).len() == leb_len(v),
    decreases v,
{
    if v >= 128 {
        lemma_leb_bytes_len(v / 128);
    }
}

/// A number below `128` to the `k` takes at most `k` bytes.
pub proof fn lemma_leb_len_bound(v: nat, k: nat)
    requires
        k >= 1,
        v < pow128(k),
    ensures
        leb_len(v) <= k,
    decreases k,
{
    if v >= 128 {
        assert(pow128(1) == 128) by {
            reveal_with_fuel(pow128, 2);
        }
        assert(k >= 2);
        lemma_leb_len_bound(v / 128, (k - 1) as nat);
    }
}

/// The first powers of 128 that matter for 64-bit numbers.
pub proof fn lemma_pow128_values()
    ensures
        pow128(0) == 1,
        pow128(1) == 0x80,
        pow128(8) == 0x100_0000_0000_0000,
        pow128(9) == 0x8000_0000_0000_0000,
        pow128(10) == 0x40_0000_0000_0000_0000,
{
    reveal_with_fuel(pow128, 11);
}

/// `pow128` grows with its exponent.
pub proof fn lemma_pow128_monotonic(a: nat, b: nat)
    requires
        a <= b,
    ensures
        pow128(a) <= pow128(b),
    decreases b,
{
    if a < b {
        lemma_pow128_monotonic(a, (b - 1) as nat);
    }
}

/// The sum over a group that starts with byte `b` is the low seven bits of
/// `b` plus 128 times the sum over the rest.
pub proof fn lemma_leb_sum_front(b: u8, t: Seq<u8>, n: nat)
    requires
        n <= t.len(),
    ensures
        leb_sum(seq![b] + t, n + 1) == (b % 128) as nat + 128 * leb_sum(t, n),
    decreases n,
{
    let s = seq![b] + t;
    if n == 0 {
        assert(leb_sum(s, 0) == 0);
        assert(pow128(0) == 1);
        assert(leb_sum(s, 1) == leb_sum(s, 0) + (s[0] % 128) as nat * pow128(0));
    } else {
        lemma_leb_sum_front(b, t, (n - 1) as nat);
        assert(s[n as int] == t[n - 1]);
        let d = (t[n - 1] % 128) as nat;
        let q = pow128((n - 1) as nat);
        assert(pow128(n) == 128 * q);
        assert(d * (128 * q) == 128 * (d * q)) by (nonlinear_arith);
    }
}

/// Decoding undoes encoding: in the bytes of `v`, whatever follows them, the
/// group ends where the encoding ends and spells `v`.
pub proof fn lemma_leb_roundtrip(v: nat, rest: Seq<u8>)
    ensures
        leb_span(leb_bytes(v) + rest, 0) == Some(leb_len(v)),
        leb_sum(leb_bytes(v) + rest, leb_len(v)) == v,
    decreases v,
{
    let s = leb_bytes(v) + rest;
    if v < 128 {
        assert(s[0] == v as u8);
        assert(leb_sum(s, 0) == 0);
        assert(pow128(0) == 1);
        assert(leb_sum(s, 1) == leb_sum(s, 0) + (s[0] % 128) as nat * pow128(0));
    } else {
        let b = (v % 128 + 128) as u8;
        let t = leb_bytes(v / 128) + rest;
        lemma_leb_roundtrip(v / 128, rest);
        lemma_leb_bytes_len(v / 128);
        assert(s =~= seq![b] + t);
        lemma_leb_span_front(b, t, 0);
        lemma_leb_sum_front(b, t, leb_len(v / 128));
        assert((b % 128) as nat == v % 128);
        assert(leb_len(v) == leb_len(v / 128) + 1);
    }
}

/// A byte with its top bit set in front of `t` moves the end of the group by
/// one.
pub proof fn lemma_leb_span_front(b: u8, t: Seq<u8>, i: nat)
    requires
        b >= 128,
    ensures
        leb_span(seq![b] + t, i + 1) == match leb_span(t, i) {
            Some(n) => Some(n + 1),
            None => None,
        },
        i == 0 ==> leb_span(seq![b] + t, 0) == leb_span(seq![b] + t, 1),
    decreases t.len() - i,
{
    let s = seq![b] + t;
    if i < t.len() {
        assert(s[i as int + 1] == t[i as int]);
        if t[i as int] >= 128 {
            lemma_leb_span_front(b, t, i + 1);
        }
    }
    if i == 0 {
        assert(s[0] == b);
    }
}

/// The sum over `n` bytes stays below `128` to the `n`.
pub proof fn lemma_leb_sum_bound(s: Seq<u8>, n: nat)
    ensures
        leb_sum(s, n) < pow128(n),
    decreases n,
{
    if n > 0 {
        lemma_leb_sum_bound(s, (n - 1) as nat);
        let d = (s[n - 1] % 128) as nat;
        let q = pow128((n - 1) as nat);
        assert(d * q <= 127 * q) by (nonlinear_arith)
            requires
                d <= 127,
        ;
    }
}

/// The most bytes of a LEB128 group that is read as a 64-bit number.
pub const LEB_MAX_BYTES: usize = 10;

/// What reading the LEB128 number at the start of `s` gives as a 64-bit
/// number: the low 64 bits of what the group spells, when the group has no
/// more than `LEB_MAX_BYTES` bytes; `ValueTooLarge` when it has more; and
/// `PageOutOfBounds` when `s` ends before the group does.
pub open spec fn leb_value(s: Seq<u8>) -> Result<u64, Error> {
    match leb_span(s, 0) {
        Some(n) => if n <= LEB_MAX_BYTES {
            Ok((leb_sum(s, n) % 0x1_0000_0000_0000_0000) as u64)
        } else {
            Err(Error::ValueTooLarge)
        },
        None => Err(Error::PageOutOfBounds),
    }
}

/// Reading finds the number that was written, whatever follows its bytes.
pub proof fn lemma_leb_value_read_back(v: u64, rest: Seq<u8>)
    ensures
        leb_value(leb_bytes(v as nat) + rest) == Ok::<u64, Error>(v),
{
    lemma_leb_roundtrip(v as nat, rest);
    lemma_pow128_values();
    lemma_leb_len_bound(v as nat, 10);
}

/// Writes `v` at the start of `p` in LEB128 and returns the place of the
/// last byte written, which is one less than the number of bytes written.
/// Fails with `PageOutOfBounds`, and leaves `p` as it was, when `p` is too
/// short for the encoding.
pub fn encode_leb_u64(p: &mut Vec<u8>, v: u64) -> (r: Result<u64, Error>)
    ensures
        1 <= leb_len(v as nat) <= LEB_MAX_BYTES,
        leb_len(v as nat) <= old(p)@.len() ==> r == Ok::<u64, Error>(
            (leb_len(v as nat) - 1) as u64,
        ) && final(p)@ == overwrite(old(p)@, 0, leb_bytes(v as nat)),
        leb_len(v as nat) > old(p)@.len() ==> r == Err::<u64, Error>(Error::PageOutOfBounds)
            && final(p)@ == old(p)@,
{
    let ghost before = p@;
    proof {
        lemma_pow128_values();
        lemma_leb_len_bound(v as nat, 10);
        lemma_leb_bytes_len(v as nat);
    }
    let mut n: usize = 1;
    let mut rest: u64 = v;
    while rest > 127
        invariant
            1 <= n,
            n - 1 + leb_len(rest as nat) == leb_len(v as nat) <= 10,
        decreases rest,
    {
        rest = rest / 128;
        n += 1;
    }
    if n > p.len() {
        return Err(Error::PageOutOfBounds);
    }
    let mut i: usize = 0;
    rest = v;
    while rest > 127
        invariant
            i < n <= p.len(),
            n == leb_len(v as nat),
            p.len() == before.len(),
            i + leb_len(rest as nat) == n,
            leb_bytes(v as nat) == p@.subrange(0, i as int) + leb_bytes(rest as nat),
            forall|j: int| i <= j < p.len() ==> p@[j] == before[j],
        decreases rest,
    {
        let ghost head = p@.subrange(0, i as int);
        let b = (rest % 128 + 128) as u8;
        p[i] = b;
        proof {
            assert(p@.subrange(0, i + 1) =~= head + seq![b]);
            assert(head + (seq![b] + leb_bytes((rest / 128) as nat)) =~= (head + seq![b])
                + leb_bytes((rest / 128) as nat));
            assert(leb_len(rest as nat) == 1 + leb_len((rest / 128) as nat));
            assert(leb_len((rest / 128) as nat) >= 1);
        }
        rest = rest / 128;
        i += 1;
    }
    let ghost head = p@.subrange(0, i as int);
    p[i] = rest as u8;
    proof {
        assert(p@.subrange(0, i + 1) =~= head + seq![rest as u8]);
        assert(p@ =~= overwrite(before, 0, leb_bytes(v as nat)));
    }
    Ok(i as u64)
}

/// Reads the LEB128 number at the start of `p`: the low 64 bits of what
/// its group spells. Fails with `PageOutOfBounds` when `p` ends before the
/// group does, and with `ValueTooLarge` when the group has more than
/// `LEB_MAX_BYTES` bytes.
pub fn decode_leb_u64(p: &[u8]) -> (r: Result<u64, Error>)
    ensures
        r == leb_value(p@),
{
    let mut acc: u64 = 0;
    let mut scale: u64 = 1;
    let mut i: usize = 0;
    proof {
        lemma_pow128_values();
    }
    while i < p.len()
        invariant
            i <= p.len(),
            leb_span(p@, 0) == leb_span(p@, i as nat),
            i <= 9 ==> acc as nat == leb_sum(p@, i as nat) && scale as nat == pow128(i as nat),
            i == 10 ==> acc as nat == leb_sum(p@, 10) % 0x1_0000_0000_0000_0000,
        decreases p.len() - i,
    {
        let b = p[i];
        let digit = (b % 128) as u64;
        proof {
            lemma_pow128_values();
            lemma_leb_sum_bound(p@, i as nat);
            let q = pow128(i as nat);
            if i < 9 {
                lemma_pow128_monotonic(i as nat, 8);
                assert(pow128((i + 1) as nat) == 128 * q);
                assert((digit as nat) * q <= 127 * q) by (nonlinear_arith)
                    requires
                        digit <= 127,
                ;
                lemma_leb_sum_bound(p@, (i + 1) as nat);
                vstd::arithmetic::div_mod::lemma_small_mod(
                    leb_sum(p@, (i + 1) as nat),
                    0x1_0000_0000_0000_0000,
                );
            }
        }
        if i < 9 {
            acc = acc + digit * scale;
            scale = scale * 128;
        } else if i == 9 {
            let top = digit % 2;
            proof {
                let half = (digit / 2) as int;
                let low = acc as int + top as int * 0x8000_0000_0000_0000;
                assert(leb_sum(p@, 10) == leb_sum(p@, 9) + (digit as nat) * pow128(9));
                assert(leb_sum(p@, 10) == 0x1_0000_0000_0000_0000 * half + low) by {
                    assert(digit == 2 * half + top);
                    assert((digit as nat) * 0x8000_0000_0000_0000 == half
                        * 0x1_0000_0000_0000_0000 + top * 0x8000_0000_0000_0000)
                        by (nonlinear_arith)
                        requires
                            digit == 2 * half + top,
                    ;
                }
                assert(top * 0x8000_0000_0000_0000 <= 0x8000_0000_0000_0000) by (nonlinear_arith)
                    requires
                        top <= 1,
                ;
                vstd::arithmetic::div_mod::lemma_mod_multiples_vanish(
                    half,
                    low,
                    0x1_0000_0000_0000_0000,
                );
                vstd::arithmetic::div_mod::lemma_small_mod(low as nat, 0x1_0000_0000_0000_0000);
            }
            acc = acc + top * scale;
        }
        let at = i;
        i += 1;
        if b < 128 {
            if at < LEB_MAX_BYTES {
                return Ok(acc);
            } else {
                return Err(Error::ValueTooLarge);
            }
        }
    }
    Err(Error::PageOutOfBounds)
}

/// Writes `value` at the start of `p` in LEB128 and returns the number of
/// bytes written. Fails with `PageOutOfBounds`, and leaves `p` as it was,
/// when `p` is too short for the encoding.
pub fn encode_leb_u32(p: &mut Vec<u8>, value: u32) -> (r: Result<u64, Error>)
    ensures
        1 <= leb_len(value as nat) <= 5,
        leb_len(value as nat) <= old(p)@.len() ==> r == Ok::<u64, Error>(
            leb_len(value as nat) as u64,
        ) && final(p)@ == overwrite(old(p)@, 0, leb_bytes(value as nat)),
        leb_len(value as nat) > old(p)@.len() ==> r == Err::<u64, Error>(Error::PageOutOfBounds)
            && final(p)@ == old(p)@,
{
    proof {
        assert(pow128(5) == 0x8_0000_0000) by {
            reveal_with_fuel(pow128, 6);
        }
        lemma_leb_len_bound(value as nat, 5);
    }
    match encode_leb_u64(p, value as u64) {
        Ok(last) => Ok(last + 1),
        Err(e) => Err(e),
    }
}

/// What reading the LEB128 number at the start of `s` gives as a 32-bit
/// number: the low 32 bits of what the group spells, and the errors of
/// `leb_value`.
pub open spec fn leb_value_u32(s: Seq<u8>) -> Result<u32, Error> {
    match leb_span(s, 0) {
        Some(n) => if n <= LEB_MAX_BYTES {
            Ok((leb_sum(s, n) % 0x1_0000_0000) as u32)
        } else {
            Err(Error::ValueTooLarge)
        },
        None => Err(Error::PageOutOfBounds),
    }
}

/// Reads the LEB128 number at the start of `p` as a 32-bit number: the low
/// 32 bits of what `decode_leb_u64` reads. Fails as `decode_leb_u64` does.
pub fn decode_leb_u32(p: &[u8]) -> (r: Result<u32, Error>)
    ensures
        r == leb_value_u32(p@),
        r == match leb_value(p@) {
            Ok(v) => Ok::<u32, Error>((v % 0x1_0000_0000) as u32),
            Err(e) => Err::<u32, Error>(e),
        },
{
    match decode_leb_u64(p) {
        Ok(v) => {
            proof {
                let n = leb_span(p@, 0)->Some_0;
                vstd::arithmetic::div_mod::lemma_mod_mod(
                    leb_sum(p@, n) as int,
                    0x1_0000_0000,
                    0x1_0000_0000,
                );
            }
            Ok((v % 0x1_0000_0000) as u32)
        },
        Err(e) => Err(e),
    }
}

/// The largest number that the variable-length integer can hold.
pub const VARINT_MAX: u64 = 0xFF_FFFF_FFFF_FFFF;

/// The last selector byte that is its own value.
pub const VARINT_CUT1: u64 = 200;

/// The last selector byte of the two-byte form.
pub const VARINT_CUT2: u64 = 249;

/// The largest number of the two-byte form.
pub const VARINT_MAX2: u64 = 12743;

/// The largest number of the three-byte form.
pub const VARINT_MAX3: u64 = 78278;

/// The number of bytes that follow the selector byte in the encoding of a
/// number above the three-byte form.
pub open spec fn varint_tail(v: nat) -> nat {
    if v <= 0xFF_FFFF {
        3
    } else if v <= 0xFFFF_FFFF {
        4
    } else if v <= 0xFF_FFFF_FFFF {
        5
    } else if v <= 0xFFFF_FFFF_FFFF {
        6
    } else {
        7
    }
}

/// The number of bytes in the encoding of `v`.
pub open spec fn varint_len(v: nat) -> nat {
    if v <= 200 {
        1
    } else if v <= 12743 {
        2
    } else if v <= 78278 {
        3
    } else {
        1 + varint_tail(v)
    }
}

/// The encoding of `v`, for `v` up to `VARINT_MAX`: a selector byte, and
/// after it as many little-endian bytes as the selector calls for.
pub open spec fn varint_bytes(v: nat) -> Seq<u8> {
    if v <= 200 {
        seq![v as u8]
    } else if v <= 12743 {
        seq![((v - 200) / 256 + 201) as u8, ((v - 200) % 256) as u8]
    } else if v <= 78278 {
        seq![250u8] + le_bytes((v - 12743) as nat, 2)
    } else {
        seq![(248 + varint_tail(v)) as u8] + le_bytes(v, varint_tail(v))
    }
}

/// The number of bytes in an encoding that starts with selector byte `b0`.
pub open spec fn varint_span(b0: u8) -> nat {
    if b0 <= 200 {
        1
    } else if b0 <= 249 {
        2
    } else {
        (b0 - 247) as nat
    }
}

/// The number encoded at the start of `s`, or `None` when `s` ends before
/// the encoding does. No byte past the span of the selector is looked at.
pub open spec fn varint_value(s: Seq<u8>) -> Option<nat> {
    if s.len() == 0 || s.len() < varint_span(s[0]) {
        None
    } else if s[0] <= 200 {
        Some(s[0] as nat)
    } else if s[0] <= 249 {
        Some((200 + 256 * (s[0] - 201) + s[1]) as nat)
    } else if s[0] == 250 {
        Some(12743 + le_value(s.subrange(1, 3)))
    } else {
        Some(le_value(s.subrange(1, varint_span(s[0]) as int)))
    }
}

/// The encoding is as long as the range table says, and never longer than
/// eight bytes.
pub proof fn lemma_varint_bytes_len(v: nat)
    requires
        v <= VARINT_MAX,
    ensures
        varint_bytes(v).len() == varint_len(v),
        1 <= varint_len(v) <= 8,
        varint_span(varint_bytes(v)[0]) == varint_len(v),
{
    if v > 78278 {
        lemma_le_bytes_len(v, varint_tail(v));
    } else if v > 12743 {
        lemma_le_bytes_len((v - 12743) as nat, 2);
    }
}

/// Decoding undoes encoding: for every number up to `VARINT_MAX`, the bytes
/// of its encoding, whatever follows them, decode to that number.
pub proof fn lemma_varint_roundtrip(v: nat, rest: Seq<u8>)
    requires
        v <= VARINT_MAX,
    ensures
        varint_value(varint_bytes(v) + rest) == Some(v),
{
    let e = varint_bytes(v);
    let s = e + rest;
    lemma_varint_bytes_len(v);
    lemma_pow256_values();
    assert(s[0] == e[0]);
    if v <= 200 {
    } else if v <= 12743 {
        assert(s[1] == e[1]);
    } else if v <= 78278 {
        let w = (v - 12743) as nat;
        lemma_le_bytes_len(w, 2);
        lemma_le_value_of_bytes(w, 2);
        assert(s.subrange(1, 3) =~= le_bytes(w, 2));
        assert(w % pow256(2) == w) by {
            vstd::arithmetic::div_mod::lemma_small_mod(w, pow256(2));
        }
    } else {
        let k = varint_tail(v);
        lemma_le_bytes_len(v, k);
        lemma_le_value_of_bytes(v, k);
        assert(s.subrange(1, 1 + k as int) =~= le_bytes(v, k));
        assert(v % pow256(k) == v) by {
            vstd::arithmetic::div_mod::lemma_small_mod(v, pow256(k));
        }
    }
}

/// Decoding looks only at the bytes that the selector byte calls for: two
/// inputs that agree on them decode alike.
pub proof fn lemma_varint_value_reads_span(s: Seq<u8>, t: Seq<u8>)
    requires
        s.len() > 0,
        s.len() >= varint_span(s[0]),
        t.len() >= varint_span(s[0]),
        s.subrange(0, varint_span(s[0]) as int) == t.subrange(0, varint_span(s[0]) as int),
    ensures
        varint_value(s) == varint_value(t),
{
    let n = varint_span(s[0]) as int;
    let a = s.subrange(0, n);
    let b = t.subrange(0, n);
    assert(s[0] == a[0] && t[0] == b[0]);
    if s[0] > 200 {
        assert(s[1] == a[1] && t[1] == b[1]);
    }
    if s[0] > 249 {
        assert(s.subrange(1, n) =~= a.subrange(1, n));
        assert(t.subrange(1, n) =~= b.subrange(1, n));
    }
}

/// The first byte of `p`.
fn b0(p: &[u8]) -> (b: u8)
    requires
        p@.len() > 0,
    ensures
        b == p@[0],
{
    p[0]
}

/// The second byte of `p`.
fn b1(p: &[u8]) -> (b: u8)
    requires
        p@.len() > 1,
    ensures
        b == p@[1],
{
    p[1]
}

/// Writes `v` at the start of `p` as a variable-length integer and returns
/// the number of bytes written. Fails with `ValueTooLarge` when `v` is above
/// `VARINT_MAX`, and with `PageOutOfBounds` when `p` is too short for the
/// encoding; either way `p` is left as it was.
pub fn encode_varint_u64(p: &mut Vec<u8>, v: u64) -> (r: Result<u64, Error>)
    ensures
        v > VARINT_MAX ==> r == Err::<u64, Error>(Error::ValueTooLarge) && final(p)@ == old(p)@,
        v <= VARINT_MAX && varint_len(v as nat) > old(p)@.len() ==> r == Err::<u64, Error>(
            Error::PageOutOfBounds,
        ) && final(p)@ == old(p)@,
        v <= VARINT_MAX && varint_len(v as nat) <= old(p)@.len() ==> r == Ok::<u64, Error>(
            varint_len(v as nat) as u64,
        ) && final(p)@ == overwrite(old(p)@, 0, varint_bytes(v as nat)),
{
    let ghost before = p@;
    if v > VARINT_MAX {
        return Err(Error::ValueTooLarge);
    }
    if v <= VARINT_CUT1 {
        if p.len() < 1 {
            return Err(Error::PageOutOfBounds);
        }
        p[0] = v as u8;
        proof {
            assert(p@ =~= overwrite(before, 0, varint_bytes(v as nat)));
        }
        return Ok(1);
    }
    if v <= VARINT_MAX2 {
        if p.len() < 2 {
            return Err(Error::PageOutOfBounds);
        }
        let w = v - VARINT_CUT1;
        p[0] = (w / 256 + VARINT_CUT1 + 1) as u8;
        p[1] = (w % 256) as u8;
        proof {
            assert(p@ =~= overwrite(before, 0, varint_bytes(v as nat)));
        }
        return Ok(2);
    }
    let (selector, tail, number): (u8, usize, u64) = if v <= VARINT_MAX3 {
        (250, 2, v - VARINT_MAX2)
    } else if v <= 0xFF_FFFF {
        (251, 3, v)
    } else if v <= 0xFFFF_FFFF {
        (252, 4, v)
    } else if v <= 0xFF_FFFF_FFFF {
        (253, 5, v)
    } else if v <= 0xFFFF_FFFF_FFFF {
        (254, 6, v)
    } else {
        (255, 7, v)
    };
    if p.len() < 1 + tail {
        return Err(Error::PageOutOfBounds);
    }
    p[0] = selector;
    let ghost mid = p@;
    put_le(p, 1, number, tail);
    proof {
        lemma_le_bytes_len(number as nat, tail as nat);
        assert(varint_bytes(v as nat) == seq![selector] + le_bytes(number as nat, tail as nat));
        assert(p@ =~= overwrite(before, 0, varint_bytes(v as nat)));
    }
    Ok((1 + tail) as u64)
}

/// Reads the variable-length integer at the start of `p`. Fails with
/// `PageOutOfBounds` when `p` ends before the encoding does. No byte past
/// the span of the selector byte is read.
pub fn decode_varint_u64(p: &[u8]) -> (r: Result<u64, Error>)
    ensures
        match varint_value(p@) {
            Some(v) => r == Ok::<u64, Error>(v as u64) && v <= VARINT_MAX,
            None => r == Err::<u64, Error>(Error::PageOutOfBounds),
        },
{
    if p.len() < 1 {
        return Err(Error::PageOutOfBounds);
    }
    let first = b0(p);
    if first as u64 <= VARINT_CUT1 {
        return Ok(first as u64);
    }
    if first as u64 <= VARINT_CUT2 {
        if p.len() < 2 {
            return Err(Error::PageOutOfBounds);
        }
        return Ok(VARINT_CUT1 + 256 * (first as u64 - VARINT_CUT1 - 1) + b1(p) as u64);
    }
    let tail: usize = (first - 248) as usize;
    if p.len() < 1 + tail {
        return Err(Error::PageOutOfBounds);
    }
    let number = get_le(p, 1, tail);
    proof {
        lemma_le_value_bound(p@.subrange(1, 1 + tail));
        lemma_pow256_values();
        lemma_pow256_monotonic(tail as nat, 7);
    }
    if first == 250 {
        Ok(VARINT_MAX2 + number)
    } else {
        Ok(number)
    }
}

/// `pow256` grows with its exponent.
pub proof fn lemma_pow256_monotonic(a: nat, b: nat)
    requires
        a <= b,
    ensures
        pow256(a) <= pow256(b),
    decreases b,
{
    if a < b {
        lemma_pow256_monotonic(a, (b - 1) as nat);
    }
}


/// Where the `n` bytes of a number lie in `s`, they read back as the number.
pub proof fn lemma_number_read_back(v: nat, n: nat, s: Seq<u8>, at: int)
    requires
        v < pow256(n),
        0 <= at,
        at + n <= s.len(),
        le_bytes(v, n).len() == n,
        forall|j: int| 0 <= j < n ==> s[at + j] == #[trigger] le_bytes(v, n)[j],
    ensures
        le_value(s.subrange(at, at + n)) == v,
{
    assert(s.subrange(at, at + n) =~= le_bytes(v, n));
    lemma_le_value_of_bytes(v, n);
    vstd::arithmetic::div_mod::lemma_small_mod(v, pow256(n));
}

} // verus!
