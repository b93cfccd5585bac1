//! Little-endian integers and byte-sequence edits, as mathematical functions.
use vstd::prelude::*;

verus! {

/// `256^n`: how many values `n` bytes can hold.
pub open spec fn pow256(n: nat) -> nat
    decreases n,
{
    if n == 0 {
        1
    } else {
        256 * pow256((n - 1) as nat)
    }
}

/// The unsigned value of `s` read little-endian: `s[0]` is the least significant byte.
pub open spec fn le_value(s: Seq<u8>) -> nat
    decreases s.len(),
{
    if s.len() == 0 {
        0
    } else {
        (s[0] + 256 * le_value(s.drop_first())) as nat
    }
}

/// The `n` little-endian bytes of `v` (of `v` modulo `256^n`).
pub open spec fn le_bytes(v: nat, n: nat) -> Seq<u8>
    decreases n,
{
    if n == 0 {
        Seq::empty()
    } else {
        seq![(v % 256) as u8] + le_bytes(v / 256, (n - 1) as nat)
    }
}

/// The two's-complement reading of an `n`-byte unsigned pattern `u`.
pub open spec fn to_signed(u: nat, n: nat) -> int {
    if 2 * u >= pow256(n) {
        u - pow256(n)
    } else {
        u as int
    }
}

/// The `n`-byte two's-complement pattern of `v`, as an unsigned value.
pub open spec fn to_unsigned(v: int, n: nat) -> nat {
    if v < 0 {
        (v + pow256(n)) as nat
    } else {
        v as nat
    }
}

/// The `n` bytes of `s` that start at `p`.
pub open spec fn field(s: Seq<u8>, p: int, n: nat) -> Seq<u8> {
    s.subrange(p, p + n)
}

/// The unsigned little-endian integer of `n` bytes at `p` in `s`.
pub open spec fn uint_at(s: Seq<u8>, p: int, n: nat) -> nat {
    le_value(field(s, p, n))
}

/// The signed (two's-complement) little-endian integer of `n` bytes at `p` in `s`.
pub open spec fn int_at(s: Seq<u8>, p: int, n: nat) -> int {
    to_signed(uint_at(s, p, n), n)
}

/// `s` with `bytes` written over it from index `at` on.
pub open spec fn splice(s: Seq<u8>, at: int, bytes: Seq<u8>) -> Seq<u8> {
    s.take(at) + bytes + s.skip(at + bytes.len())
}

/// The powers of 256 that the integer widths of this library use.
pub proof fn lemma_pow256_values()
    ensures
        pow256(0) == 1,
        pow256(1) == 256,
        pow256(2) == 0x1_0000,
        pow256(3) == 0x100_0000,
        pow256(4) == 0x1_0000_0000,
        pow256(5) == 0x100_0000_0000,
        pow256(6) == 0x1_0000_0000_0000,
        pow256(7) == 0x100_0000_0000_0000,
        pow256(8) == 0x1_0000_0000_0000_0000,
{
    reveal_with_fuel(pow256, 9);
}

/// `256^n` grows with `n`.
pub proof fn lemma_pow256_mono(a: nat, b: nat)
    requires
        a <= b,
    ensures
        pow256(a) <= pow256(b),
    decreases b,
{
    if a < b {
        lemma_pow256_mono(a, (b - 1) as nat);
    }
}

/// A little-endian value of `n` bytes is below `256^n`.
pub proof fn lemma_le_value_bound(s: Seq<u8>)
    ensures
        le_value(s) < pow256(s.len()),
    decreases s.len(),
{
    if s.len() > 0 {
        lemma_le_value_bound(s.drop_first());
    }
}

/// `le_bytes(v, n)` has `n` bytes.
pub proof fn lemma_le_bytes_len(v: nat, n: nat)
    ensures
        le_bytes(v, n).len() == n,
    decreases n,
{
    if n > 0 {
        lemma_le_bytes_len(v / 256, (n - 1) as nat);
    }
}

/// Law: reading back the `n` little-endian bytes of `v` gives `v`, for every `v` that fits in `n` bytes.
pub proof fn law_le_bytes_then_value(v: nat, n: nat)
    requires
        v < pow256(n),
    ensures
        le_value(le_bytes(v, n)) == v,
    decreases n,
{
    if n > 0 {
        let rest = le_bytes(v / 256, (n - 1) as nat);
        assert(le_bytes(v, n).drop_first() =~= rest);
        law_le_bytes_then_value(v / 256, (n - 1) as nat);
    }
}

/// Law: writing the value of a byte sequence back in as many bytes gives the same sequence.
pub proof fn law_value_then_le_bytes(s: Seq<u8>)
    ensures
        le_bytes(le_value(s), s.len()) == s,
    decreases s.len(),
{
    if s.len() > 0 {
        let rest = s.drop_first();
        law_value_then_le_bytes(rest);
        let v = le_value(s);
        assert(v == s[0] + 256 * le_value(rest));
        assert(v % 256 == s[0]);
        assert(v / 256 == le_value(rest));
        assert(le_bytes(v, s.len()) =~= s);
    }
}

/// Law: the two's-complement pattern of a value that fits in `n` signed bytes reads back as that value.
pub proof fn law_signed_roundtrip(v: int, n: nat)
    requires
        n > 0,
        -pow256(n) <= 2 * v < pow256(n),
    ensures
        to_unsigned(v, n) < pow256(n),
        to_signed(to_unsigned(v, n), n) == v,
{
}

/// Law: reading an `n`-byte pattern as signed and taking its pattern back gives the pattern.
pub proof fn law_unsigned_roundtrip(u: nat, n: nat)
    requires
        u < pow256(n),
    ensures
        to_unsigned(to_signed(u, n), n) == u,
{
}

/// Law: a 4-byte signed integer written little-endian at `p` reads back, as a 4-byte signed
/// integer at `p`, as the same value.
pub proof fn law_int32_write_then_read(s: Seq<u8>, p: int, v: i32)
    requires
        0 <= p,
        p + 4 <= s.len(),
    ensures
        int_at(splice(s, p, le_bytes(to_unsigned(v as int, 4), 4)), p, 4) == v,
        splice(s, p, le_bytes(to_unsigned(v as int, 4), 4)).len() == s.len(),
{
    lemma_pow256_values();
    let u = to_unsigned(v as int, 4);
    law_signed_roundtrip(v as int, 4);
    lemma_le_bytes_len(u, 4);
    let w = le_bytes(u, 4);
    let t = splice(s, p, w);
    assert(field(t, p, 4) =~= w);
    law_le_bytes_then_value(u, 4);
}

/// A 2-byte little-endian integer in terms of its bytes.
pub proof fn lemma_uint_at_2(s: Seq<u8>, p: int)
    requires
        0 <= p,
        p + 2 <= s.len(),
    ensures
        uint_at(s, p, 2) == s[p] + 256 * s[p + 1],
{
    let f = field(s, p, 2);
    assert(f.drop_first().drop_first() =~= Seq::<u8>::empty());
    assert(le_value(f.drop_first()) == s[p + 1] + 256 * le_value(f.drop_first().drop_first()));
}

/// Writing `a` and then `b` right after it is writing `a + b`.
pub proof fn lemma_splice_concat(s: Seq<u8>, at: int, a: Seq<u8>, b: Seq<u8>)
    requires
        0 <= at,
        at + a.len() + b.len() <= s.len(),
    ensures
        splice(splice(s, at, a), at + a.len(), b) == splice(s, at, a + b),
        splice(s, at, a).len() == s.len(),
{
    assert(splice(splice(s, at, a), at + a.len(), b) =~= splice(s, at, a + b));
}

} // verus!
