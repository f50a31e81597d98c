//! Little-endian byte encodings of unsigned integers.
//!
//! `le_bytes(v, n)` is the `n`-byte little-endian encoding of `v`
//! (truncated to `n` bytes); `le_value(s)` reads a byte string back as a
//! little-endian number.
use vstd::prelude::*;

verus! {

/// The `n`-byte little-endian encoding of `v` (bytes above `n` are dropped).
pub open spec fn le_bytes(v: nat, n: nat) -> Seq<u8>
    decreases n,
{
    if n == 0 {
        Seq::empty()
    } else {
        seq![(v % 256) as u8] + le_bytes(v / 256, (n - 1) as nat)
    }
}

/// The number whose little-endian encoding is `s`.
pub open spec fn le_value(s: Seq<u8>) -> nat
    decreases s.len(),
{
    if s.len() == 0 {
        0
    } else {
        (s[0] as nat) + 256 * le_value(s.drop_first())
    }
}

/// `256^n`.
pub open spec fn byte_base(n: nat) -> nat
    decreases n,
{
    if n == 0 {
        1
    } else {
        256 * byte_base((n - 1) as nat)
    }
}

/// The encoding has exactly `n` bytes.
pub proof fn lemma_le_bytes_len(v: nat, n: nat)
    ensures
        le_bytes(v, n).len() == n,
    decreases n,
{
    if n > 0 {
        lemma_le_bytes_len(v / 256, (n - 1) as nat);
    }
}

/// Reading an encoding back gives the value reduced modulo `256^n`.
pub proof fn lemma_le_value_of_bytes(v: nat, n: nat)
    ensures
        le_value(le_bytes(v, n)) == v % byte_base(n),
    decreases n,
{
    if n > 0 {
        let rest = le_bytes(v / 256, (n - 1) as nat);
        lemma_le_value_of_bytes(v / 256, (n - 1) as nat);
        assert(le_bytes(v, n).drop_first() =~= rest);
        let b = byte_base((n - 1) as nat);
        assert(b > 0) by {
            lemma_byte_base_pos((n - 1) as nat);
        }
        // v = 256 q + r, q = b * q2 + r2  ==>  v % (256 b) = r + 256 r2
        let q = v / 256;
        let r = v % 256;
        let q2 = q / b;
        let r2 = q % b;
        vstd::arithmetic::div_mod::lemma_fundamental_div_mod(v as int, 256);
        vstd::arithmetic::div_mod::lemma_fundamental_div_mod(q as int, b as int);
        assert(v == 256 * q + r);
        assert(q == b * q2 + r2);
        assert(v == q2 * (256 * b) + (r + 256 * r2)) by (nonlinear_arith)
            requires
                v == 256 * q + r,
                q == b * q2 + r2,
        ;
        assert(r + 256 * r2 < 256 * b) by (nonlinear_arith)
            requires
                r < 256,
                r2 < b,
        ;
        vstd::arithmetic::div_mod::lemma_fundamental_div_mod_converse(
            v as int,
            (256 * b) as int,
            q2 as int,
            (r + 256 * r2) as int,
        );
    }
}

/// `256^n` is positive.
pub proof fn lemma_byte_base_pos(n: nat)
    ensures
        byte_base(n) > 0,
    decreases n,
{
    if n > 0 {
        lemma_byte_base_pos((n - 1) as nat);
    }
}

/// The encoding of `v` in `8` bytes, for `v` a `u64`, reads back to `v`.
pub proof fn lemma_le_u64_round_trip(v: u64)
    ensures
        le_value(le_bytes(v as nat, 8)) == v,
        le_bytes(v as nat, 8).len() == 8,
{
    lemma_le_value_of_bytes(v as nat, 8);
    lemma_le_bytes_len(v as nat, 8);
    reveal_with_fuel(byte_base, 9);
    assert(byte_base(8) == 0x1_0000_0000_0000_0000);
}

/// The value of a byte string of length `n` is below `256^n`.
pub proof fn lemma_le_value_bound(s: Seq<u8>)
    ensures
        le_value(s) < byte_base(s.len()),
    decreases s.len(),
{
    if s.len() > 0 {
        lemma_le_value_bound(s.drop_first());
        let b = byte_base((s.len() - 1) as nat);
        let t = le_value(s.drop_first());
        assert((s[0] as nat) + 256 * t < 256 * b) by (nonlinear_arith)
            requires
                s[0] < 256,
                t < b,
        ;
    }
}

/// The `8`-byte little-endian encoding of a `u64`.
pub fn u64_to_le_bytes(v: u64) -> (r: Vec<u8>)
    ensures
        r@ == le_bytes(v as nat, 8),
{
    let mut out: Vec<u8> = Vec::new();
    let mut rest: u64 = v;
    let mut i: usize = 0;
    while i < 8
        invariant
            i <= 8,
            out@ + le_bytes(rest as nat, (8 - i) as nat) == le_bytes(v as nat, 8),
        decreases 8 - i,
    {
        let ghost old_out = out@;
        let byte: u8 = (rest % 256) as u8;
        assert(le_bytes(rest as nat, (8 - i) as nat) =~= seq![byte] + le_bytes(
            (rest / 256) as nat,
            (8 - i - 1) as nat,
        ));
        out.push(byte);
        rest = rest / 256;
        i = i + 1;
        assert(out@ + le_bytes(rest as nat, (8 - i) as nat) =~= old_out + (seq![byte] + le_bytes(
            rest as nat,
            (8 - i) as nat,
        )));
    }
    assert(le_bytes(rest as nat, 0) =~= Seq::<u8>::empty());
    assert(out@ =~= out@ + le_bytes(rest as nat, 0));
    out
}

/// The `4`-byte little-endian encoding of a `u32`.
pub fn u32_to_le_bytes(v: u32) -> (r: Vec<u8>)
    ensures
        r@ == le_bytes(v as nat, 4),
{
    let mut out: Vec<u8> = Vec::new();
    let mut rest: u32 = v;
    let mut i: usize = 0;
    while i < 4
        invariant
            i <= 4,
            out@ + le_bytes(rest as nat, (4 - i) as nat) == le_bytes(v as nat, 4),
        decreases 4 - i,
    {
        let ghost old_out = out@;
        let byte: u8 = (rest % 256) as u8;
        assert(le_bytes(rest as nat, (4 - i) as nat) =~= seq![byte] + le_bytes(
            (rest / 256) as nat,
            (4 - i - 1) as nat,
        ));
        out.push(byte);
        rest = rest / 256;
        i = i + 1;
        assert(out@ + le_bytes(rest as nat, (4 - i) as nat) =~= old_out + (seq![byte] + le_bytes(
            rest as nat,
            (4 - i) as nat,
        )));
    }
    assert(le_bytes(rest as nat, 0) =~= Seq::<u8>::empty());
    assert(out@ =~= out@ + le_bytes(rest as nat, 0));
    out
}

/// Reads `bytes[start..start + 8]` as a little-endian `u64`.
pub fn u64_from_le_bytes(bytes: &[u8], start: usize) -> (r: u64)
    requires
        start + 8 <= bytes@.len(),
    ensures
        r == le_value(bytes@.subrange(start as int, start + 8)),
{
    let mut acc: u64 = 0;
    let mut i: usize = 8;
    while i > 0
        invariant
            i <= 8,
            start + 8 <= bytes.len(),
            acc == le_value(bytes@.subrange(start + i, start + 8)),
            acc < byte_base((8 - i) as nat),
        decreases i,
    {
        let ghost tail = bytes@.subrange(start + i, start + 8);
        i = i - 1;
        let b = bytes[start + i];
        let ghost s = bytes@.subrange(start + i, start + 8);
        assert(s.drop_first() =~= tail);
        proof {
            reveal_with_fuel(byte_base, 9);
            assert(byte_base((8 - i) as nat) == 256 * byte_base((8 - i - 1) as nat));
            assert(byte_base(7) == 0x100_0000_0000_0000);
            assert(byte_base((8 - i - 1) as nat) <= byte_base(7)) by {
                lemma_byte_base_mono((8 - i - 1) as nat, 7);
            }
            assert(b + 256 * acc < 256 * byte_base((8 - i - 1) as nat)) by (nonlinear_arith)
                requires
                    b < 256,
                    acc < byte_base((8 - i - 1) as nat),
            ;
        }
        acc = (b as u64) + 256 * acc;
    }
    assert(bytes@.subrange(start as int, start + 8) =~= bytes@.subrange(start + 0, start + 8));
    acc
}

/// Reads `bytes[start..start + 4]` as a little-endian `u32`.
pub fn u32_from_le_bytes(bytes: &[u8], start: usize) -> (r: u32)
    requires
        start + 4 <= bytes@.len(),
    ensures
        r == le_value(bytes@.subrange(start as int, start + 4)),
{
    let mut acc: u32 = 0;
    let mut i: usize = 4;
    while i > 0
        invariant
            i <= 4,
            start + 4 <= bytes.len(),
            acc == le_value(bytes@.subrange(start + i, start + 4)),
            acc < byte_base((4 - i) as nat),
        decreases i,
    {
        let ghost tail = bytes@.subrange(start + i, start + 4);
        i = i - 1;
        let b = bytes[start + i];
        let ghost s = bytes@.subrange(start + i, start + 4);
        assert(s.drop_first() =~= tail);
        proof {
            reveal_with_fuel(byte_base, 5);
            assert(byte_base((4 - i) as nat) == 256 * byte_base((4 - i - 1) as nat));
            assert(byte_base(3) == 0x100_0000);
            assert(byte_base((4 - i - 1) as nat) <= byte_base(3)) by {
                lemma_byte_base_mono((4 - i - 1) as nat, 3);
            }
            assert(b + 256 * acc < 256 * byte_base((4 - i - 1) as nat)) by (nonlinear_arith)
                requires
                    b < 256,
                    acc < byte_base((4 - i - 1) as nat),
            ;
        }
        acc = (b as u32) + 256 * acc;
    }
    assert(bytes@.subrange(start as int, start + 4) =~= bytes@.subrange(start + 0, start + 4));
    acc
}

/// `256^n` grows with `n`.
pub proof fn lemma_byte_base_mono(a: nat, b: nat)
    requires
        a <= b,
    ensures
        byte_base(a) <= byte_base(b),
    decreases b,
{
    if a < b {
        lemma_byte_base_mono(a, (b - 1) as nat);
        lemma_byte_base_pos((b - 1) as nat);
    }
}

} // verus!
