//! Value encodings: how scalars, strings and tags become payload bytes.
//!
//! The protocol default is fixed-width little-endian for unsigned integers
//! and raw UTF-8 bytes for strings; packed BCD, big-endian integers and
//! hex-digit strings are selected per field. Decoders take the input and a
//! cursor; those whose width is not implied by the value (BCD, hex, strings,
//! blobs) additionally take the end of the delimited payload.

use crate::errors::ZVTError;
use crate::errors::ZVTResult;
use crate::Tag;
use vstd::arithmetic::div_mod::lemma_fundamental_div_mod;
use vstd::arithmetic::div_mod::lemma_fundamental_div_mod_converse;
use vstd::prelude::*;

verus! {

/// One more than the largest `usize` value: the modulus of wrapping
/// arithmetic on `usize`.
pub open spec fn usize_mod() -> nat {
    usize::MAX as nat + 1
}

// --- Little-endian and big-endian integers -------------------------------

pub fn enc_u8(v: u8) -> (r: Vec<u8>)
    ensures
        r@ == seq![v],
{
    let mut r: Vec<u8> = Vec::new();
    r.push(v);
    proof {
        assert(r@ =~= seq![v]);
    }
    r
}

pub fn dec_u8(bytes: &[u8], pos: usize) -> (r: ZVTResult<(u8, usize)>)
    requires
        pos <= bytes@.len(),
    ensures
        r == if pos < bytes@.len() {
            Ok::<_, ZVTError>((bytes@[pos as int], (pos + 1) as usize))
        } else {
            Err::<(u8, usize), _>(ZVTError::IncompleteData)
        },
{
    if pos < bytes.len() {
        Ok((bytes[pos], pos + 1))
    } else {
        Err(ZVTError::IncompleteData)
    }
}

/// The two little-endian bytes of a 16-bit value.
pub open spec fn u16_le_bytes(v: u16) -> Seq<u8> {
    seq![(v % 256) as u8, (v / 256) as u8]
}

/// The two big-endian bytes of a 16-bit value.
pub open spec fn u16_be_bytes(v: u16) -> Seq<u8> {
    seq![(v / 256) as u8, (v % 256) as u8]
}

/// The four big-endian bytes of a 32-bit value.
pub open spec fn u32_be_bytes(v: u32) -> Seq<u8> {
    seq![
        (v / 0x1000000) as u8,
        ((v / 0x10000) % 256) as u8,
        ((v / 256) % 256) as u8,
        (v % 256) as u8,
    ]
}

pub fn enc_u16_le(v: u16) -> (r: Vec<u8>)
    ensures
        r@ == u16_le_bytes(v),
{
    let mut r: Vec<u8> = Vec::new();
    r.push((v % 256) as u8);
    r.push((v / 256) as u8);
    proof {
        assert(r@ =~= u16_le_bytes(v));
    }
    r
}

pub fn enc_u16_be(v: u16) -> (r: Vec<u8>)
    ensures
        r@ == u16_be_bytes(v),
{
    let mut r: Vec<u8> = Vec::new();
    r.push((v / 256) as u8);
    r.push((v % 256) as u8);
    proof {
        assert(r@ =~= u16_be_bytes(v));
    }
    r
}

pub fn enc_u32_be(v: u32) -> (r: Vec<u8>)
    ensures
        r@ == u32_be_bytes(v),
{
    let mut r: Vec<u8> = Vec::new();
    r.push((v / 0x1000000) as u8);
    r.push(((v / 0x10000) % 256) as u8);
    r.push(((v / 256) % 256) as u8);
    r.push((v % 256) as u8);
    proof {
        assert(r@ =~= u32_be_bytes(v));
    }
    r
}

/// The value read back from two little-endian bytes.
pub open spec fn u16_le_val(b0: u8, b1: u8) -> u16 {
    (b0 + b1 * 256) as u16
}

pub open spec fn u16_be_val(b0: u8, b1: u8) -> u16 {
    (b0 * 256 + b1) as u16
}

pub open spec fn u32_be_val(b0: u8, b1: u8, b2: u8, b3: u8) -> u32 {
    (b0 * 0x1000000 + b1 * 0x10000 + b2 * 256 + b3) as u32
}

pub fn dec_u16_le(bytes: &[u8], pos: usize) -> (r: ZVTResult<(u16, usize)>)
    requires
        pos <= bytes@.len(),
    ensures
        r == if bytes@.len() - pos >= 2 {
            Ok::<_, ZVTError>(
                (u16_le_val(bytes@[pos as int], bytes@[pos + 1]), (pos + 2) as usize),
            )
        } else {
            Err::<(u16, usize), _>(ZVTError::IncompleteData)
        },
{
    if bytes.len() - pos >= 2 {
        Ok((bytes[pos] as u16 + bytes[pos + 1] as u16 * 256, pos + 2))
    } else {
        Err(ZVTError::IncompleteData)
    }
}

pub fn dec_u16_be(bytes: &[u8], pos: usize) -> (r: ZVTResult<(u16, usize)>)
    requires
        pos <= bytes@.len(),
    ensures
        r == if bytes@.len() - pos >= 2 {
            Ok::<_, ZVTError>(
                (u16_be_val(bytes@[pos as int], bytes@[pos + 1]), (pos + 2) as usize),
            )
        } else {
            Err::<(u16, usize), _>(ZVTError::IncompleteData)
        },
{
    if bytes.len() - pos >= 2 {
        Ok((bytes[pos] as u16 * 256 + bytes[pos + 1] as u16, pos + 2))
    } else {
        Err(ZVTError::IncompleteData)
    }
}

pub fn dec_u32_be(bytes: &[u8], pos: usize) -> (r: ZVTResult<(u32, usize)>)
    requires
        pos <= bytes@.len(),
    ensures
        r == if bytes@.len() - pos >= 4 {
            Ok::<_, ZVTError>(
                (
                    u32_be_val(
                        bytes@[pos as int],
                        bytes@[pos + 1],
                        bytes@[pos + 2],
                        bytes@[pos + 3],
                    ),
                    (pos + 4) as usize,
                ),
            )
        } else {
            Err::<(u32, usize), _>(ZVTError::IncompleteData)
        },
{
    if bytes.len() - pos >= 4 {
        Ok(
            (
                bytes[pos] as u32 * 0x1000000 + bytes[pos + 1] as u32 * 0x10000 + bytes[pos
                    + 2] as u32 * 256 + bytes[pos + 3] as u32,
                pos + 4,
            ),
        )
    } else {
        Err(ZVTError::IncompleteData)
    }
}

/// Little-endian round trip: the bytes of a value read back as that value.
pub proof fn lemma_u16_le_roundtrip(v: u16)
    ensures
        u16_le_val(u16_le_bytes(v)[0], u16_le_bytes(v)[1]) == v,
{
    lemma_fundamental_div_mod(v as int, 256);
}

pub proof fn lemma_u16_be_roundtrip(v: u16)
    ensures
        u16_be_val(u16_be_bytes(v)[0], u16_be_bytes(v)[1]) == v,
{
    lemma_fundamental_div_mod(v as int, 256);
}

pub proof fn lemma_u32_be_roundtrip(v: u32)
    ensures
        u32_be_val(u32_be_bytes(v)[0], u32_be_bytes(v)[1], u32_be_bytes(v)[2], u32_be_bytes(v)[3])
            == v,
{
    let b0 = v / 0x1000000;
    let b1 = (v / 0x10000) % 256;
    let b2 = (v / 256) % 256;
    let b3 = v % 256;
    assert(b0 * 0x1000000 + b1 * 0x10000 + b2 * 256 + b3 == v) by (nonlinear_arith)
        requires
            b0 == v / 0x1000000 && b1 == (v / 0x10000) % 256 && b2 == (v / 256) % 256 && b3 == v
                % 256,
    ;
}

// --- Tags ------------------------------------------------------------------

/// The standard tag form: one byte for tags below 0x100, two big-endian
/// bytes otherwise.
pub open spec fn tag_std_bytes(t: u16) -> Seq<u8> {
    if t < 256 {
        seq![t as u8]
    } else {
        seq![(t / 256) as u8, (t % 256) as u8]
    }
}

/// Reading a standard tag: a first byte whose low five bits are all ones
/// announces a two-byte tag.
pub open spec fn tag_std_parse(s: Seq<u8>, i: int) -> ZVTResult<(u16, usize)> {
    if i >= s.len() {
        Err(ZVTError::IncompleteData)
    } else if s[i] & 0x1f == 0x1f {
        if i + 1 < s.len() {
            Ok(((s[i] * 256 + s[i + 1]) as u16, (i + 2) as usize))
        } else {
            Err(ZVTError::IncompleteData)
        }
    } else {
        Ok((s[i] as u16, (i + 1) as usize))
    }
}

/// A tag whose standard encoding reads back as itself: one-byte tags must
/// not look like the prefix of a two-byte tag, and two-byte tags must.
pub open spec fn tag_wf(t: u16) -> bool {
    if t < 256 {
        (t as u8) & 0x1f != 0x1f
    } else {
        ((t / 256) as u8) & 0x1f == 0x1f
    }
}

pub fn enc_tag_std(t: Tag) -> (r: Vec<u8>)
    ensures
        r@ == tag_std_bytes(t.0),
{
    let mut r: Vec<u8> = Vec::new();
    if t.0 < 256 {
        r.push(t.0 as u8);
    } else {
        r.push((t.0 / 256) as u8);
        r.push((t.0 % 256) as u8);
    }
    proof {
        assert(r@ =~= tag_std_bytes(t.0));
    }
    r
}

pub fn dec_tag_std(bytes: &[u8], pos: usize) -> (r: ZVTResult<(Tag, usize)>)
    requires
        pos <= bytes@.len(),
    ensures
        r matches Ok(v) ==> tag_std_parse(bytes@, pos as int) == Ok::<_, ZVTError>((v.0.0, v.1))
            && pos < v.1 <= bytes@.len(),
        r matches Err(e) ==> tag_std_parse(bytes@, pos as int) == Err::<(u16, usize), _>(e),
{
    if pos >= bytes.len() {
        return Err(ZVTError::IncompleteData);
    }
    let b = bytes[pos];
    if b & 0x1f == 0x1f {
        if pos + 1 < bytes.len() {
            Ok((Tag(b as u16 * 256 + bytes[pos + 1] as u16), pos + 2))
        } else {
            Err(ZVTError::IncompleteData)
        }
    } else {
        Ok((Tag(b as u16), pos + 1))
    }
}

/// Round trip of a well-formed tag in its standard encoding, wherever it
/// stands in a larger buffer.
pub proof fn lemma_tag_std_roundtrip(s: Seq<u8>, i: int, t: u16)
    requires
        tag_wf(t),
        0 <= i,
        i + tag_std_bytes(t).len() <= s.len(),
        s.subrange(i, i + tag_std_bytes(t).len()) == tag_std_bytes(t),
    ensures
        tag_std_parse(s, i) == Ok::<_, ZVTError>((t, (i + tag_std_bytes(t).len()) as usize)),
{
    let b = tag_std_bytes(t);
    assert(s[i] == b[0]);
    if t < 256 {
    } else {
        assert(s[i + 1] == b[1]);
        let hi = (t / 256) as u8;
        let lo = (t % 256) as u8;
        assert(hi * 256 + lo == t) by (nonlinear_arith)
            requires
                hi == (t / 256) as u8 && lo == (t % 256) as u8 && t >= 256,
        ;
    }
}

/// The big-endian tag form used for the ADPU control field: always two
/// bytes.
pub open spec fn tag_be_bytes(t: u16) -> Seq<u8> {
    seq![(t / 256) as u8, (t % 256) as u8]
}

pub open spec fn tag_be_parse(s: Seq<u8>, i: int) -> ZVTResult<(u16, usize)> {
    if i + 2 <= s.len() {
        Ok(((s[i] * 256 + s[i + 1]) as u16, (i + 2) as usize))
    } else {
        Err(ZVTError::IncompleteData)
    }
}

pub fn enc_tag_be(t: Tag) -> (r: Vec<u8>)
    ensures
        r@ == tag_be_bytes(t.0),
{
    let mut r: Vec<u8> = Vec::new();
    r.push((t.0 / 256) as u8);
    r.push((t.0 % 256) as u8);
    proof {
        assert(r@ =~= tag_be_bytes(t.0));
    }
    r
}

pub fn dec_tag_be(bytes: &[u8], pos: usize) -> (r: ZVTResult<(Tag, usize)>)
    requires
        pos <= bytes@.len(),
    ensures
        r matches Ok(v) ==> tag_be_parse(bytes@, pos as int) == Ok::<_, ZVTError>((v.0.0, v.1))
            && pos < v.1 <= bytes@.len(),
        r matches Err(e) ==> tag_be_parse(bytes@, pos as int) == Err::<(u16, usize), _>(e),
{
    if bytes.len() - pos >= 2 {
        Ok((Tag(bytes[pos] as u16 * 256 + bytes[pos + 1] as u16), pos + 2))
    } else {
        Err(ZVTError::IncompleteData)
    }
}

pub proof fn lemma_tag_be_roundtrip(s: Seq<u8>, i: int, t: u16)
    requires
        0 <= i,
        i + 2 <= s.len(),
        s.subrange(i, i + 2) == tag_be_bytes(t),
    ensures
        tag_be_parse(s, i) == Ok::<_, ZVTError>((t, (i + 2) as usize)),
{
    assert(s[i] == tag_be_bytes(t)[0]);
    assert(s[i + 1] == tag_be_bytes(t)[1]);
    lemma_fundamental_div_mod(t as int, 256);
}

// --- Packed BCD -------------------------------------------------------------

/// The packed-BCD byte for a value below 100: high nibble first.
pub open spec fn bcd_byte(x: nat) -> u8
    recommends
        x < 100,
{
    ((x / 10) * 16 + x % 10) as u8
}

/// The shortest packed-BCD form of a value, two decimal digits per byte.
pub open spec fn bcd_bytes(v: nat) -> Seq<u8>
    decreases v,
{
    if v < 100 {
        seq![bcd_byte(v)]
    } else {
        bcd_bytes(v / 100) + seq![bcd_byte(v % 100)]
    }
}

/// The value read back from packed-BCD bytes: every nibble counts as one
/// decimal digit, high nibble first.
pub open spec fn bcd_nat(s: Seq<u8>) -> nat
    decreases s.len(),
{
    if s.len() == 0 {
        0
    } else {
        bcd_nat(s.drop_last()) * 100 + (s.last() / 16) as nat * 10 + (s.last() % 16) as nat
    }
}

pub fn enc_bcd(v: usize) -> (r: Vec<u8>)
    ensures
        r@ == bcd_bytes(v as nat),
    decreases v,
{
    if v < 100 {
        let b = ((v / 10) * 16 + v % 10) as u8;
        let mut r: Vec<u8> = Vec::new();
        r.push(b);
        proof {
            assert(r@ =~= bcd_bytes(v as nat));
        }
        r
    } else {
        let mut r = enc_bcd(v / 100);
        let x = v % 100;
        r.push(((x / 10) * 16 + x % 10) as u8);
        proof {
            assert(r@ =~= bcd_bytes(v as nat));
        }
        r
    }
}

/// Reads the delimited payload `[pos, end)` as packed BCD. A payload whose
/// value exceeds `usize` wraps, as the protocol never delimits one that can.
pub fn dec_bcd(bytes: &[u8], pos: usize, end: usize) -> (r: usize)
    requires
        pos <= end <= bytes@.len(),
    ensures
        r == bcd_nat(bytes@.subrange(pos as int, end as int)) % usize_mod(),
{
    let blen = bytes.len();
    let mut rv: usize = 0;
    let mut i: usize = pos;
    proof {
        assert(blen <= usize::MAX);
        assert(bytes@.subrange(pos as int, pos as int) =~= Seq::<u8>::empty());
        assert(bcd_nat(Seq::<u8>::empty()) == 0);
        vstd::arithmetic::div_mod::lemma_small_mod(0, usize_mod());
    }
    while i < end
        invariant
            pos <= i <= end <= bytes@.len() <= usize::MAX,
            rv == bcd_nat(bytes@.subrange(pos as int, i as int)) % usize_mod(),
        decreases end - i,
    {
        let b = bytes[i];
        let hi = (b / 16) as usize;
        let lo = (b % 16) as usize;
        let ghost prev = bcd_nat(bytes@.subrange(pos as int, i as int));
        let rv2 = rv.wrapping_mul(100).wrapping_add(hi * 10 + lo);
        proof {
            let s2 = bytes@.subrange(pos as int, i + 1);
            assert(s2.drop_last() =~= bytes@.subrange(pos as int, i as int));
            assert(s2.last() == bytes@[i as int]);
            assert(bcd_nat(s2) == prev * 100 + hi * 10 + lo);
            let m = usize_mod() as int;
            vstd::arithmetic::div_mod::lemma_mul_mod_noop_left(prev as int, 100, m);
            vstd::arithmetic::div_mod::lemma_add_mod_noop(
                (prev % usize_mod()) as int * 100,
                (hi * 10 + lo) as int,
                m,
            );
            vstd::arithmetic::div_mod::lemma_add_mod_noop(
                prev as int * 100,
                (hi * 10 + lo) as int,
                m,
            );
            vstd::arithmetic::div_mod::lemma_mod_bound((hi * 10 + lo) as int, m);
            vstd::arithmetic::div_mod::lemma_small_mod((hi * 10 + lo) as nat, usize_mod());
        }
        rv = rv2;
        i = i + 1;
    }
    rv
}

/// Packed BCD round trip: the shortest BCD form of a value reads back as
/// that value.
pub proof fn lemma_bcd_roundtrip(v: nat)
    ensures
        bcd_nat(bcd_bytes(v)) == v,
    decreases v,
{
    if v < 100 {
        let b = bcd_byte(v);
        lemma_bcd_byte_nibbles(v);
        assert(bcd_bytes(v) =~= seq![b]);
        assert(bcd_nat(seq![b]) == bcd_nat(seq![b].drop_last()) * 100 + (b / 16) as nat * 10 + (
        b % 16) as nat);
        assert(seq![b].drop_last() =~= Seq::<u8>::empty());
        lemma_fundamental_div_mod(v as int, 10);
    } else {
        lemma_bcd_roundtrip(v / 100);
        let s = bcd_bytes(v);
        assert(s.drop_last() =~= bcd_bytes(v / 100));
        assert(s.last() == bcd_byte(v % 100));
        lemma_bcd_byte_nibbles(v % 100);
        lemma_fundamental_div_mod((v % 100) as int, 10);
        lemma_fundamental_div_mod(v as int, 100);
    }
}

/// The nibbles of a BCD byte are the two decimal digits it was built from.
proof fn lemma_bcd_byte_nibbles(x: nat)
    requires
        x < 100,
    ensures
        bcd_byte(x) / 16 == x / 10,
        bcd_byte(x) % 16 == x % 10,
{
    let q = x / 10;
    let r = x % 10;
    lemma_fundamental_div_mod(x as int, 10);
    assert(q <= 9);
    lemma_fundamental_div_mod_converse((q * 16 + r) as int, 16, q as int, r as int);
}

/// Leading zero bytes do not change what BCD bytes read back as.
pub proof fn lemma_bcd_nat_zero_prefix(z: Seq<u8>, t: Seq<u8>)
    requires
        forall|i: int| 0 <= i < z.len() ==> z[i] == 0u8,
    ensures
        bcd_nat(z + t) == bcd_nat(t),
    decreases t.len(),
{
    if t.len() == 0 {
        assert(z + t =~= z);
        lemma_bcd_nat_zeros(z);
    } else {
        assert((z + t).drop_last() =~= z + t.drop_last());
        assert((z + t).last() == t.last());
        lemma_bcd_nat_zero_prefix(z, t.drop_last());
    }
}

proof fn lemma_bcd_nat_zeros(z: Seq<u8>)
    requires
        forall|i: int| 0 <= i < z.len() ==> z[i] == 0u8,
    ensures
        bcd_nat(z) == 0,
    decreases z.len(),
{
    if z.len() > 0 {
        lemma_bcd_nat_zeros(z.drop_last());
    }
}

/// 100^n, the count of values that fit in `n` BCD bytes.
pub open spec fn pow100(n: nat) -> nat
    decreases n,
{
    if n == 0 {
        1
    } else {
        100 * pow100((n - 1) as nat)
    }
}

/// A value below `100^n` needs at most `n` BCD bytes.
pub proof fn lemma_bcd_len(v: nat, n: nat)
    requires
        n >= 1,
        v < pow100(n),
    ensures
        bcd_bytes(v).len() <= n,
    decreases n,
{
    if v < 100 {
    } else {
        assert(n >= 2) by {
            reveal_with_fuel(pow100, 2);
            if n == 1 {
                assert(pow100(1) == 100);
            }
        };
        assert(v / 100 < pow100((n - 1) as nat)) by (nonlinear_arith)
            requires
                v < pow100(n),
                pow100(n) == 100 * pow100((n - 1) as nat),
        ;
        lemma_bcd_len(v / 100, (n - 1) as nat);
    }
}

// --- Hex-digit strings ------------------------------------------------------

/// The ASCII code of the lowercase hex digit for a nibble.
pub open spec fn hex_digit(nib: u8) -> u8
    recommends
        nib < 16,
{
    if nib < 10 {
        (48 + nib) as u8
    } else {
        (87 + nib) as u8
    }
}

/// The ASCII codes of the lowercase hex rendering of bytes, two digits per
/// byte.
pub open spec fn hex_ascii(s: Seq<u8>) -> Seq<u8>
    decreases s.len(),
{
    if s.len() == 0 {
        seq![]
    } else {
        hex_ascii(s.drop_last()) + seq![hex_digit(s.last() / 16), hex_digit(s.last() % 16)]
    }
}

pub open spec fn is_hex_digit_ascii(c: u8) -> bool {
    (48 <= c <= 57) || (97 <= c <= 102)
}

pub open spec fn hex_digit_val(c: u8) -> u8
    recommends
        is_hex_digit_ascii(c),
{
    if c <= 57 {
        (c - 48) as u8
    } else {
        (c - 87) as u8
    }
}

/// ASCII codes that spell a whole number of bytes in lowercase hex.
pub open spec fn is_hex_ascii(a: Seq<u8>) -> bool {
    a.len() % 2 == 0 && forall|i: int| 0 <= i < a.len() ==> is_hex_digit_ascii(#[trigger] a[i])
}

pub proof fn lemma_hex_ascii_len(s: Seq<u8>)
    ensures
        hex_ascii(s).len() == 2 * s.len(),
        is_hex_ascii(hex_ascii(s)),
    decreases s.len(),
{
    if s.len() > 0 {
        lemma_hex_ascii_len(s.drop_last());
        let a = hex_ascii(s);
        let b = hex_ascii(s.drop_last());
        assert forall|i: int| 0 <= i < a.len() implies is_hex_digit_ascii(#[trigger] a[i]) by {
            if i < b.len() {
                assert(a[i] == b[i]);
            }
        };
    }
}

/// The bytes spelled by hex-digit ASCII codes, two digits per byte.
pub open spec fn hex_payload(a: Seq<u8>) -> Seq<u8>
    decreases a.len(),
{
    if a.len() < 2 {
        seq![]
    } else {
        hex_payload(a.take(a.len() - 2)) + seq![
            (hex_digit_val(a[a.len() - 2]) * 16 + hex_digit_val(a[a.len() - 1])) as u8,
        ]
    }
}

/// Packing hex digits and spelling them again are inverse.
pub proof fn lemma_hex_payload_roundtrip(p: Seq<u8>)
    ensures
        hex_payload(hex_ascii(p)) == p,
    decreases p.len(),
{
    if p.len() == 0 {
        assert(hex_payload(hex_ascii(p)) =~= p);
    } else {
        lemma_hex_payload_roundtrip(p.drop_last());
        lemma_hex_ascii_len(p.drop_last());
        let a = hex_ascii(p);
        assert(a == hex_ascii(p.drop_last()) + seq![
            hex_digit(p.last() / 16),
            hex_digit(p.last() % 16),
        ]);
        assert(a.take(a.len() - 2) =~= hex_ascii(p.drop_last()));
        assert(a[a.len() - 2] == hex_digit(p.last() / 16));
        assert(a[a.len() - 1] == hex_digit(p.last() % 16));
        assert(hex_digit_val(hex_digit(p.last() / 16)) == p.last() / 16);
        assert(hex_digit_val(hex_digit(p.last() % 16)) == p.last() % 16);
        assert((p.last() / 16) * 16 + p.last() % 16 == p.last()) by {
            lemma_fundamental_div_mod(p.last() as int, 16);
        };
        assert(hex_payload(a) =~= p.drop_last() + seq![p.last()]);
        assert(p.drop_last() + seq![p.last()] =~= p);
    }
}

/// Spelling packed digits gives back well-formed hex ASCII.
pub proof fn lemma_hex_ascii_payload(a: Seq<u8>)
    requires
        is_hex_ascii(a),
    ensures
        hex_ascii(hex_payload(a)) == a,
        2 * hex_payload(a).len() == a.len(),
    decreases a.len(),
{
    if a.len() == 0 {
        assert(hex_ascii(hex_payload(a)) =~= a);
    } else {
        let front = a.take(a.len() - 2);
        assert(is_hex_ascii(front)) by {
            assert forall|i: int| 0 <= i < front.len() implies is_hex_digit_ascii(
                #[trigger] front[i],
            ) by {
                assert(front[i] == a[i]);
            };
        };
        lemma_hex_ascii_payload(front);
        let c1 = a[a.len() - 2];
        let c2 = a[a.len() - 1];
        let b = (hex_digit_val(c1) * 16 + hex_digit_val(c2)) as u8;
        assert(is_hex_digit_ascii(c1) && is_hex_digit_ascii(c2));
        assert(hex_digit_val(c1) <= 15 && hex_digit_val(c2) <= 15);
        assert(b / 16 == hex_digit_val(c1) && b % 16 == hex_digit_val(c2)) by {
            lemma_fundamental_div_mod_converse(
                b as int,
                16,
                hex_digit_val(c1) as int,
                hex_digit_val(c2) as int,
            );
        };
        assert(hex_digit(hex_digit_val(c1)) == c1);
        assert(hex_digit(hex_digit_val(c2)) == c2);
        let hp = hex_payload(a);
        assert(hp == hex_payload(front) + seq![b]);
        assert(hp.drop_last() =~= hex_payload(front));
        assert(hp.last() == b);
        assert(hex_ascii(hp) == hex_ascii(hex_payload(front)) + seq![
            hex_digit(b / 16),
            hex_digit(b % 16),
        ]);
        assert(hex_ascii(hp) =~= a) by {
            assert(hex_ascii(hex_payload(front)) == front);
            assert(front + seq![c1, c2] =~= a);
        };
    }
}

// --- Strings ------------------------------------------------------------

/// Relies on `String::from_utf8`: it succeeds exactly on valid UTF-8 input
/// and decodes it; vstd's `valid_utf8` and `decode_utf8` state that
/// encoding.
#[verifier::external_body]
pub(crate) fn string_from_utf8(v: Vec<u8>) -> (r: Option<String>)
    ensures
        match r {
            Some(s) => vstd::utf8::valid_utf8(v@) && s@ == vstd::utf8::decode_utf8(v@),
            None => !vstd::utf8::valid_utf8(v@),
        },
{
    String::from_utf8(v).ok()
}

/// The raw bytes of a string: its UTF-8 encoding.
pub fn str_bytes(s: &str) -> (r: Vec<u8>)
    ensures
        r@ == vstd::utf8::encode_utf8(s@),
{
    s.as_bytes_vec()
}

/// A copy of the delimited payload `[pos, end)`.
pub fn copy_range(bytes: &[u8], pos: usize, end: usize) -> (r: Vec<u8>)
    requires
        pos <= end <= bytes@.len(),
    ensures
        r@ == bytes@.subrange(pos as int, end as int),
{
    let sl = vstd::slice::slice_subrange(bytes, pos, end);
    vstd::slice::slice_to_vec(sl)
}

/// Bytes that are all ASCII are a valid UTF-8 encoding.
pub proof fn lemma_ascii_valid_utf8(a: Seq<u8>)
    requires
        forall|i: int| 0 <= i < a.len() ==> a[i] < 0x80,
    ensures
        vstd::utf8::valid_utf8(a),
{
    assert(vstd::utf8::valid_utf8(a.subrange(0, 0)));
    assert(vstd::utf8::partial_valid_utf8(a, 0));
    assert forall|i: int|
        0 <= 0 <= i < a.len() as int <= a.len() implies #[trigger] vstd::utf8::is_leading_byte_width_1(
        a[i],
    ) by {}
    vstd::utf8::partial_valid_utf8_extend_ascii_block(a, 0, a.len() as int);
    assert(a.subrange(0, a.len() as int) =~= a);
}

/// Reads the delimited payload `[pos, end)` as a UTF-8 string; anything
/// else is incomplete data.
pub fn dec_string(bytes: &[u8], pos: usize, end: usize) -> (r: ZVTResult<(String, usize)>)
    requires
        pos <= end <= bytes@.len(),
    ensures
        ({
            let payload = bytes@.subrange(pos as int, end as int);
            match r {
                Ok(v) => vstd::utf8::valid_utf8(payload) && vstd::utf8::encode_utf8(v.0@)
                    == payload && v.1 == end,
                Err(e) => e == ZVTError::IncompleteData && !vstd::utf8::valid_utf8(payload),
            }
        }),
{
    let v = copy_range(bytes, pos, end);
    match string_from_utf8(v) {
        Some(s) => {
            proof {
                vstd::utf8::decode_utf8_encode_utf8(
                    bytes@.subrange(pos as int, end as int),
                );
            }
            Ok((s, end))
        },
        None => Err(ZVTError::IncompleteData),
    }
}

/// Renders the delimited payload `[pos, end)` as its lowercase hex string.
pub fn dec_hex(bytes: &[u8], pos: usize, end: usize) -> (r: String)
    requires
        pos <= end <= bytes@.len(),
    ensures
        vstd::utf8::encode_utf8(r@) == hex_ascii(bytes@.subrange(pos as int, end as int)),
{
    let blen = bytes.len();
    let mut a: Vec<u8> = Vec::new();
    let mut i: usize = pos;
    proof {
        assert(blen <= usize::MAX);
        assert(bytes@.subrange(pos as int, pos as int) =~= Seq::<u8>::empty());
    }
    while i < end
        invariant
            pos <= i <= end <= bytes@.len() <= usize::MAX,
            a@ == hex_ascii(bytes@.subrange(pos as int, i as int)),
        decreases end - i,
    {
        let b = bytes[i];
        let hi = b / 16;
        let lo = b % 16;
        let ghost prev = bytes@.subrange(pos as int, i as int);
        a.push(if hi < 10 { 48 + hi } else { 87 + hi });
        a.push(if lo < 10 { 48 + lo } else { 87 + lo });
        proof {
            let s2 = bytes@.subrange(pos as int, i + 1);
            assert(s2.drop_last() =~= prev);
            assert(s2.last() == bytes@[i as int]);
            assert(a@ =~= hex_ascii(prev) + seq![hex_digit(hi), hex_digit(lo)]);
        }
        i = i + 1;
    }
    proof {
        lemma_hex_ascii_len(bytes@.subrange(pos as int, end as int));
        assert forall|j: int| 0 <= j < a@.len() implies a@[j] < 0x80 by {
            assert(is_hex_digit_ascii(a@[j]));
        };
        lemma_ascii_valid_utf8(a@);
    }
    let ghost av = a@;
    match string_from_utf8(a) {
        Some(s) => {
            proof {
                vstd::utf8::decode_utf8_encode_utf8(av);
            }
            s
        },
        None => {
            proof {
                assert(false);
            }
            String::new()
        },
    }
}

/// Packs a lowercase hex string back into bytes, two digits per byte.
pub fn enc_hex(s: &str) -> (r: Vec<u8>)
    requires
        is_hex_ascii(vstd::utf8::encode_utf8(s@)),
    ensures
        hex_ascii(r@) == vstd::utf8::encode_utf8(s@),
{
    let a = str_bytes(s);
    let alen = a.len();
    let mut r: Vec<u8> = Vec::new();
    let mut i: usize = 0;
    proof {
        assert(alen <= usize::MAX);
        assert(a@.subrange(0, 0) =~= Seq::<u8>::empty());
        assert(hex_ascii(r@) =~= a@.subrange(0, 0));
    }
    while i + 1 < a.len()
        invariant
            i == 2 * r@.len(),
            i <= a@.len() <= usize::MAX,
            a@ == vstd::utf8::encode_utf8(s@),
            is_hex_ascii(a@),
            hex_ascii(r@) == a@.subrange(0, i as int),
        decreases a@.len() - i,
    {
        let c1 = a[i];
        let c2 = a[i + 1];
        assert(is_hex_digit_ascii(c1));
        assert(is_hex_digit_ascii(c2));
        let h1 = if c1 <= 57 { c1 - 48 } else { c1 - 87 };
        let h2 = if c2 <= 57 { c2 - 48 } else { c2 - 87 };
        let b = h1 * 16 + h2;
        let ghost rprev = r@;
        r.push(b);
        proof {
            assert(r@.drop_last() =~= rprev);
            assert(b / 16 == h1 && b % 16 == h2) by {
                lemma_fundamental_div_mod_converse(b as int, 16, h1 as int, h2 as int);
            };
            assert(hex_digit(h1) == c1 && hex_digit(h2) == c2);
            assert(hex_ascii(r@) =~= a@.subrange(0, i + 2));
        }
        i = i + 2;
    }
    proof {
        assert(a@.len() % 2 == 0);
        assert(i == a@.len());
        assert(a@.subrange(0, a@.len() as int) =~= a@);
    }
    r
}

} // verus!
