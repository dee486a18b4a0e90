//! Length codecs: the `<LENGTH>` part of a field or frame.
//!
//! Every codec answers two questions: which bytes announce a payload length,
//! and how a length is read back from the byte stream. Deserializers take the
//! input and a cursor and return the payload length together with the cursor
//! position of the first payload byte.

use crate::errors::ZVTError;
use crate::errors::ZVTResult;
use vstd::prelude::*;

verus! {

/// 10^e, used to state the decimal-digit length encodings.
pub open spec fn pow10(e: nat) -> nat
    decreases e,
{
    if e == 0 {
        1
    } else {
        10 * pow10((e - 1) as nat)
    }
}

/// Marker for the case where no length is encoded.
///
/// Applied by default: it serializes nothing, and deserialization reports
/// everything that is left as the payload without consuming a byte.
pub struct Empty;

/// Marker for a fixed length of `n`.
///
/// Serialization pads the payload to `n` bytes with leading zero bytes;
/// deserialization only checks that `n` bytes are available.
pub struct Fixed;

/// Marker for the BER-style TLV length form.
pub struct Tlv;

/// Marker for the LLV/LLLV length form: `n` plain decimal digit bytes.
pub struct LlvImpl;

/// Marker for the ADPU frame length form.
pub struct Adpu;

impl Empty {
    pub fn serialize(_len: usize) -> (r: Vec<u8>)
        ensures
            r@ == Seq::<u8>::empty(),
    {
        Vec::new()
    }

    pub fn deserialize(bytes: &[u8], pos: usize) -> (r: ZVTResult<(usize, usize)>)
        requires
            pos <= bytes@.len(),
        ensures
            r == Ok::<_, ZVTError>(((bytes@.len() - pos) as usize, pos)),
    {
        Ok(((bytes.len() - pos), pos))
    }
}

/// The zero bytes that pad a payload of `len` bytes up to `n`.
pub open spec fn fixed_len_bytes(n: int, len: int) -> Seq<u8> {
    Seq::new((n - len) as nat, |i: int| 0u8)
}

impl Fixed {
    pub fn serialize(n: usize, len: usize) -> (r: Vec<u8>)
        requires
            len <= n,
        ensures
            r@ == fixed_len_bytes(n as int, len as int),
    {
        let mut r: Vec<u8> = Vec::new();
        let mut i: usize = 0;
        while i < n - len
            invariant
                i <= n - len,
                r@ =~= Seq::new(i as nat, |j: int| 0u8),
            decreases n - len - i,
        {
            r.push(0u8);
            i = i + 1;
        }
        proof {
            assert(r@ =~= fixed_len_bytes(n as int, len as int));
        }
        r
    }

    pub fn deserialize(bytes: &[u8], pos: usize, n: usize) -> (r: ZVTResult<(usize, usize)>)
        requires
            pos <= bytes@.len(),
        ensures
            r == if bytes@.len() - pos < n {
                Err::<(usize, usize), _>(ZVTError::IncompleteData)
            } else {
                Ok::<_, ZVTError>((n, pos))
            },
    {
        if bytes.len() - pos < n {
            Err(ZVTError::IncompleteData)
        } else {
            Ok((n, pos))
        }
    }
}

/// The TLV length form: one byte below 0x80, or `0x81` plus one byte, or
/// `0x82` plus a big-endian pair.
pub open spec fn tlv_len_bytes(len: int) -> Seq<u8> {
    if len <= 127 {
        seq![len as u8]
    } else if len <= 255 {
        seq![0x81u8, len as u8]
    } else {
        seq![0x82u8, (len / 256) as u8, (len % 256) as u8]
    }
}

/// Reading a TLV length at `i`: the result is the length and the position
/// right after the length bytes.
pub open spec fn tlv_parse_len(s: Seq<u8>, i: int) -> ZVTResult<(usize, usize)> {
    if i >= s.len() {
        Err(ZVTError::IncompleteData)
    } else if s[i] <= 127 {
        Ok((s[i] as usize, (i + 1) as usize))
    } else if s[i] == 0x81 {
        if i + 1 < s.len() {
            Ok((s[i + 1] as usize, (i + 2) as usize))
        } else {
            Err(ZVTError::IncompleteData)
        }
    } else if s[i] == 0x82 {
        if i + 2 < s.len() {
            Ok(((s[i + 1] * 256 + s[i + 2]) as usize, (i + 3) as usize))
        } else {
            Err(ZVTError::IncompleteData)
        }
    } else {
        Err(ZVTError::NonImplemented)
    }
}

impl Tlv {
    pub fn serialize(len: usize) -> (r: Vec<u8>)
        requires
            len <= 0xffff,
        ensures
            r@ == tlv_len_bytes(len as int),
    {
        let mut r: Vec<u8> = Vec::new();
        if len <= 127 {
            r.push(len as u8);
        } else if len <= 255 {
            r.push(0x81u8);
            r.push(len as u8);
        } else {
            r.push(0x82u8);
            r.push((len / 256) as u8);
            r.push((len % 256) as u8);
        }
        proof {
            assert(r@ =~= tlv_len_bytes(len as int));
        }
        r
    }

    pub fn deserialize(bytes: &[u8], pos: usize) -> (r: ZVTResult<(usize, usize)>)
        requires
            pos <= bytes@.len(),
        ensures
            r == tlv_parse_len(bytes@, pos as int),
            r matches Ok(v) ==> pos < v.1 <= bytes@.len(),
    {
        if pos >= bytes.len() {
            return Err(ZVTError::IncompleteData);
        }
        let b = bytes[pos];
        if b <= 127 {
            Ok((b as usize, pos + 1))
        } else if b == 0x81 {
            if pos + 1 < bytes.len() {
                Ok((bytes[pos + 1] as usize, pos + 2))
            } else {
                Err(ZVTError::IncompleteData)
            }
        } else if b == 0x82 {
            if bytes.len() - pos > 2 {
                Ok((bytes[pos + 1] as usize * 256 + bytes[pos + 2] as usize, pos + 3))
            } else {
                Err(ZVTError::IncompleteData)
            }
        } else {
            Err(ZVTError::NonImplemented)
        }
    }
}

/// A length as `n` decimal digit bytes, most significant first; only the
/// lowest `n` decimal digits of the value are kept.
pub open spec fn llv_len_bytes(n: nat, len: int) -> Seq<u8> {
    Seq::new(n, |i: int| ((len as nat / pow10((n - 1 - i) as nat)) % 10) as u8)
}

/// The value read back from `n` digit bytes: the low nibble of each byte is
/// taken as one decimal digit.
pub open spec fn llv_nat(s: Seq<u8>, i: int, n: nat) -> nat
    decreases n,
{
    if n == 0 {
        0
    } else {
        llv_nat(s, i, (n - 1) as nat) * 10 + (s[i + n - 1] & 0xf) as nat
    }
}

pub open spec fn llv_parse_len(s: Seq<u8>, i: int, n: nat) -> ZVTResult<(usize, usize)> {
    if i + n <= s.len() {
        Ok((llv_nat(s, i, n) as usize, (i + n) as usize))
    } else {
        Err(ZVTError::IncompleteData)
    }
}

impl LlvImpl {
    pub fn serialize(n: usize, len: usize) -> (r: Vec<u8>)
        ensures
            r@ == llv_len_bytes(n as nat, len as int),
    {
        let mut r: Vec<u8> = Vec::new();
        let mut i: usize = 0;
        while i < n
            invariant
                i <= n,
                r@.len() == i,
                forall|j: int|
                    0 <= j < i ==> r@[j] == ((len as nat / pow10((n - 1 - j) as nat)) % 10) as u8,
            decreases n - i,
        {
            let mut k: usize = len;
            let mut e: usize = n - 1 - i;
            proof {
                lemma_div_pow10(len as nat, (n - 1 - i) as nat);
            }
            while e > 0
                invariant
                    k == len as nat / pow10((n - 1 - i - e) as nat),
                    e <= n - 1 - i,
                decreases e,
            {
                proof {
                    lemma_div_pow10_step(len as nat, (n - 1 - i - e) as nat);
                }
                k = k / 10;
                e = e - 1;
            }
            r.push((k % 10) as u8);
            i = i + 1;
        }
        proof {
            assert(r@ =~= llv_len_bytes(n as nat, len as int));
        }
        r
    }

    pub fn deserialize(bytes: &[u8], pos: usize, n: usize) -> (r: ZVTResult<(usize, usize)>)
        requires
            pos <= bytes@.len(),
            n <= 8,
        ensures
            r == llv_parse_len(bytes@, pos as int, n as nat),
    {
        if bytes.len() - pos < n {
            return Err(ZVTError::IncompleteData);
        }
        let mut rv: usize = 0;
        let mut i: usize = 0;
        while i < n
            invariant
                i <= n <= 8,
                pos + n <= bytes@.len() <= usize::MAX,
                rv == llv_nat(bytes@, pos as int, i as nat),
                rv * 3 <= (pow10(i as nat) - 1) * 5,
            decreases n - i,
        {
            let b = bytes[pos + i];
            let d = b & 0xf;
            proof {
                assert(d <= 15) by (bit_vector)
                    requires
                        d == b & 0xf,
                ;
                lemma_pow10_succ(i as nat);
                assert((rv * 10 + 15) * 3 <= (pow10((i + 1) as nat) - 1) * 5) by (nonlinear_arith)
                    requires
                        rv * 3 <= (pow10(i as nat) - 1) * 5,
                        pow10(i as nat) * 10 == pow10((i + 1) as nat),
                ;
                lemma_pow10_mono(i as nat + 1, 8);
                reveal_with_fuel(pow10, 9);
                assert(pow10(8) == 100000000nat);
                assert(usize::MAX >= u32::MAX);
            }
            rv = rv * 10 + (d as usize);
            i = i + 1;
        }
        Ok((rv, pos + n))
    }
}

pub proof fn lemma_pow10_succ(e: nat)
    ensures
        pow10(e) * 10 == pow10(e + 1),
{
    assert(pow10(e + 1) == 10 * pow10(e));
}

pub proof fn lemma_pow10_mono(a: nat, b: nat)
    requires
        a <= b,
    ensures
        pow10(a) <= pow10(b),
    decreases b,
{
    if a < b {
        lemma_pow10_mono(a, (b - 1) as nat);
        assert(pow10(b) == 10 * pow10((b - 1) as nat));
    }
}

/// `x / 10^e / 10 == x / 10^(e+1)`.
proof fn lemma_div_pow10_step(x: nat, e: nat)
    ensures
        (x / pow10(e)) / 10 == x / pow10(e + 1),
{
    lemma_pow10_pos(e);
    vstd::arithmetic::div_mod::lemma_div_denominator(x as int, pow10(e) as int, 10);
    assert(pow10(e) * 10 == pow10(e + 1)) by {
        lemma_pow10_succ(e);
    };
}

proof fn lemma_div_pow10(x: nat, e: nat)
    ensures
        x / pow10(0) == x,
{
    assert(pow10(0) == 1);
    vstd::arithmetic::div_mod::lemma_div_basics(x as int);
}

pub proof fn lemma_pow10_pos(e: nat)
    ensures
        pow10(e) >= 1,
    decreases e,
{
    if e > 0 {
        lemma_pow10_pos((e - 1) as nat);
    }
}

/// The ADPU length form: one byte below 0xff, else `0xff` plus a
/// little-endian pair.
pub open spec fn adpu_len_bytes(len: int) -> Seq<u8> {
    if len < 0xff {
        seq![len as u8]
    } else {
        seq![0xffu8, (len % 256) as u8, (len / 256) as u8]
    }
}

pub open spec fn adpu_parse_len(s: Seq<u8>, i: int) -> ZVTResult<(usize, usize)> {
    if i >= s.len() {
        Err(ZVTError::IncompleteData)
    } else if s[i] == 0xff {
        if i + 2 < s.len() {
            Ok(((s[i + 1] + s[i + 2] * 256) as usize, (i + 3) as usize))
        } else {
            Err(ZVTError::IncompleteData)
        }
    } else {
        Ok((s[i] as usize, (i + 1) as usize))
    }
}

impl Adpu {
    pub fn serialize(len: usize) -> (r: Vec<u8>)
        requires
            len <= 0xffff,
        ensures
            r@ == adpu_len_bytes(len as int),
    {
        let mut r: Vec<u8> = Vec::new();
        if len < 0xff {
            r.push(len as u8);
        } else {
            r.push(0xffu8);
            r.push((len % 256) as u8);
            r.push((len / 256) as u8);
        }
        proof {
            assert(r@ =~= adpu_len_bytes(len as int));
        }
        r
    }

    pub fn deserialize(bytes: &[u8], pos: usize) -> (r: ZVTResult<(usize, usize)>)
        requires
            pos <= bytes@.len(),
        ensures
            r == adpu_parse_len(bytes@, pos as int),
            r matches Ok(v) ==> pos < v.1 <= bytes@.len(),
    {
        if pos >= bytes.len() {
            return Err(ZVTError::IncompleteData);
        }
        let b = bytes[pos];
        if b == 0xff {
            if bytes.len() - pos > 2 {
                Ok((bytes[pos + 1] as usize + bytes[pos + 2] as usize * 256, pos + 3))
            } else {
                Err(ZVTError::IncompleteData)
            }
        } else {
            Ok((b as usize, pos + 1))
        }
    }
}

/// Round trip of the TLV length form: any accepted length written by
/// `Tlv::serialize` is read back unchanged, wherever it stands in a larger
/// buffer.
pub proof fn lemma_tlv_len_roundtrip(s: Seq<u8>, i: int, len: usize)
    requires
        len <= 0xffff,
        0 <= i,
        i + tlv_len_bytes(len as int).len() <= s.len(),
        s.subrange(i, i + tlv_len_bytes(len as int).len()) == tlv_len_bytes(len as int),
    ensures
        tlv_parse_len(s, i) == Ok::<_, ZVTError>(
            (len, (i + tlv_len_bytes(len as int).len()) as usize),
        ),
{
    let b = tlv_len_bytes(len as int);
    assert(s[i] == b[0]);
    if len <= 127 {
    } else if len <= 255 {
        assert(s[i + 1] == b[1]);
    } else {
        assert(s[i + 1] == b[1]);
        assert(s[i + 2] == b[2]);
        assert((len / 256) * 256 + (len % 256) == len) by (nonlinear_arith);
    }
}

/// Round trip of the ADPU length form.
pub proof fn lemma_adpu_len_roundtrip(s: Seq<u8>, i: int, len: usize)
    requires
        len <= 0xffff,
        0 <= i,
        i + adpu_len_bytes(len as int).len() <= s.len(),
        s.subrange(i, i + adpu_len_bytes(len as int).len()) == adpu_len_bytes(len as int),
    ensures
        adpu_parse_len(s, i) == Ok::<_, ZVTError>(
            (len, (i + adpu_len_bytes(len as int).len()) as usize),
        ),
{
    let b = adpu_len_bytes(len as int);
    assert(s[i] == b[0]);
    if len >= 0xff {
        assert(s[i + 1] == b[1]);
        assert(s[i + 2] == b[2]);
        assert((len % 256) + (len / 256) * 256 == len) by (nonlinear_arith);
    }
}

/// Round trip of the LLV length form for lengths below `10^n`.
pub proof fn lemma_llv_len_roundtrip(s: Seq<u8>, i: int, n: nat, len: usize)
    requires
        (len as nat) < pow10(n),
        0 <= i,
        i + n <= s.len(),
        s.subrange(i, i + n as int) == llv_len_bytes(n, len as int),
    ensures
        llv_parse_len(s, i, n) == Ok::<_, ZVTError>((len, (i + n) as usize)),
{
    let b = llv_len_bytes(n, len as int);
    assert forall|j: int| 0 <= j < n implies #[trigger] s[i + j] == ((len as nat / pow10(
        (n - 1 - j) as nat,
    )) % 10) as u8 by {
        assert(s[i + j] == s.subrange(i, i + n as int)[j]);
        assert(s.subrange(i, i + n as int)[j] == b[j]);
    };
    lemma_llv_nat_digits(s, i, n, len as nat);
}

/// Digit bytes written by the LLV serializer evaluate back to the value.
proof fn lemma_llv_nat_digits(s: Seq<u8>, i: int, n: nat, v: nat)
    requires
        v < pow10(n),
        0 <= i,
        i + n <= s.len(),
        forall|j: int| 0 <= j < n ==> #[trigger] s[i + j] == ((v / pow10((n - 1 - j) as nat)) % 10) as u8,
    ensures
        llv_nat(s, i, n) == v,
    decreases n,
{
    if n == 0 {
        assert(v < 1);
    } else {
        let hi = v / 10;
        let lo = v % 10;
        assert(v == hi * 10 + lo) by (nonlinear_arith)
            requires
                hi == v / 10 && lo == v % 10,
        ;
        assert(hi < pow10((n - 1) as nat)) by {
            lemma_pow10_succ((n - 1) as nat);
            assert(v < pow10((n - 1) as nat) * 10);
            assert(v / 10 < pow10((n - 1) as nat)) by (nonlinear_arith)
                requires
                    v < pow10((n - 1) as nat) * 10,
                    pow10((n - 1) as nat) >= 1,
            ;
        };
        assert forall|j: int| 0 <= j < n - 1 implies #[trigger] s[i + j] == ((hi / pow10(
            (n - 2 - j) as nat,
        )) % 10) as u8 by {
            assert(s[i + j] == ((v / pow10((n - 1 - j) as nat)) % 10) as u8);
            lemma_div_pow10_step(v, (n - 2 - j) as nat);
            assert((v / 10) / pow10((n - 2 - j) as nat) == v / pow10((n - 1 - j) as nat)) by {
                lemma_pow10_pos((n - 2 - j) as nat);
                vstd::arithmetic::div_mod::lemma_div_denominator(
                    v as int,
                    10,
                    pow10((n - 2 - j) as nat) as int,
                );
                lemma_pow10_succ((n - 2 - j) as nat);
                assert(10 * pow10((n - 2 - j) as nat) == pow10((n - 1 - j) as nat));
            };
        };
        lemma_llv_nat_digits(s, i, (n - 1) as nat, hi);
        assert(s[i + n - 1] == ((v / pow10(0)) % 10) as u8);
        assert(v / pow10(0) == v) by {
            assert(pow10(0) == 1);
            vstd::arithmetic::div_mod::lemma_div_basics(v as int);
        };
        assert(s[i + n - 1] == (lo as u8));
        let lastb = s[i + n - 1];
        assert((lastb & 0xf) == lastb) by (bit_vector)
            requires
                lastb < 10,
        ;
        assert(llv_nat(s, i, n) == llv_nat(s, i, (n - 1) as nat) * 10 + (s[i + n - 1] & 0xf));
    }
}

} // verus!
