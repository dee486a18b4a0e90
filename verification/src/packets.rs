//! The standard ZVT packets: each one encodes to its ADPU frame and is read
//! back from one.

pub mod tlv;

use crate::encoding;
use crate::errors::ZVTError;
use crate::errors::ZVTResult;
use crate::fields;
use crate::fields::ErrorView;
use crate::fields::FieldDesc;
use crate::fields::LengthSpec;
use crate::fields::NumEncoding;
use crate::length;
use crate::Tag;
use vstd::prelude::*;
use vstd::string::StringExecFns;

verus! {

// --- The ADPU frame around a packet body -------------------------------------

/// A full frame: control field, ADPU length, body.
pub open spec fn frame_bytes(class: u8, instr: u8, body: Seq<u8>) -> Seq<u8> {
    seq![class, instr] + length::adpu_len_bytes(body.len() as int) + body
}

pub fn ser_frame(class: u8, instr: u8, body: Vec<u8>) -> (r: Vec<u8>)
    requires
        body@.len() <= 0xffff,
    ensures
        r@ == frame_bytes(class, instr, body@),
{
    let ghost bv = body@;
    let mut r: Vec<u8> = Vec::new();
    r.push(class);
    r.push(instr);
    let mut lb = length::Adpu::serialize(body.len());
    r.append(&mut lb);
    let mut b = body;
    r.append(&mut b);
    proof {
        assert(r@ =~= frame_bytes(class, instr, bv));
    }
    r
}

/// Reading a frame head: the expected control field, then the ADPU length,
/// then the delimited payload region.
pub open spec fn spec_de_frame(s: Seq<u8>, class: u8, instr: u8) -> ZVTResult<(usize, usize)> {
    if s.len() < 2 {
        Err(ZVTError::IncompleteData)
    } else if s[0] != class || s[1] != instr {
        Err(ZVTError::WrongTag(Tag((s[0] * 256 + s[1]) as u16)))
    } else {
        match length::adpu_parse_len(s, 2) {
            Err(e) => Err(e),
            Ok((l, q)) => {
                if q + l <= s.len() {
                    Ok((q, (q + l) as usize))
                } else {
                    Err(ZVTError::IncompleteData)
                }
            },
        }
    }
}

pub fn de_frame(bytes: &[u8], class: u8, instr: u8) -> (r: ZVTResult<(usize, usize)>)
    ensures
        r == spec_de_frame(bytes@, class, instr),
        r matches Ok(v) ==> 2 <= v.0 <= v.1 <= bytes@.len(),
{
    if bytes.len() < 2 {
        return Err(ZVTError::IncompleteData);
    }
    if bytes[0] != class || bytes[1] != instr {
        return Err(ZVTError::WrongTag(Tag(bytes[0] as u16 * 256 + bytes[1] as u16)));
    }
    match length::Adpu::deserialize(bytes, 2) {
        Err(e) => Err(e),
        Ok((l, q)) => {
            if bytes.len() - q >= l {
                Ok((q, q + l))
            } else {
                Err(ZVTError::IncompleteData)
            }
        },
    }
}

/// A whole frame around a body is read back as exactly that body's region.
pub proof fn lemma_de_frame(s: Seq<u8>, class: u8, instr: u8, body: Seq<u8>, rest: Seq<u8>)
    requires
        body.len() <= 0xffff,
        s == frame_bytes(class, instr, body) + rest,
        s.len() <= usize::MAX,
    ensures
        ({
            let hl = 2 + length::adpu_len_bytes(body.len() as int).len();
            &&& spec_de_frame(s, class, instr) == Ok::<_, ZVTError>(
                ((hl) as usize, (hl + body.len()) as usize),
            )
            &&& s.subrange(hl as int, hl + body.len() as int) == body
            &&& hl + body.len() == s.len() - rest.len()
        }),
{
    let lb = length::adpu_len_bytes(body.len() as int);
    let hl = 2 + lb.len() as int;
    let fb = frame_bytes(class, instr, body);
    assert(s[0] == class && s[1] == instr);
    assert(seq![class, instr].len() == 2);
    assert(s.subrange(0, 2 + (lb + body + rest).len() as int) =~= seq![class, instr] + (lb + body
        + rest));
    fields::lemma_peel(s, 0, seq![class, instr], lb + body + rest);
    assert(s.subrange(2, 2 + lb.len() + (body + rest).len() as int) =~= lb + (body + rest)) by {
        assert(s.subrange(2, 2 + (lb + body + rest).len() as int) == lb + body + rest);
        assert(lb + body + rest =~= lb + (body + rest));
        assert(2 + lb.len() + (body + rest).len() == 2 + (lb + body + rest).len());
    };
    fields::lemma_peel(s, 2, lb, body + rest);
    length::lemma_adpu_len_roundtrip(s, 2, body.len() as usize);
    fields::lemma_peel(s, hl, body, rest);
}

/// The rejection frame: any instruction under the Nack class.
#[derive(Debug, PartialEq)]
pub struct Nack {
    pub instr: u8,
}

// --- The receipt-number encoding of partial reversals ------------------------

/// The wire form of a partial-reversal receipt number: two BCD bytes, or
/// the literal `FF FF` for the query-all sentinel that BCD cannot spell.
pub open spec fn receipt_no_bytes(v: usize) -> Seq<u8> {
    if v == 0xffff {
        seq![0xffu8, 0xffu8]
    } else {
        fields::padded_region(LengthSpec::Fixed(2), encoding::bcd_bytes(v as nat))
    }
}

/// The receipt-number codec of the partial-reversal packets.
pub struct PartialReversalReceiptNo;

impl PartialReversalReceiptNo {
    /// `0xFFFF` becomes the literal bytes `FF FF`; other values two BCD
    /// bytes.
    pub fn encode(v: usize) -> (r: Vec<u8>)
        requires
            v == 0xffff || encoding::bcd_bytes(v as nat).len() <= 2,
        ensures
            r@ == receipt_no_bytes(v),
            r@.len() == 2,
    {
        if v == 0xffff {
            let mut r: Vec<u8> = Vec::new();
            r.push(0xff);
            r.push(0xff);
            proof {
                assert(r@ =~= receipt_no_bytes(v));
            }
            r
        } else {
            fields::pad_fixed(encoding::enc_bcd(v), 2)
        }
    }

    /// The literal `FF FF` reads as `0xFFFF`; anything else as two BCD
    /// bytes. Fewer than two bytes are incomplete.
    pub fn decode(bytes: &[u8], pos: usize) -> (r: ZVTResult<(usize, usize)>)
        requires
            pos <= bytes@.len(),
        ensures
            r == spec_receipt_no_parse(bytes@, pos as int),
    {
        if bytes.len() - pos < 2 {
            return Err(ZVTError::IncompleteData);
        }
        if bytes[pos] == 0xff && bytes[pos + 1] == 0xff {
            Ok((0xffff, pos + 2))
        } else {
            let v = encoding::dec_bcd(bytes, pos, pos + 2);
            Ok((v, pos + 2))
        }
    }
}

pub open spec fn spec_receipt_no_parse(s: Seq<u8>, i: int) -> ZVTResult<(usize, usize)> {
    if s.len() - i < 2 {
        Err(ZVTError::IncompleteData)
    } else if s[i] == 0xff && s[i + 1] == 0xff {
        Ok((0xffff, (i + 2) as usize))
    } else {
        Ok(
            (
                (encoding::bcd_nat(s.subrange(i, i + 2)) % encoding::usize_mod()) as usize,
                (i + 2) as usize,
            ),
        )
    }
}

/// Every BCD byte keeps both nibbles below ten.
pub proof fn lemma_bcd_bytes_le(v: nat)
    ensures
        forall|i: int|
            0 <= i < encoding::bcd_bytes(v).len() ==> #[trigger] encoding::bcd_bytes(v)[i] <= 0x99,
    decreases v,
{
    if v < 100 {
        assert(encoding::bcd_bytes(v)[0] == encoding::bcd_byte(v));
        assert((v / 10) * 16 + v % 10 <= 0x99) by (nonlinear_arith)
            requires
                v < 100,
        ;
    } else {
        lemma_bcd_bytes_le(v / 100);
        let s = encoding::bcd_bytes(v);
        assert forall|i: int| 0 <= i < s.len() implies #[trigger] s[i] <= 0x99 by {
            if i < s.len() - 1 {
                assert(s[i] == encoding::bcd_bytes(v / 100)[i]);
            } else {
                assert(s[i] == encoding::bcd_byte(v % 100));
                assert(((v % 100) / 10) * 16 + (v % 100) % 10 <= 0x99) by (nonlinear_arith)
                    requires
                        v % 100 < 100,
                ;
            }
        };
    }
}

/// The receipt-number round trip, also on the sentinel.
pub proof fn lemma_receipt_no_roundtrip(v: usize)
    requires
        v == 0xffff || encoding::bcd_bytes(v as nat).len() <= 2,
    ensures
        spec_receipt_no_parse(receipt_no_bytes(v), 0) == Ok::<_, ZVTError>((v, 2usize)),
        receipt_no_bytes(v).len() == 2,
    decreases v,
{
    let b = receipt_no_bytes(v);
    if v == 0xffff {
    } else {
        lemma_bcd_bytes_le(v as nat);
        let bcd = encoding::bcd_bytes(v as nat);
        let zeros = length::fixed_len_bytes(2, bcd.len() as int);
        assert(b == zeros + bcd);
        assert(b[0] != 0xff || b[1] != 0xff) by {
            if zeros.len() == 0 {
                assert(b[0] == bcd[0]);
            } else {
                assert(b[0] == 0u8);
            }
        };
        encoding::lemma_bcd_nat_zero_prefix(zeros, bcd);
        encoding::lemma_bcd_roundtrip(v as nat);
        vstd::arithmetic::div_mod::lemma_small_mod(v as nat, encoding::usize_mod());
        assert(b.subrange(0, 2) =~= b);
    }
}

/// A payload that is two receipt-number bytes under a tag.
pub fn entry_opt_receipt_no(entries: &Vec<(u16, Vec<u8>)>, t: u16) -> (r: ZVTResult<
    Option<usize>,
>)
    ensures
        r == match fields::find_entry(fields::entries_view(entries@), t) {
            None => Ok::<_, ZVTError>(None::<usize>),
            Some(pl) => match spec_receipt_no_parse(pl, 0) {
                Ok(v) => Ok::<_, ZVTError>(Some(v.0)),
                Err(e) => Err::<Option<usize>, _>(e),
            },
        },
{
    match fields::find_payload(entries, t) {
        None => Ok(None),
        Some(pl) => {
            let ghost plv = pl@;
            match PartialReversalReceiptNo::decode(pl.as_slice(), 0) {
                Ok((v, _)) => Ok(Some(v)),
                Err(e) => Err(e),
            }
        },
    }
}

/// Leading zero padding does not change a BCD field's value.
pub proof fn lemma_padded_bcd(v: usize, n: usize)
    ensures
        encoding::bcd_nat(
            fields::padded_region(LengthSpec::Fixed(n), encoding::bcd_bytes(v as nat)),
        ) == encoding::bcd_nat(encoding::bcd_bytes(v as nat)),
{
    let bcd = encoding::bcd_bytes(v as nat);
    encoding::lemma_bcd_nat_zero_prefix(length::fixed_len_bytes(n as int, bcd.len() as int), bcd);
}

/// A payload that exactly fills its fixed width carries no padding.
pub proof fn lemma_padded_exact(b: Seq<u8>, n: usize)
    requires
        b.len() == n,
    ensures
        fields::padded_region(LengthSpec::Fixed(n), b) == b,
{
    assert(fields::padded_region(LengthSpec::Fixed(n), b) =~= b);
}

/// The diagnosis kinds a terminal can run.
#[derive(Debug, Clone, Copy, PartialEq, Eq, Structural)]
pub enum DiagnosisType {
    Line,
    Extended,
    Configuration,
    EmvConfiguration,
    Ep2Configuration,
}

impl DiagnosisType {
    /// The byte the Diagnosis TLV block carries for this kind.
    pub open spec fn spec_code(self) -> u8 {
        match self {
            DiagnosisType::Line => 1,
            DiagnosisType::Extended => 2,
            DiagnosisType::Configuration => 3,
            DiagnosisType::EmvConfiguration => 4,
            DiagnosisType::Ep2Configuration => 5,
        }
    }

    pub fn code(&self) -> (r: u8)
        ensures
            r == self.spec_code(),
    {
        match self {
            DiagnosisType::Line => 1,
            DiagnosisType::Extended => 2,
            DiagnosisType::Configuration => 3,
            DiagnosisType::EmvConfiguration => 4,
            DiagnosisType::Ep2Configuration => 5,
        }
    }
}

/// The diagnosis kind a command-line word names, by number or by name;
/// anything else names none.
pub open spec fn spec_parse_diagnosis(s: Seq<char>) -> Option<DiagnosisType> {
    if s == "1"@ || s == "line"@ {
        Some(DiagnosisType::Line)
    } else if s == "2"@ || s == "extended"@ {
        Some(DiagnosisType::Extended)
    } else if s == "3"@ || s == "configuration"@ {
        Some(DiagnosisType::Configuration)
    } else if s == "4"@ || s == "emv_configuration"@ {
        Some(DiagnosisType::EmvConfiguration)
    } else if s == "5"@ || s == "ep2_configuration"@ {
        Some(DiagnosisType::Ep2Configuration)
    } else {
        None
    }
}

pub fn parse_diagnosis(s: &str) -> (r: Option<DiagnosisType>)
    ensures
        r == spec_parse_diagnosis(s@),
{
    let w = String::from_str(s);
    if w.eq(&String::from_str("1")) || w.eq(&String::from_str("line")) {
        Some(DiagnosisType::Line)
    } else if w.eq(&String::from_str("2")) || w.eq(&String::from_str("extended")) {
        Some(DiagnosisType::Extended)
    } else if w.eq(&String::from_str("3")) || w.eq(&String::from_str("configuration")) {
        Some(DiagnosisType::Configuration)
    } else if w.eq(&String::from_str("4")) || w.eq(&String::from_str("emv_configuration")) {
        Some(DiagnosisType::EmvConfiguration)
    } else if w.eq(&String::from_str("5")) || w.eq(&String::from_str("ep2_configuration")) {
        Some(DiagnosisType::Ep2Configuration)
    } else {
        None
    }
}

/// Pairs a BMP-60 prefix and reference into the TLV block of a reservation
/// request: both given builds the block, neither builds none, and one
/// without the other is incomplete.
pub fn prep_bmp_data(bmp_prefix: Option<String>, bmp_data: Option<String>) -> (r: ZVTResult<
    Option<tlv::PreAuthData>,
>)
    ensures
        match (bmp_prefix, bmp_data) {
            (Some(p), Some(d)) => r matches Ok(o) && (o matches Some(block) && (block.bmp_data
                matches Some(b) && b.bmp_prefix@ == p@ && b.bmp_data@ == d@)),
            (None, None) => r == Ok::<_, ZVTError>(None::<tlv::PreAuthData>),
            _ => r == Err::<Option<tlv::PreAuthData>, _>(ZVTError::IncompleteData),
        },
{
    match (bmp_prefix, bmp_data) {
        (Some(p), Some(d)) => Ok(
            Some(tlv::PreAuthData { bmp_data: Some(tlv::Bmp60 { bmp_prefix: p, bmp_data: d }) }),
        ),
        (None, None) => Ok(None),
        _ => Err(ZVTError::IncompleteData),
    }
}

/// The terminal aborts the dialog; the error code is from the chapter-10 table.
#[derive(Debug, PartialEq)]
pub struct Abort {
    pub error: u8,
}

impl Abort {
    pub open spec fn wf(self) -> bool {
        true
    }

    pub open spec fn spec_fs(self) -> Seq<(u16, LengthSpec, Option<Seq<u8>>)> {
        seq![
        ]
    }

    pub open spec fn body_bytes(self) -> Seq<u8> {
        seq![self.error] + (fields::cat_opt_fields(self.spec_fs()))
    }

    pub open spec fn spec_descs() -> Seq<FieldDesc> {
        seq![
        ]
    }

    fn descs() -> (r: Vec<FieldDesc>)
        ensures r@ == Self::spec_descs(),
    {
        let mut v: Vec<FieldDesc> = Vec::new();
        proof { assert(v@ =~= Self::spec_descs()); }
        v
    }

    proof fn lemma_meta(self)
        ensures
    {
        let ds = Self::spec_descs();
        let fs = self.spec_fs();
        let ds0 = ds; let fs0 = fs;
        assert(ds0 =~= Seq::<FieldDesc>::empty()); assert(fs0 =~= Seq::<(u16, LengthSpec, Option<Seq<u8>>)>::empty());
        fields::lemma_low5(0x1f);
    }

    pub proof fn lemma_body_parses(self, s: Seq<u8>)
        requires self.wf(), s == self.body_bytes(), s.len() <= usize::MAX,
        ensures
            fields::spec_parse_fields(s, self.pos_len(), Self::spec_descs(), seq![], seq![]) == Ok::<_, ErrorView>((fields::cat_opt_entries(self.spec_fs()), s.len() as int)),
            self.pos_len() + fields::cat_opt_fields(self.spec_fs()).len() == s.len(),
    {
        let ds = Self::spec_descs();
        let fs = self.spec_fs();
        self.lemma_meta();
        let p0 = self.pos_len();
        let cat = fields::cat_opt_fields(fs);
        assert(s.subrange(0, s.len() as int) =~= s);
        fields::lemma_peel(s, 0, seq![self.error], cat);
        assert(p0 == 0 + (seq![self.error]).len() as int);
        assert(s.subrange(p0, s.len() as int) =~= cat);
        assert(s.subrange(p0, p0 + cat.len() as int) =~= cat);
        assert(fields::fs_ok(fs, ds, seq![])) by {
            assert forall|j: int| 0 <= j < fs.len() && (#[trigger] fs[j]).2 is Some implies {
                &&& encoding::tag_wf(fs[j].0)
                &&& fields::find_desc(ds, fs[j].0) matches Some(d) && d.len == fs[j].1 && fields::region_wf(d.len, d.width as int, fs[j].2.unwrap().len() as int) && (d.repeatable || (!seq![].contains(fs[j].0) && forall|i: int| 0 <= i < j ==> (#[trigger] fs[i]).0 != fs[j].0))
            } by {
            };
        };
        fields::lemma_parse_cat(s, p0, ds, seq![], seq![], fs);
        fields::lemma_parse_fields_stop(s, s.len() as int, ds, seq![] + fields::present_tags(fs), seq![] + fields::cat_opt_entries(fs));
        let seen = seq![] + fields::present_tags(fs);
        assert(seen =~= fields::present_tags(fs));
        assert forall|kk: int| 0 <= kk < ds.len() implies !(#[trigger] ds[kk]).required || seen.contains(ds[kk].tag) by {
        };
        fields::lemma_finish_ok(ds, seen, seq![] + fields::cat_opt_entries(fs), s.len() as int);
        assert(seq![] + fields::cat_opt_entries(fs) =~= fields::cat_opt_entries(fs));
    }

    pub open spec fn pos_len(self) -> int {
        (seq![self.error]).len() as int
    }

    pub fn encode_body(&self) -> (r: Vec<u8>)
        requires self.wf(),
        ensures r@ == self.body_bytes(),
    {
        let mut out: Vec<u8> = Vec::new();
        out.push(self.error);
        proof {
            self.lemma_meta();
            let fs = self.spec_fs();
        let fs0 = fs;
        assert(fields::cat_opt_fields(fs0) =~= Seq::<u8>::empty());
            assert(out@ =~= self.body_bytes());
        }
        out
    }

    pub fn decode_body(bytes: &[u8]) -> (r: ZVTResult<(Self, usize)>)
        ensures
            r matches Ok(v) ==> v.1 <= bytes@.len(),
            forall|v: Self|
                v.wf() && (true) && bytes@ == #[trigger] v.body_bytes() ==> (r matches Ok(o) && o.0 == v
                    && o.1 == bytes@.len()),
    {
        let blen_e = bytes.len();
        proof { assert(bytes@.len() <= usize::MAX); }
        proof {
            assert forall|v: Self| v.wf() && (true) && bytes@ == #[trigger] v.body_bytes() implies Abort::master_facts(v, bytes@) by { Abort::lemma_master(v, bytes@); };
        }
        let mut p: usize = 0;
        let f_error = match fields::de_u8_tagged(bytes, p, None, LengthSpec::Unprefixed, NumEncoding::LittleEndian) { Ok((x, q)) => { p = q; x }, Err(e) => { return Err(e); } };
        let descs = Self::descs();
        let parsed = fields::parse_tagged_fields(bytes, p, &descs);
        let (entries, pos_end) = match parsed { Ok(v) => v, Err(e) => { return Err(e); } };
        let result = Self {
            error: f_error,
        };
        proof {
            assert forall|v: Self| v.wf() && (true) && bytes@ == #[trigger] v.body_bytes() implies result == v by {
                Abort::lemma_master(v, bytes@);
            };
        }
        Ok((result, pos_end))
    }

    pub open spec fn master_facts(v: Self, s: Seq<u8>) -> bool {
        &&& fields::spec_de_u8_tagged(s, 0, None, LengthSpec::Unprefixed, NumEncoding::LittleEndian) == Ok::<_, ZVTError>((v.error, (0 + 1) as usize))
        &&& fields::spec_parse_fields(s, v.pos_len(), Self::spec_descs(), seq![], seq![]) == Ok::<_, ErrorView>((fields::cat_opt_entries(v.spec_fs()), s.len() as int))
    }

    pub proof fn lemma_master(v: Self, s: Seq<u8>)
        requires v.wf(), (true), s == v.body_bytes(), s.len() <= usize::MAX,
        ensures Self::master_facts(v, s),
    {
        v.lemma_meta();
        v.lemma_body_parses(s);
        let fs = v.spec_fs();
        let cat = fields::cat_opt_fields(fs);
        assert(s.subrange(0, s.len() as int) =~= s);
        fields::lemma_peel(s, 0, seq![v.error], cat);
        assert(s[(0) as int] == v.error) by { assert(s.subrange((0) as int, (0 + 1) as int)[0] == (seq![v.error])[0]); };
    }
    pub fn zvt_serialize(&self) -> (r: Vec<u8>)
        requires self.wf(), self.body_bytes().len() <= 0xffff,
        ensures r@ == crate::packets::frame_bytes(6, 30, self.body_bytes()),
    {
        let body = self.encode_body();
        crate::packets::ser_frame(6, 30, body)
    }

    pub fn zvt_deserialize(bytes: &[u8]) -> (r: ZVTResult<(Self, usize)>)
        ensures
            r matches Ok(v) ==> v.1 <= bytes@.len(),
            forall|v: Self, rest: Seq<u8>|
                v.wf() && (true) && v.body_bytes().len() <= 0xffff && bytes@ == #[trigger] (crate::packets::frame_bytes(6, 30, v.body_bytes()) + rest) ==> (r matches Ok(o) && o.0 == v && o.1 == bytes@.len() - rest.len()),
    {
        let blen_e = bytes.len();
        proof { assert(bytes@.len() <= usize::MAX); }
        let (ps, pe) = match crate::packets::de_frame(bytes, 6, 30) {
            Ok(v) => v,
            Err(e) => {
                proof {
                    assert forall|v: Self, rest: Seq<u8>| v.wf() && (true) && v.body_bytes().len() <= 0xffff && bytes@ == #[trigger] (crate::packets::frame_bytes(6, 30, v.body_bytes()) + rest) implies false by { crate::packets::lemma_de_frame(bytes@, 6, 30, v.body_bytes(), rest); };
                }
                return Err(e);
            },
        };
        let payload = encoding::copy_range(bytes, ps, pe);
        proof {
            assert forall|v: Self, rest: Seq<u8>| v.wf() && (true) && v.body_bytes().len() <= 0xffff && bytes@ == #[trigger] (crate::packets::frame_bytes(6, 30, v.body_bytes()) + rest) implies (payload@ == v.body_bytes() && pe - ps == v.body_bytes().len() && pe == bytes@.len() - rest.len()) by { crate::packets::lemma_de_frame(bytes@, 6, 30, v.body_bytes(), rest); };
        }
        match Self::decode_body(payload.as_slice()) {
            Ok((p, consumed)) => Ok((p, ps + consumed)),
            Err(e) => Err(e),
        }
    }
}

/// Starts the end-of-day settlement.
#[derive(Debug, PartialEq)]
pub struct EndOfDay {
    pub password: usize,
}

impl EndOfDay {
    pub open spec fn wf(self) -> bool {
        &&& encoding::bcd_bytes(self.password as nat).len() <= 3
    }

    pub open spec fn spec_fs(self) -> Seq<(u16, LengthSpec, Option<Seq<u8>>)> {
        seq![
        ]
    }

    pub open spec fn body_bytes(self) -> Seq<u8> {
        fields::padded_region(LengthSpec::Fixed(3), encoding::bcd_bytes(self.password as nat)) + (fields::cat_opt_fields(self.spec_fs()))
    }

    pub open spec fn spec_descs() -> Seq<FieldDesc> {
        seq![
        ]
    }

    fn descs() -> (r: Vec<FieldDesc>)
        ensures r@ == Self::spec_descs(),
    {
        let mut v: Vec<FieldDesc> = Vec::new();
        proof { assert(v@ =~= Self::spec_descs()); }
        v
    }

    proof fn lemma_meta(self)
        ensures
    {
        let ds = Self::spec_descs();
        let fs = self.spec_fs();
        let ds0 = ds; let fs0 = fs;
        assert(ds0 =~= Seq::<FieldDesc>::empty()); assert(fs0 =~= Seq::<(u16, LengthSpec, Option<Seq<u8>>)>::empty());
        fields::lemma_low5(0x1f);
    }

    pub proof fn lemma_body_parses(self, s: Seq<u8>)
        requires self.wf(), s == self.body_bytes(), s.len() <= usize::MAX,
        ensures
            fields::spec_parse_fields(s, self.pos_len(), Self::spec_descs(), seq![], seq![]) == Ok::<_, ErrorView>((fields::cat_opt_entries(self.spec_fs()), s.len() as int)),
            self.pos_len() + fields::cat_opt_fields(self.spec_fs()).len() == s.len(),
    {
        let ds = Self::spec_descs();
        let fs = self.spec_fs();
        self.lemma_meta();
        let p0 = self.pos_len();
        let cat = fields::cat_opt_fields(fs);
        assert(s.subrange(0, s.len() as int) =~= s);
        fields::lemma_peel(s, 0, fields::padded_region(LengthSpec::Fixed(3), encoding::bcd_bytes(self.password as nat)), cat);
        assert(p0 == 0 + (fields::padded_region(LengthSpec::Fixed(3), encoding::bcd_bytes(self.password as nat))).len() as int);
        assert(s.subrange(p0, s.len() as int) =~= cat);
        assert(s.subrange(p0, p0 + cat.len() as int) =~= cat);
        assert(fields::fs_ok(fs, ds, seq![])) by {
            assert forall|j: int| 0 <= j < fs.len() && (#[trigger] fs[j]).2 is Some implies {
                &&& encoding::tag_wf(fs[j].0)
                &&& fields::find_desc(ds, fs[j].0) matches Some(d) && d.len == fs[j].1 && fields::region_wf(d.len, d.width as int, fs[j].2.unwrap().len() as int) && (d.repeatable || (!seq![].contains(fs[j].0) && forall|i: int| 0 <= i < j ==> (#[trigger] fs[i]).0 != fs[j].0))
            } by {
            };
        };
        fields::lemma_parse_cat(s, p0, ds, seq![], seq![], fs);
        fields::lemma_parse_fields_stop(s, s.len() as int, ds, seq![] + fields::present_tags(fs), seq![] + fields::cat_opt_entries(fs));
        let seen = seq![] + fields::present_tags(fs);
        assert(seen =~= fields::present_tags(fs));
        assert forall|kk: int| 0 <= kk < ds.len() implies !(#[trigger] ds[kk]).required || seen.contains(ds[kk].tag) by {
        };
        fields::lemma_finish_ok(ds, seen, seq![] + fields::cat_opt_entries(fs), s.len() as int);
        assert(seq![] + fields::cat_opt_entries(fs) =~= fields::cat_opt_entries(fs));
    }

    pub open spec fn pos_len(self) -> int {
        (fields::padded_region(LengthSpec::Fixed(3), encoding::bcd_bytes(self.password as nat))).len() as int
    }

    pub fn encode_body(&self) -> (r: Vec<u8>)
        requires self.wf(),
        ensures r@ == self.body_bytes(),
    {
        let mut out: Vec<u8> = Vec::new();
        { let region = fields::pad_fixed(encoding::enc_bcd(self.password), 3); fields::ser_field(&mut out, None, LengthSpec::Fixed(3), &region); }
        proof {
            self.lemma_meta();
            let fs = self.spec_fs();
        let fs0 = fs;
        assert(fields::cat_opt_fields(fs0) =~= Seq::<u8>::empty());
            assert(out@ =~= self.body_bytes());
        }
        out
    }

    pub fn decode_body(bytes: &[u8]) -> (r: ZVTResult<(Self, usize)>)
        ensures
            r matches Ok(v) ==> v.1 <= bytes@.len(),
            forall|v: Self|
                v.wf() && (true) && bytes@ == #[trigger] v.body_bytes() ==> (r matches Ok(o) && o.0 == v
                    && o.1 == bytes@.len()),
    {
        let blen_e = bytes.len();
        proof { assert(bytes@.len() <= usize::MAX); }
        proof {
            assert forall|v: Self| v.wf() && (true) && bytes@ == #[trigger] v.body_bytes() implies EndOfDay::master_facts(v, bytes@) by { EndOfDay::lemma_master(v, bytes@); };
        }
        let mut p: usize = 0;
        let f_password = match fields::de_usize_bcd(bytes, p, LengthSpec::Fixed(3)) { Ok((x, q)) => { p = q; x }, Err(e) => { return Err(e); } };
        let descs = Self::descs();
        let parsed = fields::parse_tagged_fields(bytes, p, &descs);
        let (entries, pos_end) = match parsed { Ok(v) => v, Err(e) => { return Err(e); } };
        let result = Self {
            password: f_password,
        };
        proof {
            assert forall|v: Self| v.wf() && (true) && bytes@ == #[trigger] v.body_bytes() implies result == v by {
                EndOfDay::lemma_master(v, bytes@);
            };
        }
        Ok((result, pos_end))
    }

    pub open spec fn master_facts(v: Self, s: Seq<u8>) -> bool {
        &&& fields::spec_de_usize_bcd(s, 0, LengthSpec::Fixed(3)) == Ok::<_, ZVTError>((v.password, (0 + 3) as usize))
        &&& fields::spec_parse_fields(s, v.pos_len(), Self::spec_descs(), seq![], seq![]) == Ok::<_, ErrorView>((fields::cat_opt_entries(v.spec_fs()), s.len() as int))
    }

    pub proof fn lemma_master(v: Self, s: Seq<u8>)
        requires v.wf(), (true), s == v.body_bytes(), s.len() <= usize::MAX,
        ensures Self::master_facts(v, s),
    {
        v.lemma_meta();
        v.lemma_body_parses(s);
        let fs = v.spec_fs();
        let cat = fields::cat_opt_fields(fs);
        assert(s.subrange(0, s.len() as int) =~= s);
        fields::lemma_peel(s, 0, fields::padded_region(LengthSpec::Fixed(3), encoding::bcd_bytes(v.password as nat)), cat);
        { let zeros = length::fixed_len_bytes(3, encoding::bcd_bytes(v.password as nat).len() as int); encoding::lemma_bcd_nat_zero_prefix(zeros, encoding::bcd_bytes(v.password as nat)); encoding::lemma_bcd_roundtrip(v.password as nat); vstd::arithmetic::div_mod::lemma_small_mod(v.password as nat, encoding::usize_mod()); assert(s.subrange((0) as int, (0 + 3) as int) =~= fields::padded_region(LengthSpec::Fixed(3), encoding::bcd_bytes(v.password as nat))); }
    }
    pub fn zvt_serialize(&self) -> (r: Vec<u8>)
        requires self.wf(), self.body_bytes().len() <= 0xffff,
        ensures r@ == crate::packets::frame_bytes(6, 80, self.body_bytes()),
    {
        let body = self.encode_body();
        crate::packets::ser_frame(6, 80, body)
    }

    pub fn zvt_deserialize(bytes: &[u8]) -> (r: ZVTResult<(Self, usize)>)
        ensures
            r matches Ok(v) ==> v.1 <= bytes@.len(),
            forall|v: Self, rest: Seq<u8>|
                v.wf() && (true) && v.body_bytes().len() <= 0xffff && bytes@ == #[trigger] (crate::packets::frame_bytes(6, 80, v.body_bytes()) + rest) ==> (r matches Ok(o) && o.0 == v && o.1 == bytes@.len() - rest.len()),
    {
        let blen_e = bytes.len();
        proof { assert(bytes@.len() <= usize::MAX); }
        let (ps, pe) = match crate::packets::de_frame(bytes, 6, 80) {
            Ok(v) => v,
            Err(e) => {
                proof {
                    assert forall|v: Self, rest: Seq<u8>| v.wf() && (true) && v.body_bytes().len() <= 0xffff && bytes@ == #[trigger] (crate::packets::frame_bytes(6, 80, v.body_bytes()) + rest) implies false by { crate::packets::lemma_de_frame(bytes@, 6, 80, v.body_bytes(), rest); };
                }
                return Err(e);
            },
        };
        let payload = encoding::copy_range(bytes, ps, pe);
        proof {
            assert forall|v: Self, rest: Seq<u8>| v.wf() && (true) && v.body_bytes().len() <= 0xffff && bytes@ == #[trigger] (crate::packets::frame_bytes(6, 80, v.body_bytes()) + rest) implies (payload@ == v.body_bytes() && pe - ps == v.body_bytes().len() && pe == bytes@.len() - rest.len()) by { crate::packets::lemma_de_frame(bytes@, 6, 80, v.body_bytes(), rest); };
        }
        match Self::decode_body(payload.as_slice()) {
            Ok((p, consumed)) => Ok((p, ps + consumed)),
            Err(e) => Err(e),
        }
    }
}

/// Forces the terminal to run its initialisation dialog.
#[derive(Debug, PartialEq)]
pub struct Initialization {
    pub password: usize,
}

impl Initialization {
    pub open spec fn wf(self) -> bool {
        &&& encoding::bcd_bytes(self.password as nat).len() <= 3
    }

    pub open spec fn spec_fs(self) -> Seq<(u16, LengthSpec, Option<Seq<u8>>)> {
        seq![
        ]
    }

    pub open spec fn body_bytes(self) -> Seq<u8> {
        fields::padded_region(LengthSpec::Fixed(3), encoding::bcd_bytes(self.password as nat)) + (fields::cat_opt_fields(self.spec_fs()))
    }

    pub open spec fn spec_descs() -> Seq<FieldDesc> {
        seq![
        ]
    }

    fn descs() -> (r: Vec<FieldDesc>)
        ensures r@ == Self::spec_descs(),
    {
        let mut v: Vec<FieldDesc> = Vec::new();
        proof { assert(v@ =~= Self::spec_descs()); }
        v
    }

    proof fn lemma_meta(self)
        ensures
    {
        let ds = Self::spec_descs();
        let fs = self.spec_fs();
        let ds0 = ds; let fs0 = fs;
        assert(ds0 =~= Seq::<FieldDesc>::empty()); assert(fs0 =~= Seq::<(u16, LengthSpec, Option<Seq<u8>>)>::empty());
        fields::lemma_low5(0x1f);
    }

    pub proof fn lemma_body_parses(self, s: Seq<u8>)
        requires self.wf(), s == self.body_bytes(), s.len() <= usize::MAX,
        ensures
            fields::spec_parse_fields(s, self.pos_len(), Self::spec_descs(), seq![], seq![]) == Ok::<_, ErrorView>((fields::cat_opt_entries(self.spec_fs()), s.len() as int)),
            self.pos_len() + fields::cat_opt_fields(self.spec_fs()).len() == s.len(),
    {
        let ds = Self::spec_descs();
        let fs = self.spec_fs();
        self.lemma_meta();
        let p0 = self.pos_len();
        let cat = fields::cat_opt_fields(fs);
        assert(s.subrange(0, s.len() as int) =~= s);
        fields::lemma_peel(s, 0, fields::padded_region(LengthSpec::Fixed(3), encoding::bcd_bytes(self.password as nat)), cat);
        assert(p0 == 0 + (fields::padded_region(LengthSpec::Fixed(3), encoding::bcd_bytes(self.password as nat))).len() as int);
        assert(s.subrange(p0, s.len() as int) =~= cat);
        assert(s.subrange(p0, p0 + cat.len() as int) =~= cat);
        assert(fields::fs_ok(fs, ds, seq![])) by {
            assert forall|j: int| 0 <= j < fs.len() && (#[trigger] fs[j]).2 is Some implies {
                &&& encoding::tag_wf(fs[j].0)
                &&& fields::find_desc(ds, fs[j].0) matches Some(d) && d.len == fs[j].1 && fields::region_wf(d.len, d.width as int, fs[j].2.unwrap().len() as int) && (d.repeatable || (!seq![].contains(fs[j].0) && forall|i: int| 0 <= i < j ==> (#[trigger] fs[i]).0 != fs[j].0))
            } by {
            };
        };
        fields::lemma_parse_cat(s, p0, ds, seq![], seq![], fs);
        fields::lemma_parse_fields_stop(s, s.len() as int, ds, seq![] + fields::present_tags(fs), seq![] + fields::cat_opt_entries(fs));
        let seen = seq![] + fields::present_tags(fs);
        assert(seen =~= fields::present_tags(fs));
        assert forall|kk: int| 0 <= kk < ds.len() implies !(#[trigger] ds[kk]).required || seen.contains(ds[kk].tag) by {
        };
        fields::lemma_finish_ok(ds, seen, seq![] + fields::cat_opt_entries(fs), s.len() as int);
        assert(seq![] + fields::cat_opt_entries(fs) =~= fields::cat_opt_entries(fs));
    }

    pub open spec fn pos_len(self) -> int {
        (fields::padded_region(LengthSpec::Fixed(3), encoding::bcd_bytes(self.password as nat))).len() as int
    }

    pub fn encode_body(&self) -> (r: Vec<u8>)
        requires self.wf(),
        ensures r@ == self.body_bytes(),
    {
        let mut out: Vec<u8> = Vec::new();
        { let region = fields::pad_fixed(encoding::enc_bcd(self.password), 3); fields::ser_field(&mut out, None, LengthSpec::Fixed(3), &region); }
        proof {
            self.lemma_meta();
            let fs = self.spec_fs();
        let fs0 = fs;
        assert(fields::cat_opt_fields(fs0) =~= Seq::<u8>::empty());
            assert(out@ =~= self.body_bytes());
        }
        out
    }

    pub fn decode_body(bytes: &[u8]) -> (r: ZVTResult<(Self, usize)>)
        ensures
            r matches Ok(v) ==> v.1 <= bytes@.len(),
            forall|v: Self|
                v.wf() && (true) && bytes@ == #[trigger] v.body_bytes() ==> (r matches Ok(o) && o.0 == v
                    && o.1 == bytes@.len()),
    {
        let blen_e = bytes.len();
        proof { assert(bytes@.len() <= usize::MAX); }
        proof {
            assert forall|v: Self| v.wf() && (true) && bytes@ == #[trigger] v.body_bytes() implies Initialization::master_facts(v, bytes@) by { Initialization::lemma_master(v, bytes@); };
        }
        let mut p: usize = 0;
        let f_password = match fields::de_usize_bcd(bytes, p, LengthSpec::Fixed(3)) { Ok((x, q)) => { p = q; x }, Err(e) => { return Err(e); } };
        let descs = Self::descs();
        let parsed = fields::parse_tagged_fields(bytes, p, &descs);
        let (entries, pos_end) = match parsed { Ok(v) => v, Err(e) => { return Err(e); } };
        let result = Self {
            password: f_password,
        };
        proof {
            assert forall|v: Self| v.wf() && (true) && bytes@ == #[trigger] v.body_bytes() implies result == v by {
                Initialization::lemma_master(v, bytes@);
            };
        }
        Ok((result, pos_end))
    }

    pub open spec fn master_facts(v: Self, s: Seq<u8>) -> bool {
        &&& fields::spec_de_usize_bcd(s, 0, LengthSpec::Fixed(3)) == Ok::<_, ZVTError>((v.password, (0 + 3) as usize))
        &&& fields::spec_parse_fields(s, v.pos_len(), Self::spec_descs(), seq![], seq![]) == Ok::<_, ErrorView>((fields::cat_opt_entries(v.spec_fs()), s.len() as int))
    }

    pub proof fn lemma_master(v: Self, s: Seq<u8>)
        requires v.wf(), (true), s == v.body_bytes(), s.len() <= usize::MAX,
        ensures Self::master_facts(v, s),
    {
        v.lemma_meta();
        v.lemma_body_parses(s);
        let fs = v.spec_fs();
        let cat = fields::cat_opt_fields(fs);
        assert(s.subrange(0, s.len() as int) =~= s);
        fields::lemma_peel(s, 0, fields::padded_region(LengthSpec::Fixed(3), encoding::bcd_bytes(v.password as nat)), cat);
        { let zeros = length::fixed_len_bytes(3, encoding::bcd_bytes(v.password as nat).len() as int); encoding::lemma_bcd_nat_zero_prefix(zeros, encoding::bcd_bytes(v.password as nat)); encoding::lemma_bcd_roundtrip(v.password as nat); vstd::arithmetic::div_mod::lemma_small_mod(v.password as nat, encoding::usize_mod()); assert(s.subrange((0) as int, (0 + 3) as int) =~= fields::padded_region(LengthSpec::Fixed(3), encoding::bcd_bytes(v.password as nat))); }
    }
    pub fn zvt_serialize(&self) -> (r: Vec<u8>)
        requires self.wf(), self.body_bytes().len() <= 0xffff,
        ensures r@ == crate::packets::frame_bytes(6, 147, self.body_bytes()),
    {
        let body = self.encode_body();
        crate::packets::ser_frame(6, 147, body)
    }

    pub fn zvt_deserialize(bytes: &[u8]) -> (r: ZVTResult<(Self, usize)>)
        ensures
            r matches Ok(v) ==> v.1 <= bytes@.len(),
            forall|v: Self, rest: Seq<u8>|
                v.wf() && (true) && v.body_bytes().len() <= 0xffff && bytes@ == #[trigger] (crate::packets::frame_bytes(6, 147, v.body_bytes()) + rest) ==> (r matches Ok(o) && o.0 == v && o.1 == bytes@.len() - rest.len()),
    {
        let blen_e = bytes.len();
        proof { assert(bytes@.len() <= usize::MAX); }
        let (ps, pe) = match crate::packets::de_frame(bytes, 6, 147) {
            Ok(v) => v,
            Err(e) => {
                proof {
                    assert forall|v: Self, rest: Seq<u8>| v.wf() && (true) && v.body_bytes().len() <= 0xffff && bytes@ == #[trigger] (crate::packets::frame_bytes(6, 147, v.body_bytes()) + rest) implies false by { crate::packets::lemma_de_frame(bytes@, 6, 147, v.body_bytes(), rest); };
                }
                return Err(e);
            },
        };
        let payload = encoding::copy_range(bytes, ps, pe);
        proof {
            assert forall|v: Self, rest: Seq<u8>| v.wf() && (true) && v.body_bytes().len() <= 0xffff && bytes@ == #[trigger] (crate::packets::frame_bytes(6, 147, v.body_bytes()) + rest) implies (payload@ == v.body_bytes() && pe - ps == v.body_bytes().len() && pe == bytes@.len() - rest.len()) by { crate::packets::lemma_de_frame(bytes@, 6, 147, v.body_bytes(), rest); };
        }
        match Self::decode_body(payload.as_slice()) {
            Ok((p, consumed)) => Ok((p, ps + consumed)),
            Err(e) => Err(e),
        }
    }
}

/// Ends a dialog successfully.
#[derive(Debug, PartialEq)]
pub struct CompletionData {
    pub result_code: Option<u8>,
    pub status_byte: Option<u8>,
    pub terminal_id: Option<usize>,
    pub currency: Option<usize>,
}

impl CompletionData {
    pub open spec fn wf(self) -> bool {
        &&& (match self.terminal_id { Some(k) => encoding::bcd_bytes(k as nat).len() <= 4, None => true })
        &&& (match self.currency { Some(k) => encoding::bcd_bytes(k as nat).len() <= 2, None => true })
    }

    pub open spec fn spec_fs(self) -> Seq<(u16, LengthSpec, Option<Seq<u8>>)> {
        seq![
            (0x27u16, LengthSpec::Unprefixed, crate::packets::tlv::opt_u8_region(self.result_code)),
            (0x19u16, LengthSpec::Unprefixed, crate::packets::tlv::opt_u8_region(self.status_byte)),
            (0x29u16, LengthSpec::Fixed(4), (match self.terminal_id { Some(k) => Some(fields::padded_region(LengthSpec::Fixed(4), encoding::bcd_bytes(k as nat))), None => None })),
            (0x49u16, LengthSpec::Fixed(2), (match self.currency { Some(k) => Some(fields::padded_region(LengthSpec::Fixed(2), encoding::bcd_bytes(k as nat))), None => None })),
        ]
    }

    pub open spec fn body_bytes(self) -> Seq<u8> {
        fields::cat_opt_fields(self.spec_fs())
    }

    pub open spec fn spec_descs() -> Seq<FieldDesc> {
        seq![
            FieldDesc { tag: 0x27, len: LengthSpec::Unprefixed, width: 1, repeatable: false, required: false },
            FieldDesc { tag: 0x19, len: LengthSpec::Unprefixed, width: 1, repeatable: false, required: false },
            FieldDesc { tag: 0x29, len: LengthSpec::Fixed(4), width: 0, repeatable: false, required: false },
            FieldDesc { tag: 0x49, len: LengthSpec::Fixed(2), width: 0, repeatable: false, required: false },
        ]
    }

    fn descs() -> (r: Vec<FieldDesc>)
        ensures r@ == Self::spec_descs(),
    {
        let mut v: Vec<FieldDesc> = Vec::new();
        v.push(FieldDesc { tag: 0x27, len: LengthSpec::Unprefixed, width: 1, repeatable: false, required: false });
        v.push(FieldDesc { tag: 0x19, len: LengthSpec::Unprefixed, width: 1, repeatable: false, required: false });
        v.push(FieldDesc { tag: 0x29, len: LengthSpec::Fixed(4), width: 0, repeatable: false, required: false });
        v.push(FieldDesc { tag: 0x49, len: LengthSpec::Fixed(2), width: 0, repeatable: false, required: false });
        proof { assert(v@ =~= Self::spec_descs()); }
        v
    }

    proof fn lemma_meta(self)
        ensures
            fields::find_desc(Self::spec_descs(), 0x27) == Some(Self::spec_descs()[0]),
            encoding::tag_wf(0x27),
            fields::fs_lookup(self.spec_fs(), 0x27) == crate::packets::tlv::opt_u8_region(self.result_code),
            fields::find_desc(Self::spec_descs(), 0x19) == Some(Self::spec_descs()[1]),
            encoding::tag_wf(0x19),
            fields::fs_lookup(self.spec_fs(), 0x19) == crate::packets::tlv::opt_u8_region(self.status_byte),
            fields::find_desc(Self::spec_descs(), 0x29) == Some(Self::spec_descs()[2]),
            encoding::tag_wf(0x29),
            fields::fs_lookup(self.spec_fs(), 0x29) == (match self.terminal_id { Some(k) => Some(fields::padded_region(LengthSpec::Fixed(4), encoding::bcd_bytes(k as nat))), None => None }),
            fields::find_desc(Self::spec_descs(), 0x49) == Some(Self::spec_descs()[3]),
            encoding::tag_wf(0x49),
            fields::fs_lookup(self.spec_fs(), 0x49) == (match self.currency { Some(k) => Some(fields::padded_region(LengthSpec::Fixed(2), encoding::bcd_bytes(k as nat))), None => None }),
    {
        let ds = Self::spec_descs();
        let fs = self.spec_fs();
        let ds0 = ds; let fs0 = fs;
        let ds1 = ds0.drop_first(); let fs1 = fs0.drop_first();
        let ds2 = ds1.drop_first(); let fs2 = fs1.drop_first();
        let ds3 = ds2.drop_first(); let fs3 = fs2.drop_first();
        let ds4 = ds3.drop_first(); let fs4 = fs3.drop_first();
        assert(ds0[0] == ds[0]); assert(fs0[0] == fs[0]);
        assert(ds0.len() == 4); assert(fs0.len() == 4);
        assert(ds1[0] == ds[1]); assert(fs1[0] == fs[1]);
        assert(ds1.len() == 3); assert(fs1.len() == 3);
        assert(ds2[0] == ds[2]); assert(fs2[0] == fs[2]);
        assert(ds2.len() == 2); assert(fs2.len() == 2);
        assert(ds3[0] == ds[3]); assert(fs3[0] == fs[3]);
        assert(ds3.len() == 1); assert(fs3.len() == 1);
        assert(ds4 =~= Seq::<FieldDesc>::empty()); assert(fs4 =~= Seq::<(u16, LengthSpec, Option<Seq<u8>>)>::empty());
        fields::lemma_low5(0x1f);
        fields::lemma_low5(0x27);
        fields::lemma_low5(0x19);
        fields::lemma_low5(0x29);
        fields::lemma_low5(0x49);
        assert(fields::find_desc(ds0, 0x27) == Some(ds[0]));
        assert(fields::find_desc(ds1, 0x19) == Some(ds[1]));
        assert(fields::find_desc(ds0, 0x19) == fields::find_desc(ds1, 0x19));
        assert(fields::find_desc(ds2, 0x29) == Some(ds[2]));
        assert(fields::find_desc(ds1, 0x29) == fields::find_desc(ds2, 0x29));
        assert(fields::find_desc(ds0, 0x29) == fields::find_desc(ds1, 0x29));
        assert(fields::find_desc(ds3, 0x49) == Some(ds[3]));
        assert(fields::find_desc(ds2, 0x49) == fields::find_desc(ds3, 0x49));
        assert(fields::find_desc(ds1, 0x49) == fields::find_desc(ds2, 0x49));
        assert(fields::find_desc(ds0, 0x49) == fields::find_desc(ds1, 0x49));
        assert(fields::fs_lookup(fs4, 0x27) == None::<Seq<u8>>);
        assert(fields::fs_lookup(fs3, 0x27) == None::<Seq<u8>>);
        assert(fields::fs_lookup(fs2, 0x27) == None::<Seq<u8>>);
        assert(fields::fs_lookup(fs1, 0x27) == None::<Seq<u8>>);
        assert(fields::fs_lookup(fs0, 0x27) == crate::packets::tlv::opt_u8_region(self.result_code));
        assert(fields::fs_lookup(fs4, 0x19) == None::<Seq<u8>>);
        assert(fields::fs_lookup(fs3, 0x19) == None::<Seq<u8>>);
        assert(fields::fs_lookup(fs2, 0x19) == None::<Seq<u8>>);
        assert(fields::fs_lookup(fs1, 0x19) == crate::packets::tlv::opt_u8_region(self.status_byte));
        assert(fields::fs_lookup(fs0, 0x19) == fields::fs_lookup(fs1, 0x19));
        assert(fields::fs_lookup(fs4, 0x29) == None::<Seq<u8>>);
        assert(fields::fs_lookup(fs3, 0x29) == None::<Seq<u8>>);
        assert(fields::fs_lookup(fs2, 0x29) == (match self.terminal_id { Some(k) => Some(fields::padded_region(LengthSpec::Fixed(4), encoding::bcd_bytes(k as nat))), None => None }));
        assert(fields::fs_lookup(fs1, 0x29) == fields::fs_lookup(fs2, 0x29));
        assert(fields::fs_lookup(fs0, 0x29) == fields::fs_lookup(fs1, 0x29));
        assert(fields::fs_lookup(fs4, 0x49) == None::<Seq<u8>>);
        assert(fields::fs_lookup(fs3, 0x49) == (match self.currency { Some(k) => Some(fields::padded_region(LengthSpec::Fixed(2), encoding::bcd_bytes(k as nat))), None => None }));
        assert(fields::fs_lookup(fs2, 0x49) == fields::fs_lookup(fs3, 0x49));
        assert(fields::fs_lookup(fs1, 0x49) == fields::fs_lookup(fs2, 0x49));
        assert(fields::fs_lookup(fs0, 0x49) == fields::fs_lookup(fs1, 0x49));
    }

    pub proof fn lemma_body_parses(self, s: Seq<u8>)
        requires self.wf(), s == self.body_bytes(), s.len() <= usize::MAX,
        ensures
            fields::spec_parse_fields(s, self.pos_len(), Self::spec_descs(), seq![], seq![]) == Ok::<_, ErrorView>((fields::cat_opt_entries(self.spec_fs()), s.len() as int)),
            self.pos_len() + fields::cat_opt_fields(self.spec_fs()).len() == s.len(),
    {
        let ds = Self::spec_descs();
        let fs = self.spec_fs();
        self.lemma_meta();
        let p0 = self.pos_len();
        assert(p0 == 0);
        assert(s.subrange(0, fields::cat_opt_fields(fs).len() as int) =~= fields::cat_opt_fields(fs));
        assert(fields::fs_ok(fs, ds, seq![])) by {
            assert forall|j: int| 0 <= j < fs.len() && (#[trigger] fs[j]).2 is Some implies {
                &&& encoding::tag_wf(fs[j].0)
                &&& fields::find_desc(ds, fs[j].0) matches Some(d) && d.len == fs[j].1 && fields::region_wf(d.len, d.width as int, fs[j].2.unwrap().len() as int) && (d.repeatable || (!seq![].contains(fs[j].0) && forall|i: int| 0 <= i < j ==> (#[trigger] fs[i]).0 != fs[j].0))
            } by {
                if j == 0 { assert(fs[0].0 == 0x27); }
                if j == 1 { assert(fs[1].0 == 0x19); }
                if j == 2 { assert(fs[2].0 == 0x29); }
                if j == 3 { assert(fs[3].0 == 0x49); }
            };
        };
        fields::lemma_parse_cat(s, p0, ds, seq![], seq![], fs);
        fields::lemma_parse_fields_stop(s, s.len() as int, ds, seq![] + fields::present_tags(fs), seq![] + fields::cat_opt_entries(fs));
        let seen = seq![] + fields::present_tags(fs);
        assert(seen =~= fields::present_tags(fs));
        assert forall|kk: int| 0 <= kk < ds.len() implies !(#[trigger] ds[kk]).required || seen.contains(ds[kk].tag) by {
            if kk == 0 { assert(!ds[0].required); }
            if kk == 1 { assert(!ds[1].required); }
            if kk == 2 { assert(!ds[2].required); }
            if kk == 3 { assert(!ds[3].required); }
        };
        fields::lemma_finish_ok(ds, seen, seq![] + fields::cat_opt_entries(fs), s.len() as int);
        assert(seq![] + fields::cat_opt_entries(fs) =~= fields::cat_opt_entries(fs));
    }

    pub open spec fn pos_len(self) -> int {
        0
    }

    pub fn encode_body(&self) -> (r: Vec<u8>)
        requires self.wf(),
        ensures r@ == self.body_bytes(),
    {
        let mut out: Vec<u8> = Vec::new();
        match self.result_code { Some(k) => { let region = encoding::enc_u8(k); fields::ser_field(&mut out, Some(Tag(0x27)), LengthSpec::Unprefixed, &region); }, None => {} }
        match self.status_byte { Some(k) => { let region = encoding::enc_u8(k); fields::ser_field(&mut out, Some(Tag(0x19)), LengthSpec::Unprefixed, &region); }, None => {} }
        match self.terminal_id { Some(k) => { let region = fields::pad_fixed(encoding::enc_bcd(k), 4); fields::ser_field(&mut out, Some(Tag(0x29)), LengthSpec::Fixed(4), &region); }, None => {} }
        match self.currency { Some(k) => { let region = fields::pad_fixed(encoding::enc_bcd(k), 2); fields::ser_field(&mut out, Some(Tag(0x49)), LengthSpec::Fixed(2), &region); }, None => {} }
        proof {
            self.lemma_meta();
            let fs = self.spec_fs();
        let fs0 = fs;
        let fs1 = fs0.drop_first();
        let fs2 = fs1.drop_first();
        let fs3 = fs2.drop_first();
        let fs4 = fs3.drop_first();
        assert(fields::cat_opt_fields(fs0) == fields::opt_field_bytes(fs0[0].0, fs0[0].1, fs0[0].2) + fields::cat_opt_fields(fs1)); assert(fs0[0] == fs[0]);
        assert(fields::cat_opt_fields(fs1) == fields::opt_field_bytes(fs1[0].0, fs1[0].1, fs1[0].2) + fields::cat_opt_fields(fs2)); assert(fs1[0] == fs[1]);
        assert(fields::cat_opt_fields(fs2) == fields::opt_field_bytes(fs2[0].0, fs2[0].1, fs2[0].2) + fields::cat_opt_fields(fs3)); assert(fs2[0] == fs[2]);
        assert(fields::cat_opt_fields(fs3) == fields::opt_field_bytes(fs3[0].0, fs3[0].1, fs3[0].2) + fields::cat_opt_fields(fs4)); assert(fs3[0] == fs[3]);
        assert(fields::cat_opt_fields(fs4) =~= Seq::<u8>::empty());
            assert(out@ =~= self.body_bytes());
        }
        out
    }

    pub fn decode_body(bytes: &[u8]) -> (r: ZVTResult<(Self, usize)>)
        ensures
            r matches Ok(v) ==> v.1 <= bytes@.len(),
            forall|v: Self|
                v.wf() && (true) && bytes@ == #[trigger] v.body_bytes() ==> (r matches Ok(o) && o.0 == v
                    && o.1 == bytes@.len()),
    {
        let blen_e = bytes.len();
        proof { assert(bytes@.len() <= usize::MAX); }
        proof {
            assert forall|v: Self| v.wf() && (true) && bytes@ == #[trigger] v.body_bytes() implies CompletionData::master_facts(v, bytes@) by { CompletionData::lemma_master(v, bytes@); };
        }
        let mut p: usize = 0;
        let descs = Self::descs();
        let parsed = fields::parse_tagged_fields(bytes, p, &descs);
        let (entries, pos_end) = match parsed { Ok(v) => v, Err(e) => { return Err(e); } };
        let f_result_code = match fields::entry_opt_u8(&entries, 0x27) { Ok(v) => v, Err(e) => { return Err(e); } };
        let f_status_byte = match fields::entry_opt_u8(&entries, 0x19) { Ok(v) => v, Err(e) => { return Err(e); } };
        let f_terminal_id = fields::entry_opt_usize_bcd(&entries, 0x29);
        let f_currency = fields::entry_opt_usize_bcd(&entries, 0x49);
        let result = Self {
            result_code: f_result_code,
            status_byte: f_status_byte,
            terminal_id: f_terminal_id,
            currency: f_currency,
        };
        proof {
            assert forall|v: Self| v.wf() && (true) && bytes@ == #[trigger] v.body_bytes() implies result == v by {
                CompletionData::lemma_master(v, bytes@);
                match v.terminal_id { Some(kk) => { encoding::lemma_bcd_roundtrip(kk as nat); crate::packets::lemma_padded_bcd(kk, 4); vstd::arithmetic::div_mod::lemma_small_mod(kk as nat, encoding::usize_mod()); }, None => {} }
                match v.currency { Some(kk) => { encoding::lemma_bcd_roundtrip(kk as nat); crate::packets::lemma_padded_bcd(kk, 2); vstd::arithmetic::div_mod::lemma_small_mod(kk as nat, encoding::usize_mod()); }, None => {} }
            };
        }
        Ok((result, pos_end))
    }

    pub open spec fn master_facts(v: Self, s: Seq<u8>) -> bool {
        &&& fields::spec_parse_fields(s, v.pos_len(), Self::spec_descs(), seq![], seq![]) == Ok::<_, ErrorView>((fields::cat_opt_entries(v.spec_fs()), s.len() as int))
        &&& fields::find_entry(fields::cat_opt_entries(v.spec_fs()), 0x27) == crate::packets::tlv::opt_u8_region(v.result_code)
        &&& fields::find_entry(fields::cat_opt_entries(v.spec_fs()), 0x19) == crate::packets::tlv::opt_u8_region(v.status_byte)
        &&& fields::find_entry(fields::cat_opt_entries(v.spec_fs()), 0x29) == (match v.terminal_id { Some(k) => Some(fields::padded_region(LengthSpec::Fixed(4), encoding::bcd_bytes(k as nat))), None => None })
        &&& fields::find_entry(fields::cat_opt_entries(v.spec_fs()), 0x49) == (match v.currency { Some(k) => Some(fields::padded_region(LengthSpec::Fixed(2), encoding::bcd_bytes(k as nat))), None => None })
    }

    pub proof fn lemma_master(v: Self, s: Seq<u8>)
        requires v.wf(), (true), s == v.body_bytes(), s.len() <= usize::MAX,
        ensures Self::master_facts(v, s),
    {
        v.lemma_meta();
        v.lemma_body_parses(s);
        let fs = v.spec_fs();
        fields::lemma_find_entry_fs(fs, 0x27);
        fields::lemma_find_entry_fs(fs, 0x19);
        fields::lemma_find_entry_fs(fs, 0x29);
        fields::lemma_find_entry_fs(fs, 0x49);
    }
    pub fn zvt_serialize(&self) -> (r: Vec<u8>)
        requires self.wf(), self.body_bytes().len() <= 0xffff,
        ensures r@ == crate::packets::frame_bytes(6, 15, self.body_bytes()),
    {
        let body = self.encode_body();
        crate::packets::ser_frame(6, 15, body)
    }

    pub fn zvt_deserialize(bytes: &[u8]) -> (r: ZVTResult<(Self, usize)>)
        ensures
            r matches Ok(v) ==> v.1 <= bytes@.len(),
            forall|v: Self, rest: Seq<u8>|
                v.wf() && (true) && v.body_bytes().len() <= 0xffff && bytes@ == #[trigger] (crate::packets::frame_bytes(6, 15, v.body_bytes()) + rest) ==> (r matches Ok(o) && o.0 == v && o.1 == bytes@.len() - rest.len()),
    {
        let blen_e = bytes.len();
        proof { assert(bytes@.len() <= usize::MAX); }
        let (ps, pe) = match crate::packets::de_frame(bytes, 6, 15) {
            Ok(v) => v,
            Err(e) => {
                proof {
                    assert forall|v: Self, rest: Seq<u8>| v.wf() && (true) && v.body_bytes().len() <= 0xffff && bytes@ == #[trigger] (crate::packets::frame_bytes(6, 15, v.body_bytes()) + rest) implies false by { crate::packets::lemma_de_frame(bytes@, 6, 15, v.body_bytes(), rest); };
                }
                return Err(e);
            },
        };
        let payload = encoding::copy_range(bytes, ps, pe);
        proof {
            assert forall|v: Self, rest: Seq<u8>| v.wf() && (true) && v.body_bytes().len() <= 0xffff && bytes@ == #[trigger] (crate::packets::frame_bytes(6, 15, v.body_bytes()) + rest) implies (payload@ == v.body_bytes() && pe - ps == v.body_bytes().len() && pe == bytes@.len() - rest.len()) by { crate::packets::lemma_de_frame(bytes@, 6, 15, v.body_bytes(), rest); };
        }
        match Self::decode_body(payload.as_slice()) {
            Ok((p, consumed)) => Ok((p, ps + consumed)),
            Err(e) => Err(e),
        }
    }
}

/// Sets or resets the terminal identifier.
#[derive(Debug, PartialEq)]
pub struct SetTerminalId {
    pub password: usize,
    pub terminal_id: Option<usize>,
}

impl SetTerminalId {
    pub open spec fn wf(self) -> bool {
        &&& encoding::bcd_bytes(self.password as nat).len() <= 3
        &&& (match self.terminal_id { Some(k) => encoding::bcd_bytes(k as nat).len() <= 4, None => true })
    }

    pub open spec fn spec_fs(self) -> Seq<(u16, LengthSpec, Option<Seq<u8>>)> {
        seq![
            (0x29u16, LengthSpec::Fixed(4), (match self.terminal_id { Some(k) => Some(fields::padded_region(LengthSpec::Fixed(4), encoding::bcd_bytes(k as nat))), None => None })),
        ]
    }

    pub open spec fn body_bytes(self) -> Seq<u8> {
        fields::padded_region(LengthSpec::Fixed(3), encoding::bcd_bytes(self.password as nat)) + (fields::cat_opt_fields(self.spec_fs()))
    }

    pub open spec fn spec_descs() -> Seq<FieldDesc> {
        seq![
            FieldDesc { tag: 0x29, len: LengthSpec::Fixed(4), width: 0, repeatable: false, required: false },
        ]
    }

    fn descs() -> (r: Vec<FieldDesc>)
        ensures r@ == Self::spec_descs(),
    {
        let mut v: Vec<FieldDesc> = Vec::new();
        v.push(FieldDesc { tag: 0x29, len: LengthSpec::Fixed(4), width: 0, repeatable: false, required: false });
        proof { assert(v@ =~= Self::spec_descs()); }
        v
    }

    proof fn lemma_meta(self)
        ensures
            fields::find_desc(Self::spec_descs(), 0x29) == Some(Self::spec_descs()[0]),
            encoding::tag_wf(0x29),
            fields::fs_lookup(self.spec_fs(), 0x29) == (match self.terminal_id { Some(k) => Some(fields::padded_region(LengthSpec::Fixed(4), encoding::bcd_bytes(k as nat))), None => None }),
    {
        let ds = Self::spec_descs();
        let fs = self.spec_fs();
        let ds0 = ds; let fs0 = fs;
        let ds1 = ds0.drop_first(); let fs1 = fs0.drop_first();
        assert(ds0[0] == ds[0]); assert(fs0[0] == fs[0]);
        assert(ds0.len() == 1); assert(fs0.len() == 1);
        assert(ds1 =~= Seq::<FieldDesc>::empty()); assert(fs1 =~= Seq::<(u16, LengthSpec, Option<Seq<u8>>)>::empty());
        fields::lemma_low5(0x1f);
        fields::lemma_low5(0x29);
        assert(fields::find_desc(ds0, 0x29) == Some(ds[0]));
        assert(fields::fs_lookup(fs1, 0x29) == None::<Seq<u8>>);
        assert(fields::fs_lookup(fs0, 0x29) == (match self.terminal_id { Some(k) => Some(fields::padded_region(LengthSpec::Fixed(4), encoding::bcd_bytes(k as nat))), None => None }));
    }

    pub proof fn lemma_body_parses(self, s: Seq<u8>)
        requires self.wf(), s == self.body_bytes(), s.len() <= usize::MAX,
        ensures
            fields::spec_parse_fields(s, self.pos_len(), Self::spec_descs(), seq![], seq![]) == Ok::<_, ErrorView>((fields::cat_opt_entries(self.spec_fs()), s.len() as int)),
            self.pos_len() + fields::cat_opt_fields(self.spec_fs()).len() == s.len(),
    {
        let ds = Self::spec_descs();
        let fs = self.spec_fs();
        self.lemma_meta();
        let p0 = self.pos_len();
        let cat = fields::cat_opt_fields(fs);
        assert(s.subrange(0, s.len() as int) =~= s);
        fields::lemma_peel(s, 0, fields::padded_region(LengthSpec::Fixed(3), encoding::bcd_bytes(self.password as nat)), cat);
        assert(p0 == 0 + (fields::padded_region(LengthSpec::Fixed(3), encoding::bcd_bytes(self.password as nat))).len() as int);
        assert(s.subrange(p0, s.len() as int) =~= cat);
        assert(s.subrange(p0, p0 + cat.len() as int) =~= cat);
        assert(fields::fs_ok(fs, ds, seq![])) by {
            assert forall|j: int| 0 <= j < fs.len() && (#[trigger] fs[j]).2 is Some implies {
                &&& encoding::tag_wf(fs[j].0)
                &&& fields::find_desc(ds, fs[j].0) matches Some(d) && d.len == fs[j].1 && fields::region_wf(d.len, d.width as int, fs[j].2.unwrap().len() as int) && (d.repeatable || (!seq![].contains(fs[j].0) && forall|i: int| 0 <= i < j ==> (#[trigger] fs[i]).0 != fs[j].0))
            } by {
                if j == 0 { assert(fs[0].0 == 0x29); }
            };
        };
        fields::lemma_parse_cat(s, p0, ds, seq![], seq![], fs);
        fields::lemma_parse_fields_stop(s, s.len() as int, ds, seq![] + fields::present_tags(fs), seq![] + fields::cat_opt_entries(fs));
        let seen = seq![] + fields::present_tags(fs);
        assert(seen =~= fields::present_tags(fs));
        assert forall|kk: int| 0 <= kk < ds.len() implies !(#[trigger] ds[kk]).required || seen.contains(ds[kk].tag) by {
            if kk == 0 { assert(!ds[0].required); }
        };
        fields::lemma_finish_ok(ds, seen, seq![] + fields::cat_opt_entries(fs), s.len() as int);
        assert(seq![] + fields::cat_opt_entries(fs) =~= fields::cat_opt_entries(fs));
    }

    pub open spec fn pos_len(self) -> int {
        (fields::padded_region(LengthSpec::Fixed(3), encoding::bcd_bytes(self.password as nat))).len() as int
    }

    pub fn encode_body(&self) -> (r: Vec<u8>)
        requires self.wf(),
        ensures r@ == self.body_bytes(),
    {
        let mut out: Vec<u8> = Vec::new();
        { let region = fields::pad_fixed(encoding::enc_bcd(self.password), 3); fields::ser_field(&mut out, None, LengthSpec::Fixed(3), &region); }
        match self.terminal_id { Some(k) => { let region = fields::pad_fixed(encoding::enc_bcd(k), 4); fields::ser_field(&mut out, Some(Tag(0x29)), LengthSpec::Fixed(4), &region); }, None => {} }
        proof {
            self.lemma_meta();
            let fs = self.spec_fs();
        let fs0 = fs;
        let fs1 = fs0.drop_first();
        assert(fields::cat_opt_fields(fs0) == fields::opt_field_bytes(fs0[0].0, fs0[0].1, fs0[0].2) + fields::cat_opt_fields(fs1)); assert(fs0[0] == fs[0]);
        assert(fields::cat_opt_fields(fs1) =~= Seq::<u8>::empty());
            assert(out@ =~= self.body_bytes());
        }
        out
    }

    pub fn decode_body(bytes: &[u8]) -> (r: ZVTResult<(Self, usize)>)
        ensures
            r matches Ok(v) ==> v.1 <= bytes@.len(),
            forall|v: Self|
                v.wf() && (true) && bytes@ == #[trigger] v.body_bytes() ==> (r matches Ok(o) && o.0 == v
                    && o.1 == bytes@.len()),
    {
        let blen_e = bytes.len();
        proof { assert(bytes@.len() <= usize::MAX); }
        proof {
            assert forall|v: Self| v.wf() && (true) && bytes@ == #[trigger] v.body_bytes() implies SetTerminalId::master_facts(v, bytes@) by { SetTerminalId::lemma_master(v, bytes@); };
        }
        let mut p: usize = 0;
        let f_password = match fields::de_usize_bcd(bytes, p, LengthSpec::Fixed(3)) { Ok((x, q)) => { p = q; x }, Err(e) => { return Err(e); } };
        let descs = Self::descs();
        let parsed = fields::parse_tagged_fields(bytes, p, &descs);
        let (entries, pos_end) = match parsed { Ok(v) => v, Err(e) => { return Err(e); } };
        let f_terminal_id = fields::entry_opt_usize_bcd(&entries, 0x29);
        let result = Self {
            password: f_password,
            terminal_id: f_terminal_id,
        };
        proof {
            assert forall|v: Self| v.wf() && (true) && bytes@ == #[trigger] v.body_bytes() implies result == v by {
                SetTerminalId::lemma_master(v, bytes@);
                match v.terminal_id { Some(kk) => { encoding::lemma_bcd_roundtrip(kk as nat); crate::packets::lemma_padded_bcd(kk, 4); vstd::arithmetic::div_mod::lemma_small_mod(kk as nat, encoding::usize_mod()); }, None => {} }
            };
        }
        Ok((result, pos_end))
    }

    pub open spec fn master_facts(v: Self, s: Seq<u8>) -> bool {
        &&& fields::spec_de_usize_bcd(s, 0, LengthSpec::Fixed(3)) == Ok::<_, ZVTError>((v.password, (0 + 3) as usize))
        &&& fields::spec_parse_fields(s, v.pos_len(), Self::spec_descs(), seq![], seq![]) == Ok::<_, ErrorView>((fields::cat_opt_entries(v.spec_fs()), s.len() as int))
        &&& fields::find_entry(fields::cat_opt_entries(v.spec_fs()), 0x29) == (match v.terminal_id { Some(k) => Some(fields::padded_region(LengthSpec::Fixed(4), encoding::bcd_bytes(k as nat))), None => None })
    }

    pub proof fn lemma_master(v: Self, s: Seq<u8>)
        requires v.wf(), (true), s == v.body_bytes(), s.len() <= usize::MAX,
        ensures Self::master_facts(v, s),
    {
        v.lemma_meta();
        v.lemma_body_parses(s);
        let fs = v.spec_fs();
        fields::lemma_find_entry_fs(fs, 0x29);
        let cat = fields::cat_opt_fields(fs);
        assert(s.subrange(0, s.len() as int) =~= s);
        fields::lemma_peel(s, 0, fields::padded_region(LengthSpec::Fixed(3), encoding::bcd_bytes(v.password as nat)), cat);
        { let zeros = length::fixed_len_bytes(3, encoding::bcd_bytes(v.password as nat).len() as int); encoding::lemma_bcd_nat_zero_prefix(zeros, encoding::bcd_bytes(v.password as nat)); encoding::lemma_bcd_roundtrip(v.password as nat); vstd::arithmetic::div_mod::lemma_small_mod(v.password as nat, encoding::usize_mod()); assert(s.subrange((0) as int, (0 + 3) as int) =~= fields::padded_region(LengthSpec::Fixed(3), encoding::bcd_bytes(v.password as nat))); }
    }
    pub fn zvt_serialize(&self) -> (r: Vec<u8>)
        requires self.wf(), self.body_bytes().len() <= 0xffff,
        ensures r@ == crate::packets::frame_bytes(6, 27, self.body_bytes()),
    {
        let body = self.encode_body();
        crate::packets::ser_frame(6, 27, body)
    }

    pub fn zvt_deserialize(bytes: &[u8]) -> (r: ZVTResult<(Self, usize)>)
        ensures
            r matches Ok(v) ==> v.1 <= bytes@.len(),
            forall|v: Self, rest: Seq<u8>|
                v.wf() && (true) && v.body_bytes().len() <= 0xffff && bytes@ == #[trigger] (crate::packets::frame_bytes(6, 27, v.body_bytes()) + rest) ==> (r matches Ok(o) && o.0 == v && o.1 == bytes@.len() - rest.len()),
    {
        let blen_e = bytes.len();
        proof { assert(bytes@.len() <= usize::MAX); }
        let (ps, pe) = match crate::packets::de_frame(bytes, 6, 27) {
            Ok(v) => v,
            Err(e) => {
                proof {
                    assert forall|v: Self, rest: Seq<u8>| v.wf() && (true) && v.body_bytes().len() <= 0xffff && bytes@ == #[trigger] (crate::packets::frame_bytes(6, 27, v.body_bytes()) + rest) implies false by { crate::packets::lemma_de_frame(bytes@, 6, 27, v.body_bytes(), rest); };
                }
                return Err(e);
            },
        };
        let payload = encoding::copy_range(bytes, ps, pe);
        proof {
            assert forall|v: Self, rest: Seq<u8>| v.wf() && (true) && v.body_bytes().len() <= 0xffff && bytes@ == #[trigger] (crate::packets::frame_bytes(6, 27, v.body_bytes()) + rest) implies (payload@ == v.body_bytes() && pe - ps == v.body_bytes().len() && pe == bytes@.len() - rest.len()) by { crate::packets::lemma_de_frame(bytes@, 6, 27, v.body_bytes(), rest); };
        }
        match Self::decode_body(payload.as_slice()) {
            Ok((p, consumed)) => Ok((p, ps + consumed)),
            Err(e) => Err(e),
        }
    }
}

/// Reverses a reservation in full.
#[derive(Debug, PartialEq)]
pub struct PreAuthReversal {
    pub payment_type: Option<u8>,
    pub currency: Option<usize>,
    pub receipt_no: Option<usize>,
}

impl PreAuthReversal {
    pub open spec fn wf(self) -> bool {
        &&& (match self.currency { Some(k) => encoding::bcd_bytes(k as nat).len() <= 2, None => true })
        &&& (match self.receipt_no { Some(k) => encoding::bcd_bytes(k as nat).len() <= 2, None => true })
    }

    pub open spec fn spec_fs(self) -> Seq<(u16, LengthSpec, Option<Seq<u8>>)> {
        seq![
            (0x19u16, LengthSpec::Unprefixed, crate::packets::tlv::opt_u8_region(self.payment_type)),
            (0x49u16, LengthSpec::Fixed(2), (match self.currency { Some(k) => Some(fields::padded_region(LengthSpec::Fixed(2), encoding::bcd_bytes(k as nat))), None => None })),
            (0x87u16, LengthSpec::Fixed(2), (match self.receipt_no { Some(k) => Some(fields::padded_region(LengthSpec::Fixed(2), encoding::bcd_bytes(k as nat))), None => None })),
        ]
    }

    pub open spec fn body_bytes(self) -> Seq<u8> {
        fields::cat_opt_fields(self.spec_fs())
    }

    pub open spec fn spec_descs() -> Seq<FieldDesc> {
        seq![
            FieldDesc { tag: 0x19, len: LengthSpec::Unprefixed, width: 1, repeatable: false, required: false },
            FieldDesc { tag: 0x49, len: LengthSpec::Fixed(2), width: 0, repeatable: false, required: false },
            FieldDesc { tag: 0x87, len: LengthSpec::Fixed(2), width: 0, repeatable: false, required: false },
        ]
    }

    fn descs() -> (r: Vec<FieldDesc>)
        ensures r@ == Self::spec_descs(),
    {
        let mut v: Vec<FieldDesc> = Vec::new();
        v.push(FieldDesc { tag: 0x19, len: LengthSpec::Unprefixed, width: 1, repeatable: false, required: false });
        v.push(FieldDesc { tag: 0x49, len: LengthSpec::Fixed(2), width: 0, repeatable: false, required: false });
        v.push(FieldDesc { tag: 0x87, len: LengthSpec::Fixed(2), width: 0, repeatable: false, required: false });
        proof { assert(v@ =~= Self::spec_descs()); }
        v
    }

    proof fn lemma_meta(self)
        ensures
            fields::find_desc(Self::spec_descs(), 0x19) == Some(Self::spec_descs()[0]),
            encoding::tag_wf(0x19),
            fields::fs_lookup(self.spec_fs(), 0x19) == crate::packets::tlv::opt_u8_region(self.payment_type),
            fields::find_desc(Self::spec_descs(), 0x49) == Some(Self::spec_descs()[1]),
            encoding::tag_wf(0x49),
            fields::fs_lookup(self.spec_fs(), 0x49) == (match self.currency { Some(k) => Some(fields::padded_region(LengthSpec::Fixed(2), encoding::bcd_bytes(k as nat))), None => None }),
            fields::find_desc(Self::spec_descs(), 0x87) == Some(Self::spec_descs()[2]),
            encoding::tag_wf(0x87),
            fields::fs_lookup(self.spec_fs(), 0x87) == (match self.receipt_no { Some(k) => Some(fields::padded_region(LengthSpec::Fixed(2), encoding::bcd_bytes(k as nat))), None => None }),
    {
        let ds = Self::spec_descs();
        let fs = self.spec_fs();
        let ds0 = ds; let fs0 = fs;
        let ds1 = ds0.drop_first(); let fs1 = fs0.drop_first();
        let ds2 = ds1.drop_first(); let fs2 = fs1.drop_first();
        let ds3 = ds2.drop_first(); let fs3 = fs2.drop_first();
        assert(ds0[0] == ds[0]); assert(fs0[0] == fs[0]);
        assert(ds0.len() == 3); assert(fs0.len() == 3);
        assert(ds1[0] == ds[1]); assert(fs1[0] == fs[1]);
        assert(ds1.len() == 2); assert(fs1.len() == 2);
        assert(ds2[0] == ds[2]); assert(fs2[0] == fs[2]);
        assert(ds2.len() == 1); assert(fs2.len() == 1);
        assert(ds3 =~= Seq::<FieldDesc>::empty()); assert(fs3 =~= Seq::<(u16, LengthSpec, Option<Seq<u8>>)>::empty());
        fields::lemma_low5(0x1f);
        fields::lemma_low5(0x19);
        fields::lemma_low5(0x49);
        fields::lemma_low5(0x87);
        assert(fields::find_desc(ds0, 0x19) == Some(ds[0]));
        assert(fields::find_desc(ds1, 0x49) == Some(ds[1]));
        assert(fields::find_desc(ds0, 0x49) == fields::find_desc(ds1, 0x49));
        assert(fields::find_desc(ds2, 0x87) == Some(ds[2]));
        assert(fields::find_desc(ds1, 0x87) == fields::find_desc(ds2, 0x87));
        assert(fields::find_desc(ds0, 0x87) == fields::find_desc(ds1, 0x87));
        assert(fields::fs_lookup(fs3, 0x19) == None::<Seq<u8>>);
        assert(fields::fs_lookup(fs2, 0x19) == None::<Seq<u8>>);
        assert(fields::fs_lookup(fs1, 0x19) == None::<Seq<u8>>);
        assert(fields::fs_lookup(fs0, 0x19) == crate::packets::tlv::opt_u8_region(self.payment_type));
        assert(fields::fs_lookup(fs3, 0x49) == None::<Seq<u8>>);
        assert(fields::fs_lookup(fs2, 0x49) == None::<Seq<u8>>);
        assert(fields::fs_lookup(fs1, 0x49) == (match self.currency { Some(k) => Some(fields::padded_region(LengthSpec::Fixed(2), encoding::bcd_bytes(k as nat))), None => None }));
        assert(fields::fs_lookup(fs0, 0x49) == fields::fs_lookup(fs1, 0x49));
        assert(fields::fs_lookup(fs3, 0x87) == None::<Seq<u8>>);
        assert(fields::fs_lookup(fs2, 0x87) == (match self.receipt_no { Some(k) => Some(fields::padded_region(LengthSpec::Fixed(2), encoding::bcd_bytes(k as nat))), None => None }));
        assert(fields::fs_lookup(fs1, 0x87) == fields::fs_lookup(fs2, 0x87));
        assert(fields::fs_lookup(fs0, 0x87) == fields::fs_lookup(fs1, 0x87));
    }

    pub proof fn lemma_body_parses(self, s: Seq<u8>)
        requires self.wf(), s == self.body_bytes(), s.len() <= usize::MAX,
        ensures
            fields::spec_parse_fields(s, self.pos_len(), Self::spec_descs(), seq![], seq![]) == Ok::<_, ErrorView>((fields::cat_opt_entries(self.spec_fs()), s.len() as int)),
            self.pos_len() + fields::cat_opt_fields(self.spec_fs()).len() == s.len(),
    {
        let ds = Self::spec_descs();
        let fs = self.spec_fs();
        self.lemma_meta();
        let p0 = self.pos_len();
        assert(p0 == 0);
        assert(s.subrange(0, fields::cat_opt_fields(fs).len() as int) =~= fields::cat_opt_fields(fs));
        assert(fields::fs_ok(fs, ds, seq![])) by {
            assert forall|j: int| 0 <= j < fs.len() && (#[trigger] fs[j]).2 is Some implies {
                &&& encoding::tag_wf(fs[j].0)
                &&& fields::find_desc(ds, fs[j].0) matches Some(d) && d.len == fs[j].1 && fields::region_wf(d.len, d.width as int, fs[j].2.unwrap().len() as int) && (d.repeatable || (!seq![].contains(fs[j].0) && forall|i: int| 0 <= i < j ==> (#[trigger] fs[i]).0 != fs[j].0))
            } by {
                if j == 0 { assert(fs[0].0 == 0x19); }
                if j == 1 { assert(fs[1].0 == 0x49); }
                if j == 2 { assert(fs[2].0 == 0x87); }
            };
        };
        fields::lemma_parse_cat(s, p0, ds, seq![], seq![], fs);
        fields::lemma_parse_fields_stop(s, s.len() as int, ds, seq![] + fields::present_tags(fs), seq![] + fields::cat_opt_entries(fs));
        let seen = seq![] + fields::present_tags(fs);
        assert(seen =~= fields::present_tags(fs));
        assert forall|kk: int| 0 <= kk < ds.len() implies !(#[trigger] ds[kk]).required || seen.contains(ds[kk].tag) by {
            if kk == 0 { assert(!ds[0].required); }
            if kk == 1 { assert(!ds[1].required); }
            if kk == 2 { assert(!ds[2].required); }
        };
        fields::lemma_finish_ok(ds, seen, seq![] + fields::cat_opt_entries(fs), s.len() as int);
        assert(seq![] + fields::cat_opt_entries(fs) =~= fields::cat_opt_entries(fs));
    }

    pub open spec fn pos_len(self) -> int {
        0
    }

    pub fn encode_body(&self) -> (r: Vec<u8>)
        requires self.wf(),
        ensures r@ == self.body_bytes(),
    {
        let mut out: Vec<u8> = Vec::new();
        match self.payment_type { Some(k) => { let region = encoding::enc_u8(k); fields::ser_field(&mut out, Some(Tag(0x19)), LengthSpec::Unprefixed, &region); }, None => {} }
        match self.currency { Some(k) => { let region = fields::pad_fixed(encoding::enc_bcd(k), 2); fields::ser_field(&mut out, Some(Tag(0x49)), LengthSpec::Fixed(2), &region); }, None => {} }
        match self.receipt_no { Some(k) => { let region = fields::pad_fixed(encoding::enc_bcd(k), 2); fields::ser_field(&mut out, Some(Tag(0x87)), LengthSpec::Fixed(2), &region); }, None => {} }
        proof {
            self.lemma_meta();
            let fs = self.spec_fs();
        let fs0 = fs;
        let fs1 = fs0.drop_first();
        let fs2 = fs1.drop_first();
        let fs3 = fs2.drop_first();
        assert(fields::cat_opt_fields(fs0) == fields::opt_field_bytes(fs0[0].0, fs0[0].1, fs0[0].2) + fields::cat_opt_fields(fs1)); assert(fs0[0] == fs[0]);
        assert(fields::cat_opt_fields(fs1) == fields::opt_field_bytes(fs1[0].0, fs1[0].1, fs1[0].2) + fields::cat_opt_fields(fs2)); assert(fs1[0] == fs[1]);
        assert(fields::cat_opt_fields(fs2) == fields::opt_field_bytes(fs2[0].0, fs2[0].1, fs2[0].2) + fields::cat_opt_fields(fs3)); assert(fs2[0] == fs[2]);
        assert(fields::cat_opt_fields(fs3) =~= Seq::<u8>::empty());
            assert(out@ =~= self.body_bytes());
        }
        out
    }

    pub fn decode_body(bytes: &[u8]) -> (r: ZVTResult<(Self, usize)>)
        ensures
            r matches Ok(v) ==> v.1 <= bytes@.len(),
            forall|v: Self|
                v.wf() && (true) && bytes@ == #[trigger] v.body_bytes() ==> (r matches Ok(o) && o.0 == v
                    && o.1 == bytes@.len()),
    {
        let blen_e = bytes.len();
        proof { assert(bytes@.len() <= usize::MAX); }
        proof {
            assert forall|v: Self| v.wf() && (true) && bytes@ == #[trigger] v.body_bytes() implies PreAuthReversal::master_facts(v, bytes@) by { PreAuthReversal::lemma_master(v, bytes@); };
        }
        let mut p: usize = 0;
        let descs = Self::descs();
        let parsed = fields::parse_tagged_fields(bytes, p, &descs);
        let (entries, pos_end) = match parsed { Ok(v) => v, Err(e) => { return Err(e); } };
        let f_payment_type = match fields::entry_opt_u8(&entries, 0x19) { Ok(v) => v, Err(e) => { return Err(e); } };
        let f_currency = fields::entry_opt_usize_bcd(&entries, 0x49);
        let f_receipt_no = fields::entry_opt_usize_bcd(&entries, 0x87);
        let result = Self {
            payment_type: f_payment_type,
            currency: f_currency,
            receipt_no: f_receipt_no,
        };
        proof {
            assert forall|v: Self| v.wf() && (true) && bytes@ == #[trigger] v.body_bytes() implies result == v by {
                PreAuthReversal::lemma_master(v, bytes@);
                match v.currency { Some(kk) => { encoding::lemma_bcd_roundtrip(kk as nat); crate::packets::lemma_padded_bcd(kk, 2); vstd::arithmetic::div_mod::lemma_small_mod(kk as nat, encoding::usize_mod()); }, None => {} }
                match v.receipt_no { Some(kk) => { encoding::lemma_bcd_roundtrip(kk as nat); crate::packets::lemma_padded_bcd(kk, 2); vstd::arithmetic::div_mod::lemma_small_mod(kk as nat, encoding::usize_mod()); }, None => {} }
            };
        }
        Ok((result, pos_end))
    }

    pub open spec fn master_facts(v: Self, s: Seq<u8>) -> bool {
        &&& fields::spec_parse_fields(s, v.pos_len(), Self::spec_descs(), seq![], seq![]) == Ok::<_, ErrorView>((fields::cat_opt_entries(v.spec_fs()), s.len() as int))
        &&& fields::find_entry(fields::cat_opt_entries(v.spec_fs()), 0x19) == crate::packets::tlv::opt_u8_region(v.payment_type)
        &&& fields::find_entry(fields::cat_opt_entries(v.spec_fs()), 0x49) == (match v.currency { Some(k) => Some(fields::padded_region(LengthSpec::Fixed(2), encoding::bcd_bytes(k as nat))), None => None })
        &&& fields::find_entry(fields::cat_opt_entries(v.spec_fs()), 0x87) == (match v.receipt_no { Some(k) => Some(fields::padded_region(LengthSpec::Fixed(2), encoding::bcd_bytes(k as nat))), None => None })
    }

    pub proof fn lemma_master(v: Self, s: Seq<u8>)
        requires v.wf(), (true), s == v.body_bytes(), s.len() <= usize::MAX,
        ensures Self::master_facts(v, s),
    {
        v.lemma_meta();
        v.lemma_body_parses(s);
        let fs = v.spec_fs();
        fields::lemma_find_entry_fs(fs, 0x19);
        fields::lemma_find_entry_fs(fs, 0x49);
        fields::lemma_find_entry_fs(fs, 0x87);
    }
    pub fn zvt_serialize(&self) -> (r: Vec<u8>)
        requires self.wf(), self.body_bytes().len() <= 0xffff,
        ensures r@ == crate::packets::frame_bytes(6, 37, self.body_bytes()),
    {
        let body = self.encode_body();
        crate::packets::ser_frame(6, 37, body)
    }

    pub fn zvt_deserialize(bytes: &[u8]) -> (r: ZVTResult<(Self, usize)>)
        ensures
            r matches Ok(v) ==> v.1 <= bytes@.len(),
            forall|v: Self, rest: Seq<u8>|
                v.wf() && (true) && v.body_bytes().len() <= 0xffff && bytes@ == #[trigger] (crate::packets::frame_bytes(6, 37, v.body_bytes()) + rest) ==> (r matches Ok(o) && o.0 == v && o.1 == bytes@.len() - rest.len()),
    {
        let blen_e = bytes.len();
        proof { assert(bytes@.len() <= usize::MAX); }
        let (ps, pe) = match crate::packets::de_frame(bytes, 6, 37) {
            Ok(v) => v,
            Err(e) => {
                proof {
                    assert forall|v: Self, rest: Seq<u8>| v.wf() && (true) && v.body_bytes().len() <= 0xffff && bytes@ == #[trigger] (crate::packets::frame_bytes(6, 37, v.body_bytes()) + rest) implies false by { crate::packets::lemma_de_frame(bytes@, 6, 37, v.body_bytes(), rest); };
                }
                return Err(e);
            },
        };
        let payload = encoding::copy_range(bytes, ps, pe);
        proof {
            assert forall|v: Self, rest: Seq<u8>| v.wf() && (true) && v.body_bytes().len() <= 0xffff && bytes@ == #[trigger] (crate::packets::frame_bytes(6, 37, v.body_bytes()) + rest) implies (payload@ == v.body_bytes() && pe - ps == v.body_bytes().len() && pe == bytes@.len() - rest.len()) by { crate::packets::lemma_de_frame(bytes@, 6, 37, v.body_bytes(), rest); };
        }
        match Self::decode_body(payload.as_slice()) {
            Ok((p, consumed)) => Ok((p, ps + consumed)),
            Err(e) => Err(e),
        }
    }
}

/// Registers the ECR at the terminal and selects its configuration.
#[derive(Debug, PartialEq)]
pub struct Registration {
    pub password: usize,
    pub config_byte: u8,
    pub currency: Option<usize>,
    pub tlv: Option<tlv::Registration>,
}

impl Registration {
    pub open spec fn wf(self) -> bool {
        &&& encoding::bcd_bytes(self.password as nat).len() <= 3
        &&& (match self.currency { Some(k) => encoding::bcd_bytes(k as nat).len() <= 2, None => true })
        &&& (match self.tlv { Some(ref k) => k.wf() && k.body_bytes().len() <= 0xffff, None => true })
    }

    pub open spec fn spec_fs(self) -> Seq<(u16, LengthSpec, Option<Seq<u8>>)> {
        seq![
            (0x6u16, LengthSpec::Tlv, (match self.tlv { Some(ref k) => Some(k.body_bytes()), None => None })),
        ]
    }

    pub open spec fn body_bytes(self) -> Seq<u8> {
        fields::padded_region(LengthSpec::Fixed(3), encoding::bcd_bytes(self.password as nat)) + (seq![self.config_byte] + ((match self.currency { Some(k) => fields::padded_region(LengthSpec::Fixed(2), encoding::bcd_bytes(k as nat)), None => seq![] }) + (fields::cat_opt_fields(self.spec_fs()))))
    }

    pub open spec fn spec_descs() -> Seq<FieldDesc> {
        seq![
            FieldDesc { tag: 0x6, len: LengthSpec::Tlv, width: 0, repeatable: false, required: false },
        ]
    }

    fn descs() -> (r: Vec<FieldDesc>)
        ensures r@ == Self::spec_descs(),
    {
        let mut v: Vec<FieldDesc> = Vec::new();
        v.push(FieldDesc { tag: 0x6, len: LengthSpec::Tlv, width: 0, repeatable: false, required: false });
        proof { assert(v@ =~= Self::spec_descs()); }
        v
    }

    proof fn lemma_meta(self)
        ensures
            fields::find_desc(Self::spec_descs(), 0x6) == Some(Self::spec_descs()[0]),
            encoding::tag_wf(0x6),
            fields::fs_lookup(self.spec_fs(), 0x6) == (match self.tlv { Some(ref k) => Some(k.body_bytes()), None => None }),
    {
        let ds = Self::spec_descs();
        let fs = self.spec_fs();
        let ds0 = ds; let fs0 = fs;
        let ds1 = ds0.drop_first(); let fs1 = fs0.drop_first();
        assert(ds0[0] == ds[0]); assert(fs0[0] == fs[0]);
        assert(ds0.len() == 1); assert(fs0.len() == 1);
        assert(ds1 =~= Seq::<FieldDesc>::empty()); assert(fs1 =~= Seq::<(u16, LengthSpec, Option<Seq<u8>>)>::empty());
        fields::lemma_low5(0x1f);
        fields::lemma_low5(0x6);
        assert(fields::find_desc(ds0, 0x6) == Some(ds[0]));
        assert(fields::fs_lookup(fs1, 0x6) == None::<Seq<u8>>);
        assert(fields::fs_lookup(fs0, 0x6) == (match self.tlv { Some(ref k) => Some(k.body_bytes()), None => None }));
    }

    pub proof fn lemma_body_parses(self, s: Seq<u8>)
        requires self.wf(), s == self.body_bytes(), s.len() <= usize::MAX,
        ensures
            fields::spec_parse_fields(s, self.pos_len(), Self::spec_descs(), seq![], seq![]) == Ok::<_, ErrorView>((fields::cat_opt_entries(self.spec_fs()), s.len() as int)),
            self.pos_len() + fields::cat_opt_fields(self.spec_fs()).len() == s.len(),
    {
        let ds = Self::spec_descs();
        let fs = self.spec_fs();
        self.lemma_meta();
        let p0 = self.pos_len();
        let cat = fields::cat_opt_fields(fs);
        assert(s.subrange(0, s.len() as int) =~= s);
        fields::lemma_peel(s, 0, fields::padded_region(LengthSpec::Fixed(3), encoding::bcd_bytes(self.password as nat)), seq![self.config_byte] + ((match self.currency { Some(k) => fields::padded_region(LengthSpec::Fixed(2), encoding::bcd_bytes(k as nat)), None => seq![] }) + (cat)));
        fields::lemma_peel(s, 0 + (fields::padded_region(LengthSpec::Fixed(3), encoding::bcd_bytes(self.password as nat))).len() as int, seq![self.config_byte], (match self.currency { Some(k) => fields::padded_region(LengthSpec::Fixed(2), encoding::bcd_bytes(k as nat)), None => seq![] }) + (cat));
        fields::lemma_peel(s, 0 + (fields::padded_region(LengthSpec::Fixed(3), encoding::bcd_bytes(self.password as nat))).len() as int + (seq![self.config_byte]).len() as int, (match self.currency { Some(k) => fields::padded_region(LengthSpec::Fixed(2), encoding::bcd_bytes(k as nat)), None => seq![] }), cat);
        assert(p0 == 0 + (fields::padded_region(LengthSpec::Fixed(3), encoding::bcd_bytes(self.password as nat))).len() as int + (seq![self.config_byte]).len() as int + ((match self.currency { Some(k) => fields::padded_region(LengthSpec::Fixed(2), encoding::bcd_bytes(k as nat)), None => seq![] })).len() as int);
        assert(s.subrange(p0, s.len() as int) =~= cat);
        assert(s.subrange(p0, p0 + cat.len() as int) =~= cat);
        assert(fields::fs_ok(fs, ds, seq![])) by {
            assert forall|j: int| 0 <= j < fs.len() && (#[trigger] fs[j]).2 is Some implies {
                &&& encoding::tag_wf(fs[j].0)
                &&& fields::find_desc(ds, fs[j].0) matches Some(d) && d.len == fs[j].1 && fields::region_wf(d.len, d.width as int, fs[j].2.unwrap().len() as int) && (d.repeatable || (!seq![].contains(fs[j].0) && forall|i: int| 0 <= i < j ==> (#[trigger] fs[i]).0 != fs[j].0))
            } by {
                if j == 0 { assert(fs[0].0 == 0x6); }
            };
        };
        fields::lemma_parse_cat(s, p0, ds, seq![], seq![], fs);
        fields::lemma_parse_fields_stop(s, s.len() as int, ds, seq![] + fields::present_tags(fs), seq![] + fields::cat_opt_entries(fs));
        let seen = seq![] + fields::present_tags(fs);
        assert(seen =~= fields::present_tags(fs));
        assert forall|kk: int| 0 <= kk < ds.len() implies !(#[trigger] ds[kk]).required || seen.contains(ds[kk].tag) by {
            if kk == 0 { assert(!ds[0].required); }
        };
        fields::lemma_finish_ok(ds, seen, seq![] + fields::cat_opt_entries(fs), s.len() as int);
        assert(seq![] + fields::cat_opt_entries(fs) =~= fields::cat_opt_entries(fs));
    }

    pub open spec fn pos_len(self) -> int {
        (fields::padded_region(LengthSpec::Fixed(3), encoding::bcd_bytes(self.password as nat))).len() as int + (seq![self.config_byte]).len() as int + ((match self.currency { Some(k) => fields::padded_region(LengthSpec::Fixed(2), encoding::bcd_bytes(k as nat)), None => seq![] })).len() as int
    }

    pub fn encode_body(&self) -> (r: Vec<u8>)
        requires self.wf(),
        ensures r@ == self.body_bytes(),
    {
        let ghost gfs = self.spec_fs();
        let mut out: Vec<u8> = Vec::new();
        { let region = fields::pad_fixed(encoding::enc_bcd(self.password), 3); fields::ser_field(&mut out, None, LengthSpec::Fixed(3), &region); }
        out.push(self.config_byte);
        match self.currency { Some(k) => { let region = fields::pad_fixed(encoding::enc_bcd(k), 2); fields::ser_field(&mut out, None, LengthSpec::Fixed(2), &region); }, None => {} }
        match self.tlv { Some(ref k) => { let region = k.encode_body(); fields::ser_field(&mut out, Some(Tag(0x6)), LengthSpec::Tlv, &region); }, None => {} }
        proof { assert(out@ =~= fields::padded_region(LengthSpec::Fixed(3), encoding::bcd_bytes(self.password as nat)) + seq![self.config_byte] + (match self.currency { Some(k) => fields::padded_region(LengthSpec::Fixed(2), encoding::bcd_bytes(k as nat)), None => seq![] }) + fields::opt_field_bytes(gfs[0].0, gfs[0].1, gfs[0].2)); }
        proof {
            self.lemma_meta();
            let fs = self.spec_fs();
        let fs0 = fs;
        let fs1 = fs0.drop_first();
        assert(fields::cat_opt_fields(fs0) == fields::opt_field_bytes(fs0[0].0, fs0[0].1, fs0[0].2) + fields::cat_opt_fields(fs1)); assert(fs0[0] == fs[0]);
        assert(fields::cat_opt_fields(fs1) =~= Seq::<u8>::empty());
            assert(out@ =~= self.body_bytes());
        }
        out
    }

    pub fn decode_body(bytes: &[u8]) -> (r: ZVTResult<(Self, usize)>)
        ensures
            r matches Ok(v) ==> v.1 <= bytes@.len(),
            forall|v: Self|
                v.wf() && (v.currency is Some || v.tlv is None) && bytes@ == #[trigger] v.body_bytes() ==> (r matches Ok(o) && o.0 == v
                    && o.1 == bytes@.len()),
    {
        let blen_e = bytes.len();
        proof { assert(bytes@.len() <= usize::MAX); }
        proof {
            assert forall|v: Self| v.wf() && (v.currency is Some || v.tlv is None) && bytes@ == #[trigger] v.body_bytes() implies Registration::master_facts(v, bytes@) by { Registration::lemma_master(v, bytes@); };
        }
        let mut p: usize = 0;
        let f_password = match fields::de_usize_bcd(bytes, p, LengthSpec::Fixed(3)) { Ok((x, q)) => { p = q; x }, Err(e) => { return Err(e); } };
        let f_config_byte = match fields::de_u8_tagged(bytes, p, None, LengthSpec::Unprefixed, NumEncoding::LittleEndian) { Ok((x, q)) => { p = q; x }, Err(e) => { return Err(e); } };
        let f_currency = { let (x, q) = fields::de_opt_usize_bcd(bytes, p, LengthSpec::Fixed(2)); p = q; x };
        let descs = Self::descs();
        let parsed = fields::parse_tagged_fields(bytes, p, &descs);
        let (entries, pos_end) = match parsed { Ok(v) => v, Err(e) => { return Err(e); } };
        let f_tlv = match fields::find_payload(&entries, 0x6) { None => None, Some(pl) => match tlv::Registration::decode_body(pl.as_slice()) { Ok(v) => Some(v.0), Err(e) => { return Err(e); } } };
        let result = Self {
            password: f_password,
            config_byte: f_config_byte,
            currency: f_currency,
            tlv: f_tlv,
        };
        proof {
            assert forall|v: Self| v.wf() && (v.currency is Some || v.tlv is None) && bytes@ == #[trigger] v.body_bytes() implies result == v by {
                Registration::lemma_master(v, bytes@);
                match v.tlv { Some(ref kk) => { assert(kk.wf()); }, None => {} }
            };
        }
        Ok((result, pos_end))
    }

    pub open spec fn master_facts(v: Self, s: Seq<u8>) -> bool {
        &&& fields::spec_de_usize_bcd(s, (0) as int, LengthSpec::Fixed(3)) == Ok::<_, ZVTError>((v.password, (0 + 3) as usize))
        &&& fields::spec_de_u8_tagged(s, (0 + fields::padded_region(LengthSpec::Fixed(3), encoding::bcd_bytes(v.password as nat)).len()) as int, None, LengthSpec::Unprefixed, NumEncoding::LittleEndian) == Ok::<_, ZVTError>((v.config_byte, (0 + fields::padded_region(LengthSpec::Fixed(3), encoding::bcd_bytes(v.password as nat)).len() + 1) as usize))
        &&& fields::spec_de_opt_usize_bcd(s, (0 + fields::padded_region(LengthSpec::Fixed(3), encoding::bcd_bytes(v.password as nat)).len() + seq![v.config_byte].len()) as int, LengthSpec::Fixed(2)) == (v.currency, (0 + fields::padded_region(LengthSpec::Fixed(3), encoding::bcd_bytes(v.password as nat)).len() + seq![v.config_byte].len() + ((match v.currency { Some(k) => fields::padded_region(LengthSpec::Fixed(2), encoding::bcd_bytes(k as nat)), None => seq![] })).len()) as usize)
        &&& fields::spec_parse_fields(s, v.pos_len(), Self::spec_descs(), seq![], seq![]) == Ok::<_, ErrorView>((fields::cat_opt_entries(v.spec_fs()), s.len() as int))
        &&& fields::find_entry(fields::cat_opt_entries(v.spec_fs()), 0x6) == (match v.tlv { Some(ref k) => Some(k.body_bytes()), None => None })
    }

    pub proof fn lemma_master(v: Self, s: Seq<u8>)
        requires v.wf(), (v.currency is Some || v.tlv is None), s == v.body_bytes(), s.len() <= usize::MAX,
        ensures Self::master_facts(v, s),
    {
        v.lemma_meta();
        v.lemma_body_parses(s);
        let fs = v.spec_fs();
        let g0 = fs;
        let g1 = g0.drop_first();
        assert(fields::cat_opt_fields(g0) == fields::opt_field_bytes(g0[0].0, g0[0].1, g0[0].2) + fields::cat_opt_fields(g1)); assert(g0[0] == fs[0]);
        assert(fields::cat_opt_fields(g1) =~= Seq::<u8>::empty());
        fields::lemma_find_entry_fs(fs, 0x6);
        let cat = fields::cat_opt_fields(fs);
        assert(s.subrange(0, s.len() as int) =~= s);
        fields::lemma_peel(s, 0, fields::padded_region(LengthSpec::Fixed(3), encoding::bcd_bytes(v.password as nat)), seq![v.config_byte] + ((match v.currency { Some(k) => fields::padded_region(LengthSpec::Fixed(2), encoding::bcd_bytes(k as nat)), None => seq![] }) + (cat)));
        { let zeros = length::fixed_len_bytes(3, encoding::bcd_bytes(v.password as nat).len() as int); encoding::lemma_bcd_nat_zero_prefix(zeros, encoding::bcd_bytes(v.password as nat)); encoding::lemma_bcd_roundtrip(v.password as nat); vstd::arithmetic::div_mod::lemma_small_mod(v.password as nat, encoding::usize_mod()); assert(s.subrange((0) as int, (0 + 3) as int) =~= fields::padded_region(LengthSpec::Fixed(3), encoding::bcd_bytes(v.password as nat))); }
        fields::lemma_peel(s, 0 + (fields::padded_region(LengthSpec::Fixed(3), encoding::bcd_bytes(v.password as nat))).len() as int, seq![v.config_byte], (match v.currency { Some(k) => fields::padded_region(LengthSpec::Fixed(2), encoding::bcd_bytes(k as nat)), None => seq![] }) + (cat));
        assert(s[(0 + (fields::padded_region(LengthSpec::Fixed(3), encoding::bcd_bytes(v.password as nat))).len() as int) as int] == v.config_byte) by { assert(s.subrange((0 + (fields::padded_region(LengthSpec::Fixed(3), encoding::bcd_bytes(v.password as nat))).len() as int) as int, (0 + (fields::padded_region(LengthSpec::Fixed(3), encoding::bcd_bytes(v.password as nat))).len() as int + 1) as int)[0] == (seq![v.config_byte])[0]); };
        fields::lemma_peel(s, 0 + (fields::padded_region(LengthSpec::Fixed(3), encoding::bcd_bytes(v.password as nat))).len() as int + (seq![v.config_byte]).len() as int, (match v.currency { Some(k) => fields::padded_region(LengthSpec::Fixed(2), encoding::bcd_bytes(k as nat)), None => seq![] }), cat);
        match v.currency { Some(kk) => { let zeros = length::fixed_len_bytes(2, encoding::bcd_bytes(kk as nat).len() as int); encoding::lemma_bcd_nat_zero_prefix(zeros, encoding::bcd_bytes(kk as nat)); encoding::lemma_bcd_roundtrip(kk as nat); vstd::arithmetic::div_mod::lemma_small_mod(kk as nat, encoding::usize_mod()); assert(s.subrange((0 + (fields::padded_region(LengthSpec::Fixed(3), encoding::bcd_bytes(v.password as nat))).len() as int + (seq![v.config_byte]).len() as int) as int, (0 + (fields::padded_region(LengthSpec::Fixed(3), encoding::bcd_bytes(v.password as nat))).len() as int + (seq![v.config_byte]).len() as int + 2) as int) =~= (match v.currency { Some(k) => fields::padded_region(LengthSpec::Fixed(2), encoding::bcd_bytes(k as nat)), None => seq![] })); }, None => { assert(fields::cat_opt_fields(fs).len() == 0); assert(s.len() - (0 + (fields::padded_region(LengthSpec::Fixed(3), encoding::bcd_bytes(v.password as nat))).len() as int + (seq![v.config_byte]).len() as int) < 2); } }
    }
    pub fn zvt_serialize(&self) -> (r: Vec<u8>)
        requires self.wf(), self.body_bytes().len() <= 0xffff,
        ensures r@ == crate::packets::frame_bytes(6, 0, self.body_bytes()),
    {
        let body = self.encode_body();
        crate::packets::ser_frame(6, 0, body)
    }

    pub fn zvt_deserialize(bytes: &[u8]) -> (r: ZVTResult<(Self, usize)>)
        ensures
            r matches Ok(v) ==> v.1 <= bytes@.len(),
            forall|v: Self, rest: Seq<u8>|
                v.wf() && (v.currency is Some || v.tlv is None) && v.body_bytes().len() <= 0xffff && bytes@ == #[trigger] (crate::packets::frame_bytes(6, 0, v.body_bytes()) + rest) ==> (r matches Ok(o) && o.0 == v && o.1 == bytes@.len() - rest.len()),
    {
        let blen_e = bytes.len();
        proof { assert(bytes@.len() <= usize::MAX); }
        let (ps, pe) = match crate::packets::de_frame(bytes, 6, 0) {
            Ok(v) => v,
            Err(e) => {
                proof {
                    assert forall|v: Self, rest: Seq<u8>| v.wf() && (v.currency is Some || v.tlv is None) && v.body_bytes().len() <= 0xffff && bytes@ == #[trigger] (crate::packets::frame_bytes(6, 0, v.body_bytes()) + rest) implies false by { crate::packets::lemma_de_frame(bytes@, 6, 0, v.body_bytes(), rest); };
                }
                return Err(e);
            },
        };
        let payload = encoding::copy_range(bytes, ps, pe);
        proof {
            assert forall|v: Self, rest: Seq<u8>| v.wf() && (v.currency is Some || v.tlv is None) && v.body_bytes().len() <= 0xffff && bytes@ == #[trigger] (crate::packets::frame_bytes(6, 0, v.body_bytes()) + rest) implies (payload@ == v.body_bytes() && pe - ps == v.body_bytes().len() && pe == bytes@.len() - rest.len()) by { crate::packets::lemma_de_frame(bytes@, 6, 0, v.body_bytes(), rest); };
        }
        match Self::decode_body(payload.as_slice()) {
            Ok((p, consumed)) => Ok((p, ps + consumed)),
            Err(e) => Err(e),
        }
    }
}

/// An abort of a reservation; the currency rides along untagged on some error codes.
#[derive(Debug, PartialEq)]
pub struct ReservationAbort {
    pub error: u8,
    pub currency: Option<usize>,
    pub tlv: Option<tlv::ReservationAbort>,
}

impl ReservationAbort {
    pub open spec fn wf(self) -> bool {
        &&& (match self.currency { Some(k) => encoding::bcd_bytes(k as nat).len() <= 2, None => true })
        &&& (match self.tlv { Some(ref k) => k.wf() && k.body_bytes().len() <= 0xffff, None => true })
    }

    pub open spec fn spec_fs(self) -> Seq<(u16, LengthSpec, Option<Seq<u8>>)> {
        seq![
            (0x6u16, LengthSpec::Tlv, (match self.tlv { Some(ref k) => Some(k.body_bytes()), None => None })),
        ]
    }

    pub open spec fn body_bytes(self) -> Seq<u8> {
        seq![self.error] + ((match self.currency { Some(k) => fields::padded_region(LengthSpec::Fixed(2), encoding::bcd_bytes(k as nat)), None => seq![] }) + (fields::cat_opt_fields(self.spec_fs())))
    }

    pub open spec fn spec_descs() -> Seq<FieldDesc> {
        seq![
            FieldDesc { tag: 0x6, len: LengthSpec::Tlv, width: 0, repeatable: false, required: false },
        ]
    }

    fn descs() -> (r: Vec<FieldDesc>)
        ensures r@ == Self::spec_descs(),
    {
        let mut v: Vec<FieldDesc> = Vec::new();
        v.push(FieldDesc { tag: 0x6, len: LengthSpec::Tlv, width: 0, repeatable: false, required: false });
        proof { assert(v@ =~= Self::spec_descs()); }
        v
    }

    proof fn lemma_meta(self)
        ensures
            fields::find_desc(Self::spec_descs(), 0x6) == Some(Self::spec_descs()[0]),
            encoding::tag_wf(0x6),
            fields::fs_lookup(self.spec_fs(), 0x6) == (match self.tlv { Some(ref k) => Some(k.body_bytes()), None => None }),
    {
        let ds = Self::spec_descs();
        let fs = self.spec_fs();
        let ds0 = ds; let fs0 = fs;
        let ds1 = ds0.drop_first(); let fs1 = fs0.drop_first();
        assert(ds0[0] == ds[0]); assert(fs0[0] == fs[0]);
        assert(ds0.len() == 1); assert(fs0.len() == 1);
        assert(ds1 =~= Seq::<FieldDesc>::empty()); assert(fs1 =~= Seq::<(u16, LengthSpec, Option<Seq<u8>>)>::empty());
        fields::lemma_low5(0x1f);
        fields::lemma_low5(0x6);
        assert(fields::find_desc(ds0, 0x6) == Some(ds[0]));
        assert(fields::fs_lookup(fs1, 0x6) == None::<Seq<u8>>);
        assert(fields::fs_lookup(fs0, 0x6) == (match self.tlv { Some(ref k) => Some(k.body_bytes()), None => None }));
    }

    pub proof fn lemma_body_parses(self, s: Seq<u8>)
        requires self.wf(), s == self.body_bytes(), s.len() <= usize::MAX,
        ensures
            fields::spec_parse_fields(s, self.pos_len(), Self::spec_descs(), seq![], seq![]) == Ok::<_, ErrorView>((fields::cat_opt_entries(self.spec_fs()), s.len() as int)),
            self.pos_len() + fields::cat_opt_fields(self.spec_fs()).len() == s.len(),
    {
        let ds = Self::spec_descs();
        let fs = self.spec_fs();
        self.lemma_meta();
        let p0 = self.pos_len();
        let cat = fields::cat_opt_fields(fs);
        assert(s.subrange(0, s.len() as int) =~= s);
        fields::lemma_peel(s, 0, seq![self.error], (match self.currency { Some(k) => fields::padded_region(LengthSpec::Fixed(2), encoding::bcd_bytes(k as nat)), None => seq![] }) + (cat));
        fields::lemma_peel(s, 0 + (seq![self.error]).len() as int, (match self.currency { Some(k) => fields::padded_region(LengthSpec::Fixed(2), encoding::bcd_bytes(k as nat)), None => seq![] }), cat);
        assert(p0 == 0 + (seq![self.error]).len() as int + ((match self.currency { Some(k) => fields::padded_region(LengthSpec::Fixed(2), encoding::bcd_bytes(k as nat)), None => seq![] })).len() as int);
        assert(s.subrange(p0, s.len() as int) =~= cat);
        assert(s.subrange(p0, p0 + cat.len() as int) =~= cat);
        assert(fields::fs_ok(fs, ds, seq![])) by {
            assert forall|j: int| 0 <= j < fs.len() && (#[trigger] fs[j]).2 is Some implies {
                &&& encoding::tag_wf(fs[j].0)
                &&& fields::find_desc(ds, fs[j].0) matches Some(d) && d.len == fs[j].1 && fields::region_wf(d.len, d.width as int, fs[j].2.unwrap().len() as int) && (d.repeatable || (!seq![].contains(fs[j].0) && forall|i: int| 0 <= i < j ==> (#[trigger] fs[i]).0 != fs[j].0))
            } by {
                if j == 0 { assert(fs[0].0 == 0x6); }
            };
        };
        fields::lemma_parse_cat(s, p0, ds, seq![], seq![], fs);
        fields::lemma_parse_fields_stop(s, s.len() as int, ds, seq![] + fields::present_tags(fs), seq![] + fields::cat_opt_entries(fs));
        let seen = seq![] + fields::present_tags(fs);
        assert(seen =~= fields::present_tags(fs));
        assert forall|kk: int| 0 <= kk < ds.len() implies !(#[trigger] ds[kk]).required || seen.contains(ds[kk].tag) by {
            if kk == 0 { assert(!ds[0].required); }
        };
        fields::lemma_finish_ok(ds, seen, seq![] + fields::cat_opt_entries(fs), s.len() as int);
        assert(seq![] + fields::cat_opt_entries(fs) =~= fields::cat_opt_entries(fs));
    }

    pub open spec fn pos_len(self) -> int {
        (seq![self.error]).len() as int + ((match self.currency { Some(k) => fields::padded_region(LengthSpec::Fixed(2), encoding::bcd_bytes(k as nat)), None => seq![] })).len() as int
    }

    pub open spec fn eqv(a: Self, b: Self) -> bool {
        &&& a.error == b.error
        &&& a.currency == b.currency
        &&& (match (a.tlv, b.tlv) { (Some(x), Some(y)) => tlv::ReservationAbort::eqv(x, y), (None, None) => true, _ => false })
    }

    pub fn encode_body(&self) -> (r: Vec<u8>)
        requires self.wf(),
        ensures r@ == self.body_bytes(),
    {
        let ghost gfs = self.spec_fs();
        let mut out: Vec<u8> = Vec::new();
        out.push(self.error);
        match self.currency { Some(k) => { let region = fields::pad_fixed(encoding::enc_bcd(k), 2); fields::ser_field(&mut out, None, LengthSpec::Fixed(2), &region); }, None => {} }
        match self.tlv { Some(ref k) => { let region = k.encode_body(); fields::ser_field(&mut out, Some(Tag(0x6)), LengthSpec::Tlv, &region); }, None => {} }
        proof { assert(out@ =~= seq![self.error] + (match self.currency { Some(k) => fields::padded_region(LengthSpec::Fixed(2), encoding::bcd_bytes(k as nat)), None => seq![] }) + fields::opt_field_bytes(gfs[0].0, gfs[0].1, gfs[0].2)); }
        proof {
            self.lemma_meta();
            let fs = self.spec_fs();
        let fs0 = fs;
        let fs1 = fs0.drop_first();
        assert(fields::cat_opt_fields(fs0) == fields::opt_field_bytes(fs0[0].0, fs0[0].1, fs0[0].2) + fields::cat_opt_fields(fs1)); assert(fs0[0] == fs[0]);
        assert(fields::cat_opt_fields(fs1) =~= Seq::<u8>::empty());
            assert(out@ =~= self.body_bytes());
        }
        out
    }

    pub fn decode_body(bytes: &[u8]) -> (r: ZVTResult<(Self, usize)>)
        ensures
            r matches Ok(v) ==> v.1 <= bytes@.len(),
            forall|v: Self|
                v.wf() && (v.currency is Some || v.tlv is None) && bytes@ == #[trigger] v.body_bytes() ==> (r matches Ok(o) && ReservationAbort::eqv(o.0, v)
                    && o.1 == bytes@.len()),
    {
        let blen_e = bytes.len();
        proof { assert(bytes@.len() <= usize::MAX); }
        proof {
            assert forall|v: Self| v.wf() && (v.currency is Some || v.tlv is None) && bytes@ == #[trigger] v.body_bytes() implies ReservationAbort::master_facts(v, bytes@) by { ReservationAbort::lemma_master(v, bytes@); };
        }
        let mut p: usize = 0;
        let f_error = match fields::de_u8_tagged(bytes, p, None, LengthSpec::Unprefixed, NumEncoding::LittleEndian) { Ok((x, q)) => { p = q; x }, Err(e) => { return Err(e); } };
        let f_currency = { let (x, q) = fields::de_opt_usize_bcd(bytes, p, LengthSpec::Fixed(2)); p = q; x };
        let descs = Self::descs();
        let parsed = fields::parse_tagged_fields(bytes, p, &descs);
        let (entries, pos_end) = match parsed { Ok(v) => v, Err(e) => { return Err(e); } };
        let f_tlv = match fields::find_payload(&entries, 0x6) { None => None, Some(pl) => match tlv::ReservationAbort::decode_body(pl.as_slice()) { Ok(v) => Some(v.0), Err(e) => { return Err(e); } } };
        let result = Self {
            error: f_error,
            currency: f_currency,
            tlv: f_tlv,
        };
        proof {
            assert forall|v: Self| v.wf() && (v.currency is Some || v.tlv is None) && bytes@ == #[trigger] v.body_bytes() implies ReservationAbort::eqv(result, v) by {
                ReservationAbort::lemma_master(v, bytes@);
                match v.tlv { Some(ref kk) => { assert(kk.wf()); }, None => {} }
            };
        }
        Ok((result, pos_end))
    }

    pub open spec fn master_facts(v: Self, s: Seq<u8>) -> bool {
        &&& fields::spec_de_u8_tagged(s, (0) as int, None, LengthSpec::Unprefixed, NumEncoding::LittleEndian) == Ok::<_, ZVTError>((v.error, (0 + 1) as usize))
        &&& fields::spec_de_opt_usize_bcd(s, (0 + seq![v.error].len()) as int, LengthSpec::Fixed(2)) == (v.currency, (0 + seq![v.error].len() + ((match v.currency { Some(k) => fields::padded_region(LengthSpec::Fixed(2), encoding::bcd_bytes(k as nat)), None => seq![] })).len()) as usize)
        &&& fields::spec_parse_fields(s, v.pos_len(), Self::spec_descs(), seq![], seq![]) == Ok::<_, ErrorView>((fields::cat_opt_entries(v.spec_fs()), s.len() as int))
        &&& fields::find_entry(fields::cat_opt_entries(v.spec_fs()), 0x6) == (match v.tlv { Some(ref k) => Some(k.body_bytes()), None => None })
    }

    pub proof fn lemma_master(v: Self, s: Seq<u8>)
        requires v.wf(), (v.currency is Some || v.tlv is None), s == v.body_bytes(), s.len() <= usize::MAX,
        ensures Self::master_facts(v, s),
    {
        v.lemma_meta();
        v.lemma_body_parses(s);
        let fs = v.spec_fs();
        let g0 = fs;
        let g1 = g0.drop_first();
        assert(fields::cat_opt_fields(g0) == fields::opt_field_bytes(g0[0].0, g0[0].1, g0[0].2) + fields::cat_opt_fields(g1)); assert(g0[0] == fs[0]);
        assert(fields::cat_opt_fields(g1) =~= Seq::<u8>::empty());
        fields::lemma_find_entry_fs(fs, 0x6);
        let cat = fields::cat_opt_fields(fs);
        assert(s.subrange(0, s.len() as int) =~= s);
        fields::lemma_peel(s, 0, seq![v.error], (match v.currency { Some(k) => fields::padded_region(LengthSpec::Fixed(2), encoding::bcd_bytes(k as nat)), None => seq![] }) + (cat));
        assert(s[(0) as int] == v.error) by { assert(s.subrange((0) as int, (0 + 1) as int)[0] == (seq![v.error])[0]); };
        fields::lemma_peel(s, 0 + (seq![v.error]).len() as int, (match v.currency { Some(k) => fields::padded_region(LengthSpec::Fixed(2), encoding::bcd_bytes(k as nat)), None => seq![] }), cat);
        match v.currency { Some(kk) => { let zeros = length::fixed_len_bytes(2, encoding::bcd_bytes(kk as nat).len() as int); encoding::lemma_bcd_nat_zero_prefix(zeros, encoding::bcd_bytes(kk as nat)); encoding::lemma_bcd_roundtrip(kk as nat); vstd::arithmetic::div_mod::lemma_small_mod(kk as nat, encoding::usize_mod()); assert(s.subrange((0 + (seq![v.error]).len() as int) as int, (0 + (seq![v.error]).len() as int + 2) as int) =~= (match v.currency { Some(k) => fields::padded_region(LengthSpec::Fixed(2), encoding::bcd_bytes(k as nat)), None => seq![] })); }, None => { assert(fields::cat_opt_fields(fs).len() == 0); assert(s.len() - (0 + (seq![v.error]).len() as int) < 2); } }
    }
    pub fn zvt_serialize(&self) -> (r: Vec<u8>)
        requires self.wf(), self.body_bytes().len() <= 0xffff,
        ensures r@ == crate::packets::frame_bytes(6, 30, self.body_bytes()),
    {
        let body = self.encode_body();
        crate::packets::ser_frame(6, 30, body)
    }

    pub fn zvt_deserialize(bytes: &[u8]) -> (r: ZVTResult<(Self, usize)>)
        ensures
            r matches Ok(v) ==> v.1 <= bytes@.len(),
            forall|v: Self, rest: Seq<u8>|
                v.wf() && (v.currency is Some || v.tlv is None) && v.body_bytes().len() <= 0xffff && bytes@ == #[trigger] (crate::packets::frame_bytes(6, 30, v.body_bytes()) + rest) ==> (r matches Ok(o) && ReservationAbort::eqv(o.0, v) && o.1 == bytes@.len() - rest.len()),
    {
        let blen_e = bytes.len();
        proof { assert(bytes@.len() <= usize::MAX); }
        let (ps, pe) = match crate::packets::de_frame(bytes, 6, 30) {
            Ok(v) => v,
            Err(e) => {
                proof {
                    assert forall|v: Self, rest: Seq<u8>| v.wf() && (v.currency is Some || v.tlv is None) && v.body_bytes().len() <= 0xffff && bytes@ == #[trigger] (crate::packets::frame_bytes(6, 30, v.body_bytes()) + rest) implies false by { crate::packets::lemma_de_frame(bytes@, 6, 30, v.body_bytes(), rest); };
                }
                return Err(e);
            },
        };
        let payload = encoding::copy_range(bytes, ps, pe);
        proof {
            assert forall|v: Self, rest: Seq<u8>| v.wf() && (v.currency is Some || v.tlv is None) && v.body_bytes().len() <= 0xffff && bytes@ == #[trigger] (crate::packets::frame_bytes(6, 30, v.body_bytes()) + rest) implies (payload@ == v.body_bytes() && pe - ps == v.body_bytes().len() && pe == bytes@.len() - rest.len()) by { crate::packets::lemma_de_frame(bytes@, 6, 30, v.body_bytes(), rest); };
        }
        match Self::decode_body(payload.as_slice()) {
            Ok((p, consumed)) => Ok((p, ps + consumed)),
            Err(e) => Err(e),
        }
    }
}

/// Asks the terminal for its status and lets it run timed jobs.
#[derive(Debug, PartialEq)]
pub struct StatusEnquiry {
    pub password: Option<usize>,
    pub service_byte: Option<u8>,
    pub tlv: Option<tlv::StatusEnquiry>,
}

impl StatusEnquiry {
    pub open spec fn wf(self) -> bool {
        &&& (match self.password { Some(k) => encoding::bcd_bytes(k as nat).len() <= 3, None => true })
        &&& (match self.tlv { Some(ref k) => k.wf() && k.body_bytes().len() <= 0xffff, None => true })
    }

    pub open spec fn spec_fs(self) -> Seq<(u16, LengthSpec, Option<Seq<u8>>)> {
        seq![
            (0x3u16, LengthSpec::Unprefixed, crate::packets::tlv::opt_u8_region(self.service_byte)),
            (0x6u16, LengthSpec::Tlv, (match self.tlv { Some(ref k) => Some(k.body_bytes()), None => None })),
        ]
    }

    pub open spec fn body_bytes(self) -> Seq<u8> {
        (match self.password { Some(k) => fields::padded_region(LengthSpec::Fixed(3), encoding::bcd_bytes(k as nat)), None => seq![] }) + (fields::cat_opt_fields(self.spec_fs()))
    }

    pub open spec fn spec_descs() -> Seq<FieldDesc> {
        seq![
            FieldDesc { tag: 0x3, len: LengthSpec::Unprefixed, width: 1, repeatable: false, required: false },
            FieldDesc { tag: 0x6, len: LengthSpec::Tlv, width: 0, repeatable: false, required: false },
        ]
    }

    fn descs() -> (r: Vec<FieldDesc>)
        ensures r@ == Self::spec_descs(),
    {
        let mut v: Vec<FieldDesc> = Vec::new();
        v.push(FieldDesc { tag: 0x3, len: LengthSpec::Unprefixed, width: 1, repeatable: false, required: false });
        v.push(FieldDesc { tag: 0x6, len: LengthSpec::Tlv, width: 0, repeatable: false, required: false });
        proof { assert(v@ =~= Self::spec_descs()); }
        v
    }

    proof fn lemma_meta(self)
        ensures
            fields::find_desc(Self::spec_descs(), 0x3) == Some(Self::spec_descs()[0]),
            encoding::tag_wf(0x3),
            fields::fs_lookup(self.spec_fs(), 0x3) == crate::packets::tlv::opt_u8_region(self.service_byte),
            fields::find_desc(Self::spec_descs(), 0x6) == Some(Self::spec_descs()[1]),
            encoding::tag_wf(0x6),
            fields::fs_lookup(self.spec_fs(), 0x6) == (match self.tlv { Some(ref k) => Some(k.body_bytes()), None => None }),
    {
        let ds = Self::spec_descs();
        let fs = self.spec_fs();
        let ds0 = ds; let fs0 = fs;
        let ds1 = ds0.drop_first(); let fs1 = fs0.drop_first();
        let ds2 = ds1.drop_first(); let fs2 = fs1.drop_first();
        assert(ds0[0] == ds[0]); assert(fs0[0] == fs[0]);
        assert(ds0.len() == 2); assert(fs0.len() == 2);
        assert(ds1[0] == ds[1]); assert(fs1[0] == fs[1]);
        assert(ds1.len() == 1); assert(fs1.len() == 1);
        assert(ds2 =~= Seq::<FieldDesc>::empty()); assert(fs2 =~= Seq::<(u16, LengthSpec, Option<Seq<u8>>)>::empty());
        fields::lemma_low5(0x1f);
        fields::lemma_low5(0x3);
        fields::lemma_low5(0x6);
        assert(fields::find_desc(ds0, 0x3) == Some(ds[0]));
        assert(fields::find_desc(ds1, 0x6) == Some(ds[1]));
        assert(fields::find_desc(ds0, 0x6) == fields::find_desc(ds1, 0x6));
        assert(fields::fs_lookup(fs2, 0x3) == None::<Seq<u8>>);
        assert(fields::fs_lookup(fs1, 0x3) == None::<Seq<u8>>);
        assert(fields::fs_lookup(fs0, 0x3) == crate::packets::tlv::opt_u8_region(self.service_byte));
        assert(fields::fs_lookup(fs2, 0x6) == None::<Seq<u8>>);
        assert(fields::fs_lookup(fs1, 0x6) == (match self.tlv { Some(ref k) => Some(k.body_bytes()), None => None }));
        assert(fields::fs_lookup(fs0, 0x6) == fields::fs_lookup(fs1, 0x6));
    }

    pub proof fn lemma_body_parses(self, s: Seq<u8>)
        requires self.wf(), s == self.body_bytes(), s.len() <= usize::MAX,
        ensures
            fields::spec_parse_fields(s, self.pos_len(), Self::spec_descs(), seq![], seq![]) == Ok::<_, ErrorView>((fields::cat_opt_entries(self.spec_fs()), s.len() as int)),
            self.pos_len() + fields::cat_opt_fields(self.spec_fs()).len() == s.len(),
    {
        let ds = Self::spec_descs();
        let fs = self.spec_fs();
        self.lemma_meta();
        let p0 = self.pos_len();
        let cat = fields::cat_opt_fields(fs);
        assert(s.subrange(0, s.len() as int) =~= s);
        fields::lemma_peel(s, 0, (match self.password { Some(k) => fields::padded_region(LengthSpec::Fixed(3), encoding::bcd_bytes(k as nat)), None => seq![] }), cat);
        assert(p0 == 0 + ((match self.password { Some(k) => fields::padded_region(LengthSpec::Fixed(3), encoding::bcd_bytes(k as nat)), None => seq![] })).len() as int);
        assert(s.subrange(p0, s.len() as int) =~= cat);
        assert(s.subrange(p0, p0 + cat.len() as int) =~= cat);
        assert(fields::fs_ok(fs, ds, seq![])) by {
            assert forall|j: int| 0 <= j < fs.len() && (#[trigger] fs[j]).2 is Some implies {
                &&& encoding::tag_wf(fs[j].0)
                &&& fields::find_desc(ds, fs[j].0) matches Some(d) && d.len == fs[j].1 && fields::region_wf(d.len, d.width as int, fs[j].2.unwrap().len() as int) && (d.repeatable || (!seq![].contains(fs[j].0) && forall|i: int| 0 <= i < j ==> (#[trigger] fs[i]).0 != fs[j].0))
            } by {
                if j == 0 { assert(fs[0].0 == 0x3); }
                if j == 1 { assert(fs[1].0 == 0x6); }
            };
        };
        fields::lemma_parse_cat(s, p0, ds, seq![], seq![], fs);
        fields::lemma_parse_fields_stop(s, s.len() as int, ds, seq![] + fields::present_tags(fs), seq![] + fields::cat_opt_entries(fs));
        let seen = seq![] + fields::present_tags(fs);
        assert(seen =~= fields::present_tags(fs));
        assert forall|kk: int| 0 <= kk < ds.len() implies !(#[trigger] ds[kk]).required || seen.contains(ds[kk].tag) by {
            if kk == 0 { assert(!ds[0].required); }
            if kk == 1 { assert(!ds[1].required); }
        };
        fields::lemma_finish_ok(ds, seen, seq![] + fields::cat_opt_entries(fs), s.len() as int);
        assert(seq![] + fields::cat_opt_entries(fs) =~= fields::cat_opt_entries(fs));
    }

    pub open spec fn pos_len(self) -> int {
        ((match self.password { Some(k) => fields::padded_region(LengthSpec::Fixed(3), encoding::bcd_bytes(k as nat)), None => seq![] })).len() as int
    }

    pub fn encode_body(&self) -> (r: Vec<u8>)
        requires self.wf(),
        ensures r@ == self.body_bytes(),
    {
        let ghost gfs = self.spec_fs();
        let mut out: Vec<u8> = Vec::new();
        match self.password { Some(k) => { let region = fields::pad_fixed(encoding::enc_bcd(k), 3); fields::ser_field(&mut out, None, LengthSpec::Fixed(3), &region); }, None => {} }
        match self.service_byte { Some(k) => { let region = encoding::enc_u8(k); fields::ser_field(&mut out, Some(Tag(0x3)), LengthSpec::Unprefixed, &region); }, None => {} }
        proof { assert(out@ =~= (match self.password { Some(k) => fields::padded_region(LengthSpec::Fixed(3), encoding::bcd_bytes(k as nat)), None => seq![] }) + fields::opt_field_bytes(gfs[0].0, gfs[0].1, gfs[0].2)); }
        match self.tlv { Some(ref k) => { let region = k.encode_body(); fields::ser_field(&mut out, Some(Tag(0x6)), LengthSpec::Tlv, &region); }, None => {} }
        proof { assert(out@ =~= (match self.password { Some(k) => fields::padded_region(LengthSpec::Fixed(3), encoding::bcd_bytes(k as nat)), None => seq![] }) + fields::opt_field_bytes(gfs[0].0, gfs[0].1, gfs[0].2) + fields::opt_field_bytes(gfs[1].0, gfs[1].1, gfs[1].2)); }
        proof {
            self.lemma_meta();
            let fs = self.spec_fs();
        let fs0 = fs;
        let fs1 = fs0.drop_first();
        let fs2 = fs1.drop_first();
        assert(fields::cat_opt_fields(fs0) == fields::opt_field_bytes(fs0[0].0, fs0[0].1, fs0[0].2) + fields::cat_opt_fields(fs1)); assert(fs0[0] == fs[0]);
        assert(fields::cat_opt_fields(fs1) == fields::opt_field_bytes(fs1[0].0, fs1[0].1, fs1[0].2) + fields::cat_opt_fields(fs2)); assert(fs1[0] == fs[1]);
        assert(fields::cat_opt_fields(fs2) =~= Seq::<u8>::empty());
            assert(out@ =~= self.body_bytes());
        }
        out
    }

    pub fn decode_body(bytes: &[u8]) -> (r: ZVTResult<(Self, usize)>)
        ensures
            r matches Ok(v) ==> v.1 <= bytes@.len(),
            forall|v: Self|
                v.wf() && (v.password is Some || (v.service_byte is None && v.tlv is None)) && bytes@ == #[trigger] v.body_bytes() ==> (r matches Ok(o) && o.0 == v
                    && o.1 == bytes@.len()),
    {
        let blen_e = bytes.len();
        proof { assert(bytes@.len() <= usize::MAX); }
        proof {
            assert forall|v: Self| v.wf() && (v.password is Some || (v.service_byte is None && v.tlv is None)) && bytes@ == #[trigger] v.body_bytes() implies StatusEnquiry::master_facts(v, bytes@) by { StatusEnquiry::lemma_master(v, bytes@); };
        }
        let mut p: usize = 0;
        let f_password = { let (x, q) = fields::de_opt_usize_bcd(bytes, p, LengthSpec::Fixed(3)); p = q; x };
        let descs = Self::descs();
        let parsed = fields::parse_tagged_fields(bytes, p, &descs);
        let (entries, pos_end) = match parsed { Ok(v) => v, Err(e) => { return Err(e); } };
        let f_service_byte = match fields::entry_opt_u8(&entries, 0x3) { Ok(v) => v, Err(e) => { return Err(e); } };
        let f_tlv = match fields::find_payload(&entries, 0x6) { None => None, Some(pl) => match tlv::StatusEnquiry::decode_body(pl.as_slice()) { Ok(v) => Some(v.0), Err(e) => { return Err(e); } } };
        let result = Self {
            password: f_password,
            service_byte: f_service_byte,
            tlv: f_tlv,
        };
        proof {
            assert forall|v: Self| v.wf() && (v.password is Some || (v.service_byte is None && v.tlv is None)) && bytes@ == #[trigger] v.body_bytes() implies result == v by {
                StatusEnquiry::lemma_master(v, bytes@);
                match v.tlv { Some(ref kk) => { assert(kk.wf()); }, None => {} }
            };
        }
        Ok((result, pos_end))
    }

    pub open spec fn master_facts(v: Self, s: Seq<u8>) -> bool {
        &&& fields::spec_de_opt_usize_bcd(s, (0) as int, LengthSpec::Fixed(3)) == (v.password, (0 + ((match v.password { Some(k) => fields::padded_region(LengthSpec::Fixed(3), encoding::bcd_bytes(k as nat)), None => seq![] })).len()) as usize)
        &&& fields::spec_parse_fields(s, v.pos_len(), Self::spec_descs(), seq![], seq![]) == Ok::<_, ErrorView>((fields::cat_opt_entries(v.spec_fs()), s.len() as int))
        &&& fields::find_entry(fields::cat_opt_entries(v.spec_fs()), 0x3) == crate::packets::tlv::opt_u8_region(v.service_byte)
        &&& fields::find_entry(fields::cat_opt_entries(v.spec_fs()), 0x6) == (match v.tlv { Some(ref k) => Some(k.body_bytes()), None => None })
    }

    pub proof fn lemma_master(v: Self, s: Seq<u8>)
        requires v.wf(), (v.password is Some || (v.service_byte is None && v.tlv is None)), s == v.body_bytes(), s.len() <= usize::MAX,
        ensures Self::master_facts(v, s),
    {
        v.lemma_meta();
        v.lemma_body_parses(s);
        let fs = v.spec_fs();
        let g0 = fs;
        let g1 = g0.drop_first();
        let g2 = g1.drop_first();
        assert(fields::cat_opt_fields(g0) == fields::opt_field_bytes(g0[0].0, g0[0].1, g0[0].2) + fields::cat_opt_fields(g1)); assert(g0[0] == fs[0]);
        assert(fields::cat_opt_fields(g1) == fields::opt_field_bytes(g1[0].0, g1[0].1, g1[0].2) + fields::cat_opt_fields(g2)); assert(g1[0] == fs[1]);
        assert(fields::cat_opt_fields(g2) =~= Seq::<u8>::empty());
        fields::lemma_find_entry_fs(fs, 0x3);
        fields::lemma_find_entry_fs(fs, 0x6);
        let cat = fields::cat_opt_fields(fs);
        assert(s.subrange(0, s.len() as int) =~= s);
        fields::lemma_peel(s, 0, (match v.password { Some(k) => fields::padded_region(LengthSpec::Fixed(3), encoding::bcd_bytes(k as nat)), None => seq![] }), cat);
        match v.password { Some(kk) => { let zeros = length::fixed_len_bytes(3, encoding::bcd_bytes(kk as nat).len() as int); encoding::lemma_bcd_nat_zero_prefix(zeros, encoding::bcd_bytes(kk as nat)); encoding::lemma_bcd_roundtrip(kk as nat); vstd::arithmetic::div_mod::lemma_small_mod(kk as nat, encoding::usize_mod()); assert(s.subrange((0) as int, (0 + 3) as int) =~= (match v.password { Some(k) => fields::padded_region(LengthSpec::Fixed(3), encoding::bcd_bytes(k as nat)), None => seq![] })); }, None => { assert(fields::cat_opt_fields(fs).len() == 0); assert(s.len() - (0) < 3); } }
    }
    pub fn zvt_serialize(&self) -> (r: Vec<u8>)
        requires self.wf(), self.body_bytes().len() <= 0xffff,
        ensures r@ == crate::packets::frame_bytes(5, 1, self.body_bytes()),
    {
        let body = self.encode_body();
        crate::packets::ser_frame(5, 1, body)
    }

    pub fn zvt_deserialize(bytes: &[u8]) -> (r: ZVTResult<(Self, usize)>)
        ensures
            r matches Ok(v) ==> v.1 <= bytes@.len(),
            forall|v: Self, rest: Seq<u8>|
                v.wf() && (v.password is Some || (v.service_byte is None && v.tlv is None)) && v.body_bytes().len() <= 0xffff && bytes@ == #[trigger] (crate::packets::frame_bytes(5, 1, v.body_bytes()) + rest) ==> (r matches Ok(o) && o.0 == v && o.1 == bytes@.len() - rest.len()),
    {
        let blen_e = bytes.len();
        proof { assert(bytes@.len() <= usize::MAX); }
        let (ps, pe) = match crate::packets::de_frame(bytes, 5, 1) {
            Ok(v) => v,
            Err(e) => {
                proof {
                    assert forall|v: Self, rest: Seq<u8>| v.wf() && (v.password is Some || (v.service_byte is None && v.tlv is None)) && v.body_bytes().len() <= 0xffff && bytes@ == #[trigger] (crate::packets::frame_bytes(5, 1, v.body_bytes()) + rest) implies false by { crate::packets::lemma_de_frame(bytes@, 5, 1, v.body_bytes(), rest); };
                }
                return Err(e);
            },
        };
        let payload = encoding::copy_range(bytes, ps, pe);
        proof {
            assert forall|v: Self, rest: Seq<u8>| v.wf() && (v.password is Some || (v.service_byte is None && v.tlv is None)) && v.body_bytes().len() <= 0xffff && bytes@ == #[trigger] (crate::packets::frame_bytes(5, 1, v.body_bytes()) + rest) implies (payload@ == v.body_bytes() && pe - ps == v.body_bytes().len() && pe == bytes@.len() - rest.len()) by { crate::packets::lemma_de_frame(bytes@, 5, 1, v.body_bytes(), rest); };
        }
        match Self::decode_body(payload.as_slice()) {
            Ok((p, consumed)) => Ok((p, ps + consumed)),
            Err(e) => Err(e),
        }
    }
}

/// Forces a diagnosis dialog of the selected kind.
#[derive(Debug, PartialEq)]
pub struct Diagnosis {
    pub tlv: Option<tlv::Diagnosis>,
}

impl Diagnosis {
    pub open spec fn wf(self) -> bool {
        &&& (match self.tlv { Some(ref k) => k.wf() && k.body_bytes().len() <= 0xffff, None => true })
    }

    pub open spec fn spec_fs(self) -> Seq<(u16, LengthSpec, Option<Seq<u8>>)> {
        seq![
            (0x6u16, LengthSpec::Tlv, (match self.tlv { Some(ref k) => Some(k.body_bytes()), None => None })),
        ]
    }

    pub open spec fn body_bytes(self) -> Seq<u8> {
        fields::cat_opt_fields(self.spec_fs())
    }

    pub open spec fn spec_descs() -> Seq<FieldDesc> {
        seq![
            FieldDesc { tag: 0x6, len: LengthSpec::Tlv, width: 0, repeatable: false, required: false },
        ]
    }

    fn descs() -> (r: Vec<FieldDesc>)
        ensures r@ == Self::spec_descs(),
    {
        let mut v: Vec<FieldDesc> = Vec::new();
        v.push(FieldDesc { tag: 0x6, len: LengthSpec::Tlv, width: 0, repeatable: false, required: false });
        proof { assert(v@ =~= Self::spec_descs()); }
        v
    }

    proof fn lemma_meta(self)
        ensures
            fields::find_desc(Self::spec_descs(), 0x6) == Some(Self::spec_descs()[0]),
            encoding::tag_wf(0x6),
            fields::fs_lookup(self.spec_fs(), 0x6) == (match self.tlv { Some(ref k) => Some(k.body_bytes()), None => None }),
    {
        let ds = Self::spec_descs();
        let fs = self.spec_fs();
        let ds0 = ds; let fs0 = fs;
        let ds1 = ds0.drop_first(); let fs1 = fs0.drop_first();
        assert(ds0[0] == ds[0]); assert(fs0[0] == fs[0]);
        assert(ds0.len() == 1); assert(fs0.len() == 1);
        assert(ds1 =~= Seq::<FieldDesc>::empty()); assert(fs1 =~= Seq::<(u16, LengthSpec, Option<Seq<u8>>)>::empty());
        fields::lemma_low5(0x1f);
        fields::lemma_low5(0x6);
        assert(fields::find_desc(ds0, 0x6) == Some(ds[0]));
        assert(fields::fs_lookup(fs1, 0x6) == None::<Seq<u8>>);
        assert(fields::fs_lookup(fs0, 0x6) == (match self.tlv { Some(ref k) => Some(k.body_bytes()), None => None }));
    }

    pub proof fn lemma_body_parses(self, s: Seq<u8>)
        requires self.wf(), s == self.body_bytes(), s.len() <= usize::MAX,
        ensures
            fields::spec_parse_fields(s, self.pos_len(), Self::spec_descs(), seq![], seq![]) == Ok::<_, ErrorView>((fields::cat_opt_entries(self.spec_fs()), s.len() as int)),
            self.pos_len() + fields::cat_opt_fields(self.spec_fs()).len() == s.len(),
    {
        let ds = Self::spec_descs();
        let fs = self.spec_fs();
        self.lemma_meta();
        let p0 = self.pos_len();
        assert(p0 == 0);
        assert(s.subrange(0, fields::cat_opt_fields(fs).len() as int) =~= fields::cat_opt_fields(fs));
        assert(fields::fs_ok(fs, ds, seq![])) by {
            assert forall|j: int| 0 <= j < fs.len() && (#[trigger] fs[j]).2 is Some implies {
                &&& encoding::tag_wf(fs[j].0)
                &&& fields::find_desc(ds, fs[j].0) matches Some(d) && d.len == fs[j].1 && fields::region_wf(d.len, d.width as int, fs[j].2.unwrap().len() as int) && (d.repeatable || (!seq![].contains(fs[j].0) && forall|i: int| 0 <= i < j ==> (#[trigger] fs[i]).0 != fs[j].0))
            } by {
                if j == 0 { assert(fs[0].0 == 0x6); }
            };
        };
        fields::lemma_parse_cat(s, p0, ds, seq![], seq![], fs);
        fields::lemma_parse_fields_stop(s, s.len() as int, ds, seq![] + fields::present_tags(fs), seq![] + fields::cat_opt_entries(fs));
        let seen = seq![] + fields::present_tags(fs);
        assert(seen =~= fields::present_tags(fs));
        assert forall|kk: int| 0 <= kk < ds.len() implies !(#[trigger] ds[kk]).required || seen.contains(ds[kk].tag) by {
            if kk == 0 { assert(!ds[0].required); }
        };
        fields::lemma_finish_ok(ds, seen, seq![] + fields::cat_opt_entries(fs), s.len() as int);
        assert(seq![] + fields::cat_opt_entries(fs) =~= fields::cat_opt_entries(fs));
    }

    pub open spec fn pos_len(self) -> int {
        0
    }

    pub fn encode_body(&self) -> (r: Vec<u8>)
        requires self.wf(),
        ensures r@ == self.body_bytes(),
    {
        let ghost gfs = self.spec_fs();
        let mut out: Vec<u8> = Vec::new();
        match self.tlv { Some(ref k) => { let region = k.encode_body(); fields::ser_field(&mut out, Some(Tag(0x6)), LengthSpec::Tlv, &region); }, None => {} }
        proof { assert(out@ =~= fields::opt_field_bytes(gfs[0].0, gfs[0].1, gfs[0].2)); }
        proof {
            self.lemma_meta();
            let fs = self.spec_fs();
        let fs0 = fs;
        let fs1 = fs0.drop_first();
        assert(fields::cat_opt_fields(fs0) == fields::opt_field_bytes(fs0[0].0, fs0[0].1, fs0[0].2) + fields::cat_opt_fields(fs1)); assert(fs0[0] == fs[0]);
        assert(fields::cat_opt_fields(fs1) =~= Seq::<u8>::empty());
            assert(out@ =~= self.body_bytes());
        }
        out
    }

    pub fn decode_body(bytes: &[u8]) -> (r: ZVTResult<(Self, usize)>)
        ensures
            r matches Ok(v) ==> v.1 <= bytes@.len(),
            forall|v: Self|
                v.wf() && (true) && bytes@ == #[trigger] v.body_bytes() ==> (r matches Ok(o) && o.0 == v
                    && o.1 == bytes@.len()),
    {
        let blen_e = bytes.len();
        proof { assert(bytes@.len() <= usize::MAX); }
        proof {
            assert forall|v: Self| v.wf() && (true) && bytes@ == #[trigger] v.body_bytes() implies Diagnosis::master_facts(v, bytes@) by { Diagnosis::lemma_master(v, bytes@); };
        }
        let mut p: usize = 0;
        let descs = Self::descs();
        let parsed = fields::parse_tagged_fields(bytes, p, &descs);
        let (entries, pos_end) = match parsed { Ok(v) => v, Err(e) => { return Err(e); } };
        let f_tlv = match fields::find_payload(&entries, 0x6) { None => None, Some(pl) => match tlv::Diagnosis::decode_body(pl.as_slice()) { Ok(v) => Some(v.0), Err(e) => { return Err(e); } } };
        let result = Self {
            tlv: f_tlv,
        };
        proof {
            assert forall|v: Self| v.wf() && (true) && bytes@ == #[trigger] v.body_bytes() implies result == v by {
                Diagnosis::lemma_master(v, bytes@);
                match v.tlv { Some(ref kk) => { assert(kk.wf()); }, None => {} }
            };
        }
        Ok((result, pos_end))
    }

    pub open spec fn master_facts(v: Self, s: Seq<u8>) -> bool {
        &&& fields::spec_parse_fields(s, v.pos_len(), Self::spec_descs(), seq![], seq![]) == Ok::<_, ErrorView>((fields::cat_opt_entries(v.spec_fs()), s.len() as int))
        &&& fields::find_entry(fields::cat_opt_entries(v.spec_fs()), 0x6) == (match v.tlv { Some(ref k) => Some(k.body_bytes()), None => None })
    }

    pub proof fn lemma_master(v: Self, s: Seq<u8>)
        requires v.wf(), (true), s == v.body_bytes(), s.len() <= usize::MAX,
        ensures Self::master_facts(v, s),
    {
        v.lemma_meta();
        v.lemma_body_parses(s);
        let fs = v.spec_fs();
        let g0 = fs;
        let g1 = g0.drop_first();
        assert(fields::cat_opt_fields(g0) == fields::opt_field_bytes(g0[0].0, g0[0].1, g0[0].2) + fields::cat_opt_fields(g1)); assert(g0[0] == fs[0]);
        assert(fields::cat_opt_fields(g1) =~= Seq::<u8>::empty());
        fields::lemma_find_entry_fs(fs, 0x6);
    }
    pub fn zvt_serialize(&self) -> (r: Vec<u8>)
        requires self.wf(), self.body_bytes().len() <= 0xffff,
        ensures r@ == crate::packets::frame_bytes(6, 112, self.body_bytes()),
    {
        let body = self.encode_body();
        crate::packets::ser_frame(6, 112, body)
    }

    pub fn zvt_deserialize(bytes: &[u8]) -> (r: ZVTResult<(Self, usize)>)
        ensures
            r matches Ok(v) ==> v.1 <= bytes@.len(),
            forall|v: Self, rest: Seq<u8>|
                v.wf() && (true) && v.body_bytes().len() <= 0xffff && bytes@ == #[trigger] (crate::packets::frame_bytes(6, 112, v.body_bytes()) + rest) ==> (r matches Ok(o) && o.0 == v && o.1 == bytes@.len() - rest.len()),
    {
        let blen_e = bytes.len();
        proof { assert(bytes@.len() <= usize::MAX); }
        let (ps, pe) = match crate::packets::de_frame(bytes, 6, 112) {
            Ok(v) => v,
            Err(e) => {
                proof {
                    assert forall|v: Self, rest: Seq<u8>| v.wf() && (true) && v.body_bytes().len() <= 0xffff && bytes@ == #[trigger] (crate::packets::frame_bytes(6, 112, v.body_bytes()) + rest) implies false by { crate::packets::lemma_de_frame(bytes@, 6, 112, v.body_bytes(), rest); };
                }
                return Err(e);
            },
        };
        let payload = encoding::copy_range(bytes, ps, pe);
        proof {
            assert forall|v: Self, rest: Seq<u8>| v.wf() && (true) && v.body_bytes().len() <= 0xffff && bytes@ == #[trigger] (crate::packets::frame_bytes(6, 112, v.body_bytes()) + rest) implies (payload@ == v.body_bytes() && pe - ps == v.body_bytes().len() && pe == bytes@.len() - rest.len()) by { crate::packets::lemma_de_frame(bytes@, 6, 112, v.body_bytes(), rest); };
        }
        match Self::decode_body(payload.as_slice()) {
            Ok((p, consumed)) => Ok((p, ps + consumed)),
            Err(e) => Err(e),
        }
    }
}

/// Asks the terminal to read a card within the timeout.
#[derive(Debug, PartialEq)]
pub struct ReadCard {
    pub timeout_sec: u8,
    pub card_type: Option<u8>,
    pub dialog_control: Option<u8>,
    pub tlv: Option<tlv::ReadCard>,
}

impl ReadCard {
    pub open spec fn wf(self) -> bool {
        &&& (match self.tlv { Some(ref k) => k.wf() && k.body_bytes().len() <= 0xffff, None => true })
    }

    pub open spec fn spec_fs(self) -> Seq<(u16, LengthSpec, Option<Seq<u8>>)> {
        seq![
            (0x19u16, LengthSpec::Unprefixed, crate::packets::tlv::opt_u8_region(self.card_type)),
            (0xfcu16, LengthSpec::Unprefixed, crate::packets::tlv::opt_u8_region(self.dialog_control)),
            (0x6u16, LengthSpec::Tlv, (match self.tlv { Some(ref k) => Some(k.body_bytes()), None => None })),
        ]
    }

    pub open spec fn body_bytes(self) -> Seq<u8> {
        seq![self.timeout_sec] + (fields::cat_opt_fields(self.spec_fs()))
    }

    pub open spec fn spec_descs() -> Seq<FieldDesc> {
        seq![
            FieldDesc { tag: 0x19, len: LengthSpec::Unprefixed, width: 1, repeatable: false, required: false },
            FieldDesc { tag: 0xfc, len: LengthSpec::Unprefixed, width: 1, repeatable: false, required: false },
            FieldDesc { tag: 0x6, len: LengthSpec::Tlv, width: 0, repeatable: false, required: false },
        ]
    }

    fn descs() -> (r: Vec<FieldDesc>)
        ensures r@ == Self::spec_descs(),
    {
        let mut v: Vec<FieldDesc> = Vec::new();
        v.push(FieldDesc { tag: 0x19, len: LengthSpec::Unprefixed, width: 1, repeatable: false, required: false });
        v.push(FieldDesc { tag: 0xfc, len: LengthSpec::Unprefixed, width: 1, repeatable: false, required: false });
        v.push(FieldDesc { tag: 0x6, len: LengthSpec::Tlv, width: 0, repeatable: false, required: false });
        proof { assert(v@ =~= Self::spec_descs()); }
        v
    }

    proof fn lemma_meta(self)
        ensures
            fields::find_desc(Self::spec_descs(), 0x19) == Some(Self::spec_descs()[0]),
            encoding::tag_wf(0x19),
            fields::fs_lookup(self.spec_fs(), 0x19) == crate::packets::tlv::opt_u8_region(self.card_type),
            fields::find_desc(Self::spec_descs(), 0xfc) == Some(Self::spec_descs()[1]),
            encoding::tag_wf(0xfc),
            fields::fs_lookup(self.spec_fs(), 0xfc) == crate::packets::tlv::opt_u8_region(self.dialog_control),
            fields::find_desc(Self::spec_descs(), 0x6) == Some(Self::spec_descs()[2]),
            encoding::tag_wf(0x6),
            fields::fs_lookup(self.spec_fs(), 0x6) == (match self.tlv { Some(ref k) => Some(k.body_bytes()), None => None }),
    {
        let ds = Self::spec_descs();
        let fs = self.spec_fs();
        let ds0 = ds; let fs0 = fs;
        let ds1 = ds0.drop_first(); let fs1 = fs0.drop_first();
        let ds2 = ds1.drop_first(); let fs2 = fs1.drop_first();
        let ds3 = ds2.drop_first(); let fs3 = fs2.drop_first();
        assert(ds0[0] == ds[0]); assert(fs0[0] == fs[0]);
        assert(ds0.len() == 3); assert(fs0.len() == 3);
        assert(ds1[0] == ds[1]); assert(fs1[0] == fs[1]);
        assert(ds1.len() == 2); assert(fs1.len() == 2);
        assert(ds2[0] == ds[2]); assert(fs2[0] == fs[2]);
        assert(ds2.len() == 1); assert(fs2.len() == 1);
        assert(ds3 =~= Seq::<FieldDesc>::empty()); assert(fs3 =~= Seq::<(u16, LengthSpec, Option<Seq<u8>>)>::empty());
        fields::lemma_low5(0x1f);
        fields::lemma_low5(0x19);
        fields::lemma_low5(0xfc);
        fields::lemma_low5(0x6);
        assert(fields::find_desc(ds0, 0x19) == Some(ds[0]));
        assert(fields::find_desc(ds1, 0xfc) == Some(ds[1]));
        assert(fields::find_desc(ds0, 0xfc) == fields::find_desc(ds1, 0xfc));
        assert(fields::find_desc(ds2, 0x6) == Some(ds[2]));
        assert(fields::find_desc(ds1, 0x6) == fields::find_desc(ds2, 0x6));
        assert(fields::find_desc(ds0, 0x6) == fields::find_desc(ds1, 0x6));
        assert(fields::fs_lookup(fs3, 0x19) == None::<Seq<u8>>);
        assert(fields::fs_lookup(fs2, 0x19) == None::<Seq<u8>>);
        assert(fields::fs_lookup(fs1, 0x19) == None::<Seq<u8>>);
        assert(fields::fs_lookup(fs0, 0x19) == crate::packets::tlv::opt_u8_region(self.card_type));
        assert(fields::fs_lookup(fs3, 0xfc) == None::<Seq<u8>>);
        assert(fields::fs_lookup(fs2, 0xfc) == None::<Seq<u8>>);
        assert(fields::fs_lookup(fs1, 0xfc) == crate::packets::tlv::opt_u8_region(self.dialog_control));
        assert(fields::fs_lookup(fs0, 0xfc) == fields::fs_lookup(fs1, 0xfc));
        assert(fields::fs_lookup(fs3, 0x6) == None::<Seq<u8>>);
        assert(fields::fs_lookup(fs2, 0x6) == (match self.tlv { Some(ref k) => Some(k.body_bytes()), None => None }));
        assert(fields::fs_lookup(fs1, 0x6) == fields::fs_lookup(fs2, 0x6));
        assert(fields::fs_lookup(fs0, 0x6) == fields::fs_lookup(fs1, 0x6));
    }

    pub proof fn lemma_body_parses(self, s: Seq<u8>)
        requires self.wf(), s == self.body_bytes(), s.len() <= usize::MAX,
        ensures
            fields::spec_parse_fields(s, self.pos_len(), Self::spec_descs(), seq![], seq![]) == Ok::<_, ErrorView>((fields::cat_opt_entries(self.spec_fs()), s.len() as int)),
            self.pos_len() + fields::cat_opt_fields(self.spec_fs()).len() == s.len(),
    {
        let ds = Self::spec_descs();
        let fs = self.spec_fs();
        self.lemma_meta();
        let p0 = self.pos_len();
        let cat = fields::cat_opt_fields(fs);
        assert(s.subrange(0, s.len() as int) =~= s);
        fields::lemma_peel(s, 0, seq![self.timeout_sec], cat);
        assert(p0 == 0 + (seq![self.timeout_sec]).len() as int);
        assert(s.subrange(p0, s.len() as int) =~= cat);
        assert(s.subrange(p0, p0 + cat.len() as int) =~= cat);
        assert(fields::fs_ok(fs, ds, seq![])) by {
            assert forall|j: int| 0 <= j < fs.len() && (#[trigger] fs[j]).2 is Some implies {
                &&& encoding::tag_wf(fs[j].0)
                &&& fields::find_desc(ds, fs[j].0) matches Some(d) && d.len == fs[j].1 && fields::region_wf(d.len, d.width as int, fs[j].2.unwrap().len() as int) && (d.repeatable || (!seq![].contains(fs[j].0) && forall|i: int| 0 <= i < j ==> (#[trigger] fs[i]).0 != fs[j].0))
            } by {
                if j == 0 { assert(fs[0].0 == 0x19); }
                if j == 1 { assert(fs[1].0 == 0xfc); }
                if j == 2 { assert(fs[2].0 == 0x6); }
            };
        };
        fields::lemma_parse_cat(s, p0, ds, seq![], seq![], fs);
        fields::lemma_parse_fields_stop(s, s.len() as int, ds, seq![] + fields::present_tags(fs), seq![] + fields::cat_opt_entries(fs));
        let seen = seq![] + fields::present_tags(fs);
        assert(seen =~= fields::present_tags(fs));
        assert forall|kk: int| 0 <= kk < ds.len() implies !(#[trigger] ds[kk]).required || seen.contains(ds[kk].tag) by {
            if kk == 0 { assert(!ds[0].required); }
            if kk == 1 { assert(!ds[1].required); }
            if kk == 2 { assert(!ds[2].required); }
        };
        fields::lemma_finish_ok(ds, seen, seq![] + fields::cat_opt_entries(fs), s.len() as int);
        assert(seq![] + fields::cat_opt_entries(fs) =~= fields::cat_opt_entries(fs));
    }

    pub open spec fn pos_len(self) -> int {
        (seq![self.timeout_sec]).len() as int
    }

    pub fn encode_body(&self) -> (r: Vec<u8>)
        requires self.wf(),
        ensures r@ == self.body_bytes(),
    {
        let ghost gfs = self.spec_fs();
        let mut out: Vec<u8> = Vec::new();
        out.push(self.timeout_sec);
        match self.card_type { Some(k) => { let region = encoding::enc_u8(k); fields::ser_field(&mut out, Some(Tag(0x19)), LengthSpec::Unprefixed, &region); }, None => {} }
        proof { assert(out@ =~= seq![self.timeout_sec] + fields::opt_field_bytes(gfs[0].0, gfs[0].1, gfs[0].2)); }
        match self.dialog_control { Some(k) => { let region = encoding::enc_u8(k); fields::ser_field(&mut out, Some(Tag(0xfc)), LengthSpec::Unprefixed, &region); }, None => {} }
        proof { assert(out@ =~= seq![self.timeout_sec] + fields::opt_field_bytes(gfs[0].0, gfs[0].1, gfs[0].2) + fields::opt_field_bytes(gfs[1].0, gfs[1].1, gfs[1].2)); }
        match self.tlv { Some(ref k) => { let region = k.encode_body(); fields::ser_field(&mut out, Some(Tag(0x6)), LengthSpec::Tlv, &region); }, None => {} }
        proof { assert(out@ =~= seq![self.timeout_sec] + fields::opt_field_bytes(gfs[0].0, gfs[0].1, gfs[0].2) + fields::opt_field_bytes(gfs[1].0, gfs[1].1, gfs[1].2) + fields::opt_field_bytes(gfs[2].0, gfs[2].1, gfs[2].2)); }
        proof {
            self.lemma_meta();
            let fs = self.spec_fs();
        let fs0 = fs;
        let fs1 = fs0.drop_first();
        let fs2 = fs1.drop_first();
        let fs3 = fs2.drop_first();
        assert(fields::cat_opt_fields(fs0) == fields::opt_field_bytes(fs0[0].0, fs0[0].1, fs0[0].2) + fields::cat_opt_fields(fs1)); assert(fs0[0] == fs[0]);
        assert(fields::cat_opt_fields(fs1) == fields::opt_field_bytes(fs1[0].0, fs1[0].1, fs1[0].2) + fields::cat_opt_fields(fs2)); assert(fs1[0] == fs[1]);
        assert(fields::cat_opt_fields(fs2) == fields::opt_field_bytes(fs2[0].0, fs2[0].1, fs2[0].2) + fields::cat_opt_fields(fs3)); assert(fs2[0] == fs[2]);
        assert(fields::cat_opt_fields(fs3) =~= Seq::<u8>::empty());
            assert(out@ =~= self.body_bytes());
        }
        out
    }

    pub fn decode_body(bytes: &[u8]) -> (r: ZVTResult<(Self, usize)>)
        ensures
            r matches Ok(v) ==> v.1 <= bytes@.len(),
            forall|v: Self|
                v.wf() && (true) && bytes@ == #[trigger] v.body_bytes() ==> (r matches Ok(o) && o.0 == v
                    && o.1 == bytes@.len()),
    {
        let blen_e = bytes.len();
        proof { assert(bytes@.len() <= usize::MAX); }
        proof {
            assert forall|v: Self| v.wf() && (true) && bytes@ == #[trigger] v.body_bytes() implies ReadCard::master_facts(v, bytes@) by { ReadCard::lemma_master(v, bytes@); };
        }
        let mut p: usize = 0;
        let f_timeout_sec = match fields::de_u8_tagged(bytes, p, None, LengthSpec::Unprefixed, NumEncoding::LittleEndian) { Ok((x, q)) => { p = q; x }, Err(e) => { return Err(e); } };
        let descs = Self::descs();
        let parsed = fields::parse_tagged_fields(bytes, p, &descs);
        let (entries, pos_end) = match parsed { Ok(v) => v, Err(e) => { return Err(e); } };
        let f_card_type = match fields::entry_opt_u8(&entries, 0x19) { Ok(v) => v, Err(e) => { return Err(e); } };
        let f_dialog_control = match fields::entry_opt_u8(&entries, 0xfc) { Ok(v) => v, Err(e) => { return Err(e); } };
        let f_tlv = match fields::find_payload(&entries, 0x6) { None => None, Some(pl) => match tlv::ReadCard::decode_body(pl.as_slice()) { Ok(v) => Some(v.0), Err(e) => { return Err(e); } } };
        let result = Self {
            timeout_sec: f_timeout_sec,
            card_type: f_card_type,
            dialog_control: f_dialog_control,
            tlv: f_tlv,
        };
        proof {
            assert forall|v: Self| v.wf() && (true) && bytes@ == #[trigger] v.body_bytes() implies result == v by {
                ReadCard::lemma_master(v, bytes@);
                match v.tlv { Some(ref kk) => { assert(kk.wf()); }, None => {} }
            };
        }
        Ok((result, pos_end))
    }

    pub open spec fn master_facts(v: Self, s: Seq<u8>) -> bool {
        &&& fields::spec_de_u8_tagged(s, (0) as int, None, LengthSpec::Unprefixed, NumEncoding::LittleEndian) == Ok::<_, ZVTError>((v.timeout_sec, (0 + 1) as usize))
        &&& fields::spec_parse_fields(s, v.pos_len(), Self::spec_descs(), seq![], seq![]) == Ok::<_, ErrorView>((fields::cat_opt_entries(v.spec_fs()), s.len() as int))
        &&& fields::find_entry(fields::cat_opt_entries(v.spec_fs()), 0x19) == crate::packets::tlv::opt_u8_region(v.card_type)
        &&& fields::find_entry(fields::cat_opt_entries(v.spec_fs()), 0xfc) == crate::packets::tlv::opt_u8_region(v.dialog_control)
        &&& fields::find_entry(fields::cat_opt_entries(v.spec_fs()), 0x6) == (match v.tlv { Some(ref k) => Some(k.body_bytes()), None => None })
    }

    pub proof fn lemma_master(v: Self, s: Seq<u8>)
        requires v.wf(), (true), s == v.body_bytes(), s.len() <= usize::MAX,
        ensures Self::master_facts(v, s),
    {
        v.lemma_meta();
        v.lemma_body_parses(s);
        let fs = v.spec_fs();
        let g0 = fs;
        let g1 = g0.drop_first();
        let g2 = g1.drop_first();
        let g3 = g2.drop_first();
        assert(fields::cat_opt_fields(g0) == fields::opt_field_bytes(g0[0].0, g0[0].1, g0[0].2) + fields::cat_opt_fields(g1)); assert(g0[0] == fs[0]);
        assert(fields::cat_opt_fields(g1) == fields::opt_field_bytes(g1[0].0, g1[0].1, g1[0].2) + fields::cat_opt_fields(g2)); assert(g1[0] == fs[1]);
        assert(fields::cat_opt_fields(g2) == fields::opt_field_bytes(g2[0].0, g2[0].1, g2[0].2) + fields::cat_opt_fields(g3)); assert(g2[0] == fs[2]);
        assert(fields::cat_opt_fields(g3) =~= Seq::<u8>::empty());
        fields::lemma_find_entry_fs(fs, 0x19);
        fields::lemma_find_entry_fs(fs, 0xfc);
        fields::lemma_find_entry_fs(fs, 0x6);
        let cat = fields::cat_opt_fields(fs);
        assert(s.subrange(0, s.len() as int) =~= s);
        fields::lemma_peel(s, 0, seq![v.timeout_sec], cat);
        assert(s[(0) as int] == v.timeout_sec) by { assert(s.subrange((0) as int, (0 + 1) as int)[0] == (seq![v.timeout_sec])[0]); };
    }
    pub fn zvt_serialize(&self) -> (r: Vec<u8>)
        requires self.wf(), self.body_bytes().len() <= 0xffff,
        ensures r@ == crate::packets::frame_bytes(6, 192, self.body_bytes()),
    {
        let body = self.encode_body();
        crate::packets::ser_frame(6, 192, body)
    }

    pub fn zvt_deserialize(bytes: &[u8]) -> (r: ZVTResult<(Self, usize)>)
        ensures
            r matches Ok(v) ==> v.1 <= bytes@.len(),
            forall|v: Self, rest: Seq<u8>|
                v.wf() && (true) && v.body_bytes().len() <= 0xffff && bytes@ == #[trigger] (crate::packets::frame_bytes(6, 192, v.body_bytes()) + rest) ==> (r matches Ok(o) && o.0 == v && o.1 == bytes@.len() - rest.len()),
    {
        let blen_e = bytes.len();
        proof { assert(bytes@.len() <= usize::MAX); }
        let (ps, pe) = match crate::packets::de_frame(bytes, 6, 192) {
            Ok(v) => v,
            Err(e) => {
                proof {
                    assert forall|v: Self, rest: Seq<u8>| v.wf() && (true) && v.body_bytes().len() <= 0xffff && bytes@ == #[trigger] (crate::packets::frame_bytes(6, 192, v.body_bytes()) + rest) implies false by { crate::packets::lemma_de_frame(bytes@, 6, 192, v.body_bytes(), rest); };
                }
                return Err(e);
            },
        };
        let payload = encoding::copy_range(bytes, ps, pe);
        proof {
            assert forall|v: Self, rest: Seq<u8>| v.wf() && (true) && v.body_bytes().len() <= 0xffff && bytes@ == #[trigger] (crate::packets::frame_bytes(6, 192, v.body_bytes()) + rest) implies (payload@ == v.body_bytes() && pe - ps == v.body_bytes().len() && pe == bytes@.len() - rest.len()) by { crate::packets::lemma_de_frame(bytes@, 6, 192, v.body_bytes(), rest); };
        }
        match Self::decode_body(payload.as_slice()) {
            Ok((p, consumed)) => Ok((p, ps + consumed)),
            Err(e) => Err(e),
        }
    }
}

/// A status line while a dialog is in progress.
#[derive(Debug, PartialEq)]
pub struct IntermediateStatusInformation {
    pub status: u8,
    pub timeout: Option<u8>,
}

impl IntermediateStatusInformation {
    pub open spec fn wf(self) -> bool {
        &&& (match self.timeout { Some(k) => k < 100, None => true })
    }

    pub open spec fn spec_fs(self) -> Seq<(u16, LengthSpec, Option<Seq<u8>>)> {
        seq![
        ]
    }

    pub open spec fn body_bytes(self) -> Seq<u8> {
        seq![self.status] + ((match self.timeout { Some(k) => encoding::bcd_bytes(k as nat), None => seq![] }) + (fields::cat_opt_fields(self.spec_fs())))
    }

    pub open spec fn spec_descs() -> Seq<FieldDesc> {
        seq![
        ]
    }

    fn descs() -> (r: Vec<FieldDesc>)
        ensures r@ == Self::spec_descs(),
    {
        let mut v: Vec<FieldDesc> = Vec::new();
        proof { assert(v@ =~= Self::spec_descs()); }
        v
    }

    proof fn lemma_meta(self)
        ensures
    {
        let ds = Self::spec_descs();
        let fs = self.spec_fs();
        let ds0 = ds; let fs0 = fs;
        assert(ds0 =~= Seq::<FieldDesc>::empty()); assert(fs0 =~= Seq::<(u16, LengthSpec, Option<Seq<u8>>)>::empty());
        fields::lemma_low5(0x1f);
    }

    pub proof fn lemma_body_parses(self, s: Seq<u8>)
        requires self.wf(), s == self.body_bytes(), s.len() <= usize::MAX,
        ensures
            fields::spec_parse_fields(s, self.pos_len(), Self::spec_descs(), seq![], seq![]) == Ok::<_, ErrorView>((fields::cat_opt_entries(self.spec_fs()), s.len() as int)),
            self.pos_len() + fields::cat_opt_fields(self.spec_fs()).len() == s.len(),
    {
        let ds = Self::spec_descs();
        let fs = self.spec_fs();
        self.lemma_meta();
        let p0 = self.pos_len();
        let cat = fields::cat_opt_fields(fs);
        assert(s.subrange(0, s.len() as int) =~= s);
        fields::lemma_peel(s, 0, seq![self.status], (match self.timeout { Some(k) => encoding::bcd_bytes(k as nat), None => seq![] }) + (cat));
        fields::lemma_peel(s, 0 + (seq![self.status]).len() as int, (match self.timeout { Some(k) => encoding::bcd_bytes(k as nat), None => seq![] }), cat);
        assert(p0 == 0 + (seq![self.status]).len() as int + ((match self.timeout { Some(k) => encoding::bcd_bytes(k as nat), None => seq![] })).len() as int);
        assert(s.subrange(p0, s.len() as int) =~= cat);
        assert(s.subrange(p0, p0 + cat.len() as int) =~= cat);
        assert(fields::fs_ok(fs, ds, seq![])) by {
            assert forall|j: int| 0 <= j < fs.len() && (#[trigger] fs[j]).2 is Some implies {
                &&& encoding::tag_wf(fs[j].0)
                &&& fields::find_desc(ds, fs[j].0) matches Some(d) && d.len == fs[j].1 && fields::region_wf(d.len, d.width as int, fs[j].2.unwrap().len() as int) && (d.repeatable || (!seq![].contains(fs[j].0) && forall|i: int| 0 <= i < j ==> (#[trigger] fs[i]).0 != fs[j].0))
            } by {
            };
        };
        fields::lemma_parse_cat(s, p0, ds, seq![], seq![], fs);
        fields::lemma_parse_fields_stop(s, s.len() as int, ds, seq![] + fields::present_tags(fs), seq![] + fields::cat_opt_entries(fs));
        let seen = seq![] + fields::present_tags(fs);
        assert(seen =~= fields::present_tags(fs));
        assert forall|kk: int| 0 <= kk < ds.len() implies !(#[trigger] ds[kk]).required || seen.contains(ds[kk].tag) by {
        };
        fields::lemma_finish_ok(ds, seen, seq![] + fields::cat_opt_entries(fs), s.len() as int);
        assert(seq![] + fields::cat_opt_entries(fs) =~= fields::cat_opt_entries(fs));
    }

    pub open spec fn pos_len(self) -> int {
        (seq![self.status]).len() as int + ((match self.timeout { Some(k) => encoding::bcd_bytes(k as nat), None => seq![] })).len() as int
    }

    pub fn encode_body(&self) -> (r: Vec<u8>)
        requires self.wf(),
        ensures r@ == self.body_bytes(),
    {
        let ghost gfs = self.spec_fs();
        let mut out: Vec<u8> = Vec::new();
        out.push(self.status);
        match self.timeout { Some(k) => { let mut region = encoding::enc_bcd(k as usize); out.append(&mut region); }, None => {} }
        proof {
            self.lemma_meta();
            let fs = self.spec_fs();
        let fs0 = fs;
        assert(fields::cat_opt_fields(fs0) =~= Seq::<u8>::empty());
            assert(out@ =~= self.body_bytes());
        }
        out
    }

    pub fn decode_body(bytes: &[u8]) -> (r: ZVTResult<(Self, usize)>)
        ensures
            r matches Ok(v) ==> v.1 <= bytes@.len(),
            forall|v: Self|
                v.wf() && (v.timeout is Some) && bytes@ == #[trigger] v.body_bytes() ==> (r matches Ok(o) && o.0 == v
                    && o.1 == bytes@.len()),
    {
        let blen_e = bytes.len();
        proof { assert(bytes@.len() <= usize::MAX); }
        proof {
            assert forall|v: Self| v.wf() && (v.timeout is Some) && bytes@ == #[trigger] v.body_bytes() implies IntermediateStatusInformation::master_facts(v, bytes@) by { IntermediateStatusInformation::lemma_master(v, bytes@); };
        }
        let mut p: usize = 0;
        let f_status = match fields::de_u8_tagged(bytes, p, None, LengthSpec::Unprefixed, NumEncoding::LittleEndian) { Ok((x, q)) => { p = q; x }, Err(e) => { return Err(e); } };
        let f_timeout = match fields::de_u8_tagged(bytes, p, None, LengthSpec::Unprefixed, NumEncoding::Bcd) { Ok((x, q)) => { p = q; Some(x) }, Err(_) => None };
        let descs = Self::descs();
        let parsed = fields::parse_tagged_fields(bytes, p, &descs);
        let (entries, pos_end) = match parsed { Ok(v) => v, Err(e) => { return Err(e); } };
        let result = Self {
            status: f_status,
            timeout: f_timeout,
        };
        proof {
            assert forall|v: Self| v.wf() && (v.timeout is Some) && bytes@ == #[trigger] v.body_bytes() implies result == v by {
                IntermediateStatusInformation::lemma_master(v, bytes@);
                match v.timeout { Some(kk) => { encoding::lemma_bcd_roundtrip(kk as nat); vstd::arithmetic::div_mod::lemma_small_mod(kk as nat, 0x100); }, None => {} }
            };
        }
        Ok((result, pos_end))
    }

    pub open spec fn master_facts(v: Self, s: Seq<u8>) -> bool {
        &&& fields::spec_de_u8_tagged(s, (0) as int, None, LengthSpec::Unprefixed, NumEncoding::LittleEndian) == Ok::<_, ZVTError>((v.status, (0 + 1) as usize))
        &&& (v.timeout is Some ==> fields::spec_de_u8_tagged(s, (0 + seq![v.status].len()) as int, None, LengthSpec::Unprefixed, NumEncoding::Bcd) == Ok::<_, ZVTError>((v.timeout.unwrap(), s.len() as usize)))
        &&& fields::spec_parse_fields(s, v.pos_len(), Self::spec_descs(), seq![], seq![]) == Ok::<_, ErrorView>((fields::cat_opt_entries(v.spec_fs()), s.len() as int))
    }

    pub proof fn lemma_master(v: Self, s: Seq<u8>)
        requires v.wf(), (v.timeout is Some), s == v.body_bytes(), s.len() <= usize::MAX,
        ensures Self::master_facts(v, s),
    {
        v.lemma_meta();
        v.lemma_body_parses(s);
        let fs = v.spec_fs();
        let g0 = fs;
        assert(fields::cat_opt_fields(g0) =~= Seq::<u8>::empty());
        let cat = fields::cat_opt_fields(fs);
        assert(s.subrange(0, s.len() as int) =~= s);
        fields::lemma_peel(s, 0, seq![v.status], (match v.timeout { Some(k) => encoding::bcd_bytes(k as nat), None => seq![] }) + (cat));
        assert(s[(0) as int] == v.status) by { assert(s.subrange((0) as int, (0 + 1) as int)[0] == (seq![v.status])[0]); };
        fields::lemma_peel(s, 0 + (seq![v.status]).len() as int, (match v.timeout { Some(k) => encoding::bcd_bytes(k as nat), None => seq![] }), cat);
        match v.timeout { Some(kk) => { encoding::lemma_bcd_roundtrip(kk as nat); vstd::arithmetic::div_mod::lemma_small_mod(kk as nat, 0x100); assert(s.subrange((0 + (seq![v.status]).len() as int) as int, s.len() as int) =~= (match v.timeout { Some(k) => encoding::bcd_bytes(k as nat), None => seq![] })); }, None => {} }
    }
    pub fn zvt_serialize(&self) -> (r: Vec<u8>)
        requires self.wf(), self.body_bytes().len() <= 0xffff,
        ensures r@ == crate::packets::frame_bytes(4, 255, self.body_bytes()),
    {
        let body = self.encode_body();
        crate::packets::ser_frame(4, 255, body)
    }

    pub fn zvt_deserialize(bytes: &[u8]) -> (r: ZVTResult<(Self, usize)>)
        ensures
            r matches Ok(v) ==> v.1 <= bytes@.len(),
            forall|v: Self, rest: Seq<u8>|
                v.wf() && (v.timeout is Some) && v.body_bytes().len() <= 0xffff && bytes@ == #[trigger] (crate::packets::frame_bytes(4, 255, v.body_bytes()) + rest) ==> (r matches Ok(o) && o.0 == v && o.1 == bytes@.len() - rest.len()),
    {
        let blen_e = bytes.len();
        proof { assert(bytes@.len() <= usize::MAX); }
        let (ps, pe) = match crate::packets::de_frame(bytes, 4, 255) {
            Ok(v) => v,
            Err(e) => {
                proof {
                    assert forall|v: Self, rest: Seq<u8>| v.wf() && (v.timeout is Some) && v.body_bytes().len() <= 0xffff && bytes@ == #[trigger] (crate::packets::frame_bytes(4, 255, v.body_bytes()) + rest) implies false by { crate::packets::lemma_de_frame(bytes@, 4, 255, v.body_bytes(), rest); };
                }
                return Err(e);
            },
        };
        let payload = encoding::copy_range(bytes, ps, pe);
        proof {
            assert forall|v: Self, rest: Seq<u8>| v.wf() && (v.timeout is Some) && v.body_bytes().len() <= 0xffff && bytes@ == #[trigger] (crate::packets::frame_bytes(4, 255, v.body_bytes()) + rest) implies (payload@ == v.body_bytes() && pe - ps == v.body_bytes().len() && pe == bytes@.len() - rest.len()) by { crate::packets::lemma_de_frame(bytes@, 4, 255, v.body_bytes(), rest); };
        }
        match Self::decode_body(payload.as_slice()) {
            Ok((p, consumed)) => Ok((p, ps + consumed)),
            Err(e) => Err(e),
        }
    }
}

/// One line for the ECR's receipt printer.
#[derive(Debug, PartialEq)]
pub struct PrintLine {
    pub attribute: u8,
    pub text: String,
}

impl PrintLine {
    pub open spec fn wf(self) -> bool {
        true
    }

    pub open spec fn spec_fs(self) -> Seq<(u16, LengthSpec, Option<Seq<u8>>)> {
        seq![
        ]
    }

    pub open spec fn body_bytes(self) -> Seq<u8> {
        seq![self.attribute] + (vstd::utf8::encode_utf8(self.text@) + (fields::cat_opt_fields(self.spec_fs())))
    }

    pub open spec fn spec_descs() -> Seq<FieldDesc> {
        seq![
        ]
    }

    fn descs() -> (r: Vec<FieldDesc>)
        ensures r@ == Self::spec_descs(),
    {
        let mut v: Vec<FieldDesc> = Vec::new();
        proof { assert(v@ =~= Self::spec_descs()); }
        v
    }

    proof fn lemma_meta(self)
        ensures
    {
        let ds = Self::spec_descs();
        let fs = self.spec_fs();
        let ds0 = ds; let fs0 = fs;
        assert(ds0 =~= Seq::<FieldDesc>::empty()); assert(fs0 =~= Seq::<(u16, LengthSpec, Option<Seq<u8>>)>::empty());
        fields::lemma_low5(0x1f);
    }

    pub proof fn lemma_body_parses(self, s: Seq<u8>)
        requires self.wf(), s == self.body_bytes(), s.len() <= usize::MAX,
        ensures
            fields::spec_parse_fields(s, self.pos_len(), Self::spec_descs(), seq![], seq![]) == Ok::<_, ErrorView>((fields::cat_opt_entries(self.spec_fs()), s.len() as int)),
            self.pos_len() + fields::cat_opt_fields(self.spec_fs()).len() == s.len(),
    {
        let ds = Self::spec_descs();
        let fs = self.spec_fs();
        self.lemma_meta();
        let p0 = self.pos_len();
        let cat = fields::cat_opt_fields(fs);
        assert(s.subrange(0, s.len() as int) =~= s);
        fields::lemma_peel(s, 0, seq![self.attribute], vstd::utf8::encode_utf8(self.text@) + (cat));
        fields::lemma_peel(s, 0 + (seq![self.attribute]).len() as int, vstd::utf8::encode_utf8(self.text@), cat);
        assert(p0 == 0 + (seq![self.attribute]).len() as int + (vstd::utf8::encode_utf8(self.text@)).len() as int);
        assert(s.subrange(p0, s.len() as int) =~= cat);
        assert(s.subrange(p0, p0 + cat.len() as int) =~= cat);
        assert(fields::fs_ok(fs, ds, seq![])) by {
            assert forall|j: int| 0 <= j < fs.len() && (#[trigger] fs[j]).2 is Some implies {
                &&& encoding::tag_wf(fs[j].0)
                &&& fields::find_desc(ds, fs[j].0) matches Some(d) && d.len == fs[j].1 && fields::region_wf(d.len, d.width as int, fs[j].2.unwrap().len() as int) && (d.repeatable || (!seq![].contains(fs[j].0) && forall|i: int| 0 <= i < j ==> (#[trigger] fs[i]).0 != fs[j].0))
            } by {
            };
        };
        fields::lemma_parse_cat(s, p0, ds, seq![], seq![], fs);
        fields::lemma_parse_fields_stop(s, s.len() as int, ds, seq![] + fields::present_tags(fs), seq![] + fields::cat_opt_entries(fs));
        let seen = seq![] + fields::present_tags(fs);
        assert(seen =~= fields::present_tags(fs));
        assert forall|kk: int| 0 <= kk < ds.len() implies !(#[trigger] ds[kk]).required || seen.contains(ds[kk].tag) by {
        };
        fields::lemma_finish_ok(ds, seen, seq![] + fields::cat_opt_entries(fs), s.len() as int);
        assert(seq![] + fields::cat_opt_entries(fs) =~= fields::cat_opt_entries(fs));
    }

    pub open spec fn pos_len(self) -> int {
        (seq![self.attribute]).len() as int + (vstd::utf8::encode_utf8(self.text@)).len() as int
    }

    pub open spec fn eqv(a: Self, b: Self) -> bool {
        &&& a.attribute == b.attribute
        &&& a.text@ == b.text@
    }

    pub fn encode_body(&self) -> (r: Vec<u8>)
        requires self.wf(),
        ensures r@ == self.body_bytes(),
    {
        let ghost gfs = self.spec_fs();
        let mut out: Vec<u8> = Vec::new();
        out.push(self.attribute);
        { let mut region = encoding::str_bytes(self.text.as_str()); out.append(&mut region); }
        proof {
            self.lemma_meta();
            let fs = self.spec_fs();
        let fs0 = fs;
        assert(fields::cat_opt_fields(fs0) =~= Seq::<u8>::empty());
            assert(out@ =~= self.body_bytes());
        }
        out
    }

    pub fn decode_body(bytes: &[u8]) -> (r: ZVTResult<(Self, usize)>)
        ensures
            r matches Ok(v) ==> v.1 <= bytes@.len(),
            forall|v: Self|
                v.wf() && (true) && bytes@ == #[trigger] v.body_bytes() ==> (r matches Ok(o) && PrintLine::eqv(o.0, v)
                    && o.1 == bytes@.len()),
    {
        let blen_e = bytes.len();
        proof { assert(bytes@.len() <= usize::MAX); }
        proof {
            assert forall|v: Self| v.wf() && (true) && bytes@ == #[trigger] v.body_bytes() implies PrintLine::master_facts(v, bytes@) by { PrintLine::lemma_master(v, bytes@); };
        }
        let mut p: usize = 0;
        let f_attribute = match fields::de_u8_tagged(bytes, p, None, LengthSpec::Unprefixed, NumEncoding::LittleEndian) { Ok((x, q)) => { p = q; x }, Err(e) => { return Err(e); } };
        let f_text = match fields::de_string_field(bytes, p, LengthSpec::Unprefixed, false) { Ok((x, q)) => { p = q; x }, Err(e) => { return Err(e); } };
        let descs = Self::descs();
        let parsed = fields::parse_tagged_fields(bytes, p, &descs);
        let (entries, pos_end) = match parsed { Ok(v) => v, Err(e) => { return Err(e); } };
        let result = Self {
            attribute: f_attribute,
            text: f_text,
        };
        proof {
            assert forall|v: Self| v.wf() && (true) && bytes@ == #[trigger] v.body_bytes() implies PrintLine::eqv(result, v) by {
                PrintLine::lemma_master(v, bytes@);
                { vstd::utf8::encode_utf8_valid_utf8(v.text@); vstd::utf8::encode_utf8_decode_utf8(v.text@); }
            };
        }
        Ok((result, pos_end))
    }

    pub open spec fn master_facts(v: Self, s: Seq<u8>) -> bool {
        &&& fields::spec_de_u8_tagged(s, (0) as int, None, LengthSpec::Unprefixed, NumEncoding::LittleEndian) == Ok::<_, ZVTError>((v.attribute, (0 + 1) as usize))
        &&& fields::spec_de_string(s, (0 + seq![v.attribute].len()) as int, LengthSpec::Unprefixed, false) matches Ok(ss) && ss.0 == v.text@ && ss.1 == s.len()
        &&& fields::spec_parse_fields(s, v.pos_len(), Self::spec_descs(), seq![], seq![]) == Ok::<_, ErrorView>((fields::cat_opt_entries(v.spec_fs()), s.len() as int))
    }

    pub proof fn lemma_master(v: Self, s: Seq<u8>)
        requires v.wf(), (true), s == v.body_bytes(), s.len() <= usize::MAX,
        ensures Self::master_facts(v, s),
    {
        v.lemma_meta();
        v.lemma_body_parses(s);
        let fs = v.spec_fs();
        let g0 = fs;
        assert(fields::cat_opt_fields(g0) =~= Seq::<u8>::empty());
        let cat = fields::cat_opt_fields(fs);
        assert(s.subrange(0, s.len() as int) =~= s);
        fields::lemma_peel(s, 0, seq![v.attribute], vstd::utf8::encode_utf8(v.text@) + (cat));
        assert(s[(0) as int] == v.attribute) by { assert(s.subrange((0) as int, (0 + 1) as int)[0] == (seq![v.attribute])[0]); };
        fields::lemma_peel(s, 0 + (seq![v.attribute]).len() as int, vstd::utf8::encode_utf8(v.text@), cat);
        { vstd::utf8::encode_utf8_valid_utf8(v.text@); vstd::utf8::encode_utf8_decode_utf8(v.text@); assert(s.subrange((0 + (seq![v.attribute]).len() as int) as int, s.len() as int) =~= vstd::utf8::encode_utf8(v.text@)); }
    }
    pub fn zvt_serialize(&self) -> (r: Vec<u8>)
        requires self.wf(), self.body_bytes().len() <= 0xffff,
        ensures r@ == crate::packets::frame_bytes(6, 209, self.body_bytes()),
    {
        let body = self.encode_body();
        crate::packets::ser_frame(6, 209, body)
    }

    pub fn zvt_deserialize(bytes: &[u8]) -> (r: ZVTResult<(Self, usize)>)
        ensures
            r matches Ok(v) ==> v.1 <= bytes@.len(),
            forall|v: Self, rest: Seq<u8>|
                v.wf() && (true) && v.body_bytes().len() <= 0xffff && bytes@ == #[trigger] (crate::packets::frame_bytes(6, 209, v.body_bytes()) + rest) ==> (r matches Ok(o) && PrintLine::eqv(o.0, v) && o.1 == bytes@.len() - rest.len()),
    {
        let blen_e = bytes.len();
        proof { assert(bytes@.len() <= usize::MAX); }
        let (ps, pe) = match crate::packets::de_frame(bytes, 6, 209) {
            Ok(v) => v,
            Err(e) => {
                proof {
                    assert forall|v: Self, rest: Seq<u8>| v.wf() && (true) && v.body_bytes().len() <= 0xffff && bytes@ == #[trigger] (crate::packets::frame_bytes(6, 209, v.body_bytes()) + rest) implies false by { crate::packets::lemma_de_frame(bytes@, 6, 209, v.body_bytes(), rest); };
                }
                return Err(e);
            },
        };
        let payload = encoding::copy_range(bytes, ps, pe);
        proof {
            assert forall|v: Self, rest: Seq<u8>| v.wf() && (true) && v.body_bytes().len() <= 0xffff && bytes@ == #[trigger] (crate::packets::frame_bytes(6, 209, v.body_bytes()) + rest) implies (payload@ == v.body_bytes() && pe - ps == v.body_bytes().len() && pe == bytes@.len() - rest.len()) by { crate::packets::lemma_de_frame(bytes@, 6, 209, v.body_bytes(), rest); };
        }
        match Self::decode_body(payload.as_slice()) {
            Ok((p, consumed)) => Ok((p, ps + consumed)),
            Err(e) => Err(e),
        }
    }
}

/// Selects the terminal's dialog language.
#[derive(Debug, PartialEq)]
pub struct SelectLanguage {
    pub language: u8,
}

impl SelectLanguage {
    pub open spec fn wf(self) -> bool {
        true
    }

    pub open spec fn spec_fs(self) -> Seq<(u16, LengthSpec, Option<Seq<u8>>)> {
        seq![
        ]
    }

    pub open spec fn body_bytes(self) -> Seq<u8> {
        seq![self.language] + (fields::cat_opt_fields(self.spec_fs()))
    }

    pub open spec fn spec_descs() -> Seq<FieldDesc> {
        seq![
        ]
    }

    fn descs() -> (r: Vec<FieldDesc>)
        ensures r@ == Self::spec_descs(),
    {
        let mut v: Vec<FieldDesc> = Vec::new();
        proof { assert(v@ =~= Self::spec_descs()); }
        v
    }

    proof fn lemma_meta(self)
        ensures
    {
        let ds = Self::spec_descs();
        let fs = self.spec_fs();
        let ds0 = ds; let fs0 = fs;
        assert(ds0 =~= Seq::<FieldDesc>::empty()); assert(fs0 =~= Seq::<(u16, LengthSpec, Option<Seq<u8>>)>::empty());
        fields::lemma_low5(0x1f);
    }

    pub proof fn lemma_body_parses(self, s: Seq<u8>)
        requires self.wf(), s == self.body_bytes(), s.len() <= usize::MAX,
        ensures
            fields::spec_parse_fields(s, self.pos_len(), Self::spec_descs(), seq![], seq![]) == Ok::<_, ErrorView>((fields::cat_opt_entries(self.spec_fs()), s.len() as int)),
            self.pos_len() + fields::cat_opt_fields(self.spec_fs()).len() == s.len(),
    {
        let ds = Self::spec_descs();
        let fs = self.spec_fs();
        self.lemma_meta();
        let p0 = self.pos_len();
        let cat = fields::cat_opt_fields(fs);
        assert(s.subrange(0, s.len() as int) =~= s);
        fields::lemma_peel(s, 0, seq![self.language], cat);
        assert(p0 == 0 + (seq![self.language]).len() as int);
        assert(s.subrange(p0, s.len() as int) =~= cat);
        assert(s.subrange(p0, p0 + cat.len() as int) =~= cat);
        assert(fields::fs_ok(fs, ds, seq![])) by {
            assert forall|j: int| 0 <= j < fs.len() && (#[trigger] fs[j]).2 is Some implies {
                &&& encoding::tag_wf(fs[j].0)
                &&& fields::find_desc(ds, fs[j].0) matches Some(d) && d.len == fs[j].1 && fields::region_wf(d.len, d.width as int, fs[j].2.unwrap().len() as int) && (d.repeatable || (!seq![].contains(fs[j].0) && forall|i: int| 0 <= i < j ==> (#[trigger] fs[i]).0 != fs[j].0))
            } by {
            };
        };
        fields::lemma_parse_cat(s, p0, ds, seq![], seq![], fs);
        fields::lemma_parse_fields_stop(s, s.len() as int, ds, seq![] + fields::present_tags(fs), seq![] + fields::cat_opt_entries(fs));
        let seen = seq![] + fields::present_tags(fs);
        assert(seen =~= fields::present_tags(fs));
        assert forall|kk: int| 0 <= kk < ds.len() implies !(#[trigger] ds[kk]).required || seen.contains(ds[kk].tag) by {
        };
        fields::lemma_finish_ok(ds, seen, seq![] + fields::cat_opt_entries(fs), s.len() as int);
        assert(seq![] + fields::cat_opt_entries(fs) =~= fields::cat_opt_entries(fs));
    }

    pub open spec fn pos_len(self) -> int {
        (seq![self.language]).len() as int
    }

    pub fn encode_body(&self) -> (r: Vec<u8>)
        requires self.wf(),
        ensures r@ == self.body_bytes(),
    {
        let ghost gfs = self.spec_fs();
        let mut out: Vec<u8> = Vec::new();
        out.push(self.language);
        proof {
            self.lemma_meta();
            let fs = self.spec_fs();
        let fs0 = fs;
        assert(fields::cat_opt_fields(fs0) =~= Seq::<u8>::empty());
            assert(out@ =~= self.body_bytes());
        }
        out
    }

    pub fn decode_body(bytes: &[u8]) -> (r: ZVTResult<(Self, usize)>)
        ensures
            r matches Ok(v) ==> v.1 <= bytes@.len(),
            forall|v: Self|
                v.wf() && (true) && bytes@ == #[trigger] v.body_bytes() ==> (r matches Ok(o) && o.0 == v
                    && o.1 == bytes@.len()),
    {
        let blen_e = bytes.len();
        proof { assert(bytes@.len() <= usize::MAX); }
        proof {
            assert forall|v: Self| v.wf() && (true) && bytes@ == #[trigger] v.body_bytes() implies SelectLanguage::master_facts(v, bytes@) by { SelectLanguage::lemma_master(v, bytes@); };
        }
        let mut p: usize = 0;
        let f_language = match fields::de_u8_tagged(bytes, p, None, LengthSpec::Unprefixed, NumEncoding::LittleEndian) { Ok((x, q)) => { p = q; x }, Err(e) => { return Err(e); } };
        let descs = Self::descs();
        let parsed = fields::parse_tagged_fields(bytes, p, &descs);
        let (entries, pos_end) = match parsed { Ok(v) => v, Err(e) => { return Err(e); } };
        let result = Self {
            language: f_language,
        };
        proof {
            assert forall|v: Self| v.wf() && (true) && bytes@ == #[trigger] v.body_bytes() implies result == v by {
                SelectLanguage::lemma_master(v, bytes@);
            };
        }
        Ok((result, pos_end))
    }

    pub open spec fn master_facts(v: Self, s: Seq<u8>) -> bool {
        &&& fields::spec_de_u8_tagged(s, (0) as int, None, LengthSpec::Unprefixed, NumEncoding::LittleEndian) == Ok::<_, ZVTError>((v.language, (0 + 1) as usize))
        &&& fields::spec_parse_fields(s, v.pos_len(), Self::spec_descs(), seq![], seq![]) == Ok::<_, ErrorView>((fields::cat_opt_entries(v.spec_fs()), s.len() as int))
    }

    pub proof fn lemma_master(v: Self, s: Seq<u8>)
        requires v.wf(), (true), s == v.body_bytes(), s.len() <= usize::MAX,
        ensures Self::master_facts(v, s),
    {
        v.lemma_meta();
        v.lemma_body_parses(s);
        let fs = v.spec_fs();
        let g0 = fs;
        assert(fields::cat_opt_fields(g0) =~= Seq::<u8>::empty());
        let cat = fields::cat_opt_fields(fs);
        assert(s.subrange(0, s.len() as int) =~= s);
        fields::lemma_peel(s, 0, seq![v.language], cat);
        assert(s[(0) as int] == v.language) by { assert(s.subrange((0) as int, (0 + 1) as int)[0] == (seq![v.language])[0]); };
    }
    pub fn zvt_serialize(&self) -> (r: Vec<u8>)
        requires self.wf(), self.body_bytes().len() <= 0xffff,
        ensures r@ == crate::packets::frame_bytes(8, 48, self.body_bytes()),
    {
        let body = self.encode_body();
        crate::packets::ser_frame(8, 48, body)
    }

    pub fn zvt_deserialize(bytes: &[u8]) -> (r: ZVTResult<(Self, usize)>)
        ensures
            r matches Ok(v) ==> v.1 <= bytes@.len(),
            forall|v: Self, rest: Seq<u8>|
                v.wf() && (true) && v.body_bytes().len() <= 0xffff && bytes@ == #[trigger] (crate::packets::frame_bytes(8, 48, v.body_bytes()) + rest) ==> (r matches Ok(o) && o.0 == v && o.1 == bytes@.len() - rest.len()),
    {
        let blen_e = bytes.len();
        proof { assert(bytes@.len() <= usize::MAX); }
        let (ps, pe) = match crate::packets::de_frame(bytes, 8, 48) {
            Ok(v) => v,
            Err(e) => {
                proof {
                    assert forall|v: Self, rest: Seq<u8>| v.wf() && (true) && v.body_bytes().len() <= 0xffff && bytes@ == #[trigger] (crate::packets::frame_bytes(8, 48, v.body_bytes()) + rest) implies false by { crate::packets::lemma_de_frame(bytes@, 8, 48, v.body_bytes(), rest); };
                }
                return Err(e);
            },
        };
        let payload = encoding::copy_range(bytes, ps, pe);
        proof {
            assert forall|v: Self, rest: Seq<u8>| v.wf() && (true) && v.body_bytes().len() <= 0xffff && bytes@ == #[trigger] (crate::packets::frame_bytes(8, 48, v.body_bytes()) + rest) implies (payload@ == v.body_bytes() && pe - ps == v.body_bytes().len() && pe == bytes@.len() - rest.len()) by { crate::packets::lemma_de_frame(bytes@, 8, 48, v.body_bytes(), rest); };
        }
        match Self::decode_body(payload.as_slice()) {
            Ok((p, consumed)) => Ok((p, ps + consumed)),
            Err(e) => Err(e),
        }
    }
}

/// Restarts the terminal.
#[derive(Debug, PartialEq)]
pub struct ResetTerminal {
}

impl ResetTerminal {
    pub open spec fn wf(self) -> bool {
        true
    }

    pub open spec fn spec_fs(self) -> Seq<(u16, LengthSpec, Option<Seq<u8>>)> {
        seq![
        ]
    }

    pub open spec fn body_bytes(self) -> Seq<u8> {
        fields::cat_opt_fields(self.spec_fs())
    }

    pub open spec fn spec_descs() -> Seq<FieldDesc> {
        seq![
        ]
    }

    fn descs() -> (r: Vec<FieldDesc>)
        ensures r@ == Self::spec_descs(),
    {
        let mut v: Vec<FieldDesc> = Vec::new();
        proof { assert(v@ =~= Self::spec_descs()); }
        v
    }

    proof fn lemma_meta(self)
        ensures
    {
        let ds = Self::spec_descs();
        let fs = self.spec_fs();
        let ds0 = ds; let fs0 = fs;
        assert(ds0 =~= Seq::<FieldDesc>::empty()); assert(fs0 =~= Seq::<(u16, LengthSpec, Option<Seq<u8>>)>::empty());
        fields::lemma_low5(0x1f);
    }

    pub proof fn lemma_body_parses(self, s: Seq<u8>)
        requires self.wf(), s == self.body_bytes(), s.len() <= usize::MAX,
        ensures
            fields::spec_parse_fields(s, self.pos_len(), Self::spec_descs(), seq![], seq![]) == Ok::<_, ErrorView>((fields::cat_opt_entries(self.spec_fs()), s.len() as int)),
            self.pos_len() + fields::cat_opt_fields(self.spec_fs()).len() == s.len(),
    {
        let ds = Self::spec_descs();
        let fs = self.spec_fs();
        self.lemma_meta();
        let p0 = self.pos_len();
        assert(p0 == 0);
        assert(s.subrange(0, fields::cat_opt_fields(fs).len() as int) =~= fields::cat_opt_fields(fs));
        assert(fields::fs_ok(fs, ds, seq![])) by {
            assert forall|j: int| 0 <= j < fs.len() && (#[trigger] fs[j]).2 is Some implies {
                &&& encoding::tag_wf(fs[j].0)
                &&& fields::find_desc(ds, fs[j].0) matches Some(d) && d.len == fs[j].1 && fields::region_wf(d.len, d.width as int, fs[j].2.unwrap().len() as int) && (d.repeatable || (!seq![].contains(fs[j].0) && forall|i: int| 0 <= i < j ==> (#[trigger] fs[i]).0 != fs[j].0))
            } by {
            };
        };
        fields::lemma_parse_cat(s, p0, ds, seq![], seq![], fs);
        fields::lemma_parse_fields_stop(s, s.len() as int, ds, seq![] + fields::present_tags(fs), seq![] + fields::cat_opt_entries(fs));
        let seen = seq![] + fields::present_tags(fs);
        assert(seen =~= fields::present_tags(fs));
        assert forall|kk: int| 0 <= kk < ds.len() implies !(#[trigger] ds[kk]).required || seen.contains(ds[kk].tag) by {
        };
        fields::lemma_finish_ok(ds, seen, seq![] + fields::cat_opt_entries(fs), s.len() as int);
        assert(seq![] + fields::cat_opt_entries(fs) =~= fields::cat_opt_entries(fs));
    }

    pub open spec fn pos_len(self) -> int {
        0
    }

    pub fn encode_body(&self) -> (r: Vec<u8>)
        requires self.wf(),
        ensures r@ == self.body_bytes(),
    {
        let ghost gfs = self.spec_fs();
        let mut out: Vec<u8> = Vec::new();
        proof {
            self.lemma_meta();
            let fs = self.spec_fs();
        let fs0 = fs;
        assert(fields::cat_opt_fields(fs0) =~= Seq::<u8>::empty());
            assert(out@ =~= self.body_bytes());
        }
        out
    }

    pub fn decode_body(bytes: &[u8]) -> (r: ZVTResult<(Self, usize)>)
        ensures
            r matches Ok(v) ==> v.1 <= bytes@.len(),
            forall|v: Self|
                v.wf() && (true) && bytes@ == #[trigger] v.body_bytes() ==> (r matches Ok(o) && o.0 == v
                    && o.1 == bytes@.len()),
    {
        let blen_e = bytes.len();
        proof { assert(bytes@.len() <= usize::MAX); }
        proof {
            assert forall|v: Self| v.wf() && (true) && bytes@ == #[trigger] v.body_bytes() implies ResetTerminal::master_facts(v, bytes@) by { ResetTerminal::lemma_master(v, bytes@); };
        }
        let mut p: usize = 0;
        let descs = Self::descs();
        let parsed = fields::parse_tagged_fields(bytes, p, &descs);
        let (entries, pos_end) = match parsed { Ok(v) => v, Err(e) => { return Err(e); } };
        let result = Self {
        };
        proof {
            assert forall|v: Self| v.wf() && (true) && bytes@ == #[trigger] v.body_bytes() implies result == v by {
                ResetTerminal::lemma_master(v, bytes@);
            };
        }
        Ok((result, pos_end))
    }

    pub open spec fn master_facts(v: Self, s: Seq<u8>) -> bool {
        &&& fields::spec_parse_fields(s, v.pos_len(), Self::spec_descs(), seq![], seq![]) == Ok::<_, ErrorView>((fields::cat_opt_entries(v.spec_fs()), s.len() as int))
    }

    pub proof fn lemma_master(v: Self, s: Seq<u8>)
        requires v.wf(), (true), s == v.body_bytes(), s.len() <= usize::MAX,
        ensures Self::master_facts(v, s),
    {
        v.lemma_meta();
        v.lemma_body_parses(s);
        let fs = v.spec_fs();
        let g0 = fs;
        assert(fields::cat_opt_fields(g0) =~= Seq::<u8>::empty());
    }
    pub fn zvt_serialize(&self) -> (r: Vec<u8>)
        requires self.wf(), self.body_bytes().len() <= 0xffff,
        ensures r@ == crate::packets::frame_bytes(6, 24, self.body_bytes()),
    {
        let body = self.encode_body();
        crate::packets::ser_frame(6, 24, body)
    }

    pub fn zvt_deserialize(bytes: &[u8]) -> (r: ZVTResult<(Self, usize)>)
        ensures
            r matches Ok(v) ==> v.1 <= bytes@.len(),
            forall|v: Self, rest: Seq<u8>|
                v.wf() && (true) && v.body_bytes().len() <= 0xffff && bytes@ == #[trigger] (crate::packets::frame_bytes(6, 24, v.body_bytes()) + rest) ==> (r matches Ok(o) && o.0 == v && o.1 == bytes@.len() - rest.len()),
    {
        let blen_e = bytes.len();
        proof { assert(bytes@.len() <= usize::MAX); }
        let (ps, pe) = match crate::packets::de_frame(bytes, 6, 24) {
            Ok(v) => v,
            Err(e) => {
                proof {
                    assert forall|v: Self, rest: Seq<u8>| v.wf() && (true) && v.body_bytes().len() <= 0xffff && bytes@ == #[trigger] (crate::packets::frame_bytes(6, 24, v.body_bytes()) + rest) implies false by { crate::packets::lemma_de_frame(bytes@, 6, 24, v.body_bytes(), rest); };
                }
                return Err(e);
            },
        };
        let payload = encoding::copy_range(bytes, ps, pe);
        proof {
            assert forall|v: Self, rest: Seq<u8>| v.wf() && (true) && v.body_bytes().len() <= 0xffff && bytes@ == #[trigger] (crate::packets::frame_bytes(6, 24, v.body_bytes()) + rest) implies (payload@ == v.body_bytes() && pe - ps == v.body_bytes().len() && pe == bytes@.len() - rest.len()) by { crate::packets::lemma_de_frame(bytes@, 6, 24, v.body_bytes(), rest); };
        }
        match Self::decode_body(payload.as_slice()) {
            Ok((p, consumed)) => Ok((p, ps + consumed)),
            Err(e) => Err(e),
        }
    }
}

/// Asks the terminal to print its configuration.
#[derive(Debug, PartialEq)]
pub struct PrintSystemConfiguration {
}

impl PrintSystemConfiguration {
    pub open spec fn wf(self) -> bool {
        true
    }

    pub open spec fn spec_fs(self) -> Seq<(u16, LengthSpec, Option<Seq<u8>>)> {
        seq![
        ]
    }

    pub open spec fn body_bytes(self) -> Seq<u8> {
        fields::cat_opt_fields(self.spec_fs())
    }

    pub open spec fn spec_descs() -> Seq<FieldDesc> {
        seq![
        ]
    }

    fn descs() -> (r: Vec<FieldDesc>)
        ensures r@ == Self::spec_descs(),
    {
        let mut v: Vec<FieldDesc> = Vec::new();
        proof { assert(v@ =~= Self::spec_descs()); }
        v
    }

    proof fn lemma_meta(self)
        ensures
    {
        let ds = Self::spec_descs();
        let fs = self.spec_fs();
        let ds0 = ds; let fs0 = fs;
        assert(ds0 =~= Seq::<FieldDesc>::empty()); assert(fs0 =~= Seq::<(u16, LengthSpec, Option<Seq<u8>>)>::empty());
        fields::lemma_low5(0x1f);
    }

    pub proof fn lemma_body_parses(self, s: Seq<u8>)
        requires self.wf(), s == self.body_bytes(), s.len() <= usize::MAX,
        ensures
            fields::spec_parse_fields(s, self.pos_len(), Self::spec_descs(), seq![], seq![]) == Ok::<_, ErrorView>((fields::cat_opt_entries(self.spec_fs()), s.len() as int)),
            self.pos_len() + fields::cat_opt_fields(self.spec_fs()).len() == s.len(),
    {
        let ds = Self::spec_descs();
        let fs = self.spec_fs();
        self.lemma_meta();
        let p0 = self.pos_len();
        assert(p0 == 0);
        assert(s.subrange(0, fields::cat_opt_fields(fs).len() as int) =~= fields::cat_opt_fields(fs));
        assert(fields::fs_ok(fs, ds, seq![])) by {
            assert forall|j: int| 0 <= j < fs.len() && (#[trigger] fs[j]).2 is Some implies {
                &&& encoding::tag_wf(fs[j].0)
                &&& fields::find_desc(ds, fs[j].0) matches Some(d) && d.len == fs[j].1 && fields::region_wf(d.len, d.width as int, fs[j].2.unwrap().len() as int) && (d.repeatable || (!seq![].contains(fs[j].0) && forall|i: int| 0 <= i < j ==> (#[trigger] fs[i]).0 != fs[j].0))
            } by {
            };
        };
        fields::lemma_parse_cat(s, p0, ds, seq![], seq![], fs);
        fields::lemma_parse_fields_stop(s, s.len() as int, ds, seq![] + fields::present_tags(fs), seq![] + fields::cat_opt_entries(fs));
        let seen = seq![] + fields::present_tags(fs);
        assert(seen =~= fields::present_tags(fs));
        assert forall|kk: int| 0 <= kk < ds.len() implies !(#[trigger] ds[kk]).required || seen.contains(ds[kk].tag) by {
        };
        fields::lemma_finish_ok(ds, seen, seq![] + fields::cat_opt_entries(fs), s.len() as int);
        assert(seq![] + fields::cat_opt_entries(fs) =~= fields::cat_opt_entries(fs));
    }

    pub open spec fn pos_len(self) -> int {
        0
    }

    pub fn encode_body(&self) -> (r: Vec<u8>)
        requires self.wf(),
        ensures r@ == self.body_bytes(),
    {
        let ghost gfs = self.spec_fs();
        let mut out: Vec<u8> = Vec::new();
        proof {
            self.lemma_meta();
            let fs = self.spec_fs();
        let fs0 = fs;
        assert(fields::cat_opt_fields(fs0) =~= Seq::<u8>::empty());
            assert(out@ =~= self.body_bytes());
        }
        out
    }

    pub fn decode_body(bytes: &[u8]) -> (r: ZVTResult<(Self, usize)>)
        ensures
            r matches Ok(v) ==> v.1 <= bytes@.len(),
            forall|v: Self|
                v.wf() && (true) && bytes@ == #[trigger] v.body_bytes() ==> (r matches Ok(o) && o.0 == v
                    && o.1 == bytes@.len()),
    {
        let blen_e = bytes.len();
        proof { assert(bytes@.len() <= usize::MAX); }
        proof {
            assert forall|v: Self| v.wf() && (true) && bytes@ == #[trigger] v.body_bytes() implies PrintSystemConfiguration::master_facts(v, bytes@) by { PrintSystemConfiguration::lemma_master(v, bytes@); };
        }
        let mut p: usize = 0;
        let descs = Self::descs();
        let parsed = fields::parse_tagged_fields(bytes, p, &descs);
        let (entries, pos_end) = match parsed { Ok(v) => v, Err(e) => { return Err(e); } };
        let result = Self {
        };
        proof {
            assert forall|v: Self| v.wf() && (true) && bytes@ == #[trigger] v.body_bytes() implies result == v by {
                PrintSystemConfiguration::lemma_master(v, bytes@);
            };
        }
        Ok((result, pos_end))
    }

    pub open spec fn master_facts(v: Self, s: Seq<u8>) -> bool {
        &&& fields::spec_parse_fields(s, v.pos_len(), Self::spec_descs(), seq![], seq![]) == Ok::<_, ErrorView>((fields::cat_opt_entries(v.spec_fs()), s.len() as int))
    }

    pub proof fn lemma_master(v: Self, s: Seq<u8>)
        requires v.wf(), (true), s == v.body_bytes(), s.len() <= usize::MAX,
        ensures Self::master_facts(v, s),
    {
        v.lemma_meta();
        v.lemma_body_parses(s);
        let fs = v.spec_fs();
        let g0 = fs;
        assert(fields::cat_opt_fields(g0) =~= Seq::<u8>::empty());
    }
    pub fn zvt_serialize(&self) -> (r: Vec<u8>)
        requires self.wf(), self.body_bytes().len() <= 0xffff,
        ensures r@ == crate::packets::frame_bytes(6, 26, self.body_bytes()),
    {
        let body = self.encode_body();
        crate::packets::ser_frame(6, 26, body)
    }

    pub fn zvt_deserialize(bytes: &[u8]) -> (r: ZVTResult<(Self, usize)>)
        ensures
            r matches Ok(v) ==> v.1 <= bytes@.len(),
            forall|v: Self, rest: Seq<u8>|
                v.wf() && (true) && v.body_bytes().len() <= 0xffff && bytes@ == #[trigger] (crate::packets::frame_bytes(6, 26, v.body_bytes()) + rest) ==> (r matches Ok(o) && o.0 == v && o.1 == bytes@.len() - rest.len()),
    {
        let blen_e = bytes.len();
        proof { assert(bytes@.len() <= usize::MAX); }
        let (ps, pe) = match crate::packets::de_frame(bytes, 6, 26) {
            Ok(v) => v,
            Err(e) => {
                proof {
                    assert forall|v: Self, rest: Seq<u8>| v.wf() && (true) && v.body_bytes().len() <= 0xffff && bytes@ == #[trigger] (crate::packets::frame_bytes(6, 26, v.body_bytes()) + rest) implies false by { crate::packets::lemma_de_frame(bytes@, 6, 26, v.body_bytes(), rest); };
                }
                return Err(e);
            },
        };
        let payload = encoding::copy_range(bytes, ps, pe);
        proof {
            assert forall|v: Self, rest: Seq<u8>| v.wf() && (true) && v.body_bytes().len() <= 0xffff && bytes@ == #[trigger] (crate::packets::frame_bytes(6, 26, v.body_bytes()) + rest) implies (payload@ == v.body_bytes() && pe - ps == v.body_bytes().len() && pe == bytes@.len() - rest.len()) by { crate::packets::lemma_de_frame(bytes@, 6, 26, v.body_bytes(), rest); };
        }
        match Self::decode_body(payload.as_slice()) {
            Ok((p, consumed)) => Ok((p, ps + consumed)),
            Err(e) => Err(e),
        }
    }
}

/// The zero-payload acknowledgement frame.
#[derive(Debug, PartialEq)]
pub struct Ack {
}

impl Ack {
    pub open spec fn wf(self) -> bool {
        true
    }

    pub open spec fn spec_fs(self) -> Seq<(u16, LengthSpec, Option<Seq<u8>>)> {
        seq![
        ]
    }

    pub open spec fn body_bytes(self) -> Seq<u8> {
        fields::cat_opt_fields(self.spec_fs())
    }

    pub open spec fn spec_descs() -> Seq<FieldDesc> {
        seq![
        ]
    }

    fn descs() -> (r: Vec<FieldDesc>)
        ensures r@ == Self::spec_descs(),
    {
        let mut v: Vec<FieldDesc> = Vec::new();
        proof { assert(v@ =~= Self::spec_descs()); }
        v
    }

    proof fn lemma_meta(self)
        ensures
    {
        let ds = Self::spec_descs();
        let fs = self.spec_fs();
        let ds0 = ds; let fs0 = fs;
        assert(ds0 =~= Seq::<FieldDesc>::empty()); assert(fs0 =~= Seq::<(u16, LengthSpec, Option<Seq<u8>>)>::empty());
        fields::lemma_low5(0x1f);
    }

    pub proof fn lemma_body_parses(self, s: Seq<u8>)
        requires self.wf(), s == self.body_bytes(), s.len() <= usize::MAX,
        ensures
            fields::spec_parse_fields(s, self.pos_len(), Self::spec_descs(), seq![], seq![]) == Ok::<_, ErrorView>((fields::cat_opt_entries(self.spec_fs()), s.len() as int)),
            self.pos_len() + fields::cat_opt_fields(self.spec_fs()).len() == s.len(),
    {
        let ds = Self::spec_descs();
        let fs = self.spec_fs();
        self.lemma_meta();
        let p0 = self.pos_len();
        assert(p0 == 0);
        assert(s.subrange(0, fields::cat_opt_fields(fs).len() as int) =~= fields::cat_opt_fields(fs));
        assert(fields::fs_ok(fs, ds, seq![])) by {
            assert forall|j: int| 0 <= j < fs.len() && (#[trigger] fs[j]).2 is Some implies {
                &&& encoding::tag_wf(fs[j].0)
                &&& fields::find_desc(ds, fs[j].0) matches Some(d) && d.len == fs[j].1 && fields::region_wf(d.len, d.width as int, fs[j].2.unwrap().len() as int) && (d.repeatable || (!seq![].contains(fs[j].0) && forall|i: int| 0 <= i < j ==> (#[trigger] fs[i]).0 != fs[j].0))
            } by {
            };
        };
        fields::lemma_parse_cat(s, p0, ds, seq![], seq![], fs);
        fields::lemma_parse_fields_stop(s, s.len() as int, ds, seq![] + fields::present_tags(fs), seq![] + fields::cat_opt_entries(fs));
        let seen = seq![] + fields::present_tags(fs);
        assert(seen =~= fields::present_tags(fs));
        assert forall|kk: int| 0 <= kk < ds.len() implies !(#[trigger] ds[kk]).required || seen.contains(ds[kk].tag) by {
        };
        fields::lemma_finish_ok(ds, seen, seq![] + fields::cat_opt_entries(fs), s.len() as int);
        assert(seq![] + fields::cat_opt_entries(fs) =~= fields::cat_opt_entries(fs));
    }

    pub open spec fn pos_len(self) -> int {
        0
    }

    pub fn encode_body(&self) -> (r: Vec<u8>)
        requires self.wf(),
        ensures r@ == self.body_bytes(),
    {
        let ghost gfs = self.spec_fs();
        let mut out: Vec<u8> = Vec::new();
        proof {
            self.lemma_meta();
            let fs = self.spec_fs();
        let fs0 = fs;
        assert(fields::cat_opt_fields(fs0) =~= Seq::<u8>::empty());
            assert(out@ =~= self.body_bytes());
        }
        out
    }

    pub fn decode_body(bytes: &[u8]) -> (r: ZVTResult<(Self, usize)>)
        ensures
            r matches Ok(v) ==> v.1 <= bytes@.len(),
            forall|v: Self|
                v.wf() && (true) && bytes@ == #[trigger] v.body_bytes() ==> (r matches Ok(o) && o.0 == v
                    && o.1 == bytes@.len()),
    {
        let blen_e = bytes.len();
        proof { assert(bytes@.len() <= usize::MAX); }
        proof {
            assert forall|v: Self| v.wf() && (true) && bytes@ == #[trigger] v.body_bytes() implies Ack::master_facts(v, bytes@) by { Ack::lemma_master(v, bytes@); };
        }
        let mut p: usize = 0;
        let descs = Self::descs();
        let parsed = fields::parse_tagged_fields(bytes, p, &descs);
        let (entries, pos_end) = match parsed { Ok(v) => v, Err(e) => { return Err(e); } };
        let result = Self {
        };
        proof {
            assert forall|v: Self| v.wf() && (true) && bytes@ == #[trigger] v.body_bytes() implies result == v by {
                Ack::lemma_master(v, bytes@);
            };
        }
        Ok((result, pos_end))
    }

    pub open spec fn master_facts(v: Self, s: Seq<u8>) -> bool {
        &&& fields::spec_parse_fields(s, v.pos_len(), Self::spec_descs(), seq![], seq![]) == Ok::<_, ErrorView>((fields::cat_opt_entries(v.spec_fs()), s.len() as int))
    }

    pub proof fn lemma_master(v: Self, s: Seq<u8>)
        requires v.wf(), (true), s == v.body_bytes(), s.len() <= usize::MAX,
        ensures Self::master_facts(v, s),
    {
        v.lemma_meta();
        v.lemma_body_parses(s);
        let fs = v.spec_fs();
        let g0 = fs;
        assert(fields::cat_opt_fields(g0) =~= Seq::<u8>::empty());
    }
    pub fn zvt_serialize(&self) -> (r: Vec<u8>)
        requires self.wf(), self.body_bytes().len() <= 0xffff,
        ensures r@ == crate::packets::frame_bytes(128, 0, self.body_bytes()),
    {
        let body = self.encode_body();
        crate::packets::ser_frame(128, 0, body)
    }

    pub fn zvt_deserialize(bytes: &[u8]) -> (r: ZVTResult<(Self, usize)>)
        ensures
            r matches Ok(v) ==> v.1 <= bytes@.len(),
            forall|v: Self, rest: Seq<u8>|
                v.wf() && (true) && v.body_bytes().len() <= 0xffff && bytes@ == #[trigger] (crate::packets::frame_bytes(128, 0, v.body_bytes()) + rest) ==> (r matches Ok(o) && o.0 == v && o.1 == bytes@.len() - rest.len()),
    {
        let blen_e = bytes.len();
        proof { assert(bytes@.len() <= usize::MAX); }
        let (ps, pe) = match crate::packets::de_frame(bytes, 128, 0) {
            Ok(v) => v,
            Err(e) => {
                proof {
                    assert forall|v: Self, rest: Seq<u8>| v.wf() && (true) && v.body_bytes().len() <= 0xffff && bytes@ == #[trigger] (crate::packets::frame_bytes(128, 0, v.body_bytes()) + rest) implies false by { crate::packets::lemma_de_frame(bytes@, 128, 0, v.body_bytes(), rest); };
                }
                return Err(e);
            },
        };
        let payload = encoding::copy_range(bytes, ps, pe);
        proof {
            assert forall|v: Self, rest: Seq<u8>| v.wf() && (true) && v.body_bytes().len() <= 0xffff && bytes@ == #[trigger] (crate::packets::frame_bytes(128, 0, v.body_bytes()) + rest) implies (payload@ == v.body_bytes() && pe - ps == v.body_bytes().len() && pe == bytes@.len() - rest.len()) by { crate::packets::lemma_de_frame(bytes@, 128, 0, v.body_bytes(), rest); };
        }
        match Self::decode_body(payload.as_slice()) {
            Ok((p, consumed)) => Ok((p, ps + consumed)),
            Err(e) => Err(e),
        }
    }
}

/// The terminal hands the ECR its clock.
#[derive(Debug, PartialEq)]
pub struct SetTimeAndDate {
    pub date: usize,
    pub time: usize,
}

impl SetTimeAndDate {
    pub open spec fn wf(self) -> bool {
        &&& encoding::bcd_bytes(self.date as nat).len() <= 3
        &&& encoding::bcd_bytes(self.time as nat).len() <= 3
    }

    pub open spec fn spec_fs(self) -> Seq<(u16, LengthSpec, Option<Seq<u8>>)> {
        seq![
            (0xaau16, LengthSpec::Fixed(3), Some(fields::padded_region(LengthSpec::Fixed(3), encoding::bcd_bytes(self.date as nat)))),
            (0xcu16, LengthSpec::Fixed(3), Some(fields::padded_region(LengthSpec::Fixed(3), encoding::bcd_bytes(self.time as nat)))),
        ]
    }

    pub open spec fn body_bytes(self) -> Seq<u8> {
        fields::cat_opt_fields(self.spec_fs())
    }

    pub open spec fn spec_descs() -> Seq<FieldDesc> {
        seq![
            FieldDesc { tag: 0xaa, len: LengthSpec::Fixed(3), width: 0, repeatable: false, required: true },
            FieldDesc { tag: 0xc, len: LengthSpec::Fixed(3), width: 0, repeatable: false, required: true },
        ]
    }

    fn descs() -> (r: Vec<FieldDesc>)
        ensures r@ == Self::spec_descs(),
    {
        let mut v: Vec<FieldDesc> = Vec::new();
        v.push(FieldDesc { tag: 0xaa, len: LengthSpec::Fixed(3), width: 0, repeatable: false, required: true });
        v.push(FieldDesc { tag: 0xc, len: LengthSpec::Fixed(3), width: 0, repeatable: false, required: true });
        proof { assert(v@ =~= Self::spec_descs()); }
        v
    }

    proof fn lemma_meta(self)
        ensures
            fields::find_desc(Self::spec_descs(), 0xaa) == Some(Self::spec_descs()[0]),
            encoding::tag_wf(0xaa),
            fields::fs_lookup(self.spec_fs(), 0xaa) == Some(fields::padded_region(LengthSpec::Fixed(3), encoding::bcd_bytes(self.date as nat))),
            fields::find_desc(Self::spec_descs(), 0xc) == Some(Self::spec_descs()[1]),
            encoding::tag_wf(0xc),
            fields::fs_lookup(self.spec_fs(), 0xc) == Some(fields::padded_region(LengthSpec::Fixed(3), encoding::bcd_bytes(self.time as nat))),
    {
        let ds = Self::spec_descs();
        let fs = self.spec_fs();
        let ds0 = ds; let fs0 = fs;
        let ds1 = ds0.drop_first(); let fs1 = fs0.drop_first();
        let ds2 = ds1.drop_first(); let fs2 = fs1.drop_first();
        assert(ds0[0] == ds[0]); assert(fs0[0] == fs[0]);
        assert(ds0.len() == 2); assert(fs0.len() == 2);
        assert(ds1[0] == ds[1]); assert(fs1[0] == fs[1]);
        assert(ds1.len() == 1); assert(fs1.len() == 1);
        assert(ds2 =~= Seq::<FieldDesc>::empty()); assert(fs2 =~= Seq::<(u16, LengthSpec, Option<Seq<u8>>)>::empty());
        fields::lemma_low5(0x1f);
        fields::lemma_low5(0xaa);
        fields::lemma_low5(0xc);
        assert(fields::find_desc(ds0, 0xaa) == Some(ds[0]));
        assert(fields::find_desc(ds1, 0xc) == Some(ds[1]));
        assert(fields::find_desc(ds0, 0xc) == fields::find_desc(ds1, 0xc));
        assert(fields::fs_lookup(fs2, 0xaa) == None::<Seq<u8>>);
        assert(fields::fs_lookup(fs1, 0xaa) == None::<Seq<u8>>);
        assert(fields::fs_lookup(fs0, 0xaa) == Some(fields::padded_region(LengthSpec::Fixed(3), encoding::bcd_bytes(self.date as nat))));
        assert(fields::fs_lookup(fs2, 0xc) == None::<Seq<u8>>);
        assert(fields::fs_lookup(fs1, 0xc) == Some(fields::padded_region(LengthSpec::Fixed(3), encoding::bcd_bytes(self.time as nat))));
        assert(fields::fs_lookup(fs0, 0xc) == fields::fs_lookup(fs1, 0xc));
    }

    pub proof fn lemma_body_parses(self, s: Seq<u8>)
        requires self.wf(), s == self.body_bytes(), s.len() <= usize::MAX,
        ensures
            fields::spec_parse_fields(s, self.pos_len(), Self::spec_descs(), seq![], seq![]) == Ok::<_, ErrorView>((fields::cat_opt_entries(self.spec_fs()), s.len() as int)),
            self.pos_len() + fields::cat_opt_fields(self.spec_fs()).len() == s.len(),
    {
        let ds = Self::spec_descs();
        let fs = self.spec_fs();
        self.lemma_meta();
        let p0 = self.pos_len();
        assert(p0 == 0);
        assert(s.subrange(0, fields::cat_opt_fields(fs).len() as int) =~= fields::cat_opt_fields(fs));
        assert(fields::fs_ok(fs, ds, seq![])) by {
            assert forall|j: int| 0 <= j < fs.len() && (#[trigger] fs[j]).2 is Some implies {
                &&& encoding::tag_wf(fs[j].0)
                &&& fields::find_desc(ds, fs[j].0) matches Some(d) && d.len == fs[j].1 && fields::region_wf(d.len, d.width as int, fs[j].2.unwrap().len() as int) && (d.repeatable || (!seq![].contains(fs[j].0) && forall|i: int| 0 <= i < j ==> (#[trigger] fs[i]).0 != fs[j].0))
            } by {
                if j == 0 { assert(fs[0].0 == 0xaa); }
                if j == 1 { assert(fs[1].0 == 0xc); }
            };
        };
        fields::lemma_parse_cat(s, p0, ds, seq![], seq![], fs);
        fields::lemma_parse_fields_stop(s, s.len() as int, ds, seq![] + fields::present_tags(fs), seq![] + fields::cat_opt_entries(fs));
        let seen = seq![] + fields::present_tags(fs);
        fields::lemma_present_tags_contains(fs, 0);
        fields::lemma_present_tags_contains(fs, 1);
        assert(seen =~= fields::present_tags(fs));
        assert forall|kk: int| 0 <= kk < ds.len() implies !(#[trigger] ds[kk]).required || seen.contains(ds[kk].tag) by {
            if kk == 0 { assert(fs[0].2 is Some); assert(fields::present_tags(fs).contains(fs[0].0)); }
            if kk == 1 { assert(fs[1].2 is Some); assert(fields::present_tags(fs).contains(fs[1].0)); }
        };
        fields::lemma_finish_ok(ds, seen, seq![] + fields::cat_opt_entries(fs), s.len() as int);
        assert(seq![] + fields::cat_opt_entries(fs) =~= fields::cat_opt_entries(fs));
    }

    pub open spec fn pos_len(self) -> int {
        0
    }

    pub fn encode_body(&self) -> (r: Vec<u8>)
        requires self.wf(),
        ensures r@ == self.body_bytes(),
    {
        let ghost gfs = self.spec_fs();
        let mut out: Vec<u8> = Vec::new();
        { let region = fields::pad_fixed(encoding::enc_bcd(self.date), 3); fields::ser_field(&mut out, Some(Tag(0xaa)), LengthSpec::Fixed(3), &region); }
        proof { assert(out@ =~= fields::opt_field_bytes(gfs[0].0, gfs[0].1, gfs[0].2)); }
        { let region = fields::pad_fixed(encoding::enc_bcd(self.time), 3); fields::ser_field(&mut out, Some(Tag(0xc)), LengthSpec::Fixed(3), &region); }
        proof { assert(out@ =~= fields::opt_field_bytes(gfs[0].0, gfs[0].1, gfs[0].2) + fields::opt_field_bytes(gfs[1].0, gfs[1].1, gfs[1].2)); }
        proof {
            self.lemma_meta();
            let fs = self.spec_fs();
        let fs0 = fs;
        let fs1 = fs0.drop_first();
        let fs2 = fs1.drop_first();
        assert(fields::cat_opt_fields(fs0) == fields::opt_field_bytes(fs0[0].0, fs0[0].1, fs0[0].2) + fields::cat_opt_fields(fs1)); assert(fs0[0] == fs[0]);
        assert(fields::cat_opt_fields(fs1) == fields::opt_field_bytes(fs1[0].0, fs1[0].1, fs1[0].2) + fields::cat_opt_fields(fs2)); assert(fs1[0] == fs[1]);
        assert(fields::cat_opt_fields(fs2) =~= Seq::<u8>::empty());
            assert(out@ =~= self.body_bytes());
        }
        out
    }

    pub fn decode_body(bytes: &[u8]) -> (r: ZVTResult<(Self, usize)>)
        ensures
            r matches Ok(v) ==> v.1 <= bytes@.len(),
            forall|v: Self|
                v.wf() && (true) && bytes@ == #[trigger] v.body_bytes() ==> (r matches Ok(o) && o.0 == v
                    && o.1 == bytes@.len()),
    {
        let blen_e = bytes.len();
        proof { assert(bytes@.len() <= usize::MAX); }
        proof {
            assert forall|v: Self| v.wf() && (true) && bytes@ == #[trigger] v.body_bytes() implies SetTimeAndDate::master_facts(v, bytes@) by { SetTimeAndDate::lemma_master(v, bytes@); };
        }
        let mut p: usize = 0;
        let descs = Self::descs();
        let parsed = fields::parse_tagged_fields(bytes, p, &descs);
        let (entries, pos_end) = match parsed { Ok(v) => v, Err(e) => { return Err(e); } };
        let f_date = match fields::entry_opt_usize_bcd(&entries, 0xaa) { Some(v) => v, None => { return Err(ZVTError::IncompleteData); } };
        let f_time = match fields::entry_opt_usize_bcd(&entries, 0xc) { Some(v) => v, None => { return Err(ZVTError::IncompleteData); } };
        let result = Self {
            date: f_date,
            time: f_time,
        };
        proof {
            assert forall|v: Self| v.wf() && (true) && bytes@ == #[trigger] v.body_bytes() implies result == v by {
                SetTimeAndDate::lemma_master(v, bytes@);
                { encoding::lemma_bcd_roundtrip(v.date as nat); crate::packets::lemma_padded_bcd(v.date, 3); vstd::arithmetic::div_mod::lemma_small_mod(v.date as nat, encoding::usize_mod()); }
                { encoding::lemma_bcd_roundtrip(v.time as nat); crate::packets::lemma_padded_bcd(v.time, 3); vstd::arithmetic::div_mod::lemma_small_mod(v.time as nat, encoding::usize_mod()); }
            };
        }
        Ok((result, pos_end))
    }

    pub open spec fn master_facts(v: Self, s: Seq<u8>) -> bool {
        &&& fields::spec_parse_fields(s, v.pos_len(), Self::spec_descs(), seq![], seq![]) == Ok::<_, ErrorView>((fields::cat_opt_entries(v.spec_fs()), s.len() as int))
        &&& fields::find_entry(fields::cat_opt_entries(v.spec_fs()), 0xaa) == Some(fields::padded_region(LengthSpec::Fixed(3), encoding::bcd_bytes(v.date as nat)))
        &&& fields::find_entry(fields::cat_opt_entries(v.spec_fs()), 0xc) == Some(fields::padded_region(LengthSpec::Fixed(3), encoding::bcd_bytes(v.time as nat)))
    }

    pub proof fn lemma_master(v: Self, s: Seq<u8>)
        requires v.wf(), (true), s == v.body_bytes(), s.len() <= usize::MAX,
        ensures Self::master_facts(v, s),
    {
        v.lemma_meta();
        v.lemma_body_parses(s);
        let fs = v.spec_fs();
        let g0 = fs;
        let g1 = g0.drop_first();
        let g2 = g1.drop_first();
        assert(fields::cat_opt_fields(g0) == fields::opt_field_bytes(g0[0].0, g0[0].1, g0[0].2) + fields::cat_opt_fields(g1)); assert(g0[0] == fs[0]);
        assert(fields::cat_opt_fields(g1) == fields::opt_field_bytes(g1[0].0, g1[0].1, g1[0].2) + fields::cat_opt_fields(g2)); assert(g1[0] == fs[1]);
        assert(fields::cat_opt_fields(g2) =~= Seq::<u8>::empty());
        fields::lemma_find_entry_fs(fs, 0xaa);
        fields::lemma_find_entry_fs(fs, 0xc);
    }
    pub fn zvt_serialize(&self) -> (r: Vec<u8>)
        requires self.wf(), self.body_bytes().len() <= 0xffff,
        ensures r@ == crate::packets::frame_bytes(4, 1, self.body_bytes()),
    {
        let body = self.encode_body();
        crate::packets::ser_frame(4, 1, body)
    }

    pub fn zvt_deserialize(bytes: &[u8]) -> (r: ZVTResult<(Self, usize)>)
        ensures
            r matches Ok(v) ==> v.1 <= bytes@.len(),
            forall|v: Self, rest: Seq<u8>|
                v.wf() && (true) && v.body_bytes().len() <= 0xffff && bytes@ == #[trigger] (crate::packets::frame_bytes(4, 1, v.body_bytes()) + rest) ==> (r matches Ok(o) && o.0 == v && o.1 == bytes@.len() - rest.len()),
    {
        let blen_e = bytes.len();
        proof { assert(bytes@.len() <= usize::MAX); }
        let (ps, pe) = match crate::packets::de_frame(bytes, 4, 1) {
            Ok(v) => v,
            Err(e) => {
                proof {
                    assert forall|v: Self, rest: Seq<u8>| v.wf() && (true) && v.body_bytes().len() <= 0xffff && bytes@ == #[trigger] (crate::packets::frame_bytes(4, 1, v.body_bytes()) + rest) implies false by { crate::packets::lemma_de_frame(bytes@, 4, 1, v.body_bytes(), rest); };
                }
                return Err(e);
            },
        };
        let payload = encoding::copy_range(bytes, ps, pe);
        proof {
            assert forall|v: Self, rest: Seq<u8>| v.wf() && (true) && v.body_bytes().len() <= 0xffff && bytes@ == #[trigger] (crate::packets::frame_bytes(4, 1, v.body_bytes()) + rest) implies (payload@ == v.body_bytes() && pe - ps == v.body_bytes().len() && pe == bytes@.len() - rest.len()) by { crate::packets::lemma_de_frame(bytes@, 4, 1, v.body_bytes(), rest); };
        }
        match Self::decode_body(payload.as_slice()) {
            Ok((p, consumed)) => Ok((p, ps + consumed)),
            Err(e) => Err(e),
        }
    }
}

/// An abort of a partial reversal; may carry the receipt number of a pending transaction.
#[derive(Debug, PartialEq)]
pub struct PartialReversalAbort {
    pub error: u8,
    pub receipt_no: Option<usize>,
}

impl PartialReversalAbort {
    pub open spec fn wf(self) -> bool {
        &&& (match self.receipt_no { Some(k) => k == 0xffff || encoding::bcd_bytes(k as nat).len() <= 2, None => true })
    }

    pub open spec fn spec_fs(self) -> Seq<(u16, LengthSpec, Option<Seq<u8>>)> {
        seq![
            (0x87u16, LengthSpec::Fixed(2), (match self.receipt_no { Some(k) => Some(crate::packets::receipt_no_bytes(k)), None => None })),
        ]
    }

    pub open spec fn body_bytes(self) -> Seq<u8> {
        seq![self.error] + (fields::cat_opt_fields(self.spec_fs()))
    }

    pub open spec fn spec_descs() -> Seq<FieldDesc> {
        seq![
            FieldDesc { tag: 0x87, len: LengthSpec::Fixed(2), width: 0, repeatable: false, required: false },
        ]
    }

    fn descs() -> (r: Vec<FieldDesc>)
        ensures r@ == Self::spec_descs(),
    {
        let mut v: Vec<FieldDesc> = Vec::new();
        v.push(FieldDesc { tag: 0x87, len: LengthSpec::Fixed(2), width: 0, repeatable: false, required: false });
        proof { assert(v@ =~= Self::spec_descs()); }
        v
    }

    proof fn lemma_meta(self)
        ensures
            fields::find_desc(Self::spec_descs(), 0x87) == Some(Self::spec_descs()[0]),
            encoding::tag_wf(0x87),
            fields::fs_lookup(self.spec_fs(), 0x87) == (match self.receipt_no { Some(k) => Some(crate::packets::receipt_no_bytes(k)), None => None }),
    {
        let ds = Self::spec_descs();
        let fs = self.spec_fs();
        let ds0 = ds; let fs0 = fs;
        let ds1 = ds0.drop_first(); let fs1 = fs0.drop_first();
        assert(ds0[0] == ds[0]); assert(fs0[0] == fs[0]);
        assert(ds0.len() == 1); assert(fs0.len() == 1);
        assert(ds1 =~= Seq::<FieldDesc>::empty()); assert(fs1 =~= Seq::<(u16, LengthSpec, Option<Seq<u8>>)>::empty());
        fields::lemma_low5(0x1f);
        fields::lemma_low5(0x87);
        assert(fields::find_desc(ds0, 0x87) == Some(ds[0]));
        assert(fields::fs_lookup(fs1, 0x87) == None::<Seq<u8>>);
        assert(fields::fs_lookup(fs0, 0x87) == (match self.receipt_no { Some(k) => Some(crate::packets::receipt_no_bytes(k)), None => None }));
    }

    pub proof fn lemma_body_parses(self, s: Seq<u8>)
        requires self.wf(), s == self.body_bytes(), s.len() <= usize::MAX,
        ensures
            fields::spec_parse_fields(s, self.pos_len(), Self::spec_descs(), seq![], seq![]) == Ok::<_, ErrorView>((fields::cat_opt_entries(self.spec_fs()), s.len() as int)),
            self.pos_len() + fields::cat_opt_fields(self.spec_fs()).len() == s.len(),
    {
        let ds = Self::spec_descs();
        let fs = self.spec_fs();
        self.lemma_meta();
        let p0 = self.pos_len();
        let cat = fields::cat_opt_fields(fs);
        assert(s.subrange(0, s.len() as int) =~= s);
        fields::lemma_peel(s, 0, seq![self.error], cat);
        assert(p0 == 0 + (seq![self.error]).len() as int);
        assert(s.subrange(p0, s.len() as int) =~= cat);
        assert(s.subrange(p0, p0 + cat.len() as int) =~= cat);
        assert(fields::fs_ok(fs, ds, seq![])) by {
            assert forall|j: int| 0 <= j < fs.len() && (#[trigger] fs[j]).2 is Some implies {
                &&& encoding::tag_wf(fs[j].0)
                &&& fields::find_desc(ds, fs[j].0) matches Some(d) && d.len == fs[j].1 && fields::region_wf(d.len, d.width as int, fs[j].2.unwrap().len() as int) && (d.repeatable || (!seq![].contains(fs[j].0) && forall|i: int| 0 <= i < j ==> (#[trigger] fs[i]).0 != fs[j].0))
            } by {
                if j == 0 { assert(fs[0].0 == 0x87); }
            };
        };
        fields::lemma_parse_cat(s, p0, ds, seq![], seq![], fs);
        fields::lemma_parse_fields_stop(s, s.len() as int, ds, seq![] + fields::present_tags(fs), seq![] + fields::cat_opt_entries(fs));
        let seen = seq![] + fields::present_tags(fs);
        assert(seen =~= fields::present_tags(fs));
        assert forall|kk: int| 0 <= kk < ds.len() implies !(#[trigger] ds[kk]).required || seen.contains(ds[kk].tag) by {
            if kk == 0 { assert(!ds[0].required); }
        };
        fields::lemma_finish_ok(ds, seen, seq![] + fields::cat_opt_entries(fs), s.len() as int);
        assert(seq![] + fields::cat_opt_entries(fs) =~= fields::cat_opt_entries(fs));
    }

    pub open spec fn pos_len(self) -> int {
        (seq![self.error]).len() as int
    }

    pub fn encode_body(&self) -> (r: Vec<u8>)
        requires self.wf(),
        ensures r@ == self.body_bytes(),
    {
        let ghost gfs = self.spec_fs();
        let mut out: Vec<u8> = Vec::new();
        out.push(self.error);
        match self.receipt_no { Some(k) => { let region = crate::packets::PartialReversalReceiptNo::encode(k); fields::ser_field(&mut out, Some(Tag(0x87)), LengthSpec::Fixed(2), &region); }, None => {} }
        proof { assert(out@ =~= seq![self.error] + fields::opt_field_bytes(gfs[0].0, gfs[0].1, gfs[0].2)); }
        proof {
            self.lemma_meta();
            let fs = self.spec_fs();
        let fs0 = fs;
        let fs1 = fs0.drop_first();
        assert(fields::cat_opt_fields(fs0) == fields::opt_field_bytes(fs0[0].0, fs0[0].1, fs0[0].2) + fields::cat_opt_fields(fs1)); assert(fs0[0] == fs[0]);
        assert(fields::cat_opt_fields(fs1) =~= Seq::<u8>::empty());
            assert(out@ =~= self.body_bytes());
        }
        out
    }

    pub fn decode_body(bytes: &[u8]) -> (r: ZVTResult<(Self, usize)>)
        ensures
            r matches Ok(v) ==> v.1 <= bytes@.len(),
            forall|v: Self|
                v.wf() && (true) && bytes@ == #[trigger] v.body_bytes() ==> (r matches Ok(o) && o.0 == v
                    && o.1 == bytes@.len()),
    {
        let blen_e = bytes.len();
        proof { assert(bytes@.len() <= usize::MAX); }
        proof {
            assert forall|v: Self| v.wf() && (true) && bytes@ == #[trigger] v.body_bytes() implies PartialReversalAbort::master_facts(v, bytes@) by { PartialReversalAbort::lemma_master(v, bytes@); };
        }
        let mut p: usize = 0;
        let f_error = match fields::de_u8_tagged(bytes, p, None, LengthSpec::Unprefixed, NumEncoding::LittleEndian) { Ok((x, q)) => { p = q; x }, Err(e) => { return Err(e); } };
        let descs = Self::descs();
        let parsed = fields::parse_tagged_fields(bytes, p, &descs);
        let (entries, pos_end) = match parsed { Ok(v) => v, Err(e) => { return Err(e); } };
        let f_receipt_no = match crate::packets::entry_opt_receipt_no(&entries, 0x87) { Ok(v) => v, Err(e) => { return Err(e); } };
        let result = Self {
            error: f_error,
            receipt_no: f_receipt_no,
        };
        proof {
            assert forall|v: Self| v.wf() && (true) && bytes@ == #[trigger] v.body_bytes() implies result == v by {
                PartialReversalAbort::lemma_master(v, bytes@);
                match v.receipt_no { Some(kk) => { crate::packets::lemma_receipt_no_roundtrip(kk); }, None => {} }
            };
        }
        Ok((result, pos_end))
    }

    pub open spec fn master_facts(v: Self, s: Seq<u8>) -> bool {
        &&& fields::spec_de_u8_tagged(s, (0) as int, None, LengthSpec::Unprefixed, NumEncoding::LittleEndian) == Ok::<_, ZVTError>((v.error, (0 + 1) as usize))
        &&& (v.receipt_no matches Some(k) ==> crate::packets::spec_receipt_no_parse(crate::packets::receipt_no_bytes(k), 0) == Ok::<_, ZVTError>((k, 2usize)))
        &&& fields::spec_parse_fields(s, v.pos_len(), Self::spec_descs(), seq![], seq![]) == Ok::<_, ErrorView>((fields::cat_opt_entries(v.spec_fs()), s.len() as int))
        &&& fields::find_entry(fields::cat_opt_entries(v.spec_fs()), 0x87) == (match v.receipt_no { Some(k) => Some(crate::packets::receipt_no_bytes(k)), None => None })
    }

    pub proof fn lemma_master(v: Self, s: Seq<u8>)
        requires v.wf(), (true), s == v.body_bytes(), s.len() <= usize::MAX,
        ensures Self::master_facts(v, s),
    {
        v.lemma_meta();
        v.lemma_body_parses(s);
        let fs = v.spec_fs();
        let g0 = fs;
        let g1 = g0.drop_first();
        assert(fields::cat_opt_fields(g0) == fields::opt_field_bytes(g0[0].0, g0[0].1, g0[0].2) + fields::cat_opt_fields(g1)); assert(g0[0] == fs[0]);
        assert(fields::cat_opt_fields(g1) =~= Seq::<u8>::empty());
        fields::lemma_find_entry_fs(fs, 0x87);
        match v.receipt_no { Some(k) => { crate::packets::lemma_receipt_no_roundtrip(k); }, None => {} }
        let cat = fields::cat_opt_fields(fs);
        assert(s.subrange(0, s.len() as int) =~= s);
        fields::lemma_peel(s, 0, seq![v.error], cat);
        assert(s[(0) as int] == v.error) by { assert(s.subrange((0) as int, (0 + 1) as int)[0] == (seq![v.error])[0]); };
    }
    pub fn zvt_serialize(&self) -> (r: Vec<u8>)
        requires self.wf(), self.body_bytes().len() <= 0xffff,
        ensures r@ == crate::packets::frame_bytes(6, 30, self.body_bytes()),
    {
        let body = self.encode_body();
        crate::packets::ser_frame(6, 30, body)
    }

    pub fn zvt_deserialize(bytes: &[u8]) -> (r: ZVTResult<(Self, usize)>)
        ensures
            r matches Ok(v) ==> v.1 <= bytes@.len(),
            forall|v: Self, rest: Seq<u8>|
                v.wf() && (true) && v.body_bytes().len() <= 0xffff && bytes@ == #[trigger] (crate::packets::frame_bytes(6, 30, v.body_bytes()) + rest) ==> (r matches Ok(o) && o.0 == v && o.1 == bytes@.len() - rest.len()),
    {
        let blen_e = bytes.len();
        proof { assert(bytes@.len() <= usize::MAX); }
        let (ps, pe) = match crate::packets::de_frame(bytes, 6, 30) {
            Ok(v) => v,
            Err(e) => {
                proof {
                    assert forall|v: Self, rest: Seq<u8>| v.wf() && (true) && v.body_bytes().len() <= 0xffff && bytes@ == #[trigger] (crate::packets::frame_bytes(6, 30, v.body_bytes()) + rest) implies false by { crate::packets::lemma_de_frame(bytes@, 6, 30, v.body_bytes(), rest); };
                }
                return Err(e);
            },
        };
        let payload = encoding::copy_range(bytes, ps, pe);
        proof {
            assert forall|v: Self, rest: Seq<u8>| v.wf() && (true) && v.body_bytes().len() <= 0xffff && bytes@ == #[trigger] (crate::packets::frame_bytes(6, 30, v.body_bytes()) + rest) implies (payload@ == v.body_bytes() && pe - ps == v.body_bytes().len() && pe == bytes@.len() - rest.len()) by { crate::packets::lemma_de_frame(bytes@, 6, 30, v.body_bytes(), rest); };
        }
        match Self::decode_body(payload.as_slice()) {
            Ok((p, consumed)) => Ok((p, ps + consumed)),
            Err(e) => Err(e),
        }
    }
}

/// Releases the unused part of a reservation.
#[derive(Debug, PartialEq)]
pub struct PartialReversal {
    pub receipt_no: Option<usize>,
    pub amount: Option<usize>,
    pub payment_type: Option<u8>,
    pub currency: Option<usize>,
    pub tlv: Option<tlv::PreAuthData>,
}

impl PartialReversal {
    pub open spec fn wf(self) -> bool {
        &&& (match self.receipt_no { Some(k) => k == 0xffff || encoding::bcd_bytes(k as nat).len() <= 2, None => true })
        &&& (match self.amount { Some(k) => encoding::bcd_bytes(k as nat).len() <= 6, None => true })
        &&& (match self.currency { Some(k) => encoding::bcd_bytes(k as nat).len() <= 2, None => true })
        &&& (match self.tlv { Some(ref k) => k.wf() && k.body_bytes().len() <= 0xffff, None => true })
    }

    pub open spec fn spec_fs(self) -> Seq<(u16, LengthSpec, Option<Seq<u8>>)> {
        seq![
            (0x87u16, LengthSpec::Fixed(2), (match self.receipt_no { Some(k) => Some(crate::packets::receipt_no_bytes(k)), None => None })),
            (0x4u16, LengthSpec::Fixed(6), (match self.amount { Some(k) => Some(fields::padded_region(LengthSpec::Fixed(6), encoding::bcd_bytes(k as nat))), None => None })),
            (0x19u16, LengthSpec::Unprefixed, crate::packets::tlv::opt_u8_region(self.payment_type)),
            (0x49u16, LengthSpec::Fixed(2), (match self.currency { Some(k) => Some(fields::padded_region(LengthSpec::Fixed(2), encoding::bcd_bytes(k as nat))), None => None })),
            (0x6u16, LengthSpec::Tlv, (match self.tlv { Some(ref k) => Some(k.body_bytes()), None => None })),
        ]
    }

    pub open spec fn body_bytes(self) -> Seq<u8> {
        fields::cat_opt_fields(self.spec_fs())
    }

    pub open spec fn spec_descs() -> Seq<FieldDesc> {
        seq![
            FieldDesc { tag: 0x87, len: LengthSpec::Fixed(2), width: 0, repeatable: false, required: false },
            FieldDesc { tag: 0x4, len: LengthSpec::Fixed(6), width: 0, repeatable: false, required: false },
            FieldDesc { tag: 0x19, len: LengthSpec::Unprefixed, width: 1, repeatable: false, required: false },
            FieldDesc { tag: 0x49, len: LengthSpec::Fixed(2), width: 0, repeatable: false, required: false },
            FieldDesc { tag: 0x6, len: LengthSpec::Tlv, width: 0, repeatable: false, required: false },
        ]
    }

    fn descs() -> (r: Vec<FieldDesc>)
        ensures r@ == Self::spec_descs(),
    {
        let mut v: Vec<FieldDesc> = Vec::new();
        v.push(FieldDesc { tag: 0x87, len: LengthSpec::Fixed(2), width: 0, repeatable: false, required: false });
        v.push(FieldDesc { tag: 0x4, len: LengthSpec::Fixed(6), width: 0, repeatable: false, required: false });
        v.push(FieldDesc { tag: 0x19, len: LengthSpec::Unprefixed, width: 1, repeatable: false, required: false });
        v.push(FieldDesc { tag: 0x49, len: LengthSpec::Fixed(2), width: 0, repeatable: false, required: false });
        v.push(FieldDesc { tag: 0x6, len: LengthSpec::Tlv, width: 0, repeatable: false, required: false });
        proof { assert(v@ =~= Self::spec_descs()); }
        v
    }

    #[verifier::rlimit(100)]
    #[verifier::spinoff_prover]
    proof fn lemma_meta(self)
        ensures
            fields::find_desc(Self::spec_descs(), 0x87) == Some(Self::spec_descs()[0]),
            encoding::tag_wf(0x87),
            fields::fs_lookup(self.spec_fs(), 0x87) == (match self.receipt_no { Some(k) => Some(crate::packets::receipt_no_bytes(k)), None => None }),
            fields::find_desc(Self::spec_descs(), 0x4) == Some(Self::spec_descs()[1]),
            encoding::tag_wf(0x4),
            fields::fs_lookup(self.spec_fs(), 0x4) == (match self.amount { Some(k) => Some(fields::padded_region(LengthSpec::Fixed(6), encoding::bcd_bytes(k as nat))), None => None }),
            fields::find_desc(Self::spec_descs(), 0x19) == Some(Self::spec_descs()[2]),
            encoding::tag_wf(0x19),
            fields::fs_lookup(self.spec_fs(), 0x19) == crate::packets::tlv::opt_u8_region(self.payment_type),
            fields::find_desc(Self::spec_descs(), 0x49) == Some(Self::spec_descs()[3]),
            encoding::tag_wf(0x49),
            fields::fs_lookup(self.spec_fs(), 0x49) == (match self.currency { Some(k) => Some(fields::padded_region(LengthSpec::Fixed(2), encoding::bcd_bytes(k as nat))), None => None }),
            fields::find_desc(Self::spec_descs(), 0x6) == Some(Self::spec_descs()[4]),
            encoding::tag_wf(0x6),
            fields::fs_lookup(self.spec_fs(), 0x6) == (match self.tlv { Some(ref k) => Some(k.body_bytes()), None => None }),
    {
        let ds = Self::spec_descs();
        let fs = self.spec_fs();
        let ds0 = ds; let fs0 = fs;
        let ds1 = ds0.drop_first(); let fs1 = fs0.drop_first();
        let ds2 = ds1.drop_first(); let fs2 = fs1.drop_first();
        let ds3 = ds2.drop_first(); let fs3 = fs2.drop_first();
        let ds4 = ds3.drop_first(); let fs4 = fs3.drop_first();
        let ds5 = ds4.drop_first(); let fs5 = fs4.drop_first();
        assert(ds0[0] == ds[0]); assert(fs0[0] == fs[0]);
        assert(ds0.len() == 5); assert(fs0.len() == 5);
        assert(ds1[0] == ds[1]); assert(fs1[0] == fs[1]);
        assert(ds1.len() == 4); assert(fs1.len() == 4);
        assert(ds2[0] == ds[2]); assert(fs2[0] == fs[2]);
        assert(ds2.len() == 3); assert(fs2.len() == 3);
        assert(ds3[0] == ds[3]); assert(fs3[0] == fs[3]);
        assert(ds3.len() == 2); assert(fs3.len() == 2);
        assert(ds4[0] == ds[4]); assert(fs4[0] == fs[4]);
        assert(ds4.len() == 1); assert(fs4.len() == 1);
        assert(ds5 =~= Seq::<FieldDesc>::empty()); assert(fs5 =~= Seq::<(u16, LengthSpec, Option<Seq<u8>>)>::empty());
        fields::lemma_low5(0x1f);
        fields::lemma_low5(0x87);
        fields::lemma_low5(0x4);
        fields::lemma_low5(0x19);
        fields::lemma_low5(0x49);
        fields::lemma_low5(0x6);
        assert(fields::find_desc(ds0, 0x87) == Some(ds[0]));
        assert(fields::find_desc(ds1, 0x4) == Some(ds[1]));
        assert(fields::find_desc(ds0, 0x4) == fields::find_desc(ds1, 0x4));
        assert(fields::find_desc(ds2, 0x19) == Some(ds[2]));
        assert(fields::find_desc(ds1, 0x19) == fields::find_desc(ds2, 0x19));
        assert(fields::find_desc(ds0, 0x19) == fields::find_desc(ds1, 0x19));
        assert(fields::find_desc(ds3, 0x49) == Some(ds[3]));
        assert(fields::find_desc(ds2, 0x49) == fields::find_desc(ds3, 0x49));
        assert(fields::find_desc(ds1, 0x49) == fields::find_desc(ds2, 0x49));
        assert(fields::find_desc(ds0, 0x49) == fields::find_desc(ds1, 0x49));
        assert(fields::find_desc(ds4, 0x6) == Some(ds[4]));
        assert(fields::find_desc(ds3, 0x6) == fields::find_desc(ds4, 0x6));
        assert(fields::find_desc(ds2, 0x6) == fields::find_desc(ds3, 0x6));
        assert(fields::find_desc(ds1, 0x6) == fields::find_desc(ds2, 0x6));
        assert(fields::find_desc(ds0, 0x6) == fields::find_desc(ds1, 0x6));
        assert(fields::fs_lookup(fs5, 0x87) == None::<Seq<u8>>);
        assert(fields::fs_lookup(fs4, 0x87) == None::<Seq<u8>>);
        assert(fields::fs_lookup(fs3, 0x87) == None::<Seq<u8>>);
        assert(fields::fs_lookup(fs2, 0x87) == None::<Seq<u8>>);
        assert(fields::fs_lookup(fs1, 0x87) == None::<Seq<u8>>);
        assert(fields::fs_lookup(fs0, 0x87) == (match self.receipt_no { Some(k) => Some(crate::packets::receipt_no_bytes(k)), None => None }));
        assert(fields::fs_lookup(fs5, 0x4) == None::<Seq<u8>>);
        assert(fields::fs_lookup(fs4, 0x4) == None::<Seq<u8>>);
        assert(fields::fs_lookup(fs3, 0x4) == None::<Seq<u8>>);
        assert(fields::fs_lookup(fs2, 0x4) == None::<Seq<u8>>);
        assert(fields::fs_lookup(fs1, 0x4) == (match self.amount { Some(k) => Some(fields::padded_region(LengthSpec::Fixed(6), encoding::bcd_bytes(k as nat))), None => None }));
        assert(fields::fs_lookup(fs0, 0x4) == fields::fs_lookup(fs1, 0x4));
        assert(fields::fs_lookup(fs5, 0x19) == None::<Seq<u8>>);
        assert(fields::fs_lookup(fs4, 0x19) == None::<Seq<u8>>);
        assert(fields::fs_lookup(fs3, 0x19) == None::<Seq<u8>>);
        assert(fields::fs_lookup(fs2, 0x19) == crate::packets::tlv::opt_u8_region(self.payment_type));
        assert(fields::fs_lookup(fs1, 0x19) == fields::fs_lookup(fs2, 0x19));
        assert(fields::fs_lookup(fs0, 0x19) == fields::fs_lookup(fs1, 0x19));
        assert(fields::fs_lookup(fs5, 0x49) == None::<Seq<u8>>);
        assert(fields::fs_lookup(fs4, 0x49) == None::<Seq<u8>>);
        assert(fields::fs_lookup(fs3, 0x49) == (match self.currency { Some(k) => Some(fields::padded_region(LengthSpec::Fixed(2), encoding::bcd_bytes(k as nat))), None => None }));
        assert(fields::fs_lookup(fs2, 0x49) == fields::fs_lookup(fs3, 0x49));
        assert(fields::fs_lookup(fs1, 0x49) == fields::fs_lookup(fs2, 0x49));
        assert(fields::fs_lookup(fs0, 0x49) == fields::fs_lookup(fs1, 0x49));
        assert(fields::fs_lookup(fs5, 0x6) == None::<Seq<u8>>);
        assert(fields::fs_lookup(fs4, 0x6) == (match self.tlv { Some(ref k) => Some(k.body_bytes()), None => None }));
        assert(fields::fs_lookup(fs3, 0x6) == fields::fs_lookup(fs4, 0x6));
        assert(fields::fs_lookup(fs2, 0x6) == fields::fs_lookup(fs3, 0x6));
        assert(fields::fs_lookup(fs1, 0x6) == fields::fs_lookup(fs2, 0x6));
        assert(fields::fs_lookup(fs0, 0x6) == fields::fs_lookup(fs1, 0x6));
    }

    #[verifier::rlimit(100)]
    #[verifier::spinoff_prover]
    pub proof fn lemma_body_parses(self, s: Seq<u8>)
        requires self.wf(), s == self.body_bytes(), s.len() <= usize::MAX,
        ensures
            fields::spec_parse_fields(s, self.pos_len(), Self::spec_descs(), seq![], seq![]) == Ok::<_, ErrorView>((fields::cat_opt_entries(self.spec_fs()), s.len() as int)),
            self.pos_len() + fields::cat_opt_fields(self.spec_fs()).len() == s.len(),
    {
        let ds = Self::spec_descs();
        let fs = self.spec_fs();
        self.lemma_meta();
        let p0 = self.pos_len();
        assert(p0 == 0);
        assert(s.subrange(0, fields::cat_opt_fields(fs).len() as int) =~= fields::cat_opt_fields(fs));
        assert(fields::fs_ok(fs, ds, seq![])) by {
            assert forall|j: int| 0 <= j < fs.len() && (#[trigger] fs[j]).2 is Some implies {
                &&& encoding::tag_wf(fs[j].0)
                &&& fields::find_desc(ds, fs[j].0) matches Some(d) && d.len == fs[j].1 && fields::region_wf(d.len, d.width as int, fs[j].2.unwrap().len() as int) && (d.repeatable || (!seq![].contains(fs[j].0) && forall|i: int| 0 <= i < j ==> (#[trigger] fs[i]).0 != fs[j].0))
            } by {
                if j == 0 { assert(fs[0].0 == 0x87); }
                if j == 1 { assert(fs[1].0 == 0x4); }
                if j == 2 { assert(fs[2].0 == 0x19); }
                if j == 3 { assert(fs[3].0 == 0x49); }
                if j == 4 { assert(fs[4].0 == 0x6); }
            };
        };
        fields::lemma_parse_cat(s, p0, ds, seq![], seq![], fs);
        fields::lemma_parse_fields_stop(s, s.len() as int, ds, seq![] + fields::present_tags(fs), seq![] + fields::cat_opt_entries(fs));
        let seen = seq![] + fields::present_tags(fs);
        assert(seen =~= fields::present_tags(fs));
        assert forall|kk: int| 0 <= kk < ds.len() implies !(#[trigger] ds[kk]).required || seen.contains(ds[kk].tag) by {
            if kk == 0 { assert(!ds[0].required); }
            if kk == 1 { assert(!ds[1].required); }
            if kk == 2 { assert(!ds[2].required); }
            if kk == 3 { assert(!ds[3].required); }
            if kk == 4 { assert(!ds[4].required); }
        };
        fields::lemma_finish_ok(ds, seen, seq![] + fields::cat_opt_entries(fs), s.len() as int);
        assert(seq![] + fields::cat_opt_entries(fs) =~= fields::cat_opt_entries(fs));
    }

    pub open spec fn pos_len(self) -> int {
        0
    }

    pub open spec fn eqv(a: Self, b: Self) -> bool {
        &&& a.receipt_no == b.receipt_no
        &&& a.amount == b.amount
        &&& a.payment_type == b.payment_type
        &&& a.currency == b.currency
        &&& (match (a.tlv, b.tlv) { (Some(x), Some(y)) => tlv::PreAuthData::eqv(x, y), (None, None) => true, _ => false })
    }

    #[verifier::rlimit(100)]
    #[verifier::spinoff_prover]
    pub fn encode_body(&self) -> (r: Vec<u8>)
        requires self.wf(),
        ensures r@ == self.body_bytes(),
    {
        let ghost gfs = self.spec_fs();
        let mut out: Vec<u8> = Vec::new();
        match self.receipt_no { Some(k) => { let region = crate::packets::PartialReversalReceiptNo::encode(k); fields::ser_field(&mut out, Some(Tag(0x87)), LengthSpec::Fixed(2), &region); }, None => {} }
        proof { assert(out@ =~= fields::opt_field_bytes(gfs[0].0, gfs[0].1, gfs[0].2)); }
        match self.amount { Some(k) => { let region = fields::pad_fixed(encoding::enc_bcd(k), 6); fields::ser_field(&mut out, Some(Tag(0x4)), LengthSpec::Fixed(6), &region); }, None => {} }
        proof { assert(out@ =~= fields::opt_field_bytes(gfs[0].0, gfs[0].1, gfs[0].2) + fields::opt_field_bytes(gfs[1].0, gfs[1].1, gfs[1].2)); }
        match self.payment_type { Some(k) => { let region = encoding::enc_u8(k); fields::ser_field(&mut out, Some(Tag(0x19)), LengthSpec::Unprefixed, &region); }, None => {} }
        proof { assert(out@ =~= fields::opt_field_bytes(gfs[0].0, gfs[0].1, gfs[0].2) + fields::opt_field_bytes(gfs[1].0, gfs[1].1, gfs[1].2) + fields::opt_field_bytes(gfs[2].0, gfs[2].1, gfs[2].2)); }
        match self.currency { Some(k) => { let region = fields::pad_fixed(encoding::enc_bcd(k), 2); fields::ser_field(&mut out, Some(Tag(0x49)), LengthSpec::Fixed(2), &region); }, None => {} }
        proof { assert(out@ =~= fields::opt_field_bytes(gfs[0].0, gfs[0].1, gfs[0].2) + fields::opt_field_bytes(gfs[1].0, gfs[1].1, gfs[1].2) + fields::opt_field_bytes(gfs[2].0, gfs[2].1, gfs[2].2) + fields::opt_field_bytes(gfs[3].0, gfs[3].1, gfs[3].2)); }
        match self.tlv { Some(ref k) => { let region = k.encode_body(); fields::ser_field(&mut out, Some(Tag(0x6)), LengthSpec::Tlv, &region); }, None => {} }
        proof { assert(out@ =~= fields::opt_field_bytes(gfs[0].0, gfs[0].1, gfs[0].2) + fields::opt_field_bytes(gfs[1].0, gfs[1].1, gfs[1].2) + fields::opt_field_bytes(gfs[2].0, gfs[2].1, gfs[2].2) + fields::opt_field_bytes(gfs[3].0, gfs[3].1, gfs[3].2) + fields::opt_field_bytes(gfs[4].0, gfs[4].1, gfs[4].2)); }
        proof {
            self.lemma_meta();
            let fs = self.spec_fs();
        let fs0 = fs;
        let fs1 = fs0.drop_first();
        let fs2 = fs1.drop_first();
        let fs3 = fs2.drop_first();
        let fs4 = fs3.drop_first();
        let fs5 = fs4.drop_first();
        assert(fields::cat_opt_fields(fs0) == fields::opt_field_bytes(fs0[0].0, fs0[0].1, fs0[0].2) + fields::cat_opt_fields(fs1)); assert(fs0[0] == fs[0]);
        assert(fields::cat_opt_fields(fs1) == fields::opt_field_bytes(fs1[0].0, fs1[0].1, fs1[0].2) + fields::cat_opt_fields(fs2)); assert(fs1[0] == fs[1]);
        assert(fields::cat_opt_fields(fs2) == fields::opt_field_bytes(fs2[0].0, fs2[0].1, fs2[0].2) + fields::cat_opt_fields(fs3)); assert(fs2[0] == fs[2]);
        assert(fields::cat_opt_fields(fs3) == fields::opt_field_bytes(fs3[0].0, fs3[0].1, fs3[0].2) + fields::cat_opt_fields(fs4)); assert(fs3[0] == fs[3]);
        assert(fields::cat_opt_fields(fs4) == fields::opt_field_bytes(fs4[0].0, fs4[0].1, fs4[0].2) + fields::cat_opt_fields(fs5)); assert(fs4[0] == fs[4]);
        assert(fields::cat_opt_fields(fs5) =~= Seq::<u8>::empty());
            assert(out@ =~= self.body_bytes());
        }
        out
    }

    #[verifier::rlimit(100)]
    #[verifier::spinoff_prover]
    pub fn decode_body(bytes: &[u8]) -> (r: ZVTResult<(Self, usize)>)
        ensures
            r matches Ok(v) ==> v.1 <= bytes@.len(),
            forall|v: Self|
                v.wf() && (true) && bytes@ == #[trigger] v.body_bytes() ==> (r matches Ok(o) && PartialReversal::eqv(o.0, v)
                    && o.1 == bytes@.len()),
    {
        let blen_e = bytes.len();
        proof { assert(bytes@.len() <= usize::MAX); }
        proof {
            assert forall|v: Self| v.wf() && (true) && bytes@ == #[trigger] v.body_bytes() implies PartialReversal::master_facts(v, bytes@) by { PartialReversal::lemma_master(v, bytes@); };
        }
        let mut p: usize = 0;
        let descs = Self::descs();
        let parsed = fields::parse_tagged_fields(bytes, p, &descs);
        let (entries, pos_end) = match parsed { Ok(v) => v, Err(e) => { return Err(e); } };
        let f_receipt_no = match crate::packets::entry_opt_receipt_no(&entries, 0x87) { Ok(v) => v, Err(e) => { return Err(e); } };
        let f_amount = fields::entry_opt_usize_bcd(&entries, 0x4);
        let f_payment_type = match fields::entry_opt_u8(&entries, 0x19) { Ok(v) => v, Err(e) => { return Err(e); } };
        let f_currency = fields::entry_opt_usize_bcd(&entries, 0x49);
        let f_tlv = match fields::find_payload(&entries, 0x6) { None => None, Some(pl) => match tlv::PreAuthData::decode_body(pl.as_slice()) { Ok(v) => Some(v.0), Err(e) => { return Err(e); } } };
        let result = Self {
            receipt_no: f_receipt_no,
            amount: f_amount,
            payment_type: f_payment_type,
            currency: f_currency,
            tlv: f_tlv,
        };
        proof {
            assert forall|v: Self| v.wf() && (true) && bytes@ == #[trigger] v.body_bytes() implies PartialReversal::eqv(result, v) by {
                PartialReversal::lemma_master(v, bytes@);
                match v.receipt_no { Some(kk) => { crate::packets::lemma_receipt_no_roundtrip(kk); }, None => {} }
                match v.amount { Some(kk) => { encoding::lemma_bcd_roundtrip(kk as nat); crate::packets::lemma_padded_bcd(kk, 6); vstd::arithmetic::div_mod::lemma_small_mod(kk as nat, encoding::usize_mod()); }, None => {} }
                match v.currency { Some(kk) => { encoding::lemma_bcd_roundtrip(kk as nat); crate::packets::lemma_padded_bcd(kk, 2); vstd::arithmetic::div_mod::lemma_small_mod(kk as nat, encoding::usize_mod()); }, None => {} }
                match v.tlv { Some(ref kk) => { assert(kk.wf()); }, None => {} }
            };
        }
        Ok((result, pos_end))
    }

    pub open spec fn master_facts(v: Self, s: Seq<u8>) -> bool {
        &&& (v.receipt_no matches Some(k) ==> crate::packets::spec_receipt_no_parse(crate::packets::receipt_no_bytes(k), 0) == Ok::<_, ZVTError>((k, 2usize)))
        &&& fields::spec_parse_fields(s, v.pos_len(), Self::spec_descs(), seq![], seq![]) == Ok::<_, ErrorView>((fields::cat_opt_entries(v.spec_fs()), s.len() as int))
        &&& fields::find_entry(fields::cat_opt_entries(v.spec_fs()), 0x87) == (match v.receipt_no { Some(k) => Some(crate::packets::receipt_no_bytes(k)), None => None })
        &&& fields::find_entry(fields::cat_opt_entries(v.spec_fs()), 0x4) == (match v.amount { Some(k) => Some(fields::padded_region(LengthSpec::Fixed(6), encoding::bcd_bytes(k as nat))), None => None })
        &&& fields::find_entry(fields::cat_opt_entries(v.spec_fs()), 0x19) == crate::packets::tlv::opt_u8_region(v.payment_type)
        &&& fields::find_entry(fields::cat_opt_entries(v.spec_fs()), 0x49) == (match v.currency { Some(k) => Some(fields::padded_region(LengthSpec::Fixed(2), encoding::bcd_bytes(k as nat))), None => None })
        &&& fields::find_entry(fields::cat_opt_entries(v.spec_fs()), 0x6) == (match v.tlv { Some(ref k) => Some(k.body_bytes()), None => None })
    }

    #[verifier::rlimit(100)]
    #[verifier::spinoff_prover]
    pub proof fn lemma_master(v: Self, s: Seq<u8>)
        requires v.wf(), (true), s == v.body_bytes(), s.len() <= usize::MAX,
        ensures Self::master_facts(v, s),
    {
        v.lemma_meta();
        v.lemma_body_parses(s);
        let fs = v.spec_fs();
        let g0 = fs;
        let g1 = g0.drop_first();
        let g2 = g1.drop_first();
        let g3 = g2.drop_first();
        let g4 = g3.drop_first();
        let g5 = g4.drop_first();
        assert(fields::cat_opt_fields(g0) == fields::opt_field_bytes(g0[0].0, g0[0].1, g0[0].2) + fields::cat_opt_fields(g1)); assert(g0[0] == fs[0]);
        assert(fields::cat_opt_fields(g1) == fields::opt_field_bytes(g1[0].0, g1[0].1, g1[0].2) + fields::cat_opt_fields(g2)); assert(g1[0] == fs[1]);
        assert(fields::cat_opt_fields(g2) == fields::opt_field_bytes(g2[0].0, g2[0].1, g2[0].2) + fields::cat_opt_fields(g3)); assert(g2[0] == fs[2]);
        assert(fields::cat_opt_fields(g3) == fields::opt_field_bytes(g3[0].0, g3[0].1, g3[0].2) + fields::cat_opt_fields(g4)); assert(g3[0] == fs[3]);
        assert(fields::cat_opt_fields(g4) == fields::opt_field_bytes(g4[0].0, g4[0].1, g4[0].2) + fields::cat_opt_fields(g5)); assert(g4[0] == fs[4]);
        assert(fields::cat_opt_fields(g5) =~= Seq::<u8>::empty());
        fields::lemma_find_entry_fs(fs, 0x87);
        fields::lemma_find_entry_fs(fs, 0x4);
        fields::lemma_find_entry_fs(fs, 0x19);
        fields::lemma_find_entry_fs(fs, 0x49);
        fields::lemma_find_entry_fs(fs, 0x6);
        match v.receipt_no { Some(k) => { crate::packets::lemma_receipt_no_roundtrip(k); }, None => {} }
    }
    pub fn zvt_serialize(&self) -> (r: Vec<u8>)
        requires self.wf(), self.body_bytes().len() <= 0xffff,
        ensures r@ == crate::packets::frame_bytes(6, 35, self.body_bytes()),
    {
        let body = self.encode_body();
        crate::packets::ser_frame(6, 35, body)
    }

    pub fn zvt_deserialize(bytes: &[u8]) -> (r: ZVTResult<(Self, usize)>)
        ensures
            r matches Ok(v) ==> v.1 <= bytes@.len(),
            forall|v: Self, rest: Seq<u8>|
                v.wf() && (true) && v.body_bytes().len() <= 0xffff && bytes@ == #[trigger] (crate::packets::frame_bytes(6, 35, v.body_bytes()) + rest) ==> (r matches Ok(o) && PartialReversal::eqv(o.0, v) && o.1 == bytes@.len() - rest.len()),
    {
        let blen_e = bytes.len();
        proof { assert(bytes@.len() <= usize::MAX); }
        let (ps, pe) = match crate::packets::de_frame(bytes, 6, 35) {
            Ok(v) => v,
            Err(e) => {
                proof {
                    assert forall|v: Self, rest: Seq<u8>| v.wf() && (true) && v.body_bytes().len() <= 0xffff && bytes@ == #[trigger] (crate::packets::frame_bytes(6, 35, v.body_bytes()) + rest) implies false by { crate::packets::lemma_de_frame(bytes@, 6, 35, v.body_bytes(), rest); };
                }
                return Err(e);
            },
        };
        let payload = encoding::copy_range(bytes, ps, pe);
        proof {
            assert forall|v: Self, rest: Seq<u8>| v.wf() && (true) && v.body_bytes().len() <= 0xffff && bytes@ == #[trigger] (crate::packets::frame_bytes(6, 35, v.body_bytes()) + rest) implies (payload@ == v.body_bytes() && pe - ps == v.body_bytes().len() && pe == bytes@.len() - rest.len()) by { crate::packets::lemma_de_frame(bytes@, 6, 35, v.body_bytes(), rest); };
        }
        match Self::decode_body(payload.as_slice()) {
            Ok((p, consumed)) => Ok((p, ps + consumed)),
            Err(e) => Err(e),
        }
    }
}

/// Places a hold on a card for a maximum amount.
#[derive(Debug, PartialEq)]
pub struct Reservation {
    pub amount: Option<usize>,
    pub currency: Option<usize>,
    pub payment_type: Option<u8>,
    pub expiry_date: Option<usize>,
    pub card_number: Option<usize>,
    pub track_2_data: Option<String>,
    pub timeout: Option<u8>,
    pub maximum_no_of_status_info: Option<u8>,
    pub pump_no: Option<u8>,
    pub trace_number: Option<usize>,
    pub aid_authorization_attribute: Option<String>,
    pub additional_text: Option<String>,
    pub zvt_card_type: Option<u8>,
    pub tlv: Option<tlv::PreAuthData>,
}

impl Reservation {
    pub open spec fn wf(self) -> bool {
        &&& (match self.amount { Some(k) => encoding::bcd_bytes(k as nat).len() <= 6, None => true })
        &&& (match self.currency { Some(k) => encoding::bcd_bytes(k as nat).len() <= 2, None => true })
        &&& (match self.expiry_date { Some(k) => encoding::bcd_bytes(k as nat).len() <= 2, None => true })
        &&& (match self.card_number { Some(k) => encoding::bcd_bytes(k as nat).len() < length::pow10(2), None => true })
        &&& (match self.track_2_data { Some(ref k) => encoding::is_hex_ascii(vstd::utf8::encode_utf8(k@)) && vstd::utf8::encode_utf8(k@).len() < 2 * length::pow10(2), None => true })
        &&& (match self.trace_number { Some(k) => encoding::bcd_bytes(k as nat).len() <= 3, None => true })
        &&& (match self.aid_authorization_attribute { Some(ref k) => vstd::utf8::encode_utf8(k@).len() == 8, None => true })
        &&& (match self.additional_text { Some(ref k) => vstd::utf8::encode_utf8(k@).len() < length::pow10(3), None => true })
        &&& (match self.tlv { Some(ref k) => k.wf() && k.body_bytes().len() <= 0xffff, None => true })
    }

    pub open spec fn spec_fs(self) -> Seq<(u16, LengthSpec, Option<Seq<u8>>)> {
        seq![
            (0x4u16, LengthSpec::Fixed(6), (match self.amount { Some(k) => Some(fields::padded_region(LengthSpec::Fixed(6), encoding::bcd_bytes(k as nat))), None => None })),
            (0x49u16, LengthSpec::Fixed(2), (match self.currency { Some(k) => Some(fields::padded_region(LengthSpec::Fixed(2), encoding::bcd_bytes(k as nat))), None => None })),
            (0x19u16, LengthSpec::Unprefixed, crate::packets::tlv::opt_u8_region(self.payment_type)),
            (0xeu16, LengthSpec::Fixed(2), (match self.expiry_date { Some(k) => Some(fields::padded_region(LengthSpec::Fixed(2), encoding::bcd_bytes(k as nat))), None => None })),
            (0x22u16, LengthSpec::Llv(2), (match self.card_number { Some(k) => Some(encoding::bcd_bytes(k as nat)), None => None })),
            (0x23u16, LengthSpec::Llv(2), (match self.track_2_data { Some(ref k) => Some(encoding::hex_payload(vstd::utf8::encode_utf8(k@))), None => None })),
            (0x1u16, LengthSpec::Unprefixed, crate::packets::tlv::opt_u8_region(self.timeout)),
            (0x2u16, LengthSpec::Unprefixed, crate::packets::tlv::opt_u8_region(self.maximum_no_of_status_info)),
            (0x5u16, LengthSpec::Unprefixed, crate::packets::tlv::opt_u8_region(self.pump_no)),
            (0xbu16, LengthSpec::Fixed(3), (match self.trace_number { Some(k) => Some(fields::padded_region(LengthSpec::Fixed(3), encoding::bcd_bytes(k as nat))), None => None })),
            (0x3bu16, LengthSpec::Fixed(8), (match self.aid_authorization_attribute { Some(ref k) => Some(vstd::utf8::encode_utf8(k@)), None => None })),
            (0x3cu16, LengthSpec::Llv(3), (match self.additional_text { Some(ref k) => Some(vstd::utf8::encode_utf8(k@)), None => None })),
            (0x8au16, LengthSpec::Unprefixed, crate::packets::tlv::opt_u8_region(self.zvt_card_type)),
            (0x6u16, LengthSpec::Tlv, (match self.tlv { Some(ref k) => Some(k.body_bytes()), None => None })),
        ]
    }

    pub open spec fn body_bytes(self) -> Seq<u8> {
        fields::cat_opt_fields(self.spec_fs())
    }

    pub open spec fn spec_descs() -> Seq<FieldDesc> {
        seq![
            FieldDesc { tag: 0x4, len: LengthSpec::Fixed(6), width: 0, repeatable: false, required: false },
            FieldDesc { tag: 0x49, len: LengthSpec::Fixed(2), width: 0, repeatable: false, required: false },
            FieldDesc { tag: 0x19, len: LengthSpec::Unprefixed, width: 1, repeatable: false, required: false },
            FieldDesc { tag: 0xe, len: LengthSpec::Fixed(2), width: 0, repeatable: false, required: false },
            FieldDesc { tag: 0x22, len: LengthSpec::Llv(2), width: 0, repeatable: false, required: false },
            FieldDesc { tag: 0x23, len: LengthSpec::Llv(2), width: 0, repeatable: false, required: false },
            FieldDesc { tag: 0x1, len: LengthSpec::Unprefixed, width: 1, repeatable: false, required: false },
            FieldDesc { tag: 0x2, len: LengthSpec::Unprefixed, width: 1, repeatable: false, required: false },
            FieldDesc { tag: 0x5, len: LengthSpec::Unprefixed, width: 1, repeatable: false, required: false },
            FieldDesc { tag: 0xb, len: LengthSpec::Fixed(3), width: 0, repeatable: false, required: false },
            FieldDesc { tag: 0x3b, len: LengthSpec::Fixed(8), width: 0, repeatable: false, required: false },
            FieldDesc { tag: 0x3c, len: LengthSpec::Llv(3), width: 0, repeatable: false, required: false },
            FieldDesc { tag: 0x8a, len: LengthSpec::Unprefixed, width: 1, repeatable: false, required: false },
            FieldDesc { tag: 0x6, len: LengthSpec::Tlv, width: 0, repeatable: false, required: false },
        ]
    }

    fn descs() -> (r: Vec<FieldDesc>)
        ensures r@ == Self::spec_descs(),
    {
        let mut v: Vec<FieldDesc> = Vec::new();
        v.push(FieldDesc { tag: 0x4, len: LengthSpec::Fixed(6), width: 0, repeatable: false, required: false });
        v.push(FieldDesc { tag: 0x49, len: LengthSpec::Fixed(2), width: 0, repeatable: false, required: false });
        v.push(FieldDesc { tag: 0x19, len: LengthSpec::Unprefixed, width: 1, repeatable: false, required: false });
        v.push(FieldDesc { tag: 0xe, len: LengthSpec::Fixed(2), width: 0, repeatable: false, required: false });
        v.push(FieldDesc { tag: 0x22, len: LengthSpec::Llv(2), width: 0, repeatable: false, required: false });
        v.push(FieldDesc { tag: 0x23, len: LengthSpec::Llv(2), width: 0, repeatable: false, required: false });
        v.push(FieldDesc { tag: 0x1, len: LengthSpec::Unprefixed, width: 1, repeatable: false, required: false });
        v.push(FieldDesc { tag: 0x2, len: LengthSpec::Unprefixed, width: 1, repeatable: false, required: false });
        v.push(FieldDesc { tag: 0x5, len: LengthSpec::Unprefixed, width: 1, repeatable: false, required: false });
        v.push(FieldDesc { tag: 0xb, len: LengthSpec::Fixed(3), width: 0, repeatable: false, required: false });
        v.push(FieldDesc { tag: 0x3b, len: LengthSpec::Fixed(8), width: 0, repeatable: false, required: false });
        v.push(FieldDesc { tag: 0x3c, len: LengthSpec::Llv(3), width: 0, repeatable: false, required: false });
        v.push(FieldDesc { tag: 0x8a, len: LengthSpec::Unprefixed, width: 1, repeatable: false, required: false });
        v.push(FieldDesc { tag: 0x6, len: LengthSpec::Tlv, width: 0, repeatable: false, required: false });
        proof { assert(v@ =~= Self::spec_descs()); }
        v
    }

    #[verifier::rlimit(100)]
    #[verifier::spinoff_prover]
    proof fn lemma_meta(self)
        ensures
            fields::find_desc(Self::spec_descs(), 0x4) == Some(Self::spec_descs()[0]),
            encoding::tag_wf(0x4),
            fields::fs_lookup(self.spec_fs(), 0x4) == (match self.amount { Some(k) => Some(fields::padded_region(LengthSpec::Fixed(6), encoding::bcd_bytes(k as nat))), None => None }),
            fields::find_desc(Self::spec_descs(), 0x49) == Some(Self::spec_descs()[1]),
            encoding::tag_wf(0x49),
            fields::fs_lookup(self.spec_fs(), 0x49) == (match self.currency { Some(k) => Some(fields::padded_region(LengthSpec::Fixed(2), encoding::bcd_bytes(k as nat))), None => None }),
            fields::find_desc(Self::spec_descs(), 0x19) == Some(Self::spec_descs()[2]),
            encoding::tag_wf(0x19),
            fields::fs_lookup(self.spec_fs(), 0x19) == crate::packets::tlv::opt_u8_region(self.payment_type),
            fields::find_desc(Self::spec_descs(), 0xe) == Some(Self::spec_descs()[3]),
            encoding::tag_wf(0xe),
            fields::fs_lookup(self.spec_fs(), 0xe) == (match self.expiry_date { Some(k) => Some(fields::padded_region(LengthSpec::Fixed(2), encoding::bcd_bytes(k as nat))), None => None }),
            fields::find_desc(Self::spec_descs(), 0x22) == Some(Self::spec_descs()[4]),
            encoding::tag_wf(0x22),
            fields::fs_lookup(self.spec_fs(), 0x22) == (match self.card_number { Some(k) => Some(encoding::bcd_bytes(k as nat)), None => None }),
            fields::find_desc(Self::spec_descs(), 0x23) == Some(Self::spec_descs()[5]),
            encoding::tag_wf(0x23),
            fields::fs_lookup(self.spec_fs(), 0x23) == (match self.track_2_data { Some(ref k) => Some(encoding::hex_payload(vstd::utf8::encode_utf8(k@))), None => None }),
            fields::find_desc(Self::spec_descs(), 0x1) == Some(Self::spec_descs()[6]),
            encoding::tag_wf(0x1),
            fields::fs_lookup(self.spec_fs(), 0x1) == crate::packets::tlv::opt_u8_region(self.timeout),
            fields::find_desc(Self::spec_descs(), 0x2) == Some(Self::spec_descs()[7]),
            encoding::tag_wf(0x2),
            fields::fs_lookup(self.spec_fs(), 0x2) == crate::packets::tlv::opt_u8_region(self.maximum_no_of_status_info),
            fields::find_desc(Self::spec_descs(), 0x5) == Some(Self::spec_descs()[8]),
            encoding::tag_wf(0x5),
            fields::fs_lookup(self.spec_fs(), 0x5) == crate::packets::tlv::opt_u8_region(self.pump_no),
            fields::find_desc(Self::spec_descs(), 0xb) == Some(Self::spec_descs()[9]),
            encoding::tag_wf(0xb),
            fields::fs_lookup(self.spec_fs(), 0xb) == (match self.trace_number { Some(k) => Some(fields::padded_region(LengthSpec::Fixed(3), encoding::bcd_bytes(k as nat))), None => None }),
            fields::find_desc(Self::spec_descs(), 0x3b) == Some(Self::spec_descs()[10]),
            encoding::tag_wf(0x3b),
            fields::fs_lookup(self.spec_fs(), 0x3b) == (match self.aid_authorization_attribute { Some(ref k) => Some(vstd::utf8::encode_utf8(k@)), None => None }),
            fields::find_desc(Self::spec_descs(), 0x3c) == Some(Self::spec_descs()[11]),
            encoding::tag_wf(0x3c),
            fields::fs_lookup(self.spec_fs(), 0x3c) == (match self.additional_text { Some(ref k) => Some(vstd::utf8::encode_utf8(k@)), None => None }),
            fields::find_desc(Self::spec_descs(), 0x8a) == Some(Self::spec_descs()[12]),
            encoding::tag_wf(0x8a),
            fields::fs_lookup(self.spec_fs(), 0x8a) == crate::packets::tlv::opt_u8_region(self.zvt_card_type),
            fields::find_desc(Self::spec_descs(), 0x6) == Some(Self::spec_descs()[13]),
            encoding::tag_wf(0x6),
            fields::fs_lookup(self.spec_fs(), 0x6) == (match self.tlv { Some(ref k) => Some(k.body_bytes()), None => None }),
    {
        let ds = Self::spec_descs();
        let fs = self.spec_fs();
        let ds0 = ds; let fs0 = fs;
        let ds1 = ds0.drop_first(); let fs1 = fs0.drop_first();
        let ds2 = ds1.drop_first(); let fs2 = fs1.drop_first();
        let ds3 = ds2.drop_first(); let fs3 = fs2.drop_first();
        let ds4 = ds3.drop_first(); let fs4 = fs3.drop_first();
        let ds5 = ds4.drop_first(); let fs5 = fs4.drop_first();
        let ds6 = ds5.drop_first(); let fs6 = fs5.drop_first();
        let ds7 = ds6.drop_first(); let fs7 = fs6.drop_first();
        let ds8 = ds7.drop_first(); let fs8 = fs7.drop_first();
        let ds9 = ds8.drop_first(); let fs9 = fs8.drop_first();
        let ds10 = ds9.drop_first(); let fs10 = fs9.drop_first();
        let ds11 = ds10.drop_first(); let fs11 = fs10.drop_first();
        let ds12 = ds11.drop_first(); let fs12 = fs11.drop_first();
        let ds13 = ds12.drop_first(); let fs13 = fs12.drop_first();
        let ds14 = ds13.drop_first(); let fs14 = fs13.drop_first();
        assert(ds0[0] == ds[0]); assert(fs0[0] == fs[0]);
        assert(ds0.len() == 14); assert(fs0.len() == 14);
        assert(ds1[0] == ds[1]); assert(fs1[0] == fs[1]);
        assert(ds1.len() == 13); assert(fs1.len() == 13);
        assert(ds2[0] == ds[2]); assert(fs2[0] == fs[2]);
        assert(ds2.len() == 12); assert(fs2.len() == 12);
        assert(ds3[0] == ds[3]); assert(fs3[0] == fs[3]);
        assert(ds3.len() == 11); assert(fs3.len() == 11);
        assert(ds4[0] == ds[4]); assert(fs4[0] == fs[4]);
        assert(ds4.len() == 10); assert(fs4.len() == 10);
        assert(ds5[0] == ds[5]); assert(fs5[0] == fs[5]);
        assert(ds5.len() == 9); assert(fs5.len() == 9);
        assert(ds6[0] == ds[6]); assert(fs6[0] == fs[6]);
        assert(ds6.len() == 8); assert(fs6.len() == 8);
        assert(ds7[0] == ds[7]); assert(fs7[0] == fs[7]);
        assert(ds7.len() == 7); assert(fs7.len() == 7);
        assert(ds8[0] == ds[8]); assert(fs8[0] == fs[8]);
        assert(ds8.len() == 6); assert(fs8.len() == 6);
        assert(ds9[0] == ds[9]); assert(fs9[0] == fs[9]);
        assert(ds9.len() == 5); assert(fs9.len() == 5);
        assert(ds10[0] == ds[10]); assert(fs10[0] == fs[10]);
        assert(ds10.len() == 4); assert(fs10.len() == 4);
        assert(ds11[0] == ds[11]); assert(fs11[0] == fs[11]);
        assert(ds11.len() == 3); assert(fs11.len() == 3);
        assert(ds12[0] == ds[12]); assert(fs12[0] == fs[12]);
        assert(ds12.len() == 2); assert(fs12.len() == 2);
        assert(ds13[0] == ds[13]); assert(fs13[0] == fs[13]);
        assert(ds13.len() == 1); assert(fs13.len() == 1);
        assert(ds14 =~= Seq::<FieldDesc>::empty()); assert(fs14 =~= Seq::<(u16, LengthSpec, Option<Seq<u8>>)>::empty());
        fields::lemma_low5(0x1f);
        fields::lemma_low5(0x4);
        fields::lemma_low5(0x49);
        fields::lemma_low5(0x19);
        fields::lemma_low5(0xe);
        fields::lemma_low5(0x22);
        fields::lemma_low5(0x23);
        fields::lemma_low5(0x1);
        fields::lemma_low5(0x2);
        fields::lemma_low5(0x5);
        fields::lemma_low5(0xb);
        fields::lemma_low5(0x3b);
        fields::lemma_low5(0x3c);
        fields::lemma_low5(0x8a);
        fields::lemma_low5(0x6);
        assert(fields::find_desc(ds0, 0x4) == Some(ds[0]));
        assert(fields::find_desc(ds1, 0x49) == Some(ds[1]));
        assert(fields::find_desc(ds0, 0x49) == fields::find_desc(ds1, 0x49));
        assert(fields::find_desc(ds2, 0x19) == Some(ds[2]));
        assert(fields::find_desc(ds1, 0x19) == fields::find_desc(ds2, 0x19));
        assert(fields::find_desc(ds0, 0x19) == fields::find_desc(ds1, 0x19));
        assert(fields::find_desc(ds3, 0xe) == Some(ds[3]));
        assert(fields::find_desc(ds2, 0xe) == fields::find_desc(ds3, 0xe));
        assert(fields::find_desc(ds1, 0xe) == fields::find_desc(ds2, 0xe));
        assert(fields::find_desc(ds0, 0xe) == fields::find_desc(ds1, 0xe));
        assert(fields::find_desc(ds4, 0x22) == Some(ds[4]));
        assert(fields::find_desc(ds3, 0x22) == fields::find_desc(ds4, 0x22));
        assert(fields::find_desc(ds2, 0x22) == fields::find_desc(ds3, 0x22));
        assert(fields::find_desc(ds1, 0x22) == fields::find_desc(ds2, 0x22));
        assert(fields::find_desc(ds0, 0x22) == fields::find_desc(ds1, 0x22));
        assert(fields::find_desc(ds5, 0x23) == Some(ds[5]));
        assert(fields::find_desc(ds4, 0x23) == fields::find_desc(ds5, 0x23));
        assert(fields::find_desc(ds3, 0x23) == fields::find_desc(ds4, 0x23));
        assert(fields::find_desc(ds2, 0x23) == fields::find_desc(ds3, 0x23));
        assert(fields::find_desc(ds1, 0x23) == fields::find_desc(ds2, 0x23));
        assert(fields::find_desc(ds0, 0x23) == fields::find_desc(ds1, 0x23));
        assert(fields::find_desc(ds6, 0x1) == Some(ds[6]));
        assert(fields::find_desc(ds5, 0x1) == fields::find_desc(ds6, 0x1));
        assert(fields::find_desc(ds4, 0x1) == fields::find_desc(ds5, 0x1));
        assert(fields::find_desc(ds3, 0x1) == fields::find_desc(ds4, 0x1));
        assert(fields::find_desc(ds2, 0x1) == fields::find_desc(ds3, 0x1));
        assert(fields::find_desc(ds1, 0x1) == fields::find_desc(ds2, 0x1));
        assert(fields::find_desc(ds0, 0x1) == fields::find_desc(ds1, 0x1));
        assert(fields::find_desc(ds7, 0x2) == Some(ds[7]));
        assert(fields::find_desc(ds6, 0x2) == fields::find_desc(ds7, 0x2));
        assert(fields::find_desc(ds5, 0x2) == fields::find_desc(ds6, 0x2));
        assert(fields::find_desc(ds4, 0x2) == fields::find_desc(ds5, 0x2));
        assert(fields::find_desc(ds3, 0x2) == fields::find_desc(ds4, 0x2));
        assert(fields::find_desc(ds2, 0x2) == fields::find_desc(ds3, 0x2));
        assert(fields::find_desc(ds1, 0x2) == fields::find_desc(ds2, 0x2));
        assert(fields::find_desc(ds0, 0x2) == fields::find_desc(ds1, 0x2));
        assert(fields::find_desc(ds8, 0x5) == Some(ds[8]));
        assert(fields::find_desc(ds7, 0x5) == fields::find_desc(ds8, 0x5));
        assert(fields::find_desc(ds6, 0x5) == fields::find_desc(ds7, 0x5));
        assert(fields::find_desc(ds5, 0x5) == fields::find_desc(ds6, 0x5));
        assert(fields::find_desc(ds4, 0x5) == fields::find_desc(ds5, 0x5));
        assert(fields::find_desc(ds3, 0x5) == fields::find_desc(ds4, 0x5));
        assert(fields::find_desc(ds2, 0x5) == fields::find_desc(ds3, 0x5));
        assert(fields::find_desc(ds1, 0x5) == fields::find_desc(ds2, 0x5));
        assert(fields::find_desc(ds0, 0x5) == fields::find_desc(ds1, 0x5));
        assert(fields::find_desc(ds9, 0xb) == Some(ds[9]));
        assert(fields::find_desc(ds8, 0xb) == fields::find_desc(ds9, 0xb));
        assert(fields::find_desc(ds7, 0xb) == fields::find_desc(ds8, 0xb));
        assert(fields::find_desc(ds6, 0xb) == fields::find_desc(ds7, 0xb));
        assert(fields::find_desc(ds5, 0xb) == fields::find_desc(ds6, 0xb));
        assert(fields::find_desc(ds4, 0xb) == fields::find_desc(ds5, 0xb));
        assert(fields::find_desc(ds3, 0xb) == fields::find_desc(ds4, 0xb));
        assert(fields::find_desc(ds2, 0xb) == fields::find_desc(ds3, 0xb));
        assert(fields::find_desc(ds1, 0xb) == fields::find_desc(ds2, 0xb));
        assert(fields::find_desc(ds0, 0xb) == fields::find_desc(ds1, 0xb));
        assert(fields::find_desc(ds10, 0x3b) == Some(ds[10]));
        assert(fields::find_desc(ds9, 0x3b) == fields::find_desc(ds10, 0x3b));
        assert(fields::find_desc(ds8, 0x3b) == fields::find_desc(ds9, 0x3b));
        assert(fields::find_desc(ds7, 0x3b) == fields::find_desc(ds8, 0x3b));
        assert(fields::find_desc(ds6, 0x3b) == fields::find_desc(ds7, 0x3b));
        assert(fields::find_desc(ds5, 0x3b) == fields::find_desc(ds6, 0x3b));
        assert(fields::find_desc(ds4, 0x3b) == fields::find_desc(ds5, 0x3b));
        assert(fields::find_desc(ds3, 0x3b) == fields::find_desc(ds4, 0x3b));
        assert(fields::find_desc(ds2, 0x3b) == fields::find_desc(ds3, 0x3b));
        assert(fields::find_desc(ds1, 0x3b) == fields::find_desc(ds2, 0x3b));
        assert(fields::find_desc(ds0, 0x3b) == fields::find_desc(ds1, 0x3b));
        assert(fields::find_desc(ds11, 0x3c) == Some(ds[11]));
        assert(fields::find_desc(ds10, 0x3c) == fields::find_desc(ds11, 0x3c));
        assert(fields::find_desc(ds9, 0x3c) == fields::find_desc(ds10, 0x3c));
        assert(fields::find_desc(ds8, 0x3c) == fields::find_desc(ds9, 0x3c));
        assert(fields::find_desc(ds7, 0x3c) == fields::find_desc(ds8, 0x3c));
        assert(fields::find_desc(ds6, 0x3c) == fields::find_desc(ds7, 0x3c));
        assert(fields::find_desc(ds5, 0x3c) == fields::find_desc(ds6, 0x3c));
        assert(fields::find_desc(ds4, 0x3c) == fields::find_desc(ds5, 0x3c));
        assert(fields::find_desc(ds3, 0x3c) == fields::find_desc(ds4, 0x3c));
        assert(fields::find_desc(ds2, 0x3c) == fields::find_desc(ds3, 0x3c));
        assert(fields::find_desc(ds1, 0x3c) == fields::find_desc(ds2, 0x3c));
        assert(fields::find_desc(ds0, 0x3c) == fields::find_desc(ds1, 0x3c));
        assert(fields::find_desc(ds12, 0x8a) == Some(ds[12]));
        assert(fields::find_desc(ds11, 0x8a) == fields::find_desc(ds12, 0x8a));
        assert(fields::find_desc(ds10, 0x8a) == fields::find_desc(ds11, 0x8a));
        assert(fields::find_desc(ds9, 0x8a) == fields::find_desc(ds10, 0x8a));
        assert(fields::find_desc(ds8, 0x8a) == fields::find_desc(ds9, 0x8a));
        assert(fields::find_desc(ds7, 0x8a) == fields::find_desc(ds8, 0x8a));
        assert(fields::find_desc(ds6, 0x8a) == fields::find_desc(ds7, 0x8a));
        assert(fields::find_desc(ds5, 0x8a) == fields::find_desc(ds6, 0x8a));
        assert(fields::find_desc(ds4, 0x8a) == fields::find_desc(ds5, 0x8a));
        assert(fields::find_desc(ds3, 0x8a) == fields::find_desc(ds4, 0x8a));
        assert(fields::find_desc(ds2, 0x8a) == fields::find_desc(ds3, 0x8a));
        assert(fields::find_desc(ds1, 0x8a) == fields::find_desc(ds2, 0x8a));
        assert(fields::find_desc(ds0, 0x8a) == fields::find_desc(ds1, 0x8a));
        assert(fields::find_desc(ds13, 0x6) == Some(ds[13]));
        assert(fields::find_desc(ds12, 0x6) == fields::find_desc(ds13, 0x6));
        assert(fields::find_desc(ds11, 0x6) == fields::find_desc(ds12, 0x6));
        assert(fields::find_desc(ds10, 0x6) == fields::find_desc(ds11, 0x6));
        assert(fields::find_desc(ds9, 0x6) == fields::find_desc(ds10, 0x6));
        assert(fields::find_desc(ds8, 0x6) == fields::find_desc(ds9, 0x6));
        assert(fields::find_desc(ds7, 0x6) == fields::find_desc(ds8, 0x6));
        assert(fields::find_desc(ds6, 0x6) == fields::find_desc(ds7, 0x6));
        assert(fields::find_desc(ds5, 0x6) == fields::find_desc(ds6, 0x6));
        assert(fields::find_desc(ds4, 0x6) == fields::find_desc(ds5, 0x6));
        assert(fields::find_desc(ds3, 0x6) == fields::find_desc(ds4, 0x6));
        assert(fields::find_desc(ds2, 0x6) == fields::find_desc(ds3, 0x6));
        assert(fields::find_desc(ds1, 0x6) == fields::find_desc(ds2, 0x6));
        assert(fields::find_desc(ds0, 0x6) == fields::find_desc(ds1, 0x6));
        assert(fields::fs_lookup(fs14, 0x4) == None::<Seq<u8>>);
        assert(fields::fs_lookup(fs13, 0x4) == None::<Seq<u8>>);
        assert(fields::fs_lookup(fs12, 0x4) == None::<Seq<u8>>);
        assert(fields::fs_lookup(fs11, 0x4) == None::<Seq<u8>>);
        assert(fields::fs_lookup(fs10, 0x4) == None::<Seq<u8>>);
        assert(fields::fs_lookup(fs9, 0x4) == None::<Seq<u8>>);
        assert(fields::fs_lookup(fs8, 0x4) == None::<Seq<u8>>);
        assert(fields::fs_lookup(fs7, 0x4) == None::<Seq<u8>>);
        assert(fields::fs_lookup(fs6, 0x4) == None::<Seq<u8>>);
        assert(fields::fs_lookup(fs5, 0x4) == None::<Seq<u8>>);
        assert(fields::fs_lookup(fs4, 0x4) == None::<Seq<u8>>);
        assert(fields::fs_lookup(fs3, 0x4) == None::<Seq<u8>>);
        assert(fields::fs_lookup(fs2, 0x4) == None::<Seq<u8>>);
        assert(fields::fs_lookup(fs1, 0x4) == None::<Seq<u8>>);
        assert(fields::fs_lookup(fs0, 0x4) == (match self.amount { Some(k) => Some(fields::padded_region(LengthSpec::Fixed(6), encoding::bcd_bytes(k as nat))), None => None }));
        assert(fields::fs_lookup(fs14, 0x49) == None::<Seq<u8>>);
        assert(fields::fs_lookup(fs13, 0x49) == None::<Seq<u8>>);
        assert(fields::fs_lookup(fs12, 0x49) == None::<Seq<u8>>);
        assert(fields::fs_lookup(fs11, 0x49) == None::<Seq<u8>>);
        assert(fields::fs_lookup(fs10, 0x49) == None::<Seq<u8>>);
        assert(fields::fs_lookup(fs9, 0x49) == None::<Seq<u8>>);
        assert(fields::fs_lookup(fs8, 0x49) == None::<Seq<u8>>);
        assert(fields::fs_lookup(fs7, 0x49) == None::<Seq<u8>>);
        assert(fields::fs_lookup(fs6, 0x49) == None::<Seq<u8>>);
        assert(fields::fs_lookup(fs5, 0x49) == None::<Seq<u8>>);
        assert(fields::fs_lookup(fs4, 0x49) == None::<Seq<u8>>);
        assert(fields::fs_lookup(fs3, 0x49) == None::<Seq<u8>>);
        assert(fields::fs_lookup(fs2, 0x49) == None::<Seq<u8>>);
        assert(fields::fs_lookup(fs1, 0x49) == (match self.currency { Some(k) => Some(fields::padded_region(LengthSpec::Fixed(2), encoding::bcd_bytes(k as nat))), None => None }));
        assert(fields::fs_lookup(fs0, 0x49) == fields::fs_lookup(fs1, 0x49));
        assert(fields::fs_lookup(fs14, 0x19) == None::<Seq<u8>>);
        assert(fields::fs_lookup(fs13, 0x19) == None::<Seq<u8>>);
        assert(fields::fs_lookup(fs12, 0x19) == None::<Seq<u8>>);
        assert(fields::fs_lookup(fs11, 0x19) == None::<Seq<u8>>);
        assert(fields::fs_lookup(fs10, 0x19) == None::<Seq<u8>>);
        assert(fields::fs_lookup(fs9, 0x19) == None::<Seq<u8>>);
        assert(fields::fs_lookup(fs8, 0x19) == None::<Seq<u8>>);
        assert(fields::fs_lookup(fs7, 0x19) == None::<Seq<u8>>);
        assert(fields::fs_lookup(fs6, 0x19) == None::<Seq<u8>>);
        assert(fields::fs_lookup(fs5, 0x19) == None::<Seq<u8>>);
        assert(fields::fs_lookup(fs4, 0x19) == None::<Seq<u8>>);
        assert(fields::fs_lookup(fs3, 0x19) == None::<Seq<u8>>);
        assert(fields::fs_lookup(fs2, 0x19) == crate::packets::tlv::opt_u8_region(self.payment_type));
        assert(fields::fs_lookup(fs1, 0x19) == fields::fs_lookup(fs2, 0x19));
        assert(fields::fs_lookup(fs0, 0x19) == fields::fs_lookup(fs1, 0x19));
        assert(fields::fs_lookup(fs14, 0xe) == None::<Seq<u8>>);
        assert(fields::fs_lookup(fs13, 0xe) == None::<Seq<u8>>);
        assert(fields::fs_lookup(fs12, 0xe) == None::<Seq<u8>>);
        assert(fields::fs_lookup(fs11, 0xe) == None::<Seq<u8>>);
        assert(fields::fs_lookup(fs10, 0xe) == None::<Seq<u8>>);
        assert(fields::fs_lookup(fs9, 0xe) == None::<Seq<u8>>);
        assert(fields::fs_lookup(fs8, 0xe) == None::<Seq<u8>>);
        assert(fields::fs_lookup(fs7, 0xe) == None::<Seq<u8>>);
        assert(fields::fs_lookup(fs6, 0xe) == None::<Seq<u8>>);
        assert(fields::fs_lookup(fs5, 0xe) == None::<Seq<u8>>);
        assert(fields::fs_lookup(fs4, 0xe) == None::<Seq<u8>>);
        assert(fields::fs_lookup(fs3, 0xe) == (match self.expiry_date { Some(k) => Some(fields::padded_region(LengthSpec::Fixed(2), encoding::bcd_bytes(k as nat))), None => None }));
        assert(fields::fs_lookup(fs2, 0xe) == fields::fs_lookup(fs3, 0xe));
        assert(fields::fs_lookup(fs1, 0xe) == fields::fs_lookup(fs2, 0xe));
        assert(fields::fs_lookup(fs0, 0xe) == fields::fs_lookup(fs1, 0xe));
        assert(fields::fs_lookup(fs14, 0x22) == None::<Seq<u8>>);
        assert(fields::fs_lookup(fs13, 0x22) == None::<Seq<u8>>);
        assert(fields::fs_lookup(fs12, 0x22) == None::<Seq<u8>>);
        assert(fields::fs_lookup(fs11, 0x22) == None::<Seq<u8>>);
        assert(fields::fs_lookup(fs10, 0x22) == None::<Seq<u8>>);
        assert(fields::fs_lookup(fs9, 0x22) == None::<Seq<u8>>);
        assert(fields::fs_lookup(fs8, 0x22) == None::<Seq<u8>>);
        assert(fields::fs_lookup(fs7, 0x22) == None::<Seq<u8>>);
        assert(fields::fs_lookup(fs6, 0x22) == None::<Seq<u8>>);
        assert(fields::fs_lookup(fs5, 0x22) == None::<Seq<u8>>);
        assert(fields::fs_lookup(fs4, 0x22) == (match self.card_number { Some(k) => Some(encoding::bcd_bytes(k as nat)), None => None }));
        assert(fields::fs_lookup(fs3, 0x22) == fields::fs_lookup(fs4, 0x22));
        assert(fields::fs_lookup(fs2, 0x22) == fields::fs_lookup(fs3, 0x22));
        assert(fields::fs_lookup(fs1, 0x22) == fields::fs_lookup(fs2, 0x22));
        assert(fields::fs_lookup(fs0, 0x22) == fields::fs_lookup(fs1, 0x22));
        assert(fields::fs_lookup(fs14, 0x23) == None::<Seq<u8>>);
        assert(fields::fs_lookup(fs13, 0x23) == None::<Seq<u8>>);
        assert(fields::fs_lookup(fs12, 0x23) == None::<Seq<u8>>);
        assert(fields::fs_lookup(fs11, 0x23) == None::<Seq<u8>>);
        assert(fields::fs_lookup(fs10, 0x23) == None::<Seq<u8>>);
        assert(fields::fs_lookup(fs9, 0x23) == None::<Seq<u8>>);
        assert(fields::fs_lookup(fs8, 0x23) == None::<Seq<u8>>);
        assert(fields::fs_lookup(fs7, 0x23) == None::<Seq<u8>>);
        assert(fields::fs_lookup(fs6, 0x23) == None::<Seq<u8>>);
        assert(fields::fs_lookup(fs5, 0x23) == (match self.track_2_data { Some(ref k) => Some(encoding::hex_payload(vstd::utf8::encode_utf8(k@))), None => None }));
        assert(fields::fs_lookup(fs4, 0x23) == fields::fs_lookup(fs5, 0x23));
        assert(fields::fs_lookup(fs3, 0x23) == fields::fs_lookup(fs4, 0x23));
        assert(fields::fs_lookup(fs2, 0x23) == fields::fs_lookup(fs3, 0x23));
        assert(fields::fs_lookup(fs1, 0x23) == fields::fs_lookup(fs2, 0x23));
        assert(fields::fs_lookup(fs0, 0x23) == fields::fs_lookup(fs1, 0x23));
        assert(fields::fs_lookup(fs14, 0x1) == None::<Seq<u8>>);
        assert(fields::fs_lookup(fs13, 0x1) == None::<Seq<u8>>);
        assert(fields::fs_lookup(fs12, 0x1) == None::<Seq<u8>>);
        assert(fields::fs_lookup(fs11, 0x1) == None::<Seq<u8>>);
        assert(fields::fs_lookup(fs10, 0x1) == None::<Seq<u8>>);
        assert(fields::fs_lookup(fs9, 0x1) == None::<Seq<u8>>);
        assert(fields::fs_lookup(fs8, 0x1) == None::<Seq<u8>>);
        assert(fields::fs_lookup(fs7, 0x1) == None::<Seq<u8>>);
        assert(fields::fs_lookup(fs6, 0x1) == crate::packets::tlv::opt_u8_region(self.timeout));
        assert(fields::fs_lookup(fs5, 0x1) == fields::fs_lookup(fs6, 0x1));
        assert(fields::fs_lookup(fs4, 0x1) == fields::fs_lookup(fs5, 0x1));
        assert(fields::fs_lookup(fs3, 0x1) == fields::fs_lookup(fs4, 0x1));
        assert(fields::fs_lookup(fs2, 0x1) == fields::fs_lookup(fs3, 0x1));
        assert(fields::fs_lookup(fs1, 0x1) == fields::fs_lookup(fs2, 0x1));
        assert(fields::fs_lookup(fs0, 0x1) == fields::fs_lookup(fs1, 0x1));
        assert(fields::fs_lookup(fs14, 0x2) == None::<Seq<u8>>);
        assert(fields::fs_lookup(fs13, 0x2) == None::<Seq<u8>>);
        assert(fields::fs_lookup(fs12, 0x2) == None::<Seq<u8>>);
        assert(fields::fs_lookup(fs11, 0x2) == None::<Seq<u8>>);
        assert(fields::fs_lookup(fs10, 0x2) == None::<Seq<u8>>);
        assert(fields::fs_lookup(fs9, 0x2) == None::<Seq<u8>>);
        assert(fields::fs_lookup(fs8, 0x2) == None::<Seq<u8>>);
        assert(fields::fs_lookup(fs7, 0x2) == crate::packets::tlv::opt_u8_region(self.maximum_no_of_status_info));
        assert(fields::fs_lookup(fs6, 0x2) == fields::fs_lookup(fs7, 0x2));
        assert(fields::fs_lookup(fs5, 0x2) == fields::fs_lookup(fs6, 0x2));
        assert(fields::fs_lookup(fs4, 0x2) == fields::fs_lookup(fs5, 0x2));
        assert(fields::fs_lookup(fs3, 0x2) == fields::fs_lookup(fs4, 0x2));
        assert(fields::fs_lookup(fs2, 0x2) == fields::fs_lookup(fs3, 0x2));
        assert(fields::fs_lookup(fs1, 0x2) == fields::fs_lookup(fs2, 0x2));
        assert(fields::fs_lookup(fs0, 0x2) == fields::fs_lookup(fs1, 0x2));
        assert(fields::fs_lookup(fs14, 0x5) == None::<Seq<u8>>);
        assert(fields::fs_lookup(fs13, 0x5) == None::<Seq<u8>>);
        assert(fields::fs_lookup(fs12, 0x5) == None::<Seq<u8>>);
        assert(fields::fs_lookup(fs11, 0x5) == None::<Seq<u8>>);
        assert(fields::fs_lookup(fs10, 0x5) == None::<Seq<u8>>);
        assert(fields::fs_lookup(fs9, 0x5) == None::<Seq<u8>>);
        assert(fields::fs_lookup(fs8, 0x5) == crate::packets::tlv::opt_u8_region(self.pump_no));
        assert(fields::fs_lookup(fs7, 0x5) == fields::fs_lookup(fs8, 0x5));
        assert(fields::fs_lookup(fs6, 0x5) == fields::fs_lookup(fs7, 0x5));
        assert(fields::fs_lookup(fs5, 0x5) == fields::fs_lookup(fs6, 0x5));
        assert(fields::fs_lookup(fs4, 0x5) == fields::fs_lookup(fs5, 0x5));
        assert(fields::fs_lookup(fs3, 0x5) == fields::fs_lookup(fs4, 0x5));
        assert(fields::fs_lookup(fs2, 0x5) == fields::fs_lookup(fs3, 0x5));
        assert(fields::fs_lookup(fs1, 0x5) == fields::fs_lookup(fs2, 0x5));
        assert(fields::fs_lookup(fs0, 0x5) == fields::fs_lookup(fs1, 0x5));
        assert(fields::fs_lookup(fs14, 0xb) == None::<Seq<u8>>);
        assert(fields::fs_lookup(fs13, 0xb) == None::<Seq<u8>>);
        assert(fields::fs_lookup(fs12, 0xb) == None::<Seq<u8>>);
        assert(fields::fs_lookup(fs11, 0xb) == None::<Seq<u8>>);
        assert(fields::fs_lookup(fs10, 0xb) == None::<Seq<u8>>);
        assert(fields::fs_lookup(fs9, 0xb) == (match self.trace_number { Some(k) => Some(fields::padded_region(LengthSpec::Fixed(3), encoding::bcd_bytes(k as nat))), None => None }));
        assert(fields::fs_lookup(fs8, 0xb) == fields::fs_lookup(fs9, 0xb));
        assert(fields::fs_lookup(fs7, 0xb) == fields::fs_lookup(fs8, 0xb));
        assert(fields::fs_lookup(fs6, 0xb) == fields::fs_lookup(fs7, 0xb));
        assert(fields::fs_lookup(fs5, 0xb) == fields::fs_lookup(fs6, 0xb));
        assert(fields::fs_lookup(fs4, 0xb) == fields::fs_lookup(fs5, 0xb));
        assert(fields::fs_lookup(fs3, 0xb) == fields::fs_lookup(fs4, 0xb));
        assert(fields::fs_lookup(fs2, 0xb) == fields::fs_lookup(fs3, 0xb));
        assert(fields::fs_lookup(fs1, 0xb) == fields::fs_lookup(fs2, 0xb));
        assert(fields::fs_lookup(fs0, 0xb) == fields::fs_lookup(fs1, 0xb));
        assert(fields::fs_lookup(fs14, 0x3b) == None::<Seq<u8>>);
        assert(fields::fs_lookup(fs13, 0x3b) == None::<Seq<u8>>);
        assert(fields::fs_lookup(fs12, 0x3b) == None::<Seq<u8>>);
        assert(fields::fs_lookup(fs11, 0x3b) == None::<Seq<u8>>);
        assert(fields::fs_lookup(fs10, 0x3b) == (match self.aid_authorization_attribute { Some(ref k) => Some(vstd::utf8::encode_utf8(k@)), None => None }));
        assert(fields::fs_lookup(fs9, 0x3b) == fields::fs_lookup(fs10, 0x3b));
        assert(fields::fs_lookup(fs8, 0x3b) == fields::fs_lookup(fs9, 0x3b));
        assert(fields::fs_lookup(fs7, 0x3b) == fields::fs_lookup(fs8, 0x3b));
        assert(fields::fs_lookup(fs6, 0x3b) == fields::fs_lookup(fs7, 0x3b));
        assert(fields::fs_lookup(fs5, 0x3b) == fields::fs_lookup(fs6, 0x3b));
        assert(fields::fs_lookup(fs4, 0x3b) == fields::fs_lookup(fs5, 0x3b));
        assert(fields::fs_lookup(fs3, 0x3b) == fields::fs_lookup(fs4, 0x3b));
        assert(fields::fs_lookup(fs2, 0x3b) == fields::fs_lookup(fs3, 0x3b));
        assert(fields::fs_lookup(fs1, 0x3b) == fields::fs_lookup(fs2, 0x3b));
        assert(fields::fs_lookup(fs0, 0x3b) == fields::fs_lookup(fs1, 0x3b));
        assert(fields::fs_lookup(fs14, 0x3c) == None::<Seq<u8>>);
        assert(fields::fs_lookup(fs13, 0x3c) == None::<Seq<u8>>);
        assert(fields::fs_lookup(fs12, 0x3c) == None::<Seq<u8>>);
        assert(fields::fs_lookup(fs11, 0x3c) == (match self.additional_text { Some(ref k) => Some(vstd::utf8::encode_utf8(k@)), None => None }));
        assert(fields::fs_lookup(fs10, 0x3c) == fields::fs_lookup(fs11, 0x3c));
        assert(fields::fs_lookup(fs9, 0x3c) == fields::fs_lookup(fs10, 0x3c));
        assert(fields::fs_lookup(fs8, 0x3c) == fields::fs_lookup(fs9, 0x3c));
        assert(fields::fs_lookup(fs7, 0x3c) == fields::fs_lookup(fs8, 0x3c));
        assert(fields::fs_lookup(fs6, 0x3c) == fields::fs_lookup(fs7, 0x3c));
        assert(fields::fs_lookup(fs5, 0x3c) == fields::fs_lookup(fs6, 0x3c));
        assert(fields::fs_lookup(fs4, 0x3c) == fields::fs_lookup(fs5, 0x3c));
        assert(fields::fs_lookup(fs3, 0x3c) == fields::fs_lookup(fs4, 0x3c));
        assert(fields::fs_lookup(fs2, 0x3c) == fields::fs_lookup(fs3, 0x3c));
        assert(fields::fs_lookup(fs1, 0x3c) == fields::fs_lookup(fs2, 0x3c));
        assert(fields::fs_lookup(fs0, 0x3c) == fields::fs_lookup(fs1, 0x3c));
        assert(fields::fs_lookup(fs14, 0x8a) == None::<Seq<u8>>);
        assert(fields::fs_lookup(fs13, 0x8a) == None::<Seq<u8>>);
        assert(fields::fs_lookup(fs12, 0x8a) == crate::packets::tlv::opt_u8_region(self.zvt_card_type));
        assert(fields::fs_lookup(fs11, 0x8a) == fields::fs_lookup(fs12, 0x8a));
        assert(fields::fs_lookup(fs10, 0x8a) == fields::fs_lookup(fs11, 0x8a));
        assert(fields::fs_lookup(fs9, 0x8a) == fields::fs_lookup(fs10, 0x8a));
        assert(fields::fs_lookup(fs8, 0x8a) == fields::fs_lookup(fs9, 0x8a));
        assert(fields::fs_lookup(fs7, 0x8a) == fields::fs_lookup(fs8, 0x8a));
        assert(fields::fs_lookup(fs6, 0x8a) == fields::fs_lookup(fs7, 0x8a));
        assert(fields::fs_lookup(fs5, 0x8a) == fields::fs_lookup(fs6, 0x8a));
        assert(fields::fs_lookup(fs4, 0x8a) == fields::fs_lookup(fs5, 0x8a));
        assert(fields::fs_lookup(fs3, 0x8a) == fields::fs_lookup(fs4, 0x8a));
        assert(fields::fs_lookup(fs2, 0x8a) == fields::fs_lookup(fs3, 0x8a));
        assert(fields::fs_lookup(fs1, 0x8a) == fields::fs_lookup(fs2, 0x8a));
        assert(fields::fs_lookup(fs0, 0x8a) == fields::fs_lookup(fs1, 0x8a));
        assert(fields::fs_lookup(fs14, 0x6) == None::<Seq<u8>>);
        assert(fields::fs_lookup(fs13, 0x6) == (match self.tlv { Some(ref k) => Some(k.body_bytes()), None => None }));
        assert(fields::fs_lookup(fs12, 0x6) == fields::fs_lookup(fs13, 0x6));
        assert(fields::fs_lookup(fs11, 0x6) == fields::fs_lookup(fs12, 0x6));
        assert(fields::fs_lookup(fs10, 0x6) == fields::fs_lookup(fs11, 0x6));
        assert(fields::fs_lookup(fs9, 0x6) == fields::fs_lookup(fs10, 0x6));
        assert(fields::fs_lookup(fs8, 0x6) == fields::fs_lookup(fs9, 0x6));
        assert(fields::fs_lookup(fs7, 0x6) == fields::fs_lookup(fs8, 0x6));
        assert(fields::fs_lookup(fs6, 0x6) == fields::fs_lookup(fs7, 0x6));
        assert(fields::fs_lookup(fs5, 0x6) == fields::fs_lookup(fs6, 0x6));
        assert(fields::fs_lookup(fs4, 0x6) == fields::fs_lookup(fs5, 0x6));
        assert(fields::fs_lookup(fs3, 0x6) == fields::fs_lookup(fs4, 0x6));
        assert(fields::fs_lookup(fs2, 0x6) == fields::fs_lookup(fs3, 0x6));
        assert(fields::fs_lookup(fs1, 0x6) == fields::fs_lookup(fs2, 0x6));
        assert(fields::fs_lookup(fs0, 0x6) == fields::fs_lookup(fs1, 0x6));
    }

    #[verifier::rlimit(100)]
    #[verifier::spinoff_prover]
    pub proof fn lemma_body_parses(self, s: Seq<u8>)
        requires self.wf(), s == self.body_bytes(), s.len() <= usize::MAX,
        ensures
            fields::spec_parse_fields(s, self.pos_len(), Self::spec_descs(), seq![], seq![]) == Ok::<_, ErrorView>((fields::cat_opt_entries(self.spec_fs()), s.len() as int)),
            self.pos_len() + fields::cat_opt_fields(self.spec_fs()).len() == s.len(),
    {
        let ds = Self::spec_descs();
        let fs = self.spec_fs();
        self.lemma_meta();
        let p0 = self.pos_len();
        assert(p0 == 0);
        assert(s.subrange(0, fields::cat_opt_fields(fs).len() as int) =~= fields::cat_opt_fields(fs));
        assert(fields::fs_ok(fs, ds, seq![])) by {
            assert forall|j: int| 0 <= j < fs.len() && (#[trigger] fs[j]).2 is Some implies {
                &&& encoding::tag_wf(fs[j].0)
                &&& fields::find_desc(ds, fs[j].0) matches Some(d) && d.len == fs[j].1 && fields::region_wf(d.len, d.width as int, fs[j].2.unwrap().len() as int) && (d.repeatable || (!seq![].contains(fs[j].0) && forall|i: int| 0 <= i < j ==> (#[trigger] fs[i]).0 != fs[j].0))
            } by {
                if j == 0 { assert(fs[0].0 == 0x4); }
                if j == 1 { assert(fs[1].0 == 0x49); }
                if j == 2 { assert(fs[2].0 == 0x19); }
                if j == 3 { assert(fs[3].0 == 0xe); }
                if j == 4 { assert(fs[4].0 == 0x22); }
                if j == 5 { assert(fs[5].0 == 0x23); match self.track_2_data { Some(ref x) => { encoding::lemma_hex_ascii_payload(vstd::utf8::encode_utf8(x@)); }, None => {} } }
                if j == 6 { assert(fs[6].0 == 0x1); }
                if j == 7 { assert(fs[7].0 == 0x2); }
                if j == 8 { assert(fs[8].0 == 0x5); }
                if j == 9 { assert(fs[9].0 == 0xb); }
                if j == 10 { assert(fs[10].0 == 0x3b); }
                if j == 11 { assert(fs[11].0 == 0x3c); }
                if j == 12 { assert(fs[12].0 == 0x8a); }
                if j == 13 { assert(fs[13].0 == 0x6); }
            };
        };
        fields::lemma_parse_cat(s, p0, ds, seq![], seq![], fs);
        fields::lemma_parse_fields_stop(s, s.len() as int, ds, seq![] + fields::present_tags(fs), seq![] + fields::cat_opt_entries(fs));
        let seen = seq![] + fields::present_tags(fs);
        assert(seen =~= fields::present_tags(fs));
        assert forall|kk: int| 0 <= kk < ds.len() implies !(#[trigger] ds[kk]).required || seen.contains(ds[kk].tag) by {
            if kk == 0 { assert(!ds[0].required); }
            if kk == 1 { assert(!ds[1].required); }
            if kk == 2 { assert(!ds[2].required); }
            if kk == 3 { assert(!ds[3].required); }
            if kk == 4 { assert(!ds[4].required); }
            if kk == 5 { assert(!ds[5].required); }
            if kk == 6 { assert(!ds[6].required); }
            if kk == 7 { assert(!ds[7].required); }
            if kk == 8 { assert(!ds[8].required); }
            if kk == 9 { assert(!ds[9].required); }
            if kk == 10 { assert(!ds[10].required); }
            if kk == 11 { assert(!ds[11].required); }
            if kk == 12 { assert(!ds[12].required); }
            if kk == 13 { assert(!ds[13].required); }
        };
        fields::lemma_finish_ok(ds, seen, seq![] + fields::cat_opt_entries(fs), s.len() as int);
        assert(seq![] + fields::cat_opt_entries(fs) =~= fields::cat_opt_entries(fs));
    }

    pub open spec fn pos_len(self) -> int {
        0
    }

    pub open spec fn eqv(a: Self, b: Self) -> bool {
        &&& a.amount == b.amount
        &&& a.currency == b.currency
        &&& a.payment_type == b.payment_type
        &&& a.expiry_date == b.expiry_date
        &&& a.card_number == b.card_number
        &&& (match (a.track_2_data, b.track_2_data) { (Some(x), Some(y)) => x@ == y@, (None, None) => true, _ => false })
        &&& a.timeout == b.timeout
        &&& a.maximum_no_of_status_info == b.maximum_no_of_status_info
        &&& a.pump_no == b.pump_no
        &&& a.trace_number == b.trace_number
        &&& (match (a.aid_authorization_attribute, b.aid_authorization_attribute) { (Some(x), Some(y)) => x@ == y@, (None, None) => true, _ => false })
        &&& (match (a.additional_text, b.additional_text) { (Some(x), Some(y)) => x@ == y@, (None, None) => true, _ => false })
        &&& a.zvt_card_type == b.zvt_card_type
        &&& (match (a.tlv, b.tlv) { (Some(x), Some(y)) => tlv::PreAuthData::eqv(x, y), (None, None) => true, _ => false })
    }

    #[verifier::rlimit(100)]
    #[verifier::spinoff_prover]
    pub fn encode_body(&self) -> (r: Vec<u8>)
        requires self.wf(),
        ensures r@ == self.body_bytes(),
    {
        let ghost gfs = self.spec_fs();
        let mut out: Vec<u8> = Vec::new();
        { let mut part = self.encode_part0(); out.append(&mut part); }
        proof { assert(out@ =~= self.spec_part0()); }
        { let mut part = self.encode_part1(); out.append(&mut part); }
        proof { assert(out@ =~= self.spec_part0() + self.spec_part1()); }
        { let mut part = self.encode_part2(); out.append(&mut part); }
        proof { assert(out@ =~= self.spec_part0() + self.spec_part1() + self.spec_part2()); }
        { let mut part = self.encode_part3(); out.append(&mut part); }
        proof { assert(out@ =~= self.spec_part0() + self.spec_part1() + self.spec_part2() + self.spec_part3()); }
        proof {
            self.lemma_split();
            assert(out@ =~= self.body_bytes());
        }
        out
    }

    /// The serialized slices of the tagged section are the whole.
    pub proof fn lemma_split(self)
        ensures self.spec_part0() + self.spec_part1() + self.spec_part2() + self.spec_part3() == fields::cat_opt_fields(self.spec_fs()),
    {
        let fs = self.spec_fs();
        fields::lemma_cat_opt_fields_split(fs.subrange(0, 14), 4);
        assert(fs.subrange(0, 14).subrange(0, 4) =~= fs.subrange(0, 4));
        assert(fs.subrange(0, 14).subrange(4, fs.subrange(0, 14).len() as int) =~= fs.subrange(4, 14));
        fields::lemma_cat_opt_fields_split(fs.subrange(4, 14), 4);
        assert(fs.subrange(4, 14).subrange(0, 4) =~= fs.subrange(4, 8));
        assert(fs.subrange(4, 14).subrange(4, fs.subrange(4, 14).len() as int) =~= fs.subrange(8, 14));
        fields::lemma_cat_opt_fields_split(fs.subrange(8, 14), 4);
        assert(fs.subrange(8, 14).subrange(0, 4) =~= fs.subrange(8, 12));
        assert(fs.subrange(8, 14).subrange(4, fs.subrange(8, 14).len() as int) =~= fs.subrange(12, 14));
        assert(fs.subrange(0, 14) =~= fs);
    }

    pub open spec fn spec_part0(self) -> Seq<u8> {
        fields::cat_opt_fields(self.spec_fs().subrange(0, 4))
    }

    #[verifier::rlimit(100)]
    #[verifier::spinoff_prover]
    fn encode_part0(&self) -> (r: Vec<u8>)
        requires self.wf(),
        ensures r@ == self.spec_part0(),
    {
        let ghost gfs = self.spec_fs();
        let ghost gp = self.spec_fs().subrange(0, 4);
        let mut out: Vec<u8> = Vec::new();
        match self.amount { Some(k) => { let region = fields::pad_fixed(encoding::enc_bcd(k), 6); fields::ser_field(&mut out, Some(Tag(0x4)), LengthSpec::Fixed(6), &region); }, None => {} }
        proof { assert(out@ =~= fields::opt_field_bytes(gfs[0].0, gfs[0].1, gfs[0].2)); }
        match self.currency { Some(k) => { let region = fields::pad_fixed(encoding::enc_bcd(k), 2); fields::ser_field(&mut out, Some(Tag(0x49)), LengthSpec::Fixed(2), &region); }, None => {} }
        proof { assert(out@ =~= fields::opt_field_bytes(gfs[0].0, gfs[0].1, gfs[0].2) + fields::opt_field_bytes(gfs[1].0, gfs[1].1, gfs[1].2)); }
        match self.payment_type { Some(k) => { let region = encoding::enc_u8(k); fields::ser_field(&mut out, Some(Tag(0x19)), LengthSpec::Unprefixed, &region); }, None => {} }
        proof { assert(out@ =~= fields::opt_field_bytes(gfs[0].0, gfs[0].1, gfs[0].2) + fields::opt_field_bytes(gfs[1].0, gfs[1].1, gfs[1].2) + fields::opt_field_bytes(gfs[2].0, gfs[2].1, gfs[2].2)); }
        match self.expiry_date { Some(k) => { let region = fields::pad_fixed(encoding::enc_bcd(k), 2); fields::ser_field(&mut out, Some(Tag(0xe)), LengthSpec::Fixed(2), &region); }, None => {} }
        proof { assert(out@ =~= fields::opt_field_bytes(gfs[0].0, gfs[0].1, gfs[0].2) + fields::opt_field_bytes(gfs[1].0, gfs[1].1, gfs[1].2) + fields::opt_field_bytes(gfs[2].0, gfs[2].1, gfs[2].2) + fields::opt_field_bytes(gfs[3].0, gfs[3].1, gfs[3].2)); }
        proof {
        let gp0 = gp;
        let gp1 = gp0.drop_first();
        let gp2 = gp1.drop_first();
        let gp3 = gp2.drop_first();
        let gp4 = gp3.drop_first();
        assert(fields::cat_opt_fields(gp0) == fields::opt_field_bytes(gp0[0].0, gp0[0].1, gp0[0].2) + fields::cat_opt_fields(gp1)); assert(gp0[0] == gfs[0]);
        assert(fields::cat_opt_fields(gp1) == fields::opt_field_bytes(gp1[0].0, gp1[0].1, gp1[0].2) + fields::cat_opt_fields(gp2)); assert(gp1[0] == gfs[1]);
        assert(fields::cat_opt_fields(gp2) == fields::opt_field_bytes(gp2[0].0, gp2[0].1, gp2[0].2) + fields::cat_opt_fields(gp3)); assert(gp2[0] == gfs[2]);
        assert(fields::cat_opt_fields(gp3) == fields::opt_field_bytes(gp3[0].0, gp3[0].1, gp3[0].2) + fields::cat_opt_fields(gp4)); assert(gp3[0] == gfs[3]);
        assert(fields::cat_opt_fields(gp4) =~= Seq::<u8>::empty());
        assert(out@ =~= self.spec_part0());
        }
        out
    }

    pub open spec fn spec_part1(self) -> Seq<u8> {
        fields::cat_opt_fields(self.spec_fs().subrange(4, 8))
    }

    #[verifier::rlimit(100)]
    #[verifier::spinoff_prover]
    fn encode_part1(&self) -> (r: Vec<u8>)
        requires self.wf(),
        ensures r@ == self.spec_part1(),
    {
        let ghost gfs = self.spec_fs();
        let ghost gp = self.spec_fs().subrange(4, 8);
        let mut out: Vec<u8> = Vec::new();
        match self.card_number { Some(k) => { let region = encoding::enc_bcd(k); fields::ser_field(&mut out, Some(Tag(0x22)), LengthSpec::Llv(2), &region); }, None => {} }
        proof { assert(out@ =~= fields::opt_field_bytes(gfs[4].0, gfs[4].1, gfs[4].2)); }
        match self.track_2_data { Some(ref k) => { let region = encoding::enc_hex(k.as_str()); proof { encoding::lemma_hex_ascii_len(region@); encoding::lemma_hex_payload_roundtrip(region@); } fields::ser_field(&mut out, Some(Tag(0x23)), LengthSpec::Llv(2), &region); }, None => {} }
        proof { assert(out@ =~= fields::opt_field_bytes(gfs[4].0, gfs[4].1, gfs[4].2) + fields::opt_field_bytes(gfs[5].0, gfs[5].1, gfs[5].2)); }
        match self.timeout { Some(k) => { let region = encoding::enc_u8(k); fields::ser_field(&mut out, Some(Tag(0x1)), LengthSpec::Unprefixed, &region); }, None => {} }
        proof { assert(out@ =~= fields::opt_field_bytes(gfs[4].0, gfs[4].1, gfs[4].2) + fields::opt_field_bytes(gfs[5].0, gfs[5].1, gfs[5].2) + fields::opt_field_bytes(gfs[6].0, gfs[6].1, gfs[6].2)); }
        match self.maximum_no_of_status_info { Some(k) => { let region = encoding::enc_u8(k); fields::ser_field(&mut out, Some(Tag(0x2)), LengthSpec::Unprefixed, &region); }, None => {} }
        proof { assert(out@ =~= fields::opt_field_bytes(gfs[4].0, gfs[4].1, gfs[4].2) + fields::opt_field_bytes(gfs[5].0, gfs[5].1, gfs[5].2) + fields::opt_field_bytes(gfs[6].0, gfs[6].1, gfs[6].2) + fields::opt_field_bytes(gfs[7].0, gfs[7].1, gfs[7].2)); }
        proof {
        let gp0 = gp;
        let gp1 = gp0.drop_first();
        let gp2 = gp1.drop_first();
        let gp3 = gp2.drop_first();
        let gp4 = gp3.drop_first();
        assert(fields::cat_opt_fields(gp0) == fields::opt_field_bytes(gp0[0].0, gp0[0].1, gp0[0].2) + fields::cat_opt_fields(gp1)); assert(gp0[0] == gfs[4]);
        assert(fields::cat_opt_fields(gp1) == fields::opt_field_bytes(gp1[0].0, gp1[0].1, gp1[0].2) + fields::cat_opt_fields(gp2)); assert(gp1[0] == gfs[5]);
        assert(fields::cat_opt_fields(gp2) == fields::opt_field_bytes(gp2[0].0, gp2[0].1, gp2[0].2) + fields::cat_opt_fields(gp3)); assert(gp2[0] == gfs[6]);
        assert(fields::cat_opt_fields(gp3) == fields::opt_field_bytes(gp3[0].0, gp3[0].1, gp3[0].2) + fields::cat_opt_fields(gp4)); assert(gp3[0] == gfs[7]);
        assert(fields::cat_opt_fields(gp4) =~= Seq::<u8>::empty());
        assert(out@ =~= self.spec_part1());
        }
        out
    }

    pub open spec fn spec_part2(self) -> Seq<u8> {
        fields::cat_opt_fields(self.spec_fs().subrange(8, 12))
    }

    #[verifier::rlimit(100)]
    #[verifier::spinoff_prover]
    fn encode_part2(&self) -> (r: Vec<u8>)
        requires self.wf(),
        ensures r@ == self.spec_part2(),
    {
        let ghost gfs = self.spec_fs();
        let ghost gp = self.spec_fs().subrange(8, 12);
        let mut out: Vec<u8> = Vec::new();
        match self.pump_no { Some(k) => { let region = encoding::enc_u8(k); fields::ser_field(&mut out, Some(Tag(0x5)), LengthSpec::Unprefixed, &region); }, None => {} }
        proof { assert(out@ =~= fields::opt_field_bytes(gfs[8].0, gfs[8].1, gfs[8].2)); }
        match self.trace_number { Some(k) => { let region = fields::pad_fixed(encoding::enc_bcd(k), 3); fields::ser_field(&mut out, Some(Tag(0xb)), LengthSpec::Fixed(3), &region); }, None => {} }
        proof { assert(out@ =~= fields::opt_field_bytes(gfs[8].0, gfs[8].1, gfs[8].2) + fields::opt_field_bytes(gfs[9].0, gfs[9].1, gfs[9].2)); }
        match self.aid_authorization_attribute { Some(ref k) => { let region = fields::pad_fixed(encoding::str_bytes(k.as_str()), 8); fields::ser_field(&mut out, Some(Tag(0x3b)), LengthSpec::Fixed(8), &region); }, None => {} }
        proof { assert(out@ =~= fields::opt_field_bytes(gfs[8].0, gfs[8].1, gfs[8].2) + fields::opt_field_bytes(gfs[9].0, gfs[9].1, gfs[9].2) + fields::opt_field_bytes(gfs[10].0, gfs[10].1, gfs[10].2)); }
        match self.additional_text { Some(ref k) => { let region = encoding::str_bytes(k.as_str()); fields::ser_field(&mut out, Some(Tag(0x3c)), LengthSpec::Llv(3), &region); }, None => {} }
        proof { assert(out@ =~= fields::opt_field_bytes(gfs[8].0, gfs[8].1, gfs[8].2) + fields::opt_field_bytes(gfs[9].0, gfs[9].1, gfs[9].2) + fields::opt_field_bytes(gfs[10].0, gfs[10].1, gfs[10].2) + fields::opt_field_bytes(gfs[11].0, gfs[11].1, gfs[11].2)); }
        proof {
        let gp0 = gp;
        let gp1 = gp0.drop_first();
        let gp2 = gp1.drop_first();
        let gp3 = gp2.drop_first();
        let gp4 = gp3.drop_first();
        assert(fields::cat_opt_fields(gp0) == fields::opt_field_bytes(gp0[0].0, gp0[0].1, gp0[0].2) + fields::cat_opt_fields(gp1)); assert(gp0[0] == gfs[8]);
        assert(fields::cat_opt_fields(gp1) == fields::opt_field_bytes(gp1[0].0, gp1[0].1, gp1[0].2) + fields::cat_opt_fields(gp2)); assert(gp1[0] == gfs[9]);
        assert(fields::cat_opt_fields(gp2) == fields::opt_field_bytes(gp2[0].0, gp2[0].1, gp2[0].2) + fields::cat_opt_fields(gp3)); assert(gp2[0] == gfs[10]);
        assert(fields::cat_opt_fields(gp3) == fields::opt_field_bytes(gp3[0].0, gp3[0].1, gp3[0].2) + fields::cat_opt_fields(gp4)); assert(gp3[0] == gfs[11]);
        assert(fields::cat_opt_fields(gp4) =~= Seq::<u8>::empty());
        assert(out@ =~= self.spec_part2());
        }
        out
    }

    pub open spec fn spec_part3(self) -> Seq<u8> {
        fields::cat_opt_fields(self.spec_fs().subrange(12, 14))
    }

    #[verifier::rlimit(100)]
    #[verifier::spinoff_prover]
    fn encode_part3(&self) -> (r: Vec<u8>)
        requires self.wf(),
        ensures r@ == self.spec_part3(),
    {
        let ghost gfs = self.spec_fs();
        let ghost gp = self.spec_fs().subrange(12, 14);
        let mut out: Vec<u8> = Vec::new();
        match self.zvt_card_type { Some(k) => { let region = encoding::enc_u8(k); fields::ser_field(&mut out, Some(Tag(0x8a)), LengthSpec::Unprefixed, &region); }, None => {} }
        proof { assert(out@ =~= fields::opt_field_bytes(gfs[12].0, gfs[12].1, gfs[12].2)); }
        match self.tlv { Some(ref k) => { let region = k.encode_body(); fields::ser_field(&mut out, Some(Tag(0x6)), LengthSpec::Tlv, &region); }, None => {} }
        proof { assert(out@ =~= fields::opt_field_bytes(gfs[12].0, gfs[12].1, gfs[12].2) + fields::opt_field_bytes(gfs[13].0, gfs[13].1, gfs[13].2)); }
        proof {
        let gp0 = gp;
        let gp1 = gp0.drop_first();
        let gp2 = gp1.drop_first();
        assert(fields::cat_opt_fields(gp0) == fields::opt_field_bytes(gp0[0].0, gp0[0].1, gp0[0].2) + fields::cat_opt_fields(gp1)); assert(gp0[0] == gfs[12]);
        assert(fields::cat_opt_fields(gp1) == fields::opt_field_bytes(gp1[0].0, gp1[0].1, gp1[0].2) + fields::cat_opt_fields(gp2)); assert(gp1[0] == gfs[13]);
        assert(fields::cat_opt_fields(gp2) =~= Seq::<u8>::empty());
        assert(out@ =~= self.spec_part3());
        }
        out
    }

    #[verifier::rlimit(100)]
    #[verifier::spinoff_prover]
    pub fn decode_body(bytes: &[u8]) -> (r: ZVTResult<(Self, usize)>)
        ensures
            r matches Ok(v) ==> v.1 <= bytes@.len(),
            forall|v: Self|
                v.wf() && (true) && bytes@ == #[trigger] v.body_bytes() ==> (r matches Ok(o) && Reservation::eqv(o.0, v)
                    && o.1 == bytes@.len()),
    {
        let blen_e = bytes.len();
        proof { assert(bytes@.len() <= usize::MAX); }
        proof {
            assert forall|v: Self| v.wf() && (true) && bytes@ == #[trigger] v.body_bytes() implies Reservation::master_facts(v, bytes@) by { Reservation::lemma_master(v, bytes@); };
        }
        let mut p: usize = 0;
        let descs = Self::descs();
        let parsed = fields::parse_tagged_fields(bytes, p, &descs);
        let (entries, pos_end) = match parsed { Ok(v) => v, Err(e) => { return Err(e); } };
        let f_amount = fields::entry_opt_usize_bcd(&entries, 0x4);
        let f_currency = fields::entry_opt_usize_bcd(&entries, 0x49);
        let f_payment_type = match fields::entry_opt_u8(&entries, 0x19) { Ok(v) => v, Err(e) => { return Err(e); } };
        let f_expiry_date = fields::entry_opt_usize_bcd(&entries, 0xe);
        let f_card_number = fields::entry_opt_usize_bcd(&entries, 0x22);
        let f_track_2_data = match fields::entry_opt_string(&entries, 0x23, true) { Ok(v) => v, Err(e) => { return Err(e); } };
        let f_timeout = match fields::entry_opt_u8(&entries, 0x1) { Ok(v) => v, Err(e) => { return Err(e); } };
        let f_maximum_no_of_status_info = match fields::entry_opt_u8(&entries, 0x2) { Ok(v) => v, Err(e) => { return Err(e); } };
        let f_pump_no = match fields::entry_opt_u8(&entries, 0x5) { Ok(v) => v, Err(e) => { return Err(e); } };
        let f_trace_number = fields::entry_opt_usize_bcd(&entries, 0xb);
        let f_aid_authorization_attribute = match fields::entry_opt_string(&entries, 0x3b, false) { Ok(v) => v, Err(e) => { return Err(e); } };
        let f_additional_text = match fields::entry_opt_string(&entries, 0x3c, false) { Ok(v) => v, Err(e) => { return Err(e); } };
        let f_zvt_card_type = match fields::entry_opt_u8(&entries, 0x8a) { Ok(v) => v, Err(e) => { return Err(e); } };
        let f_tlv = match fields::find_payload(&entries, 0x6) { None => None, Some(pl) => match tlv::PreAuthData::decode_body(pl.as_slice()) { Ok(v) => Some(v.0), Err(e) => { return Err(e); } } };
        let result = Self {
            amount: f_amount,
            currency: f_currency,
            payment_type: f_payment_type,
            expiry_date: f_expiry_date,
            card_number: f_card_number,
            track_2_data: f_track_2_data,
            timeout: f_timeout,
            maximum_no_of_status_info: f_maximum_no_of_status_info,
            pump_no: f_pump_no,
            trace_number: f_trace_number,
            aid_authorization_attribute: f_aid_authorization_attribute,
            additional_text: f_additional_text,
            zvt_card_type: f_zvt_card_type,
            tlv: f_tlv,
        };
        proof {
            assert forall|v: Self| v.wf() && (true) && bytes@ == #[trigger] v.body_bytes() implies Reservation::eqv(result, v) by {
                Reservation::lemma_master(v, bytes@);
                match v.amount { Some(kk) => { encoding::lemma_bcd_roundtrip(kk as nat); crate::packets::lemma_padded_bcd(kk, 6); vstd::arithmetic::div_mod::lemma_small_mod(kk as nat, encoding::usize_mod()); }, None => {} }
                match v.currency { Some(kk) => { encoding::lemma_bcd_roundtrip(kk as nat); crate::packets::lemma_padded_bcd(kk, 2); vstd::arithmetic::div_mod::lemma_small_mod(kk as nat, encoding::usize_mod()); }, None => {} }
                match v.expiry_date { Some(kk) => { encoding::lemma_bcd_roundtrip(kk as nat); crate::packets::lemma_padded_bcd(kk, 2); vstd::arithmetic::div_mod::lemma_small_mod(kk as nat, encoding::usize_mod()); }, None => {} }
                match v.card_number { Some(kk) => { encoding::lemma_bcd_roundtrip(kk as nat); vstd::arithmetic::div_mod::lemma_small_mod(kk as nat, encoding::usize_mod()); }, None => {} }
                match (v.track_2_data, f_track_2_data) { (Some(ref kk), Some(ref ss)) => { encoding::lemma_hex_ascii_payload(vstd::utf8::encode_utf8(kk@)); vstd::utf8::encode_utf8_decode_utf8(kk@); vstd::utf8::encode_utf8_decode_utf8(ss@); }, _ => {} }
                match v.trace_number { Some(kk) => { encoding::lemma_bcd_roundtrip(kk as nat); crate::packets::lemma_padded_bcd(kk, 3); vstd::arithmetic::div_mod::lemma_small_mod(kk as nat, encoding::usize_mod()); }, None => {} }
                match (v.aid_authorization_attribute, f_aid_authorization_attribute) { (Some(ref kk), _) => { vstd::utf8::encode_utf8_valid_utf8(kk@); vstd::utf8::encode_utf8_decode_utf8(kk@); crate::packets::lemma_padded_exact(vstd::utf8::encode_utf8(kk@), 8); }, _ => {} }
                match (v.additional_text, f_additional_text) { (Some(ref kk), _) => { vstd::utf8::encode_utf8_valid_utf8(kk@); vstd::utf8::encode_utf8_decode_utf8(kk@); }, _ => {} }
                match v.tlv { Some(ref kk) => { assert(kk.wf()); }, None => {} }
            };
        }
        Ok((result, pos_end))
    }

    pub open spec fn master_facts(v: Self, s: Seq<u8>) -> bool {
        &&& (v.aid_authorization_attribute matches Some(k) ==> vstd::utf8::valid_utf8(vstd::utf8::encode_utf8(k@)))
        &&& (v.additional_text matches Some(k) ==> vstd::utf8::valid_utf8(vstd::utf8::encode_utf8(k@)))
        &&& fields::spec_parse_fields(s, v.pos_len(), Self::spec_descs(), seq![], seq![]) == Ok::<_, ErrorView>((fields::cat_opt_entries(v.spec_fs()), s.len() as int))
        &&& fields::find_entry(fields::cat_opt_entries(v.spec_fs()), 0x4) == (match v.amount { Some(k) => Some(fields::padded_region(LengthSpec::Fixed(6), encoding::bcd_bytes(k as nat))), None => None })
        &&& fields::find_entry(fields::cat_opt_entries(v.spec_fs()), 0x49) == (match v.currency { Some(k) => Some(fields::padded_region(LengthSpec::Fixed(2), encoding::bcd_bytes(k as nat))), None => None })
        &&& fields::find_entry(fields::cat_opt_entries(v.spec_fs()), 0x19) == crate::packets::tlv::opt_u8_region(v.payment_type)
        &&& fields::find_entry(fields::cat_opt_entries(v.spec_fs()), 0xe) == (match v.expiry_date { Some(k) => Some(fields::padded_region(LengthSpec::Fixed(2), encoding::bcd_bytes(k as nat))), None => None })
        &&& fields::find_entry(fields::cat_opt_entries(v.spec_fs()), 0x22) == (match v.card_number { Some(k) => Some(encoding::bcd_bytes(k as nat)), None => None })
        &&& fields::find_entry(fields::cat_opt_entries(v.spec_fs()), 0x23) == (match v.track_2_data { Some(ref k) => Some(encoding::hex_payload(vstd::utf8::encode_utf8(k@))), None => None })
        &&& fields::find_entry(fields::cat_opt_entries(v.spec_fs()), 0x1) == crate::packets::tlv::opt_u8_region(v.timeout)
        &&& fields::find_entry(fields::cat_opt_entries(v.spec_fs()), 0x2) == crate::packets::tlv::opt_u8_region(v.maximum_no_of_status_info)
        &&& fields::find_entry(fields::cat_opt_entries(v.spec_fs()), 0x5) == crate::packets::tlv::opt_u8_region(v.pump_no)
        &&& fields::find_entry(fields::cat_opt_entries(v.spec_fs()), 0xb) == (match v.trace_number { Some(k) => Some(fields::padded_region(LengthSpec::Fixed(3), encoding::bcd_bytes(k as nat))), None => None })
        &&& fields::find_entry(fields::cat_opt_entries(v.spec_fs()), 0x3b) == (match v.aid_authorization_attribute { Some(ref k) => Some(vstd::utf8::encode_utf8(k@)), None => None })
        &&& fields::find_entry(fields::cat_opt_entries(v.spec_fs()), 0x3c) == (match v.additional_text { Some(ref k) => Some(vstd::utf8::encode_utf8(k@)), None => None })
        &&& fields::find_entry(fields::cat_opt_entries(v.spec_fs()), 0x8a) == crate::packets::tlv::opt_u8_region(v.zvt_card_type)
        &&& fields::find_entry(fields::cat_opt_entries(v.spec_fs()), 0x6) == (match v.tlv { Some(ref k) => Some(k.body_bytes()), None => None })
    }

    #[verifier::rlimit(100)]
    #[verifier::spinoff_prover]
    pub proof fn lemma_master(v: Self, s: Seq<u8>)
        requires v.wf(), (true), s == v.body_bytes(), s.len() <= usize::MAX,
        ensures Self::master_facts(v, s),
    {
        v.lemma_meta();
        v.lemma_body_parses(s);
        let fs = v.spec_fs();
        let g0 = fs;
        let g1 = g0.drop_first();
        let g2 = g1.drop_first();
        let g3 = g2.drop_first();
        let g4 = g3.drop_first();
        let g5 = g4.drop_first();
        let g6 = g5.drop_first();
        let g7 = g6.drop_first();
        let g8 = g7.drop_first();
        let g9 = g8.drop_first();
        let g10 = g9.drop_first();
        let g11 = g10.drop_first();
        let g12 = g11.drop_first();
        let g13 = g12.drop_first();
        let g14 = g13.drop_first();
        assert(fields::cat_opt_fields(g0) == fields::opt_field_bytes(g0[0].0, g0[0].1, g0[0].2) + fields::cat_opt_fields(g1)); assert(g0[0] == fs[0]);
        assert(fields::cat_opt_fields(g1) == fields::opt_field_bytes(g1[0].0, g1[0].1, g1[0].2) + fields::cat_opt_fields(g2)); assert(g1[0] == fs[1]);
        assert(fields::cat_opt_fields(g2) == fields::opt_field_bytes(g2[0].0, g2[0].1, g2[0].2) + fields::cat_opt_fields(g3)); assert(g2[0] == fs[2]);
        assert(fields::cat_opt_fields(g3) == fields::opt_field_bytes(g3[0].0, g3[0].1, g3[0].2) + fields::cat_opt_fields(g4)); assert(g3[0] == fs[3]);
        assert(fields::cat_opt_fields(g4) == fields::opt_field_bytes(g4[0].0, g4[0].1, g4[0].2) + fields::cat_opt_fields(g5)); assert(g4[0] == fs[4]);
        assert(fields::cat_opt_fields(g5) == fields::opt_field_bytes(g5[0].0, g5[0].1, g5[0].2) + fields::cat_opt_fields(g6)); assert(g5[0] == fs[5]);
        assert(fields::cat_opt_fields(g6) == fields::opt_field_bytes(g6[0].0, g6[0].1, g6[0].2) + fields::cat_opt_fields(g7)); assert(g6[0] == fs[6]);
        assert(fields::cat_opt_fields(g7) == fields::opt_field_bytes(g7[0].0, g7[0].1, g7[0].2) + fields::cat_opt_fields(g8)); assert(g7[0] == fs[7]);
        assert(fields::cat_opt_fields(g8) == fields::opt_field_bytes(g8[0].0, g8[0].1, g8[0].2) + fields::cat_opt_fields(g9)); assert(g8[0] == fs[8]);
        assert(fields::cat_opt_fields(g9) == fields::opt_field_bytes(g9[0].0, g9[0].1, g9[0].2) + fields::cat_opt_fields(g10)); assert(g9[0] == fs[9]);
        assert(fields::cat_opt_fields(g10) == fields::opt_field_bytes(g10[0].0, g10[0].1, g10[0].2) + fields::cat_opt_fields(g11)); assert(g10[0] == fs[10]);
        assert(fields::cat_opt_fields(g11) == fields::opt_field_bytes(g11[0].0, g11[0].1, g11[0].2) + fields::cat_opt_fields(g12)); assert(g11[0] == fs[11]);
        assert(fields::cat_opt_fields(g12) == fields::opt_field_bytes(g12[0].0, g12[0].1, g12[0].2) + fields::cat_opt_fields(g13)); assert(g12[0] == fs[12]);
        assert(fields::cat_opt_fields(g13) == fields::opt_field_bytes(g13[0].0, g13[0].1, g13[0].2) + fields::cat_opt_fields(g14)); assert(g13[0] == fs[13]);
        assert(fields::cat_opt_fields(g14) =~= Seq::<u8>::empty());
        fields::lemma_find_entry_fs(fs, 0x4);
        fields::lemma_find_entry_fs(fs, 0x49);
        fields::lemma_find_entry_fs(fs, 0x19);
        fields::lemma_find_entry_fs(fs, 0xe);
        fields::lemma_find_entry_fs(fs, 0x22);
        fields::lemma_find_entry_fs(fs, 0x23);
        fields::lemma_find_entry_fs(fs, 0x1);
        fields::lemma_find_entry_fs(fs, 0x2);
        fields::lemma_find_entry_fs(fs, 0x5);
        fields::lemma_find_entry_fs(fs, 0xb);
        fields::lemma_find_entry_fs(fs, 0x3b);
        fields::lemma_find_entry_fs(fs, 0x3c);
        fields::lemma_find_entry_fs(fs, 0x8a);
        fields::lemma_find_entry_fs(fs, 0x6);
        match v.aid_authorization_attribute { Some(ref k) => { vstd::utf8::encode_utf8_valid_utf8(k@); }, None => {} }
        match v.additional_text { Some(ref k) => { vstd::utf8::encode_utf8_valid_utf8(k@); }, None => {} }
    }
    pub fn zvt_serialize(&self) -> (r: Vec<u8>)
        requires self.wf(), self.body_bytes().len() <= 0xffff,
        ensures r@ == crate::packets::frame_bytes(6, 34, self.body_bytes()),
    {
        let body = self.encode_body();
        crate::packets::ser_frame(6, 34, body)
    }

    pub fn zvt_deserialize(bytes: &[u8]) -> (r: ZVTResult<(Self, usize)>)
        ensures
            r matches Ok(v) ==> v.1 <= bytes@.len(),
            forall|v: Self, rest: Seq<u8>|
                v.wf() && (true) && v.body_bytes().len() <= 0xffff && bytes@ == #[trigger] (crate::packets::frame_bytes(6, 34, v.body_bytes()) + rest) ==> (r matches Ok(o) && Reservation::eqv(o.0, v) && o.1 == bytes@.len() - rest.len()),
    {
        let blen_e = bytes.len();
        proof { assert(bytes@.len() <= usize::MAX); }
        let (ps, pe) = match crate::packets::de_frame(bytes, 6, 34) {
            Ok(v) => v,
            Err(e) => {
                proof {
                    assert forall|v: Self, rest: Seq<u8>| v.wf() && (true) && v.body_bytes().len() <= 0xffff && bytes@ == #[trigger] (crate::packets::frame_bytes(6, 34, v.body_bytes()) + rest) implies false by { crate::packets::lemma_de_frame(bytes@, 6, 34, v.body_bytes(), rest); };
                }
                return Err(e);
            },
        };
        let payload = encoding::copy_range(bytes, ps, pe);
        proof {
            assert forall|v: Self, rest: Seq<u8>| v.wf() && (true) && v.body_bytes().len() <= 0xffff && bytes@ == #[trigger] (crate::packets::frame_bytes(6, 34, v.body_bytes()) + rest) implies (payload@ == v.body_bytes() && pe - ps == v.body_bytes().len() && pe == bytes@.len() - rest.len()) by { crate::packets::lemma_de_frame(bytes@, 6, 34, v.body_bytes(), rest); };
        }
        match Self::decode_body(payload.as_slice()) {
            Ok((p, consumed)) => Ok((p, ps + consumed)),
            Err(e) => Err(e),
        }
    }
}

/// Authorizes a payment.
#[derive(Debug, PartialEq)]
pub struct Authorization {
    pub amount: Option<usize>,
    pub currency: Option<usize>,
    pub payment_type: Option<u8>,
    pub expiry_date: Option<usize>,
    pub card_number: Option<usize>,
    pub track_2_data: Option<String>,
    pub timeout: Option<u8>,
    pub maximum_no_of_status_info: Option<u8>,
    pub pump_no: Option<u8>,
    pub additional_text: Option<String>,
    pub zvt_card_type: Option<u8>,
    pub tlv: Option<tlv::PreAuthData>,
}

impl Authorization {
    pub open spec fn wf(self) -> bool {
        &&& (match self.amount { Some(k) => encoding::bcd_bytes(k as nat).len() <= 6, None => true })
        &&& (match self.currency { Some(k) => encoding::bcd_bytes(k as nat).len() <= 2, None => true })
        &&& (match self.expiry_date { Some(k) => encoding::bcd_bytes(k as nat).len() <= 2, None => true })
        &&& (match self.card_number { Some(k) => encoding::bcd_bytes(k as nat).len() < length::pow10(2), None => true })
        &&& (match self.track_2_data { Some(ref k) => encoding::is_hex_ascii(vstd::utf8::encode_utf8(k@)) && vstd::utf8::encode_utf8(k@).len() < 2 * length::pow10(2), None => true })
        &&& (match self.additional_text { Some(ref k) => vstd::utf8::encode_utf8(k@).len() < length::pow10(3), None => true })
        &&& (match self.tlv { Some(ref k) => k.wf() && k.body_bytes().len() <= 0xffff, None => true })
    }

    pub open spec fn spec_fs(self) -> Seq<(u16, LengthSpec, Option<Seq<u8>>)> {
        seq![
            (0x4u16, LengthSpec::Fixed(6), (match self.amount { Some(k) => Some(fields::padded_region(LengthSpec::Fixed(6), encoding::bcd_bytes(k as nat))), None => None })),
            (0x49u16, LengthSpec::Fixed(2), (match self.currency { Some(k) => Some(fields::padded_region(LengthSpec::Fixed(2), encoding::bcd_bytes(k as nat))), None => None })),
            (0x19u16, LengthSpec::Unprefixed, crate::packets::tlv::opt_u8_region(self.payment_type)),
            (0xeu16, LengthSpec::Fixed(2), (match self.expiry_date { Some(k) => Some(fields::padded_region(LengthSpec::Fixed(2), encoding::bcd_bytes(k as nat))), None => None })),
            (0x22u16, LengthSpec::Llv(2), (match self.card_number { Some(k) => Some(encoding::bcd_bytes(k as nat)), None => None })),
            (0x23u16, LengthSpec::Llv(2), (match self.track_2_data { Some(ref k) => Some(encoding::hex_payload(vstd::utf8::encode_utf8(k@))), None => None })),
            (0x1u16, LengthSpec::Unprefixed, crate::packets::tlv::opt_u8_region(self.timeout)),
            (0x2u16, LengthSpec::Unprefixed, crate::packets::tlv::opt_u8_region(self.maximum_no_of_status_info)),
            (0x5u16, LengthSpec::Unprefixed, crate::packets::tlv::opt_u8_region(self.pump_no)),
            (0x3cu16, LengthSpec::Llv(3), (match self.additional_text { Some(ref k) => Some(vstd::utf8::encode_utf8(k@)), None => None })),
            (0x8au16, LengthSpec::Unprefixed, crate::packets::tlv::opt_u8_region(self.zvt_card_type)),
            (0x6u16, LengthSpec::Tlv, (match self.tlv { Some(ref k) => Some(k.body_bytes()), None => None })),
        ]
    }

    pub open spec fn body_bytes(self) -> Seq<u8> {
        fields::cat_opt_fields(self.spec_fs())
    }

    pub open spec fn spec_descs() -> Seq<FieldDesc> {
        seq![
            FieldDesc { tag: 0x4, len: LengthSpec::Fixed(6), width: 0, repeatable: false, required: false },
            FieldDesc { tag: 0x49, len: LengthSpec::Fixed(2), width: 0, repeatable: false, required: false },
            FieldDesc { tag: 0x19, len: LengthSpec::Unprefixed, width: 1, repeatable: false, required: false },
            FieldDesc { tag: 0xe, len: LengthSpec::Fixed(2), width: 0, repeatable: false, required: false },
            FieldDesc { tag: 0x22, len: LengthSpec::Llv(2), width: 0, repeatable: false, required: false },
            FieldDesc { tag: 0x23, len: LengthSpec::Llv(2), width: 0, repeatable: false, required: false },
            FieldDesc { tag: 0x1, len: LengthSpec::Unprefixed, width: 1, repeatable: false, required: false },
            FieldDesc { tag: 0x2, len: LengthSpec::Unprefixed, width: 1, repeatable: false, required: false },
            FieldDesc { tag: 0x5, len: LengthSpec::Unprefixed, width: 1, repeatable: false, required: false },
            FieldDesc { tag: 0x3c, len: LengthSpec::Llv(3), width: 0, repeatable: false, required: false },
            FieldDesc { tag: 0x8a, len: LengthSpec::Unprefixed, width: 1, repeatable: false, required: false },
            FieldDesc { tag: 0x6, len: LengthSpec::Tlv, width: 0, repeatable: false, required: false },
        ]
    }

    fn descs() -> (r: Vec<FieldDesc>)
        ensures r@ == Self::spec_descs(),
    {
        let mut v: Vec<FieldDesc> = Vec::new();
        v.push(FieldDesc { tag: 0x4, len: LengthSpec::Fixed(6), width: 0, repeatable: false, required: false });
        v.push(FieldDesc { tag: 0x49, len: LengthSpec::Fixed(2), width: 0, repeatable: false, required: false });
        v.push(FieldDesc { tag: 0x19, len: LengthSpec::Unprefixed, width: 1, repeatable: false, required: false });
        v.push(FieldDesc { tag: 0xe, len: LengthSpec::Fixed(2), width: 0, repeatable: false, required: false });
        v.push(FieldDesc { tag: 0x22, len: LengthSpec::Llv(2), width: 0, repeatable: false, required: false });
        v.push(FieldDesc { tag: 0x23, len: LengthSpec::Llv(2), width: 0, repeatable: false, required: false });
        v.push(FieldDesc { tag: 0x1, len: LengthSpec::Unprefixed, width: 1, repeatable: false, required: false });
        v.push(FieldDesc { tag: 0x2, len: LengthSpec::Unprefixed, width: 1, repeatable: false, required: false });
        v.push(FieldDesc { tag: 0x5, len: LengthSpec::Unprefixed, width: 1, repeatable: false, required: false });
        v.push(FieldDesc { tag: 0x3c, len: LengthSpec::Llv(3), width: 0, repeatable: false, required: false });
        v.push(FieldDesc { tag: 0x8a, len: LengthSpec::Unprefixed, width: 1, repeatable: false, required: false });
        v.push(FieldDesc { tag: 0x6, len: LengthSpec::Tlv, width: 0, repeatable: false, required: false });
        proof { assert(v@ =~= Self::spec_descs()); }
        v
    }

    #[verifier::rlimit(100)]
    #[verifier::spinoff_prover]
    proof fn lemma_meta(self)
        ensures
            fields::find_desc(Self::spec_descs(), 0x4) == Some(Self::spec_descs()[0]),
            encoding::tag_wf(0x4),
            fields::fs_lookup(self.spec_fs(), 0x4) == (match self.amount { Some(k) => Some(fields::padded_region(LengthSpec::Fixed(6), encoding::bcd_bytes(k as nat))), None => None }),
            fields::find_desc(Self::spec_descs(), 0x49) == Some(Self::spec_descs()[1]),
            encoding::tag_wf(0x49),
            fields::fs_lookup(self.spec_fs(), 0x49) == (match self.currency { Some(k) => Some(fields::padded_region(LengthSpec::Fixed(2), encoding::bcd_bytes(k as nat))), None => None }),
            fields::find_desc(Self::spec_descs(), 0x19) == Some(Self::spec_descs()[2]),
            encoding::tag_wf(0x19),
            fields::fs_lookup(self.spec_fs(), 0x19) == crate::packets::tlv::opt_u8_region(self.payment_type),
            fields::find_desc(Self::spec_descs(), 0xe) == Some(Self::spec_descs()[3]),
            encoding::tag_wf(0xe),
            fields::fs_lookup(self.spec_fs(), 0xe) == (match self.expiry_date { Some(k) => Some(fields::padded_region(LengthSpec::Fixed(2), encoding::bcd_bytes(k as nat))), None => None }),
            fields::find_desc(Self::spec_descs(), 0x22) == Some(Self::spec_descs()[4]),
            encoding::tag_wf(0x22),
            fields::fs_lookup(self.spec_fs(), 0x22) == (match self.card_number { Some(k) => Some(encoding::bcd_bytes(k as nat)), None => None }),
            fields::find_desc(Self::spec_descs(), 0x23) == Some(Self::spec_descs()[5]),
            encoding::tag_wf(0x23),
            fields::fs_lookup(self.spec_fs(), 0x23) == (match self.track_2_data { Some(ref k) => Some(encoding::hex_payload(vstd::utf8::encode_utf8(k@))), None => None }),
            fields::find_desc(Self::spec_descs(), 0x1) == Some(Self::spec_descs()[6]),
            encoding::tag_wf(0x1),
            fields::fs_lookup(self.spec_fs(), 0x1) == crate::packets::tlv::opt_u8_region(self.timeout),
            fields::find_desc(Self::spec_descs(), 0x2) == Some(Self::spec_descs()[7]),
            encoding::tag_wf(0x2),
            fields::fs_lookup(self.spec_fs(), 0x2) == crate::packets::tlv::opt_u8_region(self.maximum_no_of_status_info),
            fields::find_desc(Self::spec_descs(), 0x5) == Some(Self::spec_descs()[8]),
            encoding::tag_wf(0x5),
            fields::fs_lookup(self.spec_fs(), 0x5) == crate::packets::tlv::opt_u8_region(self.pump_no),
            fields::find_desc(Self::spec_descs(), 0x3c) == Some(Self::spec_descs()[9]),
            encoding::tag_wf(0x3c),
            fields::fs_lookup(self.spec_fs(), 0x3c) == (match self.additional_text { Some(ref k) => Some(vstd::utf8::encode_utf8(k@)), None => None }),
            fields::find_desc(Self::spec_descs(), 0x8a) == Some(Self::spec_descs()[10]),
            encoding::tag_wf(0x8a),
            fields::fs_lookup(self.spec_fs(), 0x8a) == crate::packets::tlv::opt_u8_region(self.zvt_card_type),
            fields::find_desc(Self::spec_descs(), 0x6) == Some(Self::spec_descs()[11]),
            encoding::tag_wf(0x6),
            fields::fs_lookup(self.spec_fs(), 0x6) == (match self.tlv { Some(ref k) => Some(k.body_bytes()), None => None }),
    {
        let ds = Self::spec_descs();
        let fs = self.spec_fs();
        let ds0 = ds; let fs0 = fs;
        let ds1 = ds0.drop_first(); let fs1 = fs0.drop_first();
        let ds2 = ds1.drop_first(); let fs2 = fs1.drop_first();
        let ds3 = ds2.drop_first(); let fs3 = fs2.drop_first();
        let ds4 = ds3.drop_first(); let fs4 = fs3.drop_first();
        let ds5 = ds4.drop_first(); let fs5 = fs4.drop_first();
        let ds6 = ds5.drop_first(); let fs6 = fs5.drop_first();
        let ds7 = ds6.drop_first(); let fs7 = fs6.drop_first();
        let ds8 = ds7.drop_first(); let fs8 = fs7.drop_first();
        let ds9 = ds8.drop_first(); let fs9 = fs8.drop_first();
        let ds10 = ds9.drop_first(); let fs10 = fs9.drop_first();
        let ds11 = ds10.drop_first(); let fs11 = fs10.drop_first();
        let ds12 = ds11.drop_first(); let fs12 = fs11.drop_first();
        assert(ds0[0] == ds[0]); assert(fs0[0] == fs[0]);
        assert(ds0.len() == 12); assert(fs0.len() == 12);
        assert(ds1[0] == ds[1]); assert(fs1[0] == fs[1]);
        assert(ds1.len() == 11); assert(fs1.len() == 11);
        assert(ds2[0] == ds[2]); assert(fs2[0] == fs[2]);
        assert(ds2.len() == 10); assert(fs2.len() == 10);
        assert(ds3[0] == ds[3]); assert(fs3[0] == fs[3]);
        assert(ds3.len() == 9); assert(fs3.len() == 9);
        assert(ds4[0] == ds[4]); assert(fs4[0] == fs[4]);
        assert(ds4.len() == 8); assert(fs4.len() == 8);
        assert(ds5[0] == ds[5]); assert(fs5[0] == fs[5]);
        assert(ds5.len() == 7); assert(fs5.len() == 7);
        assert(ds6[0] == ds[6]); assert(fs6[0] == fs[6]);
        assert(ds6.len() == 6); assert(fs6.len() == 6);
        assert(ds7[0] == ds[7]); assert(fs7[0] == fs[7]);
        assert(ds7.len() == 5); assert(fs7.len() == 5);
        assert(ds8[0] == ds[8]); assert(fs8[0] == fs[8]);
        assert(ds8.len() == 4); assert(fs8.len() == 4);
        assert(ds9[0] == ds[9]); assert(fs9[0] == fs[9]);
        assert(ds9.len() == 3); assert(fs9.len() == 3);
        assert(ds10[0] == ds[10]); assert(fs10[0] == fs[10]);
        assert(ds10.len() == 2); assert(fs10.len() == 2);
        assert(ds11[0] == ds[11]); assert(fs11[0] == fs[11]);
        assert(ds11.len() == 1); assert(fs11.len() == 1);
        assert(ds12 =~= Seq::<FieldDesc>::empty()); assert(fs12 =~= Seq::<(u16, LengthSpec, Option<Seq<u8>>)>::empty());
        fields::lemma_low5(0x1f);
        fields::lemma_low5(0x4);
        fields::lemma_low5(0x49);
        fields::lemma_low5(0x19);
        fields::lemma_low5(0xe);
        fields::lemma_low5(0x22);
        fields::lemma_low5(0x23);
        fields::lemma_low5(0x1);
        fields::lemma_low5(0x2);
        fields::lemma_low5(0x5);
        fields::lemma_low5(0x3c);
        fields::lemma_low5(0x8a);
        fields::lemma_low5(0x6);
        assert(fields::find_desc(ds0, 0x4) == Some(ds[0]));
        assert(fields::find_desc(ds1, 0x49) == Some(ds[1]));
        assert(fields::find_desc(ds0, 0x49) == fields::find_desc(ds1, 0x49));
        assert(fields::find_desc(ds2, 0x19) == Some(ds[2]));
        assert(fields::find_desc(ds1, 0x19) == fields::find_desc(ds2, 0x19));
        assert(fields::find_desc(ds0, 0x19) == fields::find_desc(ds1, 0x19));
        assert(fields::find_desc(ds3, 0xe) == Some(ds[3]));
        assert(fields::find_desc(ds2, 0xe) == fields::find_desc(ds3, 0xe));
        assert(fields::find_desc(ds1, 0xe) == fields::find_desc(ds2, 0xe));
        assert(fields::find_desc(ds0, 0xe) == fields::find_desc(ds1, 0xe));
        assert(fields::find_desc(ds4, 0x22) == Some(ds[4]));
        assert(fields::find_desc(ds3, 0x22) == fields::find_desc(ds4, 0x22));
        assert(fields::find_desc(ds2, 0x22) == fields::find_desc(ds3, 0x22));
        assert(fields::find_desc(ds1, 0x22) == fields::find_desc(ds2, 0x22));
        assert(fields::find_desc(ds0, 0x22) == fields::find_desc(ds1, 0x22));
        assert(fields::find_desc(ds5, 0x23) == Some(ds[5]));
        assert(fields::find_desc(ds4, 0x23) == fields::find_desc(ds5, 0x23));
        assert(fields::find_desc(ds3, 0x23) == fields::find_desc(ds4, 0x23));
        assert(fields::find_desc(ds2, 0x23) == fields::find_desc(ds3, 0x23));
        assert(fields::find_desc(ds1, 0x23) == fields::find_desc(ds2, 0x23));
        assert(fields::find_desc(ds0, 0x23) == fields::find_desc(ds1, 0x23));
        assert(fields::find_desc(ds6, 0x1) == Some(ds[6]));
        assert(fields::find_desc(ds5, 0x1) == fields::find_desc(ds6, 0x1));
        assert(fields::find_desc(ds4, 0x1) == fields::find_desc(ds5, 0x1));
        assert(fields::find_desc(ds3, 0x1) == fields::find_desc(ds4, 0x1));
        assert(fields::find_desc(ds2, 0x1) == fields::find_desc(ds3, 0x1));
        assert(fields::find_desc(ds1, 0x1) == fields::find_desc(ds2, 0x1));
        assert(fields::find_desc(ds0, 0x1) == fields::find_desc(ds1, 0x1));
        assert(fields::find_desc(ds7, 0x2) == Some(ds[7]));
        assert(fields::find_desc(ds6, 0x2) == fields::find_desc(ds7, 0x2));
        assert(fields::find_desc(ds5, 0x2) == fields::find_desc(ds6, 0x2));
        assert(fields::find_desc(ds4, 0x2) == fields::find_desc(ds5, 0x2));
        assert(fields::find_desc(ds3, 0x2) == fields::find_desc(ds4, 0x2));
        assert(fields::find_desc(ds2, 0x2) == fields::find_desc(ds3, 0x2));
        assert(fields::find_desc(ds1, 0x2) == fields::find_desc(ds2, 0x2));
        assert(fields::find_desc(ds0, 0x2) == fields::find_desc(ds1, 0x2));
        assert(fields::find_desc(ds8, 0x5) == Some(ds[8]));
        assert(fields::find_desc(ds7, 0x5) == fields::find_desc(ds8, 0x5));
        assert(fields::find_desc(ds6, 0x5) == fields::find_desc(ds7, 0x5));
        assert(fields::find_desc(ds5, 0x5) == fields::find_desc(ds6, 0x5));
        assert(fields::find_desc(ds4, 0x5) == fields::find_desc(ds5, 0x5));
        assert(fields::find_desc(ds3, 0x5) == fields::find_desc(ds4, 0x5));
        assert(fields::find_desc(ds2, 0x5) == fields::find_desc(ds3, 0x5));
        assert(fields::find_desc(ds1, 0x5) == fields::find_desc(ds2, 0x5));
        assert(fields::find_desc(ds0, 0x5) == fields::find_desc(ds1, 0x5));
        assert(fields::find_desc(ds9, 0x3c) == Some(ds[9]));
        assert(fields::find_desc(ds8, 0x3c) == fields::find_desc(ds9, 0x3c));
        assert(fields::find_desc(ds7, 0x3c) == fields::find_desc(ds8, 0x3c));
        assert(fields::find_desc(ds6, 0x3c) == fields::find_desc(ds7, 0x3c));
        assert(fields::find_desc(ds5, 0x3c) == fields::find_desc(ds6, 0x3c));
        assert(fields::find_desc(ds4, 0x3c) == fields::find_desc(ds5, 0x3c));
        assert(fields::find_desc(ds3, 0x3c) == fields::find_desc(ds4, 0x3c));
        assert(fields::find_desc(ds2, 0x3c) == fields::find_desc(ds3, 0x3c));
        assert(fields::find_desc(ds1, 0x3c) == fields::find_desc(ds2, 0x3c));
        assert(fields::find_desc(ds0, 0x3c) == fields::find_desc(ds1, 0x3c));
        assert(fields::find_desc(ds10, 0x8a) == Some(ds[10]));
        assert(fields::find_desc(ds9, 0x8a) == fields::find_desc(ds10, 0x8a));
        assert(fields::find_desc(ds8, 0x8a) == fields::find_desc(ds9, 0x8a));
        assert(fields::find_desc(ds7, 0x8a) == fields::find_desc(ds8, 0x8a));
        assert(fields::find_desc(ds6, 0x8a) == fields::find_desc(ds7, 0x8a));
        assert(fields::find_desc(ds5, 0x8a) == fields::find_desc(ds6, 0x8a));
        assert(fields::find_desc(ds4, 0x8a) == fields::find_desc(ds5, 0x8a));
        assert(fields::find_desc(ds3, 0x8a) == fields::find_desc(ds4, 0x8a));
        assert(fields::find_desc(ds2, 0x8a) == fields::find_desc(ds3, 0x8a));
        assert(fields::find_desc(ds1, 0x8a) == fields::find_desc(ds2, 0x8a));
        assert(fields::find_desc(ds0, 0x8a) == fields::find_desc(ds1, 0x8a));
        assert(fields::find_desc(ds11, 0x6) == Some(ds[11]));
        assert(fields::find_desc(ds10, 0x6) == fields::find_desc(ds11, 0x6));
        assert(fields::find_desc(ds9, 0x6) == fields::find_desc(ds10, 0x6));
        assert(fields::find_desc(ds8, 0x6) == fields::find_desc(ds9, 0x6));
        assert(fields::find_desc(ds7, 0x6) == fields::find_desc(ds8, 0x6));
        assert(fields::find_desc(ds6, 0x6) == fields::find_desc(ds7, 0x6));
        assert(fields::find_desc(ds5, 0x6) == fields::find_desc(ds6, 0x6));
        assert(fields::find_desc(ds4, 0x6) == fields::find_desc(ds5, 0x6));
        assert(fields::find_desc(ds3, 0x6) == fields::find_desc(ds4, 0x6));
        assert(fields::find_desc(ds2, 0x6) == fields::find_desc(ds3, 0x6));
        assert(fields::find_desc(ds1, 0x6) == fields::find_desc(ds2, 0x6));
        assert(fields::find_desc(ds0, 0x6) == fields::find_desc(ds1, 0x6));
        assert(fields::fs_lookup(fs12, 0x4) == None::<Seq<u8>>);
        assert(fields::fs_lookup(fs11, 0x4) == None::<Seq<u8>>);
        assert(fields::fs_lookup(fs10, 0x4) == None::<Seq<u8>>);
        assert(fields::fs_lookup(fs9, 0x4) == None::<Seq<u8>>);
        assert(fields::fs_lookup(fs8, 0x4) == None::<Seq<u8>>);
        assert(fields::fs_lookup(fs7, 0x4) == None::<Seq<u8>>);
        assert(fields::fs_lookup(fs6, 0x4) == None::<Seq<u8>>);
        assert(fields::fs_lookup(fs5, 0x4) == None::<Seq<u8>>);
        assert(fields::fs_lookup(fs4, 0x4) == None::<Seq<u8>>);
        assert(fields::fs_lookup(fs3, 0x4) == None::<Seq<u8>>);
        assert(fields::fs_lookup(fs2, 0x4) == None::<Seq<u8>>);
        assert(fields::fs_lookup(fs1, 0x4) == None::<Seq<u8>>);
        assert(fields::fs_lookup(fs0, 0x4) == (match self.amount { Some(k) => Some(fields::padded_region(LengthSpec::Fixed(6), encoding::bcd_bytes(k as nat))), None => None }));
        assert(fields::fs_lookup(fs12, 0x49) == None::<Seq<u8>>);
        assert(fields::fs_lookup(fs11, 0x49) == None::<Seq<u8>>);
        assert(fields::fs_lookup(fs10, 0x49) == None::<Seq<u8>>);
        assert(fields::fs_lookup(fs9, 0x49) == None::<Seq<u8>>);
        assert(fields::fs_lookup(fs8, 0x49) == None::<Seq<u8>>);
        assert(fields::fs_lookup(fs7, 0x49) == None::<Seq<u8>>);
        assert(fields::fs_lookup(fs6, 0x49) == None::<Seq<u8>>);
        assert(fields::fs_lookup(fs5, 0x49) == None::<Seq<u8>>);
        assert(fields::fs_lookup(fs4, 0x49) == None::<Seq<u8>>);
        assert(fields::fs_lookup(fs3, 0x49) == None::<Seq<u8>>);
        assert(fields::fs_lookup(fs2, 0x49) == None::<Seq<u8>>);
        assert(fields::fs_lookup(fs1, 0x49) == (match self.currency { Some(k) => Some(fields::padded_region(LengthSpec::Fixed(2), encoding::bcd_bytes(k as nat))), None => None }));
        assert(fields::fs_lookup(fs0, 0x49) == fields::fs_lookup(fs1, 0x49));
        assert(fields::fs_lookup(fs12, 0x19) == None::<Seq<u8>>);
        assert(fields::fs_lookup(fs11, 0x19) == None::<Seq<u8>>);
        assert(fields::fs_lookup(fs10, 0x19) == None::<Seq<u8>>);
        assert(fields::fs_lookup(fs9, 0x19) == None::<Seq<u8>>);
        assert(fields::fs_lookup(fs8, 0x19) == None::<Seq<u8>>);
        assert(fields::fs_lookup(fs7, 0x19) == None::<Seq<u8>>);
        assert(fields::fs_lookup(fs6, 0x19) == None::<Seq<u8>>);
        assert(fields::fs_lookup(fs5, 0x19) == None::<Seq<u8>>);
        assert(fields::fs_lookup(fs4, 0x19) == None::<Seq<u8>>);
        assert(fields::fs_lookup(fs3, 0x19) == None::<Seq<u8>>);
        assert(fields::fs_lookup(fs2, 0x19) == crate::packets::tlv::opt_u8_region(self.payment_type));
        assert(fields::fs_lookup(fs1, 0x19) == fields::fs_lookup(fs2, 0x19));
        assert(fields::fs_lookup(fs0, 0x19) == fields::fs_lookup(fs1, 0x19));
        assert(fields::fs_lookup(fs12, 0xe) == None::<Seq<u8>>);
        assert(fields::fs_lookup(fs11, 0xe) == None::<Seq<u8>>);
        assert(fields::fs_lookup(fs10, 0xe) == None::<Seq<u8>>);
        assert(fields::fs_lookup(fs9, 0xe) == None::<Seq<u8>>);
        assert(fields::fs_lookup(fs8, 0xe) == None::<Seq<u8>>);
        assert(fields::fs_lookup(fs7, 0xe) == None::<Seq<u8>>);
        assert(fields::fs_lookup(fs6, 0xe) == None::<Seq<u8>>);
        assert(fields::fs_lookup(fs5, 0xe) == None::<Seq<u8>>);
        assert(fields::fs_lookup(fs4, 0xe) == None::<Seq<u8>>);
        assert(fields::fs_lookup(fs3, 0xe) == (match self.expiry_date { Some(k) => Some(fields::padded_region(LengthSpec::Fixed(2), encoding::bcd_bytes(k as nat))), None => None }));
        assert(fields::fs_lookup(fs2, 0xe) == fields::fs_lookup(fs3, 0xe));
        assert(fields::fs_lookup(fs1, 0xe) == fields::fs_lookup(fs2, 0xe));
        assert(fields::fs_lookup(fs0, 0xe) == fields::fs_lookup(fs1, 0xe));
        assert(fields::fs_lookup(fs12, 0x22) == None::<Seq<u8>>);
        assert(fields::fs_lookup(fs11, 0x22) == None::<Seq<u8>>);
        assert(fields::fs_lookup(fs10, 0x22) == None::<Seq<u8>>);
        assert(fields::fs_lookup(fs9, 0x22) == None::<Seq<u8>>);
        assert(fields::fs_lookup(fs8, 0x22) == None::<Seq<u8>>);
        assert(fields::fs_lookup(fs7, 0x22) == None::<Seq<u8>>);
        assert(fields::fs_lookup(fs6, 0x22) == None::<Seq<u8>>);
        assert(fields::fs_lookup(fs5, 0x22) == None::<Seq<u8>>);
        assert(fields::fs_lookup(fs4, 0x22) == (match self.card_number { Some(k) => Some(encoding::bcd_bytes(k as nat)), None => None }));
        assert(fields::fs_lookup(fs3, 0x22) == fields::fs_lookup(fs4, 0x22));
        assert(fields::fs_lookup(fs2, 0x22) == fields::fs_lookup(fs3, 0x22));
        assert(fields::fs_lookup(fs1, 0x22) == fields::fs_lookup(fs2, 0x22));
        assert(fields::fs_lookup(fs0, 0x22) == fields::fs_lookup(fs1, 0x22));
        assert(fields::fs_lookup(fs12, 0x23) == None::<Seq<u8>>);
        assert(fields::fs_lookup(fs11, 0x23) == None::<Seq<u8>>);
        assert(fields::fs_lookup(fs10, 0x23) == None::<Seq<u8>>);
        assert(fields::fs_lookup(fs9, 0x23) == None::<Seq<u8>>);
        assert(fields::fs_lookup(fs8, 0x23) == None::<Seq<u8>>);
        assert(fields::fs_lookup(fs7, 0x23) == None::<Seq<u8>>);
        assert(fields::fs_lookup(fs6, 0x23) == None::<Seq<u8>>);
        assert(fields::fs_lookup(fs5, 0x23) == (match self.track_2_data { Some(ref k) => Some(encoding::hex_payload(vstd::utf8::encode_utf8(k@))), None => None }));
        assert(fields::fs_lookup(fs4, 0x23) == fields::fs_lookup(fs5, 0x23));
        assert(fields::fs_lookup(fs3, 0x23) == fields::fs_lookup(fs4, 0x23));
        assert(fields::fs_lookup(fs2, 0x23) == fields::fs_lookup(fs3, 0x23));
        assert(fields::fs_lookup(fs1, 0x23) == fields::fs_lookup(fs2, 0x23));
        assert(fields::fs_lookup(fs0, 0x23) == fields::fs_lookup(fs1, 0x23));
        assert(fields::fs_lookup(fs12, 0x1) == None::<Seq<u8>>);
        assert(fields::fs_lookup(fs11, 0x1) == None::<Seq<u8>>);
        assert(fields::fs_lookup(fs10, 0x1) == None::<Seq<u8>>);
        assert(fields::fs_lookup(fs9, 0x1) == None::<Seq<u8>>);
        assert(fields::fs_lookup(fs8, 0x1) == None::<Seq<u8>>);
        assert(fields::fs_lookup(fs7, 0x1) == None::<Seq<u8>>);
        assert(fields::fs_lookup(fs6, 0x1) == crate::packets::tlv::opt_u8_region(self.timeout));
        assert(fields::fs_lookup(fs5, 0x1) == fields::fs_lookup(fs6, 0x1));
        assert(fields::fs_lookup(fs4, 0x1) == fields::fs_lookup(fs5, 0x1));
        assert(fields::fs_lookup(fs3, 0x1) == fields::fs_lookup(fs4, 0x1));
        assert(fields::fs_lookup(fs2, 0x1) == fields::fs_lookup(fs3, 0x1));
        assert(fields::fs_lookup(fs1, 0x1) == fields::fs_lookup(fs2, 0x1));
        assert(fields::fs_lookup(fs0, 0x1) == fields::fs_lookup(fs1, 0x1));
        assert(fields::fs_lookup(fs12, 0x2) == None::<Seq<u8>>);
        assert(fields::fs_lookup(fs11, 0x2) == None::<Seq<u8>>);
        assert(fields::fs_lookup(fs10, 0x2) == None::<Seq<u8>>);
        assert(fields::fs_lookup(fs9, 0x2) == None::<Seq<u8>>);
        assert(fields::fs_lookup(fs8, 0x2) == None::<Seq<u8>>);
        assert(fields::fs_lookup(fs7, 0x2) == crate::packets::tlv::opt_u8_region(self.maximum_no_of_status_info));
        assert(fields::fs_lookup(fs6, 0x2) == fields::fs_lookup(fs7, 0x2));
        assert(fields::fs_lookup(fs5, 0x2) == fields::fs_lookup(fs6, 0x2));
        assert(fields::fs_lookup(fs4, 0x2) == fields::fs_lookup(fs5, 0x2));
        assert(fields::fs_lookup(fs3, 0x2) == fields::fs_lookup(fs4, 0x2));
        assert(fields::fs_lookup(fs2, 0x2) == fields::fs_lookup(fs3, 0x2));
        assert(fields::fs_lookup(fs1, 0x2) == fields::fs_lookup(fs2, 0x2));
        assert(fields::fs_lookup(fs0, 0x2) == fields::fs_lookup(fs1, 0x2));
        assert(fields::fs_lookup(fs12, 0x5) == None::<Seq<u8>>);
        assert(fields::fs_lookup(fs11, 0x5) == None::<Seq<u8>>);
        assert(fields::fs_lookup(fs10, 0x5) == None::<Seq<u8>>);
        assert(fields::fs_lookup(fs9, 0x5) == None::<Seq<u8>>);
        assert(fields::fs_lookup(fs8, 0x5) == crate::packets::tlv::opt_u8_region(self.pump_no));
        assert(fields::fs_lookup(fs7, 0x5) == fields::fs_lookup(fs8, 0x5));
        assert(fields::fs_lookup(fs6, 0x5) == fields::fs_lookup(fs7, 0x5));
        assert(fields::fs_lookup(fs5, 0x5) == fields::fs_lookup(fs6, 0x5));
        assert(fields::fs_lookup(fs4, 0x5) == fields::fs_lookup(fs5, 0x5));
        assert(fields::fs_lookup(fs3, 0x5) == fields::fs_lookup(fs4, 0x5));
        assert(fields::fs_lookup(fs2, 0x5) == fields::fs_lookup(fs3, 0x5));
        assert(fields::fs_lookup(fs1, 0x5) == fields::fs_lookup(fs2, 0x5));
        assert(fields::fs_lookup(fs0, 0x5) == fields::fs_lookup(fs1, 0x5));
        assert(fields::fs_lookup(fs12, 0x3c) == None::<Seq<u8>>);
        assert(fields::fs_lookup(fs11, 0x3c) == None::<Seq<u8>>);
        assert(fields::fs_lookup(fs10, 0x3c) == None::<Seq<u8>>);
        assert(fields::fs_lookup(fs9, 0x3c) == (match self.additional_text { Some(ref k) => Some(vstd::utf8::encode_utf8(k@)), None => None }));
        assert(fields::fs_lookup(fs8, 0x3c) == fields::fs_lookup(fs9, 0x3c));
        assert(fields::fs_lookup(fs7, 0x3c) == fields::fs_lookup(fs8, 0x3c));
        assert(fields::fs_lookup(fs6, 0x3c) == fields::fs_lookup(fs7, 0x3c));
        assert(fields::fs_lookup(fs5, 0x3c) == fields::fs_lookup(fs6, 0x3c));
        assert(fields::fs_lookup(fs4, 0x3c) == fields::fs_lookup(fs5, 0x3c));
        assert(fields::fs_lookup(fs3, 0x3c) == fields::fs_lookup(fs4, 0x3c));
        assert(fields::fs_lookup(fs2, 0x3c) == fields::fs_lookup(fs3, 0x3c));
        assert(fields::fs_lookup(fs1, 0x3c) == fields::fs_lookup(fs2, 0x3c));
        assert(fields::fs_lookup(fs0, 0x3c) == fields::fs_lookup(fs1, 0x3c));
        assert(fields::fs_lookup(fs12, 0x8a) == None::<Seq<u8>>);
        assert(fields::fs_lookup(fs11, 0x8a) == None::<Seq<u8>>);
        assert(fields::fs_lookup(fs10, 0x8a) == crate::packets::tlv::opt_u8_region(self.zvt_card_type));
        assert(fields::fs_lookup(fs9, 0x8a) == fields::fs_lookup(fs10, 0x8a));
        assert(fields::fs_lookup(fs8, 0x8a) == fields::fs_lookup(fs9, 0x8a));
        assert(fields::fs_lookup(fs7, 0x8a) == fields::fs_lookup(fs8, 0x8a));
        assert(fields::fs_lookup(fs6, 0x8a) == fields::fs_lookup(fs7, 0x8a));
        assert(fields::fs_lookup(fs5, 0x8a) == fields::fs_lookup(fs6, 0x8a));
        assert(fields::fs_lookup(fs4, 0x8a) == fields::fs_lookup(fs5, 0x8a));
        assert(fields::fs_lookup(fs3, 0x8a) == fields::fs_lookup(fs4, 0x8a));
        assert(fields::fs_lookup(fs2, 0x8a) == fields::fs_lookup(fs3, 0x8a));
        assert(fields::fs_lookup(fs1, 0x8a) == fields::fs_lookup(fs2, 0x8a));
        assert(fields::fs_lookup(fs0, 0x8a) == fields::fs_lookup(fs1, 0x8a));
        assert(fields::fs_lookup(fs12, 0x6) == None::<Seq<u8>>);
        assert(fields::fs_lookup(fs11, 0x6) == (match self.tlv { Some(ref k) => Some(k.body_bytes()), None => None }));
        assert(fields::fs_lookup(fs10, 0x6) == fields::fs_lookup(fs11, 0x6));
        assert(fields::fs_lookup(fs9, 0x6) == fields::fs_lookup(fs10, 0x6));
        assert(fields::fs_lookup(fs8, 0x6) == fields::fs_lookup(fs9, 0x6));
        assert(fields::fs_lookup(fs7, 0x6) == fields::fs_lookup(fs8, 0x6));
        assert(fields::fs_lookup(fs6, 0x6) == fields::fs_lookup(fs7, 0x6));
        assert(fields::fs_lookup(fs5, 0x6) == fields::fs_lookup(fs6, 0x6));
        assert(fields::fs_lookup(fs4, 0x6) == fields::fs_lookup(fs5, 0x6));
        assert(fields::fs_lookup(fs3, 0x6) == fields::fs_lookup(fs4, 0x6));
        assert(fields::fs_lookup(fs2, 0x6) == fields::fs_lookup(fs3, 0x6));
        assert(fields::fs_lookup(fs1, 0x6) == fields::fs_lookup(fs2, 0x6));
        assert(fields::fs_lookup(fs0, 0x6) == fields::fs_lookup(fs1, 0x6));
    }

    #[verifier::rlimit(100)]
    #[verifier::spinoff_prover]
    pub proof fn lemma_body_parses(self, s: Seq<u8>)
        requires self.wf(), s == self.body_bytes(), s.len() <= usize::MAX,
        ensures
            fields::spec_parse_fields(s, self.pos_len(), Self::spec_descs(), seq![], seq![]) == Ok::<_, ErrorView>((fields::cat_opt_entries(self.spec_fs()), s.len() as int)),
            self.pos_len() + fields::cat_opt_fields(self.spec_fs()).len() == s.len(),
    {
        let ds = Self::spec_descs();
        let fs = self.spec_fs();
        self.lemma_meta();
        let p0 = self.pos_len();
        assert(p0 == 0);
        assert(s.subrange(0, fields::cat_opt_fields(fs).len() as int) =~= fields::cat_opt_fields(fs));
        assert(fields::fs_ok(fs, ds, seq![])) by {
            assert forall|j: int| 0 <= j < fs.len() && (#[trigger] fs[j]).2 is Some implies {
                &&& encoding::tag_wf(fs[j].0)
                &&& fields::find_desc(ds, fs[j].0) matches Some(d) && d.len == fs[j].1 && fields::region_wf(d.len, d.width as int, fs[j].2.unwrap().len() as int) && (d.repeatable || (!seq![].contains(fs[j].0) && forall|i: int| 0 <= i < j ==> (#[trigger] fs[i]).0 != fs[j].0))
            } by {
                if j == 0 { assert(fs[0].0 == 0x4); }
                if j == 1 { assert(fs[1].0 == 0x49); }
                if j == 2 { assert(fs[2].0 == 0x19); }
                if j == 3 { assert(fs[3].0 == 0xe); }
                if j == 4 { assert(fs[4].0 == 0x22); }
                if j == 5 { assert(fs[5].0 == 0x23); match self.track_2_data { Some(ref x) => { encoding::lemma_hex_ascii_payload(vstd::utf8::encode_utf8(x@)); }, None => {} } }
                if j == 6 { assert(fs[6].0 == 0x1); }
                if j == 7 { assert(fs[7].0 == 0x2); }
                if j == 8 { assert(fs[8].0 == 0x5); }
                if j == 9 { assert(fs[9].0 == 0x3c); }
                if j == 10 { assert(fs[10].0 == 0x8a); }
                if j == 11 { assert(fs[11].0 == 0x6); }
            };
        };
        fields::lemma_parse_cat(s, p0, ds, seq![], seq![], fs);
        fields::lemma_parse_fields_stop(s, s.len() as int, ds, seq![] + fields::present_tags(fs), seq![] + fields::cat_opt_entries(fs));
        let seen = seq![] + fields::present_tags(fs);
        assert(seen =~= fields::present_tags(fs));
        assert forall|kk: int| 0 <= kk < ds.len() implies !(#[trigger] ds[kk]).required || seen.contains(ds[kk].tag) by {
            if kk == 0 { assert(!ds[0].required); }
            if kk == 1 { assert(!ds[1].required); }
            if kk == 2 { assert(!ds[2].required); }
            if kk == 3 { assert(!ds[3].required); }
            if kk == 4 { assert(!ds[4].required); }
            if kk == 5 { assert(!ds[5].required); }
            if kk == 6 { assert(!ds[6].required); }
            if kk == 7 { assert(!ds[7].required); }
            if kk == 8 { assert(!ds[8].required); }
            if kk == 9 { assert(!ds[9].required); }
            if kk == 10 { assert(!ds[10].required); }
            if kk == 11 { assert(!ds[11].required); }
        };
        fields::lemma_finish_ok(ds, seen, seq![] + fields::cat_opt_entries(fs), s.len() as int);
        assert(seq![] + fields::cat_opt_entries(fs) =~= fields::cat_opt_entries(fs));
    }

    pub open spec fn pos_len(self) -> int {
        0
    }

    pub open spec fn eqv(a: Self, b: Self) -> bool {
        &&& a.amount == b.amount
        &&& a.currency == b.currency
        &&& a.payment_type == b.payment_type
        &&& a.expiry_date == b.expiry_date
        &&& a.card_number == b.card_number
        &&& (match (a.track_2_data, b.track_2_data) { (Some(x), Some(y)) => x@ == y@, (None, None) => true, _ => false })
        &&& a.timeout == b.timeout
        &&& a.maximum_no_of_status_info == b.maximum_no_of_status_info
        &&& a.pump_no == b.pump_no
        &&& (match (a.additional_text, b.additional_text) { (Some(x), Some(y)) => x@ == y@, (None, None) => true, _ => false })
        &&& a.zvt_card_type == b.zvt_card_type
        &&& (match (a.tlv, b.tlv) { (Some(x), Some(y)) => tlv::PreAuthData::eqv(x, y), (None, None) => true, _ => false })
    }

    #[verifier::rlimit(100)]
    #[verifier::spinoff_prover]
    pub fn encode_body(&self) -> (r: Vec<u8>)
        requires self.wf(),
        ensures r@ == self.body_bytes(),
    {
        let ghost gfs = self.spec_fs();
        let mut out: Vec<u8> = Vec::new();
        { let mut part = self.encode_part0(); out.append(&mut part); }
        proof { assert(out@ =~= self.spec_part0()); }
        { let mut part = self.encode_part1(); out.append(&mut part); }
        proof { assert(out@ =~= self.spec_part0() + self.spec_part1()); }
        { let mut part = self.encode_part2(); out.append(&mut part); }
        proof { assert(out@ =~= self.spec_part0() + self.spec_part1() + self.spec_part2()); }
        proof {
            self.lemma_split();
            assert(out@ =~= self.body_bytes());
        }
        out
    }

    /// The serialized slices of the tagged section are the whole.
    pub proof fn lemma_split(self)
        ensures self.spec_part0() + self.spec_part1() + self.spec_part2() == fields::cat_opt_fields(self.spec_fs()),
    {
        let fs = self.spec_fs();
        fields::lemma_cat_opt_fields_split(fs.subrange(0, 12), 4);
        assert(fs.subrange(0, 12).subrange(0, 4) =~= fs.subrange(0, 4));
        assert(fs.subrange(0, 12).subrange(4, fs.subrange(0, 12).len() as int) =~= fs.subrange(4, 12));
        fields::lemma_cat_opt_fields_split(fs.subrange(4, 12), 4);
        assert(fs.subrange(4, 12).subrange(0, 4) =~= fs.subrange(4, 8));
        assert(fs.subrange(4, 12).subrange(4, fs.subrange(4, 12).len() as int) =~= fs.subrange(8, 12));
        assert(fs.subrange(0, 12) =~= fs);
    }

    pub open spec fn spec_part0(self) -> Seq<u8> {
        fields::cat_opt_fields(self.spec_fs().subrange(0, 4))
    }

    #[verifier::rlimit(100)]
    #[verifier::spinoff_prover]
    fn encode_part0(&self) -> (r: Vec<u8>)
        requires self.wf(),
        ensures r@ == self.spec_part0(),
    {
        let ghost gfs = self.spec_fs();
        let ghost gp = self.spec_fs().subrange(0, 4);
        let mut out: Vec<u8> = Vec::new();
        match self.amount { Some(k) => { let region = fields::pad_fixed(encoding::enc_bcd(k), 6); fields::ser_field(&mut out, Some(Tag(0x4)), LengthSpec::Fixed(6), &region); }, None => {} }
        proof { assert(out@ =~= fields::opt_field_bytes(gfs[0].0, gfs[0].1, gfs[0].2)); }
        match self.currency { Some(k) => { let region = fields::pad_fixed(encoding::enc_bcd(k), 2); fields::ser_field(&mut out, Some(Tag(0x49)), LengthSpec::Fixed(2), &region); }, None => {} }
        proof { assert(out@ =~= fields::opt_field_bytes(gfs[0].0, gfs[0].1, gfs[0].2) + fields::opt_field_bytes(gfs[1].0, gfs[1].1, gfs[1].2)); }
        match self.payment_type { Some(k) => { let region = encoding::enc_u8(k); fields::ser_field(&mut out, Some(Tag(0x19)), LengthSpec::Unprefixed, &region); }, None => {} }
        proof { assert(out@ =~= fields::opt_field_bytes(gfs[0].0, gfs[0].1, gfs[0].2) + fields::opt_field_bytes(gfs[1].0, gfs[1].1, gfs[1].2) + fields::opt_field_bytes(gfs[2].0, gfs[2].1, gfs[2].2)); }
        match self.expiry_date { Some(k) => { let region = fields::pad_fixed(encoding::enc_bcd(k), 2); fields::ser_field(&mut out, Some(Tag(0xe)), LengthSpec::Fixed(2), &region); }, None => {} }
        proof { assert(out@ =~= fields::opt_field_bytes(gfs[0].0, gfs[0].1, gfs[0].2) + fields::opt_field_bytes(gfs[1].0, gfs[1].1, gfs[1].2) + fields::opt_field_bytes(gfs[2].0, gfs[2].1, gfs[2].2) + fields::opt_field_bytes(gfs[3].0, gfs[3].1, gfs[3].2)); }
        proof {
        let gp0 = gp;
        let gp1 = gp0.drop_first();
        let gp2 = gp1.drop_first();
        let gp3 = gp2.drop_first();
        let gp4 = gp3.drop_first();
        assert(fields::cat_opt_fields(gp0) == fields::opt_field_bytes(gp0[0].0, gp0[0].1, gp0[0].2) + fields::cat_opt_fields(gp1)); assert(gp0[0] == gfs[0]);
        assert(fields::cat_opt_fields(gp1) == fields::opt_field_bytes(gp1[0].0, gp1[0].1, gp1[0].2) + fields::cat_opt_fields(gp2)); assert(gp1[0] == gfs[1]);
        assert(fields::cat_opt_fields(gp2) == fields::opt_field_bytes(gp2[0].0, gp2[0].1, gp2[0].2) + fields::cat_opt_fields(gp3)); assert(gp2[0] == gfs[2]);
        assert(fields::cat_opt_fields(gp3) == fields::opt_field_bytes(gp3[0].0, gp3[0].1, gp3[0].2) + fields::cat_opt_fields(gp4)); assert(gp3[0] == gfs[3]);
        assert(fields::cat_opt_fields(gp4) =~= Seq::<u8>::empty());
        assert(out@ =~= self.spec_part0());
        }
        out
    }

    pub open spec fn spec_part1(self) -> Seq<u8> {
        fields::cat_opt_fields(self.spec_fs().subrange(4, 8))
    }

    #[verifier::rlimit(100)]
    #[verifier::spinoff_prover]
    fn encode_part1(&self) -> (r: Vec<u8>)
        requires self.wf(),
        ensures r@ == self.spec_part1(),
    {
        let ghost gfs = self.spec_fs();
        let ghost gp = self.spec_fs().subrange(4, 8);
        let mut out: Vec<u8> = Vec::new();
        match self.card_number { Some(k) => { let region = encoding::enc_bcd(k); fields::ser_field(&mut out, Some(Tag(0x22)), LengthSpec::Llv(2), &region); }, None => {} }
        proof { assert(out@ =~= fields::opt_field_bytes(gfs[4].0, gfs[4].1, gfs[4].2)); }
        match self.track_2_data { Some(ref k) => { let region = encoding::enc_hex(k.as_str()); proof { encoding::lemma_hex_ascii_len(region@); encoding::lemma_hex_payload_roundtrip(region@); } fields::ser_field(&mut out, Some(Tag(0x23)), LengthSpec::Llv(2), &region); }, None => {} }
        proof { assert(out@ =~= fields::opt_field_bytes(gfs[4].0, gfs[4].1, gfs[4].2) + fields::opt_field_bytes(gfs[5].0, gfs[5].1, gfs[5].2)); }
        match self.timeout { Some(k) => { let region = encoding::enc_u8(k); fields::ser_field(&mut out, Some(Tag(0x1)), LengthSpec::Unprefixed, &region); }, None => {} }
        proof { assert(out@ =~= fields::opt_field_bytes(gfs[4].0, gfs[4].1, gfs[4].2) + fields::opt_field_bytes(gfs[5].0, gfs[5].1, gfs[5].2) + fields::opt_field_bytes(gfs[6].0, gfs[6].1, gfs[6].2)); }
        match self.maximum_no_of_status_info { Some(k) => { let region = encoding::enc_u8(k); fields::ser_field(&mut out, Some(Tag(0x2)), LengthSpec::Unprefixed, &region); }, None => {} }
        proof { assert(out@ =~= fields::opt_field_bytes(gfs[4].0, gfs[4].1, gfs[4].2) + fields::opt_field_bytes(gfs[5].0, gfs[5].1, gfs[5].2) + fields::opt_field_bytes(gfs[6].0, gfs[6].1, gfs[6].2) + fields::opt_field_bytes(gfs[7].0, gfs[7].1, gfs[7].2)); }
        proof {
        let gp0 = gp;
        let gp1 = gp0.drop_first();
        let gp2 = gp1.drop_first();
        let gp3 = gp2.drop_first();
        let gp4 = gp3.drop_first();
        assert(fields::cat_opt_fields(gp0) == fields::opt_field_bytes(gp0[0].0, gp0[0].1, gp0[0].2) + fields::cat_opt_fields(gp1)); assert(gp0[0] == gfs[4]);
        assert(fields::cat_opt_fields(gp1) == fields::opt_field_bytes(gp1[0].0, gp1[0].1, gp1[0].2) + fields::cat_opt_fields(gp2)); assert(gp1[0] == gfs[5]);
        assert(fields::cat_opt_fields(gp2) == fields::opt_field_bytes(gp2[0].0, gp2[0].1, gp2[0].2) + fields::cat_opt_fields(gp3)); assert(gp2[0] == gfs[6]);
        assert(fields::cat_opt_fields(gp3) == fields::opt_field_bytes(gp3[0].0, gp3[0].1, gp3[0].2) + fields::cat_opt_fields(gp4)); assert(gp3[0] == gfs[7]);
        assert(fields::cat_opt_fields(gp4) =~= Seq::<u8>::empty());
        assert(out@ =~= self.spec_part1());
        }
        out
    }

    pub open spec fn spec_part2(self) -> Seq<u8> {
        fields::cat_opt_fields(self.spec_fs().subrange(8, 12))
    }

    #[verifier::rlimit(100)]
    #[verifier::spinoff_prover]
    fn encode_part2(&self) -> (r: Vec<u8>)
        requires self.wf(),
        ensures r@ == self.spec_part2(),
    {
        let ghost gfs = self.spec_fs();
        let ghost gp = self.spec_fs().subrange(8, 12);
        let mut out: Vec<u8> = Vec::new();
        match self.pump_no { Some(k) => { let region = encoding::enc_u8(k); fields::ser_field(&mut out, Some(Tag(0x5)), LengthSpec::Unprefixed, &region); }, None => {} }
        proof { assert(out@ =~= fields::opt_field_bytes(gfs[8].0, gfs[8].1, gfs[8].2)); }
        match self.additional_text { Some(ref k) => { let region = encoding::str_bytes(k.as_str()); fields::ser_field(&mut out, Some(Tag(0x3c)), LengthSpec::Llv(3), &region); }, None => {} }
        proof { assert(out@ =~= fields::opt_field_bytes(gfs[8].0, gfs[8].1, gfs[8].2) + fields::opt_field_bytes(gfs[9].0, gfs[9].1, gfs[9].2)); }
        match self.zvt_card_type { Some(k) => { let region = encoding::enc_u8(k); fields::ser_field(&mut out, Some(Tag(0x8a)), LengthSpec::Unprefixed, &region); }, None => {} }
        proof { assert(out@ =~= fields::opt_field_bytes(gfs[8].0, gfs[8].1, gfs[8].2) + fields::opt_field_bytes(gfs[9].0, gfs[9].1, gfs[9].2) + fields::opt_field_bytes(gfs[10].0, gfs[10].1, gfs[10].2)); }
        match self.tlv { Some(ref k) => { let region = k.encode_body(); fields::ser_field(&mut out, Some(Tag(0x6)), LengthSpec::Tlv, &region); }, None => {} }
        proof { assert(out@ =~= fields::opt_field_bytes(gfs[8].0, gfs[8].1, gfs[8].2) + fields::opt_field_bytes(gfs[9].0, gfs[9].1, gfs[9].2) + fields::opt_field_bytes(gfs[10].0, gfs[10].1, gfs[10].2) + fields::opt_field_bytes(gfs[11].0, gfs[11].1, gfs[11].2)); }
        proof {
        let gp0 = gp;
        let gp1 = gp0.drop_first();
        let gp2 = gp1.drop_first();
        let gp3 = gp2.drop_first();
        let gp4 = gp3.drop_first();
        assert(fields::cat_opt_fields(gp0) == fields::opt_field_bytes(gp0[0].0, gp0[0].1, gp0[0].2) + fields::cat_opt_fields(gp1)); assert(gp0[0] == gfs[8]);
        assert(fields::cat_opt_fields(gp1) == fields::opt_field_bytes(gp1[0].0, gp1[0].1, gp1[0].2) + fields::cat_opt_fields(gp2)); assert(gp1[0] == gfs[9]);
        assert(fields::cat_opt_fields(gp2) == fields::opt_field_bytes(gp2[0].0, gp2[0].1, gp2[0].2) + fields::cat_opt_fields(gp3)); assert(gp2[0] == gfs[10]);
        assert(fields::cat_opt_fields(gp3) == fields::opt_field_bytes(gp3[0].0, gp3[0].1, gp3[0].2) + fields::cat_opt_fields(gp4)); assert(gp3[0] == gfs[11]);
        assert(fields::cat_opt_fields(gp4) =~= Seq::<u8>::empty());
        assert(out@ =~= self.spec_part2());
        }
        out
    }

    #[verifier::rlimit(100)]
    #[verifier::spinoff_prover]
    pub fn decode_body(bytes: &[u8]) -> (r: ZVTResult<(Self, usize)>)
        ensures
            r matches Ok(v) ==> v.1 <= bytes@.len(),
            forall|v: Self|
                v.wf() && (true) && bytes@ == #[trigger] v.body_bytes() ==> (r matches Ok(o) && Authorization::eqv(o.0, v)
                    && o.1 == bytes@.len()),
    {
        let blen_e = bytes.len();
        proof { assert(bytes@.len() <= usize::MAX); }
        proof {
            assert forall|v: Self| v.wf() && (true) && bytes@ == #[trigger] v.body_bytes() implies Authorization::master_facts(v, bytes@) by { Authorization::lemma_master(v, bytes@); };
        }
        let mut p: usize = 0;
        let descs = Self::descs();
        let parsed = fields::parse_tagged_fields(bytes, p, &descs);
        let (entries, pos_end) = match parsed { Ok(v) => v, Err(e) => { return Err(e); } };
        let f_amount = fields::entry_opt_usize_bcd(&entries, 0x4);
        let f_currency = fields::entry_opt_usize_bcd(&entries, 0x49);
        let f_payment_type = match fields::entry_opt_u8(&entries, 0x19) { Ok(v) => v, Err(e) => { return Err(e); } };
        let f_expiry_date = fields::entry_opt_usize_bcd(&entries, 0xe);
        let f_card_number = fields::entry_opt_usize_bcd(&entries, 0x22);
        let f_track_2_data = match fields::entry_opt_string(&entries, 0x23, true) { Ok(v) => v, Err(e) => { return Err(e); } };
        let f_timeout = match fields::entry_opt_u8(&entries, 0x1) { Ok(v) => v, Err(e) => { return Err(e); } };
        let f_maximum_no_of_status_info = match fields::entry_opt_u8(&entries, 0x2) { Ok(v) => v, Err(e) => { return Err(e); } };
        let f_pump_no = match fields::entry_opt_u8(&entries, 0x5) { Ok(v) => v, Err(e) => { return Err(e); } };
        let f_additional_text = match fields::entry_opt_string(&entries, 0x3c, false) { Ok(v) => v, Err(e) => { return Err(e); } };
        let f_zvt_card_type = match fields::entry_opt_u8(&entries, 0x8a) { Ok(v) => v, Err(e) => { return Err(e); } };
        let f_tlv = match fields::find_payload(&entries, 0x6) { None => None, Some(pl) => match tlv::PreAuthData::decode_body(pl.as_slice()) { Ok(v) => Some(v.0), Err(e) => { return Err(e); } } };
        let result = Self {
            amount: f_amount,
            currency: f_currency,
            payment_type: f_payment_type,
            expiry_date: f_expiry_date,
            card_number: f_card_number,
            track_2_data: f_track_2_data,
            timeout: f_timeout,
            maximum_no_of_status_info: f_maximum_no_of_status_info,
            pump_no: f_pump_no,
            additional_text: f_additional_text,
            zvt_card_type: f_zvt_card_type,
            tlv: f_tlv,
        };
        proof {
            assert forall|v: Self| v.wf() && (true) && bytes@ == #[trigger] v.body_bytes() implies Authorization::eqv(result, v) by {
                Authorization::lemma_master(v, bytes@);
                match v.amount { Some(kk) => { encoding::lemma_bcd_roundtrip(kk as nat); crate::packets::lemma_padded_bcd(kk, 6); vstd::arithmetic::div_mod::lemma_small_mod(kk as nat, encoding::usize_mod()); }, None => {} }
                match v.currency { Some(kk) => { encoding::lemma_bcd_roundtrip(kk as nat); crate::packets::lemma_padded_bcd(kk, 2); vstd::arithmetic::div_mod::lemma_small_mod(kk as nat, encoding::usize_mod()); }, None => {} }
                match v.expiry_date { Some(kk) => { encoding::lemma_bcd_roundtrip(kk as nat); crate::packets::lemma_padded_bcd(kk, 2); vstd::arithmetic::div_mod::lemma_small_mod(kk as nat, encoding::usize_mod()); }, None => {} }
                match v.card_number { Some(kk) => { encoding::lemma_bcd_roundtrip(kk as nat); vstd::arithmetic::div_mod::lemma_small_mod(kk as nat, encoding::usize_mod()); }, None => {} }
                match (v.track_2_data, f_track_2_data) { (Some(ref kk), Some(ref ss)) => { encoding::lemma_hex_ascii_payload(vstd::utf8::encode_utf8(kk@)); vstd::utf8::encode_utf8_decode_utf8(kk@); vstd::utf8::encode_utf8_decode_utf8(ss@); }, _ => {} }
                match (v.additional_text, f_additional_text) { (Some(ref kk), _) => { vstd::utf8::encode_utf8_valid_utf8(kk@); vstd::utf8::encode_utf8_decode_utf8(kk@); }, _ => {} }
                match v.tlv { Some(ref kk) => { assert(kk.wf()); }, None => {} }
            };
        }
        Ok((result, pos_end))
    }

    pub open spec fn master_facts(v: Self, s: Seq<u8>) -> bool {
        &&& (v.additional_text matches Some(k) ==> vstd::utf8::valid_utf8(vstd::utf8::encode_utf8(k@)))
        &&& fields::spec_parse_fields(s, v.pos_len(), Self::spec_descs(), seq![], seq![]) == Ok::<_, ErrorView>((fields::cat_opt_entries(v.spec_fs()), s.len() as int))
        &&& fields::find_entry(fields::cat_opt_entries(v.spec_fs()), 0x4) == (match v.amount { Some(k) => Some(fields::padded_region(LengthSpec::Fixed(6), encoding::bcd_bytes(k as nat))), None => None })
        &&& fields::find_entry(fields::cat_opt_entries(v.spec_fs()), 0x49) == (match v.currency { Some(k) => Some(fields::padded_region(LengthSpec::Fixed(2), encoding::bcd_bytes(k as nat))), None => None })
        &&& fields::find_entry(fields::cat_opt_entries(v.spec_fs()), 0x19) == crate::packets::tlv::opt_u8_region(v.payment_type)
        &&& fields::find_entry(fields::cat_opt_entries(v.spec_fs()), 0xe) == (match v.expiry_date { Some(k) => Some(fields::padded_region(LengthSpec::Fixed(2), encoding::bcd_bytes(k as nat))), None => None })
        &&& fields::find_entry(fields::cat_opt_entries(v.spec_fs()), 0x22) == (match v.card_number { Some(k) => Some(encoding::bcd_bytes(k as nat)), None => None })
        &&& fields::find_entry(fields::cat_opt_entries(v.spec_fs()), 0x23) == (match v.track_2_data { Some(ref k) => Some(encoding::hex_payload(vstd::utf8::encode_utf8(k@))), None => None })
        &&& fields::find_entry(fields::cat_opt_entries(v.spec_fs()), 0x1) == crate::packets::tlv::opt_u8_region(v.timeout)
        &&& fields::find_entry(fields::cat_opt_entries(v.spec_fs()), 0x2) == crate::packets::tlv::opt_u8_region(v.maximum_no_of_status_info)
        &&& fields::find_entry(fields::cat_opt_entries(v.spec_fs()), 0x5) == crate::packets::tlv::opt_u8_region(v.pump_no)
        &&& fields::find_entry(fields::cat_opt_entries(v.spec_fs()), 0x3c) == (match v.additional_text { Some(ref k) => Some(vstd::utf8::encode_utf8(k@)), None => None })
        &&& fields::find_entry(fields::cat_opt_entries(v.spec_fs()), 0x8a) == crate::packets::tlv::opt_u8_region(v.zvt_card_type)
        &&& fields::find_entry(fields::cat_opt_entries(v.spec_fs()), 0x6) == (match v.tlv { Some(ref k) => Some(k.body_bytes()), None => None })
    }

    #[verifier::rlimit(100)]
    #[verifier::spinoff_prover]
    pub proof fn lemma_master(v: Self, s: Seq<u8>)
        requires v.wf(), (true), s == v.body_bytes(), s.len() <= usize::MAX,
        ensures Self::master_facts(v, s),
    {
        v.lemma_meta();
        v.lemma_body_parses(s);
        let fs = v.spec_fs();
        let g0 = fs;
        let g1 = g0.drop_first();
        let g2 = g1.drop_first();
        let g3 = g2.drop_first();
        let g4 = g3.drop_first();
        let g5 = g4.drop_first();
        let g6 = g5.drop_first();
        let g7 = g6.drop_first();
        let g8 = g7.drop_first();
        let g9 = g8.drop_first();
        let g10 = g9.drop_first();
        let g11 = g10.drop_first();
        let g12 = g11.drop_first();
        assert(fields::cat_opt_fields(g0) == fields::opt_field_bytes(g0[0].0, g0[0].1, g0[0].2) + fields::cat_opt_fields(g1)); assert(g0[0] == fs[0]);
        assert(fields::cat_opt_fields(g1) == fields::opt_field_bytes(g1[0].0, g1[0].1, g1[0].2) + fields::cat_opt_fields(g2)); assert(g1[0] == fs[1]);
        assert(fields::cat_opt_fields(g2) == fields::opt_field_bytes(g2[0].0, g2[0].1, g2[0].2) + fields::cat_opt_fields(g3)); assert(g2[0] == fs[2]);
        assert(fields::cat_opt_fields(g3) == fields::opt_field_bytes(g3[0].0, g3[0].1, g3[0].2) + fields::cat_opt_fields(g4)); assert(g3[0] == fs[3]);
        assert(fields::cat_opt_fields(g4) == fields::opt_field_bytes(g4[0].0, g4[0].1, g4[0].2) + fields::cat_opt_fields(g5)); assert(g4[0] == fs[4]);
        assert(fields::cat_opt_fields(g5) == fields::opt_field_bytes(g5[0].0, g5[0].1, g5[0].2) + fields::cat_opt_fields(g6)); assert(g5[0] == fs[5]);
        assert(fields::cat_opt_fields(g6) == fields::opt_field_bytes(g6[0].0, g6[0].1, g6[0].2) + fields::cat_opt_fields(g7)); assert(g6[0] == fs[6]);
        assert(fields::cat_opt_fields(g7) == fields::opt_field_bytes(g7[0].0, g7[0].1, g7[0].2) + fields::cat_opt_fields(g8)); assert(g7[0] == fs[7]);
        assert(fields::cat_opt_fields(g8) == fields::opt_field_bytes(g8[0].0, g8[0].1, g8[0].2) + fields::cat_opt_fields(g9)); assert(g8[0] == fs[8]);
        assert(fields::cat_opt_fields(g9) == fields::opt_field_bytes(g9[0].0, g9[0].1, g9[0].2) + fields::cat_opt_fields(g10)); assert(g9[0] == fs[9]);
        assert(fields::cat_opt_fields(g10) == fields::opt_field_bytes(g10[0].0, g10[0].1, g10[0].2) + fields::cat_opt_fields(g11)); assert(g10[0] == fs[10]);
        assert(fields::cat_opt_fields(g11) == fields::opt_field_bytes(g11[0].0, g11[0].1, g11[0].2) + fields::cat_opt_fields(g12)); assert(g11[0] == fs[11]);
        assert(fields::cat_opt_fields(g12) =~= Seq::<u8>::empty());
        fields::lemma_find_entry_fs(fs, 0x4);
        fields::lemma_find_entry_fs(fs, 0x49);
        fields::lemma_find_entry_fs(fs, 0x19);
        fields::lemma_find_entry_fs(fs, 0xe);
        fields::lemma_find_entry_fs(fs, 0x22);
        fields::lemma_find_entry_fs(fs, 0x23);
        fields::lemma_find_entry_fs(fs, 0x1);
        fields::lemma_find_entry_fs(fs, 0x2);
        fields::lemma_find_entry_fs(fs, 0x5);
        fields::lemma_find_entry_fs(fs, 0x3c);
        fields::lemma_find_entry_fs(fs, 0x8a);
        fields::lemma_find_entry_fs(fs, 0x6);
        match v.additional_text { Some(ref k) => { vstd::utf8::encode_utf8_valid_utf8(k@); }, None => {} }
    }
    pub fn zvt_serialize(&self) -> (r: Vec<u8>)
        requires self.wf(), self.body_bytes().len() <= 0xffff,
        ensures r@ == crate::packets::frame_bytes(6, 1, self.body_bytes()),
    {
        let body = self.encode_body();
        crate::packets::ser_frame(6, 1, body)
    }

    pub fn zvt_deserialize(bytes: &[u8]) -> (r: ZVTResult<(Self, usize)>)
        ensures
            r matches Ok(v) ==> v.1 <= bytes@.len(),
            forall|v: Self, rest: Seq<u8>|
                v.wf() && (true) && v.body_bytes().len() <= 0xffff && bytes@ == #[trigger] (crate::packets::frame_bytes(6, 1, v.body_bytes()) + rest) ==> (r matches Ok(o) && Authorization::eqv(o.0, v) && o.1 == bytes@.len() - rest.len()),
    {
        let blen_e = bytes.len();
        proof { assert(bytes@.len() <= usize::MAX); }
        let (ps, pe) = match crate::packets::de_frame(bytes, 6, 1) {
            Ok(v) => v,
            Err(e) => {
                proof {
                    assert forall|v: Self, rest: Seq<u8>| v.wf() && (true) && v.body_bytes().len() <= 0xffff && bytes@ == #[trigger] (crate::packets::frame_bytes(6, 1, v.body_bytes()) + rest) implies false by { crate::packets::lemma_de_frame(bytes@, 6, 1, v.body_bytes(), rest); };
                }
                return Err(e);
            },
        };
        let payload = encoding::copy_range(bytes, ps, pe);
        proof {
            assert forall|v: Self, rest: Seq<u8>| v.wf() && (true) && v.body_bytes().len() <= 0xffff && bytes@ == #[trigger] (crate::packets::frame_bytes(6, 1, v.body_bytes()) + rest) implies (payload@ == v.body_bytes() && pe - ps == v.body_bytes().len() && pe == bytes@.len() - rest.len()) by { crate::packets::lemma_de_frame(bytes@, 6, 1, v.body_bytes(), rest); };
        }
        match Self::decode_body(payload.as_slice()) {
            Ok((p, consumed)) => Ok((p, ps + consumed)),
            Err(e) => Err(e),
        }
    }
}

/// A per-card-brand count and turnover total.
#[derive(Debug, PartialEq)]
pub struct NumAndTotal {
    pub num: u8,
    pub total: usize,
}

impl NumAndTotal {
    pub open spec fn wf(self) -> bool {
        &&& encoding::bcd_bytes(self.total as nat).len() <= 6
    }

    pub open spec fn spec_fs(self) -> Seq<(u16, LengthSpec, Option<Seq<u8>>)> {
        seq![
        ]
    }

    pub open spec fn body_bytes(self) -> Seq<u8> {
        seq![self.num] + (fields::padded_region(LengthSpec::Fixed(6), encoding::bcd_bytes(self.total as nat)) + (fields::cat_opt_fields(self.spec_fs())))
    }

    pub open spec fn spec_descs() -> Seq<FieldDesc> {
        seq![
        ]
    }

    fn descs() -> (r: Vec<FieldDesc>)
        ensures r@ == Self::spec_descs(),
    {
        let mut v: Vec<FieldDesc> = Vec::new();
        proof { assert(v@ =~= Self::spec_descs()); }
        v
    }

    proof fn lemma_meta(self)
        ensures
    {
        let ds = Self::spec_descs();
        let fs = self.spec_fs();
        let ds0 = ds; let fs0 = fs;
        assert(ds0 =~= Seq::<FieldDesc>::empty()); assert(fs0 =~= Seq::<(u16, LengthSpec, Option<Seq<u8>>)>::empty());
        fields::lemma_low5(0x1f);
    }

    pub proof fn lemma_body_parses(self, s: Seq<u8>)
        requires self.wf(), s == self.body_bytes(), s.len() <= usize::MAX,
        ensures
            fields::spec_parse_fields(s, self.pos_len(), Self::spec_descs(), seq![], seq![]) == Ok::<_, ErrorView>((fields::cat_opt_entries(self.spec_fs()), s.len() as int)),
            self.pos_len() + fields::cat_opt_fields(self.spec_fs()).len() == s.len(),
    {
        let ds = Self::spec_descs();
        let fs = self.spec_fs();
        self.lemma_meta();
        let p0 = self.pos_len();
        let cat = fields::cat_opt_fields(fs);
        assert(s.subrange(0, s.len() as int) =~= s);
        fields::lemma_peel(s, 0, seq![self.num], fields::padded_region(LengthSpec::Fixed(6), encoding::bcd_bytes(self.total as nat)) + (cat));
        fields::lemma_peel(s, 0 + (seq![self.num]).len() as int, fields::padded_region(LengthSpec::Fixed(6), encoding::bcd_bytes(self.total as nat)), cat);
        assert(p0 == 0 + (seq![self.num]).len() as int + (fields::padded_region(LengthSpec::Fixed(6), encoding::bcd_bytes(self.total as nat))).len() as int);
        assert(s.subrange(p0, s.len() as int) =~= cat);
        assert(s.subrange(p0, p0 + cat.len() as int) =~= cat);
        assert(fields::fs_ok(fs, ds, seq![])) by {
            assert forall|j: int| 0 <= j < fs.len() && (#[trigger] fs[j]).2 is Some implies {
                &&& encoding::tag_wf(fs[j].0)
                &&& fields::find_desc(ds, fs[j].0) matches Some(d) && d.len == fs[j].1 && fields::region_wf(d.len, d.width as int, fs[j].2.unwrap().len() as int) && (d.repeatable || (!seq![].contains(fs[j].0) && forall|i: int| 0 <= i < j ==> (#[trigger] fs[i]).0 != fs[j].0))
            } by {
            };
        };
        fields::lemma_parse_cat(s, p0, ds, seq![], seq![], fs);
        fields::lemma_parse_fields_stop(s, s.len() as int, ds, seq![] + fields::present_tags(fs), seq![] + fields::cat_opt_entries(fs));
        let seen = seq![] + fields::present_tags(fs);
        assert(seen =~= fields::present_tags(fs));
        assert forall|kk: int| 0 <= kk < ds.len() implies !(#[trigger] ds[kk]).required || seen.contains(ds[kk].tag) by {
        };
        fields::lemma_finish_ok(ds, seen, seq![] + fields::cat_opt_entries(fs), s.len() as int);
        assert(seq![] + fields::cat_opt_entries(fs) =~= fields::cat_opt_entries(fs));
    }

    pub open spec fn pos_len(self) -> int {
        (seq![self.num]).len() as int + (fields::padded_region(LengthSpec::Fixed(6), encoding::bcd_bytes(self.total as nat))).len() as int
    }

    pub fn encode_body(&self) -> (r: Vec<u8>)
        requires self.wf(),
        ensures r@ == self.body_bytes(),
    {
        let ghost gfs = self.spec_fs();
        let mut out: Vec<u8> = Vec::new();
        out.push(self.num);
        { let region = fields::pad_fixed(encoding::enc_bcd(self.total), 6); fields::ser_field(&mut out, None, LengthSpec::Fixed(6), &region); }
        proof {
            self.lemma_meta();
            let fs = self.spec_fs();
        let fs0 = fs;
        assert(fields::cat_opt_fields(fs0) =~= Seq::<u8>::empty());
            assert(out@ =~= self.body_bytes());
        }
        out
    }

    pub fn decode_body(bytes: &[u8]) -> (r: ZVTResult<(Self, usize)>)
        ensures
            r matches Ok(v) ==> v.1 <= bytes@.len(),
            forall|v: Self|
                v.wf() && (true) && bytes@ == #[trigger] v.body_bytes() ==> (r matches Ok(o) && o.0 == v
                    && o.1 == bytes@.len()),
    {
        let blen_e = bytes.len();
        proof { assert(bytes@.len() <= usize::MAX); }
        proof {
            assert forall|v: Self| v.wf() && (true) && bytes@ == #[trigger] v.body_bytes() implies NumAndTotal::master_facts(v, bytes@) by { NumAndTotal::lemma_master(v, bytes@); };
        }
        let mut p: usize = 0;
        let f_num = match fields::de_u8_tagged(bytes, p, None, LengthSpec::Unprefixed, NumEncoding::LittleEndian) { Ok((x, q)) => { p = q; x }, Err(e) => { return Err(e); } };
        let f_total = match fields::de_usize_bcd(bytes, p, LengthSpec::Fixed(6)) { Ok((x, q)) => { p = q; x }, Err(e) => { return Err(e); } };
        let descs = Self::descs();
        let parsed = fields::parse_tagged_fields(bytes, p, &descs);
        let (entries, pos_end) = match parsed { Ok(v) => v, Err(e) => { return Err(e); } };
        let result = Self {
            num: f_num,
            total: f_total,
        };
        proof {
            assert forall|v: Self| v.wf() && (true) && bytes@ == #[trigger] v.body_bytes() implies result == v by {
                NumAndTotal::lemma_master(v, bytes@);
            };
        }
        Ok((result, pos_end))
    }

    pub open spec fn master_facts(v: Self, s: Seq<u8>) -> bool {
        &&& fields::spec_de_u8_tagged(s, (0) as int, None, LengthSpec::Unprefixed, NumEncoding::LittleEndian) == Ok::<_, ZVTError>((v.num, (0 + 1) as usize))
        &&& fields::spec_de_usize_bcd(s, (0 + seq![v.num].len()) as int, LengthSpec::Fixed(6)) == Ok::<_, ZVTError>((v.total, (0 + seq![v.num].len() + 6) as usize))
        &&& fields::spec_parse_fields(s, v.pos_len(), Self::spec_descs(), seq![], seq![]) == Ok::<_, ErrorView>((fields::cat_opt_entries(v.spec_fs()), s.len() as int))
    }

    pub proof fn lemma_master(v: Self, s: Seq<u8>)
        requires v.wf(), (true), s == v.body_bytes(), s.len() <= usize::MAX,
        ensures Self::master_facts(v, s),
    {
        v.lemma_meta();
        v.lemma_body_parses(s);
        let fs = v.spec_fs();
        let g0 = fs;
        assert(fields::cat_opt_fields(g0) =~= Seq::<u8>::empty());
        let cat = fields::cat_opt_fields(fs);
        assert(s.subrange(0, s.len() as int) =~= s);
        fields::lemma_peel(s, 0, seq![v.num], fields::padded_region(LengthSpec::Fixed(6), encoding::bcd_bytes(v.total as nat)) + (cat));
        assert(s[(0) as int] == v.num) by { assert(s.subrange((0) as int, (0 + 1) as int)[0] == (seq![v.num])[0]); };
        fields::lemma_peel(s, 0 + (seq![v.num]).len() as int, fields::padded_region(LengthSpec::Fixed(6), encoding::bcd_bytes(v.total as nat)), cat);
        { let zeros = length::fixed_len_bytes(6, encoding::bcd_bytes(v.total as nat).len() as int); encoding::lemma_bcd_nat_zero_prefix(zeros, encoding::bcd_bytes(v.total as nat)); encoding::lemma_bcd_roundtrip(v.total as nat); vstd::arithmetic::div_mod::lemma_small_mod(v.total as nat, encoding::usize_mod()); assert(s.subrange((0 + (seq![v.num]).len() as int) as int, (0 + (seq![v.num]).len() as int + 6) as int) =~= fields::padded_region(LengthSpec::Fixed(6), encoding::bcd_bytes(v.total as nat))); }
    }
}

/// The per-brand turnover summary inside an end-of-day status message.
#[derive(Debug, PartialEq)]
pub struct SingleAmounts {
    pub receipt_no_start: usize,
    pub receipt_no_end: usize,
    pub girocard: NumAndTotal,
    pub jcb: NumAndTotal,
    pub eurocard: NumAndTotal,
    pub amex: NumAndTotal,
    pub visa: NumAndTotal,
    pub diners: NumAndTotal,
    pub others: NumAndTotal,
}

impl SingleAmounts {
    pub open spec fn wf(self) -> bool {
        &&& encoding::bcd_bytes(self.receipt_no_start as nat).len() <= 2
        &&& encoding::bcd_bytes(self.receipt_no_end as nat).len() <= 2
        &&& self.girocard.wf()
        &&& self.jcb.wf()
        &&& self.eurocard.wf()
        &&& self.amex.wf()
        &&& self.visa.wf()
        &&& self.diners.wf()
        &&& self.others.wf()
    }

    pub open spec fn body_bytes(self) -> Seq<u8> {
        fields::padded_region(LengthSpec::Fixed(2), encoding::bcd_bytes(self.receipt_no_start as nat)) + (fields::padded_region(LengthSpec::Fixed(2), encoding::bcd_bytes(self.receipt_no_end as nat)) + (self.girocard.body_bytes() + (self.jcb.body_bytes() + (self.eurocard.body_bytes() + (self.amex.body_bytes() + (self.visa.body_bytes() + (self.diners.body_bytes() + (self.others.body_bytes() + (Seq::<u8>::empty())))))))))
    }

    pub fn encode_body(&self) -> (r: Vec<u8>)
        requires self.wf(),
        ensures r@ == self.body_bytes(),
    {
        let mut out: Vec<u8> = Vec::new();
        { let region = fields::pad_fixed(encoding::enc_bcd(self.receipt_no_start), 2); fields::ser_field(&mut out, None, LengthSpec::Fixed(2), &region); }
        { let region = fields::pad_fixed(encoding::enc_bcd(self.receipt_no_end), 2); fields::ser_field(&mut out, None, LengthSpec::Fixed(2), &region); }
        { let mut part = self.girocard.encode_body(); out.append(&mut part); }
        { let mut part = self.jcb.encode_body(); out.append(&mut part); }
        { let mut part = self.eurocard.encode_body(); out.append(&mut part); }
        { let mut part = self.amex.encode_body(); out.append(&mut part); }
        { let mut part = self.visa.encode_body(); out.append(&mut part); }
        { let mut part = self.diners.encode_body(); out.append(&mut part); }
        { let mut part = self.others.encode_body(); out.append(&mut part); }
        proof {
            assert(out@ =~= self.body_bytes());
        }
        out
    }

    /// Each brand block is exactly seven bytes: the count and the
    /// fixed-width total.
    pub proof fn lemma_brand_len(x: NumAndTotal)
        requires x.wf(),
        ensures x.body_bytes().len() == 7,
    {
        assert(fields::cat_opt_fields(x.spec_fs()) =~= Seq::<u8>::empty()) by {
            assert(x.spec_fs() =~= Seq::<(u16, LengthSpec, Option<Seq<u8>>)>::empty());
        };
    }

    /// Decoding reads back exactly what a well-formed summary serialized
    /// to: the two receipt numbers, then the seven brand blocks in order.
    #[verifier::rlimit(100)]
    #[verifier::spinoff_prover]
    pub fn decode_body(bytes: &[u8]) -> (r: ZVTResult<(Self, usize)>)
        ensures
            r matches Ok(v) ==> v.1 <= bytes@.len(),
            forall|v: Self|
                v.wf() && bytes@ == #[trigger] v.body_bytes() ==> (r matches Ok(o) && o.0 == v && o.1 == bytes@.len()),
    {
        let blen_e = bytes.len();
        proof { assert(bytes@.len() <= usize::MAX); }
        proof {
            assert forall|v: Self| v.wf() && bytes@ == #[trigger] v.body_bytes() implies {
                &&& fields::spec_de_usize_bcd(bytes@, 0, LengthSpec::Fixed(2)) == Ok::<_, ZVTError>((v.receipt_no_start, 2usize))
                &&& fields::spec_de_usize_bcd(bytes@, 2, LengthSpec::Fixed(2)) == Ok::<_, ZVTError>((v.receipt_no_end, 4usize))
                &&& bytes@.subrange(4, 11) == v.girocard.body_bytes()
                &&& bytes@.subrange(11, 18) == v.jcb.body_bytes()
                &&& bytes@.subrange(18, 25) == v.eurocard.body_bytes()
                &&& bytes@.subrange(25, 32) == v.amex.body_bytes()
                &&& bytes@.subrange(32, 39) == v.visa.body_bytes()
                &&& bytes@.subrange(39, 46) == v.diners.body_bytes()
                &&& bytes@.subrange(46, 53) == v.others.body_bytes()
                &&& bytes@.len() == 53
            } by {
                let r1 = fields::padded_region(LengthSpec::Fixed(2), encoding::bcd_bytes(v.receipt_no_start as nat));
                let r2 = fields::padded_region(LengthSpec::Fixed(2), encoding::bcd_bytes(v.receipt_no_end as nat));
                SingleAmounts::lemma_brand_len(v.girocard);
                SingleAmounts::lemma_brand_len(v.jcb);
                SingleAmounts::lemma_brand_len(v.eurocard);
                SingleAmounts::lemma_brand_len(v.amex);
                SingleAmounts::lemma_brand_len(v.visa);
                SingleAmounts::lemma_brand_len(v.diners);
                SingleAmounts::lemma_brand_len(v.others);
                assert(bytes@.subrange(0, bytes@.len() as int) =~= bytes@);
                fields::lemma_peel(bytes@, 0, r1, r2 + (v.girocard.body_bytes() + (v.jcb.body_bytes() + (v.eurocard.body_bytes() + (v.amex.body_bytes() + (v.visa.body_bytes() + (v.diners.body_bytes() + (v.others.body_bytes() + (Seq::<u8>::empty())))))))));
                fields::lemma_peel(bytes@, 2, r2, v.girocard.body_bytes() + (v.jcb.body_bytes() + (v.eurocard.body_bytes() + (v.amex.body_bytes() + (v.visa.body_bytes() + (v.diners.body_bytes() + (v.others.body_bytes() + (Seq::<u8>::empty()))))))));
                fields::lemma_peel(bytes@, 4, v.girocard.body_bytes(), v.jcb.body_bytes() + (v.eurocard.body_bytes() + (v.amex.body_bytes() + (v.visa.body_bytes() + (v.diners.body_bytes() + (v.others.body_bytes() + (Seq::<u8>::empty())))))));
                fields::lemma_peel(bytes@, 11, v.jcb.body_bytes(), v.eurocard.body_bytes() + (v.amex.body_bytes() + (v.visa.body_bytes() + (v.diners.body_bytes() + (v.others.body_bytes() + (Seq::<u8>::empty()))))));
                fields::lemma_peel(bytes@, 18, v.eurocard.body_bytes(), v.amex.body_bytes() + (v.visa.body_bytes() + (v.diners.body_bytes() + (v.others.body_bytes() + (Seq::<u8>::empty())))));
                fields::lemma_peel(bytes@, 25, v.amex.body_bytes(), v.visa.body_bytes() + (v.diners.body_bytes() + (v.others.body_bytes() + (Seq::<u8>::empty()))));
                fields::lemma_peel(bytes@, 32, v.visa.body_bytes(), v.diners.body_bytes() + (v.others.body_bytes() + (Seq::<u8>::empty())));
                fields::lemma_peel(bytes@, 39, v.diners.body_bytes(), v.others.body_bytes() + (Seq::<u8>::empty()));
                fields::lemma_peel(bytes@, 46, v.others.body_bytes(), Seq::<u8>::empty());
                { let zeros = length::fixed_len_bytes(2, encoding::bcd_bytes(v.receipt_no_start as nat).len() as int); encoding::lemma_bcd_nat_zero_prefix(zeros, encoding::bcd_bytes(v.receipt_no_start as nat)); encoding::lemma_bcd_roundtrip(v.receipt_no_start as nat); vstd::arithmetic::div_mod::lemma_small_mod(v.receipt_no_start as nat, encoding::usize_mod()); }
                { let zeros = length::fixed_len_bytes(2, encoding::bcd_bytes(v.receipt_no_end as nat).len() as int); encoding::lemma_bcd_nat_zero_prefix(zeros, encoding::bcd_bytes(v.receipt_no_end as nat)); encoding::lemma_bcd_roundtrip(v.receipt_no_end as nat); vstd::arithmetic::div_mod::lemma_small_mod(v.receipt_no_end as nat, encoding::usize_mod()); }
            };
        }
        let mut p: usize = 0;
        let receipt_no_start = match fields::de_usize_bcd(bytes, p, LengthSpec::Fixed(2)) { Ok((x, q)) => { p = q; x }, Err(e) => { return Err(e); } };
        let receipt_no_end = match fields::de_usize_bcd(bytes, p, LengthSpec::Fixed(2)) { Ok((x, q)) => { p = q; x }, Err(e) => { return Err(e); } };
        if bytes.len() - p < 7 {
            return Err(ZVTError::IncompleteData);
        }
        let win = encoding::copy_range(bytes, p, p + 7);
        let girocard = match NumAndTotal::decode_body(win.as_slice()) { Ok((x, _)) => x, Err(e) => { return Err(e); } };
        p = p + 7;
        if bytes.len() - p < 7 {
            return Err(ZVTError::IncompleteData);
        }
        let win = encoding::copy_range(bytes, p, p + 7);
        let jcb = match NumAndTotal::decode_body(win.as_slice()) { Ok((x, _)) => x, Err(e) => { return Err(e); } };
        p = p + 7;
        if bytes.len() - p < 7 {
            return Err(ZVTError::IncompleteData);
        }
        let win = encoding::copy_range(bytes, p, p + 7);
        let eurocard = match NumAndTotal::decode_body(win.as_slice()) { Ok((x, _)) => x, Err(e) => { return Err(e); } };
        p = p + 7;
        if bytes.len() - p < 7 {
            return Err(ZVTError::IncompleteData);
        }
        let win = encoding::copy_range(bytes, p, p + 7);
        let amex = match NumAndTotal::decode_body(win.as_slice()) { Ok((x, _)) => x, Err(e) => { return Err(e); } };
        p = p + 7;
        if bytes.len() - p < 7 {
            return Err(ZVTError::IncompleteData);
        }
        let win = encoding::copy_range(bytes, p, p + 7);
        let visa = match NumAndTotal::decode_body(win.as_slice()) { Ok((x, _)) => x, Err(e) => { return Err(e); } };
        p = p + 7;
        if bytes.len() - p < 7 {
            return Err(ZVTError::IncompleteData);
        }
        let win = encoding::copy_range(bytes, p, p + 7);
        let diners = match NumAndTotal::decode_body(win.as_slice()) { Ok((x, _)) => x, Err(e) => { return Err(e); } };
        p = p + 7;
        if bytes.len() - p < 7 {
            return Err(ZVTError::IncompleteData);
        }
        let win = encoding::copy_range(bytes, p, p + 7);
        let others = match NumAndTotal::decode_body(win.as_slice()) { Ok((x, _)) => x, Err(e) => { return Err(e); } };
        p = p + 7;
        let result = SingleAmounts { receipt_no_start, receipt_no_end, girocard, jcb, eurocard, amex, visa, diners, others };
        proof {
            assert forall|v: Self| v.wf() && bytes@ == #[trigger] v.body_bytes() implies result == v by {
                assert(v.girocard.wf());
                assert(v.jcb.wf());
                assert(v.eurocard.wf());
                assert(v.amex.wf());
                assert(v.visa.wf());
                assert(v.diners.wf());
                assert(v.others.wf());
            };
        }
        Ok((result, p))
    }
}
/// The terminal's status message: the outcome and data of a transaction.
#[derive(Debug, PartialEq)]
pub struct StatusInformation {
    pub amount: Option<usize>,
    pub trace_number: Option<usize>,
    pub time: Option<usize>,
    pub date: Option<usize>,
    pub expiry_date: Option<usize>,
    pub card_sequence_number: Option<usize>,
    pub card_type: Option<u8>,
    pub card_number: Option<usize>,
    pub track_2_data: Option<String>,
    pub result_code: Option<u8>,
    pub terminal_id: Option<usize>,
    pub vu_number: Option<String>,
    pub aid_authorization_attribute: Option<String>,
    pub additional_text: Option<String>,
    pub single_amounts: Option<SingleAmounts>,
    pub receipt_no: Option<usize>,
    pub currency: Option<usize>,
    pub zvt_card_type: Option<u8>,
    pub card_name: Option<String>,
    pub zvt_card_type_id: Option<u8>,
    pub tlv: Option<tlv::StatusInformation>,
}

impl StatusInformation {
    pub open spec fn wf(self) -> bool {
        &&& (match self.amount { Some(k) => encoding::bcd_bytes(k as nat).len() <= 6, None => true })
        &&& (match self.trace_number { Some(k) => encoding::bcd_bytes(k as nat).len() <= 3, None => true })
        &&& (match self.time { Some(k) => encoding::bcd_bytes(k as nat).len() <= 3, None => true })
        &&& (match self.date { Some(k) => encoding::bcd_bytes(k as nat).len() <= 2, None => true })
        &&& (match self.expiry_date { Some(k) => encoding::bcd_bytes(k as nat).len() <= 2, None => true })
        &&& (match self.card_sequence_number { Some(k) => encoding::bcd_bytes(k as nat).len() <= 2, None => true })
        &&& (match self.card_number { Some(k) => encoding::bcd_bytes(k as nat).len() < length::pow10(2), None => true })
        &&& (match self.track_2_data { Some(ref k) => encoding::is_hex_ascii(vstd::utf8::encode_utf8(k@)) && vstd::utf8::encode_utf8(k@).len() < 2 * length::pow10(2), None => true })
        &&& (match self.terminal_id { Some(k) => encoding::bcd_bytes(k as nat).len() <= 4, None => true })
        &&& (match self.vu_number { Some(ref k) => vstd::utf8::encode_utf8(k@).len() == 15, None => true })
        &&& (match self.aid_authorization_attribute { Some(ref k) => vstd::utf8::encode_utf8(k@).len() == 8, None => true })
        &&& (match self.additional_text { Some(ref k) => vstd::utf8::encode_utf8(k@).len() < length::pow10(3), None => true })
        &&& (match self.single_amounts { Some(ref c) => c.wf() && c.body_bytes().len() < length::pow10(3), None => true })
        &&& (match self.receipt_no { Some(k) => encoding::bcd_bytes(k as nat).len() <= 2, None => true })
        &&& (match self.currency { Some(k) => encoding::bcd_bytes(k as nat).len() <= 2, None => true })
        &&& (match self.card_name { Some(ref k) => vstd::utf8::encode_utf8(k@).len() < length::pow10(2), None => true })
        &&& (match self.tlv { Some(ref c) => c.wf() && c.body_bytes().len() <= 0xffff, None => true })
    }

    pub open spec fn spec_descs() -> Seq<FieldDesc> {
        seq![
            FieldDesc { tag: 0x4, len: LengthSpec::Fixed(6), width: 0, repeatable: false, required: false },
            FieldDesc { tag: 0xb, len: LengthSpec::Fixed(3), width: 0, repeatable: false, required: false },
            FieldDesc { tag: 0xc, len: LengthSpec::Fixed(3), width: 0, repeatable: false, required: false },
            FieldDesc { tag: 0xd, len: LengthSpec::Fixed(2), width: 0, repeatable: false, required: false },
            FieldDesc { tag: 0xe, len: LengthSpec::Fixed(2), width: 0, repeatable: false, required: false },
            FieldDesc { tag: 0x17, len: LengthSpec::Fixed(2), width: 0, repeatable: false, required: false },
            FieldDesc { tag: 0x19, len: LengthSpec::Unprefixed, width: 1, repeatable: false, required: false },
            FieldDesc { tag: 0x22, len: LengthSpec::Llv(2), width: 0, repeatable: false, required: false },
            FieldDesc { tag: 0x23, len: LengthSpec::Llv(2), width: 0, repeatable: false, required: false },
            FieldDesc { tag: 0x27, len: LengthSpec::Fixed(1), width: 0, repeatable: false, required: false },
            FieldDesc { tag: 0x29, len: LengthSpec::Fixed(4), width: 0, repeatable: false, required: false },
            FieldDesc { tag: 0x2a, len: LengthSpec::Fixed(15), width: 0, repeatable: false, required: false },
            FieldDesc { tag: 0x3b, len: LengthSpec::Fixed(8), width: 0, repeatable: false, required: false },
            FieldDesc { tag: 0x3c, len: LengthSpec::Llv(3), width: 0, repeatable: false, required: false },
            FieldDesc { tag: 0x60, len: LengthSpec::Llv(3), width: 0, repeatable: false, required: false },
            FieldDesc { tag: 0x87, len: LengthSpec::Fixed(2), width: 0, repeatable: false, required: false },
            FieldDesc { tag: 0x49, len: LengthSpec::Fixed(2), width: 0, repeatable: false, required: false },
            FieldDesc { tag: 0x8a, len: LengthSpec::Unprefixed, width: 1, repeatable: false, required: false },
            FieldDesc { tag: 0x8b, len: LengthSpec::Llv(2), width: 0, repeatable: false, required: false },
            FieldDesc { tag: 0x8c, len: LengthSpec::Unprefixed, width: 1, repeatable: false, required: false },
            FieldDesc { tag: 0x6, len: LengthSpec::Tlv, width: 0, repeatable: false, required: false },
        ]
    }

    /// When the collected entries cannot be converted: a string payload
    /// that is not UTF-8, a fixed one-byte field with an empty payload,
    /// or a nested block, whose own conversion may fail.
    pub open spec fn entries_bad(entries: Seq<(u16, Seq<u8>)>) -> bool {
        ||| (match fields::find_entry(entries, 0x19) { Some(pl) => pl.len() < 1, None => false })
        ||| (match fields::find_entry(entries, 0x27) { Some(pl) => pl.len() < 1, None => false })
        ||| (match fields::find_entry(entries, 0x2a) { Some(pl) => !vstd::utf8::valid_utf8(pl), None => false })
        ||| (match fields::find_entry(entries, 0x3b) { Some(pl) => !vstd::utf8::valid_utf8(pl), None => false })
        ||| (match fields::find_entry(entries, 0x3c) { Some(pl) => !vstd::utf8::valid_utf8(pl), None => false })
        ||| fields::find_entry(entries, 0x60) is Some
        ||| (match fields::find_entry(entries, 0x8a) { Some(pl) => pl.len() < 1, None => false })
        ||| (match fields::find_entry(entries, 0x8b) { Some(pl) => !vstd::utf8::valid_utf8(pl), None => false })
        ||| (match fields::find_entry(entries, 0x8c) { Some(pl) => pl.len() < 1, None => false })
        ||| fields::find_entry(entries, 0x6) is Some
    }

    /// What each field converts to from the collected entries.
    pub open spec fn fields_match(o: Self, entries: Seq<(u16, Seq<u8>)>) -> bool {
        &&& (match fields::find_entry(entries, 0x4) { Some(pl) => o.amount == Some((encoding::bcd_nat(pl) % encoding::usize_mod()) as usize), None => o.amount is None })
        &&& (match fields::find_entry(entries, 0xb) { Some(pl) => o.trace_number == Some((encoding::bcd_nat(pl) % encoding::usize_mod()) as usize), None => o.trace_number is None })
        &&& (match fields::find_entry(entries, 0xc) { Some(pl) => o.time == Some((encoding::bcd_nat(pl) % encoding::usize_mod()) as usize), None => o.time is None })
        &&& (match fields::find_entry(entries, 0xd) { Some(pl) => o.date == Some((encoding::bcd_nat(pl) % encoding::usize_mod()) as usize), None => o.date is None })
        &&& (match fields::find_entry(entries, 0xe) { Some(pl) => o.expiry_date == Some((encoding::bcd_nat(pl) % encoding::usize_mod()) as usize), None => o.expiry_date is None })
        &&& (match fields::find_entry(entries, 0x17) { Some(pl) => o.card_sequence_number == Some((encoding::bcd_nat(pl) % encoding::usize_mod()) as usize), None => o.card_sequence_number is None })
        &&& (match fields::find_entry(entries, 0x19) { Some(pl) => pl.len() >= 1 && o.card_type == Some(pl[0]), None => o.card_type is None })
        &&& (match fields::find_entry(entries, 0x22) { Some(pl) => o.card_number == Some((encoding::bcd_nat(pl) % encoding::usize_mod()) as usize), None => o.card_number is None })
        &&& (match fields::find_entry(entries, 0x23) { Some(pl) => o.track_2_data matches Some(s) && vstd::utf8::encode_utf8(s@) == encoding::hex_ascii(pl), None => o.track_2_data is None })
        &&& (match fields::find_entry(entries, 0x27) { Some(pl) => pl.len() >= 1 && o.result_code == Some(pl[0]), None => o.result_code is None })
        &&& (match fields::find_entry(entries, 0x29) { Some(pl) => o.terminal_id == Some((encoding::bcd_nat(pl) % encoding::usize_mod()) as usize), None => o.terminal_id is None })
        &&& (match fields::find_entry(entries, 0x2a) { Some(pl) => o.vu_number matches Some(s) && vstd::utf8::encode_utf8(s@) == pl, None => o.vu_number is None })
        &&& (match fields::find_entry(entries, 0x3b) { Some(pl) => o.aid_authorization_attribute matches Some(s) && vstd::utf8::encode_utf8(s@) == pl, None => o.aid_authorization_attribute is None })
        &&& (match fields::find_entry(entries, 0x3c) { Some(pl) => o.additional_text matches Some(s) && vstd::utf8::encode_utf8(s@) == pl, None => o.additional_text is None })
        &&& (fields::find_entry(entries, 0x60) is None ==> o.single_amounts is None)
        &&& (match fields::find_entry(entries, 0x87) { Some(pl) => o.receipt_no == Some((encoding::bcd_nat(pl) % encoding::usize_mod()) as usize), None => o.receipt_no is None })
        &&& (match fields::find_entry(entries, 0x49) { Some(pl) => o.currency == Some((encoding::bcd_nat(pl) % encoding::usize_mod()) as usize), None => o.currency is None })
        &&& (match fields::find_entry(entries, 0x8a) { Some(pl) => pl.len() >= 1 && o.zvt_card_type == Some(pl[0]), None => o.zvt_card_type is None })
        &&& (match fields::find_entry(entries, 0x8b) { Some(pl) => o.card_name matches Some(s) && vstd::utf8::encode_utf8(s@) == pl, None => o.card_name is None })
        &&& (match fields::find_entry(entries, 0x8c) { Some(pl) => pl.len() >= 1 && o.zvt_card_type_id == Some(pl[0]), None => o.zvt_card_type_id is None })
        &&& (fields::find_entry(entries, 0x6) is None ==> o.tlv is None)
    }
    pub open spec fn spec_fs(self) -> Seq<(u16, LengthSpec, Option<Seq<u8>>)> {
        seq![
            (0x4u16, LengthSpec::Fixed(6), (match self.amount { Some(kk) => Some(fields::padded_region(LengthSpec::Fixed(6), encoding::bcd_bytes(kk as nat))), None => None })),
            (0xbu16, LengthSpec::Fixed(3), (match self.trace_number { Some(kk) => Some(fields::padded_region(LengthSpec::Fixed(3), encoding::bcd_bytes(kk as nat))), None => None })),
            (0xcu16, LengthSpec::Fixed(3), (match self.time { Some(kk) => Some(fields::padded_region(LengthSpec::Fixed(3), encoding::bcd_bytes(kk as nat))), None => None })),
            (0xdu16, LengthSpec::Fixed(2), (match self.date { Some(kk) => Some(fields::padded_region(LengthSpec::Fixed(2), encoding::bcd_bytes(kk as nat))), None => None })),
            (0xeu16, LengthSpec::Fixed(2), (match self.expiry_date { Some(kk) => Some(fields::padded_region(LengthSpec::Fixed(2), encoding::bcd_bytes(kk as nat))), None => None })),
            (0x17u16, LengthSpec::Fixed(2), (match self.card_sequence_number { Some(kk) => Some(fields::padded_region(LengthSpec::Fixed(2), encoding::bcd_bytes(kk as nat))), None => None })),
            (0x19u16, LengthSpec::Unprefixed, tlv::opt_u8_region(self.card_type)),
            (0x22u16, LengthSpec::Llv(2), (match self.card_number { Some(kk) => Some(encoding::bcd_bytes(kk as nat)), None => None })),
            (0x23u16, LengthSpec::Llv(2), (match self.track_2_data { Some(ref kk) => Some(encoding::hex_payload(vstd::utf8::encode_utf8(kk@))), None => None })),
            (0x27u16, LengthSpec::Fixed(1), tlv::opt_u8_region(self.result_code)),
            (0x29u16, LengthSpec::Fixed(4), (match self.terminal_id { Some(kk) => Some(fields::padded_region(LengthSpec::Fixed(4), encoding::bcd_bytes(kk as nat))), None => None })),
            (0x2au16, LengthSpec::Fixed(15), (match self.vu_number { Some(ref kk) => Some(fields::padded_region(LengthSpec::Fixed(15), vstd::utf8::encode_utf8(kk@))), None => None })),
            (0x3bu16, LengthSpec::Fixed(8), (match self.aid_authorization_attribute { Some(ref kk) => Some(fields::padded_region(LengthSpec::Fixed(8), vstd::utf8::encode_utf8(kk@))), None => None })),
            (0x3cu16, LengthSpec::Llv(3), (match self.additional_text { Some(ref kk) => Some(vstd::utf8::encode_utf8(kk@)), None => None })),
            (0x60u16, LengthSpec::Llv(3), (match self.single_amounts { Some(ref c) => Some(c.body_bytes()), None => None })),
            (0x87u16, LengthSpec::Fixed(2), (match self.receipt_no { Some(kk) => Some(fields::padded_region(LengthSpec::Fixed(2), encoding::bcd_bytes(kk as nat))), None => None })),
            (0x49u16, LengthSpec::Fixed(2), (match self.currency { Some(kk) => Some(fields::padded_region(LengthSpec::Fixed(2), encoding::bcd_bytes(kk as nat))), None => None })),
            (0x8au16, LengthSpec::Unprefixed, tlv::opt_u8_region(self.zvt_card_type)),
            (0x8bu16, LengthSpec::Llv(2), (match self.card_name { Some(ref kk) => Some(vstd::utf8::encode_utf8(kk@)), None => None })),
            (0x8cu16, LengthSpec::Unprefixed, tlv::opt_u8_region(self.zvt_card_type_id)),
            (0x6u16, LengthSpec::Tlv, (match self.tlv { Some(ref c) => Some(c.body_bytes()), None => None })),
        ]
    }

    pub open spec fn body_bytes(self) -> Seq<u8> {
        fields::cat_opt_fields(self.spec_fs())
    }

    pub open spec fn spec_part0(self) -> Seq<u8> {
        fields::cat_opt_fields(self.spec_fs().subrange(0, 4))
    }

    #[verifier::rlimit(100)]
    #[verifier::spinoff_prover]
    fn encode_part0(&self) -> (r: Vec<u8>)
        requires self.wf(),
        ensures r@ == self.spec_part0(),
    {
        let ghost gfs = self.spec_fs();
        let ghost gp = self.spec_fs().subrange(0, 4);
        let mut out: Vec<u8> = Vec::new();
        match self.amount { Some(kk) => { let region = fields::pad_fixed(encoding::enc_bcd(kk), 6); fields::ser_field(&mut out, Some(Tag(0x4)), LengthSpec::Fixed(6), &region); }, None => {} }
        proof { assert(out@ =~= fields::opt_field_bytes(gfs[0].0, gfs[0].1, gfs[0].2)); }
        match self.trace_number { Some(kk) => { let region = fields::pad_fixed(encoding::enc_bcd(kk), 3); fields::ser_field(&mut out, Some(Tag(0xb)), LengthSpec::Fixed(3), &region); }, None => {} }
        proof { assert(out@ =~= fields::opt_field_bytes(gfs[0].0, gfs[0].1, gfs[0].2) + fields::opt_field_bytes(gfs[1].0, gfs[1].1, gfs[1].2)); }
        match self.time { Some(kk) => { let region = fields::pad_fixed(encoding::enc_bcd(kk), 3); fields::ser_field(&mut out, Some(Tag(0xc)), LengthSpec::Fixed(3), &region); }, None => {} }
        proof { assert(out@ =~= fields::opt_field_bytes(gfs[0].0, gfs[0].1, gfs[0].2) + fields::opt_field_bytes(gfs[1].0, gfs[1].1, gfs[1].2) + fields::opt_field_bytes(gfs[2].0, gfs[2].1, gfs[2].2)); }
        match self.date { Some(kk) => { let region = fields::pad_fixed(encoding::enc_bcd(kk), 2); fields::ser_field(&mut out, Some(Tag(0xd)), LengthSpec::Fixed(2), &region); }, None => {} }
        proof { assert(out@ =~= fields::opt_field_bytes(gfs[0].0, gfs[0].1, gfs[0].2) + fields::opt_field_bytes(gfs[1].0, gfs[1].1, gfs[1].2) + fields::opt_field_bytes(gfs[2].0, gfs[2].1, gfs[2].2) + fields::opt_field_bytes(gfs[3].0, gfs[3].1, gfs[3].2)); }
        proof {
        let gp0 = gp;
        let gp1 = gp0.drop_first();
        let gp2 = gp1.drop_first();
        let gp3 = gp2.drop_first();
        let gp4 = gp3.drop_first();
        assert(fields::cat_opt_fields(gp0) == fields::opt_field_bytes(gp0[0].0, gp0[0].1, gp0[0].2) + fields::cat_opt_fields(gp1)); assert(gp0[0] == gfs[0]);
        assert(fields::cat_opt_fields(gp1) == fields::opt_field_bytes(gp1[0].0, gp1[0].1, gp1[0].2) + fields::cat_opt_fields(gp2)); assert(gp1[0] == gfs[1]);
        assert(fields::cat_opt_fields(gp2) == fields::opt_field_bytes(gp2[0].0, gp2[0].1, gp2[0].2) + fields::cat_opt_fields(gp3)); assert(gp2[0] == gfs[2]);
        assert(fields::cat_opt_fields(gp3) == fields::opt_field_bytes(gp3[0].0, gp3[0].1, gp3[0].2) + fields::cat_opt_fields(gp4)); assert(gp3[0] == gfs[3]);
        assert(fields::cat_opt_fields(gp4) =~= Seq::<u8>::empty());
        assert(out@ =~= self.spec_part0());
        }
        out
    }

    pub open spec fn spec_part1(self) -> Seq<u8> {
        fields::cat_opt_fields(self.spec_fs().subrange(4, 8))
    }

    #[verifier::rlimit(100)]
    #[verifier::spinoff_prover]
    fn encode_part1(&self) -> (r: Vec<u8>)
        requires self.wf(),
        ensures r@ == self.spec_part1(),
    {
        let ghost gfs = self.spec_fs();
        let ghost gp = self.spec_fs().subrange(4, 8);
        let mut out: Vec<u8> = Vec::new();
        match self.expiry_date { Some(kk) => { let region = fields::pad_fixed(encoding::enc_bcd(kk), 2); fields::ser_field(&mut out, Some(Tag(0xe)), LengthSpec::Fixed(2), &region); }, None => {} }
        proof { assert(out@ =~= fields::opt_field_bytes(gfs[4].0, gfs[4].1, gfs[4].2)); }
        match self.card_sequence_number { Some(kk) => { let region = fields::pad_fixed(encoding::enc_bcd(kk), 2); fields::ser_field(&mut out, Some(Tag(0x17)), LengthSpec::Fixed(2), &region); }, None => {} }
        proof { assert(out@ =~= fields::opt_field_bytes(gfs[4].0, gfs[4].1, gfs[4].2) + fields::opt_field_bytes(gfs[5].0, gfs[5].1, gfs[5].2)); }
        match self.card_type { Some(kk) => { let region = encoding::enc_u8(kk); fields::ser_field(&mut out, Some(Tag(0x19)), LengthSpec::Unprefixed, &region); }, None => {} }
        proof { assert(out@ =~= fields::opt_field_bytes(gfs[4].0, gfs[4].1, gfs[4].2) + fields::opt_field_bytes(gfs[5].0, gfs[5].1, gfs[5].2) + fields::opt_field_bytes(gfs[6].0, gfs[6].1, gfs[6].2)); }
        match self.card_number { Some(kk) => { let region = encoding::enc_bcd(kk); fields::ser_field(&mut out, Some(Tag(0x22)), LengthSpec::Llv(2), &region); }, None => {} }
        proof { assert(out@ =~= fields::opt_field_bytes(gfs[4].0, gfs[4].1, gfs[4].2) + fields::opt_field_bytes(gfs[5].0, gfs[5].1, gfs[5].2) + fields::opt_field_bytes(gfs[6].0, gfs[6].1, gfs[6].2) + fields::opt_field_bytes(gfs[7].0, gfs[7].1, gfs[7].2)); }
        proof {
        let gp0 = gp;
        let gp1 = gp0.drop_first();
        let gp2 = gp1.drop_first();
        let gp3 = gp2.drop_first();
        let gp4 = gp3.drop_first();
        assert(fields::cat_opt_fields(gp0) == fields::opt_field_bytes(gp0[0].0, gp0[0].1, gp0[0].2) + fields::cat_opt_fields(gp1)); assert(gp0[0] == gfs[4]);
        assert(fields::cat_opt_fields(gp1) == fields::opt_field_bytes(gp1[0].0, gp1[0].1, gp1[0].2) + fields::cat_opt_fields(gp2)); assert(gp1[0] == gfs[5]);
        assert(fields::cat_opt_fields(gp2) == fields::opt_field_bytes(gp2[0].0, gp2[0].1, gp2[0].2) + fields::cat_opt_fields(gp3)); assert(gp2[0] == gfs[6]);
        assert(fields::cat_opt_fields(gp3) == fields::opt_field_bytes(gp3[0].0, gp3[0].1, gp3[0].2) + fields::cat_opt_fields(gp4)); assert(gp3[0] == gfs[7]);
        assert(fields::cat_opt_fields(gp4) =~= Seq::<u8>::empty());
        assert(out@ =~= self.spec_part1());
        }
        out
    }

    pub open spec fn spec_part2(self) -> Seq<u8> {
        fields::cat_opt_fields(self.spec_fs().subrange(8, 12))
    }

    #[verifier::rlimit(100)]
    #[verifier::spinoff_prover]
    fn encode_part2(&self) -> (r: Vec<u8>)
        requires self.wf(),
        ensures r@ == self.spec_part2(),
    {
        let ghost gfs = self.spec_fs();
        let ghost gp = self.spec_fs().subrange(8, 12);
        let mut out: Vec<u8> = Vec::new();
        match self.track_2_data { Some(ref kk) => { let region = encoding::enc_hex(kk.as_str()); proof { encoding::lemma_hex_ascii_len(region@); encoding::lemma_hex_payload_roundtrip(region@); } fields::ser_field(&mut out, Some(Tag(0x23)), LengthSpec::Llv(2), &region); }, None => {} }
        proof { assert(out@ =~= fields::opt_field_bytes(gfs[8].0, gfs[8].1, gfs[8].2)); }
        match self.result_code { Some(kk) => { let region = encoding::enc_u8(kk); fields::ser_field(&mut out, Some(Tag(0x27)), LengthSpec::Fixed(1), &region); }, None => {} }
        proof { assert(out@ =~= fields::opt_field_bytes(gfs[8].0, gfs[8].1, gfs[8].2) + fields::opt_field_bytes(gfs[9].0, gfs[9].1, gfs[9].2)); }
        match self.terminal_id { Some(kk) => { let region = fields::pad_fixed(encoding::enc_bcd(kk), 4); fields::ser_field(&mut out, Some(Tag(0x29)), LengthSpec::Fixed(4), &region); }, None => {} }
        proof { assert(out@ =~= fields::opt_field_bytes(gfs[8].0, gfs[8].1, gfs[8].2) + fields::opt_field_bytes(gfs[9].0, gfs[9].1, gfs[9].2) + fields::opt_field_bytes(gfs[10].0, gfs[10].1, gfs[10].2)); }
        match self.vu_number { Some(ref kk) => { let region = fields::pad_fixed(encoding::str_bytes(kk.as_str()), 15); fields::ser_field(&mut out, Some(Tag(0x2a)), LengthSpec::Fixed(15), &region); }, None => {} }
        proof { assert(out@ =~= fields::opt_field_bytes(gfs[8].0, gfs[8].1, gfs[8].2) + fields::opt_field_bytes(gfs[9].0, gfs[9].1, gfs[9].2) + fields::opt_field_bytes(gfs[10].0, gfs[10].1, gfs[10].2) + fields::opt_field_bytes(gfs[11].0, gfs[11].1, gfs[11].2)); }
        proof {
        let gp0 = gp;
        let gp1 = gp0.drop_first();
        let gp2 = gp1.drop_first();
        let gp3 = gp2.drop_first();
        let gp4 = gp3.drop_first();
        assert(fields::cat_opt_fields(gp0) == fields::opt_field_bytes(gp0[0].0, gp0[0].1, gp0[0].2) + fields::cat_opt_fields(gp1)); assert(gp0[0] == gfs[8]);
        assert(fields::cat_opt_fields(gp1) == fields::opt_field_bytes(gp1[0].0, gp1[0].1, gp1[0].2) + fields::cat_opt_fields(gp2)); assert(gp1[0] == gfs[9]);
        assert(fields::cat_opt_fields(gp2) == fields::opt_field_bytes(gp2[0].0, gp2[0].1, gp2[0].2) + fields::cat_opt_fields(gp3)); assert(gp2[0] == gfs[10]);
        assert(fields::cat_opt_fields(gp3) == fields::opt_field_bytes(gp3[0].0, gp3[0].1, gp3[0].2) + fields::cat_opt_fields(gp4)); assert(gp3[0] == gfs[11]);
        assert(fields::cat_opt_fields(gp4) =~= Seq::<u8>::empty());
        assert(out@ =~= self.spec_part2());
        }
        out
    }

    pub open spec fn spec_part3(self) -> Seq<u8> {
        fields::cat_opt_fields(self.spec_fs().subrange(12, 16))
    }

    #[verifier::rlimit(100)]
    #[verifier::spinoff_prover]
    fn encode_part3(&self) -> (r: Vec<u8>)
        requires self.wf(),
        ensures r@ == self.spec_part3(),
    {
        let ghost gfs = self.spec_fs();
        let ghost gp = self.spec_fs().subrange(12, 16);
        let mut out: Vec<u8> = Vec::new();
        match self.aid_authorization_attribute { Some(ref kk) => { let region = fields::pad_fixed(encoding::str_bytes(kk.as_str()), 8); fields::ser_field(&mut out, Some(Tag(0x3b)), LengthSpec::Fixed(8), &region); }, None => {} }
        proof { assert(out@ =~= fields::opt_field_bytes(gfs[12].0, gfs[12].1, gfs[12].2)); }
        match self.additional_text { Some(ref kk) => { let region = encoding::str_bytes(kk.as_str()); fields::ser_field(&mut out, Some(Tag(0x3c)), LengthSpec::Llv(3), &region); }, None => {} }
        proof { assert(out@ =~= fields::opt_field_bytes(gfs[12].0, gfs[12].1, gfs[12].2) + fields::opt_field_bytes(gfs[13].0, gfs[13].1, gfs[13].2)); }
        match self.single_amounts { Some(ref c) => { let region = c.encode_body(); fields::ser_field(&mut out, Some(Tag(0x60)), LengthSpec::Llv(3), &region); }, None => {} }
        proof { assert(out@ =~= fields::opt_field_bytes(gfs[12].0, gfs[12].1, gfs[12].2) + fields::opt_field_bytes(gfs[13].0, gfs[13].1, gfs[13].2) + fields::opt_field_bytes(gfs[14].0, gfs[14].1, gfs[14].2)); }
        match self.receipt_no { Some(kk) => { let region = fields::pad_fixed(encoding::enc_bcd(kk), 2); fields::ser_field(&mut out, Some(Tag(0x87)), LengthSpec::Fixed(2), &region); }, None => {} }
        proof { assert(out@ =~= fields::opt_field_bytes(gfs[12].0, gfs[12].1, gfs[12].2) + fields::opt_field_bytes(gfs[13].0, gfs[13].1, gfs[13].2) + fields::opt_field_bytes(gfs[14].0, gfs[14].1, gfs[14].2) + fields::opt_field_bytes(gfs[15].0, gfs[15].1, gfs[15].2)); }
        proof {
        let gp0 = gp;
        let gp1 = gp0.drop_first();
        let gp2 = gp1.drop_first();
        let gp3 = gp2.drop_first();
        let gp4 = gp3.drop_first();
        assert(fields::cat_opt_fields(gp0) == fields::opt_field_bytes(gp0[0].0, gp0[0].1, gp0[0].2) + fields::cat_opt_fields(gp1)); assert(gp0[0] == gfs[12]);
        assert(fields::cat_opt_fields(gp1) == fields::opt_field_bytes(gp1[0].0, gp1[0].1, gp1[0].2) + fields::cat_opt_fields(gp2)); assert(gp1[0] == gfs[13]);
        assert(fields::cat_opt_fields(gp2) == fields::opt_field_bytes(gp2[0].0, gp2[0].1, gp2[0].2) + fields::cat_opt_fields(gp3)); assert(gp2[0] == gfs[14]);
        assert(fields::cat_opt_fields(gp3) == fields::opt_field_bytes(gp3[0].0, gp3[0].1, gp3[0].2) + fields::cat_opt_fields(gp4)); assert(gp3[0] == gfs[15]);
        assert(fields::cat_opt_fields(gp4) =~= Seq::<u8>::empty());
        assert(out@ =~= self.spec_part3());
        }
        out
    }

    pub open spec fn spec_part4(self) -> Seq<u8> {
        fields::cat_opt_fields(self.spec_fs().subrange(16, 20))
    }

    #[verifier::rlimit(100)]
    #[verifier::spinoff_prover]
    fn encode_part4(&self) -> (r: Vec<u8>)
        requires self.wf(),
        ensures r@ == self.spec_part4(),
    {
        let ghost gfs = self.spec_fs();
        let ghost gp = self.spec_fs().subrange(16, 20);
        let mut out: Vec<u8> = Vec::new();
        match self.currency { Some(kk) => { let region = fields::pad_fixed(encoding::enc_bcd(kk), 2); fields::ser_field(&mut out, Some(Tag(0x49)), LengthSpec::Fixed(2), &region); }, None => {} }
        proof { assert(out@ =~= fields::opt_field_bytes(gfs[16].0, gfs[16].1, gfs[16].2)); }
        match self.zvt_card_type { Some(kk) => { let region = encoding::enc_u8(kk); fields::ser_field(&mut out, Some(Tag(0x8a)), LengthSpec::Unprefixed, &region); }, None => {} }
        proof { assert(out@ =~= fields::opt_field_bytes(gfs[16].0, gfs[16].1, gfs[16].2) + fields::opt_field_bytes(gfs[17].0, gfs[17].1, gfs[17].2)); }
        match self.card_name { Some(ref kk) => { let region = encoding::str_bytes(kk.as_str()); fields::ser_field(&mut out, Some(Tag(0x8b)), LengthSpec::Llv(2), &region); }, None => {} }
        proof { assert(out@ =~= fields::opt_field_bytes(gfs[16].0, gfs[16].1, gfs[16].2) + fields::opt_field_bytes(gfs[17].0, gfs[17].1, gfs[17].2) + fields::opt_field_bytes(gfs[18].0, gfs[18].1, gfs[18].2)); }
        match self.zvt_card_type_id { Some(kk) => { let region = encoding::enc_u8(kk); fields::ser_field(&mut out, Some(Tag(0x8c)), LengthSpec::Unprefixed, &region); }, None => {} }
        proof { assert(out@ =~= fields::opt_field_bytes(gfs[16].0, gfs[16].1, gfs[16].2) + fields::opt_field_bytes(gfs[17].0, gfs[17].1, gfs[17].2) + fields::opt_field_bytes(gfs[18].0, gfs[18].1, gfs[18].2) + fields::opt_field_bytes(gfs[19].0, gfs[19].1, gfs[19].2)); }
        proof {
        let gp0 = gp;
        let gp1 = gp0.drop_first();
        let gp2 = gp1.drop_first();
        let gp3 = gp2.drop_first();
        let gp4 = gp3.drop_first();
        assert(fields::cat_opt_fields(gp0) == fields::opt_field_bytes(gp0[0].0, gp0[0].1, gp0[0].2) + fields::cat_opt_fields(gp1)); assert(gp0[0] == gfs[16]);
        assert(fields::cat_opt_fields(gp1) == fields::opt_field_bytes(gp1[0].0, gp1[0].1, gp1[0].2) + fields::cat_opt_fields(gp2)); assert(gp1[0] == gfs[17]);
        assert(fields::cat_opt_fields(gp2) == fields::opt_field_bytes(gp2[0].0, gp2[0].1, gp2[0].2) + fields::cat_opt_fields(gp3)); assert(gp2[0] == gfs[18]);
        assert(fields::cat_opt_fields(gp3) == fields::opt_field_bytes(gp3[0].0, gp3[0].1, gp3[0].2) + fields::cat_opt_fields(gp4)); assert(gp3[0] == gfs[19]);
        assert(fields::cat_opt_fields(gp4) =~= Seq::<u8>::empty());
        assert(out@ =~= self.spec_part4());
        }
        out
    }

    pub open spec fn spec_part5(self) -> Seq<u8> {
        fields::cat_opt_fields(self.spec_fs().subrange(20, 21))
    }

    #[verifier::rlimit(100)]
    #[verifier::spinoff_prover]
    fn encode_part5(&self) -> (r: Vec<u8>)
        requires self.wf(),
        ensures r@ == self.spec_part5(),
    {
        let ghost gfs = self.spec_fs();
        let ghost gp = self.spec_fs().subrange(20, 21);
        let mut out: Vec<u8> = Vec::new();
        match self.tlv { Some(ref c) => { let region = c.encode_body(); fields::ser_field(&mut out, Some(Tag(0x6)), LengthSpec::Tlv, &region); }, None => {} }
        proof { assert(out@ =~= fields::opt_field_bytes(gfs[20].0, gfs[20].1, gfs[20].2)); }
        proof {
        let gp0 = gp;
        let gp1 = gp0.drop_first();
        assert(fields::cat_opt_fields(gp0) == fields::opt_field_bytes(gp0[0].0, gp0[0].1, gp0[0].2) + fields::cat_opt_fields(gp1)); assert(gp0[0] == gfs[20]);
        assert(fields::cat_opt_fields(gp1) =~= Seq::<u8>::empty());
        assert(out@ =~= self.spec_part5());
        }
        out
    }

    /// The serialized slices of the tagged section are the whole.
    #[verifier::rlimit(100)]
    #[verifier::spinoff_prover]
    pub proof fn lemma_split(self)
        ensures self.spec_part0() + self.spec_part1() + self.spec_part2() + self.spec_part3() + self.spec_part4() + self.spec_part5() == fields::cat_opt_fields(self.spec_fs()),
    {
        let fs = self.spec_fs();
        fields::lemma_cat_opt_fields_split(fs.subrange(0, 21), 4);
        assert(fs.subrange(0, 21).subrange(0, 4) =~= fs.subrange(0, 4));
        assert(fs.subrange(0, 21).subrange(4, fs.subrange(0, 21).len() as int) =~= fs.subrange(4, 21));
        fields::lemma_cat_opt_fields_split(fs.subrange(4, 21), 4);
        assert(fs.subrange(4, 21).subrange(0, 4) =~= fs.subrange(4, 8));
        assert(fs.subrange(4, 21).subrange(4, fs.subrange(4, 21).len() as int) =~= fs.subrange(8, 21));
        fields::lemma_cat_opt_fields_split(fs.subrange(8, 21), 4);
        assert(fs.subrange(8, 21).subrange(0, 4) =~= fs.subrange(8, 12));
        assert(fs.subrange(8, 21).subrange(4, fs.subrange(8, 21).len() as int) =~= fs.subrange(12, 21));
        fields::lemma_cat_opt_fields_split(fs.subrange(12, 21), 4);
        assert(fs.subrange(12, 21).subrange(0, 4) =~= fs.subrange(12, 16));
        assert(fs.subrange(12, 21).subrange(4, fs.subrange(12, 21).len() as int) =~= fs.subrange(16, 21));
        fields::lemma_cat_opt_fields_split(fs.subrange(16, 21), 4);
        assert(fs.subrange(16, 21).subrange(0, 4) =~= fs.subrange(16, 20));
        assert(fs.subrange(16, 21).subrange(4, fs.subrange(16, 21).len() as int) =~= fs.subrange(20, 21));
        assert(fs.subrange(0, 21) =~= fs);
    }

    /// Serializes the packet body: each present field under its tag in
    /// declaration order.
    pub fn encode_body(&self) -> (r: Vec<u8>)
        requires self.wf(),
        ensures r@ == self.body_bytes(),
    {
        let mut out = self.encode_part0();
        { let mut part = self.encode_part1(); out.append(&mut part); }
        { let mut part = self.encode_part2(); out.append(&mut part); }
        { let mut part = self.encode_part3(); out.append(&mut part); }
        { let mut part = self.encode_part4(); out.append(&mut part); }
        { let mut part = self.encode_part5(); out.append(&mut part); }
        proof {
            self.lemma_split();
            assert(out@ =~= self.body_bytes());
        }
        out
    }

    pub fn zvt_serialize(&self) -> (r: Vec<u8>)
        requires self.wf(), self.body_bytes().len() <= 0xffff,
        ensures r@ == crate::packets::frame_bytes(0x04, 0x0f, self.body_bytes()),
    {
        let body = self.encode_body();
        crate::packets::ser_frame(0x04, 0x0f, body)
    }
    /// Reads the body back: exactly the spec parser's walk, then each
    /// field from its entry. A failing parse is reported as the parse's
    /// error; a failing conversion as incomplete data.
    #[verifier::rlimit(100)]
    #[verifier::spinoff_prover]
    pub fn decode_body(bytes: &[u8]) -> (r: ZVTResult<(Self, usize)>)
        ensures
            r matches Ok(v) ==> v.1 <= bytes@.len(),
            ({
                let sp = fields::spec_parse_fields(bytes@, 0, Self::spec_descs(), seq![], seq![]);
                &&& (sp matches Err(ev) ==> (r matches Err(e) && fields::error_view(e) == ev))
                &&& (sp matches Ok(pe) ==> match r {
                    Ok(o) => o.1 == pe.1 && Self::fields_match(o.0, pe.0),
                    Err(_) => Self::entries_bad(pe.0),
                })
            }),
    {
        let mut descs: Vec<FieldDesc> = Vec::new();
        descs.push(FieldDesc { tag: 0x4, len: LengthSpec::Fixed(6), width: 0, repeatable: false, required: false });
        descs.push(FieldDesc { tag: 0xb, len: LengthSpec::Fixed(3), width: 0, repeatable: false, required: false });
        descs.push(FieldDesc { tag: 0xc, len: LengthSpec::Fixed(3), width: 0, repeatable: false, required: false });
        descs.push(FieldDesc { tag: 0xd, len: LengthSpec::Fixed(2), width: 0, repeatable: false, required: false });
        descs.push(FieldDesc { tag: 0xe, len: LengthSpec::Fixed(2), width: 0, repeatable: false, required: false });
        descs.push(FieldDesc { tag: 0x17, len: LengthSpec::Fixed(2), width: 0, repeatable: false, required: false });
        descs.push(FieldDesc { tag: 0x19, len: LengthSpec::Unprefixed, width: 1, repeatable: false, required: false });
        descs.push(FieldDesc { tag: 0x22, len: LengthSpec::Llv(2), width: 0, repeatable: false, required: false });
        descs.push(FieldDesc { tag: 0x23, len: LengthSpec::Llv(2), width: 0, repeatable: false, required: false });
        descs.push(FieldDesc { tag: 0x27, len: LengthSpec::Fixed(1), width: 0, repeatable: false, required: false });
        descs.push(FieldDesc { tag: 0x29, len: LengthSpec::Fixed(4), width: 0, repeatable: false, required: false });
        descs.push(FieldDesc { tag: 0x2a, len: LengthSpec::Fixed(15), width: 0, repeatable: false, required: false });
        descs.push(FieldDesc { tag: 0x3b, len: LengthSpec::Fixed(8), width: 0, repeatable: false, required: false });
        descs.push(FieldDesc { tag: 0x3c, len: LengthSpec::Llv(3), width: 0, repeatable: false, required: false });
        descs.push(FieldDesc { tag: 0x60, len: LengthSpec::Llv(3), width: 0, repeatable: false, required: false });
        descs.push(FieldDesc { tag: 0x87, len: LengthSpec::Fixed(2), width: 0, repeatable: false, required: false });
        descs.push(FieldDesc { tag: 0x49, len: LengthSpec::Fixed(2), width: 0, repeatable: false, required: false });
        descs.push(FieldDesc { tag: 0x8a, len: LengthSpec::Unprefixed, width: 1, repeatable: false, required: false });
        descs.push(FieldDesc { tag: 0x8b, len: LengthSpec::Llv(2), width: 0, repeatable: false, required: false });
        descs.push(FieldDesc { tag: 0x8c, len: LengthSpec::Unprefixed, width: 1, repeatable: false, required: false });
        descs.push(FieldDesc { tag: 0x6, len: LengthSpec::Tlv, width: 0, repeatable: false, required: false });
        proof { assert(descs@ =~= StatusInformation::spec_descs()); }
        let (entries, pos) = match fields::parse_tagged_fields(bytes, 0, &descs) { Ok(v) => v, Err(e) => { return Err(e); } };
        let amount = fields::entry_opt_usize_bcd(&entries, 0x4);
        let trace_number = fields::entry_opt_usize_bcd(&entries, 0xb);
        let time = fields::entry_opt_usize_bcd(&entries, 0xc);
        let date = fields::entry_opt_usize_bcd(&entries, 0xd);
        let expiry_date = fields::entry_opt_usize_bcd(&entries, 0xe);
        let card_sequence_number = fields::entry_opt_usize_bcd(&entries, 0x17);
        let card_type = match fields::entry_opt_u8(&entries, 0x19) { Ok(v) => v, Err(_) => { return Err(ZVTError::IncompleteData); } };
        let card_number = fields::entry_opt_usize_bcd(&entries, 0x22);
        let track_2_data = match fields::entry_opt_string(&entries, 0x23, true) { Ok(v) => v, Err(_) => { return Err(ZVTError::IncompleteData); } };
        let result_code = match fields::entry_opt_u8(&entries, 0x27) { Ok(v) => v, Err(_) => { return Err(ZVTError::IncompleteData); } };
        let terminal_id = fields::entry_opt_usize_bcd(&entries, 0x29);
        let vu_number = match fields::entry_opt_string(&entries, 0x2a, false) { Ok(v) => v, Err(_) => { return Err(ZVTError::IncompleteData); } };
        let aid_authorization_attribute = match fields::entry_opt_string(&entries, 0x3b, false) { Ok(v) => v, Err(_) => { return Err(ZVTError::IncompleteData); } };
        let additional_text = match fields::entry_opt_string(&entries, 0x3c, false) { Ok(v) => v, Err(_) => { return Err(ZVTError::IncompleteData); } };
        let single_amounts = match fields::find_payload(&entries, 0x60) { None => None, Some(pl) => match SingleAmounts::decode_body(pl.as_slice()) { Ok(v) => Some(v.0), Err(_) => { return Err(ZVTError::IncompleteData); } } };
        let receipt_no = fields::entry_opt_usize_bcd(&entries, 0x87);
        let currency = fields::entry_opt_usize_bcd(&entries, 0x49);
        let zvt_card_type = match fields::entry_opt_u8(&entries, 0x8a) { Ok(v) => v, Err(_) => { return Err(ZVTError::IncompleteData); } };
        let card_name = match fields::entry_opt_string(&entries, 0x8b, false) { Ok(v) => v, Err(_) => { return Err(ZVTError::IncompleteData); } };
        let zvt_card_type_id = match fields::entry_opt_u8(&entries, 0x8c) { Ok(v) => v, Err(_) => { return Err(ZVTError::IncompleteData); } };
        let tlv = match fields::find_payload(&entries, 0x6) { None => None, Some(pl) => match tlv::StatusInformation::decode_body(pl.as_slice()) { Ok(v) => Some(v.0), Err(_) => { return Err(ZVTError::IncompleteData); } } };
        Ok((StatusInformation { amount, trace_number, time, date, expiry_date, card_sequence_number, card_type, card_number, track_2_data, result_code, terminal_id, vu_number, aid_authorization_attribute, additional_text, single_amounts, receipt_no, currency, zvt_card_type, card_name, zvt_card_type_id, tlv }, pos))
    }

    /// Reads a whole frame: control field, length, body.
    pub fn zvt_deserialize(bytes: &[u8]) -> (r: ZVTResult<(Self, usize)>)
        ensures r matches Ok(v) ==> v.1 <= bytes@.len(),
    {
        let (ps, pe) = match crate::packets::de_frame(bytes, 0x04, 0x0f) { Ok(v) => v, Err(e) => { return Err(e); } };
        let payload = encoding::copy_range(bytes, ps, pe);
        match Self::decode_body(payload.as_slice()) {
            Ok((p, consumed)) => Ok((p, ps + consumed)),
            Err(e) => Err(e),
        }
    }
}
/// A whole receipt handed to the ECR as one block of lines.
#[derive(Debug, PartialEq)]
pub struct PrintTextBlock {
    pub tlv: Option<tlv::PrintTextBlock>,
}

impl PrintTextBlock {
    pub open spec fn wf(self) -> bool {
        &&& (match self.tlv { Some(ref k) => k.wf() && k.body_bytes().len() <= 0xffff, None => true })
    }

    pub open spec fn spec_fs(self) -> Seq<(u16, LengthSpec, Option<Seq<u8>>)> {
        seq![
            (0x6u16, LengthSpec::Tlv, (match self.tlv { Some(ref k) => Some(k.body_bytes()), None => None })),
        ]
    }

    pub open spec fn body_bytes(self) -> Seq<u8> {
        fields::cat_opt_fields(self.spec_fs())
    }

    pub open spec fn spec_descs() -> Seq<FieldDesc> {
        seq![
            FieldDesc { tag: 0x6, len: LengthSpec::Tlv, width: 0, repeatable: false, required: false },
        ]
    }

    fn descs() -> (r: Vec<FieldDesc>)
        ensures r@ == Self::spec_descs(),
    {
        let mut v: Vec<FieldDesc> = Vec::new();
        v.push(FieldDesc { tag: 0x6, len: LengthSpec::Tlv, width: 0, repeatable: false, required: false });
        proof { assert(v@ =~= Self::spec_descs()); }
        v
    }

    proof fn lemma_meta(self)
        ensures
            fields::find_desc(Self::spec_descs(), 0x6) == Some(Self::spec_descs()[0]),
            encoding::tag_wf(0x6),
            fields::fs_lookup(self.spec_fs(), 0x6) == (match self.tlv { Some(ref k) => Some(k.body_bytes()), None => None }),
    {
        let ds = Self::spec_descs();
        let fs = self.spec_fs();
        let ds0 = ds; let fs0 = fs;
        let ds1 = ds0.drop_first(); let fs1 = fs0.drop_first();
        assert(ds0[0] == ds[0]); assert(fs0[0] == fs[0]);
        assert(ds0.len() == 1); assert(fs0.len() == 1);
        assert(ds1 =~= Seq::<FieldDesc>::empty()); assert(fs1 =~= Seq::<(u16, LengthSpec, Option<Seq<u8>>)>::empty());
        fields::lemma_low5(0x1f);
        fields::lemma_low5(0x6);
        assert(fields::find_desc(ds0, 0x6) == Some(ds[0]));
        assert(fields::fs_lookup(fs1, 0x6) == None::<Seq<u8>>);
        assert(fields::fs_lookup(fs0, 0x6) == (match self.tlv { Some(ref k) => Some(k.body_bytes()), None => None })) by { match self.tlv { _ => {} } };
    }

    pub proof fn lemma_body_parses(self, s: Seq<u8>)
        requires self.wf(), s == self.body_bytes(), s.len() <= usize::MAX,
        ensures
            fields::spec_parse_fields(s, self.pos_len(), Self::spec_descs(), seq![], seq![]) == Ok::<_, ErrorView>((fields::cat_opt_entries(self.spec_fs()), s.len() as int)),
            self.pos_len() + fields::cat_opt_fields(self.spec_fs()).len() == s.len(),
    {
        let ds = Self::spec_descs();
        let fs = self.spec_fs();
        self.lemma_meta();
        let p0 = self.pos_len();
        assert(p0 == 0);
        assert(s.subrange(0, fields::cat_opt_fields(fs).len() as int) =~= fields::cat_opt_fields(fs));
        assert(fields::fs_ok(fs, ds, seq![])) by {
            assert forall|j: int| 0 <= j < fs.len() && (#[trigger] fs[j]).2 is Some implies {
                &&& encoding::tag_wf(fs[j].0)
                &&& fields::find_desc(ds, fs[j].0) matches Some(d) && d.len == fs[j].1 && fields::region_wf(d.len, d.width as int, fs[j].2.unwrap().len() as int) && (d.repeatable || (!seq![].contains(fs[j].0) && forall|i: int| 0 <= i < j ==> (#[trigger] fs[i]).0 != fs[j].0))
            } by {
                if j == 0 { assert(fs[0].0 == 0x6); }
            };
        };
        fields::lemma_parse_cat(s, p0, ds, seq![], seq![], fs);
        fields::lemma_parse_fields_stop(s, s.len() as int, ds, seq![] + fields::present_tags(fs), seq![] + fields::cat_opt_entries(fs));
        let seen = seq![] + fields::present_tags(fs);
        assert(seen =~= fields::present_tags(fs));
        assert forall|kk: int| 0 <= kk < ds.len() implies !(#[trigger] ds[kk]).required || seen.contains(ds[kk].tag) by {
            if kk == 0 { assert(!ds[0].required); }
        };
        fields::lemma_finish_ok(ds, seen, seq![] + fields::cat_opt_entries(fs), s.len() as int);
        assert(seq![] + fields::cat_opt_entries(fs) =~= fields::cat_opt_entries(fs));
    }

    pub open spec fn pos_len(self) -> int {
        0
    }

    pub open spec fn eqv(a: Self, b: Self) -> bool {
        &&& (match (a.tlv, b.tlv) { (Some(x), Some(y)) => tlv::PrintTextBlock::eqv(x, y), (None, None) => true, _ => false })
    }

    pub fn encode_body(&self) -> (r: Vec<u8>)
        requires self.wf(),
        ensures r@ == self.body_bytes(),
    {
        let ghost gfs = self.spec_fs();
        let mut out: Vec<u8> = Vec::new();
        match self.tlv { Some(ref k) => { let region = k.encode_body(); fields::ser_field(&mut out, Some(Tag(0x6)), LengthSpec::Tlv, &region); }, None => {} }
        proof { assert(out@ =~= fields::opt_field_bytes(gfs[0].0, gfs[0].1, gfs[0].2)); }
        proof {
            self.lemma_meta();
            let fs = self.spec_fs();
        let fs0 = fs;
        let fs1 = fs0.drop_first();
        assert(fields::cat_opt_fields(fs0) == fields::opt_field_bytes(fs0[0].0, fs0[0].1, fs0[0].2) + fields::cat_opt_fields(fs1)); assert(fs0[0] == fs[0]);
        assert(fields::cat_opt_fields(fs1) =~= Seq::<u8>::empty());
            assert(out@ =~= self.body_bytes());
        }
        out
    }

    pub fn decode_body(bytes: &[u8]) -> (r: ZVTResult<(Self, usize)>)
        ensures
            r matches Ok(v) ==> v.1 <= bytes@.len(),
            forall|v: Self|
                v.wf() && (true) && bytes@ == #[trigger] v.body_bytes() ==> (r matches Ok(o) && PrintTextBlock::eqv(o.0, v)
                    && o.1 == bytes@.len()),
    {
        let blen_e = bytes.len();
        proof { assert(bytes@.len() <= usize::MAX); }
        proof {
            assert forall|v: Self| v.wf() && (true) && bytes@ == #[trigger] v.body_bytes() implies PrintTextBlock::master_facts(v, bytes@) by { PrintTextBlock::lemma_master(v, bytes@); };
        }
        let mut p: usize = 0;
        let descs = Self::descs();
        let parsed = fields::parse_tagged_fields(bytes, p, &descs);
        let (entries, pos_end) = match parsed { Ok(v) => v, Err(e) => { return Err(e); } };
        let f_tlv = match fields::find_payload(&entries, 0x6) { None => None, Some(pl) => match tlv::PrintTextBlock::decode_body(pl.as_slice()) { Ok(v) => Some(v.0), Err(e) => { return Err(e); } } };
        let result = Self {
            tlv: f_tlv,
        };
        proof {
            assert forall|v: Self| v.wf() && (true) && bytes@ == #[trigger] v.body_bytes() implies PrintTextBlock::eqv(result, v) by {
                PrintTextBlock::lemma_master(v, bytes@);
                match v.tlv { Some(ref kk) => { assert(kk.wf()); }, None => {} }
            };
        }
        Ok((result, pos_end))
    }

    pub open spec fn master_facts(v: Self, s: Seq<u8>) -> bool {
        &&& fields::spec_parse_fields(s, v.pos_len(), Self::spec_descs(), seq![], seq![]) == Ok::<_, ErrorView>((fields::cat_opt_entries(v.spec_fs()), s.len() as int))
        &&& fields::find_entry(fields::cat_opt_entries(v.spec_fs()), 0x6) == (match v.tlv { Some(ref k) => Some(k.body_bytes()), None => None })
    }

    pub proof fn lemma_master(v: Self, s: Seq<u8>)
        requires v.wf(), (true), s == v.body_bytes(), s.len() <= usize::MAX,
        ensures Self::master_facts(v, s),
    {
        v.lemma_meta();
        v.lemma_body_parses(s);
        let fs = v.spec_fs();
        let g0 = fs;
        let g1 = g0.drop_first();
        assert(fields::cat_opt_fields(g0) == fields::opt_field_bytes(g0[0].0, g0[0].1, g0[0].2) + fields::cat_opt_fields(g1)); assert(g0[0] == fs[0]);
        assert(fields::cat_opt_fields(g1) =~= Seq::<u8>::empty());
        fields::lemma_find_entry_fs(fs, 0x6);
    }
    pub fn zvt_serialize(&self) -> (r: Vec<u8>)
        requires self.wf(), self.body_bytes().len() <= 0xffff,
        ensures r@ == crate::packets::frame_bytes(6, 211, self.body_bytes()),
    {
        let body = self.encode_body();
        crate::packets::ser_frame(6, 211, body)
    }

    pub fn zvt_deserialize(bytes: &[u8]) -> (r: ZVTResult<(Self, usize)>)
        ensures
            r matches Ok(v) ==> v.1 <= bytes@.len(),
            forall|v: Self, rest: Seq<u8>|
                v.wf() && (true) && v.body_bytes().len() <= 0xffff && bytes@ == #[trigger] (crate::packets::frame_bytes(6, 211, v.body_bytes()) + rest) ==> (r matches Ok(o) && PrintTextBlock::eqv(o.0, v) && o.1 == bytes@.len() - rest.len()),
    {
        let blen_e = bytes.len();
        proof { assert(bytes@.len() <= usize::MAX); }
        let (ps, pe) = match crate::packets::de_frame(bytes, 6, 211) {
            Ok(v) => v,
            Err(e) => {
                proof {
                    assert forall|v: Self, rest: Seq<u8>| v.wf() && (true) && v.body_bytes().len() <= 0xffff && bytes@ == #[trigger] (crate::packets::frame_bytes(6, 211, v.body_bytes()) + rest) implies false by { crate::packets::lemma_de_frame(bytes@, 6, 211, v.body_bytes(), rest); };
                }
                return Err(e);
            },
        };
        let payload = encoding::copy_range(bytes, ps, pe);
        proof {
            assert forall|v: Self, rest: Seq<u8>| v.wf() && (true) && v.body_bytes().len() <= 0xffff && bytes@ == #[trigger] (crate::packets::frame_bytes(6, 211, v.body_bytes()) + rest) implies (payload@ == v.body_bytes() && pe - ps == v.body_bytes().len() && pe == bytes@.len() - rest.len()) by { crate::packets::lemma_de_frame(bytes@, 6, 211, v.body_bytes(), rest); };
        }
        match Self::decode_body(payload.as_slice()) {
            Ok((p, consumed)) => Ok((p, ps + consumed)),
            Err(e) => Err(e),
        }
    }
}

} // verus!
