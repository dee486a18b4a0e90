//! The vendor packets.

use crate::encoding;
use crate::errors::ZVTError;
use crate::errors::ZVTResult;
use crate::feig::tlv;
use crate::fields;
use crate::fields::ErrorView;
use crate::fields::FieldDesc;
use crate::fields::LengthSpec;
use crate::fields::NumEncoding;
use crate::length;
use crate::Tag;
use vstd::prelude::*;

verus! {

/// The terminal asks for a slice of a file during a firmware update.
#[derive(Debug, PartialEq)]
pub struct RequestForData {
    pub tlv: Option<tlv::WriteData>,
}

impl RequestForData {
    pub open spec fn wf(self) -> bool {
        &&& (match self.tlv { Some(ref k) => k.wf() && k.body_bytes().len() <= 0xffff, None => true })
    }

    pub open spec fn spec_fs(self) -> Seq<(u16, LengthSpec, Option<Seq<u8>>)> {
        seq![
            (0x6u16, LengthSpec::Tlv, (match self.tlv { Some(ref k) => Some(k.body_bytes()), None => None })),
        ]
    }

    pub open spec fn body_bytes(self) -> Seq<u8> {
        fields::cat_opt_fields(self.spec_fs())
    }

    pub open spec fn spec_descs() -> Seq<FieldDesc> {
        seq![
            FieldDesc { tag: 0x6, len: LengthSpec::Tlv, width: 0, repeatable: false, required: false },
        ]
    }

    fn descs() -> (r: Vec<FieldDesc>)
        ensures r@ == Self::spec_descs(),
    {
        let mut v: Vec<FieldDesc> = Vec::new();
        v.push(FieldDesc { tag: 0x6, len: LengthSpec::Tlv, width: 0, repeatable: false, required: false });
        proof { assert(v@ =~= Self::spec_descs()); }
        v
    }

    proof fn lemma_meta(self)
        ensures
            fields::find_desc(Self::spec_descs(), 0x6) == Some(Self::spec_descs()[0]),
            encoding::tag_wf(0x6),
            fields::fs_lookup(self.spec_fs(), 0x6) == (match self.tlv { Some(ref k) => Some(k.body_bytes()), None => None }),
    {
        let ds = Self::spec_descs();
        let fs = self.spec_fs();
        let ds0 = ds; let fs0 = fs;
        let ds1 = ds0.drop_first(); let fs1 = fs0.drop_first();
        assert(ds0[0] == ds[0]); assert(fs0[0] == fs[0]);
        assert(ds0.len() == 1); assert(fs0.len() == 1);
        assert(ds1 =~= Seq::<FieldDesc>::empty()); assert(fs1 =~= Seq::<(u16, LengthSpec, Option<Seq<u8>>)>::empty());
        fields::lemma_low5(0x1f);
        fields::lemma_low5(0x6);
        assert(fields::find_desc(ds0, 0x6) == Some(ds[0]));
        assert(fields::fs_lookup(fs1, 0x6) == None::<Seq<u8>>);
        assert(fields::fs_lookup(fs0, 0x6) == (match self.tlv { Some(ref k) => Some(k.body_bytes()), None => None }));
    }

    pub proof fn lemma_body_parses(self, s: Seq<u8>)
        requires self.wf(), s == self.body_bytes(), s.len() <= usize::MAX,
        ensures
            fields::spec_parse_fields(s, self.pos_len(), Self::spec_descs(), seq![], seq![]) == Ok::<_, ErrorView>((fields::cat_opt_entries(self.spec_fs()), s.len() as int)),
            self.pos_len() + fields::cat_opt_fields(self.spec_fs()).len() == s.len(),
    {
        let ds = Self::spec_descs();
        let fs = self.spec_fs();
        self.lemma_meta();
        let p0 = self.pos_len();
        assert(p0 == 0);
        assert(s.subrange(0, fields::cat_opt_fields(fs).len() as int) =~= fields::cat_opt_fields(fs));
        assert(fields::fs_ok(fs, ds, seq![])) by {
            assert forall|j: int| 0 <= j < fs.len() && (#[trigger] fs[j]).2 is Some implies {
                &&& encoding::tag_wf(fs[j].0)
                &&& fields::find_desc(ds, fs[j].0) matches Some(d) && d.len == fs[j].1 && fields::region_wf(d.len, d.width as int, fs[j].2.unwrap().len() as int) && (d.repeatable || (!seq![].contains(fs[j].0) && forall|i: int| 0 <= i < j ==> (#[trigger] fs[i]).0 != fs[j].0))
            } by {
                if j == 0 { assert(fs[0].0 == 0x6); }
            };
        };
        fields::lemma_parse_cat(s, p0, ds, seq![], seq![], fs);
        fields::lemma_parse_fields_stop(s, s.len() as int, ds, seq![] + fields::present_tags(fs), seq![] + fields::cat_opt_entries(fs));
        let seen = seq![] + fields::present_tags(fs);
        assert(seen =~= fields::present_tags(fs));
        assert forall|kk: int| 0 <= kk < ds.len() implies !(#[trigger] ds[kk]).required || seen.contains(ds[kk].tag) by {
            if kk == 0 { assert(!ds[0].required); }
        };
        fields::lemma_finish_ok(ds, seen, seq![] + fields::cat_opt_entries(fs), s.len() as int);
        assert(seq![] + fields::cat_opt_entries(fs) =~= fields::cat_opt_entries(fs));
    }

    pub open spec fn pos_len(self) -> int {
        0
    }

    pub open spec fn eqv(a: Self, b: Self) -> bool {
        &&& (match (a.tlv, b.tlv) { (Some(x), Some(y)) => tlv::WriteData::eqv(x, y), (None, None) => true, _ => false })
    }

    pub fn encode_body(&self) -> (r: Vec<u8>)
        requires self.wf(),
        ensures r@ == self.body_bytes(),
    {
        let ghost gfs = self.spec_fs();
        let mut out: Vec<u8> = Vec::new();
        match self.tlv { Some(ref k) => { let region = k.encode_body(); fields::ser_field(&mut out, Some(Tag(0x6)), LengthSpec::Tlv, &region); }, None => {} }
        proof { assert(out@ =~= fields::opt_field_bytes(gfs[0].0, gfs[0].1, gfs[0].2)); }
        proof {
            self.lemma_meta();
            let fs = self.spec_fs();
        let fs0 = fs;
        let fs1 = fs0.drop_first();
        assert(fields::cat_opt_fields(fs0) == fields::opt_field_bytes(fs0[0].0, fs0[0].1, fs0[0].2) + fields::cat_opt_fields(fs1)); assert(fs0[0] == fs[0]);
        assert(fields::cat_opt_fields(fs1) =~= Seq::<u8>::empty());
            assert(out@ =~= self.body_bytes());
        }
        out
    }

    pub fn decode_body(bytes: &[u8]) -> (r: ZVTResult<(Self, usize)>)
        ensures
            r matches Ok(v) ==> v.1 <= bytes@.len(),
            forall|v: Self|
                v.wf() && ((match v.tlv { Some(w) => (match w.file { Some(f) => (match f.payload { Some(pl) => pl@.len() > 0, None => true }), None => true }), None => true })) && bytes@ == #[trigger] v.body_bytes() ==> (r matches Ok(o) && RequestForData::eqv(o.0, v)
                    && o.1 == bytes@.len()),
    {
        let blen_e = bytes.len();
        proof { assert(bytes@.len() <= usize::MAX); }
        proof {
            assert forall|v: Self| v.wf() && ((match v.tlv { Some(w) => (match w.file { Some(f) => (match f.payload { Some(pl) => pl@.len() > 0, None => true }), None => true }), None => true })) && bytes@ == #[trigger] v.body_bytes() implies RequestForData::master_facts(v, bytes@) by { RequestForData::lemma_master(v, bytes@); };
        }
        let mut p: usize = 0;
        let descs = Self::descs();
        let parsed = fields::parse_tagged_fields(bytes, p, &descs);
        let (entries, pos_end) = match parsed { Ok(v) => v, Err(e) => { return Err(e); } };
        let f_tlv = match fields::find_payload(&entries, 0x6) { None => None, Some(pl) => match tlv::WriteData::decode_body(pl.as_slice()) { Ok(v) => Some(v.0), Err(e) => { return Err(e); } } };
        let result = Self {
            tlv: f_tlv,
        };
        proof {
            assert forall|v: Self| v.wf() && ((match v.tlv { Some(w) => (match w.file { Some(f) => (match f.payload { Some(pl) => pl@.len() > 0, None => true }), None => true }), None => true })) && bytes@ == #[trigger] v.body_bytes() implies RequestForData::eqv(result, v) by {
                RequestForData::lemma_master(v, bytes@);
                match v.tlv { Some(ref kk) => { assert(kk.wf()); }, None => {} }
            };
        }
        Ok((result, pos_end))
    }

    pub open spec fn master_facts(v: Self, s: Seq<u8>) -> bool {
        &&& fields::spec_parse_fields(s, v.pos_len(), Self::spec_descs(), seq![], seq![]) == Ok::<_, ErrorView>((fields::cat_opt_entries(v.spec_fs()), s.len() as int))
        &&& fields::find_entry(fields::cat_opt_entries(v.spec_fs()), 0x6) == (match v.tlv { Some(ref k) => Some(k.body_bytes()), None => None })
    }

    pub proof fn lemma_master(v: Self, s: Seq<u8>)
        requires v.wf(), ((match v.tlv { Some(w) => (match w.file { Some(f) => (match f.payload { Some(pl) => pl@.len() > 0, None => true }), None => true }), None => true })), s == v.body_bytes(), s.len() <= usize::MAX,
        ensures Self::master_facts(v, s),
    {
        v.lemma_meta();
        v.lemma_body_parses(s);
        let fs = v.spec_fs();
        let g0 = fs;
        let g1 = g0.drop_first();
        assert(fields::cat_opt_fields(g0) == fields::opt_field_bytes(g0[0].0, g0[0].1, g0[0].2) + fields::cat_opt_fields(g1)); assert(g0[0] == fs[0]);
        assert(fields::cat_opt_fields(g1) =~= Seq::<u8>::empty());
        fields::lemma_find_entry_fs(fs, 0x6);
    }
    pub fn zvt_serialize(&self) -> (r: Vec<u8>)
        requires self.wf(), self.body_bytes().len() <= 0xffff,
        ensures r@ == crate::packets::frame_bytes(4, 12, self.body_bytes()),
    {
        let body = self.encode_body();
        crate::packets::ser_frame(4, 12, body)
    }

    pub fn zvt_deserialize(bytes: &[u8]) -> (r: ZVTResult<(Self, usize)>)
        ensures
            r matches Ok(v) ==> v.1 <= bytes@.len(),
            forall|v: Self, rest: Seq<u8>|
                v.wf() && ((match v.tlv { Some(w) => (match w.file { Some(f) => (match f.payload { Some(pl) => pl@.len() > 0, None => true }), None => true }), None => true })) && v.body_bytes().len() <= 0xffff && bytes@ == #[trigger] (crate::packets::frame_bytes(4, 12, v.body_bytes()) + rest) ==> (r matches Ok(o) && RequestForData::eqv(o.0, v) && o.1 == bytes@.len() - rest.len()),
    {
        let blen_e = bytes.len();
        proof { assert(bytes@.len() <= usize::MAX); }
        let (ps, pe) = match crate::packets::de_frame(bytes, 4, 12) {
            Ok(v) => v,
            Err(e) => {
                proof {
                    assert forall|v: Self, rest: Seq<u8>| v.wf() && ((match v.tlv { Some(w) => (match w.file { Some(f) => (match f.payload { Some(pl) => pl@.len() > 0, None => true }), None => true }), None => true })) && v.body_bytes().len() <= 0xffff && bytes@ == #[trigger] (crate::packets::frame_bytes(4, 12, v.body_bytes()) + rest) implies false by { crate::packets::lemma_de_frame(bytes@, 4, 12, v.body_bytes(), rest); };
                }
                return Err(e);
            },
        };
        let payload = encoding::copy_range(bytes, ps, pe);
        proof {
            assert forall|v: Self, rest: Seq<u8>| v.wf() && ((match v.tlv { Some(w) => (match w.file { Some(f) => (match f.payload { Some(pl) => pl@.len() > 0, None => true }), None => true }), None => true })) && v.body_bytes().len() <= 0xffff && bytes@ == #[trigger] (crate::packets::frame_bytes(4, 12, v.body_bytes()) + rest) implies (payload@ == v.body_bytes() && pe - ps == v.body_bytes().len() && pe == bytes@.len() - rest.len()) by { crate::packets::lemma_de_frame(bytes@, 4, 12, v.body_bytes(), rest); };
        }
        match Self::decode_body(payload.as_slice()) {
            Ok((p, consumed)) => Ok((p, ps + consumed)),
            Err(e) => Err(e),
        }
    }
}

/// A slice of a file sent to the terminal during a firmware update.
#[derive(Debug, PartialEq)]
pub struct WriteData {
    pub tlv: Option<tlv::WriteData>,
}

impl WriteData {
    pub open spec fn wf(self) -> bool {
        &&& (match self.tlv { Some(ref k) => k.wf() && k.body_bytes().len() <= 0xffff, None => true })
    }

    pub open spec fn spec_fs(self) -> Seq<(u16, LengthSpec, Option<Seq<u8>>)> {
        seq![
            (0x6u16, LengthSpec::Tlv, (match self.tlv { Some(ref k) => Some(k.body_bytes()), None => None })),
        ]
    }

    pub open spec fn body_bytes(self) -> Seq<u8> {
        fields::cat_opt_fields(self.spec_fs())
    }

    pub open spec fn spec_descs() -> Seq<FieldDesc> {
        seq![
            FieldDesc { tag: 0x6, len: LengthSpec::Tlv, width: 0, repeatable: false, required: false },
        ]
    }

    fn descs() -> (r: Vec<FieldDesc>)
        ensures r@ == Self::spec_descs(),
    {
        let mut v: Vec<FieldDesc> = Vec::new();
        v.push(FieldDesc { tag: 0x6, len: LengthSpec::Tlv, width: 0, repeatable: false, required: false });
        proof { assert(v@ =~= Self::spec_descs()); }
        v
    }

    proof fn lemma_meta(self)
        ensures
            fields::find_desc(Self::spec_descs(), 0x6) == Some(Self::spec_descs()[0]),
            encoding::tag_wf(0x6),
            fields::fs_lookup(self.spec_fs(), 0x6) == (match self.tlv { Some(ref k) => Some(k.body_bytes()), None => None }),
    {
        let ds = Self::spec_descs();
        let fs = self.spec_fs();
        let ds0 = ds; let fs0 = fs;
        let ds1 = ds0.drop_first(); let fs1 = fs0.drop_first();
        assert(ds0[0] == ds[0]); assert(fs0[0] == fs[0]);
        assert(ds0.len() == 1); assert(fs0.len() == 1);
        assert(ds1 =~= Seq::<FieldDesc>::empty()); assert(fs1 =~= Seq::<(u16, LengthSpec, Option<Seq<u8>>)>::empty());
        fields::lemma_low5(0x1f);
        fields::lemma_low5(0x6);
        assert(fields::find_desc(ds0, 0x6) == Some(ds[0]));
        assert(fields::fs_lookup(fs1, 0x6) == None::<Seq<u8>>);
        assert(fields::fs_lookup(fs0, 0x6) == (match self.tlv { Some(ref k) => Some(k.body_bytes()), None => None }));
    }

    pub proof fn lemma_body_parses(self, s: Seq<u8>)
        requires self.wf(), s == self.body_bytes(), s.len() <= usize::MAX,
        ensures
            fields::spec_parse_fields(s, self.pos_len(), Self::spec_descs(), seq![], seq![]) == Ok::<_, ErrorView>((fields::cat_opt_entries(self.spec_fs()), s.len() as int)),
            self.pos_len() + fields::cat_opt_fields(self.spec_fs()).len() == s.len(),
    {
        let ds = Self::spec_descs();
        let fs = self.spec_fs();
        self.lemma_meta();
        let p0 = self.pos_len();
        assert(p0 == 0);
        assert(s.subrange(0, fields::cat_opt_fields(fs).len() as int) =~= fields::cat_opt_fields(fs));
        assert(fields::fs_ok(fs, ds, seq![])) by {
            assert forall|j: int| 0 <= j < fs.len() && (#[trigger] fs[j]).2 is Some implies {
                &&& encoding::tag_wf(fs[j].0)
                &&& fields::find_desc(ds, fs[j].0) matches Some(d) && d.len == fs[j].1 && fields::region_wf(d.len, d.width as int, fs[j].2.unwrap().len() as int) && (d.repeatable || (!seq![].contains(fs[j].0) && forall|i: int| 0 <= i < j ==> (#[trigger] fs[i]).0 != fs[j].0))
            } by {
                if j == 0 { assert(fs[0].0 == 0x6); }
            };
        };
        fields::lemma_parse_cat(s, p0, ds, seq![], seq![], fs);
        fields::lemma_parse_fields_stop(s, s.len() as int, ds, seq![] + fields::present_tags(fs), seq![] + fields::cat_opt_entries(fs));
        let seen = seq![] + fields::present_tags(fs);
        assert(seen =~= fields::present_tags(fs));
        assert forall|kk: int| 0 <= kk < ds.len() implies !(#[trigger] ds[kk]).required || seen.contains(ds[kk].tag) by {
            if kk == 0 { assert(!ds[0].required); }
        };
        fields::lemma_finish_ok(ds, seen, seq![] + fields::cat_opt_entries(fs), s.len() as int);
        assert(seq![] + fields::cat_opt_entries(fs) =~= fields::cat_opt_entries(fs));
    }

    pub open spec fn pos_len(self) -> int {
        0
    }

    pub open spec fn eqv(a: Self, b: Self) -> bool {
        &&& (match (a.tlv, b.tlv) { (Some(x), Some(y)) => tlv::WriteData::eqv(x, y), (None, None) => true, _ => false })
    }

    pub fn encode_body(&self) -> (r: Vec<u8>)
        requires self.wf(),
        ensures r@ == self.body_bytes(),
    {
        let ghost gfs = self.spec_fs();
        let mut out: Vec<u8> = Vec::new();
        match self.tlv { Some(ref k) => { let region = k.encode_body(); fields::ser_field(&mut out, Some(Tag(0x6)), LengthSpec::Tlv, &region); }, None => {} }
        proof { assert(out@ =~= fields::opt_field_bytes(gfs[0].0, gfs[0].1, gfs[0].2)); }
        proof {
            self.lemma_meta();
            let fs = self.spec_fs();
        let fs0 = fs;
        let fs1 = fs0.drop_first();
        assert(fields::cat_opt_fields(fs0) == fields::opt_field_bytes(fs0[0].0, fs0[0].1, fs0[0].2) + fields::cat_opt_fields(fs1)); assert(fs0[0] == fs[0]);
        assert(fields::cat_opt_fields(fs1) =~= Seq::<u8>::empty());
            assert(out@ =~= self.body_bytes());
        }
        out
    }

    pub fn decode_body(bytes: &[u8]) -> (r: ZVTResult<(Self, usize)>)
        ensures
            r matches Ok(v) ==> v.1 <= bytes@.len(),
            forall|v: Self|
                v.wf() && ((match v.tlv { Some(w) => (match w.file { Some(f) => (match f.payload { Some(pl) => pl@.len() > 0, None => true }), None => true }), None => true })) && bytes@ == #[trigger] v.body_bytes() ==> (r matches Ok(o) && WriteData::eqv(o.0, v)
                    && o.1 == bytes@.len()),
    {
        let blen_e = bytes.len();
        proof { assert(bytes@.len() <= usize::MAX); }
        proof {
            assert forall|v: Self| v.wf() && ((match v.tlv { Some(w) => (match w.file { Some(f) => (match f.payload { Some(pl) => pl@.len() > 0, None => true }), None => true }), None => true })) && bytes@ == #[trigger] v.body_bytes() implies WriteData::master_facts(v, bytes@) by { WriteData::lemma_master(v, bytes@); };
        }
        let mut p: usize = 0;
        let descs = Self::descs();
        let parsed = fields::parse_tagged_fields(bytes, p, &descs);
        let (entries, pos_end) = match parsed { Ok(v) => v, Err(e) => { return Err(e); } };
        let f_tlv = match fields::find_payload(&entries, 0x6) { None => None, Some(pl) => match tlv::WriteData::decode_body(pl.as_slice()) { Ok(v) => Some(v.0), Err(e) => { return Err(e); } } };
        let result = Self {
            tlv: f_tlv,
        };
        proof {
            assert forall|v: Self| v.wf() && ((match v.tlv { Some(w) => (match w.file { Some(f) => (match f.payload { Some(pl) => pl@.len() > 0, None => true }), None => true }), None => true })) && bytes@ == #[trigger] v.body_bytes() implies WriteData::eqv(result, v) by {
                WriteData::lemma_master(v, bytes@);
                match v.tlv { Some(ref kk) => { assert(kk.wf()); }, None => {} }
            };
        }
        Ok((result, pos_end))
    }

    pub open spec fn master_facts(v: Self, s: Seq<u8>) -> bool {
        &&& fields::spec_parse_fields(s, v.pos_len(), Self::spec_descs(), seq![], seq![]) == Ok::<_, ErrorView>((fields::cat_opt_entries(v.spec_fs()), s.len() as int))
        &&& fields::find_entry(fields::cat_opt_entries(v.spec_fs()), 0x6) == (match v.tlv { Some(ref k) => Some(k.body_bytes()), None => None })
    }

    pub proof fn lemma_master(v: Self, s: Seq<u8>)
        requires v.wf(), ((match v.tlv { Some(w) => (match w.file { Some(f) => (match f.payload { Some(pl) => pl@.len() > 0, None => true }), None => true }), None => true })), s == v.body_bytes(), s.len() <= usize::MAX,
        ensures Self::master_facts(v, s),
    {
        v.lemma_meta();
        v.lemma_body_parses(s);
        let fs = v.spec_fs();
        let g0 = fs;
        let g1 = g0.drop_first();
        assert(fields::cat_opt_fields(g0) == fields::opt_field_bytes(g0[0].0, g0[0].1, g0[0].2) + fields::cat_opt_fields(g1)); assert(g0[0] == fs[0]);
        assert(fields::cat_opt_fields(g1) =~= Seq::<u8>::empty());
        fields::lemma_find_entry_fs(fs, 0x6);
    }
    pub fn zvt_serialize(&self) -> (r: Vec<u8>)
        requires self.wf(), self.body_bytes().len() <= 0xffff,
        ensures r@ == crate::packets::frame_bytes(128, 0, self.body_bytes()),
    {
        let body = self.encode_body();
        crate::packets::ser_frame(128, 0, body)
    }

    pub fn zvt_deserialize(bytes: &[u8]) -> (r: ZVTResult<(Self, usize)>)
        ensures
            r matches Ok(v) ==> v.1 <= bytes@.len(),
            forall|v: Self, rest: Seq<u8>|
                v.wf() && ((match v.tlv { Some(w) => (match w.file { Some(f) => (match f.payload { Some(pl) => pl@.len() > 0, None => true }), None => true }), None => true })) && v.body_bytes().len() <= 0xffff && bytes@ == #[trigger] (crate::packets::frame_bytes(128, 0, v.body_bytes()) + rest) ==> (r matches Ok(o) && WriteData::eqv(o.0, v) && o.1 == bytes@.len() - rest.len()),
    {
        let blen_e = bytes.len();
        proof { assert(bytes@.len() <= usize::MAX); }
        let (ps, pe) = match crate::packets::de_frame(bytes, 128, 0) {
            Ok(v) => v,
            Err(e) => {
                proof {
                    assert forall|v: Self, rest: Seq<u8>| v.wf() && ((match v.tlv { Some(w) => (match w.file { Some(f) => (match f.payload { Some(pl) => pl@.len() > 0, None => true }), None => true }), None => true })) && v.body_bytes().len() <= 0xffff && bytes@ == #[trigger] (crate::packets::frame_bytes(128, 0, v.body_bytes()) + rest) implies false by { crate::packets::lemma_de_frame(bytes@, 128, 0, v.body_bytes(), rest); };
                }
                return Err(e);
            },
        };
        let payload = encoding::copy_range(bytes, ps, pe);
        proof {
            assert forall|v: Self, rest: Seq<u8>| v.wf() && ((match v.tlv { Some(w) => (match w.file { Some(f) => (match f.payload { Some(pl) => pl@.len() > 0, None => true }), None => true }), None => true })) && v.body_bytes().len() <= 0xffff && bytes@ == #[trigger] (crate::packets::frame_bytes(128, 0, v.body_bytes()) + rest) implies (payload@ == v.body_bytes() && pe - ps == v.body_bytes().len() && pe == bytes@.len() - rest.len()) by { crate::packets::lemma_de_frame(bytes@, 128, 0, v.body_bytes(), rest); };
        }
        match Self::decode_body(payload.as_slice()) {
            Ok((p, consumed)) => Ok((p, ps + consumed)),
            Err(e) => Err(e),
        }
    }
}

/// Selects one of the vendor functions by its instruction number.
#[derive(Debug, PartialEq)]
pub struct CVendFunctions {
    pub password: Option<usize>,
    pub instr: u16,
}

impl CVendFunctions {
    pub open spec fn wf(self) -> bool {
        &&& (match self.password { Some(k) => encoding::bcd_bytes(k as nat).len() <= 3, None => true })
    }

    pub open spec fn spec_fs(self) -> Seq<(u16, LengthSpec, Option<Seq<u8>>)> {
        seq![
        ]
    }

    pub open spec fn body_bytes(self) -> Seq<u8> {
        (match self.password { Some(k) => fields::padded_region(LengthSpec::Fixed(3), encoding::bcd_bytes(k as nat)), None => seq![] }) + (encoding::u16_be_bytes(self.instr) + (fields::cat_opt_fields(self.spec_fs())))
    }

    pub open spec fn spec_descs() -> Seq<FieldDesc> {
        seq![
        ]
    }

    fn descs() -> (r: Vec<FieldDesc>)
        ensures r@ == Self::spec_descs(),
    {
        let mut v: Vec<FieldDesc> = Vec::new();
        proof { assert(v@ =~= Self::spec_descs()); }
        v
    }

    proof fn lemma_meta(self)
        ensures
    {
        let ds = Self::spec_descs();
        let fs = self.spec_fs();
        let ds0 = ds; let fs0 = fs;
        assert(ds0 =~= Seq::<FieldDesc>::empty()); assert(fs0 =~= Seq::<(u16, LengthSpec, Option<Seq<u8>>)>::empty());
        fields::lemma_low5(0x1f);
    }

    pub proof fn lemma_body_parses(self, s: Seq<u8>)
        requires self.wf(), s == self.body_bytes(), s.len() <= usize::MAX,
        ensures
            fields::spec_parse_fields(s, self.pos_len(), Self::spec_descs(), seq![], seq![]) == Ok::<_, ErrorView>((fields::cat_opt_entries(self.spec_fs()), s.len() as int)),
            self.pos_len() + fields::cat_opt_fields(self.spec_fs()).len() == s.len(),
    {
        let ds = Self::spec_descs();
        let fs = self.spec_fs();
        self.lemma_meta();
        let p0 = self.pos_len();
        let cat = fields::cat_opt_fields(fs);
        assert(s.subrange(0, s.len() as int) =~= s);
        fields::lemma_peel(s, 0, (match self.password { Some(k) => fields::padded_region(LengthSpec::Fixed(3), encoding::bcd_bytes(k as nat)), None => seq![] }), encoding::u16_be_bytes(self.instr) + (cat));
        fields::lemma_peel(s, 0 + ((match self.password { Some(k) => fields::padded_region(LengthSpec::Fixed(3), encoding::bcd_bytes(k as nat)), None => seq![] })).len() as int, encoding::u16_be_bytes(self.instr), cat);
        assert(p0 == 0 + ((match self.password { Some(k) => fields::padded_region(LengthSpec::Fixed(3), encoding::bcd_bytes(k as nat)), None => seq![] })).len() as int + (encoding::u16_be_bytes(self.instr)).len() as int);
        assert(s.subrange(p0, s.len() as int) =~= cat);
        assert(s.subrange(p0, p0 + cat.len() as int) =~= cat);
        assert(fields::fs_ok(fs, ds, seq![])) by {
            assert forall|j: int| 0 <= j < fs.len() && (#[trigger] fs[j]).2 is Some implies {
                &&& encoding::tag_wf(fs[j].0)
                &&& fields::find_desc(ds, fs[j].0) matches Some(d) && d.len == fs[j].1 && fields::region_wf(d.len, d.width as int, fs[j].2.unwrap().len() as int) && (d.repeatable || (!seq![].contains(fs[j].0) && forall|i: int| 0 <= i < j ==> (#[trigger] fs[i]).0 != fs[j].0))
            } by {
            };
        };
        fields::lemma_parse_cat(s, p0, ds, seq![], seq![], fs);
        fields::lemma_parse_fields_stop(s, s.len() as int, ds, seq![] + fields::present_tags(fs), seq![] + fields::cat_opt_entries(fs));
        let seen = seq![] + fields::present_tags(fs);
        assert(seen =~= fields::present_tags(fs));
        assert forall|kk: int| 0 <= kk < ds.len() implies !(#[trigger] ds[kk]).required || seen.contains(ds[kk].tag) by {
        };
        fields::lemma_finish_ok(ds, seen, seq![] + fields::cat_opt_entries(fs), s.len() as int);
        assert(seq![] + fields::cat_opt_entries(fs) =~= fields::cat_opt_entries(fs));
    }

    pub open spec fn pos_len(self) -> int {
        ((match self.password { Some(k) => fields::padded_region(LengthSpec::Fixed(3), encoding::bcd_bytes(k as nat)), None => seq![] })).len() as int + (encoding::u16_be_bytes(self.instr)).len() as int
    }

    pub fn encode_body(&self) -> (r: Vec<u8>)
        requires self.wf(),
        ensures r@ == self.body_bytes(),
    {
        let ghost gfs = self.spec_fs();
        let mut out: Vec<u8> = Vec::new();
        match self.password { Some(k) => { let region = fields::pad_fixed(encoding::enc_bcd(k), 3); fields::ser_field(&mut out, None, LengthSpec::Fixed(3), &region); }, None => {} }
        { let mut region = encoding::enc_u16_be(self.instr); out.append(&mut region); }
        proof {
            self.lemma_meta();
            let fs = self.spec_fs();
        let fs0 = fs;
        assert(fields::cat_opt_fields(fs0) =~= Seq::<u8>::empty());
            assert(out@ =~= self.body_bytes());
        }
        out
    }

    pub fn decode_body(bytes: &[u8]) -> (r: ZVTResult<(Self, usize)>)
        ensures
            r matches Ok(v) ==> v.1 <= bytes@.len(),
            forall|v: Self|
                v.wf() && (true) && bytes@ == #[trigger] v.body_bytes() ==> (r matches Ok(o) && o.0 == v
                    && o.1 == bytes@.len()),
    {
        let blen_e = bytes.len();
        proof { assert(bytes@.len() <= usize::MAX); }
        proof {
            assert forall|v: Self| v.wf() && (true) && bytes@ == #[trigger] v.body_bytes() implies CVendFunctions::master_facts(v, bytes@) by { CVendFunctions::lemma_master(v, bytes@); };
        }
        let mut p: usize = 0;
        let f_password = { let (x, q) = fields::de_opt_usize_bcd(bytes, p, LengthSpec::Fixed(3)); p = q; x };
        let f_instr = match fields::de_u16_tagged(bytes, p, None, LengthSpec::Unprefixed, NumEncoding::BigEndian) { Ok((x, q)) => { p = q; x }, Err(e) => { return Err(e); } };
        let descs = Self::descs();
        let parsed = fields::parse_tagged_fields(bytes, p, &descs);
        let (entries, pos_end) = match parsed { Ok(v) => v, Err(e) => { return Err(e); } };
        let result = Self {
            password: f_password,
            instr: f_instr,
        };
        proof {
            assert forall|v: Self| v.wf() && (true) && bytes@ == #[trigger] v.body_bytes() implies result == v by {
                CVendFunctions::lemma_master(v, bytes@);
            };
        }
        Ok((result, pos_end))
    }

    pub open spec fn master_facts(v: Self, s: Seq<u8>) -> bool {
        &&& fields::spec_de_opt_usize_bcd(s, (0) as int, LengthSpec::Fixed(3)) == (v.password, (0 + ((match v.password { Some(k) => fields::padded_region(LengthSpec::Fixed(3), encoding::bcd_bytes(k as nat)), None => seq![] })).len()) as usize)
        &&& fields::spec_de_u16_tagged(s, (0 + (match v.password { Some(k) => fields::padded_region(LengthSpec::Fixed(3), encoding::bcd_bytes(k as nat)), None => seq![] }).len()) as int, None, LengthSpec::Unprefixed, NumEncoding::BigEndian) == Ok::<_, ZVTError>((v.instr, (0 + (match v.password { Some(k) => fields::padded_region(LengthSpec::Fixed(3), encoding::bcd_bytes(k as nat)), None => seq![] }).len() + 2) as usize))
        &&& fields::spec_parse_fields(s, v.pos_len(), Self::spec_descs(), seq![], seq![]) == Ok::<_, ErrorView>((fields::cat_opt_entries(v.spec_fs()), s.len() as int))
    }

    pub proof fn lemma_master(v: Self, s: Seq<u8>)
        requires v.wf(), (true), s == v.body_bytes(), s.len() <= usize::MAX,
        ensures Self::master_facts(v, s),
    {
        v.lemma_meta();
        v.lemma_body_parses(s);
        let fs = v.spec_fs();
        let g0 = fs;
        assert(fields::cat_opt_fields(g0) =~= Seq::<u8>::empty());
        let cat = fields::cat_opt_fields(fs);
        assert(s.subrange(0, s.len() as int) =~= s);
        fields::lemma_peel(s, 0, (match v.password { Some(k) => fields::padded_region(LengthSpec::Fixed(3), encoding::bcd_bytes(k as nat)), None => seq![] }), encoding::u16_be_bytes(v.instr) + (cat));
        match v.password { Some(kk) => { let zeros = length::fixed_len_bytes(3, encoding::bcd_bytes(kk as nat).len() as int); encoding::lemma_bcd_nat_zero_prefix(zeros, encoding::bcd_bytes(kk as nat)); encoding::lemma_bcd_roundtrip(kk as nat); vstd::arithmetic::div_mod::lemma_small_mod(kk as nat, encoding::usize_mod()); assert(s.subrange((0) as int, (0 + 3) as int) =~= (match v.password { Some(k) => fields::padded_region(LengthSpec::Fixed(3), encoding::bcd_bytes(k as nat)), None => seq![] })); }, None => { assert(fields::cat_opt_fields(fs).len() == 0); assert(s.len() - (0) < 3); } }
        fields::lemma_peel(s, 0 + ((match v.password { Some(k) => fields::padded_region(LengthSpec::Fixed(3), encoding::bcd_bytes(k as nat)), None => seq![] })).len() as int, encoding::u16_be_bytes(v.instr), cat);
        { assert(s[(0 + ((match v.password { Some(k) => fields::padded_region(LengthSpec::Fixed(3), encoding::bcd_bytes(k as nat)), None => seq![] })).len() as int) as int] == (encoding::u16_be_bytes(v.instr))[0] && s[(0 + ((match v.password { Some(k) => fields::padded_region(LengthSpec::Fixed(3), encoding::bcd_bytes(k as nat)), None => seq![] })).len() as int) as int + 1] == (encoding::u16_be_bytes(v.instr))[1]) by { assert(s.subrange((0 + ((match v.password { Some(k) => fields::padded_region(LengthSpec::Fixed(3), encoding::bcd_bytes(k as nat)), None => seq![] })).len() as int) as int, (0 + ((match v.password { Some(k) => fields::padded_region(LengthSpec::Fixed(3), encoding::bcd_bytes(k as nat)), None => seq![] })).len() as int + 2) as int)[0] == (encoding::u16_be_bytes(v.instr))[0]); assert(s.subrange((0 + ((match v.password { Some(k) => fields::padded_region(LengthSpec::Fixed(3), encoding::bcd_bytes(k as nat)), None => seq![] })).len() as int) as int, (0 + ((match v.password { Some(k) => fields::padded_region(LengthSpec::Fixed(3), encoding::bcd_bytes(k as nat)), None => seq![] })).len() as int + 2) as int)[1] == (encoding::u16_be_bytes(v.instr))[1]); }; encoding::lemma_u16_be_roundtrip(v.instr); }
    }
    pub fn zvt_serialize(&self) -> (r: Vec<u8>)
        requires self.wf(), self.body_bytes().len() <= 0xffff,
        ensures r@ == crate::packets::frame_bytes(15, 161, self.body_bytes()),
    {
        let body = self.encode_body();
        crate::packets::ser_frame(15, 161, body)
    }

    pub fn zvt_deserialize(bytes: &[u8]) -> (r: ZVTResult<(Self, usize)>)
        ensures
            r matches Ok(v) ==> v.1 <= bytes@.len(),
            forall|v: Self, rest: Seq<u8>|
                v.wf() && (true) && v.body_bytes().len() <= 0xffff && bytes@ == #[trigger] (crate::packets::frame_bytes(15, 161, v.body_bytes()) + rest) ==> (r matches Ok(o) && o.0 == v && o.1 == bytes@.len() - rest.len()),
    {
        let blen_e = bytes.len();
        proof { assert(bytes@.len() <= usize::MAX); }
        let (ps, pe) = match crate::packets::de_frame(bytes, 15, 161) {
            Ok(v) => v,
            Err(e) => {
                proof {
                    assert forall|v: Self, rest: Seq<u8>| v.wf() && (true) && v.body_bytes().len() <= 0xffff && bytes@ == #[trigger] (crate::packets::frame_bytes(15, 161, v.body_bytes()) + rest) implies false by { crate::packets::lemma_de_frame(bytes@, 15, 161, v.body_bytes(), rest); };
                }
                return Err(e);
            },
        };
        let payload = encoding::copy_range(bytes, ps, pe);
        proof {
            assert forall|v: Self, rest: Seq<u8>| v.wf() && (true) && v.body_bytes().len() <= 0xffff && bytes@ == #[trigger] (crate::packets::frame_bytes(15, 161, v.body_bytes()) + rest) implies (payload@ == v.body_bytes() && pe - ps == v.body_bytes().len() && pe == bytes@.len() - rest.len()) by { crate::packets::lemma_de_frame(bytes@, 15, 161, v.body_bytes(), rest); };
        }
        match Self::decode_body(payload.as_slice()) {
            Ok((p, consumed)) => Ok((p, ps + consumed)),
            Err(e) => Err(e),
        }
    }
}


/// The temperature field's length form: specified as four bytes, but some
/// devices send three, so the decoder takes what is there up to four; the
/// serializer writes no length prefix.
pub struct Temperature;

impl Temperature {
    pub fn serialize(_len: usize) -> (r: Vec<u8>)
        ensures
            r@ == Seq::<u8>::empty(),
    {
        Vec::new()
    }

    pub fn deserialize(bytes: &[u8], pos: usize) -> (r: ZVTResult<(usize, usize)>)
        requires
            pos <= bytes@.len(),
        ensures
            r == if bytes@.len() - pos < 3 {
                Err::<(usize, usize), _>(ZVTError::IncompleteData)
            } else if bytes@.len() - pos < 4 {
                Ok::<_, ZVTError>(((bytes@.len() - pos) as usize, pos))
            } else {
                Ok::<_, ZVTError>((4usize, pos))
            },
    {
        if bytes.len() - pos < 3 {
            Err(ZVTError::IncompleteData)
        } else if bytes.len() - pos < 4 {
            Ok((bytes.len() - pos, pos))
        } else {
            Ok((4, pos))
        }
    }
}

/// The battery-voltage field's length form: older firmwares omit the four
/// bytes, so the field is empty exactly when at most four bytes remain —
/// the trailing temperature still has to fit; the serializer writes no
/// length prefix.
pub struct BatteryVoltage;

impl BatteryVoltage {
    pub fn serialize(_len: usize) -> (r: Vec<u8>)
        ensures
            r@ == Seq::<u8>::empty(),
    {
        Vec::new()
    }

    pub fn deserialize(bytes: &[u8], pos: usize) -> (r: (usize, usize))
        requires
            pos <= bytes@.len(),
        ensures
            r == if bytes@.len() - pos <= 4 {
                (0usize, pos)
            } else {
                (4usize, pos)
            },
    {
        if bytes.len() - pos <= 4 {
            (0, pos)
        } else {
            (4, pos)
        }
    }
}

/// The enhanced system information a terminal reports: identifiers,
/// firmware version, battery and temperature readings.
#[derive(Debug, PartialEq)]
pub struct CVendFunctionsEnhancedSystemInformationCompletion {
    pub device_id: String,
    pub sw_version: String,
    pub terminal_id: String,
    pub battery_voltage: String,
    pub temperature: String,
}

impl CVendFunctionsEnhancedSystemInformationCompletion {
    pub open spec fn wf(self) -> bool {
        &&& vstd::utf8::encode_utf8(self.device_id@).len() == 8
        &&& vstd::utf8::encode_utf8(self.sw_version@).len() == 17
        &&& vstd::utf8::encode_utf8(self.terminal_id@).len() == 8
        &&& (vstd::utf8::encode_utf8(self.battery_voltage@).len() == 0 || vstd::utf8::encode_utf8(
            self.battery_voltage@,
        ).len() == 4)
        &&& (vstd::utf8::encode_utf8(self.temperature@).len() == 3 || vstd::utf8::encode_utf8(
            self.temperature@,
        ).len() == 4)
    }

    pub open spec fn body_bytes(self) -> Seq<u8> {
        vstd::utf8::encode_utf8(self.device_id@) + vstd::utf8::encode_utf8(self.sw_version@)
            + vstd::utf8::encode_utf8(self.terminal_id@) + vstd::utf8::encode_utf8(
            self.battery_voltage@,
        ) + vstd::utf8::encode_utf8(self.temperature@)
    }

    pub open spec fn eqv(a: Self, b: Self) -> bool {
        &&& a.device_id@ == b.device_id@
        &&& a.sw_version@ == b.sw_version@
        &&& a.terminal_id@ == b.terminal_id@
        &&& a.battery_voltage@ == b.battery_voltage@
        &&& a.temperature@ == b.temperature@
    }

    pub fn encode_body(&self) -> (r: Vec<u8>)
        requires
            self.wf(),
        ensures
            r@ == self.body_bytes(),
    {
        let mut out = encoding::str_bytes(self.device_id.as_str());
        let mut b = encoding::str_bytes(self.sw_version.as_str());
        out.append(&mut b);
        let mut b = encoding::str_bytes(self.terminal_id.as_str());
        out.append(&mut b);
        let mut b = encoding::str_bytes(self.battery_voltage.as_str());
        out.append(&mut b);
        let mut b = encoding::str_bytes(self.temperature.as_str());
        out.append(&mut b);
        proof {
            assert(out@ =~= self.body_bytes());
        }
        out
    }

    pub fn zvt_serialize(&self) -> (r: Vec<u8>)
        requires
            self.wf(),
        ensures
            r@ == crate::packets::frame_bytes(0x06, 0x0f, self.body_bytes()),
    {
        let body = self.encode_body();
        crate::packets::ser_frame(0x06, 0x0f, body)
    }

    /// Reads the body back: three fixed-width strings, then the battery
    /// field as `BatteryVoltage` delimits it, then the temperature as
    /// `Temperature` delimits it. Every well-formed value is read back
    /// field for field.
    pub fn decode_body(bytes: &[u8]) -> (r: ZVTResult<(Self, usize)>)
        ensures
            r matches Ok(v) ==> v.1 <= bytes@.len(),
            forall|v: Self|
                v.wf() && bytes@ == #[trigger] v.body_bytes() ==> (r matches Ok(o) && Self::eqv(
                    o.0,
                    v,
                ) && o.1 == bytes@.len()),
    {
        let blen_e = bytes.len();
        proof {
            assert(bytes@.len() <= usize::MAX);
            assert forall|v: Self| v.wf() && bytes@ == #[trigger] v.body_bytes() implies {
                &&& bytes@.subrange(0, 8) == vstd::utf8::encode_utf8(v.device_id@)
                &&& bytes@.subrange(8, 25) == vstd::utf8::encode_utf8(v.sw_version@)
                &&& bytes@.subrange(25, 33) == vstd::utf8::encode_utf8(v.terminal_id@)
                &&& bytes@.subrange(
                    33,
                    33 + vstd::utf8::encode_utf8(v.battery_voltage@).len() as int,
                ) == vstd::utf8::encode_utf8(v.battery_voltage@)
                &&& bytes@.subrange(
                    33 + vstd::utf8::encode_utf8(v.battery_voltage@).len() as int,
                    bytes@.len() as int,
                ) == vstd::utf8::encode_utf8(v.temperature@)
                &&& bytes@.len() == 33 + vstd::utf8::encode_utf8(v.battery_voltage@).len()
                    + vstd::utf8::encode_utf8(v.temperature@).len()
                &&& vstd::utf8::valid_utf8(vstd::utf8::encode_utf8(v.device_id@))
                &&& vstd::utf8::valid_utf8(vstd::utf8::encode_utf8(v.sw_version@))
                &&& vstd::utf8::valid_utf8(vstd::utf8::encode_utf8(v.terminal_id@))
                &&& vstd::utf8::valid_utf8(vstd::utf8::encode_utf8(v.battery_voltage@))
                &&& vstd::utf8::valid_utf8(vstd::utf8::encode_utf8(v.temperature@))
            } by {
                let d = vstd::utf8::encode_utf8(v.device_id@);
                let w = vstd::utf8::encode_utf8(v.sw_version@);
                let t = vstd::utf8::encode_utf8(v.terminal_id@);
                let b = vstd::utf8::encode_utf8(v.battery_voltage@);
                let tp = vstd::utf8::encode_utf8(v.temperature@);
                assert(bytes@.subrange(0, bytes@.len() as int) =~= bytes@);
                assert(bytes@.subrange(0, (d + w + t + b + tp).len() as int) =~= d + (w + (t + (b
                    + tp))));
                crate::fields::lemma_peel(bytes@, 0, d, w + (t + (b + tp)));
                crate::fields::lemma_peel(bytes@, 8, w, t + (b + tp));
                crate::fields::lemma_peel(bytes@, 25, t, b + tp);
                crate::fields::lemma_peel(bytes@, 33, b, tp);
                vstd::utf8::encode_utf8_valid_utf8(v.device_id@);
                vstd::utf8::encode_utf8_valid_utf8(v.sw_version@);
                vstd::utf8::encode_utf8_valid_utf8(v.terminal_id@);
                vstd::utf8::encode_utf8_valid_utf8(v.battery_voltage@);
                vstd::utf8::encode_utf8_valid_utf8(v.temperature@);
            };
        }
        let mut p: usize = 0;
        let device_id = match fields::de_string_field(bytes, p, LengthSpec::Fixed(8), false) {
            Ok((s, q)) => {
                p = q;
                s
            },
            Err(e) => {
                return Err(e);
            },
        };
        let sw_version = match fields::de_string_field(bytes, p, LengthSpec::Fixed(17), false) {
            Ok((s, q)) => {
                p = q;
                s
            },
            Err(e) => {
                return Err(e);
            },
        };
        let terminal_id = match fields::de_string_field(bytes, p, LengthSpec::Fixed(8), false) {
            Ok((s, q)) => {
                p = q;
                s
            },
            Err(e) => {
                return Err(e);
            },
        };
        let (batt_len, _) = BatteryVoltage::deserialize(bytes, p);
        let battery_voltage = match encoding::dec_string(bytes, p, p + batt_len) {
            Ok((s, _)) => s,
            Err(e) => {
                return Err(e);
            },
        };
        let ghost batt_start = p as int;
        p = p + batt_len;
        let tmp_len = match Temperature::deserialize(bytes, p) {
            Ok((l, _)) => l,
            Err(e) => {
                return Err(e);
            },
        };
        let temperature = match encoding::dec_string(bytes, p, p + tmp_len) {
            Ok((s, _)) => s,
            Err(e) => {
                return Err(e);
            },
        };
        let result = CVendFunctionsEnhancedSystemInformationCompletion {
            device_id,
            sw_version,
            terminal_id,
            battery_voltage,
            temperature,
        };
        proof {
            assert forall|v: Self|
                v.wf() && bytes@ == #[trigger] v.body_bytes() implies Self::eqv(result, v) by {
                vstd::utf8::encode_utf8_decode_utf8(v.device_id@);
                vstd::utf8::encode_utf8_decode_utf8(v.sw_version@);
                vstd::utf8::encode_utf8_decode_utf8(v.terminal_id@);
                vstd::utf8::encode_utf8_decode_utf8(v.battery_voltage@);
                vstd::utf8::encode_utf8_decode_utf8(v.temperature@);
                vstd::utf8::encode_utf8_decode_utf8(result.device_id@);
                vstd::utf8::encode_utf8_decode_utf8(result.sw_version@);
                vstd::utf8::encode_utf8_decode_utf8(result.terminal_id@);
                vstd::utf8::encode_utf8_decode_utf8(result.battery_voltage@);
                vstd::utf8::encode_utf8_decode_utf8(result.temperature@);
                let b = vstd::utf8::encode_utf8(v.battery_voltage@);
                let tp = vstd::utf8::encode_utf8(v.temperature@);
                assert(vstd::utf8::encode_utf8(result.device_id@) == bytes@.subrange(0, 8));
                assert(vstd::utf8::encode_utf8(result.sw_version@) == bytes@.subrange(8, 25));
                assert(vstd::utf8::encode_utf8(result.terminal_id@) == bytes@.subrange(25, 33));
                if b.len() == 0 {
                    assert(bytes@.len() == 33 + tp.len());
                    assert(bytes@.subrange(33, 33) =~= Seq::<u8>::empty());
                    assert(vstd::utf8::encode_utf8(result.battery_voltage@) =~= b);
                    assert(vstd::utf8::encode_utf8(result.temperature@) == bytes@.subrange(
                        33,
                        bytes@.len() as int,
                    ));
                } else {
                    assert(b.len() == 4);
                    assert(bytes@.len() == 37 + tp.len());
                    assert(vstd::utf8::encode_utf8(result.battery_voltage@) == bytes@.subrange(
                        33,
                        37,
                    ));
                    assert(vstd::utf8::encode_utf8(result.temperature@) == bytes@.subrange(
                        37,
                        bytes@.len() as int,
                    ));
                }
            };
        }
        Ok((result, p + tmp_len))
    }

    pub fn zvt_deserialize(bytes: &[u8]) -> (r: ZVTResult<(Self, usize)>)
        ensures
            r matches Ok(v) ==> v.1 <= bytes@.len(),
            forall|v: Self, rest: Seq<u8>|
                v.wf() && v.body_bytes().len() <= 0xffff && bytes@ == #[trigger] (
                crate::packets::frame_bytes(0x06, 0x0f, v.body_bytes()) + rest) ==> (r matches Ok(
                    o,
                ) && Self::eqv(o.0, v) && o.1 == bytes@.len() - rest.len()),
    {
        let blen_e = bytes.len();
        proof {
            assert(bytes@.len() <= usize::MAX);
        }
        let (ps, pe) = match crate::packets::de_frame(bytes, 0x06, 0x0f) {
            Ok(v) => v,
            Err(e) => {
                proof {
                    assert forall|v: Self, rest: Seq<u8>|
                        v.wf() && v.body_bytes().len() <= 0xffff && bytes@ == #[trigger] (
                        crate::packets::frame_bytes(0x06, 0x0f, v.body_bytes())
                            + rest) implies false by {
                        crate::packets::lemma_de_frame(bytes@, 0x06, 0x0f, v.body_bytes(), rest);
                    };
                }
                return Err(e);
            },
        };
        let payload = encoding::copy_range(bytes, ps, pe);
        proof {
            assert forall|v: Self, rest: Seq<u8>|
                v.wf() && v.body_bytes().len() <= 0xffff && bytes@ == #[trigger] (
                crate::packets::frame_bytes(0x06, 0x0f, v.body_bytes()) + rest) implies (payload@
                == v.body_bytes() && pe - ps == v.body_bytes().len() && pe == bytes@.len()
                - rest.len()) by {
                crate::packets::lemma_de_frame(bytes@, 0x06, 0x0f, v.body_bytes(), rest);
            };
        }
        match Self::decode_body(payload.as_slice()) {
            Ok((p, consumed)) => Ok((p, ps + consumed)),
            Err(e) => Err(e),
        }
    }
}

/// Announces a firmware transfer: the password and the file list.
#[derive(Debug, PartialEq)]
pub struct WriteFile {
    pub password: usize,
    pub tlv: Option<tlv::WriteFile>,
}

impl WriteFile {
    pub open spec fn wf(self) -> bool {
        &&& encoding::bcd_bytes(self.password as nat).len() <= 3
        &&& (match self.tlv { Some(ref k) => k.wf() && k.body_bytes().len() <= 0xffff, None => true })
    }

    pub open spec fn spec_fs(self) -> Seq<(u16, LengthSpec, Option<Seq<u8>>)> {
        seq![
            (0x6u16, LengthSpec::Tlv, (match self.tlv { Some(ref k) => Some(k.body_bytes()), None => None })),
        ]
    }

    pub open spec fn body_bytes(self) -> Seq<u8> {
        fields::padded_region(LengthSpec::Fixed(3), encoding::bcd_bytes(self.password as nat)) + (fields::cat_opt_fields(self.spec_fs()))
    }

    pub open spec fn spec_descs() -> Seq<FieldDesc> {
        seq![
            FieldDesc { tag: 0x6, len: LengthSpec::Tlv, width: 0, repeatable: false, required: false },
        ]
    }

    fn descs() -> (r: Vec<FieldDesc>)
        ensures r@ == Self::spec_descs(),
    {
        let mut v: Vec<FieldDesc> = Vec::new();
        v.push(FieldDesc { tag: 0x6, len: LengthSpec::Tlv, width: 0, repeatable: false, required: false });
        proof { assert(v@ =~= Self::spec_descs()); }
        v
    }

    proof fn lemma_meta(self)
        ensures
            fields::find_desc(Self::spec_descs(), 0x6) == Some(Self::spec_descs()[0]),
            encoding::tag_wf(0x6),
            fields::fs_lookup(self.spec_fs(), 0x6) == (match self.tlv { Some(ref k) => Some(k.body_bytes()), None => None }),
    {
        let ds = Self::spec_descs();
        let fs = self.spec_fs();
        let ds0 = ds; let fs0 = fs;
        let ds1 = ds0.drop_first(); let fs1 = fs0.drop_first();
        assert(ds0[0] == ds[0]); assert(fs0[0] == fs[0]);
        assert(ds0.len() == 1); assert(fs0.len() == 1);
        assert(ds1 =~= Seq::<FieldDesc>::empty()); assert(fs1 =~= Seq::<(u16, LengthSpec, Option<Seq<u8>>)>::empty());
        fields::lemma_low5(0x1f);
        fields::lemma_low5(0x6);
        assert(fields::find_desc(ds0, 0x6) == Some(ds[0]));
        assert(fields::fs_lookup(fs1, 0x6) == None::<Seq<u8>>);
        assert(fields::fs_lookup(fs0, 0x6) == (match self.tlv { Some(ref k) => Some(k.body_bytes()), None => None })) by { match self.tlv { _ => {} } };
    }

    pub proof fn lemma_body_parses(self, s: Seq<u8>)
        requires self.wf(), s == self.body_bytes(), s.len() <= usize::MAX,
        ensures
            fields::spec_parse_fields(s, self.pos_len(), Self::spec_descs(), seq![], seq![]) == Ok::<_, ErrorView>((fields::cat_opt_entries(self.spec_fs()), s.len() as int)),
            self.pos_len() + fields::cat_opt_fields(self.spec_fs()).len() == s.len(),
    {
        let ds = Self::spec_descs();
        let fs = self.spec_fs();
        self.lemma_meta();
        let p0 = self.pos_len();
        let cat = fields::cat_opt_fields(fs);
        assert(s.subrange(0, s.len() as int) =~= s);
        fields::lemma_peel(s, 0, fields::padded_region(LengthSpec::Fixed(3), encoding::bcd_bytes(self.password as nat)), cat);
        assert(p0 == 0 + (fields::padded_region(LengthSpec::Fixed(3), encoding::bcd_bytes(self.password as nat))).len() as int);
        assert(s.subrange(p0, s.len() as int) =~= cat);
        assert(s.subrange(p0, p0 + cat.len() as int) =~= cat);
        assert(fields::fs_ok(fs, ds, seq![])) by {
            assert forall|j: int| 0 <= j < fs.len() && (#[trigger] fs[j]).2 is Some implies {
                &&& encoding::tag_wf(fs[j].0)
                &&& fields::find_desc(ds, fs[j].0) matches Some(d) && d.len == fs[j].1 && fields::region_wf(d.len, d.width as int, fs[j].2.unwrap().len() as int) && (d.repeatable || (!seq![].contains(fs[j].0) && forall|i: int| 0 <= i < j ==> (#[trigger] fs[i]).0 != fs[j].0))
            } by {
                if j == 0 { assert(fs[0].0 == 0x6); }
            };
        };
        fields::lemma_parse_cat(s, p0, ds, seq![], seq![], fs);
        fields::lemma_parse_fields_stop(s, s.len() as int, ds, seq![] + fields::present_tags(fs), seq![] + fields::cat_opt_entries(fs));
        let seen = seq![] + fields::present_tags(fs);
        assert(seen =~= fields::present_tags(fs));
        assert forall|kk: int| 0 <= kk < ds.len() implies !(#[trigger] ds[kk]).required || seen.contains(ds[kk].tag) by {
            if kk == 0 { assert(!ds[0].required); }
        };
        fields::lemma_finish_ok(ds, seen, seq![] + fields::cat_opt_entries(fs), s.len() as int);
        assert(seq![] + fields::cat_opt_entries(fs) =~= fields::cat_opt_entries(fs));
    }

    pub open spec fn pos_len(self) -> int {
        (fields::padded_region(LengthSpec::Fixed(3), encoding::bcd_bytes(self.password as nat))).len() as int
    }

    pub open spec fn eqv(a: Self, b: Self) -> bool {
        &&& a.password == b.password
        &&& (match (a.tlv, b.tlv) { (Some(x), Some(y)) => tlv::WriteFile::eqv(x, y), (None, None) => true, _ => false })
    }

    pub fn encode_body(&self) -> (r: Vec<u8>)
        requires self.wf(),
        ensures r@ == self.body_bytes(),
    {
        let ghost gfs = self.spec_fs();
        let mut out: Vec<u8> = Vec::new();
        { let region = fields::pad_fixed(encoding::enc_bcd(self.password), 3); fields::ser_field(&mut out, None, LengthSpec::Fixed(3), &region); }
        match self.tlv { Some(ref k) => { let region = k.encode_body(); fields::ser_field(&mut out, Some(Tag(0x6)), LengthSpec::Tlv, &region); }, None => {} }
        proof { assert(out@ =~= fields::padded_region(LengthSpec::Fixed(3), encoding::bcd_bytes(self.password as nat)) + fields::opt_field_bytes(gfs[0].0, gfs[0].1, gfs[0].2)); }
        proof {
            self.lemma_meta();
            let fs = self.spec_fs();
        let fs0 = fs;
        let fs1 = fs0.drop_first();
        assert(fields::cat_opt_fields(fs0) == fields::opt_field_bytes(fs0[0].0, fs0[0].1, fs0[0].2) + fields::cat_opt_fields(fs1)); assert(fs0[0] == fs[0]);
        assert(fields::cat_opt_fields(fs1) =~= Seq::<u8>::empty());
            assert(out@ =~= self.body_bytes());
        }
        out
    }

    pub fn decode_body(bytes: &[u8]) -> (r: ZVTResult<(Self, usize)>)
        ensures
            r matches Ok(v) ==> v.1 <= bytes@.len(),
            forall|v: Self|
                v.wf() && (true) && bytes@ == #[trigger] v.body_bytes() ==> (r matches Ok(o) && WriteFile::eqv(o.0, v)
                    && o.1 == bytes@.len()),
    {
        let blen_e = bytes.len();
        proof { assert(bytes@.len() <= usize::MAX); }
        proof {
            assert forall|v: Self| v.wf() && (true) && bytes@ == #[trigger] v.body_bytes() implies WriteFile::master_facts(v, bytes@) by { WriteFile::lemma_master(v, bytes@); };
        }
        let mut p: usize = 0;
        let f_password = match fields::de_usize_bcd(bytes, p, LengthSpec::Fixed(3)) { Ok((x, q)) => { p = q; x }, Err(e) => { return Err(e); } };
        let descs = Self::descs();
        let parsed = fields::parse_tagged_fields(bytes, p, &descs);
        let (entries, pos_end) = match parsed { Ok(v) => v, Err(e) => { return Err(e); } };
        let f_tlv = match fields::find_payload(&entries, 0x6) { None => None, Some(pl) => match tlv::WriteFile::decode_body(pl.as_slice()) { Ok(v) => Some(v.0), Err(e) => { return Err(e); } } };
        let result = Self {
            password: f_password,
            tlv: f_tlv,
        };
        proof {
            assert forall|v: Self| v.wf() && (true) && bytes@ == #[trigger] v.body_bytes() implies WriteFile::eqv(result, v) by {
                WriteFile::lemma_master(v, bytes@);
                match v.tlv { Some(ref kk) => { assert(kk.wf()); }, None => {} }
            };
        }
        Ok((result, pos_end))
    }

    pub open spec fn master_facts(v: Self, s: Seq<u8>) -> bool {
        &&& fields::spec_de_usize_bcd(s, (0) as int, LengthSpec::Fixed(3)) == Ok::<_, ZVTError>((v.password, (0 + 3) as usize))
        &&& fields::spec_parse_fields(s, v.pos_len(), Self::spec_descs(), seq![], seq![]) == Ok::<_, ErrorView>((fields::cat_opt_entries(v.spec_fs()), s.len() as int))
        &&& fields::find_entry(fields::cat_opt_entries(v.spec_fs()), 0x6) == (match v.tlv { Some(ref k) => Some(k.body_bytes()), None => None })
    }

    pub proof fn lemma_master(v: Self, s: Seq<u8>)
        requires v.wf(), (true), s == v.body_bytes(), s.len() <= usize::MAX,
        ensures Self::master_facts(v, s),
    {
        v.lemma_meta();
        v.lemma_body_parses(s);
        let fs = v.spec_fs();
        let g0 = fs;
        let g1 = g0.drop_first();
        assert(fields::cat_opt_fields(g0) == fields::opt_field_bytes(g0[0].0, g0[0].1, g0[0].2) + fields::cat_opt_fields(g1)); assert(g0[0] == fs[0]);
        assert(fields::cat_opt_fields(g1) =~= Seq::<u8>::empty());
        fields::lemma_find_entry_fs(fs, 0x6);
        let cat = fields::cat_opt_fields(fs);
        assert(s.subrange(0, s.len() as int) =~= s);
        fields::lemma_peel(s, 0, fields::padded_region(LengthSpec::Fixed(3), encoding::bcd_bytes(v.password as nat)), cat);
        { let zeros = length::fixed_len_bytes(3, encoding::bcd_bytes(v.password as nat).len() as int); encoding::lemma_bcd_nat_zero_prefix(zeros, encoding::bcd_bytes(v.password as nat)); encoding::lemma_bcd_roundtrip(v.password as nat); vstd::arithmetic::div_mod::lemma_small_mod(v.password as nat, encoding::usize_mod()); assert(s.subrange((0) as int, (0 + 3) as int) =~= fields::padded_region(LengthSpec::Fixed(3), encoding::bcd_bytes(v.password as nat))); }
    }
    pub fn zvt_serialize(&self) -> (r: Vec<u8>)
        requires self.wf(), self.body_bytes().len() <= 0xffff,
        ensures r@ == crate::packets::frame_bytes(8, 20, self.body_bytes()),
    {
        let body = self.encode_body();
        crate::packets::ser_frame(8, 20, body)
    }

    pub fn zvt_deserialize(bytes: &[u8]) -> (r: ZVTResult<(Self, usize)>)
        ensures
            r matches Ok(v) ==> v.1 <= bytes@.len(),
            forall|v: Self, rest: Seq<u8>|
                v.wf() && (true) && v.body_bytes().len() <= 0xffff && bytes@ == #[trigger] (crate::packets::frame_bytes(8, 20, v.body_bytes()) + rest) ==> (r matches Ok(o) && WriteFile::eqv(o.0, v) && o.1 == bytes@.len() - rest.len()),
    {
        let blen_e = bytes.len();
        proof { assert(bytes@.len() <= usize::MAX); }
        let (ps, pe) = match crate::packets::de_frame(bytes, 8, 20) {
            Ok(v) => v,
            Err(e) => {
                proof {
                    assert forall|v: Self, rest: Seq<u8>| v.wf() && (true) && v.body_bytes().len() <= 0xffff && bytes@ == #[trigger] (crate::packets::frame_bytes(8, 20, v.body_bytes()) + rest) implies false by { crate::packets::lemma_de_frame(bytes@, 8, 20, v.body_bytes(), rest); };
                }
                return Err(e);
            },
        };
        let payload = encoding::copy_range(bytes, ps, pe);
        proof {
            assert forall|v: Self, rest: Seq<u8>| v.wf() && (true) && v.body_bytes().len() <= 0xffff && bytes@ == #[trigger] (crate::packets::frame_bytes(8, 20, v.body_bytes()) + rest) implies (payload@ == v.body_bytes() && pe - ps == v.body_bytes().len() && pe == bytes@.len() - rest.len()) by { crate::packets::lemma_de_frame(bytes@, 8, 20, v.body_bytes(), rest); };
        }
        match Self::decode_body(payload.as_slice()) {
            Ok((p, consumed)) => Ok((p, ps + consumed)),
            Err(e) => Err(e),
        }
    }
}

/// Changes the terminal's configuration; the block selects what changes.
#[derive(Debug, PartialEq)]
pub struct ChangeConfiguration {
    pub tlv: tlv::ChangeConfiguration,
}

impl ChangeConfiguration {
    pub open spec fn wf(self) -> bool {
        &&& self.tlv.wf() && self.tlv.body_bytes().len() <= 0xffff
    }

    pub open spec fn spec_fs(self) -> Seq<(u16, LengthSpec, Option<Seq<u8>>)> {
        seq![
            (0x6u16, LengthSpec::Tlv, Some(self.tlv.body_bytes())),
        ]
    }

    pub open spec fn body_bytes(self) -> Seq<u8> {
        fields::cat_opt_fields(self.spec_fs())
    }

    pub open spec fn spec_descs() -> Seq<FieldDesc> {
        seq![
            FieldDesc { tag: 0x6, len: LengthSpec::Tlv, width: 0, repeatable: false, required: true },
        ]
    }

    fn descs() -> (r: Vec<FieldDesc>)
        ensures r@ == Self::spec_descs(),
    {
        let mut v: Vec<FieldDesc> = Vec::new();
        v.push(FieldDesc { tag: 0x6, len: LengthSpec::Tlv, width: 0, repeatable: false, required: true });
        proof { assert(v@ =~= Self::spec_descs()); }
        v
    }

    proof fn lemma_meta(self)
        ensures
            fields::find_desc(Self::spec_descs(), 0x6) == Some(Self::spec_descs()[0]),
            encoding::tag_wf(0x6),
            fields::fs_lookup(self.spec_fs(), 0x6) == Some(self.tlv.body_bytes()),
    {
        let ds = Self::spec_descs();
        let fs = self.spec_fs();
        let ds0 = ds; let fs0 = fs;
        let ds1 = ds0.drop_first(); let fs1 = fs0.drop_first();
        assert(ds0[0] == ds[0]); assert(fs0[0] == fs[0]);
        assert(ds0.len() == 1); assert(fs0.len() == 1);
        assert(ds1 =~= Seq::<FieldDesc>::empty()); assert(fs1 =~= Seq::<(u16, LengthSpec, Option<Seq<u8>>)>::empty());
        fields::lemma_low5(0x1f);
        fields::lemma_low5(0x6);
        assert(fields::find_desc(ds0, 0x6) == Some(ds[0]));
        assert(fields::fs_lookup(fs1, 0x6) == None::<Seq<u8>>);
        assert(fields::fs_lookup(fs0, 0x6) == Some(self.tlv.body_bytes())) by { match self.tlv { _ => {} } };
    }

    pub proof fn lemma_body_parses(self, s: Seq<u8>)
        requires self.wf(), s == self.body_bytes(), s.len() <= usize::MAX,
        ensures
            fields::spec_parse_fields(s, self.pos_len(), Self::spec_descs(), seq![], seq![]) == Ok::<_, ErrorView>((fields::cat_opt_entries(self.spec_fs()), s.len() as int)),
            self.pos_len() + fields::cat_opt_fields(self.spec_fs()).len() == s.len(),
    {
        let ds = Self::spec_descs();
        let fs = self.spec_fs();
        self.lemma_meta();
        let p0 = self.pos_len();
        assert(p0 == 0);
        assert(s.subrange(0, fields::cat_opt_fields(fs).len() as int) =~= fields::cat_opt_fields(fs));
        assert(fields::fs_ok(fs, ds, seq![])) by {
            assert forall|j: int| 0 <= j < fs.len() && (#[trigger] fs[j]).2 is Some implies {
                &&& encoding::tag_wf(fs[j].0)
                &&& fields::find_desc(ds, fs[j].0) matches Some(d) && d.len == fs[j].1 && fields::region_wf(d.len, d.width as int, fs[j].2.unwrap().len() as int) && (d.repeatable || (!seq![].contains(fs[j].0) && forall|i: int| 0 <= i < j ==> (#[trigger] fs[i]).0 != fs[j].0))
            } by {
                if j == 0 { assert(fs[0].0 == 0x6); }
            };
        };
        fields::lemma_parse_cat(s, p0, ds, seq![], seq![], fs);
        fields::lemma_parse_fields_stop(s, s.len() as int, ds, seq![] + fields::present_tags(fs), seq![] + fields::cat_opt_entries(fs));
        let seen = seq![] + fields::present_tags(fs);
        fields::lemma_present_tags_contains(fs, 0);
        assert(seen =~= fields::present_tags(fs));
        assert forall|kk: int| 0 <= kk < ds.len() implies !(#[trigger] ds[kk]).required || seen.contains(ds[kk].tag) by {
            if kk == 0 { assert(fs[0].2 is Some); assert(fields::present_tags(fs).contains(fs[0].0)); }
        };
        fields::lemma_finish_ok(ds, seen, seq![] + fields::cat_opt_entries(fs), s.len() as int);
        assert(seq![] + fields::cat_opt_entries(fs) =~= fields::cat_opt_entries(fs));
    }

    pub open spec fn pos_len(self) -> int {
        0
    }

    pub fn encode_body(&self) -> (r: Vec<u8>)
        requires self.wf(),
        ensures r@ == self.body_bytes(),
    {
        let ghost gfs = self.spec_fs();
        let mut out: Vec<u8> = Vec::new();
        { let region = self.tlv.encode_body(); fields::ser_field(&mut out, Some(Tag(0x6)), LengthSpec::Tlv, &region); }
        proof { assert(out@ =~= fields::opt_field_bytes(gfs[0].0, gfs[0].1, gfs[0].2)); }
        proof {
            self.lemma_meta();
            let fs = self.spec_fs();
        let fs0 = fs;
        let fs1 = fs0.drop_first();
        assert(fields::cat_opt_fields(fs0) == fields::opt_field_bytes(fs0[0].0, fs0[0].1, fs0[0].2) + fields::cat_opt_fields(fs1)); assert(fs0[0] == fs[0]);
        assert(fields::cat_opt_fields(fs1) =~= Seq::<u8>::empty());
            assert(out@ =~= self.body_bytes());
        }
        out
    }

    pub fn decode_body(bytes: &[u8]) -> (r: ZVTResult<(Self, usize)>)
        ensures
            r matches Ok(v) ==> v.1 <= bytes@.len(),
            forall|v: Self|
                v.wf() && (true) && bytes@ == #[trigger] v.body_bytes() ==> (r matches Ok(o) && o.0 == v
                    && o.1 == bytes@.len()),
    {
        let blen_e = bytes.len();
        proof { assert(bytes@.len() <= usize::MAX); }
        proof {
            assert forall|v: Self| v.wf() && (true) && bytes@ == #[trigger] v.body_bytes() implies ChangeConfiguration::master_facts(v, bytes@) by { ChangeConfiguration::lemma_master(v, bytes@); };
        }
        let mut p: usize = 0;
        let descs = Self::descs();
        let parsed = fields::parse_tagged_fields(bytes, p, &descs);
        let (entries, pos_end) = match parsed { Ok(v) => v, Err(e) => { return Err(e); } };
        let f_tlv = match fields::find_payload(&entries, 0x6) { None => { return Err(ZVTError::IncompleteData); }, Some(pl) => match tlv::ChangeConfiguration::decode_body(pl.as_slice()) { Ok(v) => v.0, Err(e) => { return Err(e); } } };
        let result = Self {
            tlv: f_tlv,
        };
        proof {
            assert forall|v: Self| v.wf() && (true) && bytes@ == #[trigger] v.body_bytes() implies result == v by {
                ChangeConfiguration::lemma_master(v, bytes@);
                assert(v.tlv.wf());
            };
        }
        Ok((result, pos_end))
    }

    pub open spec fn master_facts(v: Self, s: Seq<u8>) -> bool {
        &&& fields::spec_parse_fields(s, v.pos_len(), Self::spec_descs(), seq![], seq![]) == Ok::<_, ErrorView>((fields::cat_opt_entries(v.spec_fs()), s.len() as int))
        &&& fields::find_entry(fields::cat_opt_entries(v.spec_fs()), 0x6) == Some(v.tlv.body_bytes())
    }

    pub proof fn lemma_master(v: Self, s: Seq<u8>)
        requires v.wf(), (true), s == v.body_bytes(), s.len() <= usize::MAX,
        ensures Self::master_facts(v, s),
    {
        v.lemma_meta();
        v.lemma_body_parses(s);
        let fs = v.spec_fs();
        let g0 = fs;
        let g1 = g0.drop_first();
        assert(fields::cat_opt_fields(g0) == fields::opt_field_bytes(g0[0].0, g0[0].1, g0[0].2) + fields::cat_opt_fields(g1)); assert(g0[0] == fs[0]);
        assert(fields::cat_opt_fields(g1) =~= Seq::<u8>::empty());
        fields::lemma_find_entry_fs(fs, 0x6);
    }
    pub fn zvt_serialize(&self) -> (r: Vec<u8>)
        requires self.wf(), self.body_bytes().len() <= 0xffff,
        ensures r@ == crate::packets::frame_bytes(8, 19, self.body_bytes()),
    {
        let body = self.encode_body();
        crate::packets::ser_frame(8, 19, body)
    }

    pub fn zvt_deserialize(bytes: &[u8]) -> (r: ZVTResult<(Self, usize)>)
        ensures
            r matches Ok(v) ==> v.1 <= bytes@.len(),
            forall|v: Self, rest: Seq<u8>|
                v.wf() && (true) && v.body_bytes().len() <= 0xffff && bytes@ == #[trigger] (crate::packets::frame_bytes(8, 19, v.body_bytes()) + rest) ==> (r matches Ok(o) && o.0 == v && o.1 == bytes@.len() - rest.len()),
    {
        let blen_e = bytes.len();
        proof { assert(bytes@.len() <= usize::MAX); }
        let (ps, pe) = match crate::packets::de_frame(bytes, 8, 19) {
            Ok(v) => v,
            Err(e) => {
                proof {
                    assert forall|v: Self, rest: Seq<u8>| v.wf() && (true) && v.body_bytes().len() <= 0xffff && bytes@ == #[trigger] (crate::packets::frame_bytes(8, 19, v.body_bytes()) + rest) implies false by { crate::packets::lemma_de_frame(bytes@, 8, 19, v.body_bytes(), rest); };
                }
                return Err(e);
            },
        };
        let payload = encoding::copy_range(bytes, ps, pe);
        proof {
            assert forall|v: Self, rest: Seq<u8>| v.wf() && (true) && v.body_bytes().len() <= 0xffff && bytes@ == #[trigger] (crate::packets::frame_bytes(8, 19, v.body_bytes()) + rest) implies (payload@ == v.body_bytes() && pe - ps == v.body_bytes().len() && pe == bytes@.len() - rest.len()) by { crate::packets::lemma_de_frame(bytes@, 8, 19, v.body_bytes(), rest); };
        }
        match Self::decode_body(payload.as_slice()) {
            Ok((p, consumed)) => Ok((p, ps + consumed)),
            Err(e) => Err(e),
        }
    }
}

/// The inputs of a firmware transfer as the update dialog takes them.
#[derive(Debug, PartialEq)]
pub struct WriteFileParameter {
    pub path: String,
    pub password: usize,
    pub adpu_size: u32,
}

} // verus!
