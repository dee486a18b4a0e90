//! TLV blocks of the vendor packets.

use crate::encoding;
use crate::errors::ZVTError;
use crate::errors::ZVTResult;
use crate::fields;
use crate::fields::ErrorView;
use crate::fields::FieldDesc;
use crate::fields::LengthSpec;
use crate::length;
use crate::Tag;
use vstd::prelude::*;

verus! {

/// One file of a firmware transfer: its id, offset, size and payload.
#[derive(Debug, PartialEq)]
pub struct File {
    pub file_id: Option<u8>,
    pub file_offset: Option<u32>,
    pub file_size: Option<u32>,
    pub payload: Option<Vec<u8>>,
}

impl File {
    pub open spec fn wf(self) -> bool {
        &&& (match self.payload { Some(ref k) => k@.len() <= 0xffff, None => true })
    }

    pub open spec fn spec_fs(self) -> Seq<(u16, LengthSpec, Option<Seq<u8>>)> {
        seq![
            (0x1du16, LengthSpec::Tlv, crate::packets::tlv::opt_u8_region(self.file_id)),
            (0x1eu16, LengthSpec::Tlv, (match self.file_offset { Some(k) => Some(encoding::u32_be_bytes(k)), None => None })),
            (0x1f00u16, LengthSpec::Tlv, (match self.file_size { Some(k) => Some(encoding::u32_be_bytes(k)), None => None })),
            (0x1cu16, LengthSpec::Tlv, (match self.payload { Some(ref k) => if k@.len() == 0 { None } else { Some(k@) }, None => None })),
        ]
    }

    pub open spec fn body_bytes(self) -> Seq<u8> {
        fields::cat_opt_fields(self.spec_fs())
    }

    pub open spec fn spec_descs() -> Seq<FieldDesc> {
        seq![
            FieldDesc { tag: 0x1d, len: LengthSpec::Tlv, width: 0, repeatable: false, required: false },
            FieldDesc { tag: 0x1e, len: LengthSpec::Tlv, width: 0, repeatable: false, required: false },
            FieldDesc { tag: 0x1f00, len: LengthSpec::Tlv, width: 0, repeatable: false, required: false },
            FieldDesc { tag: 0x1c, len: LengthSpec::Tlv, width: 0, repeatable: false, required: false },
        ]
    }

    fn descs() -> (r: Vec<FieldDesc>)
        ensures r@ == Self::spec_descs(),
    {
        let mut v: Vec<FieldDesc> = Vec::new();
        v.push(FieldDesc { tag: 0x1d, len: LengthSpec::Tlv, width: 0, repeatable: false, required: false });
        v.push(FieldDesc { tag: 0x1e, len: LengthSpec::Tlv, width: 0, repeatable: false, required: false });
        v.push(FieldDesc { tag: 0x1f00, len: LengthSpec::Tlv, width: 0, repeatable: false, required: false });
        v.push(FieldDesc { tag: 0x1c, len: LengthSpec::Tlv, width: 0, repeatable: false, required: false });
        proof { assert(v@ =~= Self::spec_descs()); }
        v
    }

    proof fn lemma_meta(self)
        ensures
            fields::find_desc(Self::spec_descs(), 0x1d) == Some(Self::spec_descs()[0]),
            encoding::tag_wf(0x1d),
            fields::fs_lookup(self.spec_fs(), 0x1d) == crate::packets::tlv::opt_u8_region(self.file_id),
            fields::find_desc(Self::spec_descs(), 0x1e) == Some(Self::spec_descs()[1]),
            encoding::tag_wf(0x1e),
            fields::fs_lookup(self.spec_fs(), 0x1e) == (match self.file_offset { Some(k) => Some(encoding::u32_be_bytes(k)), None => None }),
            fields::find_desc(Self::spec_descs(), 0x1f00) == Some(Self::spec_descs()[2]),
            encoding::tag_wf(0x1f00),
            fields::fs_lookup(self.spec_fs(), 0x1f00) == (match self.file_size { Some(k) => Some(encoding::u32_be_bytes(k)), None => None }),
            fields::find_desc(Self::spec_descs(), 0x1c) == Some(Self::spec_descs()[3]),
            encoding::tag_wf(0x1c),
            fields::fs_lookup(self.spec_fs(), 0x1c) == (match self.payload { Some(ref k) => if k@.len() == 0 { None } else { Some(k@) }, None => None }),
    {
        let ds = Self::spec_descs();
        let fs = self.spec_fs();
        let ds0 = ds; let fs0 = fs;
        let ds1 = ds0.drop_first(); let fs1 = fs0.drop_first();
        let ds2 = ds1.drop_first(); let fs2 = fs1.drop_first();
        let ds3 = ds2.drop_first(); let fs3 = fs2.drop_first();
        let ds4 = ds3.drop_first(); let fs4 = fs3.drop_first();
        assert(ds0[0] == ds[0]); assert(fs0[0] == fs[0]);
        assert(ds0.len() == 4); assert(fs0.len() == 4);
        assert(ds1[0] == ds[1]); assert(fs1[0] == fs[1]);
        assert(ds1.len() == 3); assert(fs1.len() == 3);
        assert(ds2[0] == ds[2]); assert(fs2[0] == fs[2]);
        assert(ds2.len() == 2); assert(fs2.len() == 2);
        assert(ds3[0] == ds[3]); assert(fs3[0] == fs[3]);
        assert(ds3.len() == 1); assert(fs3.len() == 1);
        assert(ds4 =~= Seq::<FieldDesc>::empty()); assert(fs4 =~= Seq::<(u16, LengthSpec, Option<Seq<u8>>)>::empty());
        fields::lemma_low5(0x1f);
        fields::lemma_low5(0x1d);
        fields::lemma_low5(0x1e);
        assert((0x1f00u16 / 256) as u8 == 0x1f);
        fields::lemma_low5(0x1c);
        assert(fields::find_desc(ds0, 0x1d) == Some(ds[0]));
        assert(fields::find_desc(ds1, 0x1e) == Some(ds[1]));
        assert(fields::find_desc(ds0, 0x1e) == fields::find_desc(ds1, 0x1e));
        assert(fields::find_desc(ds2, 0x1f00) == Some(ds[2]));
        assert(fields::find_desc(ds1, 0x1f00) == fields::find_desc(ds2, 0x1f00));
        assert(fields::find_desc(ds0, 0x1f00) == fields::find_desc(ds1, 0x1f00));
        assert(fields::find_desc(ds3, 0x1c) == Some(ds[3]));
        assert(fields::find_desc(ds2, 0x1c) == fields::find_desc(ds3, 0x1c));
        assert(fields::find_desc(ds1, 0x1c) == fields::find_desc(ds2, 0x1c));
        assert(fields::find_desc(ds0, 0x1c) == fields::find_desc(ds1, 0x1c));
        assert(fields::fs_lookup(fs4, 0x1d) == None::<Seq<u8>>);
        assert(fields::fs_lookup(fs3, 0x1d) == None::<Seq<u8>>);
        assert(fields::fs_lookup(fs2, 0x1d) == None::<Seq<u8>>);
        assert(fields::fs_lookup(fs1, 0x1d) == None::<Seq<u8>>);
        assert(fields::fs_lookup(fs0, 0x1d) == crate::packets::tlv::opt_u8_region(self.file_id));
        assert(fields::fs_lookup(fs4, 0x1e) == None::<Seq<u8>>);
        assert(fields::fs_lookup(fs3, 0x1e) == None::<Seq<u8>>);
        assert(fields::fs_lookup(fs2, 0x1e) == None::<Seq<u8>>);
        assert(fields::fs_lookup(fs1, 0x1e) == (match self.file_offset { Some(k) => Some(encoding::u32_be_bytes(k)), None => None }));
        assert(fields::fs_lookup(fs0, 0x1e) == fields::fs_lookup(fs1, 0x1e));
        assert(fields::fs_lookup(fs4, 0x1f00) == None::<Seq<u8>>);
        assert(fields::fs_lookup(fs3, 0x1f00) == None::<Seq<u8>>);
        assert(fields::fs_lookup(fs2, 0x1f00) == (match self.file_size { Some(k) => Some(encoding::u32_be_bytes(k)), None => None }));
        assert(fields::fs_lookup(fs1, 0x1f00) == fields::fs_lookup(fs2, 0x1f00));
        assert(fields::fs_lookup(fs0, 0x1f00) == fields::fs_lookup(fs1, 0x1f00));
        assert(fields::fs_lookup(fs4, 0x1c) == None::<Seq<u8>>);
        assert(fields::fs_lookup(fs3, 0x1c) == (match self.payload { Some(ref k) => if k@.len() == 0 { None } else { Some(k@) }, None => None }));
        assert(fields::fs_lookup(fs2, 0x1c) == fields::fs_lookup(fs3, 0x1c));
        assert(fields::fs_lookup(fs1, 0x1c) == fields::fs_lookup(fs2, 0x1c));
        assert(fields::fs_lookup(fs0, 0x1c) == fields::fs_lookup(fs1, 0x1c));
    }

    pub proof fn lemma_body_parses(self, s: Seq<u8>)
        requires self.wf(), s == self.body_bytes(), s.len() <= usize::MAX,
        ensures
            fields::spec_parse_fields(s, self.pos_len(), Self::spec_descs(), seq![], seq![]) == Ok::<_, ErrorView>((fields::cat_opt_entries(self.spec_fs()), s.len() as int)),
            self.pos_len() + fields::cat_opt_fields(self.spec_fs()).len() == s.len(),
    {
        let ds = Self::spec_descs();
        let fs = self.spec_fs();
        self.lemma_meta();
        let p0 = self.pos_len();
        assert(p0 == 0);
        assert(s.subrange(0, fields::cat_opt_fields(fs).len() as int) =~= fields::cat_opt_fields(fs));
        assert(fields::fs_ok(fs, ds, seq![])) by {
            assert forall|j: int| 0 <= j < fs.len() && (#[trigger] fs[j]).2 is Some implies {
                &&& encoding::tag_wf(fs[j].0)
                &&& fields::find_desc(ds, fs[j].0) matches Some(d) && d.len == fs[j].1 && fields::region_wf(d.len, d.width as int, fs[j].2.unwrap().len() as int) && (d.repeatable || (!seq![].contains(fs[j].0) && forall|i: int| 0 <= i < j ==> (#[trigger] fs[i]).0 != fs[j].0))
            } by {
                if j == 0 { assert(fs[0].0 == 0x1d); }
                if j == 1 { assert(fs[1].0 == 0x1e); }
                if j == 2 { assert(fs[2].0 == 0x1f00); }
                if j == 3 { assert(fs[3].0 == 0x1c); }
            };
        };
        fields::lemma_parse_cat(s, p0, ds, seq![], seq![], fs);
        fields::lemma_parse_fields_stop(s, s.len() as int, ds, seq![] + fields::present_tags(fs), seq![] + fields::cat_opt_entries(fs));
        let seen = seq![] + fields::present_tags(fs);
        assert(seen =~= fields::present_tags(fs));
        assert forall|kk: int| 0 <= kk < ds.len() implies !(#[trigger] ds[kk]).required || seen.contains(ds[kk].tag) by {
            if kk == 0 { assert(!ds[0].required); }
            if kk == 1 { assert(!ds[1].required); }
            if kk == 2 { assert(!ds[2].required); }
            if kk == 3 { assert(!ds[3].required); }
        };
        fields::lemma_finish_ok(ds, seen, seq![] + fields::cat_opt_entries(fs), s.len() as int);
        assert(seq![] + fields::cat_opt_entries(fs) =~= fields::cat_opt_entries(fs));
    }

    pub open spec fn pos_len(self) -> int {
        0
    }

    pub open spec fn eqv(a: Self, b: Self) -> bool {
        &&& a.file_id == b.file_id
        &&& a.file_offset == b.file_offset
        &&& a.file_size == b.file_size
        &&& (match (a.payload, b.payload) { (Some(x), Some(y)) => x@ == y@, (None, None) => true, _ => false })
    }

    pub fn encode_body(&self) -> (r: Vec<u8>)
        requires self.wf(),
        ensures r@ == self.body_bytes(),
    {
        let ghost gfs = self.spec_fs();
        let mut out: Vec<u8> = Vec::new();
        match self.file_id { Some(k) => { let region = encoding::enc_u8(k); fields::ser_field(&mut out, Some(Tag(0x1d)), LengthSpec::Tlv, &region); }, None => {} }
        proof { assert(out@ =~= fields::opt_field_bytes(gfs[0].0, gfs[0].1, gfs[0].2)); }
        match self.file_offset { Some(k) => { let region = encoding::enc_u32_be(k); fields::ser_field(&mut out, Some(Tag(0x1e)), LengthSpec::Tlv, &region); }, None => {} }
        proof { assert(out@ =~= fields::opt_field_bytes(gfs[0].0, gfs[0].1, gfs[0].2) + fields::opt_field_bytes(gfs[1].0, gfs[1].1, gfs[1].2)); }
        match self.file_size { Some(k) => { let region = encoding::enc_u32_be(k); fields::ser_field(&mut out, Some(Tag(0x1f00)), LengthSpec::Tlv, &region); }, None => {} }
        proof { assert(out@ =~= fields::opt_field_bytes(gfs[0].0, gfs[0].1, gfs[0].2) + fields::opt_field_bytes(gfs[1].0, gfs[1].1, gfs[1].2) + fields::opt_field_bytes(gfs[2].0, gfs[2].1, gfs[2].2)); }
        match self.payload { Some(ref k) => { if k.len() > 0 { fields::ser_field(&mut out, Some(Tag(0x1c)), LengthSpec::Tlv, k); } }, None => {} }
        proof { assert(out@ =~= fields::opt_field_bytes(gfs[0].0, gfs[0].1, gfs[0].2) + fields::opt_field_bytes(gfs[1].0, gfs[1].1, gfs[1].2) + fields::opt_field_bytes(gfs[2].0, gfs[2].1, gfs[2].2) + fields::opt_field_bytes(gfs[3].0, gfs[3].1, gfs[3].2)); }
        proof {
            self.lemma_meta();
            let fs = self.spec_fs();
        let fs0 = fs;
        let fs1 = fs0.drop_first();
        let fs2 = fs1.drop_first();
        let fs3 = fs2.drop_first();
        let fs4 = fs3.drop_first();
        assert(fields::cat_opt_fields(fs0) == fields::opt_field_bytes(fs0[0].0, fs0[0].1, fs0[0].2) + fields::cat_opt_fields(fs1)); assert(fs0[0] == fs[0]);
        assert(fields::cat_opt_fields(fs1) == fields::opt_field_bytes(fs1[0].0, fs1[0].1, fs1[0].2) + fields::cat_opt_fields(fs2)); assert(fs1[0] == fs[1]);
        assert(fields::cat_opt_fields(fs2) == fields::opt_field_bytes(fs2[0].0, fs2[0].1, fs2[0].2) + fields::cat_opt_fields(fs3)); assert(fs2[0] == fs[2]);
        assert(fields::cat_opt_fields(fs3) == fields::opt_field_bytes(fs3[0].0, fs3[0].1, fs3[0].2) + fields::cat_opt_fields(fs4)); assert(fs3[0] == fs[3]);
        assert(fields::cat_opt_fields(fs4) =~= Seq::<u8>::empty());
            assert(out@ =~= self.body_bytes());
        }
        out
    }

    pub fn decode_body(bytes: &[u8]) -> (r: ZVTResult<(Self, usize)>)
        ensures
            r matches Ok(v) ==> v.1 <= bytes@.len(),
            forall|v: Self|
                v.wf() && ((match v.payload { Some(pl) => pl@.len() > 0, None => true })) && bytes@ == #[trigger] v.body_bytes() ==> (r matches Ok(o) && File::eqv(o.0, v)
                    && o.1 == bytes@.len()),
    {
        let blen_e = bytes.len();
        proof { assert(bytes@.len() <= usize::MAX); }
        proof {
            assert forall|v: Self| v.wf() && ((match v.payload { Some(pl) => pl@.len() > 0, None => true })) && bytes@ == #[trigger] v.body_bytes() implies File::master_facts(v, bytes@) by { File::lemma_master(v, bytes@); };
        }
        let mut p: usize = 0;
        let descs = Self::descs();
        let parsed = fields::parse_tagged_fields(bytes, p, &descs);
        let (entries, pos_end) = match parsed { Ok(v) => v, Err(e) => { return Err(e); } };
        let f_file_id = match fields::entry_opt_u8(&entries, 0x1d) { Ok(v) => v, Err(e) => { return Err(e); } };
        let f_file_offset = match fields::entry_opt_u32_be(&entries, 0x1e) { Ok(v) => v, Err(e) => { return Err(e); } };
        let f_file_size = match fields::entry_opt_u32_be(&entries, 0x1f00) { Ok(v) => v, Err(e) => { return Err(e); } };
        let f_payload = fields::entry_opt_bytes(&entries, 0x1c);
        let result = Self {
            file_id: f_file_id,
            file_offset: f_file_offset,
            file_size: f_file_size,
            payload: f_payload,
        };
        proof {
            assert forall|v: Self| v.wf() && ((match v.payload { Some(pl) => pl@.len() > 0, None => true })) && bytes@ == #[trigger] v.body_bytes() implies File::eqv(result, v) by {
                File::lemma_master(v, bytes@);
                match v.file_offset { Some(kk) => { encoding::lemma_u32_be_roundtrip(kk); }, None => {} }
                match v.file_size { Some(kk) => { encoding::lemma_u32_be_roundtrip(kk); }, None => {} }
            };
        }
        Ok((result, pos_end))
    }

    pub open spec fn master_facts(v: Self, s: Seq<u8>) -> bool {
        &&& fields::spec_parse_fields(s, v.pos_len(), Self::spec_descs(), seq![], seq![]) == Ok::<_, ErrorView>((fields::cat_opt_entries(v.spec_fs()), s.len() as int))
        &&& fields::find_entry(fields::cat_opt_entries(v.spec_fs()), 0x1d) == crate::packets::tlv::opt_u8_region(v.file_id)
        &&& fields::find_entry(fields::cat_opt_entries(v.spec_fs()), 0x1e) == (match v.file_offset { Some(k) => Some(encoding::u32_be_bytes(k)), None => None })
        &&& fields::find_entry(fields::cat_opt_entries(v.spec_fs()), 0x1f00) == (match v.file_size { Some(k) => Some(encoding::u32_be_bytes(k)), None => None })
        &&& fields::find_entry(fields::cat_opt_entries(v.spec_fs()), 0x1c) == (match v.payload { Some(ref k) => if k@.len() == 0 { None } else { Some(k@) }, None => None })
    }

    pub proof fn lemma_master(v: Self, s: Seq<u8>)
        requires v.wf(), ((match v.payload { Some(pl) => pl@.len() > 0, None => true })), s == v.body_bytes(), s.len() <= usize::MAX,
        ensures Self::master_facts(v, s),
    {
        v.lemma_meta();
        v.lemma_body_parses(s);
        let fs = v.spec_fs();
        let g0 = fs;
        let g1 = g0.drop_first();
        let g2 = g1.drop_first();
        let g3 = g2.drop_first();
        let g4 = g3.drop_first();
        assert(fields::cat_opt_fields(g0) == fields::opt_field_bytes(g0[0].0, g0[0].1, g0[0].2) + fields::cat_opt_fields(g1)); assert(g0[0] == fs[0]);
        assert(fields::cat_opt_fields(g1) == fields::opt_field_bytes(g1[0].0, g1[0].1, g1[0].2) + fields::cat_opt_fields(g2)); assert(g1[0] == fs[1]);
        assert(fields::cat_opt_fields(g2) == fields::opt_field_bytes(g2[0].0, g2[0].1, g2[0].2) + fields::cat_opt_fields(g3)); assert(g2[0] == fs[2]);
        assert(fields::cat_opt_fields(g3) == fields::opt_field_bytes(g3[0].0, g3[0].1, g3[0].2) + fields::cat_opt_fields(g4)); assert(g3[0] == fs[3]);
        assert(fields::cat_opt_fields(g4) =~= Seq::<u8>::empty());
        fields::lemma_find_entry_fs(fs, 0x1d);
        fields::lemma_find_entry_fs(fs, 0x1e);
        fields::lemma_find_entry_fs(fs, 0x1f00);
        fields::lemma_find_entry_fs(fs, 0x1c);
    }
}

/// TLV block of a data transfer frame: the file slice it carries.
#[derive(Debug, PartialEq)]
pub struct WriteData {
    pub file: Option<File>,
}

impl WriteData {
    pub open spec fn wf(self) -> bool {
        &&& (match self.file { Some(ref k) => k.wf() && k.body_bytes().len() <= 0xffff, None => true })
    }

    pub open spec fn spec_fs(self) -> Seq<(u16, LengthSpec, Option<Seq<u8>>)> {
        seq![
            (0x2du16, LengthSpec::Tlv, (match self.file { Some(ref k) => Some(k.body_bytes()), None => None })),
        ]
    }

    pub open spec fn body_bytes(self) -> Seq<u8> {
        fields::cat_opt_fields(self.spec_fs())
    }

    pub open spec fn spec_descs() -> Seq<FieldDesc> {
        seq![
            FieldDesc { tag: 0x2d, len: LengthSpec::Tlv, width: 0, repeatable: false, required: false },
        ]
    }

    fn descs() -> (r: Vec<FieldDesc>)
        ensures r@ == Self::spec_descs(),
    {
        let mut v: Vec<FieldDesc> = Vec::new();
        v.push(FieldDesc { tag: 0x2d, len: LengthSpec::Tlv, width: 0, repeatable: false, required: false });
        proof { assert(v@ =~= Self::spec_descs()); }
        v
    }

    proof fn lemma_meta(self)
        ensures
            fields::find_desc(Self::spec_descs(), 0x2d) == Some(Self::spec_descs()[0]),
            encoding::tag_wf(0x2d),
            fields::fs_lookup(self.spec_fs(), 0x2d) == (match self.file { Some(ref k) => Some(k.body_bytes()), None => None }),
    {
        let ds = Self::spec_descs();
        let fs = self.spec_fs();
        let ds0 = ds; let fs0 = fs;
        let ds1 = ds0.drop_first(); let fs1 = fs0.drop_first();
        assert(ds0[0] == ds[0]); assert(fs0[0] == fs[0]);
        assert(ds0.len() == 1); assert(fs0.len() == 1);
        assert(ds1 =~= Seq::<FieldDesc>::empty()); assert(fs1 =~= Seq::<(u16, LengthSpec, Option<Seq<u8>>)>::empty());
        fields::lemma_low5(0x1f);
        fields::lemma_low5(0x2d);
        assert(fields::find_desc(ds0, 0x2d) == Some(ds[0]));
        assert(fields::fs_lookup(fs1, 0x2d) == None::<Seq<u8>>);
        assert(fields::fs_lookup(fs0, 0x2d) == (match self.file { Some(ref k) => Some(k.body_bytes()), None => None }));
    }

    pub proof fn lemma_body_parses(self, s: Seq<u8>)
        requires self.wf(), s == self.body_bytes(), s.len() <= usize::MAX,
        ensures
            fields::spec_parse_fields(s, self.pos_len(), Self::spec_descs(), seq![], seq![]) == Ok::<_, ErrorView>((fields::cat_opt_entries(self.spec_fs()), s.len() as int)),
            self.pos_len() + fields::cat_opt_fields(self.spec_fs()).len() == s.len(),
    {
        let ds = Self::spec_descs();
        let fs = self.spec_fs();
        self.lemma_meta();
        let p0 = self.pos_len();
        assert(p0 == 0);
        assert(s.subrange(0, fields::cat_opt_fields(fs).len() as int) =~= fields::cat_opt_fields(fs));
        assert(fields::fs_ok(fs, ds, seq![])) by {
            assert forall|j: int| 0 <= j < fs.len() && (#[trigger] fs[j]).2 is Some implies {
                &&& encoding::tag_wf(fs[j].0)
                &&& fields::find_desc(ds, fs[j].0) matches Some(d) && d.len == fs[j].1 && fields::region_wf(d.len, d.width as int, fs[j].2.unwrap().len() as int) && (d.repeatable || (!seq![].contains(fs[j].0) && forall|i: int| 0 <= i < j ==> (#[trigger] fs[i]).0 != fs[j].0))
            } by {
                if j == 0 { assert(fs[0].0 == 0x2d); }
            };
        };
        fields::lemma_parse_cat(s, p0, ds, seq![], seq![], fs);
        fields::lemma_parse_fields_stop(s, s.len() as int, ds, seq![] + fields::present_tags(fs), seq![] + fields::cat_opt_entries(fs));
        let seen = seq![] + fields::present_tags(fs);
        assert(seen =~= fields::present_tags(fs));
        assert forall|kk: int| 0 <= kk < ds.len() implies !(#[trigger] ds[kk]).required || seen.contains(ds[kk].tag) by {
            if kk == 0 { assert(!ds[0].required); }
        };
        fields::lemma_finish_ok(ds, seen, seq![] + fields::cat_opt_entries(fs), s.len() as int);
        assert(seq![] + fields::cat_opt_entries(fs) =~= fields::cat_opt_entries(fs));
    }

    pub open spec fn pos_len(self) -> int {
        0
    }

    pub open spec fn eqv(a: Self, b: Self) -> bool {
        &&& (match (a.file, b.file) { (Some(x), Some(y)) => File::eqv(x, y), (None, None) => true, _ => false })
    }

    pub fn encode_body(&self) -> (r: Vec<u8>)
        requires self.wf(),
        ensures r@ == self.body_bytes(),
    {
        let ghost gfs = self.spec_fs();
        let mut out: Vec<u8> = Vec::new();
        match self.file { Some(ref k) => { let region = k.encode_body(); fields::ser_field(&mut out, Some(Tag(0x2d)), LengthSpec::Tlv, &region); }, None => {} }
        proof { assert(out@ =~= fields::opt_field_bytes(gfs[0].0, gfs[0].1, gfs[0].2)); }
        proof {
            self.lemma_meta();
            let fs = self.spec_fs();
        let fs0 = fs;
        let fs1 = fs0.drop_first();
        assert(fields::cat_opt_fields(fs0) == fields::opt_field_bytes(fs0[0].0, fs0[0].1, fs0[0].2) + fields::cat_opt_fields(fs1)); assert(fs0[0] == fs[0]);
        assert(fields::cat_opt_fields(fs1) =~= Seq::<u8>::empty());
            assert(out@ =~= self.body_bytes());
        }
        out
    }

    pub fn decode_body(bytes: &[u8]) -> (r: ZVTResult<(Self, usize)>)
        ensures
            r matches Ok(v) ==> v.1 <= bytes@.len(),
            forall|v: Self|
                v.wf() && ((match v.file { Some(f) => (match f.payload { Some(pl) => pl@.len() > 0, None => true }), None => true })) && bytes@ == #[trigger] v.body_bytes() ==> (r matches Ok(o) && WriteData::eqv(o.0, v)
                    && o.1 == bytes@.len()),
    {
        let blen_e = bytes.len();
        proof { assert(bytes@.len() <= usize::MAX); }
        proof {
            assert forall|v: Self| v.wf() && ((match v.file { Some(f) => (match f.payload { Some(pl) => pl@.len() > 0, None => true }), None => true })) && bytes@ == #[trigger] v.body_bytes() implies WriteData::master_facts(v, bytes@) by { WriteData::lemma_master(v, bytes@); };
        }
        let mut p: usize = 0;
        let descs = Self::descs();
        let parsed = fields::parse_tagged_fields(bytes, p, &descs);
        let (entries, pos_end) = match parsed { Ok(v) => v, Err(e) => { return Err(e); } };
        let f_file = match fields::find_payload(&entries, 0x2d) { None => None, Some(pl) => match File::decode_body(pl.as_slice()) { Ok(v) => Some(v.0), Err(e) => { return Err(e); } } };
        let result = Self {
            file: f_file,
        };
        proof {
            assert forall|v: Self| v.wf() && ((match v.file { Some(f) => (match f.payload { Some(pl) => pl@.len() > 0, None => true }), None => true })) && bytes@ == #[trigger] v.body_bytes() implies WriteData::eqv(result, v) by {
                WriteData::lemma_master(v, bytes@);
                match v.file { Some(ref kk) => { assert(kk.wf()); }, None => {} }
            };
        }
        Ok((result, pos_end))
    }

    pub open spec fn master_facts(v: Self, s: Seq<u8>) -> bool {
        &&& fields::spec_parse_fields(s, v.pos_len(), Self::spec_descs(), seq![], seq![]) == Ok::<_, ErrorView>((fields::cat_opt_entries(v.spec_fs()), s.len() as int))
        &&& fields::find_entry(fields::cat_opt_entries(v.spec_fs()), 0x2d) == (match v.file { Some(ref k) => Some(k.body_bytes()), None => None })
    }

    pub proof fn lemma_master(v: Self, s: Seq<u8>)
        requires v.wf(), ((match v.file { Some(f) => (match f.payload { Some(pl) => pl@.len() > 0, None => true }), None => true })), s == v.body_bytes(), s.len() <= usize::MAX,
        ensures Self::master_facts(v, s),
    {
        v.lemma_meta();
        v.lemma_body_parses(s);
        let fs = v.spec_fs();
        let g0 = fs;
        let g1 = g0.drop_first();
        assert(fields::cat_opt_fields(g0) == fields::opt_field_bytes(g0[0].0, g0[0].1, g0[0].2) + fields::cat_opt_fields(g1)); assert(g0[0] == fs[0]);
        assert(fields::cat_opt_fields(g1) =~= Seq::<u8>::empty());
        fields::lemma_find_entry_fs(fs, 0x2d);
    }
}


/// The payload-passthrough encoding of binary blobs inside TLV fields.
pub struct Custom;

impl Custom {
    /// A blob's payload is the blob itself.
    pub fn encode(input: &Vec<u8>) -> (r: Vec<u8>)
        ensures
            r@ == input@,
    {
        vstd::slice::slice_to_vec(input.as_slice())
    }

    /// Decoding takes the whole delimited payload.
    pub fn decode(bytes: &[u8], pos: usize, end: usize) -> (r: Vec<u8>)
        requires
            pos <= end <= bytes@.len(),
        ensures
            r@ == bytes@.subrange(pos as int, end as int),
    {
        encoding::copy_range(bytes, pos, end)
    }
}

/// The regions of a run of file entries: each entry's serialized block.
pub open spec fn file_regions(items: Seq<File>) -> Seq<Seq<u8>> {
    items.map(|i: int, e: File| e.body_bytes())
}

pub open spec fn files_seq_wf(items: Seq<File>) -> bool {
    forall|i: int|
        0 <= i < items.len() ==> (#[trigger] items[i]).wf() && items[i].body_bytes().len()
            <= 0xffff && file_norm(items[i])
}

/// A file entry in the form the serializer emits: no present-but-empty
/// payload, which the wire cannot tell from an absent one.
pub open spec fn file_norm(it: File) -> bool {
    match it.payload {
        Some(pl) => pl@.len() > 0,
        None => true,
    }
}

pub open spec fn files_seq_eqv(a: Seq<File>, b: Seq<File>) -> bool {
    a.len() == b.len() && forall|i: int| 0 <= i < a.len() ==> File::eqv(#[trigger] a[i], b[i])
}

/// TLV block announcing a firmware transfer: the files and their sizes.
#[derive(Debug, PartialEq)]
pub struct WriteFile {
    pub files: Vec<File>,
}

impl WriteFile {
    pub open spec fn wf(self) -> bool {
        files_seq_wf(self.files@)
    }

    pub open spec fn spec_fs(self) -> Seq<(u16, LengthSpec, Option<Seq<u8>>)> {
        fields::rep_fs(file_regions(self.files@), 0x2d)
    }

    pub open spec fn body_bytes(self) -> Seq<u8> {
        fields::cat_opt_fields(self.spec_fs())
    }

    pub open spec fn eqv(a: Self, b: Self) -> bool {
        files_seq_eqv(a.files@, b.files@)
    }

    pub open spec fn spec_descs() -> Seq<FieldDesc> {
        seq![
            FieldDesc { tag: 0x2d, len: LengthSpec::Tlv, width: 0, repeatable: true, required: false },
        ]
    }

    pub fn encode_body(&self) -> (r: Vec<u8>)
        requires
            self.wf(),
        ensures
            r@ == self.body_bytes(),
    {
        let mut out: Vec<u8> = Vec::new();
        let mut i: usize = 0;
        proof {
            assert(fields::rep_fs(file_regions(self.files@.subrange(0, 0)), 0x2d) =~= Seq::<
                (u16, LengthSpec, Option<Seq<u8>>),
            >::empty());
            assert(out@ =~= fields::cat_opt_fields(
                fields::rep_fs(file_regions(self.files@.subrange(0, 0)), 0x2d),
            ));
        }
        while i < self.files.len()
            invariant
                i <= self.files@.len(),
                files_seq_wf(self.files@),
                out@ == fields::cat_opt_fields(
                    fields::rep_fs(file_regions(self.files@.subrange(0, i as int)), 0x2d),
                ),
            decreases self.files@.len() - i,
        {
            let region = self.files[i].encode_body();
            fields::ser_field(&mut out, Some(Tag(0x2d)), LengthSpec::Tlv, &region);
            proof {
                let fv = self.files@;
                let pre = fields::rep_fs(file_regions(fv.subrange(0, i as int)), 0x2d);
                let one = fields::rep_fs(file_regions(fv.subrange(i as int, i + 1)), 0x2d);
                let cur = fields::rep_fs(file_regions(fv.subrange(0, i + 1)), 0x2d);
                assert(cur =~= pre + one);
                fields::lemma_cat_opt_fields_cat(pre, one);
                assert(one =~= seq![(0x2du16, LengthSpec::Tlv, Some(fv[i as int].body_bytes()))]);
                assert(fields::cat_opt_fields(one) =~= fields::opt_field_bytes(
                    0x2d,
                    LengthSpec::Tlv,
                    Some(fv[i as int].body_bytes()),
                )) by {
                    assert(one.drop_first() =~= Seq::<
                        (u16, LengthSpec, Option<Seq<u8>>),
                    >::empty());
                    assert(fields::cat_opt_fields(
                        Seq::<(u16, LengthSpec, Option<Seq<u8>>)>::empty(),
                    ) =~= Seq::<u8>::empty());
                };
                assert(out@ =~= fields::cat_opt_fields(cur));
            }
            i = i + 1;
        }
        proof {
            assert(self.files@.subrange(0, self.files@.len() as int) =~= self.files@);
        }
        out
    }

    /// A well-formed list is read back entry for entry.
    pub proof fn lemma_body_parses(self, s: Seq<u8>)
        requires
            self.wf(),
            s == self.body_bytes(),
            s.len() <= usize::MAX,
        ensures
            fields::spec_parse_fields(s, 0, Self::spec_descs(), seq![], seq![]) == Ok::<
                _,
                ErrorView,
            >((fields::cat_opt_entries(self.spec_fs()), s.len() as int)),
            fields::payloads_of(fields::cat_opt_entries(self.spec_fs()), 0x2d) == file_regions(
                self.files@,
            ),
    {
        let ds = Self::spec_descs();
        let fs = self.spec_fs();
        assert(s.subrange(0, fields::cat_opt_fields(fs).len() as int) =~= fields::cat_opt_fields(
            fs,
        ));
        fields::lemma_low5(0x2d);
        assert(fields::fs_ok(fs, ds, seq![])) by {
            assert forall|j: int| 0 <= j < fs.len() && (#[trigger] fs[j]).2 is Some implies {
                &&& encoding::tag_wf(fs[j].0)
                &&& fields::find_desc(ds, fs[j].0) matches Some(d) && d.len == fs[j].1
                    && fields::region_wf(d.len, d.width as int, fs[j].2.unwrap().len() as int) && (
                d.repeatable || (!seq![].contains(fs[j].0) && forall|i: int|
                    0 <= i < j ==> (#[trigger] fs[i]).0 != fs[j].0))
            } by {
                assert(fs[j].0 == 0x2d && fs[j].1 == LengthSpec::Tlv);
                assert(fs[j].2 == Some(self.files@[j].body_bytes()));
            };
        };
        fields::lemma_parse_cat(s, 0, ds, seq![], seq![], fs);
        fields::lemma_parse_fields_stop(
            s,
            s.len() as int,
            ds,
            seq![] + fields::present_tags(fs),
            seq![] + fields::cat_opt_entries(fs),
        );
        fields::lemma_finish_ok(
            ds,
            seq![] + fields::present_tags(fs),
            seq![] + fields::cat_opt_entries(fs),
            s.len() as int,
        );
        assert(seq![] + fields::cat_opt_entries(fs) =~= fields::cat_opt_entries(fs));
        fields::lemma_payloads_fs(fs, 0x2d);
        fields::lemma_rep_fs(file_regions(self.files@), 0x2d);
    }

    /// Decoding reads back exactly what a well-formed list serialized to.
    pub fn decode_body(bytes: &[u8]) -> (r: ZVTResult<(Self, usize)>)
        ensures
            r matches Ok(v) ==> v.1 <= bytes@.len(),
            forall|v: Self|
                v.wf() && bytes@ == #[trigger] v.body_bytes() ==> (r matches Ok(o) && Self::eqv(
                    o.0,
                    v,
                ) && o.1 == bytes@.len()),
    {
        let blen_e = bytes.len();
        proof {
            assert(bytes@.len() <= usize::MAX);
        }
        proof {
            assert forall|v: Self| v.wf() && bytes@ == #[trigger] v.body_bytes() implies {
                &&& fields::spec_parse_fields(bytes@, 0, Self::spec_descs(), seq![], seq![])
                    == Ok::<_, ErrorView>(
                    (fields::cat_opt_entries(v.spec_fs()), bytes@.len() as int),
                )
                &&& fields::payloads_of(fields::cat_opt_entries(v.spec_fs()), 0x2d)
                    == file_regions(v.files@)
            } by {
                v.lemma_body_parses(bytes@);
            };
        }
        let mut descs: Vec<FieldDesc> = Vec::new();
        descs.push(
            FieldDesc { tag: 0x2d, len: LengthSpec::Tlv, width: 0, repeatable: true, required: false },
        );
        proof {
            assert(descs@ =~= WriteFile::spec_descs());
        }
        let (entries, pos) = match fields::parse_tagged_fields(bytes, 0, &descs) {
            Ok(v) => v,
            Err(e) => {
                return Err(e);
            },
        };
        let payloads = fields::collect_payloads(&entries, 0x2d);
        let mut items: Vec<File> = Vec::new();
        let mut i: usize = 0;
        while i < payloads.len()
            invariant
                i <= payloads@.len(),
                items@.len() == i,
                forall|j: int, it: File|
                    0 <= j < i && it.wf() && file_norm(it) && (#[trigger] payloads@[j])@
                        == #[trigger] it.body_bytes() ==> File::eqv(items@[j], it),
                forall|v: WriteFile|
                    v.wf() && bytes@ == #[trigger] v.body_bytes() ==> payloads@.map(
                        |k: int, pl: Vec<u8>| pl@,
                    ) == file_regions(v.files@),
            decreases payloads@.len() - i,
        {
            match File::decode_body(payloads[i].as_slice()) {
                Ok((e, _)) => {
                    items.push(e);
                },
                Err(err) => {
                    proof {
                        assert forall|v: WriteFile|
                            v.wf() && bytes@ == #[trigger] v.body_bytes() implies false by {
                            assert(payloads@.map(|k: int, pl: Vec<u8>| pl@)[i as int]
                                == file_regions(v.files@)[i as int]);
                            assert(payloads@[i as int]@ == v.files@[i as int].body_bytes());
                            assert(v.files@[i as int].wf());
                            assert(file_norm(v.files@[i as int]));
                        };
                    }
                    return Err(err);
                },
            }
            i = i + 1;
        }
        let result = WriteFile { files: items };
        proof {
            assert forall|v: WriteFile|
                v.wf() && bytes@ == #[trigger] v.body_bytes() implies Self::eqv(result, v) by {
                assert(payloads@.map(|k: int, pl: Vec<u8>| pl@) == file_regions(v.files@));
                assert(result.files@.len() == v.files@.len());
                assert forall|j: int| 0 <= j < result.files@.len() implies File::eqv(
                    #[trigger] result.files@[j],
                    v.files@[j],
                ) by {
                    assert(payloads@.map(|k: int, pl: Vec<u8>| pl@)[j] == file_regions(
                        v.files@,
                    )[j]);
                    assert(payloads@[j]@ == v.files@[j].body_bytes());
                    assert(v.files@[j].wf());
                    assert(file_norm(v.files@[j]));
                };
            };
        }
        Ok((result, pos))
    }
}

/// The host address a terminal is told to connect to.
#[derive(Debug, PartialEq)]
pub struct HostConfigurationData {
    pub ip: u32,
    pub port: u16,
    pub config_byte: u8,
}

impl HostConfigurationData {
    pub open spec fn wf(self) -> bool {
        true
    }

    pub open spec fn body_bytes(self) -> Seq<u8> {
        encoding::u32_be_bytes(self.ip) + encoding::u16_be_bytes(self.port) + seq![
            self.config_byte,
        ]
    }

    pub fn encode_body(&self) -> (r: Vec<u8>)
        ensures
            r@ == self.body_bytes(),
    {
        let mut out = encoding::enc_u32_be(self.ip);
        let mut pb = encoding::enc_u16_be(self.port);
        out.append(&mut pb);
        out.push(self.config_byte);
        proof {
            assert(out@ =~= self.body_bytes());
        }
        out
    }

    /// Reads the address back: three big-endian scalars.
    pub fn decode_body(bytes: &[u8]) -> (r: ZVTResult<(Self, usize)>)
        ensures
            r matches Ok(v) ==> v.1 <= bytes@.len(),
            forall|v: Self|
                bytes@ == #[trigger] v.body_bytes() ==> (r matches Ok(o) && o.0 == v && o.1
                    == bytes@.len()),
    {
        proof {
            assert forall|v: Self| bytes@ == #[trigger] v.body_bytes() implies {
                &&& bytes@.len() == 7
                &&& encoding::u32_be_val(bytes@[0], bytes@[1], bytes@[2], bytes@[3]) == v.ip
                &&& encoding::u16_be_val(bytes@[4], bytes@[5]) == v.port
                &&& bytes@[6] == v.config_byte
            } by {
                encoding::lemma_u32_be_roundtrip(v.ip);
                encoding::lemma_u16_be_roundtrip(v.port);
            };
        }
        let (ip, p1) = match encoding::dec_u32_be(bytes, 0) {
            Ok(v) => v,
            Err(e) => {
                return Err(e);
            },
        };
        let (port, p2) = match encoding::dec_u16_be(bytes, p1) {
            Ok(v) => v,
            Err(e) => {
                return Err(e);
            },
        };
        let (config_byte, p3) = match encoding::dec_u8(bytes, p2) {
            Ok(v) => v,
            Err(e) => {
                return Err(e);
            },
        };
        Ok((HostConfigurationData { ip, port, config_byte }, p3))
    }
}

/// TLV block changing the terminal's host configuration.
#[derive(Debug, PartialEq)]
pub struct SystemInformation {
    pub password: usize,
    pub host_configuration_data: Option<HostConfigurationData>,
}

impl SystemInformation {
    pub open spec fn wf(self) -> bool {
        &&& encoding::bcd_bytes(self.password as nat).len() <= 0xffff
        &&& (match self.host_configuration_data { Some(ref k) => k.wf() && k.body_bytes().len() <= 0xffff, None => true })
    }

    pub open spec fn spec_fs(self) -> Seq<(u16, LengthSpec, Option<Seq<u8>>)> {
        seq![
            (0xff40u16, LengthSpec::Tlv, Some(encoding::bcd_bytes(self.password as nat))),
            (0xff41u16, LengthSpec::Tlv, (match self.host_configuration_data { Some(ref k) => Some(k.body_bytes()), None => None })),
        ]
    }

    pub open spec fn body_bytes(self) -> Seq<u8> {
        fields::cat_opt_fields(self.spec_fs())
    }

    pub open spec fn spec_descs() -> Seq<FieldDesc> {
        seq![
            FieldDesc { tag: 0xff40, len: LengthSpec::Tlv, width: 0, repeatable: false, required: true },
            FieldDesc { tag: 0xff41, len: LengthSpec::Tlv, width: 0, repeatable: false, required: false },
        ]
    }

    fn descs() -> (r: Vec<FieldDesc>)
        ensures r@ == Self::spec_descs(),
    {
        let mut v: Vec<FieldDesc> = Vec::new();
        v.push(FieldDesc { tag: 0xff40, len: LengthSpec::Tlv, width: 0, repeatable: false, required: true });
        v.push(FieldDesc { tag: 0xff41, len: LengthSpec::Tlv, width: 0, repeatable: false, required: false });
        proof { assert(v@ =~= Self::spec_descs()); }
        v
    }

    proof fn lemma_meta(self)
        ensures
            fields::find_desc(Self::spec_descs(), 0xff40) == Some(Self::spec_descs()[0]),
            encoding::tag_wf(0xff40),
            fields::fs_lookup(self.spec_fs(), 0xff40) == Some(encoding::bcd_bytes(self.password as nat)),
            fields::find_desc(Self::spec_descs(), 0xff41) == Some(Self::spec_descs()[1]),
            encoding::tag_wf(0xff41),
            fields::fs_lookup(self.spec_fs(), 0xff41) == (match self.host_configuration_data { Some(ref k) => Some(k.body_bytes()), None => None }),
    {
        let ds = Self::spec_descs();
        let fs = self.spec_fs();
        let ds0 = ds; let fs0 = fs;
        let ds1 = ds0.drop_first(); let fs1 = fs0.drop_first();
        let ds2 = ds1.drop_first(); let fs2 = fs1.drop_first();
        assert(ds0[0] == ds[0]); assert(fs0[0] == fs[0]);
        assert(ds0.len() == 2); assert(fs0.len() == 2);
        assert(ds1[0] == ds[1]); assert(fs1[0] == fs[1]);
        assert(ds1.len() == 1); assert(fs1.len() == 1);
        assert(ds2 =~= Seq::<FieldDesc>::empty()); assert(fs2 =~= Seq::<(u16, LengthSpec, Option<Seq<u8>>)>::empty());
        fields::lemma_low5(0x1f);
        assert((0xff40u16 / 256) as u8 == 0xff);
        fields::lemma_low5(0xff);
        assert((0xff41u16 / 256) as u8 == 0xff);
        fields::lemma_low5(0xff);
        assert(fields::find_desc(ds0, 0xff40) == Some(ds[0]));
        assert(fields::find_desc(ds1, 0xff41) == Some(ds[1]));
        assert(fields::find_desc(ds0, 0xff41) == fields::find_desc(ds1, 0xff41));
        assert(fields::fs_lookup(fs2, 0xff40) == None::<Seq<u8>>);
        assert(fields::fs_lookup(fs1, 0xff40) == None::<Seq<u8>>);
        assert(fields::fs_lookup(fs0, 0xff40) == Some(encoding::bcd_bytes(self.password as nat))) by { match self.password { _ => {} } };
        assert(fields::fs_lookup(fs2, 0xff41) == None::<Seq<u8>>);
        assert(fields::fs_lookup(fs1, 0xff41) == (match self.host_configuration_data { Some(ref k) => Some(k.body_bytes()), None => None })) by { match self.host_configuration_data { _ => {} } };
        assert(fields::fs_lookup(fs0, 0xff41) == fields::fs_lookup(fs1, 0xff41));
    }

    pub proof fn lemma_body_parses(self, s: Seq<u8>)
        requires self.wf(), s == self.body_bytes(), s.len() <= usize::MAX,
        ensures
            fields::spec_parse_fields(s, self.pos_len(), Self::spec_descs(), seq![], seq![]) == Ok::<_, ErrorView>((fields::cat_opt_entries(self.spec_fs()), s.len() as int)),
            self.pos_len() + fields::cat_opt_fields(self.spec_fs()).len() == s.len(),
    {
        let ds = Self::spec_descs();
        let fs = self.spec_fs();
        self.lemma_meta();
        let p0 = self.pos_len();
        assert(p0 == 0);
        assert(s.subrange(0, fields::cat_opt_fields(fs).len() as int) =~= fields::cat_opt_fields(fs));
        assert(fields::fs_ok(fs, ds, seq![])) by {
            assert forall|j: int| 0 <= j < fs.len() && (#[trigger] fs[j]).2 is Some implies {
                &&& encoding::tag_wf(fs[j].0)
                &&& fields::find_desc(ds, fs[j].0) matches Some(d) && d.len == fs[j].1 && fields::region_wf(d.len, d.width as int, fs[j].2.unwrap().len() as int) && (d.repeatable || (!seq![].contains(fs[j].0) && forall|i: int| 0 <= i < j ==> (#[trigger] fs[i]).0 != fs[j].0))
            } by {
                if j == 0 { assert(fs[0].0 == 0xff40); }
                if j == 1 { assert(fs[1].0 == 0xff41); }
            };
        };
        fields::lemma_parse_cat(s, p0, ds, seq![], seq![], fs);
        fields::lemma_parse_fields_stop(s, s.len() as int, ds, seq![] + fields::present_tags(fs), seq![] + fields::cat_opt_entries(fs));
        let seen = seq![] + fields::present_tags(fs);
        fields::lemma_present_tags_contains(fs, 0);
        assert(seen =~= fields::present_tags(fs));
        assert forall|kk: int| 0 <= kk < ds.len() implies !(#[trigger] ds[kk]).required || seen.contains(ds[kk].tag) by {
            if kk == 0 { assert(fs[0].2 is Some); assert(fields::present_tags(fs).contains(fs[0].0)); }
            if kk == 1 { assert(!ds[1].required); }
        };
        fields::lemma_finish_ok(ds, seen, seq![] + fields::cat_opt_entries(fs), s.len() as int);
        assert(seq![] + fields::cat_opt_entries(fs) =~= fields::cat_opt_entries(fs));
    }

    pub open spec fn pos_len(self) -> int {
        0
    }

    pub fn encode_body(&self) -> (r: Vec<u8>)
        requires self.wf(),
        ensures r@ == self.body_bytes(),
    {
        let ghost gfs = self.spec_fs();
        let mut out: Vec<u8> = Vec::new();
        { let region = encoding::enc_bcd(self.password); fields::ser_field(&mut out, Some(Tag(0xff40)), LengthSpec::Tlv, &region); }
        proof { assert(out@ =~= fields::opt_field_bytes(gfs[0].0, gfs[0].1, gfs[0].2)); }
        match self.host_configuration_data { Some(ref k) => { let region = k.encode_body(); fields::ser_field(&mut out, Some(Tag(0xff41)), LengthSpec::Tlv, &region); }, None => {} }
        proof { assert(out@ =~= fields::opt_field_bytes(gfs[0].0, gfs[0].1, gfs[0].2) + fields::opt_field_bytes(gfs[1].0, gfs[1].1, gfs[1].2)); }
        proof {
            self.lemma_meta();
            let fs = self.spec_fs();
        let fs0 = fs;
        let fs1 = fs0.drop_first();
        let fs2 = fs1.drop_first();
        assert(fields::cat_opt_fields(fs0) == fields::opt_field_bytes(fs0[0].0, fs0[0].1, fs0[0].2) + fields::cat_opt_fields(fs1)); assert(fs0[0] == fs[0]);
        assert(fields::cat_opt_fields(fs1) == fields::opt_field_bytes(fs1[0].0, fs1[0].1, fs1[0].2) + fields::cat_opt_fields(fs2)); assert(fs1[0] == fs[1]);
        assert(fields::cat_opt_fields(fs2) =~= Seq::<u8>::empty());
            assert(out@ =~= self.body_bytes());
        }
        out
    }

    pub fn decode_body(bytes: &[u8]) -> (r: ZVTResult<(Self, usize)>)
        ensures
            r matches Ok(v) ==> v.1 <= bytes@.len(),
            forall|v: Self|
                v.wf() && (true) && bytes@ == #[trigger] v.body_bytes() ==> (r matches Ok(o) && o.0 == v
                    && o.1 == bytes@.len()),
    {
        let blen_e = bytes.len();
        proof { assert(bytes@.len() <= usize::MAX); }
        proof {
            assert forall|v: Self| v.wf() && (true) && bytes@ == #[trigger] v.body_bytes() implies SystemInformation::master_facts(v, bytes@) by { SystemInformation::lemma_master(v, bytes@); };
        }
        let mut p: usize = 0;
        let descs = Self::descs();
        let parsed = fields::parse_tagged_fields(bytes, p, &descs);
        let (entries, pos_end) = match parsed { Ok(v) => v, Err(e) => { return Err(e); } };
        let f_password = match fields::entry_opt_usize_bcd(&entries, 0xff40) { Some(v) => v, None => { return Err(ZVTError::IncompleteData); } };
        let f_host_configuration_data = match fields::find_payload(&entries, 0xff41) { None => None, Some(pl) => match HostConfigurationData::decode_body(pl.as_slice()) { Ok(v) => Some(v.0), Err(e) => { return Err(e); } } };
        let result = Self {
            password: f_password,
            host_configuration_data: f_host_configuration_data,
        };
        proof {
            assert forall|v: Self| v.wf() && (true) && bytes@ == #[trigger] v.body_bytes() implies result == v by {
                SystemInformation::lemma_master(v, bytes@);
                { encoding::lemma_bcd_roundtrip(v.password as nat); vstd::arithmetic::div_mod::lemma_small_mod(v.password as nat, encoding::usize_mod()); }
                match v.host_configuration_data { Some(ref kk) => { assert(kk.wf()); }, None => {} }
            };
        }
        Ok((result, pos_end))
    }

    pub open spec fn master_facts(v: Self, s: Seq<u8>) -> bool {
        &&& fields::spec_parse_fields(s, v.pos_len(), Self::spec_descs(), seq![], seq![]) == Ok::<_, ErrorView>((fields::cat_opt_entries(v.spec_fs()), s.len() as int))
        &&& fields::find_entry(fields::cat_opt_entries(v.spec_fs()), 0xff40) == Some(encoding::bcd_bytes(v.password as nat))
        &&& fields::find_entry(fields::cat_opt_entries(v.spec_fs()), 0xff41) == (match v.host_configuration_data { Some(ref k) => Some(k.body_bytes()), None => None })
    }

    pub proof fn lemma_master(v: Self, s: Seq<u8>)
        requires v.wf(), (true), s == v.body_bytes(), s.len() <= usize::MAX,
        ensures Self::master_facts(v, s),
    {
        v.lemma_meta();
        v.lemma_body_parses(s);
        let fs = v.spec_fs();
        let g0 = fs;
        let g1 = g0.drop_first();
        let g2 = g1.drop_first();
        assert(fields::cat_opt_fields(g0) == fields::opt_field_bytes(g0[0].0, g0[0].1, g0[0].2) + fields::cat_opt_fields(g1)); assert(g0[0] == fs[0]);
        assert(fields::cat_opt_fields(g1) == fields::opt_field_bytes(g1[0].0, g1[0].1, g1[0].2) + fields::cat_opt_fields(g2)); assert(g1[0] == fs[1]);
        assert(fields::cat_opt_fields(g2) =~= Seq::<u8>::empty());
        fields::lemma_find_entry_fs(fs, 0xff40);
        fields::lemma_find_entry_fs(fs, 0xff41);
    }
}

/// TLV block of the ChangeConfiguration packet.
#[derive(Debug, PartialEq)]
pub struct ChangeConfiguration {
    pub system_information: SystemInformation,
}

impl ChangeConfiguration {
    pub open spec fn wf(self) -> bool {
        &&& self.system_information.wf() && self.system_information.body_bytes().len() <= 0xffff
    }

    pub open spec fn spec_fs(self) -> Seq<(u16, LengthSpec, Option<Seq<u8>>)> {
        seq![
            (0xe4u16, LengthSpec::Tlv, Some(self.system_information.body_bytes())),
        ]
    }

    pub open spec fn body_bytes(self) -> Seq<u8> {
        fields::cat_opt_fields(self.spec_fs())
    }

    pub open spec fn spec_descs() -> Seq<FieldDesc> {
        seq![
            FieldDesc { tag: 0xe4, len: LengthSpec::Tlv, width: 0, repeatable: false, required: true },
        ]
    }

    fn descs() -> (r: Vec<FieldDesc>)
        ensures r@ == Self::spec_descs(),
    {
        let mut v: Vec<FieldDesc> = Vec::new();
        v.push(FieldDesc { tag: 0xe4, len: LengthSpec::Tlv, width: 0, repeatable: false, required: true });
        proof { assert(v@ =~= Self::spec_descs()); }
        v
    }

    proof fn lemma_meta(self)
        ensures
            fields::find_desc(Self::spec_descs(), 0xe4) == Some(Self::spec_descs()[0]),
            encoding::tag_wf(0xe4),
            fields::fs_lookup(self.spec_fs(), 0xe4) == Some(self.system_information.body_bytes()),
    {
        let ds = Self::spec_descs();
        let fs = self.spec_fs();
        let ds0 = ds; let fs0 = fs;
        let ds1 = ds0.drop_first(); let fs1 = fs0.drop_first();
        assert(ds0[0] == ds[0]); assert(fs0[0] == fs[0]);
        assert(ds0.len() == 1); assert(fs0.len() == 1);
        assert(ds1 =~= Seq::<FieldDesc>::empty()); assert(fs1 =~= Seq::<(u16, LengthSpec, Option<Seq<u8>>)>::empty());
        fields::lemma_low5(0x1f);
        fields::lemma_low5(0xe4);
        assert(fields::find_desc(ds0, 0xe4) == Some(ds[0]));
        assert(fields::fs_lookup(fs1, 0xe4) == None::<Seq<u8>>);
        assert(fields::fs_lookup(fs0, 0xe4) == Some(self.system_information.body_bytes())) by { match self.system_information { _ => {} } };
    }

    pub proof fn lemma_body_parses(self, s: Seq<u8>)
        requires self.wf(), s == self.body_bytes(), s.len() <= usize::MAX,
        ensures
            fields::spec_parse_fields(s, self.pos_len(), Self::spec_descs(), seq![], seq![]) == Ok::<_, ErrorView>((fields::cat_opt_entries(self.spec_fs()), s.len() as int)),
            self.pos_len() + fields::cat_opt_fields(self.spec_fs()).len() == s.len(),
    {
        let ds = Self::spec_descs();
        let fs = self.spec_fs();
        self.lemma_meta();
        let p0 = self.pos_len();
        assert(p0 == 0);
        assert(s.subrange(0, fields::cat_opt_fields(fs).len() as int) =~= fields::cat_opt_fields(fs));
        assert(fields::fs_ok(fs, ds, seq![])) by {
            assert forall|j: int| 0 <= j < fs.len() && (#[trigger] fs[j]).2 is Some implies {
                &&& encoding::tag_wf(fs[j].0)
                &&& fields::find_desc(ds, fs[j].0) matches Some(d) && d.len == fs[j].1 && fields::region_wf(d.len, d.width as int, fs[j].2.unwrap().len() as int) && (d.repeatable || (!seq![].contains(fs[j].0) && forall|i: int| 0 <= i < j ==> (#[trigger] fs[i]).0 != fs[j].0))
            } by {
                if j == 0 { assert(fs[0].0 == 0xe4); }
            };
        };
        fields::lemma_parse_cat(s, p0, ds, seq![], seq![], fs);
        fields::lemma_parse_fields_stop(s, s.len() as int, ds, seq![] + fields::present_tags(fs), seq![] + fields::cat_opt_entries(fs));
        let seen = seq![] + fields::present_tags(fs);
        fields::lemma_present_tags_contains(fs, 0);
        assert(seen =~= fields::present_tags(fs));
        assert forall|kk: int| 0 <= kk < ds.len() implies !(#[trigger] ds[kk]).required || seen.contains(ds[kk].tag) by {
            if kk == 0 { assert(fs[0].2 is Some); assert(fields::present_tags(fs).contains(fs[0].0)); }
        };
        fields::lemma_finish_ok(ds, seen, seq![] + fields::cat_opt_entries(fs), s.len() as int);
        assert(seq![] + fields::cat_opt_entries(fs) =~= fields::cat_opt_entries(fs));
    }

    pub open spec fn pos_len(self) -> int {
        0
    }

    pub fn encode_body(&self) -> (r: Vec<u8>)
        requires self.wf(),
        ensures r@ == self.body_bytes(),
    {
        let ghost gfs = self.spec_fs();
        let mut out: Vec<u8> = Vec::new();
        { let region = self.system_information.encode_body(); fields::ser_field(&mut out, Some(Tag(0xe4)), LengthSpec::Tlv, &region); }
        proof { assert(out@ =~= fields::opt_field_bytes(gfs[0].0, gfs[0].1, gfs[0].2)); }
        proof {
            self.lemma_meta();
            let fs = self.spec_fs();
        let fs0 = fs;
        let fs1 = fs0.drop_first();
        assert(fields::cat_opt_fields(fs0) == fields::opt_field_bytes(fs0[0].0, fs0[0].1, fs0[0].2) + fields::cat_opt_fields(fs1)); assert(fs0[0] == fs[0]);
        assert(fields::cat_opt_fields(fs1) =~= Seq::<u8>::empty());
            assert(out@ =~= self.body_bytes());
        }
        out
    }

    pub fn decode_body(bytes: &[u8]) -> (r: ZVTResult<(Self, usize)>)
        ensures
            r matches Ok(v) ==> v.1 <= bytes@.len(),
            forall|v: Self|
                v.wf() && (true) && bytes@ == #[trigger] v.body_bytes() ==> (r matches Ok(o) && o.0 == v
                    && o.1 == bytes@.len()),
    {
        let blen_e = bytes.len();
        proof { assert(bytes@.len() <= usize::MAX); }
        proof {
            assert forall|v: Self| v.wf() && (true) && bytes@ == #[trigger] v.body_bytes() implies ChangeConfiguration::master_facts(v, bytes@) by { ChangeConfiguration::lemma_master(v, bytes@); };
        }
        let mut p: usize = 0;
        let descs = Self::descs();
        let parsed = fields::parse_tagged_fields(bytes, p, &descs);
        let (entries, pos_end) = match parsed { Ok(v) => v, Err(e) => { return Err(e); } };
        let f_system_information = match fields::find_payload(&entries, 0xe4) { None => { return Err(ZVTError::IncompleteData); }, Some(pl) => match SystemInformation::decode_body(pl.as_slice()) { Ok(v) => v.0, Err(e) => { return Err(e); } } };
        let result = Self {
            system_information: f_system_information,
        };
        proof {
            assert forall|v: Self| v.wf() && (true) && bytes@ == #[trigger] v.body_bytes() implies result == v by {
                ChangeConfiguration::lemma_master(v, bytes@);
                assert(v.system_information.wf());
            };
        }
        Ok((result, pos_end))
    }

    pub open spec fn master_facts(v: Self, s: Seq<u8>) -> bool {
        &&& fields::spec_parse_fields(s, v.pos_len(), Self::spec_descs(), seq![], seq![]) == Ok::<_, ErrorView>((fields::cat_opt_entries(v.spec_fs()), s.len() as int))
        &&& fields::find_entry(fields::cat_opt_entries(v.spec_fs()), 0xe4) == Some(v.system_information.body_bytes())
    }

    pub proof fn lemma_master(v: Self, s: Seq<u8>)
        requires v.wf(), (true), s == v.body_bytes(), s.len() <= usize::MAX,
        ensures Self::master_facts(v, s),
    {
        v.lemma_meta();
        v.lemma_body_parses(s);
        let fs = v.spec_fs();
        let g0 = fs;
        let g1 = g0.drop_first();
        assert(fields::cat_opt_fields(g0) == fields::opt_field_bytes(g0[0].0, g0[0].1, g0[0].2) + fields::cat_opt_fields(g1)); assert(g0[0] == fs[0]);
        assert(fields::cat_opt_fields(g1) =~= Seq::<u8>::empty());
        fields::lemma_find_entry_fs(fs, 0xe4);
    }
}

} // verus!
