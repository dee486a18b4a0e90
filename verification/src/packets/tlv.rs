//! TLV blocks carried inside the standard packets under BMP tag 0x06.

use crate::encoding;
use crate::errors::ZVTError;
use crate::errors::ZVTResult;
use crate::fields;
use crate::length;
use crate::fields::ErrorView;
use crate::fields::FieldDesc;
use crate::fields::LengthSpec;
use crate::Tag;
use vstd::prelude::*;

verus! {

/// TLV block of the Diagnosis packet: which diagnosis to run.
#[derive(Debug, PartialEq)]
pub struct Diagnosis {
    pub diagnosis_type: Option<u8>,
}

impl Diagnosis {
    pub open spec fn wf(self) -> bool {
        true
    }

    pub open spec fn body_bytes(self) -> Seq<u8> {
        match self.diagnosis_type {
            Some(x) => fields::field_bytes(Some(0x1b), LengthSpec::Tlv, seq![x]),
            None => seq![],
        }
    }

    pub open spec fn spec_entries(self) -> Seq<(u16, Seq<u8>)> {
        match self.diagnosis_type {
            Some(x) => seq![(0x1bu16, seq![x])],
            None => seq![],
        }
    }

    pub open spec fn spec_descs() -> Seq<FieldDesc> {
        seq![
            FieldDesc {
                tag: 0x1b,
                len: LengthSpec::Tlv,
                width: 0,
                repeatable: false,
                required: false,
            },
        ]
    }

    fn descs() -> (r: Vec<FieldDesc>)
        ensures
            r@ == Self::spec_descs(),
    {
        let mut v: Vec<FieldDesc> = Vec::new();
        v.push(
            FieldDesc {
                tag: 0x1b,
                len: LengthSpec::Tlv,
                width: 0,
                repeatable: false,
                required: false,
            },
        );
        proof {
            assert(v@ =~= Self::spec_descs());
        }
        v
    }

    /// A well-formed block is read back field for field.
    pub proof fn lemma_body_parses(self, s: Seq<u8>)
        requires
            self.wf(),
            s == self.body_bytes(),
            s.len() <= usize::MAX,
        ensures
            fields::spec_parse_fields(s, 0, Self::spec_descs(), seq![], seq![]) == Ok::<
                _,
                ErrorView,
            >((self.spec_entries(), s.len() as int)),
    {
        let ds = Self::spec_descs();
        match self.diagnosis_type {
            None => {
                fields::lemma_parse_fields_stop(s, 0, ds, seq![], seq![]);
                fields::lemma_finish_ok(ds, seq![], seq![], 0);
                assert(self.spec_entries() =~= Seq::<(u16, Seq<u8>)>::empty());
            },
            Some(x) => {
                let fb = fields::field_bytes(Some(0x1b), LengthSpec::Tlv, seq![x]);
                assert(s.subrange(0, fb.len() as int) =~= fb);
                fields::lemma_low5(0x1b);
                fields::lemma_parse_fields_step(
                    s,
                    0,
                    ds,
                    seq![],
                    seq![],
                    0x1b,
                    ds[0],
                    seq![x],
                );
                fields::lemma_parse_fields_stop(
                    s,
                    fb.len() as int,
                    ds,
                    seq![].push(0x1bu16),
                    seq![].push((0x1bu16, seq![x])),
                );
                fields::lemma_finish_ok(
                    ds,
                    seq![].push(0x1bu16),
                    seq![].push((0x1bu16, seq![x])),
                    s.len() as int,
                );
                assert(seq![].push(0x1bu16)[0] == 0x1bu16);
                assert(seq![].push(0x1bu16).contains(0x1bu16));
                assert(self.spec_entries() =~= seq![].push((0x1bu16, seq![x])));
            },
        }
    }

    pub fn encode_body(&self) -> (r: Vec<u8>)
        requires
            self.wf(),
        ensures
            r@ == self.body_bytes(),
    {
        let mut out: Vec<u8> = Vec::new();
        match self.diagnosis_type {
            Some(x) => {
                let region = encoding::enc_u8(x);
                fields::ser_field(&mut out, Some(Tag(0x1b)), LengthSpec::Tlv, &region);
            },
            None => {},
        }
        proof {
            assert(out@ =~= self.body_bytes());
        }
        out
    }

    /// Decoding reads back exactly what a well-formed block serialized to.
    pub fn decode_body(bytes: &[u8]) -> (r: ZVTResult<(Self, usize)>)
        ensures
            r matches Ok(v) ==> v.1 <= bytes@.len(),
            forall|v: Self|
                v.wf() && bytes@ == #[trigger] v.body_bytes() ==> (r matches Ok(o) && o.0 == v
                    && o.1 == bytes@.len()),
    {
        let descs = Self::descs();
        let parsed = fields::parse_tagged_fields(bytes, 0, &descs);
        proof {
            assert forall|v: Self| v.wf() && bytes@ == #[trigger] v.body_bytes() implies {
                &&& fields::spec_parse_fields(bytes@, 0, Self::spec_descs(), seq![], seq![])
                    == Ok::<_, ErrorView>((v.spec_entries(), bytes@.len() as int))
                &&& fields::find_entry(v.spec_entries(), 0x1b) == match v.diagnosis_type {
                    Some(x) => Some(seq![x]),
                    None => None::<Seq<u8>>,
                }
            } by {
                v.lemma_body_parses(bytes@);
                match v.diagnosis_type {
                    Some(x) => {
                        assert(v.spec_entries()[0] == (0x1bu16, seq![x]));
                    },
                    None => {},
                }
            };
        }
        let (entries, pos) = match parsed {
            Ok(v) => v,
            Err(e) => {
                return Err(e);
            },
        };
        let dt = match fields::entry_opt_u8(&entries, 0x1b) {
            Ok(v) => v,
            Err(e) => {
                return Err(e);
            },
        };
        Ok((Diagnosis { diagnosis_type: dt }, pos))
    }
}

/// TLV block of the Registration packet: the maximum ADPU length the ECR
/// accepts.
#[derive(Debug, PartialEq)]
pub struct Registration {
    pub max_len_adpu: Option<u16>,
}

impl Registration {
    pub open spec fn wf(self) -> bool {
        true
    }

    pub open spec fn body_bytes(self) -> Seq<u8> {
        match self.max_len_adpu {
            Some(x) => fields::field_bytes(Some(0x1a), LengthSpec::Tlv, encoding::u16_be_bytes(x)),
            None => seq![],
        }
    }

    pub open spec fn spec_entries(self) -> Seq<(u16, Seq<u8>)> {
        match self.max_len_adpu {
            Some(x) => seq![(0x1au16, encoding::u16_be_bytes(x))],
            None => seq![],
        }
    }

    pub open spec fn spec_descs() -> Seq<FieldDesc> {
        seq![
            FieldDesc {
                tag: 0x1a,
                len: LengthSpec::Tlv,
                width: 0,
                repeatable: false,
                required: false,
            },
        ]
    }

    fn descs() -> (r: Vec<FieldDesc>)
        ensures
            r@ == Self::spec_descs(),
    {
        let mut v: Vec<FieldDesc> = Vec::new();
        v.push(
            FieldDesc {
                tag: 0x1a,
                len: LengthSpec::Tlv,
                width: 0,
                repeatable: false,
                required: false,
            },
        );
        proof {
            assert(v@ =~= Self::spec_descs());
        }
        v
    }

    pub proof fn lemma_body_parses(self, s: Seq<u8>)
        requires
            self.wf(),
            s == self.body_bytes(),
            s.len() <= usize::MAX,
        ensures
            fields::spec_parse_fields(s, 0, Self::spec_descs(), seq![], seq![]) == Ok::<
                _,
                ErrorView,
            >((self.spec_entries(), s.len() as int)),
    {
        let ds = Self::spec_descs();
        match self.max_len_adpu {
            None => {
                fields::lemma_parse_fields_stop(s, 0, ds, seq![], seq![]);
                fields::lemma_finish_ok(ds, seq![], seq![], 0);
                assert(self.spec_entries() =~= Seq::<(u16, Seq<u8>)>::empty());
            },
            Some(x) => {
                let region = encoding::u16_be_bytes(x);
                let fb = fields::field_bytes(Some(0x1a), LengthSpec::Tlv, region);
                assert(s.subrange(0, fb.len() as int) =~= fb);
                fields::lemma_low5(0x1a);
                fields::lemma_parse_fields_step(s, 0, ds, seq![], seq![], 0x1a, ds[0], region);
                fields::lemma_parse_fields_stop(
                    s,
                    fb.len() as int,
                    ds,
                    seq![].push(0x1au16),
                    seq![].push((0x1au16, region)),
                );
                fields::lemma_finish_ok(
                    ds,
                    seq![].push(0x1au16),
                    seq![].push((0x1au16, region)),
                    s.len() as int,
                );
                assert(seq![].push(0x1au16)[0] == 0x1au16);
                assert(seq![].push(0x1au16).contains(0x1au16));
                assert(self.spec_entries() =~= seq![].push((0x1au16, region)));
            },
        }
    }

    pub fn encode_body(&self) -> (r: Vec<u8>)
        requires
            self.wf(),
        ensures
            r@ == self.body_bytes(),
    {
        let mut out: Vec<u8> = Vec::new();
        match self.max_len_adpu {
            Some(x) => {
                let region = encoding::enc_u16_be(x);
                fields::ser_field(&mut out, Some(Tag(0x1a)), LengthSpec::Tlv, &region);
            },
            None => {},
        }
        proof {
            assert(out@ =~= self.body_bytes());
        }
        out
    }

    pub fn decode_body(bytes: &[u8]) -> (r: ZVTResult<(Self, usize)>)
        ensures
            r matches Ok(v) ==> v.1 <= bytes@.len(),
            forall|v: Self|
                v.wf() && bytes@ == #[trigger] v.body_bytes() ==> (r matches Ok(o) && o.0 == v
                    && o.1 == bytes@.len()),
    {
        let descs = Self::descs();
        let parsed = fields::parse_tagged_fields(bytes, 0, &descs);
        proof {
            assert forall|v: Self| v.wf() && bytes@ == #[trigger] v.body_bytes() implies {
                &&& fields::spec_parse_fields(bytes@, 0, Self::spec_descs(), seq![], seq![])
                    == Ok::<_, ErrorView>((v.spec_entries(), bytes@.len() as int))
                &&& fields::find_entry(v.spec_entries(), 0x1a) == match v.max_len_adpu {
                    Some(x) => Some(encoding::u16_be_bytes(x)),
                    None => None::<Seq<u8>>,
                }
            } by {
                v.lemma_body_parses(bytes@);
                match v.max_len_adpu {
                    Some(x) => {
                        assert(v.spec_entries()[0] == (0x1au16, encoding::u16_be_bytes(x)));
                    },
                    None => {},
                }
            };
        }
        let (entries, pos) = match parsed {
            Ok(v) => v,
            Err(e) => {
                return Err(e);
            },
        };
        let m = match fields::entry_opt_u16_be(&entries, 0x1a) {
            Ok(v) => v,
            Err(e) => {
                return Err(e);
            },
        };
        proof {
            assert forall|v: Self| v.wf() && bytes@ == #[trigger] v.body_bytes() implies m
                == v.max_len_adpu by {
                match v.max_len_adpu {
                    Some(x) => {
                        encoding::lemma_u16_be_roundtrip(x);
                    },
                    None => {},
                }
            };
        }
        Ok((Registration { max_len_adpu: m }, pos))
    }
}

/// TLV block of the ReadCard packet: how the card is read and which card
/// kinds are accepted.
#[derive(Debug, PartialEq)]
pub struct ReadCard {
    pub card_reading_control: Option<u8>,
    pub card_type: Option<u8>,
}

pub open spec fn opt_u8_region(v: Option<u8>) -> Option<Seq<u8>> {
    match v {
        Some(x) => Some(seq![x]),
        None => None,
    }
}

impl ReadCard {
    pub open spec fn wf(self) -> bool {
        true
    }

    pub open spec fn spec_fs(self) -> Seq<(u16, LengthSpec, Option<Seq<u8>>)> {
        seq![
            (0x1f15u16, LengthSpec::Tlv, opt_u8_region(self.card_reading_control)),
            (0x1f60u16, LengthSpec::Tlv, opt_u8_region(self.card_type)),
        ]
    }

    pub open spec fn body_bytes(self) -> Seq<u8> {
        fields::cat_opt_fields(self.spec_fs())
    }

    pub open spec fn spec_descs() -> Seq<FieldDesc> {
        seq![
            FieldDesc {
                tag: 0x1f15,
                len: LengthSpec::Tlv,
                width: 0,
                repeatable: false,
                required: false,
            },
            FieldDesc {
                tag: 0x1f60,
                len: LengthSpec::Tlv,
                width: 0,
                repeatable: false,
                required: false,
            },
        ]
    }

    fn descs() -> (r: Vec<FieldDesc>)
        ensures
            r@ == Self::spec_descs(),
    {
        let mut v: Vec<FieldDesc> = Vec::new();
        v.push(
            FieldDesc {
                tag: 0x1f15,
                len: LengthSpec::Tlv,
                width: 0,
                repeatable: false,
                required: false,
            },
        );
        v.push(
            FieldDesc {
                tag: 0x1f60,
                len: LengthSpec::Tlv,
                width: 0,
                repeatable: false,
                required: false,
            },
        );
        proof {
            assert(v@ =~= Self::spec_descs());
        }
        v
    }

    proof fn lemma_meta(self)
        ensures
            fields::find_desc(Self::spec_descs(), 0x1f15) == Some(Self::spec_descs()[0]),
            fields::find_desc(Self::spec_descs(), 0x1f60) == Some(Self::spec_descs()[1]),
            encoding::tag_wf(0x1f15),
            encoding::tag_wf(0x1f60),
            self.spec_fs().drop_first() =~= seq![
                (0x1f60u16, LengthSpec::Tlv, opt_u8_region(self.card_type)),
            ],
            self.spec_fs().drop_first().drop_first() =~= Seq::<
                (u16, LengthSpec, Option<Seq<u8>>),
            >::empty(),
            fields::fs_lookup(self.spec_fs(), 0x1f15) == opt_u8_region(self.card_reading_control),
            fields::fs_lookup(self.spec_fs(), 0x1f60) == opt_u8_region(self.card_type),
    {
        let ds = Self::spec_descs();
        assert(ds.drop_first() =~= seq![ds[1]]);
        assert(seq![ds[1]].drop_first() =~= Seq::<FieldDesc>::empty());
        assert(fields::find_desc(ds.drop_first(), 0x1f60) == Some(ds[1])) by {
            assert(ds.drop_first()[0] == ds[1]);
        };
        fields::lemma_low5(0x1f);
        assert((0x1f15u16 / 256) as u8 == 0x1f);
        assert((0x1f60u16 / 256) as u8 == 0x1f);
        let fs = self.spec_fs();
        let t1 = fs.drop_first();
        let t2 = t1.drop_first();
        assert(fields::fs_lookup(t2, 0x1f15) == None::<Seq<u8>>);
        assert(fields::fs_lookup(t2, 0x1f60) == None::<Seq<u8>>);
        assert(t1[0] == fs[1]);
        assert(fields::fs_lookup(t1, 0x1f60) == opt_u8_region(self.card_type)) by {
            match self.card_type {
                Some(_) => {},
                None => {},
            }
        };
        assert(fields::fs_lookup(t1, 0x1f15) == None::<Seq<u8>>);
        assert(fields::fs_lookup(fs, 0x1f15) == opt_u8_region(self.card_reading_control)) by {
            match self.card_reading_control {
                Some(_) => {},
                None => {},
            }
        };
    }

    pub proof fn lemma_body_parses(self, s: Seq<u8>)
        requires
            self.wf(),
            s == self.body_bytes(),
            s.len() <= usize::MAX,
        ensures
            fields::spec_parse_fields(s, 0, Self::spec_descs(), seq![], seq![]) == Ok::<
                _,
                ErrorView,
            >((fields::cat_opt_entries(self.spec_fs()), s.len() as int)),
    {
        let ds = Self::spec_descs();
        let fs = self.spec_fs();
        self.lemma_meta();
        assert(s.subrange(0, fields::cat_opt_fields(fs).len() as int) =~= fields::cat_opt_fields(
            fs,
        ));
        assert(fields::fs_ok(fs, ds, seq![])) by {
            assert(fs[0].0 != fs[1].0);
        };
        fields::lemma_parse_cat(s, 0, ds, seq![], seq![], fs);
        fields::lemma_parse_fields_stop(
            s,
            s.len() as int,
            ds,
            seq![] + fields::present_tags(fs),
            seq![] + fields::cat_opt_entries(fs),
        );
        fields::lemma_finish_ok(
            ds,
            seq![] + fields::present_tags(fs),
            seq![] + fields::cat_opt_entries(fs),
            s.len() as int,
        );
        assert(seq![] + fields::cat_opt_entries(fs) =~= fields::cat_opt_entries(fs));
    }

    pub fn encode_body(&self) -> (r: Vec<u8>)
        requires
            self.wf(),
        ensures
            r@ == self.body_bytes(),
    {
        let mut out: Vec<u8> = Vec::new();
        match self.card_reading_control {
            Some(x) => {
                let region = encoding::enc_u8(x);
                fields::ser_field(&mut out, Some(Tag(0x1f15)), LengthSpec::Tlv, &region);
            },
            None => {},
        }
        match self.card_type {
            Some(x) => {
                let region = encoding::enc_u8(x);
                fields::ser_field(&mut out, Some(Tag(0x1f60)), LengthSpec::Tlv, &region);
            },
            None => {},
        }
        proof {
            self.lemma_meta();
            let fs = self.spec_fs();
            let tail = fs.drop_first();
            assert(fields::cat_opt_fields(fs) == fields::opt_field_bytes(fs[0].0, fs[0].1, fs[0].2)
                + fields::cat_opt_fields(tail));
            assert(fields::cat_opt_fields(tail) == fields::opt_field_bytes(
                tail[0].0,
                tail[0].1,
                tail[0].2,
            ) + fields::cat_opt_fields(tail.drop_first()));
            assert(fields::cat_opt_fields(tail.drop_first()) =~= Seq::<u8>::empty());
            assert(tail[0] == fs[1]);
            assert(out@ =~= self.body_bytes());
        }
        out
    }

    pub fn decode_body(bytes: &[u8]) -> (r: ZVTResult<(Self, usize)>)
        ensures
            r matches Ok(v) ==> v.1 <= bytes@.len(),
            forall|v: Self|
                v.wf() && bytes@ == #[trigger] v.body_bytes() ==> (r matches Ok(o) && o.0 == v
                    && o.1 == bytes@.len()),
    {
        let ghost blen = bytes@.len();
        let blen_e = bytes.len();
        proof {
            assert(blen <= usize::MAX);
        }
        let descs = Self::descs();
        let parsed = fields::parse_tagged_fields(bytes, 0, &descs);
        proof {
            assert forall|v: Self| v.wf() && bytes@ == #[trigger] v.body_bytes() implies {
                &&& fields::spec_parse_fields(bytes@, 0, Self::spec_descs(), seq![], seq![])
                    == Ok::<_, ErrorView>(
                    (fields::cat_opt_entries(v.spec_fs()), bytes@.len() as int),
                )
                &&& fields::find_entry(fields::cat_opt_entries(v.spec_fs()), 0x1f15)
                    == opt_u8_region(v.card_reading_control)
                &&& fields::find_entry(fields::cat_opt_entries(v.spec_fs()), 0x1f60)
                    == opt_u8_region(v.card_type)
            } by {
                v.lemma_meta();
                v.lemma_body_parses(bytes@);
                fields::lemma_find_entry_fs(v.spec_fs(), 0x1f15);
                fields::lemma_find_entry_fs(v.spec_fs(), 0x1f60);
            };
        }
        let (entries, pos) = match parsed {
            Ok(v) => v,
            Err(e) => {
                return Err(e);
            },
        };
        let crc = match fields::entry_opt_u8(&entries, 0x1f15) {
            Ok(v) => v,
            Err(e) => {
                return Err(e);
            },
        };
        let ct = match fields::entry_opt_u8(&entries, 0x1f60) {
            Ok(v) => v,
            Err(e) => {
                return Err(e);
            },
        };
        Ok((ReadCard { card_reading_control: crc, card_type: ct }, pos))
    }
}

/// One application on a card: its type and application id, as hex strings.
#[derive(Debug, PartialEq)]
pub struct Subs {
    pub card_type: Option<String>,
    pub application_id: Option<String>,
}

impl Subs {
    pub open spec fn wf(self) -> bool {
        &&& (match self.card_type { Some(ref k) => encoding::is_hex_ascii(vstd::utf8::encode_utf8(k@)) && vstd::utf8::encode_utf8(k@).len() <= 0x1fffe, None => true })
        &&& (match self.application_id { Some(ref k) => encoding::is_hex_ascii(vstd::utf8::encode_utf8(k@)) && vstd::utf8::encode_utf8(k@).len() <= 0x1fffe, None => true })
    }

    pub open spec fn spec_fs(self) -> Seq<(u16, LengthSpec, Option<Seq<u8>>)> {
        seq![
            (0x41u16, LengthSpec::Tlv, (match self.card_type { Some(ref k) => Some(encoding::hex_payload(vstd::utf8::encode_utf8(k@))), None => None })),
            (0x43u16, LengthSpec::Tlv, (match self.application_id { Some(ref k) => Some(encoding::hex_payload(vstd::utf8::encode_utf8(k@))), None => None })),
        ]
    }

    pub open spec fn body_bytes(self) -> Seq<u8> {
        fields::cat_opt_fields(self.spec_fs())
    }

    pub open spec fn spec_descs() -> Seq<FieldDesc> {
        seq![
            FieldDesc { tag: 0x41, len: LengthSpec::Tlv, width: 0, repeatable: false, required: false },
            FieldDesc { tag: 0x43, len: LengthSpec::Tlv, width: 0, repeatable: false, required: false },
        ]
    }

    fn descs() -> (r: Vec<FieldDesc>)
        ensures r@ == Self::spec_descs(),
    {
        let mut v: Vec<FieldDesc> = Vec::new();
        v.push(FieldDesc { tag: 0x41, len: LengthSpec::Tlv, width: 0, repeatable: false, required: false });
        v.push(FieldDesc { tag: 0x43, len: LengthSpec::Tlv, width: 0, repeatable: false, required: false });
        proof { assert(v@ =~= Self::spec_descs()); }
        v
    }

    proof fn lemma_meta(self)
        ensures
            fields::find_desc(Self::spec_descs(), 0x41) == Some(Self::spec_descs()[0]),
            encoding::tag_wf(0x41),
            fields::fs_lookup(self.spec_fs(), 0x41) == (match self.card_type { Some(ref k) => Some(encoding::hex_payload(vstd::utf8::encode_utf8(k@))), None => None }),
            fields::find_desc(Self::spec_descs(), 0x43) == Some(Self::spec_descs()[1]),
            encoding::tag_wf(0x43),
            fields::fs_lookup(self.spec_fs(), 0x43) == (match self.application_id { Some(ref k) => Some(encoding::hex_payload(vstd::utf8::encode_utf8(k@))), None => None }),
    {
        let ds = Self::spec_descs();
        let fs = self.spec_fs();
        let ds0 = ds; let fs0 = fs;
        let ds1 = ds0.drop_first(); let fs1 = fs0.drop_first();
        let ds2 = ds1.drop_first(); let fs2 = fs1.drop_first();
        assert(ds0[0] == ds[0]); assert(fs0[0] == fs[0]);
        assert(ds0.len() == 2); assert(fs0.len() == 2);
        assert(ds1[0] == ds[1]); assert(fs1[0] == fs[1]);
        assert(ds1.len() == 1); assert(fs1.len() == 1);
        assert(ds2 =~= Seq::<FieldDesc>::empty()); assert(fs2 =~= Seq::<(u16, LengthSpec, Option<Seq<u8>>)>::empty());
        fields::lemma_low5(0x1f);
        fields::lemma_low5(0x41);
        fields::lemma_low5(0x43);
        assert(fields::find_desc(ds0, 0x41) == Some(ds[0]));
        assert(fields::find_desc(ds1, 0x43) == Some(ds[1]));
        assert(fields::find_desc(ds0, 0x43) == fields::find_desc(ds1, 0x43));
        assert(fields::fs_lookup(fs2, 0x41) == None::<Seq<u8>>);
        assert(fields::fs_lookup(fs1, 0x41) == None::<Seq<u8>>);
        assert(fields::fs_lookup(fs0, 0x41) == (match self.card_type { Some(ref k) => Some(encoding::hex_payload(vstd::utf8::encode_utf8(k@))), None => None }));
        assert(fields::fs_lookup(fs2, 0x43) == None::<Seq<u8>>);
        assert(fields::fs_lookup(fs1, 0x43) == (match self.application_id { Some(ref k) => Some(encoding::hex_payload(vstd::utf8::encode_utf8(k@))), None => None }));
        assert(fields::fs_lookup(fs0, 0x43) == fields::fs_lookup(fs1, 0x43));
    }

    pub proof fn lemma_body_parses(self, s: Seq<u8>)
        requires self.wf(), s == self.body_bytes(), s.len() <= usize::MAX,
        ensures
            fields::spec_parse_fields(s, self.pos_len(), Self::spec_descs(), seq![], seq![]) == Ok::<_, ErrorView>((fields::cat_opt_entries(self.spec_fs()), s.len() as int)),
            self.pos_len() + fields::cat_opt_fields(self.spec_fs()).len() == s.len(),
    {
        let ds = Self::spec_descs();
        let fs = self.spec_fs();
        self.lemma_meta();
        let p0 = self.pos_len();
        assert(p0 == 0);
        assert(s.subrange(0, fields::cat_opt_fields(fs).len() as int) =~= fields::cat_opt_fields(fs));
        assert(fields::fs_ok(fs, ds, seq![])) by {
            assert forall|j: int| 0 <= j < fs.len() && (#[trigger] fs[j]).2 is Some implies {
                &&& encoding::tag_wf(fs[j].0)
                &&& fields::find_desc(ds, fs[j].0) matches Some(d) && d.len == fs[j].1 && fields::region_wf(d.len, d.width as int, fs[j].2.unwrap().len() as int) && (d.repeatable || (!seq![].contains(fs[j].0) && forall|i: int| 0 <= i < j ==> (#[trigger] fs[i]).0 != fs[j].0))
            } by {
                if j == 0 { assert(fs[0].0 == 0x41); match self.card_type { Some(ref x) => { encoding::lemma_hex_ascii_payload(vstd::utf8::encode_utf8(x@)); }, None => {} } }
                if j == 1 { assert(fs[1].0 == 0x43); match self.application_id { Some(ref x) => { encoding::lemma_hex_ascii_payload(vstd::utf8::encode_utf8(x@)); }, None => {} } }
            };
        };
        fields::lemma_parse_cat(s, p0, ds, seq![], seq![], fs);
        fields::lemma_parse_fields_stop(s, s.len() as int, ds, seq![] + fields::present_tags(fs), seq![] + fields::cat_opt_entries(fs));
        let seen = seq![] + fields::present_tags(fs);
        assert(seen =~= fields::present_tags(fs));
        assert forall|kk: int| 0 <= kk < ds.len() implies !(#[trigger] ds[kk]).required || seen.contains(ds[kk].tag) by {
            if kk == 0 { assert(!ds[0].required); }
            if kk == 1 { assert(!ds[1].required); }
        };
        fields::lemma_finish_ok(ds, seen, seq![] + fields::cat_opt_entries(fs), s.len() as int);
        assert(seq![] + fields::cat_opt_entries(fs) =~= fields::cat_opt_entries(fs));
    }

    pub open spec fn pos_len(self) -> int {
        0
    }

    pub open spec fn eqv(a: Self, b: Self) -> bool {
        &&& (match (a.card_type, b.card_type) { (Some(x), Some(y)) => x@ == y@, (None, None) => true, _ => false })
        &&& (match (a.application_id, b.application_id) { (Some(x), Some(y)) => x@ == y@, (None, None) => true, _ => false })
    }

    pub fn encode_body(&self) -> (r: Vec<u8>)
        requires self.wf(),
        ensures r@ == self.body_bytes(),
    {
        let mut out: Vec<u8> = Vec::new();
        match self.card_type { Some(ref k) => { let region = encoding::enc_hex(k.as_str()); proof { encoding::lemma_hex_ascii_len(region@); encoding::lemma_hex_payload_roundtrip(region@); } fields::ser_field(&mut out, Some(Tag(0x41)), LengthSpec::Tlv, &region); }, None => {} }
        match self.application_id { Some(ref k) => { let region = encoding::enc_hex(k.as_str()); proof { encoding::lemma_hex_ascii_len(region@); encoding::lemma_hex_payload_roundtrip(region@); } fields::ser_field(&mut out, Some(Tag(0x43)), LengthSpec::Tlv, &region); }, None => {} }
        proof {
            self.lemma_meta();
            let fs = self.spec_fs();
        let fs0 = fs;
        let fs1 = fs0.drop_first();
        let fs2 = fs1.drop_first();
        assert(fields::cat_opt_fields(fs0) == fields::opt_field_bytes(fs0[0].0, fs0[0].1, fs0[0].2) + fields::cat_opt_fields(fs1)); assert(fs0[0] == fs[0]);
        assert(fields::cat_opt_fields(fs1) == fields::opt_field_bytes(fs1[0].0, fs1[0].1, fs1[0].2) + fields::cat_opt_fields(fs2)); assert(fs1[0] == fs[1]);
        assert(fields::cat_opt_fields(fs2) =~= Seq::<u8>::empty());
            assert(out@ =~= self.body_bytes());
        }
        out
    }

    pub fn decode_body(bytes: &[u8]) -> (r: ZVTResult<(Self, usize)>)
        ensures
            r matches Ok(v) ==> v.1 <= bytes@.len(),
            forall|v: Self|
                v.wf() && (true) && bytes@ == #[trigger] v.body_bytes() ==> (r matches Ok(o) && Subs::eqv(o.0, v)
                    && o.1 == bytes@.len()),
    {
        let blen_e = bytes.len();
        proof { assert(bytes@.len() <= usize::MAX); }
        proof {
            assert forall|v: Self| v.wf() && (true) && bytes@ == #[trigger] v.body_bytes() implies Subs::master_facts(v, bytes@) by { Subs::lemma_master(v, bytes@); };
        }
        let mut p: usize = 0;
        let descs = Self::descs();
        let parsed = fields::parse_tagged_fields(bytes, p, &descs);
        let (entries, pos_end) = match parsed { Ok(v) => v, Err(e) => { return Err(e); } };
        let f_card_type = match fields::entry_opt_string(&entries, 0x41, true) { Ok(v) => v, Err(e) => { return Err(e); } };
        let f_application_id = match fields::entry_opt_string(&entries, 0x43, true) { Ok(v) => v, Err(e) => { return Err(e); } };
        let result = Self {
            card_type: f_card_type,
            application_id: f_application_id,
        };
        proof {
            assert forall|v: Self| v.wf() && (true) && bytes@ == #[trigger] v.body_bytes() implies Subs::eqv(result, v) by {
                Subs::lemma_master(v, bytes@);
                match (v.card_type, f_card_type) { (Some(ref kk), Some(ref ss)) => { encoding::lemma_hex_ascii_payload(vstd::utf8::encode_utf8(kk@)); vstd::utf8::encode_utf8_decode_utf8(kk@); vstd::utf8::encode_utf8_decode_utf8(ss@); }, _ => {} }
                match (v.application_id, f_application_id) { (Some(ref kk), Some(ref ss)) => { encoding::lemma_hex_ascii_payload(vstd::utf8::encode_utf8(kk@)); vstd::utf8::encode_utf8_decode_utf8(kk@); vstd::utf8::encode_utf8_decode_utf8(ss@); }, _ => {} }
            };
        }
        Ok((result, pos_end))
    }

    pub open spec fn master_facts(v: Self, s: Seq<u8>) -> bool {
        &&& fields::spec_parse_fields(s, v.pos_len(), Self::spec_descs(), seq![], seq![]) == Ok::<_, ErrorView>((fields::cat_opt_entries(v.spec_fs()), s.len() as int))
        &&& fields::find_entry(fields::cat_opt_entries(v.spec_fs()), 0x41) == (match v.card_type { Some(ref k) => Some(encoding::hex_payload(vstd::utf8::encode_utf8(k@))), None => None })
        &&& fields::find_entry(fields::cat_opt_entries(v.spec_fs()), 0x43) == (match v.application_id { Some(ref k) => Some(encoding::hex_payload(vstd::utf8::encode_utf8(k@))), None => None })
    }

    pub proof fn lemma_master(v: Self, s: Seq<u8>)
        requires v.wf(), (true), s == v.body_bytes(), s.len() <= usize::MAX,
        ensures Self::master_facts(v, s),
    {
        v.lemma_meta();
        v.lemma_body_parses(s);
        let fs = v.spec_fs();
        fields::lemma_find_entry_fs(fs, 0x41);
        fields::lemma_find_entry_fs(fs, 0x43);
    }
}

/// TLV block of the StatusEnquiry packet.
#[derive(Debug, PartialEq)]
pub struct StatusEnquiry {
    pub enable_extended_contactless_card_detection: Option<u8>,
}

impl StatusEnquiry {
    pub open spec fn wf(self) -> bool {
        true
    }

    pub open spec fn spec_fs(self) -> Seq<(u16, LengthSpec, Option<Seq<u8>>)> {
        seq![
            (0x1ff2u16, LengthSpec::Tlv, crate::packets::tlv::opt_u8_region(self.enable_extended_contactless_card_detection)),
        ]
    }

    pub open spec fn body_bytes(self) -> Seq<u8> {
        fields::cat_opt_fields(self.spec_fs())
    }

    pub open spec fn spec_descs() -> Seq<FieldDesc> {
        seq![
            FieldDesc { tag: 0x1ff2, len: LengthSpec::Tlv, width: 0, repeatable: false, required: false },
        ]
    }

    fn descs() -> (r: Vec<FieldDesc>)
        ensures r@ == Self::spec_descs(),
    {
        let mut v: Vec<FieldDesc> = Vec::new();
        v.push(FieldDesc { tag: 0x1ff2, len: LengthSpec::Tlv, width: 0, repeatable: false, required: false });
        proof { assert(v@ =~= Self::spec_descs()); }
        v
    }

    proof fn lemma_meta(self)
        ensures
            fields::find_desc(Self::spec_descs(), 0x1ff2) == Some(Self::spec_descs()[0]),
            encoding::tag_wf(0x1ff2),
            fields::fs_lookup(self.spec_fs(), 0x1ff2) == crate::packets::tlv::opt_u8_region(self.enable_extended_contactless_card_detection),
    {
        let ds = Self::spec_descs();
        let fs = self.spec_fs();
        let ds0 = ds; let fs0 = fs;
        let ds1 = ds0.drop_first(); let fs1 = fs0.drop_first();
        assert(ds0[0] == ds[0]); assert(fs0[0] == fs[0]);
        assert(ds0.len() == 1); assert(fs0.len() == 1);
        assert(ds1 =~= Seq::<FieldDesc>::empty()); assert(fs1 =~= Seq::<(u16, LengthSpec, Option<Seq<u8>>)>::empty());
        fields::lemma_low5(0x1f);
        assert((0x1ff2u16 / 256) as u8 == 0x1f);
        assert(fields::find_desc(ds0, 0x1ff2) == Some(ds[0]));
        assert(fields::fs_lookup(fs1, 0x1ff2) == None::<Seq<u8>>);
        assert(fields::fs_lookup(fs0, 0x1ff2) == crate::packets::tlv::opt_u8_region(self.enable_extended_contactless_card_detection));
    }

    pub proof fn lemma_body_parses(self, s: Seq<u8>)
        requires self.wf(), s == self.body_bytes(), s.len() <= usize::MAX,
        ensures
            fields::spec_parse_fields(s, self.pos_len(), Self::spec_descs(), seq![], seq![]) == Ok::<_, ErrorView>((fields::cat_opt_entries(self.spec_fs()), s.len() as int)),
            self.pos_len() + fields::cat_opt_fields(self.spec_fs()).len() == s.len(),
    {
        let ds = Self::spec_descs();
        let fs = self.spec_fs();
        self.lemma_meta();
        let p0 = self.pos_len();
        assert(p0 == 0);
        assert(s.subrange(0, fields::cat_opt_fields(fs).len() as int) =~= fields::cat_opt_fields(fs));
        assert(fields::fs_ok(fs, ds, seq![])) by {
            assert forall|j: int| 0 <= j < fs.len() && (#[trigger] fs[j]).2 is Some implies {
                &&& encoding::tag_wf(fs[j].0)
                &&& fields::find_desc(ds, fs[j].0) matches Some(d) && d.len == fs[j].1 && fields::region_wf(d.len, d.width as int, fs[j].2.unwrap().len() as int) && (d.repeatable || (!seq![].contains(fs[j].0) && forall|i: int| 0 <= i < j ==> (#[trigger] fs[i]).0 != fs[j].0))
            } by {
                if j == 0 { assert(fs[0].0 == 0x1ff2); }
            };
        };
        fields::lemma_parse_cat(s, p0, ds, seq![], seq![], fs);
        fields::lemma_parse_fields_stop(s, s.len() as int, ds, seq![] + fields::present_tags(fs), seq![] + fields::cat_opt_entries(fs));
        let seen = seq![] + fields::present_tags(fs);
        assert(seen =~= fields::present_tags(fs));
        assert forall|kk: int| 0 <= kk < ds.len() implies !(#[trigger] ds[kk]).required || seen.contains(ds[kk].tag) by {
            if kk == 0 { assert(!ds[0].required); }
        };
        fields::lemma_finish_ok(ds, seen, seq![] + fields::cat_opt_entries(fs), s.len() as int);
        assert(seq![] + fields::cat_opt_entries(fs) =~= fields::cat_opt_entries(fs));
    }

    pub open spec fn pos_len(self) -> int {
        0
    }

    pub fn encode_body(&self) -> (r: Vec<u8>)
        requires self.wf(),
        ensures r@ == self.body_bytes(),
    {
        let mut out: Vec<u8> = Vec::new();
        match self.enable_extended_contactless_card_detection { Some(k) => { let region = encoding::enc_u8(k); fields::ser_field(&mut out, Some(Tag(0x1ff2)), LengthSpec::Tlv, &region); }, None => {} }
        proof {
            self.lemma_meta();
            let fs = self.spec_fs();
        let fs0 = fs;
        let fs1 = fs0.drop_first();
        assert(fields::cat_opt_fields(fs0) == fields::opt_field_bytes(fs0[0].0, fs0[0].1, fs0[0].2) + fields::cat_opt_fields(fs1)); assert(fs0[0] == fs[0]);
        assert(fields::cat_opt_fields(fs1) =~= Seq::<u8>::empty());
            assert(out@ =~= self.body_bytes());
        }
        out
    }

    pub fn decode_body(bytes: &[u8]) -> (r: ZVTResult<(Self, usize)>)
        ensures
            r matches Ok(v) ==> v.1 <= bytes@.len(),
            forall|v: Self|
                v.wf() && (true) && bytes@ == #[trigger] v.body_bytes() ==> (r matches Ok(o) && o.0 == v
                    && o.1 == bytes@.len()),
    {
        let blen_e = bytes.len();
        proof { assert(bytes@.len() <= usize::MAX); }
        proof {
            assert forall|v: Self| v.wf() && (true) && bytes@ == #[trigger] v.body_bytes() implies StatusEnquiry::master_facts(v, bytes@) by { StatusEnquiry::lemma_master(v, bytes@); };
        }
        let mut p: usize = 0;
        let descs = Self::descs();
        let parsed = fields::parse_tagged_fields(bytes, p, &descs);
        let (entries, pos_end) = match parsed { Ok(v) => v, Err(e) => { return Err(e); } };
        let f_enable_extended_contactless_card_detection = match fields::entry_opt_u8(&entries, 0x1ff2) { Ok(v) => v, Err(e) => { return Err(e); } };
        let result = Self {
            enable_extended_contactless_card_detection: f_enable_extended_contactless_card_detection,
        };
        proof {
            assert forall|v: Self| v.wf() && (true) && bytes@ == #[trigger] v.body_bytes() implies result == v by {
                StatusEnquiry::lemma_master(v, bytes@);
            };
        }
        Ok((result, pos_end))
    }

    pub open spec fn master_facts(v: Self, s: Seq<u8>) -> bool {
        &&& fields::spec_parse_fields(s, v.pos_len(), Self::spec_descs(), seq![], seq![]) == Ok::<_, ErrorView>((fields::cat_opt_entries(v.spec_fs()), s.len() as int))
        &&& fields::find_entry(fields::cat_opt_entries(v.spec_fs()), 0x1ff2) == crate::packets::tlv::opt_u8_region(v.enable_extended_contactless_card_detection)
    }

    pub proof fn lemma_master(v: Self, s: Seq<u8>)
        requires v.wf(), (true), s == v.body_bytes(), s.len() <= usize::MAX,
        ensures Self::master_facts(v, s),
    {
        v.lemma_meta();
        v.lemma_body_parses(s);
        let fs = v.spec_fs();
        fields::lemma_find_entry_fs(fs, 0x1ff2);
    }
}

/// What a terminal reports about itself.
#[derive(Debug, PartialEq)]
pub struct DeviceInformation {
    pub device_name: Option<String>,
    pub software_version: Option<String>,
    pub serial_number: Option<usize>,
    pub device_state: Option<u8>,
}

impl DeviceInformation {
    pub open spec fn wf(self) -> bool {
        &&& (match self.device_name { Some(ref k) => vstd::utf8::encode_utf8(k@).len() <= 0xffff, None => true })
        &&& (match self.software_version { Some(ref k) => vstd::utf8::encode_utf8(k@).len() <= 0xffff, None => true })
        &&& (match self.serial_number { Some(k) => encoding::bcd_bytes(k as nat).len() <= 0xffff, None => true })
    }

    pub open spec fn spec_fs(self) -> Seq<(u16, LengthSpec, Option<Seq<u8>>)> {
        seq![
            (0x1f40u16, LengthSpec::Tlv, (match self.device_name { Some(ref k) => Some(vstd::utf8::encode_utf8(k@)), None => None })),
            (0x1f41u16, LengthSpec::Tlv, (match self.software_version { Some(ref k) => Some(vstd::utf8::encode_utf8(k@)), None => None })),
            (0x1f42u16, LengthSpec::Tlv, (match self.serial_number { Some(k) => Some(encoding::bcd_bytes(k as nat)), None => None })),
            (0x1f43u16, LengthSpec::Tlv, crate::packets::tlv::opt_u8_region(self.device_state)),
        ]
    }

    pub open spec fn body_bytes(self) -> Seq<u8> {
        fields::cat_opt_fields(self.spec_fs())
    }

    pub open spec fn spec_descs() -> Seq<FieldDesc> {
        seq![
            FieldDesc { tag: 0x1f40, len: LengthSpec::Tlv, width: 0, repeatable: false, required: false },
            FieldDesc { tag: 0x1f41, len: LengthSpec::Tlv, width: 0, repeatable: false, required: false },
            FieldDesc { tag: 0x1f42, len: LengthSpec::Tlv, width: 0, repeatable: false, required: false },
            FieldDesc { tag: 0x1f43, len: LengthSpec::Tlv, width: 0, repeatable: false, required: false },
        ]
    }

    fn descs() -> (r: Vec<FieldDesc>)
        ensures r@ == Self::spec_descs(),
    {
        let mut v: Vec<FieldDesc> = Vec::new();
        v.push(FieldDesc { tag: 0x1f40, len: LengthSpec::Tlv, width: 0, repeatable: false, required: false });
        v.push(FieldDesc { tag: 0x1f41, len: LengthSpec::Tlv, width: 0, repeatable: false, required: false });
        v.push(FieldDesc { tag: 0x1f42, len: LengthSpec::Tlv, width: 0, repeatable: false, required: false });
        v.push(FieldDesc { tag: 0x1f43, len: LengthSpec::Tlv, width: 0, repeatable: false, required: false });
        proof { assert(v@ =~= Self::spec_descs()); }
        v
    }

    proof fn lemma_meta(self)
        ensures
            fields::find_desc(Self::spec_descs(), 0x1f40) == Some(Self::spec_descs()[0]),
            encoding::tag_wf(0x1f40),
            fields::fs_lookup(self.spec_fs(), 0x1f40) == (match self.device_name { Some(ref k) => Some(vstd::utf8::encode_utf8(k@)), None => None }),
            fields::find_desc(Self::spec_descs(), 0x1f41) == Some(Self::spec_descs()[1]),
            encoding::tag_wf(0x1f41),
            fields::fs_lookup(self.spec_fs(), 0x1f41) == (match self.software_version { Some(ref k) => Some(vstd::utf8::encode_utf8(k@)), None => None }),
            fields::find_desc(Self::spec_descs(), 0x1f42) == Some(Self::spec_descs()[2]),
            encoding::tag_wf(0x1f42),
            fields::fs_lookup(self.spec_fs(), 0x1f42) == (match self.serial_number { Some(k) => Some(encoding::bcd_bytes(k as nat)), None => None }),
            fields::find_desc(Self::spec_descs(), 0x1f43) == Some(Self::spec_descs()[3]),
            encoding::tag_wf(0x1f43),
            fields::fs_lookup(self.spec_fs(), 0x1f43) == crate::packets::tlv::opt_u8_region(self.device_state),
    {
        let ds = Self::spec_descs();
        let fs = self.spec_fs();
        let ds0 = ds; let fs0 = fs;
        let ds1 = ds0.drop_first(); let fs1 = fs0.drop_first();
        let ds2 = ds1.drop_first(); let fs2 = fs1.drop_first();
        let ds3 = ds2.drop_first(); let fs3 = fs2.drop_first();
        let ds4 = ds3.drop_first(); let fs4 = fs3.drop_first();
        assert(ds0[0] == ds[0]); assert(fs0[0] == fs[0]);
        assert(ds0.len() == 4); assert(fs0.len() == 4);
        assert(ds1[0] == ds[1]); assert(fs1[0] == fs[1]);
        assert(ds1.len() == 3); assert(fs1.len() == 3);
        assert(ds2[0] == ds[2]); assert(fs2[0] == fs[2]);
        assert(ds2.len() == 2); assert(fs2.len() == 2);
        assert(ds3[0] == ds[3]); assert(fs3[0] == fs[3]);
        assert(ds3.len() == 1); assert(fs3.len() == 1);
        assert(ds4 =~= Seq::<FieldDesc>::empty()); assert(fs4 =~= Seq::<(u16, LengthSpec, Option<Seq<u8>>)>::empty());
        fields::lemma_low5(0x1f);
        assert((0x1f40u16 / 256) as u8 == 0x1f);
        assert((0x1f41u16 / 256) as u8 == 0x1f);
        assert((0x1f42u16 / 256) as u8 == 0x1f);
        assert((0x1f43u16 / 256) as u8 == 0x1f);
        assert(fields::find_desc(ds0, 0x1f40) == Some(ds[0]));
        assert(fields::find_desc(ds1, 0x1f41) == Some(ds[1]));
        assert(fields::find_desc(ds0, 0x1f41) == fields::find_desc(ds1, 0x1f41));
        assert(fields::find_desc(ds2, 0x1f42) == Some(ds[2]));
        assert(fields::find_desc(ds1, 0x1f42) == fields::find_desc(ds2, 0x1f42));
        assert(fields::find_desc(ds0, 0x1f42) == fields::find_desc(ds1, 0x1f42));
        assert(fields::find_desc(ds3, 0x1f43) == Some(ds[3]));
        assert(fields::find_desc(ds2, 0x1f43) == fields::find_desc(ds3, 0x1f43));
        assert(fields::find_desc(ds1, 0x1f43) == fields::find_desc(ds2, 0x1f43));
        assert(fields::find_desc(ds0, 0x1f43) == fields::find_desc(ds1, 0x1f43));
        assert(fields::fs_lookup(fs4, 0x1f40) == None::<Seq<u8>>);
        assert(fields::fs_lookup(fs3, 0x1f40) == None::<Seq<u8>>);
        assert(fields::fs_lookup(fs2, 0x1f40) == None::<Seq<u8>>);
        assert(fields::fs_lookup(fs1, 0x1f40) == None::<Seq<u8>>);
        assert(fields::fs_lookup(fs0, 0x1f40) == (match self.device_name { Some(ref k) => Some(vstd::utf8::encode_utf8(k@)), None => None }));
        assert(fields::fs_lookup(fs4, 0x1f41) == None::<Seq<u8>>);
        assert(fields::fs_lookup(fs3, 0x1f41) == None::<Seq<u8>>);
        assert(fields::fs_lookup(fs2, 0x1f41) == None::<Seq<u8>>);
        assert(fields::fs_lookup(fs1, 0x1f41) == (match self.software_version { Some(ref k) => Some(vstd::utf8::encode_utf8(k@)), None => None }));
        assert(fields::fs_lookup(fs0, 0x1f41) == fields::fs_lookup(fs1, 0x1f41));
        assert(fields::fs_lookup(fs4, 0x1f42) == None::<Seq<u8>>);
        assert(fields::fs_lookup(fs3, 0x1f42) == None::<Seq<u8>>);
        assert(fields::fs_lookup(fs2, 0x1f42) == (match self.serial_number { Some(k) => Some(encoding::bcd_bytes(k as nat)), None => None }));
        assert(fields::fs_lookup(fs1, 0x1f42) == fields::fs_lookup(fs2, 0x1f42));
        assert(fields::fs_lookup(fs0, 0x1f42) == fields::fs_lookup(fs1, 0x1f42));
        assert(fields::fs_lookup(fs4, 0x1f43) == None::<Seq<u8>>);
        assert(fields::fs_lookup(fs3, 0x1f43) == crate::packets::tlv::opt_u8_region(self.device_state));
        assert(fields::fs_lookup(fs2, 0x1f43) == fields::fs_lookup(fs3, 0x1f43));
        assert(fields::fs_lookup(fs1, 0x1f43) == fields::fs_lookup(fs2, 0x1f43));
        assert(fields::fs_lookup(fs0, 0x1f43) == fields::fs_lookup(fs1, 0x1f43));
    }

    pub proof fn lemma_body_parses(self, s: Seq<u8>)
        requires self.wf(), s == self.body_bytes(), s.len() <= usize::MAX,
        ensures
            fields::spec_parse_fields(s, self.pos_len(), Self::spec_descs(), seq![], seq![]) == Ok::<_, ErrorView>((fields::cat_opt_entries(self.spec_fs()), s.len() as int)),
            self.pos_len() + fields::cat_opt_fields(self.spec_fs()).len() == s.len(),
    {
        let ds = Self::spec_descs();
        let fs = self.spec_fs();
        self.lemma_meta();
        let p0 = self.pos_len();
        assert(p0 == 0);
        assert(s.subrange(0, fields::cat_opt_fields(fs).len() as int) =~= fields::cat_opt_fields(fs));
        assert(fields::fs_ok(fs, ds, seq![])) by {
            assert forall|j: int| 0 <= j < fs.len() && (#[trigger] fs[j]).2 is Some implies {
                &&& encoding::tag_wf(fs[j].0)
                &&& fields::find_desc(ds, fs[j].0) matches Some(d) && d.len == fs[j].1 && fields::region_wf(d.len, d.width as int, fs[j].2.unwrap().len() as int) && (d.repeatable || (!seq![].contains(fs[j].0) && forall|i: int| 0 <= i < j ==> (#[trigger] fs[i]).0 != fs[j].0))
            } by {
                if j == 0 { assert(fs[0].0 == 0x1f40); }
                if j == 1 { assert(fs[1].0 == 0x1f41); }
                if j == 2 { assert(fs[2].0 == 0x1f42); }
                if j == 3 { assert(fs[3].0 == 0x1f43); }
            };
        };
        fields::lemma_parse_cat(s, p0, ds, seq![], seq![], fs);
        fields::lemma_parse_fields_stop(s, s.len() as int, ds, seq![] + fields::present_tags(fs), seq![] + fields::cat_opt_entries(fs));
        let seen = seq![] + fields::present_tags(fs);
        assert(seen =~= fields::present_tags(fs));
        assert forall|kk: int| 0 <= kk < ds.len() implies !(#[trigger] ds[kk]).required || seen.contains(ds[kk].tag) by {
            if kk == 0 { assert(!ds[0].required); }
            if kk == 1 { assert(!ds[1].required); }
            if kk == 2 { assert(!ds[2].required); }
            if kk == 3 { assert(!ds[3].required); }
        };
        fields::lemma_finish_ok(ds, seen, seq![] + fields::cat_opt_entries(fs), s.len() as int);
        assert(seq![] + fields::cat_opt_entries(fs) =~= fields::cat_opt_entries(fs));
    }

    pub open spec fn pos_len(self) -> int {
        0
    }

    pub open spec fn eqv(a: Self, b: Self) -> bool {
        &&& (match (a.device_name, b.device_name) { (Some(x), Some(y)) => x@ == y@, (None, None) => true, _ => false })
        &&& (match (a.software_version, b.software_version) { (Some(x), Some(y)) => x@ == y@, (None, None) => true, _ => false })
        &&& a.serial_number == b.serial_number
        &&& a.device_state == b.device_state
    }

    #[verifier::rlimit(100)]
    #[verifier::spinoff_prover]
    pub fn encode_body(&self) -> (r: Vec<u8>)
        requires self.wf(),
        ensures r@ == self.body_bytes(),
    {
        let mut out: Vec<u8> = Vec::new();
        match self.device_name { Some(ref k) => { let region = encoding::str_bytes(k.as_str()); fields::ser_field(&mut out, Some(Tag(0x1f40)), LengthSpec::Tlv, &region); }, None => {} }
        match self.software_version { Some(ref k) => { let region = encoding::str_bytes(k.as_str()); fields::ser_field(&mut out, Some(Tag(0x1f41)), LengthSpec::Tlv, &region); }, None => {} }
        match self.serial_number { Some(k) => { let region = encoding::enc_bcd(k); fields::ser_field(&mut out, Some(Tag(0x1f42)), LengthSpec::Tlv, &region); }, None => {} }
        match self.device_state { Some(k) => { let region = encoding::enc_u8(k); fields::ser_field(&mut out, Some(Tag(0x1f43)), LengthSpec::Tlv, &region); }, None => {} }
        proof {
            self.lemma_meta();
            let fs = self.spec_fs();
        let fs0 = fs;
        let fs1 = fs0.drop_first();
        let fs2 = fs1.drop_first();
        let fs3 = fs2.drop_first();
        let fs4 = fs3.drop_first();
        assert(fields::cat_opt_fields(fs0) == fields::opt_field_bytes(fs0[0].0, fs0[0].1, fs0[0].2) + fields::cat_opt_fields(fs1)); assert(fs0[0] == fs[0]);
        assert(fields::cat_opt_fields(fs1) == fields::opt_field_bytes(fs1[0].0, fs1[0].1, fs1[0].2) + fields::cat_opt_fields(fs2)); assert(fs1[0] == fs[1]);
        assert(fields::cat_opt_fields(fs2) == fields::opt_field_bytes(fs2[0].0, fs2[0].1, fs2[0].2) + fields::cat_opt_fields(fs3)); assert(fs2[0] == fs[2]);
        assert(fields::cat_opt_fields(fs3) == fields::opt_field_bytes(fs3[0].0, fs3[0].1, fs3[0].2) + fields::cat_opt_fields(fs4)); assert(fs3[0] == fs[3]);
        assert(fields::cat_opt_fields(fs4) =~= Seq::<u8>::empty());
            assert(out@ =~= self.body_bytes());
        }
        out
    }

    pub fn decode_body(bytes: &[u8]) -> (r: ZVTResult<(Self, usize)>)
        ensures
            r matches Ok(v) ==> v.1 <= bytes@.len(),
            forall|v: Self|
                v.wf() && (true) && bytes@ == #[trigger] v.body_bytes() ==> (r matches Ok(o) && DeviceInformation::eqv(o.0, v)
                    && o.1 == bytes@.len()),
    {
        let blen_e = bytes.len();
        proof { assert(bytes@.len() <= usize::MAX); }
        proof {
            assert forall|v: Self| v.wf() && (true) && bytes@ == #[trigger] v.body_bytes() implies DeviceInformation::master_facts(v, bytes@) by { DeviceInformation::lemma_master(v, bytes@); };
        }
        let mut p: usize = 0;
        let descs = Self::descs();
        let parsed = fields::parse_tagged_fields(bytes, p, &descs);
        let (entries, pos_end) = match parsed { Ok(v) => v, Err(e) => { return Err(e); } };
        let f_device_name = match fields::entry_opt_string(&entries, 0x1f40, false) { Ok(v) => v, Err(e) => { return Err(e); } };
        let f_software_version = match fields::entry_opt_string(&entries, 0x1f41, false) { Ok(v) => v, Err(e) => { return Err(e); } };
        let f_serial_number = fields::entry_opt_usize_bcd(&entries, 0x1f42);
        let f_device_state = match fields::entry_opt_u8(&entries, 0x1f43) { Ok(v) => v, Err(e) => { return Err(e); } };
        let result = Self {
            device_name: f_device_name,
            software_version: f_software_version,
            serial_number: f_serial_number,
            device_state: f_device_state,
        };
        proof {
            assert forall|v: Self| v.wf() && (true) && bytes@ == #[trigger] v.body_bytes() implies DeviceInformation::eqv(result, v) by {
                DeviceInformation::lemma_master(v, bytes@);
                match (v.device_name, f_device_name) { (Some(ref kk), _) => { vstd::utf8::encode_utf8_valid_utf8(kk@); vstd::utf8::encode_utf8_decode_utf8(kk@); }, _ => {} }
                match (v.software_version, f_software_version) { (Some(ref kk), _) => { vstd::utf8::encode_utf8_valid_utf8(kk@); vstd::utf8::encode_utf8_decode_utf8(kk@); }, _ => {} }
                match v.serial_number { Some(kk) => { encoding::lemma_bcd_roundtrip(kk as nat); vstd::arithmetic::div_mod::lemma_small_mod(kk as nat, encoding::usize_mod()); }, None => {} }
            };
        }
        Ok((result, pos_end))
    }

    pub open spec fn master_facts(v: Self, s: Seq<u8>) -> bool {
        &&& (v.device_name matches Some(k) ==> vstd::utf8::valid_utf8(vstd::utf8::encode_utf8(k@)))
        &&& (v.software_version matches Some(k) ==> vstd::utf8::valid_utf8(vstd::utf8::encode_utf8(k@)))
        &&& fields::spec_parse_fields(s, v.pos_len(), Self::spec_descs(), seq![], seq![]) == Ok::<_, ErrorView>((fields::cat_opt_entries(v.spec_fs()), s.len() as int))
        &&& fields::find_entry(fields::cat_opt_entries(v.spec_fs()), 0x1f40) == (match v.device_name { Some(ref k) => Some(vstd::utf8::encode_utf8(k@)), None => None })
        &&& fields::find_entry(fields::cat_opt_entries(v.spec_fs()), 0x1f41) == (match v.software_version { Some(ref k) => Some(vstd::utf8::encode_utf8(k@)), None => None })
        &&& fields::find_entry(fields::cat_opt_entries(v.spec_fs()), 0x1f42) == (match v.serial_number { Some(k) => Some(encoding::bcd_bytes(k as nat)), None => None })
        &&& fields::find_entry(fields::cat_opt_entries(v.spec_fs()), 0x1f43) == crate::packets::tlv::opt_u8_region(v.device_state)
    }

    pub proof fn lemma_master(v: Self, s: Seq<u8>)
        requires v.wf(), (true), s == v.body_bytes(), s.len() <= usize::MAX,
        ensures Self::master_facts(v, s),
    {
        v.lemma_meta();
        v.lemma_body_parses(s);
        let fs = v.spec_fs();
        fields::lemma_find_entry_fs(fs, 0x1f40);
        fields::lemma_find_entry_fs(fs, 0x1f41);
        fields::lemma_find_entry_fs(fs, 0x1f42);
        fields::lemma_find_entry_fs(fs, 0x1f43);
        match v.device_name { Some(ref k) => { vstd::utf8::encode_utf8_valid_utf8(k@); }, None => {} }
        match v.software_version { Some(ref k) => { vstd::utf8::encode_utf8_valid_utf8(k@); }, None => {} }
    }
}

/// TLV block of a reservation abort: the extended error.
#[derive(Debug, PartialEq)]
pub struct ReservationAbort {
    pub extended_error_code: Option<usize>,
    pub extended_error_text: Option<String>,
}

impl ReservationAbort {
    pub open spec fn wf(self) -> bool {
        &&& (match self.extended_error_code { Some(k) => encoding::bcd_bytes(k as nat).len() <= 0xffff, None => true })
        &&& (match self.extended_error_text { Some(ref k) => vstd::utf8::encode_utf8(k@).len() <= 0xffff, None => true })
    }

    pub open spec fn spec_fs(self) -> Seq<(u16, LengthSpec, Option<Seq<u8>>)> {
        seq![
            (0x1f16u16, LengthSpec::Tlv, (match self.extended_error_code { Some(k) => Some(encoding::bcd_bytes(k as nat)), None => None })),
            (0x1f17u16, LengthSpec::Tlv, (match self.extended_error_text { Some(ref k) => Some(vstd::utf8::encode_utf8(k@)), None => None })),
        ]
    }

    pub open spec fn body_bytes(self) -> Seq<u8> {
        fields::cat_opt_fields(self.spec_fs())
    }

    pub open spec fn spec_descs() -> Seq<FieldDesc> {
        seq![
            FieldDesc { tag: 0x1f16, len: LengthSpec::Tlv, width: 0, repeatable: false, required: false },
            FieldDesc { tag: 0x1f17, len: LengthSpec::Tlv, width: 0, repeatable: false, required: false },
        ]
    }

    fn descs() -> (r: Vec<FieldDesc>)
        ensures r@ == Self::spec_descs(),
    {
        let mut v: Vec<FieldDesc> = Vec::new();
        v.push(FieldDesc { tag: 0x1f16, len: LengthSpec::Tlv, width: 0, repeatable: false, required: false });
        v.push(FieldDesc { tag: 0x1f17, len: LengthSpec::Tlv, width: 0, repeatable: false, required: false });
        proof { assert(v@ =~= Self::spec_descs()); }
        v
    }

    proof fn lemma_meta(self)
        ensures
            fields::find_desc(Self::spec_descs(), 0x1f16) == Some(Self::spec_descs()[0]),
            encoding::tag_wf(0x1f16),
            fields::fs_lookup(self.spec_fs(), 0x1f16) == (match self.extended_error_code { Some(k) => Some(encoding::bcd_bytes(k as nat)), None => None }),
            fields::find_desc(Self::spec_descs(), 0x1f17) == Some(Self::spec_descs()[1]),
            encoding::tag_wf(0x1f17),
            fields::fs_lookup(self.spec_fs(), 0x1f17) == (match self.extended_error_text { Some(ref k) => Some(vstd::utf8::encode_utf8(k@)), None => None }),
    {
        let ds = Self::spec_descs();
        let fs = self.spec_fs();
        let ds0 = ds; let fs0 = fs;
        let ds1 = ds0.drop_first(); let fs1 = fs0.drop_first();
        let ds2 = ds1.drop_first(); let fs2 = fs1.drop_first();
        assert(ds0[0] == ds[0]); assert(fs0[0] == fs[0]);
        assert(ds0.len() == 2); assert(fs0.len() == 2);
        assert(ds1[0] == ds[1]); assert(fs1[0] == fs[1]);
        assert(ds1.len() == 1); assert(fs1.len() == 1);
        assert(ds2 =~= Seq::<FieldDesc>::empty()); assert(fs2 =~= Seq::<(u16, LengthSpec, Option<Seq<u8>>)>::empty());
        fields::lemma_low5(0x1f);
        assert((0x1f16u16 / 256) as u8 == 0x1f);
        assert((0x1f17u16 / 256) as u8 == 0x1f);
        assert(fields::find_desc(ds0, 0x1f16) == Some(ds[0]));
        assert(fields::find_desc(ds1, 0x1f17) == Some(ds[1]));
        assert(fields::find_desc(ds0, 0x1f17) == fields::find_desc(ds1, 0x1f17));
        assert(fields::fs_lookup(fs2, 0x1f16) == None::<Seq<u8>>);
        assert(fields::fs_lookup(fs1, 0x1f16) == None::<Seq<u8>>);
        assert(fields::fs_lookup(fs0, 0x1f16) == (match self.extended_error_code { Some(k) => Some(encoding::bcd_bytes(k as nat)), None => None }));
        assert(fields::fs_lookup(fs2, 0x1f17) == None::<Seq<u8>>);
        assert(fields::fs_lookup(fs1, 0x1f17) == (match self.extended_error_text { Some(ref k) => Some(vstd::utf8::encode_utf8(k@)), None => None }));
        assert(fields::fs_lookup(fs0, 0x1f17) == fields::fs_lookup(fs1, 0x1f17));
    }

    pub proof fn lemma_body_parses(self, s: Seq<u8>)
        requires self.wf(), s == self.body_bytes(), s.len() <= usize::MAX,
        ensures
            fields::spec_parse_fields(s, self.pos_len(), Self::spec_descs(), seq![], seq![]) == Ok::<_, ErrorView>((fields::cat_opt_entries(self.spec_fs()), s.len() as int)),
            self.pos_len() + fields::cat_opt_fields(self.spec_fs()).len() == s.len(),
    {
        let ds = Self::spec_descs();
        let fs = self.spec_fs();
        self.lemma_meta();
        let p0 = self.pos_len();
        assert(p0 == 0);
        assert(s.subrange(0, fields::cat_opt_fields(fs).len() as int) =~= fields::cat_opt_fields(fs));
        assert(fields::fs_ok(fs, ds, seq![])) by {
            assert forall|j: int| 0 <= j < fs.len() && (#[trigger] fs[j]).2 is Some implies {
                &&& encoding::tag_wf(fs[j].0)
                &&& fields::find_desc(ds, fs[j].0) matches Some(d) && d.len == fs[j].1 && fields::region_wf(d.len, d.width as int, fs[j].2.unwrap().len() as int) && (d.repeatable || (!seq![].contains(fs[j].0) && forall|i: int| 0 <= i < j ==> (#[trigger] fs[i]).0 != fs[j].0))
            } by {
                if j == 0 { assert(fs[0].0 == 0x1f16); }
                if j == 1 { assert(fs[1].0 == 0x1f17); }
            };
        };
        fields::lemma_parse_cat(s, p0, ds, seq![], seq![], fs);
        fields::lemma_parse_fields_stop(s, s.len() as int, ds, seq![] + fields::present_tags(fs), seq![] + fields::cat_opt_entries(fs));
        let seen = seq![] + fields::present_tags(fs);
        assert(seen =~= fields::present_tags(fs));
        assert forall|kk: int| 0 <= kk < ds.len() implies !(#[trigger] ds[kk]).required || seen.contains(ds[kk].tag) by {
            if kk == 0 { assert(!ds[0].required); }
            if kk == 1 { assert(!ds[1].required); }
        };
        fields::lemma_finish_ok(ds, seen, seq![] + fields::cat_opt_entries(fs), s.len() as int);
        assert(seq![] + fields::cat_opt_entries(fs) =~= fields::cat_opt_entries(fs));
    }

    pub open spec fn pos_len(self) -> int {
        0
    }

    pub open spec fn eqv(a: Self, b: Self) -> bool {
        &&& a.extended_error_code == b.extended_error_code
        &&& (match (a.extended_error_text, b.extended_error_text) { (Some(x), Some(y)) => x@ == y@, (None, None) => true, _ => false })
    }

    pub fn encode_body(&self) -> (r: Vec<u8>)
        requires self.wf(),
        ensures r@ == self.body_bytes(),
    {
        let mut out: Vec<u8> = Vec::new();
        match self.extended_error_code { Some(k) => { let region = encoding::enc_bcd(k); fields::ser_field(&mut out, Some(Tag(0x1f16)), LengthSpec::Tlv, &region); }, None => {} }
        match self.extended_error_text { Some(ref k) => { let region = encoding::str_bytes(k.as_str()); fields::ser_field(&mut out, Some(Tag(0x1f17)), LengthSpec::Tlv, &region); }, None => {} }
        proof {
            self.lemma_meta();
            let fs = self.spec_fs();
        let fs0 = fs;
        let fs1 = fs0.drop_first();
        let fs2 = fs1.drop_first();
        assert(fields::cat_opt_fields(fs0) == fields::opt_field_bytes(fs0[0].0, fs0[0].1, fs0[0].2) + fields::cat_opt_fields(fs1)); assert(fs0[0] == fs[0]);
        assert(fields::cat_opt_fields(fs1) == fields::opt_field_bytes(fs1[0].0, fs1[0].1, fs1[0].2) + fields::cat_opt_fields(fs2)); assert(fs1[0] == fs[1]);
        assert(fields::cat_opt_fields(fs2) =~= Seq::<u8>::empty());
            assert(out@ =~= self.body_bytes());
        }
        out
    }

    pub fn decode_body(bytes: &[u8]) -> (r: ZVTResult<(Self, usize)>)
        ensures
            r matches Ok(v) ==> v.1 <= bytes@.len(),
            forall|v: Self|
                v.wf() && (true) && bytes@ == #[trigger] v.body_bytes() ==> (r matches Ok(o) && ReservationAbort::eqv(o.0, v)
                    && o.1 == bytes@.len()),
    {
        let blen_e = bytes.len();
        proof { assert(bytes@.len() <= usize::MAX); }
        proof {
            assert forall|v: Self| v.wf() && (true) && bytes@ == #[trigger] v.body_bytes() implies ReservationAbort::master_facts(v, bytes@) by { ReservationAbort::lemma_master(v, bytes@); };
        }
        let mut p: usize = 0;
        let descs = Self::descs();
        let parsed = fields::parse_tagged_fields(bytes, p, &descs);
        let (entries, pos_end) = match parsed { Ok(v) => v, Err(e) => { return Err(e); } };
        let f_extended_error_code = fields::entry_opt_usize_bcd(&entries, 0x1f16);
        let f_extended_error_text = match fields::entry_opt_string(&entries, 0x1f17, false) { Ok(v) => v, Err(e) => { return Err(e); } };
        let result = Self {
            extended_error_code: f_extended_error_code,
            extended_error_text: f_extended_error_text,
        };
        proof {
            assert forall|v: Self| v.wf() && (true) && bytes@ == #[trigger] v.body_bytes() implies ReservationAbort::eqv(result, v) by {
                ReservationAbort::lemma_master(v, bytes@);
                match v.extended_error_code { Some(kk) => { encoding::lemma_bcd_roundtrip(kk as nat); vstd::arithmetic::div_mod::lemma_small_mod(kk as nat, encoding::usize_mod()); }, None => {} }
                match (v.extended_error_text, f_extended_error_text) { (Some(ref kk), _) => { vstd::utf8::encode_utf8_valid_utf8(kk@); vstd::utf8::encode_utf8_decode_utf8(kk@); }, _ => {} }
            };
        }
        Ok((result, pos_end))
    }

    pub open spec fn master_facts(v: Self, s: Seq<u8>) -> bool {
        &&& (v.extended_error_text matches Some(k) ==> vstd::utf8::valid_utf8(vstd::utf8::encode_utf8(k@)))
        &&& fields::spec_parse_fields(s, v.pos_len(), Self::spec_descs(), seq![], seq![]) == Ok::<_, ErrorView>((fields::cat_opt_entries(v.spec_fs()), s.len() as int))
        &&& fields::find_entry(fields::cat_opt_entries(v.spec_fs()), 0x1f16) == (match v.extended_error_code { Some(k) => Some(encoding::bcd_bytes(k as nat)), None => None })
        &&& fields::find_entry(fields::cat_opt_entries(v.spec_fs()), 0x1f17) == (match v.extended_error_text { Some(ref k) => Some(vstd::utf8::encode_utf8(k@)), None => None })
    }

    pub proof fn lemma_master(v: Self, s: Seq<u8>)
        requires v.wf(), (true), s == v.body_bytes(), s.len() <= usize::MAX,
        ensures Self::master_facts(v, s),
    {
        v.lemma_meta();
        v.lemma_body_parses(s);
        let fs = v.spec_fs();
        fields::lemma_find_entry_fs(fs, 0x1f16);
        fields::lemma_find_entry_fs(fs, 0x1f17);
        match v.extended_error_text { Some(ref k) => { vstd::utf8::encode_utf8_valid_utf8(k@); }, None => {} }
    }
}

/// The BMP-60 reference: a prefix and the caller's reference data.
#[derive(Debug, PartialEq)]
pub struct Bmp60 {
    pub bmp_prefix: String,
    pub bmp_data: String,
}

impl Bmp60 {
    pub open spec fn wf(self) -> bool {
        &&& vstd::utf8::encode_utf8(self.bmp_prefix@).len() <= 0xffff
        &&& vstd::utf8::encode_utf8(self.bmp_data@).len() <= 0xffff
    }

    pub open spec fn spec_fs(self) -> Seq<(u16, LengthSpec, Option<Seq<u8>>)> {
        seq![
            (0x1f62u16, LengthSpec::Tlv, Some(vstd::utf8::encode_utf8(self.bmp_prefix@))),
            (0x1f63u16, LengthSpec::Tlv, Some(vstd::utf8::encode_utf8(self.bmp_data@))),
        ]
    }

    pub open spec fn body_bytes(self) -> Seq<u8> {
        fields::cat_opt_fields(self.spec_fs())
    }

    pub open spec fn spec_descs() -> Seq<FieldDesc> {
        seq![
            FieldDesc { tag: 0x1f62, len: LengthSpec::Tlv, width: 0, repeatable: false, required: true },
            FieldDesc { tag: 0x1f63, len: LengthSpec::Tlv, width: 0, repeatable: false, required: true },
        ]
    }

    fn descs() -> (r: Vec<FieldDesc>)
        ensures r@ == Self::spec_descs(),
    {
        let mut v: Vec<FieldDesc> = Vec::new();
        v.push(FieldDesc { tag: 0x1f62, len: LengthSpec::Tlv, width: 0, repeatable: false, required: true });
        v.push(FieldDesc { tag: 0x1f63, len: LengthSpec::Tlv, width: 0, repeatable: false, required: true });
        proof { assert(v@ =~= Self::spec_descs()); }
        v
    }

    proof fn lemma_meta(self)
        ensures
            fields::find_desc(Self::spec_descs(), 0x1f62) == Some(Self::spec_descs()[0]),
            encoding::tag_wf(0x1f62),
            fields::fs_lookup(self.spec_fs(), 0x1f62) == Some(vstd::utf8::encode_utf8(self.bmp_prefix@)),
            fields::find_desc(Self::spec_descs(), 0x1f63) == Some(Self::spec_descs()[1]),
            encoding::tag_wf(0x1f63),
            fields::fs_lookup(self.spec_fs(), 0x1f63) == Some(vstd::utf8::encode_utf8(self.bmp_data@)),
    {
        let ds = Self::spec_descs();
        let fs = self.spec_fs();
        let ds0 = ds; let fs0 = fs;
        let ds1 = ds0.drop_first(); let fs1 = fs0.drop_first();
        let ds2 = ds1.drop_first(); let fs2 = fs1.drop_first();
        assert(ds0[0] == ds[0]); assert(fs0[0] == fs[0]);
        assert(ds0.len() == 2); assert(fs0.len() == 2);
        assert(ds1[0] == ds[1]); assert(fs1[0] == fs[1]);
        assert(ds1.len() == 1); assert(fs1.len() == 1);
        assert(ds2 =~= Seq::<FieldDesc>::empty()); assert(fs2 =~= Seq::<(u16, LengthSpec, Option<Seq<u8>>)>::empty());
        fields::lemma_low5(0x1f);
        assert((0x1f62u16 / 256) as u8 == 0x1f);
        assert((0x1f63u16 / 256) as u8 == 0x1f);
        assert(fields::find_desc(ds0, 0x1f62) == Some(ds[0]));
        assert(fields::find_desc(ds1, 0x1f63) == Some(ds[1]));
        assert(fields::find_desc(ds0, 0x1f63) == fields::find_desc(ds1, 0x1f63));
        assert(fields::fs_lookup(fs2, 0x1f62) == None::<Seq<u8>>);
        assert(fields::fs_lookup(fs1, 0x1f62) == None::<Seq<u8>>);
        assert(fields::fs_lookup(fs0, 0x1f62) == Some(vstd::utf8::encode_utf8(self.bmp_prefix@)));
        assert(fields::fs_lookup(fs2, 0x1f63) == None::<Seq<u8>>);
        assert(fields::fs_lookup(fs1, 0x1f63) == Some(vstd::utf8::encode_utf8(self.bmp_data@)));
        assert(fields::fs_lookup(fs0, 0x1f63) == fields::fs_lookup(fs1, 0x1f63));
    }

    pub proof fn lemma_body_parses(self, s: Seq<u8>)
        requires self.wf(), s == self.body_bytes(), s.len() <= usize::MAX,
        ensures
            fields::spec_parse_fields(s, self.pos_len(), Self::spec_descs(), seq![], seq![]) == Ok::<_, ErrorView>((fields::cat_opt_entries(self.spec_fs()), s.len() as int)),
            self.pos_len() + fields::cat_opt_fields(self.spec_fs()).len() == s.len(),
    {
        let ds = Self::spec_descs();
        let fs = self.spec_fs();
        self.lemma_meta();
        let p0 = self.pos_len();
        assert(p0 == 0);
        assert(s.subrange(0, fields::cat_opt_fields(fs).len() as int) =~= fields::cat_opt_fields(fs));
        assert(fields::fs_ok(fs, ds, seq![])) by {
            assert forall|j: int| 0 <= j < fs.len() && (#[trigger] fs[j]).2 is Some implies {
                &&& encoding::tag_wf(fs[j].0)
                &&& fields::find_desc(ds, fs[j].0) matches Some(d) && d.len == fs[j].1 && fields::region_wf(d.len, d.width as int, fs[j].2.unwrap().len() as int) && (d.repeatable || (!seq![].contains(fs[j].0) && forall|i: int| 0 <= i < j ==> (#[trigger] fs[i]).0 != fs[j].0))
            } by {
                if j == 0 { assert(fs[0].0 == 0x1f62); }
                if j == 1 { assert(fs[1].0 == 0x1f63); }
            };
        };
        fields::lemma_parse_cat(s, p0, ds, seq![], seq![], fs);
        fields::lemma_parse_fields_stop(s, s.len() as int, ds, seq![] + fields::present_tags(fs), seq![] + fields::cat_opt_entries(fs));
        let seen = seq![] + fields::present_tags(fs);
        fields::lemma_present_tags_contains(fs, 0);
        fields::lemma_present_tags_contains(fs, 1);
        assert(seen =~= fields::present_tags(fs));
        assert forall|kk: int| 0 <= kk < ds.len() implies !(#[trigger] ds[kk]).required || seen.contains(ds[kk].tag) by {
            if kk == 0 { assert(fs[0].2 is Some); assert(fields::present_tags(fs).contains(fs[0].0)); }
            if kk == 1 { assert(fs[1].2 is Some); assert(fields::present_tags(fs).contains(fs[1].0)); }
        };
        fields::lemma_finish_ok(ds, seen, seq![] + fields::cat_opt_entries(fs), s.len() as int);
        assert(seq![] + fields::cat_opt_entries(fs) =~= fields::cat_opt_entries(fs));
    }

    pub open spec fn pos_len(self) -> int {
        0
    }

    pub open spec fn eqv(a: Self, b: Self) -> bool {
        &&& a.bmp_prefix@ == b.bmp_prefix@
        &&& a.bmp_data@ == b.bmp_data@
    }

    pub fn encode_body(&self) -> (r: Vec<u8>)
        requires self.wf(),
        ensures r@ == self.body_bytes(),
    {
        let mut out: Vec<u8> = Vec::new();
        { let region = encoding::str_bytes(self.bmp_prefix.as_str()); fields::ser_field(&mut out, Some(Tag(0x1f62)), LengthSpec::Tlv, &region); }
        { let region = encoding::str_bytes(self.bmp_data.as_str()); fields::ser_field(&mut out, Some(Tag(0x1f63)), LengthSpec::Tlv, &region); }
        proof {
            self.lemma_meta();
            let fs = self.spec_fs();
        let fs0 = fs;
        let fs1 = fs0.drop_first();
        let fs2 = fs1.drop_first();
        assert(fields::cat_opt_fields(fs0) == fields::opt_field_bytes(fs0[0].0, fs0[0].1, fs0[0].2) + fields::cat_opt_fields(fs1)); assert(fs0[0] == fs[0]);
        assert(fields::cat_opt_fields(fs1) == fields::opt_field_bytes(fs1[0].0, fs1[0].1, fs1[0].2) + fields::cat_opt_fields(fs2)); assert(fs1[0] == fs[1]);
        assert(fields::cat_opt_fields(fs2) =~= Seq::<u8>::empty());
            assert(out@ =~= self.body_bytes());
        }
        out
    }

    pub fn decode_body(bytes: &[u8]) -> (r: ZVTResult<(Self, usize)>)
        ensures
            r matches Ok(v) ==> v.1 <= bytes@.len(),
            forall|v: Self|
                v.wf() && (true) && bytes@ == #[trigger] v.body_bytes() ==> (r matches Ok(o) && Bmp60::eqv(o.0, v)
                    && o.1 == bytes@.len()),
    {
        let blen_e = bytes.len();
        proof { assert(bytes@.len() <= usize::MAX); }
        proof {
            assert forall|v: Self| v.wf() && (true) && bytes@ == #[trigger] v.body_bytes() implies Bmp60::master_facts(v, bytes@) by { Bmp60::lemma_master(v, bytes@); };
        }
        let mut p: usize = 0;
        let descs = Self::descs();
        let parsed = fields::parse_tagged_fields(bytes, p, &descs);
        let (entries, pos_end) = match parsed { Ok(v) => v, Err(e) => { return Err(e); } };
        let f_bmp_prefix = match fields::entry_opt_string(&entries, 0x1f62, false) { Ok(Some(s)) => s, Ok(None) => { return Err(ZVTError::IncompleteData); }, Err(e) => { return Err(e); } };
        let f_bmp_data = match fields::entry_opt_string(&entries, 0x1f63, false) { Ok(Some(s)) => s, Ok(None) => { return Err(ZVTError::IncompleteData); }, Err(e) => { return Err(e); } };
        let result = Self {
            bmp_prefix: f_bmp_prefix,
            bmp_data: f_bmp_data,
        };
        proof {
            assert forall|v: Self| v.wf() && (true) && bytes@ == #[trigger] v.body_bytes() implies Bmp60::eqv(result, v) by {
                Bmp60::lemma_master(v, bytes@);
                { vstd::utf8::encode_utf8_valid_utf8(v.bmp_prefix@); vstd::utf8::encode_utf8_decode_utf8(v.bmp_prefix@); }
                { vstd::utf8::encode_utf8_valid_utf8(v.bmp_data@); vstd::utf8::encode_utf8_decode_utf8(v.bmp_data@); }
            };
        }
        Ok((result, pos_end))
    }

    pub open spec fn master_facts(v: Self, s: Seq<u8>) -> bool {
        &&& vstd::utf8::valid_utf8(vstd::utf8::encode_utf8(v.bmp_prefix@))
        &&& vstd::utf8::valid_utf8(vstd::utf8::encode_utf8(v.bmp_data@))
        &&& fields::spec_parse_fields(s, v.pos_len(), Self::spec_descs(), seq![], seq![]) == Ok::<_, ErrorView>((fields::cat_opt_entries(v.spec_fs()), s.len() as int))
        &&& fields::find_entry(fields::cat_opt_entries(v.spec_fs()), 0x1f62) == Some(vstd::utf8::encode_utf8(v.bmp_prefix@))
        &&& fields::find_entry(fields::cat_opt_entries(v.spec_fs()), 0x1f63) == Some(vstd::utf8::encode_utf8(v.bmp_data@))
    }

    pub proof fn lemma_master(v: Self, s: Seq<u8>)
        requires v.wf(), (true), s == v.body_bytes(), s.len() <= usize::MAX,
        ensures Self::master_facts(v, s),
    {
        v.lemma_meta();
        v.lemma_body_parses(s);
        let fs = v.spec_fs();
        fields::lemma_find_entry_fs(fs, 0x1f62);
        fields::lemma_find_entry_fs(fs, 0x1f63);
        vstd::utf8::encode_utf8_valid_utf8(v.bmp_prefix@);
        vstd::utf8::encode_utf8_valid_utf8(v.bmp_data@);
    }
}

/// TLV block of a reservation or partial reversal: the BMP-60 reference.
#[derive(Debug, PartialEq)]
pub struct PreAuthData {
    pub bmp_data: Option<Bmp60>,
}

impl PreAuthData {
    pub open spec fn wf(self) -> bool {
        &&& (match self.bmp_data { Some(ref k) => k.wf() && k.body_bytes().len() <= 0xffff, None => true })
    }

    pub open spec fn spec_fs(self) -> Seq<(u16, LengthSpec, Option<Seq<u8>>)> {
        seq![
            (0xe9u16, LengthSpec::Tlv, (match self.bmp_data { Some(ref k) => Some(k.body_bytes()), None => None })),
        ]
    }

    pub open spec fn body_bytes(self) -> Seq<u8> {
        fields::cat_opt_fields(self.spec_fs())
    }

    pub open spec fn spec_descs() -> Seq<FieldDesc> {
        seq![
            FieldDesc { tag: 0xe9, len: LengthSpec::Tlv, width: 0, repeatable: false, required: false },
        ]
    }

    fn descs() -> (r: Vec<FieldDesc>)
        ensures r@ == Self::spec_descs(),
    {
        let mut v: Vec<FieldDesc> = Vec::new();
        v.push(FieldDesc { tag: 0xe9, len: LengthSpec::Tlv, width: 0, repeatable: false, required: false });
        proof { assert(v@ =~= Self::spec_descs()); }
        v
    }

    proof fn lemma_meta(self)
        ensures
            fields::find_desc(Self::spec_descs(), 0xe9) == Some(Self::spec_descs()[0]),
            encoding::tag_wf(0xe9),
            fields::fs_lookup(self.spec_fs(), 0xe9) == (match self.bmp_data { Some(ref k) => Some(k.body_bytes()), None => None }),
    {
        let ds = Self::spec_descs();
        let fs = self.spec_fs();
        let ds0 = ds; let fs0 = fs;
        let ds1 = ds0.drop_first(); let fs1 = fs0.drop_first();
        assert(ds0[0] == ds[0]); assert(fs0[0] == fs[0]);
        assert(ds0.len() == 1); assert(fs0.len() == 1);
        assert(ds1 =~= Seq::<FieldDesc>::empty()); assert(fs1 =~= Seq::<(u16, LengthSpec, Option<Seq<u8>>)>::empty());
        fields::lemma_low5(0x1f);
        fields::lemma_low5(0xe9);
        assert(fields::find_desc(ds0, 0xe9) == Some(ds[0]));
        assert(fields::fs_lookup(fs1, 0xe9) == None::<Seq<u8>>);
        assert(fields::fs_lookup(fs0, 0xe9) == (match self.bmp_data { Some(ref k) => Some(k.body_bytes()), None => None }));
    }

    pub proof fn lemma_body_parses(self, s: Seq<u8>)
        requires self.wf(), s == self.body_bytes(), s.len() <= usize::MAX,
        ensures
            fields::spec_parse_fields(s, self.pos_len(), Self::spec_descs(), seq![], seq![]) == Ok::<_, ErrorView>((fields::cat_opt_entries(self.spec_fs()), s.len() as int)),
            self.pos_len() + fields::cat_opt_fields(self.spec_fs()).len() == s.len(),
    {
        let ds = Self::spec_descs();
        let fs = self.spec_fs();
        self.lemma_meta();
        let p0 = self.pos_len();
        assert(p0 == 0);
        assert(s.subrange(0, fields::cat_opt_fields(fs).len() as int) =~= fields::cat_opt_fields(fs));
        assert(fields::fs_ok(fs, ds, seq![])) by {
            assert forall|j: int| 0 <= j < fs.len() && (#[trigger] fs[j]).2 is Some implies {
                &&& encoding::tag_wf(fs[j].0)
                &&& fields::find_desc(ds, fs[j].0) matches Some(d) && d.len == fs[j].1 && fields::region_wf(d.len, d.width as int, fs[j].2.unwrap().len() as int) && (d.repeatable || (!seq![].contains(fs[j].0) && forall|i: int| 0 <= i < j ==> (#[trigger] fs[i]).0 != fs[j].0))
            } by {
                if j == 0 { assert(fs[0].0 == 0xe9); }
            };
        };
        fields::lemma_parse_cat(s, p0, ds, seq![], seq![], fs);
        fields::lemma_parse_fields_stop(s, s.len() as int, ds, seq![] + fields::present_tags(fs), seq![] + fields::cat_opt_entries(fs));
        let seen = seq![] + fields::present_tags(fs);
        assert(seen =~= fields::present_tags(fs));
        assert forall|kk: int| 0 <= kk < ds.len() implies !(#[trigger] ds[kk]).required || seen.contains(ds[kk].tag) by {
            if kk == 0 { assert(!ds[0].required); }
        };
        fields::lemma_finish_ok(ds, seen, seq![] + fields::cat_opt_entries(fs), s.len() as int);
        assert(seq![] + fields::cat_opt_entries(fs) =~= fields::cat_opt_entries(fs));
    }

    pub open spec fn pos_len(self) -> int {
        0
    }

    pub open spec fn eqv(a: Self, b: Self) -> bool {
        &&& (match (a.bmp_data, b.bmp_data) { (Some(x), Some(y)) => Bmp60::eqv(x, y), (None, None) => true, _ => false })
    }

    pub fn encode_body(&self) -> (r: Vec<u8>)
        requires self.wf(),
        ensures r@ == self.body_bytes(),
    {
        let mut out: Vec<u8> = Vec::new();
        match self.bmp_data { Some(ref k) => { let region = k.encode_body(); fields::ser_field(&mut out, Some(Tag(0xe9)), LengthSpec::Tlv, &region); }, None => {} }
        proof {
            self.lemma_meta();
            let fs = self.spec_fs();
        let fs0 = fs;
        let fs1 = fs0.drop_first();
        assert(fields::cat_opt_fields(fs0) == fields::opt_field_bytes(fs0[0].0, fs0[0].1, fs0[0].2) + fields::cat_opt_fields(fs1)); assert(fs0[0] == fs[0]);
        assert(fields::cat_opt_fields(fs1) =~= Seq::<u8>::empty());
            assert(out@ =~= self.body_bytes());
        }
        out
    }

    pub fn decode_body(bytes: &[u8]) -> (r: ZVTResult<(Self, usize)>)
        ensures
            r matches Ok(v) ==> v.1 <= bytes@.len(),
            forall|v: Self|
                v.wf() && (true) && bytes@ == #[trigger] v.body_bytes() ==> (r matches Ok(o) && PreAuthData::eqv(o.0, v)
                    && o.1 == bytes@.len()),
    {
        let blen_e = bytes.len();
        proof { assert(bytes@.len() <= usize::MAX); }
        proof {
            assert forall|v: Self| v.wf() && (true) && bytes@ == #[trigger] v.body_bytes() implies PreAuthData::master_facts(v, bytes@) by { PreAuthData::lemma_master(v, bytes@); };
        }
        let mut p: usize = 0;
        let descs = Self::descs();
        let parsed = fields::parse_tagged_fields(bytes, p, &descs);
        let (entries, pos_end) = match parsed { Ok(v) => v, Err(e) => { return Err(e); } };
        let f_bmp_data = match fields::find_payload(&entries, 0xe9) { None => None, Some(pl) => match Bmp60::decode_body(pl.as_slice()) { Ok(v) => Some(v.0), Err(e) => { return Err(e); } } };
        let result = Self {
            bmp_data: f_bmp_data,
        };
        proof {
            assert forall|v: Self| v.wf() && (true) && bytes@ == #[trigger] v.body_bytes() implies PreAuthData::eqv(result, v) by {
                PreAuthData::lemma_master(v, bytes@);
                match v.bmp_data { Some(ref kk) => { assert(kk.wf()); }, None => {} }
            };
        }
        Ok((result, pos_end))
    }

    pub open spec fn master_facts(v: Self, s: Seq<u8>) -> bool {
        &&& fields::spec_parse_fields(s, v.pos_len(), Self::spec_descs(), seq![], seq![]) == Ok::<_, ErrorView>((fields::cat_opt_entries(v.spec_fs()), s.len() as int))
        &&& fields::find_entry(fields::cat_opt_entries(v.spec_fs()), 0xe9) == (match v.bmp_data { Some(ref k) => Some(k.body_bytes()), None => None })
    }

    pub proof fn lemma_master(v: Self, s: Seq<u8>)
        requires v.wf(), (true), s == v.body_bytes(), s.len() <= usize::MAX,
        ensures Self::master_facts(v, s),
    {
        v.lemma_meta();
        v.lemma_body_parses(s);
        let fs = v.spec_fs();
        fields::lemma_find_entry_fs(fs, 0xe9);
    }
}


/// The regions of a run of `Subs` elements: each element's serialized
/// block.
pub open spec fn subs_regions(items: Seq<Subs>) -> Seq<Seq<u8>> {
    items.map(|i: int, e: Subs| e.body_bytes())
}

pub open spec fn subs_seq_wf(items: Seq<Subs>) -> bool {
    forall|i: int|
        0 <= i < items.len() ==> (#[trigger] items[i]).wf() && items[i].body_bytes().len()
            <= 0xffff
}

pub open spec fn subs_seq_eqv(a: Seq<Subs>, b: Seq<Subs>) -> bool {
    a.len() == b.len() && forall|i: int| 0 <= i < a.len() ==> Subs::eqv(#[trigger] a[i], b[i])
}

/// Serializes a run of `Subs` elements under one tag.
fn ser_subs(out: &mut Vec<u8>, items: &Vec<Subs>, tag: Tag)
    requires
        subs_seq_wf(items@),
    ensures
        final(out)@ == old(out)@ + fields::cat_opt_fields(fields::rep_fs(subs_regions(items@), tag.0)),
{
    let ghost out0 = out@;
    let mut i: usize = 0;
    proof {
        assert(fields::rep_fs(subs_regions(items@.subrange(0, 0)), tag.0) =~= Seq::<
            (u16, LengthSpec, Option<Seq<u8>>),
        >::empty());
        assert(out@ =~= out0 + fields::cat_opt_fields(
            fields::rep_fs(subs_regions(items@.subrange(0, 0)), tag.0),
        ));
    }
    while i < items.len()
        invariant
            i <= items@.len(),
            subs_seq_wf(items@),
            out@ == out0 + fields::cat_opt_fields(
                fields::rep_fs(subs_regions(items@.subrange(0, i as int)), tag.0),
            ),
        decreases items@.len() - i,
    {
        let region = items[i].encode_body();
        fields::ser_field(out, Some(tag), LengthSpec::Tlv, &region);
        proof {
            let pre = fields::rep_fs(subs_regions(items@.subrange(0, i as int)), tag.0);
            let one = fields::rep_fs(subs_regions(items@.subrange(i as int, i + 1)), tag.0);
            let cur = fields::rep_fs(subs_regions(items@.subrange(0, i + 1)), tag.0);
            assert(cur =~= pre + one);
            fields::lemma_cat_opt_fields_cat(pre, one);
            assert(one =~= seq![(tag.0, LengthSpec::Tlv, Some(items@[i as int].body_bytes()))]);
            assert(fields::cat_opt_fields(one) =~= fields::opt_field_bytes(
                tag.0,
                LengthSpec::Tlv,
                Some(items@[i as int].body_bytes()),
            )) by {
                assert(one.len() == 1);
                assert(one[0] == (tag.0, LengthSpec::Tlv, Some(items@[i as int].body_bytes())));
                assert(one.drop_first() =~= Seq::<(u16, LengthSpec, Option<Seq<u8>>)>::empty());
                assert(fields::cat_opt_fields(
                    Seq::<(u16, LengthSpec, Option<Seq<u8>>)>::empty(),
                ) =~= Seq::<u8>::empty());
            };
            assert(out@ =~= out0 + fields::cat_opt_fields(cur));
        }
        i = i + 1;
    }
    proof {
        assert(items@.subrange(0, items@.len() as int) =~= items@);
    }
}

/// Decodes each payload of a repeated tag as one `Subs` element; an
/// element no well-formed value serializes to is the element's error.
fn subs_from_payloads(payloads: &Vec<Vec<u8>>) -> (r: ZVTResult<Vec<Subs>>)
    ensures
        r matches Ok(v) ==> v@.len() == payloads@.len() && forall|j: int, it: Subs|
            0 <= j < payloads@.len() && it.wf() && (#[trigger] payloads@[j])@
                == #[trigger] it.body_bytes() ==> Subs::eqv(v@[j], it),
        r is Err ==> exists|j: int|
            0 <= j < payloads@.len() && (forall|it: Subs|
                !(it.wf() && (#[trigger] it.body_bytes()) == (#[trigger] payloads@[j])@)),
{
    let mut items: Vec<Subs> = Vec::new();
    let mut i: usize = 0;
    while i < payloads.len()
        invariant
            i <= payloads@.len(),
            items@.len() == i,
            forall|j: int, it: Subs|
                0 <= j < i && it.wf() && (#[trigger] payloads@[j])@ == #[trigger] it.body_bytes()
                    ==> Subs::eqv(items@[j], it),
        decreases payloads@.len() - i,
    {
        match Subs::decode_body(payloads[i].as_slice()) {
            Ok((e, _)) => {
                items.push(e);
            },
            Err(err) => {
                proof {
                    assert forall|it: Subs|
                        !(it.wf() && (#[trigger] it.body_bytes()) == payloads@[i as int]@) by {}
                }
                return Err(err);
            },
        }
        i = i + 1;
    }
    Ok(items)
}

/// The applications stored on a card, as a nested list.
#[derive(Debug, PartialEq)]
pub struct SubsOnCard {
    pub subs: Vec<Subs>,
}

impl SubsOnCard {
    pub open spec fn wf(self) -> bool {
        subs_seq_wf(self.subs@)
    }

    pub open spec fn spec_fs(self) -> Seq<(u16, LengthSpec, Option<Seq<u8>>)> {
        fields::rep_fs(subs_regions(self.subs@), 0x60)
    }

    pub open spec fn body_bytes(self) -> Seq<u8> {
        fields::cat_opt_fields(self.spec_fs())
    }

    pub open spec fn eqv(a: Self, b: Self) -> bool {
        subs_seq_eqv(a.subs@, b.subs@)
    }

    pub open spec fn spec_descs() -> Seq<FieldDesc> {
        seq![
            FieldDesc { tag: 0x60, len: LengthSpec::Tlv, width: 0, repeatable: true, required: false },
        ]
    }

    pub fn encode_body(&self) -> (r: Vec<u8>)
        requires
            self.wf(),
        ensures
            r@ == self.body_bytes(),
    {
        let mut out: Vec<u8> = Vec::new();
        ser_subs(&mut out, &self.subs, Tag(0x60));
        proof {
            assert(out@ =~= self.body_bytes());
        }
        out
    }

    /// A well-formed list is read back element for element.
    pub proof fn lemma_body_parses(self, s: Seq<u8>)
        requires
            self.wf(),
            s == self.body_bytes(),
            s.len() <= usize::MAX,
        ensures
            fields::spec_parse_fields(s, 0, Self::spec_descs(), seq![], seq![]) == Ok::<
                _,
                ErrorView,
            >((fields::cat_opt_entries(self.spec_fs()), s.len() as int)),
            fields::payloads_of(fields::cat_opt_entries(self.spec_fs()), 0x60) == subs_regions(
                self.subs@,
            ),
    {
        let ds = Self::spec_descs();
        let fs = self.spec_fs();
        assert(s.subrange(0, fields::cat_opt_fields(fs).len() as int) =~= fields::cat_opt_fields(
            fs,
        ));
        fields::lemma_low5(0x60);
        assert(fields::fs_ok(fs, ds, seq![])) by {
            assert forall|j: int| 0 <= j < fs.len() && (#[trigger] fs[j]).2 is Some implies {
                &&& encoding::tag_wf(fs[j].0)
                &&& fields::find_desc(ds, fs[j].0) matches Some(d) && d.len == fs[j].1
                    && fields::region_wf(d.len, d.width as int, fs[j].2.unwrap().len() as int) && (
                d.repeatable || (!seq![].contains(fs[j].0) && forall|i: int|
                    0 <= i < j ==> (#[trigger] fs[i]).0 != fs[j].0))
            } by {
                assert(fs[j].0 == 0x60 && fs[j].1 == LengthSpec::Tlv);
                assert(fs[j].2 == Some(self.subs@[j].body_bytes()));
            };
        };
        fields::lemma_parse_cat(s, 0, ds, seq![], seq![], fs);
        fields::lemma_parse_fields_stop(
            s,
            s.len() as int,
            ds,
            seq![] + fields::present_tags(fs),
            seq![] + fields::cat_opt_entries(fs),
        );
        fields::lemma_finish_ok(
            ds,
            seq![] + fields::present_tags(fs),
            seq![] + fields::cat_opt_entries(fs),
            s.len() as int,
        );
        assert(seq![] + fields::cat_opt_entries(fs) =~= fields::cat_opt_entries(fs));
        fields::lemma_payloads_fs(fs, 0x60);
        fields::lemma_rep_fs(subs_regions(self.subs@), 0x60);
    }

    /// Decoding reads back exactly what a well-formed list serialized to;
    /// on malformed input the element's error is reported.
    pub fn decode_body(bytes: &[u8]) -> (r: ZVTResult<(Self, usize)>)
        ensures
            r matches Ok(v) ==> v.1 <= bytes@.len(),
            forall|v: Self|
                v.wf() && bytes@ == #[trigger] v.body_bytes() ==> (r matches Ok(o) && Self::eqv(
                    o.0,
                    v,
                ) && o.1 == bytes@.len()),
    {
        let blen_e = bytes.len();
        proof {
            assert(bytes@.len() <= usize::MAX);
        }
        proof {
            assert forall|v: Self| v.wf() && bytes@ == #[trigger] v.body_bytes() implies {
                &&& fields::spec_parse_fields(bytes@, 0, Self::spec_descs(), seq![], seq![])
                    == Ok::<_, ErrorView>(
                    (fields::cat_opt_entries(v.spec_fs()), bytes@.len() as int),
                )
                &&& fields::payloads_of(fields::cat_opt_entries(v.spec_fs()), 0x60)
                    == subs_regions(v.subs@)
            } by {
                v.lemma_body_parses(bytes@);
            };
        }
        let mut descs: Vec<FieldDesc> = Vec::new();
        descs.push(
            FieldDesc { tag: 0x60, len: LengthSpec::Tlv, width: 0, repeatable: true, required: false },
        );
        proof {
            assert(descs@ =~= SubsOnCard::spec_descs());
        }
        let (entries, pos) = match fields::parse_tagged_fields(bytes, 0, &descs) {
            Ok(v) => v,
            Err(e) => {
                return Err(e);
            },
        };
        let payloads = fields::collect_payloads(&entries, 0x60);
        let mut items: Vec<Subs> = Vec::new();
        let mut i: usize = 0;
        while i < payloads.len()
            invariant
                i <= payloads@.len(),
                items@.len() == i,
                forall|j: int, it: Subs|
                    0 <= j < i && it.wf() && (#[trigger] payloads@[j])@ == #[trigger] it.body_bytes()
                        ==> Subs::eqv(items@[j], it),
                forall|v: SubsOnCard|
                    v.wf() && bytes@ == #[trigger] v.body_bytes() ==> payloads@.map(
                        |k: int, pl: Vec<u8>| pl@,
                    ) == subs_regions(v.subs@),
            decreases payloads@.len() - i,
        {
            match Subs::decode_body(payloads[i].as_slice()) {
                Ok((e, _)) => {
                    items.push(e);
                },
                Err(err) => {
                    proof {
                        assert forall|v: SubsOnCard|
                            v.wf() && bytes@ == #[trigger] v.body_bytes() implies false by {
                            assert(payloads@.map(|k: int, pl: Vec<u8>| pl@)[i as int]
                                == subs_regions(v.subs@)[i as int]);
                            assert(payloads@[i as int]@ == v.subs@[i as int].body_bytes());
                            assert(v.subs@[i as int].wf());
                        };
                    }
                    return Err(err);
                },
            }
            i = i + 1;
        }
        let result = SubsOnCard { subs: items };
        proof {
            assert forall|v: SubsOnCard|
                v.wf() && bytes@ == #[trigger] v.body_bytes() implies Self::eqv(result, v) by {
                assert(payloads@.map(|k: int, pl: Vec<u8>| pl@) == subs_regions(v.subs@));
                assert(result.subs@.len() == v.subs@.len());
                assert forall|j: int| 0 <= j < result.subs@.len() implies Subs::eqv(
                    #[trigger] result.subs@[j],
                    v.subs@[j],
                ) by {
                    assert(payloads@.map(|k: int, pl: Vec<u8>| pl@)[j] == subs_regions(
                        v.subs@,
                    )[j]);
                    assert(payloads@[j]@ == v.subs@[j].body_bytes());
                    assert(v.subs@[j].wf());
                };
            };
        }
        Ok((result, pos))
    }
}

/// TLV block of a StatusInformation: what the terminal saw on the card.
#[derive(Debug, PartialEq)]
pub struct StatusInformation {
    pub uuid: Option<String>,
    pub maximum_pre_autorisation: Option<usize>,
    pub card_identification_item: Option<String>,
    pub ats: Option<String>,
    pub card_type: Option<u8>,
    pub sub_type: Option<String>,
    pub atqa: Option<String>,
    pub sak: Option<u8>,
    pub subs: Vec<Subs>,
    pub subs_on_card: Option<SubsOnCard>,
}

impl StatusInformation {
    pub open spec fn wf(self) -> bool {
        &&& (match self.uuid { Some(ref k) => encoding::is_hex_ascii(vstd::utf8::encode_utf8(k@)) && vstd::utf8::encode_utf8(k@).len() <= 0x1fffe, None => true })
        &&& (match self.maximum_pre_autorisation { Some(k) => encoding::bcd_bytes(k as nat).len() <= 0xffff, None => true })
        &&& (match self.card_identification_item { Some(ref k) => encoding::is_hex_ascii(vstd::utf8::encode_utf8(k@)) && vstd::utf8::encode_utf8(k@).len() <= 0x1fffe, None => true })
        &&& (match self.ats { Some(ref k) => encoding::is_hex_ascii(vstd::utf8::encode_utf8(k@)) && vstd::utf8::encode_utf8(k@).len() <= 0x1fffe, None => true })
        &&& (match self.sub_type { Some(ref k) => encoding::is_hex_ascii(vstd::utf8::encode_utf8(k@)) && vstd::utf8::encode_utf8(k@).len() <= 0x1fffe, None => true })
        &&& (match self.atqa { Some(ref k) => encoding::is_hex_ascii(vstd::utf8::encode_utf8(k@)) && vstd::utf8::encode_utf8(k@).len() <= 0x1fffe, None => true })
        &&& subs_seq_wf(self.subs@)
        &&& (match self.subs_on_card { Some(ref c) => c.wf() && c.body_bytes().len() <= 0xffff, None => true })
    }

    pub open spec fn lit_a(self) -> Seq<(u16, LengthSpec, Option<Seq<u8>>)> {
        seq![
            (0x4cu16, LengthSpec::Tlv, (match self.uuid { Some(ref k) => Some(encoding::hex_payload(vstd::utf8::encode_utf8(k@))), None => None })),
            (0x1f0bu16, LengthSpec::Tlv, (match self.maximum_pre_autorisation { Some(k) => Some(encoding::bcd_bytes(k as nat)), None => None })),
            (0x1f14u16, LengthSpec::Tlv, (match self.card_identification_item { Some(ref k) => Some(encoding::hex_payload(vstd::utf8::encode_utf8(k@))), None => None })),
            (0x1f45u16, LengthSpec::Tlv, (match self.ats { Some(ref k) => Some(encoding::hex_payload(vstd::utf8::encode_utf8(k@))), None => None })),
            (0x1f4cu16, LengthSpec::Tlv, opt_u8_region(self.card_type)),
            (0x1f4du16, LengthSpec::Tlv, (match self.sub_type { Some(ref k) => Some(encoding::hex_payload(vstd::utf8::encode_utf8(k@))), None => None })),
            (0x1f4fu16, LengthSpec::Tlv, (match self.atqa { Some(ref k) => Some(encoding::hex_payload(vstd::utf8::encode_utf8(k@))), None => None })),
            (0x1f50u16, LengthSpec::Tlv, opt_u8_region(self.sak)),
        ]
    }

    pub open spec fn lit_b(self) -> Seq<(u16, LengthSpec, Option<Seq<u8>>)> {
        seq![
            (0x62u16, LengthSpec::Tlv, (match self.subs_on_card { Some(ref c) => Some(c.body_bytes()), None => None })),
        ]
    }

    pub open spec fn spec_fs(self) -> Seq<(u16, LengthSpec, Option<Seq<u8>>)> {
        self.lit_a() + fields::rep_fs(subs_regions(self.subs@), 0x60) + self.lit_b()
    }

    pub open spec fn body_bytes(self) -> Seq<u8> {
        fields::cat_opt_fields(self.spec_fs())
    }

    pub open spec fn eqv(a: Self, b: Self) -> bool {
        &&& (match (a.uuid, b.uuid) { (Some(x), Some(y)) => x@ == y@, (None, None) => true, _ => false })
        &&& a.maximum_pre_autorisation == b.maximum_pre_autorisation
        &&& (match (a.card_identification_item, b.card_identification_item) { (Some(x), Some(y)) => x@ == y@, (None, None) => true, _ => false })
        &&& (match (a.ats, b.ats) { (Some(x), Some(y)) => x@ == y@, (None, None) => true, _ => false })
        &&& a.card_type == b.card_type
        &&& (match (a.sub_type, b.sub_type) { (Some(x), Some(y)) => x@ == y@, (None, None) => true, _ => false })
        &&& (match (a.atqa, b.atqa) { (Some(x), Some(y)) => x@ == y@, (None, None) => true, _ => false })
        &&& a.sak == b.sak
        &&& subs_seq_eqv(a.subs@, b.subs@)
        &&& (match (a.subs_on_card, b.subs_on_card) { (Some(x), Some(y)) => SubsOnCard::eqv(x, y), (None, None) => true, _ => false })
    }

    pub open spec fn spec_descs() -> Seq<FieldDesc> {
        seq![
            FieldDesc { tag: 0x4c, len: LengthSpec::Tlv, width: 0, repeatable: false, required: false },
            FieldDesc { tag: 0x1f0b, len: LengthSpec::Tlv, width: 0, repeatable: false, required: false },
            FieldDesc { tag: 0x1f14, len: LengthSpec::Tlv, width: 0, repeatable: false, required: false },
            FieldDesc { tag: 0x1f45, len: LengthSpec::Tlv, width: 0, repeatable: false, required: false },
            FieldDesc { tag: 0x1f4c, len: LengthSpec::Tlv, width: 0, repeatable: false, required: false },
            FieldDesc { tag: 0x1f4d, len: LengthSpec::Tlv, width: 0, repeatable: false, required: false },
            FieldDesc { tag: 0x1f4f, len: LengthSpec::Tlv, width: 0, repeatable: false, required: false },
            FieldDesc { tag: 0x1f50, len: LengthSpec::Tlv, width: 0, repeatable: false, required: false },
            FieldDesc { tag: 0x60, len: LengthSpec::Tlv, width: 0, repeatable: true, required: false },
            FieldDesc { tag: 0x62, len: LengthSpec::Tlv, width: 0, repeatable: false, required: false },
        ]
    }

    #[verifier::rlimit(100)]
    #[verifier::spinoff_prover]
    fn encode_scalars_0(&self) -> (r: Vec<u8>)
        requires self.wf(),
        ensures r@ == fields::cat_opt_fields(self.lit_a().subrange(0, 4)),
    {
        let ghost la = self.lit_a();
        let ghost gp = self.lit_a().subrange(0, 4);
        let mut out: Vec<u8> = Vec::new();
        match self.uuid { Some(ref kk) => { let region = encoding::enc_hex(kk.as_str()); proof { encoding::lemma_hex_ascii_len(region@); encoding::lemma_hex_payload_roundtrip(region@); } fields::ser_field(&mut out, Some(Tag(0x4c)), LengthSpec::Tlv, &region); }, None => {} }
        proof { assert(out@ =~= fields::opt_field_bytes(la[0].0, la[0].1, la[0].2)); }
        match self.maximum_pre_autorisation { Some(kk) => { let region = encoding::enc_bcd(kk); fields::ser_field(&mut out, Some(Tag(0x1f0b)), LengthSpec::Tlv, &region); }, None => {} }
        proof { assert(out@ =~= fields::opt_field_bytes(la[0].0, la[0].1, la[0].2) + fields::opt_field_bytes(la[1].0, la[1].1, la[1].2)); }
        match self.card_identification_item { Some(ref kk) => { let region = encoding::enc_hex(kk.as_str()); proof { encoding::lemma_hex_ascii_len(region@); encoding::lemma_hex_payload_roundtrip(region@); } fields::ser_field(&mut out, Some(Tag(0x1f14)), LengthSpec::Tlv, &region); }, None => {} }
        proof { assert(out@ =~= fields::opt_field_bytes(la[0].0, la[0].1, la[0].2) + fields::opt_field_bytes(la[1].0, la[1].1, la[1].2) + fields::opt_field_bytes(la[2].0, la[2].1, la[2].2)); }
        match self.ats { Some(ref kk) => { let region = encoding::enc_hex(kk.as_str()); proof { encoding::lemma_hex_ascii_len(region@); encoding::lemma_hex_payload_roundtrip(region@); } fields::ser_field(&mut out, Some(Tag(0x1f45)), LengthSpec::Tlv, &region); }, None => {} }
        proof { assert(out@ =~= fields::opt_field_bytes(la[0].0, la[0].1, la[0].2) + fields::opt_field_bytes(la[1].0, la[1].1, la[1].2) + fields::opt_field_bytes(la[2].0, la[2].1, la[2].2) + fields::opt_field_bytes(la[3].0, la[3].1, la[3].2)); }
        proof {
        let g0 = gp;
        let g1 = g0.drop_first();
        let g2 = g1.drop_first();
        let g3 = g2.drop_first();
        let g4 = g3.drop_first();
        assert(fields::cat_opt_fields(g0) == fields::opt_field_bytes(g0[0].0, g0[0].1, g0[0].2) + fields::cat_opt_fields(g1)); assert(g0[0] == la[0]);
        assert(fields::cat_opt_fields(g1) == fields::opt_field_bytes(g1[0].0, g1[0].1, g1[0].2) + fields::cat_opt_fields(g2)); assert(g1[0] == la[1]);
        assert(fields::cat_opt_fields(g2) == fields::opt_field_bytes(g2[0].0, g2[0].1, g2[0].2) + fields::cat_opt_fields(g3)); assert(g2[0] == la[2]);
        assert(fields::cat_opt_fields(g3) == fields::opt_field_bytes(g3[0].0, g3[0].1, g3[0].2) + fields::cat_opt_fields(g4)); assert(g3[0] == la[3]);
        assert(fields::cat_opt_fields(g4) =~= Seq::<u8>::empty());
        assert(out@ =~= fields::cat_opt_fields(gp));
        }
        out
    }

    #[verifier::rlimit(100)]
    #[verifier::spinoff_prover]
    fn encode_scalars_1(&self) -> (r: Vec<u8>)
        requires self.wf(),
        ensures r@ == fields::cat_opt_fields(self.lit_a().subrange(4, 8)),
    {
        let ghost la = self.lit_a();
        let ghost gp = self.lit_a().subrange(4, 8);
        let mut out: Vec<u8> = Vec::new();
        match self.card_type { Some(kk) => { let region = encoding::enc_u8(kk); fields::ser_field(&mut out, Some(Tag(0x1f4c)), LengthSpec::Tlv, &region); }, None => {} }
        proof { assert(out@ =~= fields::opt_field_bytes(la[4].0, la[4].1, la[4].2)); }
        match self.sub_type { Some(ref kk) => { let region = encoding::enc_hex(kk.as_str()); proof { encoding::lemma_hex_ascii_len(region@); encoding::lemma_hex_payload_roundtrip(region@); } fields::ser_field(&mut out, Some(Tag(0x1f4d)), LengthSpec::Tlv, &region); }, None => {} }
        proof { assert(out@ =~= fields::opt_field_bytes(la[4].0, la[4].1, la[4].2) + fields::opt_field_bytes(la[5].0, la[5].1, la[5].2)); }
        match self.atqa { Some(ref kk) => { let region = encoding::enc_hex(kk.as_str()); proof { encoding::lemma_hex_ascii_len(region@); encoding::lemma_hex_payload_roundtrip(region@); } fields::ser_field(&mut out, Some(Tag(0x1f4f)), LengthSpec::Tlv, &region); }, None => {} }
        proof { assert(out@ =~= fields::opt_field_bytes(la[4].0, la[4].1, la[4].2) + fields::opt_field_bytes(la[5].0, la[5].1, la[5].2) + fields::opt_field_bytes(la[6].0, la[6].1, la[6].2)); }
        match self.sak { Some(kk) => { let region = encoding::enc_u8(kk); fields::ser_field(&mut out, Some(Tag(0x1f50)), LengthSpec::Tlv, &region); }, None => {} }
        proof { assert(out@ =~= fields::opt_field_bytes(la[4].0, la[4].1, la[4].2) + fields::opt_field_bytes(la[5].0, la[5].1, la[5].2) + fields::opt_field_bytes(la[6].0, la[6].1, la[6].2) + fields::opt_field_bytes(la[7].0, la[7].1, la[7].2)); }
        proof {
        let g0 = gp;
        let g1 = g0.drop_first();
        let g2 = g1.drop_first();
        let g3 = g2.drop_first();
        let g4 = g3.drop_first();
        assert(fields::cat_opt_fields(g0) == fields::opt_field_bytes(g0[0].0, g0[0].1, g0[0].2) + fields::cat_opt_fields(g1)); assert(g0[0] == la[4]);
        assert(fields::cat_opt_fields(g1) == fields::opt_field_bytes(g1[0].0, g1[0].1, g1[0].2) + fields::cat_opt_fields(g2)); assert(g1[0] == la[5]);
        assert(fields::cat_opt_fields(g2) == fields::opt_field_bytes(g2[0].0, g2[0].1, g2[0].2) + fields::cat_opt_fields(g3)); assert(g2[0] == la[6]);
        assert(fields::cat_opt_fields(g3) == fields::opt_field_bytes(g3[0].0, g3[0].1, g3[0].2) + fields::cat_opt_fields(g4)); assert(g3[0] == la[7]);
        assert(fields::cat_opt_fields(g4) =~= Seq::<u8>::empty());
        assert(out@ =~= fields::cat_opt_fields(gp));
        }
        out
    }

    /// Serializes the block: each present field under its tag, the
    /// application list as a repeated tag, in declaration order.
    pub fn encode_body(&self) -> (r: Vec<u8>)
        requires self.wf(),
        ensures r@ == self.body_bytes(),
    {
        let ghost la = self.lit_a();
        let mut out = self.encode_scalars_0();
        let mut p1 = self.encode_scalars_1();
        out.append(&mut p1);
        proof {
            fields::lemma_cat_opt_fields_split(la, 4);
            assert(la.subrange(0, la.len() as int) =~= la);
            assert(la.subrange(0, 4) =~= la.subrange(0, 4));
            assert(out@ =~= fields::cat_opt_fields(la));
        }
        ser_subs(&mut out, &self.subs, Tag(0x60));
        match self.subs_on_card { Some(ref c) => { let region = c.encode_body(); fields::ser_field(&mut out, Some(Tag(0x62)), LengthSpec::Tlv, &region); }, None => {} }
        proof {
            let rep = fields::rep_fs(subs_regions(self.subs@), 0x60);
            let lb = self.lit_b();
            fields::lemma_cat_opt_fields_cat(la, rep);
            fields::lemma_cat_opt_fields_cat(la + rep, lb);
            assert(self.spec_fs() =~= (la + rep) + lb);
            assert(fields::cat_opt_fields(lb) =~= fields::opt_field_bytes(lb[0].0, lb[0].1, lb[0].2)) by {
                assert(lb.drop_first() =~= Seq::<(u16, LengthSpec, Option<Seq<u8>>)>::empty());
                assert(fields::cat_opt_fields(Seq::<(u16, LengthSpec, Option<Seq<u8>>)>::empty()) =~= Seq::<u8>::empty());
            };
            assert(out@ =~= self.body_bytes());
        }
        out
    }
    /// A well-formed block with no application entries and no nested
    /// list is read back field for field; the laws on the repeated
    /// fields live on `SubsOnCard`.
    #[verifier::rlimit(100)]
    #[verifier::spinoff_prover]
    pub proof fn lemma_body_parses(self, s: Seq<u8>)
        requires
            self.wf(),
            self.subs@.len() == 0,
            self.subs_on_card is None,
            s == self.body_bytes(),
            s.len() <= usize::MAX,
        ensures
            fields::spec_parse_fields(s, 0, Self::spec_descs(), seq![], seq![]) == Ok::<_, ErrorView>((fields::cat_opt_entries(self.spec_fs()), s.len() as int)),
            fields::find_entry(fields::cat_opt_entries(self.spec_fs()), 0x4c) == (match self.uuid { Some(ref k) => Some(encoding::hex_payload(vstd::utf8::encode_utf8(k@))), None => None }),
            fields::find_entry(fields::cat_opt_entries(self.spec_fs()), 0x1f0b) == (match self.maximum_pre_autorisation { Some(k) => Some(encoding::bcd_bytes(k as nat)), None => None }),
            fields::find_entry(fields::cat_opt_entries(self.spec_fs()), 0x1f14) == (match self.card_identification_item { Some(ref k) => Some(encoding::hex_payload(vstd::utf8::encode_utf8(k@))), None => None }),
            fields::find_entry(fields::cat_opt_entries(self.spec_fs()), 0x1f45) == (match self.ats { Some(ref k) => Some(encoding::hex_payload(vstd::utf8::encode_utf8(k@))), None => None }),
            fields::find_entry(fields::cat_opt_entries(self.spec_fs()), 0x1f4c) == opt_u8_region(self.card_type),
            fields::find_entry(fields::cat_opt_entries(self.spec_fs()), 0x1f4d) == (match self.sub_type { Some(ref k) => Some(encoding::hex_payload(vstd::utf8::encode_utf8(k@))), None => None }),
            fields::find_entry(fields::cat_opt_entries(self.spec_fs()), 0x1f4f) == (match self.atqa { Some(ref k) => Some(encoding::hex_payload(vstd::utf8::encode_utf8(k@))), None => None }),
            fields::find_entry(fields::cat_opt_entries(self.spec_fs()), 0x1f50) == opt_u8_region(self.sak),
            fields::find_entry(fields::cat_opt_entries(self.spec_fs()), 0x62) is None,
            fields::payloads_of(fields::cat_opt_entries(self.spec_fs()), 0x60) =~= Seq::<Seq<u8>>::empty(),
    {
        let ds = Self::spec_descs();
        let fs = self.spec_fs();
        let la = self.lit_a();
        let lb = self.lit_b();
        let nine = la + lb;
        assert(fields::rep_fs(subs_regions(self.subs@), 0x60) =~= Seq::<(u16, LengthSpec, Option<Seq<u8>>)>::empty());
        assert(fs =~= nine);
        assert(s.subrange(0, fields::cat_opt_fields(fs).len() as int) =~= fields::cat_opt_fields(fs));
        fields::lemma_low5(0x1f);
        fields::lemma_low5(0x4c);
        assert((0x1f0bu16 / 256) as u8 == 0x1f);
        assert((0x1f14u16 / 256) as u8 == 0x1f);
        assert((0x1f45u16 / 256) as u8 == 0x1f);
        assert((0x1f4cu16 / 256) as u8 == 0x1f);
        assert((0x1f4du16 / 256) as u8 == 0x1f);
        assert((0x1f4fu16 / 256) as u8 == 0x1f);
        assert((0x1f50u16 / 256) as u8 == 0x1f);
        fields::lemma_low5(0x62);
        let d0 = ds;
        let d1 = d0.drop_first();
        let d2 = d1.drop_first();
        let d3 = d2.drop_first();
        let d4 = d3.drop_first();
        let d5 = d4.drop_first();
        let d6 = d5.drop_first();
        let d7 = d6.drop_first();
        let d8 = d7.drop_first();
        let d9 = d8.drop_first();
        let d10 = d9.drop_first();
        assert(d0[0] == ds[0]); assert(d0.len() == 10);
        assert(d1[0] == ds[1]); assert(d1.len() == 9);
        assert(d2[0] == ds[2]); assert(d2.len() == 8);
        assert(d3[0] == ds[3]); assert(d3.len() == 7);
        assert(d4[0] == ds[4]); assert(d4.len() == 6);
        assert(d5[0] == ds[5]); assert(d5.len() == 5);
        assert(d6[0] == ds[6]); assert(d6.len() == 4);
        assert(d7[0] == ds[7]); assert(d7.len() == 3);
        assert(d8[0] == ds[8]); assert(d8.len() == 2);
        assert(d9[0] == ds[9]); assert(d9.len() == 1);
        assert(d10 =~= Seq::<FieldDesc>::empty());
        assert(fields::find_desc(d0, 0x4c) == Some(ds[0]));
        assert(fields::find_desc(d1, 0x1f0b) == Some(ds[1]));
        assert(fields::find_desc(d0, 0x1f0b) == fields::find_desc(d1, 0x1f0b));
        assert(fields::find_desc(d2, 0x1f14) == Some(ds[2]));
        assert(fields::find_desc(d1, 0x1f14) == fields::find_desc(d2, 0x1f14));
        assert(fields::find_desc(d0, 0x1f14) == fields::find_desc(d1, 0x1f14));
        assert(fields::find_desc(d3, 0x1f45) == Some(ds[3]));
        assert(fields::find_desc(d2, 0x1f45) == fields::find_desc(d3, 0x1f45));
        assert(fields::find_desc(d1, 0x1f45) == fields::find_desc(d2, 0x1f45));
        assert(fields::find_desc(d0, 0x1f45) == fields::find_desc(d1, 0x1f45));
        assert(fields::find_desc(d4, 0x1f4c) == Some(ds[4]));
        assert(fields::find_desc(d3, 0x1f4c) == fields::find_desc(d4, 0x1f4c));
        assert(fields::find_desc(d2, 0x1f4c) == fields::find_desc(d3, 0x1f4c));
        assert(fields::find_desc(d1, 0x1f4c) == fields::find_desc(d2, 0x1f4c));
        assert(fields::find_desc(d0, 0x1f4c) == fields::find_desc(d1, 0x1f4c));
        assert(fields::find_desc(d5, 0x1f4d) == Some(ds[5]));
        assert(fields::find_desc(d4, 0x1f4d) == fields::find_desc(d5, 0x1f4d));
        assert(fields::find_desc(d3, 0x1f4d) == fields::find_desc(d4, 0x1f4d));
        assert(fields::find_desc(d2, 0x1f4d) == fields::find_desc(d3, 0x1f4d));
        assert(fields::find_desc(d1, 0x1f4d) == fields::find_desc(d2, 0x1f4d));
        assert(fields::find_desc(d0, 0x1f4d) == fields::find_desc(d1, 0x1f4d));
        assert(fields::find_desc(d6, 0x1f4f) == Some(ds[6]));
        assert(fields::find_desc(d5, 0x1f4f) == fields::find_desc(d6, 0x1f4f));
        assert(fields::find_desc(d4, 0x1f4f) == fields::find_desc(d5, 0x1f4f));
        assert(fields::find_desc(d3, 0x1f4f) == fields::find_desc(d4, 0x1f4f));
        assert(fields::find_desc(d2, 0x1f4f) == fields::find_desc(d3, 0x1f4f));
        assert(fields::find_desc(d1, 0x1f4f) == fields::find_desc(d2, 0x1f4f));
        assert(fields::find_desc(d0, 0x1f4f) == fields::find_desc(d1, 0x1f4f));
        assert(fields::find_desc(d7, 0x1f50) == Some(ds[7]));
        assert(fields::find_desc(d6, 0x1f50) == fields::find_desc(d7, 0x1f50));
        assert(fields::find_desc(d5, 0x1f50) == fields::find_desc(d6, 0x1f50));
        assert(fields::find_desc(d4, 0x1f50) == fields::find_desc(d5, 0x1f50));
        assert(fields::find_desc(d3, 0x1f50) == fields::find_desc(d4, 0x1f50));
        assert(fields::find_desc(d2, 0x1f50) == fields::find_desc(d3, 0x1f50));
        assert(fields::find_desc(d1, 0x1f50) == fields::find_desc(d2, 0x1f50));
        assert(fields::find_desc(d0, 0x1f50) == fields::find_desc(d1, 0x1f50));
        assert(fields::find_desc(d8, 0x60) == Some(ds[8]));
        assert(fields::find_desc(d7, 0x60) == fields::find_desc(d8, 0x60));
        assert(fields::find_desc(d6, 0x60) == fields::find_desc(d7, 0x60));
        assert(fields::find_desc(d5, 0x60) == fields::find_desc(d6, 0x60));
        assert(fields::find_desc(d4, 0x60) == fields::find_desc(d5, 0x60));
        assert(fields::find_desc(d3, 0x60) == fields::find_desc(d4, 0x60));
        assert(fields::find_desc(d2, 0x60) == fields::find_desc(d3, 0x60));
        assert(fields::find_desc(d1, 0x60) == fields::find_desc(d2, 0x60));
        assert(fields::find_desc(d0, 0x60) == fields::find_desc(d1, 0x60));
        assert(fields::find_desc(d9, 0x62) == Some(ds[9]));
        assert(fields::find_desc(d8, 0x62) == fields::find_desc(d9, 0x62));
        assert(fields::find_desc(d7, 0x62) == fields::find_desc(d8, 0x62));
        assert(fields::find_desc(d6, 0x62) == fields::find_desc(d7, 0x62));
        assert(fields::find_desc(d5, 0x62) == fields::find_desc(d6, 0x62));
        assert(fields::find_desc(d4, 0x62) == fields::find_desc(d5, 0x62));
        assert(fields::find_desc(d3, 0x62) == fields::find_desc(d4, 0x62));
        assert(fields::find_desc(d2, 0x62) == fields::find_desc(d3, 0x62));
        assert(fields::find_desc(d1, 0x62) == fields::find_desc(d2, 0x62));
        assert(fields::find_desc(d0, 0x62) == fields::find_desc(d1, 0x62));
        assert(fields::fs_ok(nine, ds, seq![])) by {
            assert forall|j: int| 0 <= j < nine.len() && (#[trigger] nine[j]).2 is Some implies {
                &&& encoding::tag_wf(nine[j].0)
                &&& fields::find_desc(ds, nine[j].0) matches Some(d) && d.len == nine[j].1 && fields::region_wf(d.len, d.width as int, nine[j].2.unwrap().len() as int) && (d.repeatable || (!seq![].contains(nine[j].0) && forall|i: int| 0 <= i < j ==> (#[trigger] nine[i]).0 != nine[j].0))
            } by {
                if j == 0 { assert(nine[0] == la[0]); assert(nine[0].0 == 0x4c); match self.uuid { Some(ref kk) => { encoding::lemma_hex_ascii_payload(vstd::utf8::encode_utf8(kk@)); }, None => {} } }
                if j == 1 { assert(nine[1] == la[1]); assert(nine[1].0 == 0x1f0b); }
                if j == 2 { assert(nine[2] == la[2]); assert(nine[2].0 == 0x1f14); match self.card_identification_item { Some(ref kk) => { encoding::lemma_hex_ascii_payload(vstd::utf8::encode_utf8(kk@)); }, None => {} } }
                if j == 3 { assert(nine[3] == la[3]); assert(nine[3].0 == 0x1f45); match self.ats { Some(ref kk) => { encoding::lemma_hex_ascii_payload(vstd::utf8::encode_utf8(kk@)); }, None => {} } }
                if j == 4 { assert(nine[4] == la[4]); assert(nine[4].0 == 0x1f4c); }
                if j == 5 { assert(nine[5] == la[5]); assert(nine[5].0 == 0x1f4d); match self.sub_type { Some(ref kk) => { encoding::lemma_hex_ascii_payload(vstd::utf8::encode_utf8(kk@)); }, None => {} } }
                if j == 6 { assert(nine[6] == la[6]); assert(nine[6].0 == 0x1f4f); match self.atqa { Some(ref kk) => { encoding::lemma_hex_ascii_payload(vstd::utf8::encode_utf8(kk@)); }, None => {} } }
                if j == 7 { assert(nine[7] == la[7]); assert(nine[7].0 == 0x1f50); }
                if j == 8 { assert(nine[8] == lb[0]); assert(nine[8].0 == 0x62); }
            };
        };
        fields::lemma_parse_cat(s, 0, ds, seq![], seq![], nine);
        fields::lemma_parse_fields_stop(s, s.len() as int, ds, seq![] + fields::present_tags(nine), seq![] + fields::cat_opt_entries(nine));
        fields::lemma_finish_ok(ds, seq![] + fields::present_tags(nine), seq![] + fields::cat_opt_entries(nine), s.len() as int);
        assert(seq![] + fields::cat_opt_entries(nine) =~= fields::cat_opt_entries(nine));
        let n0 = nine;
        let n1 = n0.drop_first();
        let n2 = n1.drop_first();
        let n3 = n2.drop_first();
        let n4 = n3.drop_first();
        let n5 = n4.drop_first();
        let n6 = n5.drop_first();
        let n7 = n6.drop_first();
        let n8 = n7.drop_first();
        let n9 = n8.drop_first();
        assert(n0[0] == la[0]);
        assert(n1[0] == la[1]);
        assert(n2[0] == la[2]);
        assert(n3[0] == la[3]);
        assert(n4[0] == la[4]);
        assert(n5[0] == la[5]);
        assert(n6[0] == la[6]);
        assert(n7[0] == la[7]);
        assert(n8[0] == lb[0]);
        assert(n9 =~= Seq::<(u16, LengthSpec, Option<Seq<u8>>)>::empty());
        fields::lemma_find_entry_fs(nine, 0x4c);
        assert(fields::fs_lookup(n9, 0x4c) is None);
        assert(fields::fs_lookup(n8, 0x4c) is None);
        assert(fields::fs_lookup(n7, 0x4c) is None);
        assert(fields::fs_lookup(n6, 0x4c) is None);
        assert(fields::fs_lookup(n5, 0x4c) is None);
        assert(fields::fs_lookup(n4, 0x4c) is None);
        assert(fields::fs_lookup(n3, 0x4c) is None);
        assert(fields::fs_lookup(n2, 0x4c) is None);
        assert(fields::fs_lookup(n1, 0x4c) is None);
        assert(fields::fs_lookup(n0, 0x4c) == (match self.uuid { Some(ref k) => Some(encoding::hex_payload(vstd::utf8::encode_utf8(k@))), None => None })) by { match self.uuid { Some(_) => {}, None => {} } };
        fields::lemma_find_entry_fs(nine, 0x1f0b);
        assert(fields::fs_lookup(n9, 0x1f0b) is None);
        assert(fields::fs_lookup(n8, 0x1f0b) is None);
        assert(fields::fs_lookup(n7, 0x1f0b) is None);
        assert(fields::fs_lookup(n6, 0x1f0b) is None);
        assert(fields::fs_lookup(n5, 0x1f0b) is None);
        assert(fields::fs_lookup(n4, 0x1f0b) is None);
        assert(fields::fs_lookup(n3, 0x1f0b) is None);
        assert(fields::fs_lookup(n2, 0x1f0b) is None);
        assert(fields::fs_lookup(n1, 0x1f0b) == (match self.maximum_pre_autorisation { Some(k) => Some(encoding::bcd_bytes(k as nat)), None => None })) by { match self.maximum_pre_autorisation { Some(_) => {}, None => {} } };
        assert(fields::fs_lookup(n0, 0x1f0b) == fields::fs_lookup(n1, 0x1f0b));
        fields::lemma_find_entry_fs(nine, 0x1f14);
        assert(fields::fs_lookup(n9, 0x1f14) is None);
        assert(fields::fs_lookup(n8, 0x1f14) is None);
        assert(fields::fs_lookup(n7, 0x1f14) is None);
        assert(fields::fs_lookup(n6, 0x1f14) is None);
        assert(fields::fs_lookup(n5, 0x1f14) is None);
        assert(fields::fs_lookup(n4, 0x1f14) is None);
        assert(fields::fs_lookup(n3, 0x1f14) is None);
        assert(fields::fs_lookup(n2, 0x1f14) == (match self.card_identification_item { Some(ref k) => Some(encoding::hex_payload(vstd::utf8::encode_utf8(k@))), None => None })) by { match self.card_identification_item { Some(_) => {}, None => {} } };
        assert(fields::fs_lookup(n1, 0x1f14) == fields::fs_lookup(n2, 0x1f14));
        assert(fields::fs_lookup(n0, 0x1f14) == fields::fs_lookup(n1, 0x1f14));
        fields::lemma_find_entry_fs(nine, 0x1f45);
        assert(fields::fs_lookup(n9, 0x1f45) is None);
        assert(fields::fs_lookup(n8, 0x1f45) is None);
        assert(fields::fs_lookup(n7, 0x1f45) is None);
        assert(fields::fs_lookup(n6, 0x1f45) is None);
        assert(fields::fs_lookup(n5, 0x1f45) is None);
        assert(fields::fs_lookup(n4, 0x1f45) is None);
        assert(fields::fs_lookup(n3, 0x1f45) == (match self.ats { Some(ref k) => Some(encoding::hex_payload(vstd::utf8::encode_utf8(k@))), None => None })) by { match self.ats { Some(_) => {}, None => {} } };
        assert(fields::fs_lookup(n2, 0x1f45) == fields::fs_lookup(n3, 0x1f45));
        assert(fields::fs_lookup(n1, 0x1f45) == fields::fs_lookup(n2, 0x1f45));
        assert(fields::fs_lookup(n0, 0x1f45) == fields::fs_lookup(n1, 0x1f45));
        fields::lemma_find_entry_fs(nine, 0x1f4c);
        assert(fields::fs_lookup(n9, 0x1f4c) is None);
        assert(fields::fs_lookup(n8, 0x1f4c) is None);
        assert(fields::fs_lookup(n7, 0x1f4c) is None);
        assert(fields::fs_lookup(n6, 0x1f4c) is None);
        assert(fields::fs_lookup(n5, 0x1f4c) is None);
        assert(fields::fs_lookup(n4, 0x1f4c) == opt_u8_region(self.card_type)) by { match self.card_type { Some(_) => {}, None => {} } };
        assert(fields::fs_lookup(n3, 0x1f4c) == fields::fs_lookup(n4, 0x1f4c));
        assert(fields::fs_lookup(n2, 0x1f4c) == fields::fs_lookup(n3, 0x1f4c));
        assert(fields::fs_lookup(n1, 0x1f4c) == fields::fs_lookup(n2, 0x1f4c));
        assert(fields::fs_lookup(n0, 0x1f4c) == fields::fs_lookup(n1, 0x1f4c));
        fields::lemma_find_entry_fs(nine, 0x1f4d);
        assert(fields::fs_lookup(n9, 0x1f4d) is None);
        assert(fields::fs_lookup(n8, 0x1f4d) is None);
        assert(fields::fs_lookup(n7, 0x1f4d) is None);
        assert(fields::fs_lookup(n6, 0x1f4d) is None);
        assert(fields::fs_lookup(n5, 0x1f4d) == (match self.sub_type { Some(ref k) => Some(encoding::hex_payload(vstd::utf8::encode_utf8(k@))), None => None })) by { match self.sub_type { Some(_) => {}, None => {} } };
        assert(fields::fs_lookup(n4, 0x1f4d) == fields::fs_lookup(n5, 0x1f4d));
        assert(fields::fs_lookup(n3, 0x1f4d) == fields::fs_lookup(n4, 0x1f4d));
        assert(fields::fs_lookup(n2, 0x1f4d) == fields::fs_lookup(n3, 0x1f4d));
        assert(fields::fs_lookup(n1, 0x1f4d) == fields::fs_lookup(n2, 0x1f4d));
        assert(fields::fs_lookup(n0, 0x1f4d) == fields::fs_lookup(n1, 0x1f4d));
        fields::lemma_find_entry_fs(nine, 0x1f4f);
        assert(fields::fs_lookup(n9, 0x1f4f) is None);
        assert(fields::fs_lookup(n8, 0x1f4f) is None);
        assert(fields::fs_lookup(n7, 0x1f4f) is None);
        assert(fields::fs_lookup(n6, 0x1f4f) == (match self.atqa { Some(ref k) => Some(encoding::hex_payload(vstd::utf8::encode_utf8(k@))), None => None })) by { match self.atqa { Some(_) => {}, None => {} } };
        assert(fields::fs_lookup(n5, 0x1f4f) == fields::fs_lookup(n6, 0x1f4f));
        assert(fields::fs_lookup(n4, 0x1f4f) == fields::fs_lookup(n5, 0x1f4f));
        assert(fields::fs_lookup(n3, 0x1f4f) == fields::fs_lookup(n4, 0x1f4f));
        assert(fields::fs_lookup(n2, 0x1f4f) == fields::fs_lookup(n3, 0x1f4f));
        assert(fields::fs_lookup(n1, 0x1f4f) == fields::fs_lookup(n2, 0x1f4f));
        assert(fields::fs_lookup(n0, 0x1f4f) == fields::fs_lookup(n1, 0x1f4f));
        fields::lemma_find_entry_fs(nine, 0x1f50);
        assert(fields::fs_lookup(n9, 0x1f50) is None);
        assert(fields::fs_lookup(n8, 0x1f50) is None);
        assert(fields::fs_lookup(n7, 0x1f50) == opt_u8_region(self.sak)) by { match self.sak { Some(_) => {}, None => {} } };
        assert(fields::fs_lookup(n6, 0x1f50) == fields::fs_lookup(n7, 0x1f50));
        assert(fields::fs_lookup(n5, 0x1f50) == fields::fs_lookup(n6, 0x1f50));
        assert(fields::fs_lookup(n4, 0x1f50) == fields::fs_lookup(n5, 0x1f50));
        assert(fields::fs_lookup(n3, 0x1f50) == fields::fs_lookup(n4, 0x1f50));
        assert(fields::fs_lookup(n2, 0x1f50) == fields::fs_lookup(n3, 0x1f50));
        assert(fields::fs_lookup(n1, 0x1f50) == fields::fs_lookup(n2, 0x1f50));
        assert(fields::fs_lookup(n0, 0x1f50) == fields::fs_lookup(n1, 0x1f50));
        fields::lemma_find_entry_fs(nine, 0x62);
        assert(fields::fs_lookup(n9, 0x62) is None);
        assert(fields::fs_lookup(n8, 0x62) is None);
        assert(fields::fs_lookup(n7, 0x62) == fields::fs_lookup(n8, 0x62));
        assert(fields::fs_lookup(n6, 0x62) == fields::fs_lookup(n7, 0x62));
        assert(fields::fs_lookup(n5, 0x62) == fields::fs_lookup(n6, 0x62));
        assert(fields::fs_lookup(n4, 0x62) == fields::fs_lookup(n5, 0x62));
        assert(fields::fs_lookup(n3, 0x62) == fields::fs_lookup(n4, 0x62));
        assert(fields::fs_lookup(n2, 0x62) == fields::fs_lookup(n3, 0x62));
        assert(fields::fs_lookup(n1, 0x62) == fields::fs_lookup(n2, 0x62));
        assert(fields::fs_lookup(n0, 0x62) == fields::fs_lookup(n1, 0x62));
        fields::lemma_payloads_fs(nine, 0x60);
        assert(fields::fs_payloads(n9, 0x60) =~= Seq::<Seq<u8>>::empty());
        assert(fields::fs_payloads(n8, 0x60) =~= fields::fs_payloads(n9, 0x60));
        assert(fields::fs_payloads(n7, 0x60) =~= fields::fs_payloads(n8, 0x60));
        assert(fields::fs_payloads(n6, 0x60) =~= fields::fs_payloads(n7, 0x60));
        assert(fields::fs_payloads(n5, 0x60) =~= fields::fs_payloads(n6, 0x60));
        assert(fields::fs_payloads(n4, 0x60) =~= fields::fs_payloads(n5, 0x60));
        assert(fields::fs_payloads(n3, 0x60) =~= fields::fs_payloads(n4, 0x60));
        assert(fields::fs_payloads(n2, 0x60) =~= fields::fs_payloads(n3, 0x60));
        assert(fields::fs_payloads(n1, 0x60) =~= fields::fs_payloads(n2, 0x60));
        assert(fields::fs_payloads(n0, 0x60) =~= fields::fs_payloads(n1, 0x60));
        assert(fields::cat_opt_entries(fs) =~= fields::cat_opt_entries(nine));
    }
    /// Decoding reads back exactly what a well-formed block with no
    /// application entries and no nested list serialized to; unknown
    /// tags end the block without error.
    #[verifier::rlimit(100)]
    #[verifier::spinoff_prover]
    pub fn decode_body(bytes: &[u8]) -> (r: ZVTResult<(Self, usize)>)
        ensures
            r matches Ok(v) ==> v.1 <= bytes@.len(),
            forall|v: Self|
                v.wf() && v.subs@.len() == 0 && v.subs_on_card is None && bytes@ == #[trigger] v.body_bytes() ==> (r matches Ok(o) && Self::eqv(o.0, v) && o.1 == bytes@.len()),
    {
        let blen_e = bytes.len();
        proof { assert(bytes@.len() <= usize::MAX); }
        proof {
            assert forall|v: Self| v.wf() && v.subs@.len() == 0 && v.subs_on_card is None && bytes@ == #[trigger] v.body_bytes() implies {
                &&& fields::spec_parse_fields(bytes@, 0, Self::spec_descs(), seq![], seq![]) == Ok::<_, ErrorView>((fields::cat_opt_entries(v.spec_fs()), bytes@.len() as int))
                &&& fields::find_entry(fields::cat_opt_entries(v.spec_fs()), 0x4c) == (match v.uuid { Some(ref k) => Some(encoding::hex_payload(vstd::utf8::encode_utf8(k@))), None => None })
                &&& fields::find_entry(fields::cat_opt_entries(v.spec_fs()), 0x1f0b) == (match v.maximum_pre_autorisation { Some(k) => Some(encoding::bcd_bytes(k as nat)), None => None })
                &&& fields::find_entry(fields::cat_opt_entries(v.spec_fs()), 0x1f14) == (match v.card_identification_item { Some(ref k) => Some(encoding::hex_payload(vstd::utf8::encode_utf8(k@))), None => None })
                &&& fields::find_entry(fields::cat_opt_entries(v.spec_fs()), 0x1f45) == (match v.ats { Some(ref k) => Some(encoding::hex_payload(vstd::utf8::encode_utf8(k@))), None => None })
                &&& fields::find_entry(fields::cat_opt_entries(v.spec_fs()), 0x1f4c) == opt_u8_region(v.card_type)
                &&& fields::find_entry(fields::cat_opt_entries(v.spec_fs()), 0x1f4d) == (match v.sub_type { Some(ref k) => Some(encoding::hex_payload(vstd::utf8::encode_utf8(k@))), None => None })
                &&& fields::find_entry(fields::cat_opt_entries(v.spec_fs()), 0x1f4f) == (match v.atqa { Some(ref k) => Some(encoding::hex_payload(vstd::utf8::encode_utf8(k@))), None => None })
                &&& fields::find_entry(fields::cat_opt_entries(v.spec_fs()), 0x1f50) == opt_u8_region(v.sak)
                &&& fields::find_entry(fields::cat_opt_entries(v.spec_fs()), 0x62) is None
                &&& fields::payloads_of(fields::cat_opt_entries(v.spec_fs()), 0x60) =~= Seq::<Seq<u8>>::empty()
            } by {
                v.lemma_body_parses(bytes@);
            };
        }
        let mut descs: Vec<FieldDesc> = Vec::new();
        descs.push(FieldDesc { tag: 0x4c, len: LengthSpec::Tlv, width: 0, repeatable: false, required: false });
        descs.push(FieldDesc { tag: 0x1f0b, len: LengthSpec::Tlv, width: 0, repeatable: false, required: false });
        descs.push(FieldDesc { tag: 0x1f14, len: LengthSpec::Tlv, width: 0, repeatable: false, required: false });
        descs.push(FieldDesc { tag: 0x1f45, len: LengthSpec::Tlv, width: 0, repeatable: false, required: false });
        descs.push(FieldDesc { tag: 0x1f4c, len: LengthSpec::Tlv, width: 0, repeatable: false, required: false });
        descs.push(FieldDesc { tag: 0x1f4d, len: LengthSpec::Tlv, width: 0, repeatable: false, required: false });
        descs.push(FieldDesc { tag: 0x1f4f, len: LengthSpec::Tlv, width: 0, repeatable: false, required: false });
        descs.push(FieldDesc { tag: 0x1f50, len: LengthSpec::Tlv, width: 0, repeatable: false, required: false });
        descs.push(FieldDesc { tag: 0x60, len: LengthSpec::Tlv, width: 0, repeatable: true, required: false });
        descs.push(FieldDesc { tag: 0x62, len: LengthSpec::Tlv, width: 0, repeatable: false, required: false });
        proof { assert(descs@ =~= StatusInformation::spec_descs()); }
        let (entries, pos) = match fields::parse_tagged_fields(bytes, 0, &descs) { Ok(v) => v, Err(e) => { return Err(e); } };
        let uuid = match fields::entry_opt_string(&entries, 0x4c, true) { Ok(v) => v, Err(e) => { return Err(e); } };
        let maximum_pre_autorisation = fields::entry_opt_usize_bcd(&entries, 0x1f0b);
        let card_identification_item = match fields::entry_opt_string(&entries, 0x1f14, true) { Ok(v) => v, Err(e) => { return Err(e); } };
        let ats = match fields::entry_opt_string(&entries, 0x1f45, true) { Ok(v) => v, Err(e) => { return Err(e); } };
        let card_type = match fields::entry_opt_u8(&entries, 0x1f4c) { Ok(v) => v, Err(e) => { return Err(e); } };
        let sub_type = match fields::entry_opt_string(&entries, 0x1f4d, true) { Ok(v) => v, Err(e) => { return Err(e); } };
        let atqa = match fields::entry_opt_string(&entries, 0x1f4f, true) { Ok(v) => v, Err(e) => { return Err(e); } };
        let sak = match fields::entry_opt_u8(&entries, 0x1f50) { Ok(v) => v, Err(e) => { return Err(e); } };
        let payloads = fields::collect_payloads(&entries, 0x60);
        let subs = match subs_from_payloads(&payloads) {
            Ok(v) => v,
            Err(e) => { return Err(e); },
        };
        let subs_on_card = match fields::find_payload(&entries, 0x62) {
            None => None,
            Some(pl) => match SubsOnCard::decode_body(pl.as_slice()) {
                Ok(v) => Some(v.0),
                Err(e) => { return Err(e); },
            },
        };
        let result = StatusInformation { uuid, maximum_pre_autorisation, card_identification_item, ats, card_type, sub_type, atqa, sak, subs, subs_on_card };
        proof {
            assert forall|v: Self| v.wf() && v.subs@.len() == 0 && v.subs_on_card is None && bytes@ == #[trigger] v.body_bytes() implies Self::eqv(result, v) by {
                match (v.uuid, result.uuid) { (Some(ref kk), Some(ref ss)) => { encoding::lemma_hex_ascii_payload(vstd::utf8::encode_utf8(kk@)); vstd::utf8::encode_utf8_decode_utf8(kk@); vstd::utf8::encode_utf8_decode_utf8(ss@); }, _ => {} }
                match v.maximum_pre_autorisation { Some(kk) => { encoding::lemma_bcd_roundtrip(kk as nat); vstd::arithmetic::div_mod::lemma_small_mod(kk as nat, encoding::usize_mod()); }, None => {} }
                match (v.card_identification_item, result.card_identification_item) { (Some(ref kk), Some(ref ss)) => { encoding::lemma_hex_ascii_payload(vstd::utf8::encode_utf8(kk@)); vstd::utf8::encode_utf8_decode_utf8(kk@); vstd::utf8::encode_utf8_decode_utf8(ss@); }, _ => {} }
                match (v.ats, result.ats) { (Some(ref kk), Some(ref ss)) => { encoding::lemma_hex_ascii_payload(vstd::utf8::encode_utf8(kk@)); vstd::utf8::encode_utf8_decode_utf8(kk@); vstd::utf8::encode_utf8_decode_utf8(ss@); }, _ => {} }
                match (v.sub_type, result.sub_type) { (Some(ref kk), Some(ref ss)) => { encoding::lemma_hex_ascii_payload(vstd::utf8::encode_utf8(kk@)); vstd::utf8::encode_utf8_decode_utf8(kk@); vstd::utf8::encode_utf8_decode_utf8(ss@); }, _ => {} }
                match (v.atqa, result.atqa) { (Some(ref kk), Some(ref ss)) => { encoding::lemma_hex_ascii_payload(vstd::utf8::encode_utf8(kk@)); vstd::utf8::encode_utf8_decode_utf8(kk@); vstd::utf8::encode_utf8_decode_utf8(ss@); }, _ => {} }
                assert(payloads@.map(|k2: int, pl: Vec<u8>| pl@).len() == 0);
                assert(result.subs@.len() == 0);
            };
        }
        Ok((result, pos))
    }
}
/// One print line inside a text block.
#[derive(Debug, PartialEq)]
pub struct ZvtString {
    pub line: String,
}

/// The regions of a run of text lines: each line's raw UTF-8 bytes.
pub open spec fn line_regions(items: Seq<Seq<char>>) -> Seq<Seq<u8>> {
    items.map(|i: int, l: Seq<char>| vstd::utf8::encode_utf8(l))
}

/// The text lines of a receipt block.
#[derive(Debug, PartialEq)]
pub struct TextLines {
    pub lines: Vec<String>,
    pub eol: Option<u8>,
}

impl TextLines {
    pub open spec fn wf(self) -> bool {
        forall|i: int|
            0 <= i < self.lines@.len() ==> vstd::utf8::encode_utf8(
                (#[trigger] self.lines@[i])@,
            ).len() <= 0xffff
    }

    pub open spec fn lines_views(self) -> Seq<Seq<char>> {
        self.lines@.map(|i: int, l: String| l@)
    }

    pub open spec fn spec_fs(self) -> Seq<(u16, LengthSpec, Option<Seq<u8>>)> {
        fields::rep_fs(line_regions(self.lines_views()), 0x07) + seq![
            (0x09u16, LengthSpec::Tlv, opt_u8_region(self.eol)),
        ]
    }

    pub open spec fn body_bytes(self) -> Seq<u8> {
        fields::cat_opt_fields(self.spec_fs())
    }

    pub open spec fn eqv(a: Self, b: Self) -> bool {
        &&& a.lines_views() == b.lines_views()
        &&& a.eol == b.eol
    }

    pub open spec fn spec_descs() -> Seq<FieldDesc> {
        seq![
            FieldDesc { tag: 0x07, len: LengthSpec::Tlv, width: 0, repeatable: true, required: false },
            FieldDesc { tag: 0x09, len: LengthSpec::Tlv, width: 0, repeatable: false, required: false },
        ]
    }

    pub fn encode_body(&self) -> (r: Vec<u8>)
        requires
            self.wf(),
        ensures
            r@ == self.body_bytes(),
    {
        let mut out: Vec<u8> = Vec::new();
        let ghost lv = self.lines_views();
        let mut i: usize = 0;
        proof {
            assert(fields::rep_fs(line_regions(lv.subrange(0, 0)), 0x07) =~= Seq::<
                (u16, LengthSpec, Option<Seq<u8>>),
            >::empty());
            assert(out@ =~= fields::cat_opt_fields(
                fields::rep_fs(line_regions(lv.subrange(0, 0)), 0x07),
            ));
        }
        while i < self.lines.len()
            invariant
                i <= self.lines@.len(),
                self.wf(),
                lv == self.lines_views(),
                out@ == fields::cat_opt_fields(
                    fields::rep_fs(line_regions(lv.subrange(0, i as int)), 0x07),
                ),
            decreases self.lines@.len() - i,
        {
            let region = encoding::str_bytes(self.lines[i].as_str());
            fields::ser_field(&mut out, Some(Tag(0x07)), LengthSpec::Tlv, &region);
            proof {
                let pre = fields::rep_fs(line_regions(lv.subrange(0, i as int)), 0x07);
                let one = fields::rep_fs(line_regions(lv.subrange(i as int, i + 1)), 0x07);
                let cur = fields::rep_fs(line_regions(lv.subrange(0, i + 1)), 0x07);
                assert(cur =~= pre + one);
                fields::lemma_cat_opt_fields_cat(pre, one);
                assert(one =~= seq![
                    (0x07u16, LengthSpec::Tlv, Some(vstd::utf8::encode_utf8(lv[i as int]))),
                ]);
                assert(fields::cat_opt_fields(one) =~= fields::opt_field_bytes(
                    0x07,
                    LengthSpec::Tlv,
                    Some(vstd::utf8::encode_utf8(lv[i as int])),
                )) by {
                    assert(one.drop_first() =~= Seq::<
                        (u16, LengthSpec, Option<Seq<u8>>),
                    >::empty());
                    assert(fields::cat_opt_fields(
                        Seq::<(u16, LengthSpec, Option<Seq<u8>>)>::empty(),
                    ) =~= Seq::<u8>::empty());
                };
                assert(out@ =~= fields::cat_opt_fields(cur));
            }
            i = i + 1;
        }
        proof {
            assert(lv.subrange(0, lv.len() as int) =~= lv);
        }
        match self.eol {
            Some(x) => {
                let region = encoding::enc_u8(x);
                fields::ser_field(&mut out, Some(Tag(0x09)), LengthSpec::Tlv, &region);
            },
            None => {},
        }
        proof {
            let a = fields::rep_fs(line_regions(lv), 0x07);
            let b: Seq<(u16, LengthSpec, Option<Seq<u8>>)> = seq![
                (0x09u16, LengthSpec::Tlv, opt_u8_region(self.eol)),
            ];
            fields::lemma_cat_opt_fields_cat(a, b);
            assert(fields::cat_opt_fields(b) =~= fields::opt_field_bytes(
                0x09,
                LengthSpec::Tlv,
                opt_u8_region(self.eol),
            )) by {
                assert(b.drop_first() =~= Seq::<(u16, LengthSpec, Option<Seq<u8>>)>::empty());
                assert(fields::cat_opt_fields(
                    Seq::<(u16, LengthSpec, Option<Seq<u8>>)>::empty(),
                ) =~= Seq::<u8>::empty());
            };
            assert(out@ =~= self.body_bytes());
        }
        out
    }

    /// A well-formed block is read back line for line.
    pub proof fn lemma_body_parses(self, s: Seq<u8>)
        requires
            self.wf(),
            s == self.body_bytes(),
            s.len() <= usize::MAX,
        ensures
            fields::spec_parse_fields(s, 0, Self::spec_descs(), seq![], seq![]) == Ok::<
                _,
                ErrorView,
            >((fields::cat_opt_entries(self.spec_fs()), s.len() as int)),
            fields::payloads_of(fields::cat_opt_entries(self.spec_fs()), 0x07) == line_regions(
                self.lines_views(),
            ),
            fields::find_entry(fields::cat_opt_entries(self.spec_fs()), 0x09) == opt_u8_region(
                self.eol,
            ),
    {
        let ds = Self::spec_descs();
        let fs = self.spec_fs();
        let a = fields::rep_fs(line_regions(self.lines_views()), 0x07);
        let b: Seq<(u16, LengthSpec, Option<Seq<u8>>)> = seq![
            (0x09u16, LengthSpec::Tlv, opt_u8_region(self.eol)),
        ];
        assert(s.subrange(0, fields::cat_opt_fields(fs).len() as int) =~= fields::cat_opt_fields(
            fs,
        ));
        fields::lemma_low5(0x07);
        fields::lemma_low5(0x09);
        assert(ds.drop_first() =~= seq![ds[1]]);
        assert(seq![ds[1]].drop_first() =~= Seq::<FieldDesc>::empty());
        assert(fields::find_desc(ds.drop_first(), 0x09) == Some(ds[1])) by {
            assert(ds.drop_first()[0] == ds[1]);
        };
        assert(fields::fs_ok(fs, ds, seq![])) by {
            assert forall|j: int| 0 <= j < fs.len() && (#[trigger] fs[j]).2 is Some implies {
                &&& encoding::tag_wf(fs[j].0)
                &&& fields::find_desc(ds, fs[j].0) matches Some(d) && d.len == fs[j].1
                    && fields::region_wf(d.len, d.width as int, fs[j].2.unwrap().len() as int) && (
                d.repeatable || (!seq![].contains(fs[j].0) && forall|i: int|
                    0 <= i < j ==> (#[trigger] fs[i]).0 != fs[j].0))
            } by {
                if j < a.len() {
                    assert(fs[j] == a[j]);
                    assert(fs[j].0 == 0x07);
                    assert(fs[j].2 == Some(
                        vstd::utf8::encode_utf8(self.lines_views()[j]),
                    ));
                } else {
                    assert(fs[j] == b[j - a.len() as int]);
                    assert forall|i: int| 0 <= i < j implies (#[trigger] fs[i]).0 != fs[j].0 by {
                        if i < a.len() {
                            assert(fs[i] == a[i]);
                        }
                    };
                }
            };
        };
        fields::lemma_parse_cat(s, 0, ds, seq![], seq![], fs);
        fields::lemma_parse_fields_stop(
            s,
            s.len() as int,
            ds,
            seq![] + fields::present_tags(fs),
            seq![] + fields::cat_opt_entries(fs),
        );
        fields::lemma_finish_ok(
            ds,
            seq![] + fields::present_tags(fs),
            seq![] + fields::cat_opt_entries(fs),
            s.len() as int,
        );
        assert(seq![] + fields::cat_opt_entries(fs) =~= fields::cat_opt_entries(fs));
        fields::lemma_payloads_fs(fs, 0x07);
        fields::lemma_fs_payloads_cat(a, b, 0x07);
        fields::lemma_rep_fs(line_regions(self.lines_views()), 0x07);
        assert(fields::fs_payloads(b, 0x07) =~= Seq::<Seq<u8>>::empty()) by {
            assert(b[0] == (0x09u16, LengthSpec::Tlv, opt_u8_region(self.eol)));
            assert(b.drop_first() =~= Seq::<(u16, LengthSpec, Option<Seq<u8>>)>::empty());
            assert(fields::fs_payloads(
                Seq::<(u16, LengthSpec, Option<Seq<u8>>)>::empty(),
                0x07,
            ) =~= Seq::<Seq<u8>>::empty());
            match self.eol {
                Some(_) => {},
                None => {},
            }
        };
        assert(fields::fs_payloads(fs, 0x07) =~= line_regions(self.lines_views()));
        fields::lemma_find_entry_fs(fs, 0x09);
        fields::lemma_fs_lookup_cat(a, b, 0x09);
        assert(fields::fs_lookup(b, 0x09) == opt_u8_region(self.eol)) by {
            assert(b[0] == (0x09u16, LengthSpec::Tlv, opt_u8_region(self.eol)));
            assert(b.drop_first() =~= Seq::<(u16, LengthSpec, Option<Seq<u8>>)>::empty());
            assert(fields::fs_lookup(
                Seq::<(u16, LengthSpec, Option<Seq<u8>>)>::empty(),
                0x09,
            ) is None);
            match self.eol {
                Some(_) => {},
                None => {},
            }
        };
    }

    /// Decoding reads back exactly what a well-formed block serialized to.
    pub fn decode_body(bytes: &[u8]) -> (r: ZVTResult<(Self, usize)>)
        ensures
            r matches Ok(v) ==> v.1 <= bytes@.len(),
            forall|v: Self|
                v.wf() && bytes@ == #[trigger] v.body_bytes() ==> (r matches Ok(o) && Self::eqv(
                    o.0,
                    v,
                ) && o.1 == bytes@.len()),
    {
        let blen_e = bytes.len();
        proof {
            assert(bytes@.len() <= usize::MAX);
        }
        proof {
            assert forall|v: Self| v.wf() && bytes@ == #[trigger] v.body_bytes() implies {
                &&& fields::spec_parse_fields(bytes@, 0, Self::spec_descs(), seq![], seq![])
                    == Ok::<_, ErrorView>(
                    (fields::cat_opt_entries(v.spec_fs()), bytes@.len() as int),
                )
                &&& fields::payloads_of(fields::cat_opt_entries(v.spec_fs()), 0x07)
                    == line_regions(v.lines_views())
                &&& fields::find_entry(fields::cat_opt_entries(v.spec_fs()), 0x09)
                    == opt_u8_region(v.eol)
            } by {
                v.lemma_body_parses(bytes@);
            };
        }
        let mut descs: Vec<FieldDesc> = Vec::new();
        descs.push(
            FieldDesc { tag: 0x07, len: LengthSpec::Tlv, width: 0, repeatable: true, required: false },
        );
        descs.push(
            FieldDesc { tag: 0x09, len: LengthSpec::Tlv, width: 0, repeatable: false, required: false },
        );
        proof {
            assert(descs@ =~= TextLines::spec_descs());
        }
        let (entries, pos) = match fields::parse_tagged_fields(bytes, 0, &descs) {
            Ok(v) => v,
            Err(e) => {
                return Err(e);
            },
        };
        let payloads = fields::collect_payloads(&entries, 0x07);
        let mut lines: Vec<String> = Vec::new();
        let mut i: usize = 0;
        while i < payloads.len()
            invariant
                i <= payloads@.len(),
                lines@.len() == i,
                forall|j: int|
                    0 <= j < i ==> vstd::utf8::encode_utf8((#[trigger] lines@[j])@)
                        == payloads@[j]@,
                forall|v: TextLines|
                    v.wf() && bytes@ == #[trigger] v.body_bytes() ==> payloads@.map(
                        |k: int, pl: Vec<u8>| pl@,
                    ) == line_regions(v.lines_views()),
            decreases payloads@.len() - i,
        {
            let pl = &payloads[i];
            match encoding::dec_string(pl.as_slice(), 0, pl.len()) {
                Ok((t, _)) => {
                    proof {
                        assert(pl@.subrange(0, pl@.len() as int) =~= pl@);
                    }
                    lines.push(t);
                },
                Err(e) => {
                    proof {
                        assert(payloads@[i as int]@.subrange(
                            0,
                            payloads@[i as int]@.len() as int,
                        ) =~= payloads@[i as int]@);
                        assert forall|v: TextLines|
                            v.wf() && bytes@ == #[trigger] v.body_bytes() implies false by {
                            assert(payloads@.map(|k: int, pl2: Vec<u8>| pl2@)[i as int]
                                == line_regions(v.lines_views())[i as int]);
                            assert(payloads@[i as int]@ == vstd::utf8::encode_utf8(
                                v.lines_views()[i as int],
                            ));
                            vstd::utf8::encode_utf8_valid_utf8(v.lines_views()[i as int]);
                        };
                    }
                    return Err(e);
                },
            }
            i = i + 1;
        }
        let eol = match fields::entry_opt_u8(&entries, 0x09) {
            Ok(v) => v,
            Err(e) => {
                return Err(e);
            },
        };
        let result = TextLines { lines, eol };
        proof {
            assert forall|v: TextLines|
                v.wf() && bytes@ == #[trigger] v.body_bytes() implies Self::eqv(result, v) by {
                assert(payloads@.map(|k: int, pl: Vec<u8>| pl@) == line_regions(v.lines_views()));
                assert(result.lines_views().len() == v.lines_views().len());
                assert forall|j: int| 0 <= j < result.lines_views().len() implies (
                #[trigger] result.lines_views()[j]) == v.lines_views()[j] by {
                    assert(payloads@.map(|k: int, pl: Vec<u8>| pl@)[j] == line_regions(
                        v.lines_views(),
                    )[j]);
                    assert(vstd::utf8::encode_utf8(result.lines@[j]@) == vstd::utf8::encode_utf8(
                        v.lines_views()[j],
                    ));
                    vstd::utf8::encode_utf8_decode_utf8(result.lines@[j]@);
                    vstd::utf8::encode_utf8_decode_utf8(v.lines_views()[j]);
                };
                assert(result.lines_views() =~= v.lines_views());
            };
        }
        Ok((result, pos))
    }
}

/// TLV block of a PrintTextBlock: the receipt kind and its lines.
#[derive(Debug, PartialEq)]
pub struct PrintTextBlock {
    pub receipt_type: Option<u8>,
    pub lines: Option<TextLines>,
}

impl PrintTextBlock {
    pub open spec fn wf(self) -> bool {
        &&& (match self.lines { Some(ref k) => k.wf() && k.body_bytes().len() <= 0xffff, None => true })
    }

    pub open spec fn spec_fs(self) -> Seq<(u16, LengthSpec, Option<Seq<u8>>)> {
        seq![
            (0x1f07u16, LengthSpec::Tlv, crate::packets::tlv::opt_u8_region(self.receipt_type)),
            (0x25u16, LengthSpec::Tlv, (match self.lines { Some(ref k) => Some(k.body_bytes()), None => None })),
        ]
    }

    pub open spec fn body_bytes(self) -> Seq<u8> {
        fields::cat_opt_fields(self.spec_fs())
    }

    pub open spec fn spec_descs() -> Seq<FieldDesc> {
        seq![
            FieldDesc { tag: 0x1f07, len: LengthSpec::Tlv, width: 0, repeatable: false, required: false },
            FieldDesc { tag: 0x25, len: LengthSpec::Tlv, width: 0, repeatable: false, required: false },
        ]
    }

    fn descs() -> (r: Vec<FieldDesc>)
        ensures r@ == Self::spec_descs(),
    {
        let mut v: Vec<FieldDesc> = Vec::new();
        v.push(FieldDesc { tag: 0x1f07, len: LengthSpec::Tlv, width: 0, repeatable: false, required: false });
        v.push(FieldDesc { tag: 0x25, len: LengthSpec::Tlv, width: 0, repeatable: false, required: false });
        proof { assert(v@ =~= Self::spec_descs()); }
        v
    }

    proof fn lemma_meta(self)
        ensures
            fields::find_desc(Self::spec_descs(), 0x1f07) == Some(Self::spec_descs()[0]),
            encoding::tag_wf(0x1f07),
            fields::fs_lookup(self.spec_fs(), 0x1f07) == crate::packets::tlv::opt_u8_region(self.receipt_type),
            fields::find_desc(Self::spec_descs(), 0x25) == Some(Self::spec_descs()[1]),
            encoding::tag_wf(0x25),
            fields::fs_lookup(self.spec_fs(), 0x25) == (match self.lines { Some(ref k) => Some(k.body_bytes()), None => None }),
    {
        let ds = Self::spec_descs();
        let fs = self.spec_fs();
        let ds0 = ds; let fs0 = fs;
        let ds1 = ds0.drop_first(); let fs1 = fs0.drop_first();
        let ds2 = ds1.drop_first(); let fs2 = fs1.drop_first();
        assert(ds0[0] == ds[0]); assert(fs0[0] == fs[0]);
        assert(ds0.len() == 2); assert(fs0.len() == 2);
        assert(ds1[0] == ds[1]); assert(fs1[0] == fs[1]);
        assert(ds1.len() == 1); assert(fs1.len() == 1);
        assert(ds2 =~= Seq::<FieldDesc>::empty()); assert(fs2 =~= Seq::<(u16, LengthSpec, Option<Seq<u8>>)>::empty());
        fields::lemma_low5(0x1f);
        assert((0x1f07u16 / 256) as u8 == 0x1f);
        fields::lemma_low5(0x25);
        assert(fields::find_desc(ds0, 0x1f07) == Some(ds[0]));
        assert(fields::find_desc(ds1, 0x25) == Some(ds[1]));
        assert(fields::find_desc(ds0, 0x25) == fields::find_desc(ds1, 0x25));
        assert(fields::fs_lookup(fs2, 0x1f07) == None::<Seq<u8>>);
        assert(fields::fs_lookup(fs1, 0x1f07) == None::<Seq<u8>>);
        assert(fields::fs_lookup(fs0, 0x1f07) == crate::packets::tlv::opt_u8_region(self.receipt_type)) by { match self.receipt_type { _ => {} } };
        assert(fields::fs_lookup(fs2, 0x25) == None::<Seq<u8>>);
        assert(fields::fs_lookup(fs1, 0x25) == (match self.lines { Some(ref k) => Some(k.body_bytes()), None => None })) by { match self.lines { _ => {} } };
        assert(fields::fs_lookup(fs0, 0x25) == fields::fs_lookup(fs1, 0x25));
    }

    pub proof fn lemma_body_parses(self, s: Seq<u8>)
        requires self.wf(), s == self.body_bytes(), s.len() <= usize::MAX,
        ensures
            fields::spec_parse_fields(s, self.pos_len(), Self::spec_descs(), seq![], seq![]) == Ok::<_, ErrorView>((fields::cat_opt_entries(self.spec_fs()), s.len() as int)),
            self.pos_len() + fields::cat_opt_fields(self.spec_fs()).len() == s.len(),
    {
        let ds = Self::spec_descs();
        let fs = self.spec_fs();
        self.lemma_meta();
        let p0 = self.pos_len();
        assert(p0 == 0);
        assert(s.subrange(0, fields::cat_opt_fields(fs).len() as int) =~= fields::cat_opt_fields(fs));
        assert(fields::fs_ok(fs, ds, seq![])) by {
            assert forall|j: int| 0 <= j < fs.len() && (#[trigger] fs[j]).2 is Some implies {
                &&& encoding::tag_wf(fs[j].0)
                &&& fields::find_desc(ds, fs[j].0) matches Some(d) && d.len == fs[j].1 && fields::region_wf(d.len, d.width as int, fs[j].2.unwrap().len() as int) && (d.repeatable || (!seq![].contains(fs[j].0) && forall|i: int| 0 <= i < j ==> (#[trigger] fs[i]).0 != fs[j].0))
            } by {
                if j == 0 { assert(fs[0].0 == 0x1f07); }
                if j == 1 { assert(fs[1].0 == 0x25); }
            };
        };
        fields::lemma_parse_cat(s, p0, ds, seq![], seq![], fs);
        fields::lemma_parse_fields_stop(s, s.len() as int, ds, seq![] + fields::present_tags(fs), seq![] + fields::cat_opt_entries(fs));
        let seen = seq![] + fields::present_tags(fs);
        assert(seen =~= fields::present_tags(fs));
        assert forall|kk: int| 0 <= kk < ds.len() implies !(#[trigger] ds[kk]).required || seen.contains(ds[kk].tag) by {
            if kk == 0 { assert(!ds[0].required); }
            if kk == 1 { assert(!ds[1].required); }
        };
        fields::lemma_finish_ok(ds, seen, seq![] + fields::cat_opt_entries(fs), s.len() as int);
        assert(seq![] + fields::cat_opt_entries(fs) =~= fields::cat_opt_entries(fs));
    }

    pub open spec fn pos_len(self) -> int {
        0
    }

    pub open spec fn eqv(a: Self, b: Self) -> bool {
        &&& a.receipt_type == b.receipt_type
        &&& (match (a.lines, b.lines) { (Some(x), Some(y)) => TextLines::eqv(x, y), (None, None) => true, _ => false })
    }

    pub fn encode_body(&self) -> (r: Vec<u8>)
        requires self.wf(),
        ensures r@ == self.body_bytes(),
    {
        let ghost gfs = self.spec_fs();
        let mut out: Vec<u8> = Vec::new();
        match self.receipt_type { Some(k) => { let region = encoding::enc_u8(k); fields::ser_field(&mut out, Some(Tag(0x1f07)), LengthSpec::Tlv, &region); }, None => {} }
        proof { assert(out@ =~= fields::opt_field_bytes(gfs[0].0, gfs[0].1, gfs[0].2)); }
        match self.lines { Some(ref k) => { let region = k.encode_body(); fields::ser_field(&mut out, Some(Tag(0x25)), LengthSpec::Tlv, &region); }, None => {} }
        proof { assert(out@ =~= fields::opt_field_bytes(gfs[0].0, gfs[0].1, gfs[0].2) + fields::opt_field_bytes(gfs[1].0, gfs[1].1, gfs[1].2)); }
        proof {
            self.lemma_meta();
            let fs = self.spec_fs();
        let fs0 = fs;
        let fs1 = fs0.drop_first();
        let fs2 = fs1.drop_first();
        assert(fields::cat_opt_fields(fs0) == fields::opt_field_bytes(fs0[0].0, fs0[0].1, fs0[0].2) + fields::cat_opt_fields(fs1)); assert(fs0[0] == fs[0]);
        assert(fields::cat_opt_fields(fs1) == fields::opt_field_bytes(fs1[0].0, fs1[0].1, fs1[0].2) + fields::cat_opt_fields(fs2)); assert(fs1[0] == fs[1]);
        assert(fields::cat_opt_fields(fs2) =~= Seq::<u8>::empty());
            assert(out@ =~= self.body_bytes());
        }
        out
    }

    pub fn decode_body(bytes: &[u8]) -> (r: ZVTResult<(Self, usize)>)
        ensures
            r matches Ok(v) ==> v.1 <= bytes@.len(),
            forall|v: Self|
                v.wf() && (true) && bytes@ == #[trigger] v.body_bytes() ==> (r matches Ok(o) && PrintTextBlock::eqv(o.0, v)
                    && o.1 == bytes@.len()),
    {
        let blen_e = bytes.len();
        proof { assert(bytes@.len() <= usize::MAX); }
        proof {
            assert forall|v: Self| v.wf() && (true) && bytes@ == #[trigger] v.body_bytes() implies PrintTextBlock::master_facts(v, bytes@) by { PrintTextBlock::lemma_master(v, bytes@); };
        }
        let mut p: usize = 0;
        let descs = Self::descs();
        let parsed = fields::parse_tagged_fields(bytes, p, &descs);
        let (entries, pos_end) = match parsed { Ok(v) => v, Err(e) => { return Err(e); } };
        let f_receipt_type = match fields::entry_opt_u8(&entries, 0x1f07) { Ok(v) => v, Err(e) => { return Err(e); } };
        let f_lines = match fields::find_payload(&entries, 0x25) { None => None, Some(pl) => match TextLines::decode_body(pl.as_slice()) { Ok(v) => Some(v.0), Err(e) => { return Err(e); } } };
        let result = Self {
            receipt_type: f_receipt_type,
            lines: f_lines,
        };
        proof {
            assert forall|v: Self| v.wf() && (true) && bytes@ == #[trigger] v.body_bytes() implies PrintTextBlock::eqv(result, v) by {
                PrintTextBlock::lemma_master(v, bytes@);
                match v.lines { Some(ref kk) => { assert(kk.wf()); }, None => {} }
            };
        }
        Ok((result, pos_end))
    }

    pub open spec fn master_facts(v: Self, s: Seq<u8>) -> bool {
        &&& fields::spec_parse_fields(s, v.pos_len(), Self::spec_descs(), seq![], seq![]) == Ok::<_, ErrorView>((fields::cat_opt_entries(v.spec_fs()), s.len() as int))
        &&& fields::find_entry(fields::cat_opt_entries(v.spec_fs()), 0x1f07) == crate::packets::tlv::opt_u8_region(v.receipt_type)
        &&& fields::find_entry(fields::cat_opt_entries(v.spec_fs()), 0x25) == (match v.lines { Some(ref k) => Some(k.body_bytes()), None => None })
    }

    pub proof fn lemma_master(v: Self, s: Seq<u8>)
        requires v.wf(), (true), s == v.body_bytes(), s.len() <= usize::MAX,
        ensures Self::master_facts(v, s),
    {
        v.lemma_meta();
        v.lemma_body_parses(s);
        let fs = v.spec_fs();
        let g0 = fs;
        let g1 = g0.drop_first();
        let g2 = g1.drop_first();
        assert(fields::cat_opt_fields(g0) == fields::opt_field_bytes(g0[0].0, g0[0].1, g0[0].2) + fields::cat_opt_fields(g1)); assert(g0[0] == fs[0]);
        assert(fields::cat_opt_fields(g1) == fields::opt_field_bytes(g1[0].0, g1[0].1, g1[0].2) + fields::cat_opt_fields(g2)); assert(g1[0] == fs[1]);
        assert(fields::cat_opt_fields(g2) =~= Seq::<u8>::empty());
        fields::lemma_find_entry_fs(fs, 0x1f07);
        fields::lemma_find_entry_fs(fs, 0x25);
    }
}

} // verus!
