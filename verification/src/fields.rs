//! Tagged fields: the `<TAG> <LENGTH> <DATA>` building block of every
//! packet, and the decoder loop that reads a packet's tagged section.
//!
//! A packet is a run of untagged (positional) fields followed by tagged
//! fields in any order. Each tagged field of a packet is described by a
//! [`FieldDesc`]; the decoder walks the input, matches each tag it finds
//! against the descriptors, delimits the field's payload and collects
//! `(tag, payload)` entries until the input ends, an unknown tag appears, or
//! an error is found. Required tags that never appeared are reported sorted.

use crate::encoding;
use crate::errors::ZVTError;
use crate::errors::ZVTResult;
use crate::length;
use crate::Tag;
use vstd::prelude::*;

verus! {

/// How a tagged field's payload is delimited.
#[derive(Debug, Clone, Copy, PartialEq, Eq, Structural)]
pub enum LengthSpec {
    /// No length bytes: the payload width is implied by the value.
    Unprefixed,
    /// No length bytes: exactly this many payload bytes, zero-padded in
    /// front by the serializer.
    Fixed(usize),
    /// A TLV length prefix.
    Tlv,
    /// This many decimal digit bytes as a length prefix.
    Llv(usize),
    /// An ADPU length prefix.
    Adpu,
}

/// One tagged field of a packet.
#[derive(Debug, Clone, Copy, PartialEq, Eq, Structural)]
pub struct FieldDesc {
    pub tag: u16,
    pub len: LengthSpec,
    /// Payload width of an `Unprefixed` field.
    pub width: usize,
    /// A repeatable tag collects one entry per occurrence.
    pub repeatable: bool,
    /// A required tag that never appears fails the decode.
    pub required: bool,
}

/// Codec errors as the specification speaks of them: the missing-tags list
/// as a plain sequence.
pub ghost enum ErrorView {
    Incomplete,
    Missing(Seq<u16>),
    NonImplemented,
    WrongTag(u16),
    Duplicate(u16),
    Aborted(u8),
}

pub open spec fn error_view(e: ZVTError) -> ErrorView {
    match e {
        ZVTError::IncompleteData => ErrorView::Incomplete,
        ZVTError::MissingRequiredTags(v) => ErrorView::Missing(v@.map(|i: int, t: Tag| t.0)),
        ZVTError::NonImplemented => ErrorView::NonImplemented,
        ZVTError::WrongTag(t) => ErrorView::WrongTag(t.0),
        ZVTError::DuplicateTag(t) => ErrorView::Duplicate(t.0),
        ZVTError::Aborted(c) => ErrorView::Aborted(c),
    }
}

// --- The bytes of one field -------------------------------------------------

/// The length bytes a field writes in front of a payload region of `n`
/// bytes. For `Fixed` the zero padding is part of the region itself.
pub open spec fn len_prefix_bytes(len: LengthSpec, n: int) -> Seq<u8> {
    match len {
        LengthSpec::Unprefixed => seq![],
        LengthSpec::Fixed(_) => seq![],
        LengthSpec::Tlv => length::tlv_len_bytes(n),
        LengthSpec::Llv(d) => length::llv_len_bytes(d as nat, n),
        LengthSpec::Adpu => length::adpu_len_bytes(n),
    }
}

/// When a payload region fits its length form.
pub open spec fn region_wf(len: LengthSpec, width: int, n: int) -> bool {
    match len {
        LengthSpec::Unprefixed => n == width,
        LengthSpec::Fixed(k) => n == k,
        LengthSpec::Tlv => n <= 0xffff,
        LengthSpec::Llv(d) => n < length::pow10(d as nat) && d <= 8,
        LengthSpec::Adpu => n <= 0xffff,
    }
}

/// The bytes of one field: tag (if any), length prefix, payload region.
pub open spec fn field_bytes(tag: Option<u16>, len: LengthSpec, region: Seq<u8>) -> Seq<u8> {
    let t = match tag {
        Some(t) => encoding::tag_std_bytes(t),
        None => seq![],
    };
    t + len_prefix_bytes(len, region.len() as int) + region
}

/// Appends one field to `out`: optional tag, length prefix, then the
/// payload region (already padded for `Fixed`).
pub fn ser_field(out: &mut Vec<u8>, tag: Option<Tag>, len: LengthSpec, region: &Vec<u8>)
    requires
        match len {
            LengthSpec::Tlv => region@.len() <= 0xffff,
            LengthSpec::Adpu => region@.len() <= 0xffff,
            _ => true,
        },
    ensures
        final(out)@ == old(out)@ + field_bytes(
            match tag {
                Some(t) => Some(t.0),
                None => None,
            },
            len,
            region@,
        ),
{
    let ghost out0 = out@;
    let ghost tagspec = match tag {
        Some(t) => Some(t.0),
        None => None::<u16>,
    };
    match tag {
        Some(t) => {
            let mut tb = encoding::enc_tag_std(t);
            out.append(&mut tb);
        },
        None => {},
    }
    let n = region.len();
    match len {
        LengthSpec::Unprefixed => {},
        LengthSpec::Fixed(_) => {},
        LengthSpec::Tlv => {
            let mut lb = length::Tlv::serialize(n);
            out.append(&mut lb);
        },
        LengthSpec::Llv(d) => {
            let mut lb = length::LlvImpl::serialize(d, n);
            out.append(&mut lb);
        },
        LengthSpec::Adpu => {
            let mut lb = length::Adpu::serialize(n);
            out.append(&mut lb);
        },
    }
    let mut rb: Vec<u8> = vstd::slice::slice_to_vec(region.as_slice());
    out.append(&mut rb);
    proof {
        assert(out@ =~= out0 + field_bytes(tagspec, len, region@));
    }
}

/// Pads a payload with leading zero bytes up to the fixed width `n`.
pub fn pad_fixed(payload: Vec<u8>, n: usize) -> (r: Vec<u8>)
    requires
        payload@.len() <= n,
    ensures
        r@ == length::fixed_len_bytes(n as int, payload@.len() as int) + payload@,
        r@.len() == n,
{
    let mut r = length::Fixed::serialize(n, payload.len());
    let mut p = payload;
    r.append(&mut p);
    r
}

// --- Delimiting one field's payload region ----------------------------------

/// Where a field's payload region lies, given the cursor right after its
/// tag: `Ok((start, end))`, or the error of the length form.
pub open spec fn spec_region(s: Seq<u8>, p: int, len: LengthSpec, width: int) -> ZVTResult<
    (usize, usize),
> {
    match len {
        LengthSpec::Unprefixed => {
            if p + width <= s.len() {
                Ok((p as usize, (p + width) as usize))
            } else {
                Err(ZVTError::IncompleteData)
            }
        },
        LengthSpec::Fixed(k) => {
            if p + k <= s.len() {
                Ok((p as usize, (p + k) as usize))
            } else {
                Err(ZVTError::IncompleteData)
            }
        },
        LengthSpec::Tlv => {
            match length::tlv_parse_len(s, p) {
                Ok((l, q)) => {
                    if q + l <= s.len() {
                        Ok((q, (q + l) as usize))
                    } else {
                        Err(ZVTError::IncompleteData)
                    }
                },
                Err(e) => Err(e),
            }
        },
        LengthSpec::Llv(d) => {
            match length::llv_parse_len(s, p, d as nat) {
                Ok((l, q)) => {
                    if q + l <= s.len() {
                        Ok((q, (q + l) as usize))
                    } else {
                        Err(ZVTError::IncompleteData)
                    }
                },
                Err(e) => Err(e),
            }
        },
        LengthSpec::Adpu => {
            match length::adpu_parse_len(s, p) {
                Ok((l, q)) => {
                    if q + l <= s.len() {
                        Ok((q, (q + l) as usize))
                    } else {
                        Err(ZVTError::IncompleteData)
                    }
                },
                Err(e) => Err(e),
            }
        },
    }
}

pub fn region(bytes: &[u8], p: usize, len: LengthSpec, width: usize) -> (r: ZVTResult<
    (usize, usize),
>)
    requires
        p <= bytes@.len(),
        match len {
            LengthSpec::Llv(d) => d <= 8,
            _ => true,
        },
    ensures
        r == spec_region(bytes@, p as int, len, width as int),
        r matches Ok(v) ==> p <= v.0 <= v.1 <= bytes@.len(),
{
    match len {
        LengthSpec::Unprefixed => {
            if bytes.len() - p >= width {
                Ok((p, p + width))
            } else {
                Err(ZVTError::IncompleteData)
            }
        },
        LengthSpec::Fixed(k) => {
            if bytes.len() - p >= k {
                Ok((p, p + k))
            } else {
                Err(ZVTError::IncompleteData)
            }
        },
        LengthSpec::Tlv => {
            match length::Tlv::deserialize(bytes, p) {
                Ok((l, q)) => {
                    if bytes.len() - q >= l {
                        Ok((q, q + l))
                    } else {
                        Err(ZVTError::IncompleteData)
                    }
                },
                Err(e) => Err(e),
            }
        },
        LengthSpec::Llv(d) => {
            match length::LlvImpl::deserialize(bytes, p, d) {
                Ok((l, q)) => {
                    if bytes.len() - q >= l {
                        Ok((q, q + l))
                    } else {
                        Err(ZVTError::IncompleteData)
                    }
                },
                Err(e) => Err(e),
            }
        },
        LengthSpec::Adpu => {
            match length::Adpu::deserialize(bytes, p) {
                Ok((l, q)) => {
                    if bytes.len() - q >= l {
                        Ok((q, q + l))
                    } else {
                        Err(ZVTError::IncompleteData)
                    }
                },
                Err(e) => Err(e),
            }
        },
    }
}

// --- The tagged-section decoder ----------------------------------------------

/// The first descriptor carrying this tag.
pub open spec fn find_desc(descs: Seq<FieldDesc>, t: u16) -> Option<FieldDesc>
    decreases descs.len(),
{
    if descs.len() == 0 {
        None
    } else if descs[0].tag == t {
        Some(descs[0])
    } else {
        find_desc(descs.drop_first(), t)
    }
}

/// The required tags that were never seen, in descriptor order.
pub open spec fn missing_tags(descs: Seq<FieldDesc>, seen: Seq<u16>) -> Seq<u16>
    decreases descs.len(),
{
    if descs.len() == 0 {
        seq![]
    } else {
        let rest = missing_tags(descs.drop_last(), seen);
        if descs.last().required && !seen.contains(descs.last().tag) {
            rest + seq![descs.last().tag]
        } else {
            rest
        }
    }
}

/// Insertion before the first element that is not smaller.
pub open spec fn insert_sorted(x: u16, s: Seq<u16>) -> Seq<u16>
    decreases s.len(),
{
    if s.len() == 0 {
        seq![x]
    } else if x <= s[0] {
        seq![x] + s
    } else {
        seq![s[0]] + insert_sorted(x, s.drop_first())
    }
}

/// The tags in ascending order.
pub open spec fn sort_tags(s: Seq<u16>) -> Seq<u16>
    decreases s.len(),
{
    if s.len() == 0 {
        seq![]
    } else {
        insert_sorted(s.last(), sort_tags(s.drop_last()))
    }
}

/// End of the tagged section at position `i`: either every required tag was
/// seen and the entries are returned, or the missing tags are reported
/// sorted ascending.
pub open spec fn finish_parse(
    descs: Seq<FieldDesc>,
    seen: Seq<u16>,
    entries: Seq<(u16, Seq<u8>)>,
    i: int,
) -> Result<(Seq<(u16, Seq<u8>)>, int), ErrorView> {
    let m = sort_tags(missing_tags(descs, seen));
    if m.len() == 0 {
        Ok((entries, i))
    } else {
        Err(ErrorView::Missing(m))
    }
}

/// One `(tag, payload region)` entry per tagged field found, in wire order.
///
/// The walk stops without error at the end of the input, at bytes that do
/// not read as a tag, and at a tag no descriptor carries; the rest of the
/// input is then the remainder. A tag seen twice is an error unless its
/// descriptor is repeatable. A repeatable field whose payload cannot be
/// delimited ends the walk at that field's tag. Missing required tags fail
/// the whole parse.
pub open spec fn spec_parse_fields(
    s: Seq<u8>,
    i: int,
    descs: Seq<FieldDesc>,
    seen: Seq<u16>,
    entries: Seq<(u16, Seq<u8>)>,
) -> Result<(Seq<(u16, Seq<u8>)>, int), ErrorView>
    decreases s.len() - i,
{
    if i < 0 || i >= s.len() {
        finish_parse(descs, seen, entries, i)
    } else {
        match encoding::tag_std_parse(s, i) {
            Err(_) => finish_parse(descs, seen, entries, i),
            Ok((t, p)) => match find_desc(descs, t) {
                None => finish_parse(descs, seen, entries, i),
                Some(d) => {
                    if seen.contains(t) && !d.repeatable {
                        Err(ErrorView::Duplicate(t))
                    } else {
                        match spec_region(s, p as int, d.len, d.width as int) {
                            Err(e) => {
                                if d.repeatable {
                                    finish_parse(descs, seen.push(t), entries, i)
                                } else {
                                    Err(error_view(e))
                                }
                            },
                            Ok((ps, pe)) => {
                                if i < pe <= s.len() {
                                    spec_parse_fields(
                                        s,
                                        pe as int,
                                        descs,
                                        seen.push(t),
                                        entries.push((t, s.subrange(ps as int, pe as int))),
                                    )
                                } else {
                                    finish_parse(descs, seen, entries, i)
                                }
                            },
                        }
                    }
                },
            },
        }
    }
}

/// The entries with the payloads as sequences.
pub open spec fn entries_view(v: Seq<(u16, Vec<u8>)>) -> Seq<(u16, Seq<u8>)> {
    v.map(|i: int, e: (u16, Vec<u8>)| (e.0, e.1@))
}

fn contains_u16(v: &Vec<u16>, x: u16) -> (r: bool)
    ensures
        r == v@.contains(x),
{
    let mut k: usize = 0;
    while k < v.len()
        invariant
            k <= v@.len(),
            forall|j: int| 0 <= j < k ==> v@[j] != x,
        decreases v@.len() - k,
    {
        if v[k] == x {
            return true;
        }
        k = k + 1;
    }
    false
}

/// A found descriptor is one of the descriptors.
proof fn lemma_find_desc_found(descs: Seq<FieldDesc>, t: u16, d: FieldDesc)
    requires
        find_desc(descs, t) == Some(d),
    ensures
        exists|k: int| 0 <= k < descs.len() && descs[k] == d,
    decreases descs.len(),
{
    if descs.len() > 0 && descs[0].tag != t {
        lemma_find_desc_found(descs.drop_first(), t, d);
        let k = choose|k: int| 0 <= k < descs.drop_first().len() && descs.drop_first()[k] == d;
        assert(descs[k + 1] == d);
    }
}

fn find_desc_exec(descs: &Vec<FieldDesc>, t: u16) -> (r: Option<FieldDesc>)
    ensures
        r == find_desc(descs@, t),
{
    proof {
        assert(descs@.skip(0) =~= descs@);
    }
    let mut k: usize = 0;
    while k < descs.len()
        invariant
            k <= descs@.len(),
            find_desc(descs@, t) == find_desc(descs@.skip(k as int), t),
        decreases descs@.len() - k,
    {
        let d = descs[k];
        proof {
            assert(descs@.skip(k as int)[0] == descs@[k as int]);
            assert(descs@.skip(k as int).drop_first() =~= descs@.skip(k + 1));
        }
        if d.tag == t {
            return Some(d);
        }
        k = k + 1;
    }
    None
}

fn insert_sorted_vec(v: &mut Vec<u16>, x: u16)
    ensures
        final(v)@ == insert_sorted(x, old(v)@),
{
    let mut j: usize = 0;
    while j < v.len() && v[j] < x
        invariant
            j <= v@.len(),
            v@ == old(v)@,
            forall|k: int| 0 <= k < j ==> v@[k] < x,
        decreases v@.len() - j,
    {
        j = j + 1;
    }
    proof {
        lemma_insert_sorted_at(v@, x, j as int);
    }
    v.insert(j, x);
    proof {
        assert(v@ =~= old(v)@.subrange(0, j as int) + seq![x] + old(v)@.subrange(
            j as int,
            old(v)@.len() as int,
        ));
    }
}

proof fn lemma_insert_sorted_at(s: Seq<u16>, x: u16, j: int)
    requires
        0 <= j <= s.len(),
        forall|k: int| 0 <= k < j ==> s[k] < x,
        j < s.len() ==> s[j] >= x,
    ensures
        insert_sorted(x, s) == s.subrange(0, j) + seq![x] + s.subrange(j, s.len() as int),
    decreases j,
{
    if j == 0 {
        if s.len() == 0 {
            assert(insert_sorted(x, s) =~= s.subrange(0, 0) + seq![x] + s.subrange(
                0,
                s.len() as int,
            ));
        } else {
            assert(insert_sorted(x, s) =~= s.subrange(0, 0) + seq![x] + s.subrange(
                0,
                s.len() as int,
            ));
        }
    } else {
        let rest = s.drop_first();
        lemma_insert_sorted_at(rest, x, j - 1);
        assert(insert_sorted(x, s) == seq![s[0]] + insert_sorted(x, rest));
        assert(insert_sorted(x, s) =~= s.subrange(0, j) + seq![x] + s.subrange(j, s.len() as int));
    }
}

/// Reads the tagged section of a packet: tag entries in wire order and the
/// position where the walk stopped.
pub fn parse_tagged_fields(bytes: &[u8], pos: usize, descs: &Vec<FieldDesc>) -> (r: ZVTResult<
    (Vec<(u16, Vec<u8>)>, usize),
>)
    requires
        pos <= bytes@.len(),
        forall|k: int|
            0 <= k < descs@.len() ==> match (#[trigger] descs@[k]).len {
                LengthSpec::Llv(d) => d <= 8,
                _ => true,
            },
    ensures
        match r {
            Ok(v) => spec_parse_fields(bytes@, pos as int, descs@, seq![], seq![]) == Ok::<
                _,
                ErrorView,
            >((entries_view(v.0@), v.1 as int)) && pos <= v.1 <= bytes@.len(),
            Err(e) => spec_parse_fields(bytes@, pos as int, descs@, seq![], seq![]) == Err::<
                (Seq<(u16, Seq<u8>)>, int),
                _,
            >(error_view(e)),
        },
{
    let blen = bytes.len();
    let mut i: usize = pos;
    let mut seen: Vec<u16> = Vec::new();
    let mut entries: Vec<(u16, Vec<u8>)> = Vec::new();
    proof {
        assert(entries_view(entries@) =~= Seq::<(u16, Seq<u8>)>::empty());
        assert(seen@ =~= Seq::<u16>::empty());
    }
    loop
        invariant_except_break
            blen == bytes@.len(),
            pos <= i <= bytes@.len() <= usize::MAX,
            forall|k: int|
                0 <= k < descs@.len() ==> match (#[trigger] descs@[k]).len {
                    LengthSpec::Llv(d) => d <= 8,
                    _ => true,
                },
            spec_parse_fields(bytes@, pos as int, descs@, seq![], seq![]) == spec_parse_fields(
                bytes@,
                i as int,
                descs@,
                seen@,
                entries_view(entries@),
            ),
        ensures
            pos <= i <= bytes@.len(),
            spec_parse_fields(bytes@, pos as int, descs@, seq![], seq![]) == finish_parse(
                descs@,
                seen@,
                entries_view(entries@),
                i as int,
            ),
        decreases bytes@.len() - i,
    {
        if i >= blen {
            break ;
        }
        let t;
        let p;
        match encoding::dec_tag_std(bytes, i) {
            Err(_) => { break ; },
            Ok(v) => {
                t = v.0;
                p = v.1;
            },
        }
        let d;
        match find_desc_exec(descs, t.0) {
            None => { break ; },
            Some(dd) => {
                d = dd;
            },
        }
        proof {
            lemma_find_desc_found(descs@, t.0, d);
        }
        let is_seen = contains_u16(&seen, t.0);
        if is_seen && !d.repeatable {
            proof {
                assert(spec_parse_fields(bytes@, pos as int, descs@, seq![], seq![]) == Err::<
                    (Seq<(u16, Seq<u8>)>, int),
                    _,
                >(ErrorView::Duplicate(t.0)));
            }
            return Err(ZVTError::DuplicateTag(t));
        }
        match region(bytes, p, d.len, d.width) {
            Err(e) => {
                if d.repeatable {
                    seen.push(t.0);
                    break ;
                } else {
                    return Err(e);
                }
            },
            Ok((ps, pe)) => {
                let payload = encoding::copy_range(bytes, ps, pe);
                let ghost old_seen = seen@;
                let ghost old_entries = entries@;
                seen.push(t.0);
                entries.push((t.0, payload));
                proof {
                    assert(entries_view(entries@) =~= entries_view(old_entries).push(
                        (t.0, bytes@.subrange(ps as int, pe as int)),
                    ));
                    assert(seen@ =~= old_seen.push(t.0));
                }
                i = pe;
            },
        }
    }
    // Every stop above leaves `spec_parse_fields` at `finish_parse`; report
    // the missing required tags, sorted, or hand the entries out.
    let mut missing: Vec<u16> = Vec::new();
    let mut k: usize = 0;
    proof {
        assert(missing@ =~= missing_tags(descs@.subrange(0, 0), seen@));
    }
    while k < descs.len()
        invariant
            k <= descs@.len(),
            missing@ == missing_tags(descs@.subrange(0, k as int), seen@),
        decreases descs@.len() - k,
    {
        let d = descs[k];
        let ghost prefix = descs@.subrange(0, k as int);
        let seen_it = contains_u16(&seen, d.tag);
        if d.required && !seen_it {
            missing.push(d.tag);
        }
        proof {
            assert(descs@.subrange(0, k + 1).drop_last() =~= prefix);
            assert(descs@.subrange(0, k + 1).last() == descs@[k as int]);
        }
        k = k + 1;
    }
    proof {
        assert(descs@.subrange(0, descs@.len() as int) =~= descs@);
    }
    let mut sorted: Vec<u16> = Vec::new();
    let mut j: usize = 0;
    proof {
        assert(sorted@ =~= sort_tags(missing@.subrange(0, 0)));
    }
    while j < missing.len()
        invariant
            j <= missing@.len(),
            sorted@ == sort_tags(missing@.subrange(0, j as int)),
        decreases missing@.len() - j,
    {
        let x = missing[j];
        let ghost prefix = missing@.subrange(0, j as int);
        insert_sorted_vec(&mut sorted, x);
        proof {
            assert(missing@.subrange(0, j + 1).drop_last() =~= prefix);
            assert(missing@.subrange(0, j + 1).last() == missing@[j as int]);
        }
        j = j + 1;
    }
    proof {
        assert(missing@.subrange(0, missing@.len() as int) =~= missing@);
    }
    if sorted.len() == 0 {
        Ok((entries, i))
    } else {
        let mut tags: Vec<Tag> = Vec::new();
        let mut q: usize = 0;
        while q < sorted.len()
            invariant
                q <= sorted@.len(),
                tags@.len() == q,
                forall|m: int| 0 <= m < q ==> tags@[m].0 == sorted@[m],
            decreases sorted@.len() - q,
        {
            tags.push(Tag(sorted[q]));
            q = q + 1;
        }
        proof {
            assert(tags@.map(|m: int, t: Tag| t.0) =~= sorted@);
        }
        Err(ZVTError::MissingRequiredTags(tags))
    }
}

// --- Reading the collected entries -------------------------------------------

/// The payload of the first entry carrying this tag.
pub open spec fn find_entry(entries: Seq<(u16, Seq<u8>)>, t: u16) -> Option<Seq<u8>>
    decreases entries.len(),
{
    if entries.len() == 0 {
        None
    } else if entries[0].0 == t {
        Some(entries[0].1)
    } else {
        find_entry(entries.drop_first(), t)
    }
}

/// The payloads of every entry carrying this tag, in wire order.
pub open spec fn payloads_of(entries: Seq<(u16, Seq<u8>)>, t: u16) -> Seq<Seq<u8>>
    decreases entries.len(),
{
    if entries.len() == 0 {
        seq![]
    } else {
        payloads_of(entries.drop_last(), t) + if entries.last().0 == t {
            seq![entries.last().1]
        } else {
            seq![]
        }
    }
}

pub fn find_payload(entries: &Vec<(u16, Vec<u8>)>, t: u16) -> (r: Option<Vec<u8>>)
    ensures
        match r {
            Some(v) => find_entry(entries_view(entries@), t) == Some(v@),
            None => find_entry(entries_view(entries@), t) is None,
        },
{
    proof {
        assert(entries_view(entries@).skip(0) =~= entries_view(entries@));
    }
    let mut k: usize = 0;
    while k < entries.len()
        invariant
            k <= entries@.len(),
            find_entry(entries_view(entries@), t) == find_entry(
                entries_view(entries@).skip(k as int),
                t,
            ),
        decreases entries@.len() - k,
    {
        proof {
            assert(entries_view(entries@).skip(k as int)[0] == entries_view(entries@)[k as int]);
            assert(entries_view(entries@).skip(k as int).drop_first() =~= entries_view(
                entries@,
            ).skip(k + 1));
        }
        if entries[k].0 == t {
            return Some(vstd::slice::slice_to_vec(entries[k].1.as_slice()));
        }
        k = k + 1;
    }
    None
}

pub fn collect_payloads(entries: &Vec<(u16, Vec<u8>)>, t: u16) -> (r: Vec<Vec<u8>>)
    ensures
        r@.map(|i: int, v: Vec<u8>| v@) == payloads_of(entries_view(entries@), t),
{
    let mut r: Vec<Vec<u8>> = Vec::new();
    let mut k: usize = 0;
    proof {
        assert(entries_view(entries@).subrange(0, 0) =~= Seq::<(u16, Seq<u8>)>::empty());
        assert(r@.map(|i: int, v: Vec<u8>| v@) =~= payloads_of(
            entries_view(entries@).subrange(0, 0),
            t,
        ));
    }
    while k < entries.len()
        invariant
            k <= entries@.len(),
            r@.map(|i: int, v: Vec<u8>| v@) == payloads_of(
                entries_view(entries@).subrange(0, k as int),
                t,
            ),
        decreases entries@.len() - k,
    {
        let ghost prefix = entries_view(entries@).subrange(0, k as int);
        if entries[k].0 == t {
            let ghost r0 = r@;
            r.push(vstd::slice::slice_to_vec(entries[k].1.as_slice()));
            proof {
                assert(r@.map(|i: int, v: Vec<u8>| v@) =~= r0.map(|i: int, v: Vec<u8>| v@).push(
                    entries_view(entries@)[k as int].1,
                ));
            }
        }
        proof {
            assert(entries_view(entries@).subrange(0, k + 1).drop_last() =~= prefix);
            assert(entries_view(entries@).subrange(0, k + 1).last() == entries_view(
                entries@,
            )[k as int]);
            assert(r@.map(|i: int, v: Vec<u8>| v@) =~= payloads_of(
                entries_view(entries@).subrange(0, k + 1),
                t,
            ));
        }
        k = k + 1;
    }
    proof {
        assert(entries_view(entries@).subrange(0, entries@.len() as int) =~= entries_view(
            entries@,
        ));
    }
    r
}

// --- Completeness: the decoder reads back what the serializer wrote ----------

/// One step of the decoder over a serialized field: reading the bytes of a
/// field whose tag a descriptor carries consumes exactly that field and
/// appends its entry.
pub proof fn lemma_parse_fields_step(
    s: Seq<u8>,
    i: int,
    descs: Seq<FieldDesc>,
    seen: Seq<u16>,
    entries: Seq<(u16, Seq<u8>)>,
    t: u16,
    d: FieldDesc,
    region: Seq<u8>,
)
    requires
        0 <= i,
        s.len() <= usize::MAX,
        encoding::tag_wf(t),
        find_desc(descs, t) == Some(d),
        !seen.contains(t) || d.repeatable,
        region_wf(d.len, d.width as int, region.len() as int),
        i + field_bytes(Some(t), d.len, region).len() <= s.len(),
        s.subrange(i, i + field_bytes(Some(t), d.len, region).len() as int) == field_bytes(
            Some(t),
            d.len,
            region,
        ),
    ensures
        spec_parse_fields(s, i, descs, seen, entries) == spec_parse_fields(
            s,
            i + field_bytes(Some(t), d.len, region).len(),
            descs,
            seen.push(t),
            entries.push((t, region)),
        ),
{
    let tb = encoding::tag_std_bytes(t);
    let lb = len_prefix_bytes(d.len, region.len() as int);
    let fb = field_bytes(Some(t), d.len, region);
    let a = tb.len() as int;
    let b = lb.len() as int;
    let n = region.len() as int;
    assert(fb.len() == a + b + n);
    assert forall|j: int| 0 <= j < fb.len() implies s[i + j] == fb[j] by {
        assert(s.subrange(i, i + fb.len() as int)[j] == s[i + j]);
    };
    assert(s.subrange(i, i + a) =~= tb);
    assert(s.subrange(i + a, i + a + b) =~= lb) by {
        assert forall|j: int| 0 <= j < b implies s.subrange(i + a, i + a + b)[j] == lb[j] by {
            assert(s[i + a + j] == fb[a + j]);
            assert(fb[a + j] == lb[j]);
        };
    };
    assert(s.subrange(i + a + b, i + a + b + n) =~= region) by {
        assert forall|j: int| 0 <= j < n implies s.subrange(i + a + b, i + a + b + n)[j]
            == region[j] by {
            assert(s[i + a + b + j] == fb[a + b + j]);
            assert(fb[a + b + j] == region[j]);
        };
    };
    encoding::lemma_tag_std_roundtrip(s, i, t);
    let p = i + a;
    assert(encoding::tag_std_parse(s, i) == Ok::<_, ZVTError>((t, p as usize)));
    let ps = p + b;
    let pe = ps + n;
    assert(spec_region(s, p, d.len, d.width as int) == Ok::<_, ZVTError>(
        (ps as usize, pe as usize),
    )) by {
        match d.len {
            LengthSpec::Unprefixed => {
                assert(b == 0 && n == d.width);
            },
            LengthSpec::Fixed(k) => {
                assert(b == 0 && n == k);
            },
            LengthSpec::Tlv => {
                length::lemma_tlv_len_roundtrip(s, p, region.len() as usize);
            },
            LengthSpec::Llv(dd) => {
                length::lemma_llv_len_roundtrip(s, p, dd as nat, region.len() as usize);
            },
            LengthSpec::Adpu => {
                length::lemma_adpu_len_roundtrip(s, p, region.len() as usize);
            },
        }
    };
    assert(i < pe <= s.len());
    assert(s.subrange(ps, pe) == region);
}

/// The decoder stops without error where the input ends, where no tag can
/// be read, or at a tag no descriptor carries; what is left is the
/// remainder.
pub proof fn lemma_parse_fields_stop(
    s: Seq<u8>,
    i: int,
    descs: Seq<FieldDesc>,
    seen: Seq<u16>,
    entries: Seq<(u16, Seq<u8>)>,
)
    requires
        i >= s.len() || encoding::tag_std_parse(s, i) is Err || (encoding::tag_std_parse(s, i)
            matches Ok(v) && find_desc(descs, v.0) is None),
    ensures
        spec_parse_fields(s, i, descs, seen, entries) == finish_parse(descs, seen, entries, i),
{
}

/// A duplicated non-repeatable tag fails the decode with exactly that tag.
pub proof fn lemma_parse_fields_duplicate(
    s: Seq<u8>,
    i: int,
    descs: Seq<FieldDesc>,
    seen: Seq<u16>,
    entries: Seq<(u16, Seq<u8>)>,
    t: u16,
    d: FieldDesc,
)
    requires
        0 <= i < s.len(),
        encoding::tag_std_parse(s, i) matches Ok(v) && v.0 == t,
        find_desc(descs, t) == Some(d),
        seen.contains(t),
        !d.repeatable,
    ensures
        spec_parse_fields(s, i, descs, seen, entries) == Err::<(Seq<(u16, Seq<u8>)>, int), _>(
            ErrorView::Duplicate(t),
        ),
{
}

// --- Scalar fields -----------------------------------------------------------

/// The numeric value encodings a scalar field can select.
#[derive(Debug, Clone, Copy, PartialEq, Eq, Structural)]
pub enum NumEncoding {
    LittleEndian,
    BigEndian,
    Bcd,
}

pub open spec fn u16_payload(v: u16, enc: NumEncoding) -> Seq<u8> {
    match enc {
        NumEncoding::LittleEndian => encoding::u16_le_bytes(v),
        NumEncoding::BigEndian => encoding::u16_be_bytes(v),
        NumEncoding::Bcd => encoding::bcd_bytes(v as nat),
    }
}

pub open spec fn u8_payload(v: u8, enc: NumEncoding) -> Seq<u8> {
    match enc {
        NumEncoding::LittleEndian => seq![v],
        NumEncoding::BigEndian => seq![v],
        NumEncoding::Bcd => encoding::bcd_bytes(v as nat),
    }
}

/// The payload region a field writes: the payload, zero-padded in front for
/// a fixed-width field.
pub open spec fn padded_region(len: LengthSpec, payload: Seq<u8>) -> Seq<u8> {
    match len {
        LengthSpec::Fixed(n) => length::fixed_len_bytes(n as int, payload.len() as int) + payload,
        _ => payload,
    }
}

pub open spec fn spec_tag_opt(tag: Option<Tag>) -> Option<u16> {
    match tag {
        Some(t) => Some(t.0),
        None => None,
    }
}

pub fn ser_u16_tagged(v: u16, tag: Option<Tag>, len: LengthSpec, enc: NumEncoding) -> (r: Vec<
    u8,
>)
    requires
        match len {
            LengthSpec::Fixed(n) => u16_payload(v, enc).len() <= n,
            _ => true,
        },
    ensures
        r@ == field_bytes(spec_tag_opt(tag), len, padded_region(len, u16_payload(v, enc))),
{
    let payload: Vec<u8> = match enc {
        NumEncoding::LittleEndian => encoding::enc_u16_le(v),
        NumEncoding::BigEndian => encoding::enc_u16_be(v),
        NumEncoding::Bcd => {
            proof {
                reveal_with_fuel(encoding::pow100, 4);
                encoding::lemma_bcd_len(v as nat, 3);
            }
            encoding::enc_bcd(v as usize)
        },
    };
    let region: Vec<u8> = match len {
        LengthSpec::Fixed(n) => pad_fixed(payload, n),
        _ => payload,
    };
    proof {
        reveal_with_fuel(encoding::pow100, 4);
        encoding::lemma_bcd_len(v as nat, 3);
    }
    let mut out: Vec<u8> = Vec::new();
    ser_field(&mut out, tag, len, &region);
    proof {
        assert(out@ =~= field_bytes(spec_tag_opt(tag), len, region@));
    }
    out
}

pub fn ser_u8_tagged(v: u8, tag: Option<Tag>, len: LengthSpec, enc: NumEncoding) -> (r: Vec<u8>)
    requires
        match len {
            LengthSpec::Fixed(n) => u8_payload(v, enc).len() <= n,
            _ => true,
        },
    ensures
        r@ == field_bytes(spec_tag_opt(tag), len, padded_region(len, u8_payload(v, enc))),
{
    let payload: Vec<u8> = match enc {
        NumEncoding::LittleEndian => encoding::enc_u8(v),
        NumEncoding::BigEndian => encoding::enc_u8(v),
        NumEncoding::Bcd => {
            proof {
                reveal_with_fuel(encoding::pow100, 3);
                encoding::lemma_bcd_len(v as nat, 2);
            }
            encoding::enc_bcd(v as usize)
        },
    };
    let region: Vec<u8> = match len {
        LengthSpec::Fixed(n) => pad_fixed(payload, n),
        _ => payload,
    };
    proof {
        reveal_with_fuel(encoding::pow100, 3);
        encoding::lemma_bcd_len(v as nat, 2);
    }
    let mut out: Vec<u8> = Vec::new();
    ser_field(&mut out, tag, len, &region);
    proof {
        assert(out@ =~= field_bytes(spec_tag_opt(tag), len, region@));
    }
    out
}

/// Reading a scalar's payload region: how wide the region is before any
/// length prefix speaks, and what value comes out of it.
pub open spec fn spec_de_u16_val(s: Seq<u8>, p: int, len: LengthSpec, enc: NumEncoding) -> ZVTResult<
    (u16, usize),
> {
    let w: int = match enc {
        NumEncoding::Bcd => s.len() - p,
        _ => 2,
    };
    match spec_region(s, p, len, w) {
        Err(e) => Err(e),
        Ok((ps, pe)) => match enc {
            NumEncoding::LittleEndian => {
                if pe - ps >= 2 {
                    Ok((encoding::u16_le_val(s[ps as int], s[ps + 1]), (ps + 2) as usize))
                } else {
                    Err(ZVTError::IncompleteData)
                }
            },
            NumEncoding::BigEndian => {
                if pe - ps >= 2 {
                    Ok((encoding::u16_be_val(s[ps as int], s[ps + 1]), (ps + 2) as usize))
                } else {
                    Err(ZVTError::IncompleteData)
                }
            },
            NumEncoding::Bcd => Ok(
                (
                    (encoding::bcd_nat(s.subrange(ps as int, pe as int)) % 0x10000) as u16,
                    pe,
                ),
            ),
        },
    }
}

pub open spec fn spec_de_u8_val(s: Seq<u8>, p: int, len: LengthSpec, enc: NumEncoding) -> ZVTResult<
    (u8, usize),
> {
    let w: int = match enc {
        NumEncoding::Bcd => s.len() - p,
        _ => 1,
    };
    match spec_region(s, p, len, w) {
        Err(e) => Err(e),
        Ok((ps, pe)) => match enc {
            NumEncoding::Bcd => Ok(
                ((encoding::bcd_nat(s.subrange(ps as int, pe as int)) % 0x100) as u8, pe),
            ),
            _ => {
                if pe - ps >= 1 {
                    Ok((s[ps as int], (ps + 1) as usize))
                } else {
                    Err(ZVTError::IncompleteData)
                }
            },
        },
    }
}

/// A scalar field with an expected tag: a different tag is reported as
/// `WrongTag` with the tag that was found.
pub open spec fn spec_de_u16_tagged(
    s: Seq<u8>,
    pos: int,
    tag: Option<u16>,
    len: LengthSpec,
    enc: NumEncoding,
) -> ZVTResult<(u16, usize)> {
    match tag {
        Some(et) => match encoding::tag_std_parse(s, pos) {
            Err(e) => Err(e),
            Ok((t, p)) => {
                if t != et {
                    Err(ZVTError::WrongTag(Tag(t)))
                } else {
                    spec_de_u16_val(s, p as int, len, enc)
                }
            },
        },
        None => spec_de_u16_val(s, pos, len, enc),
    }
}

pub open spec fn spec_de_u8_tagged(
    s: Seq<u8>,
    pos: int,
    tag: Option<u16>,
    len: LengthSpec,
    enc: NumEncoding,
) -> ZVTResult<(u8, usize)> {
    match tag {
        Some(et) => match encoding::tag_std_parse(s, pos) {
            Err(e) => Err(e),
            Ok((t, p)) => {
                if t != et {
                    Err(ZVTError::WrongTag(Tag(t)))
                } else {
                    spec_de_u8_val(s, p as int, len, enc)
                }
            },
        },
        None => spec_de_u8_val(s, pos, len, enc),
    }
}

fn dec_bcd_u16(bytes: &[u8], pos: usize, end: usize) -> (r: u16)
    requires
        pos <= end <= bytes@.len(),
    ensures
        r == encoding::bcd_nat(bytes@.subrange(pos as int, end as int)) % 0x10000,
{
    let blen = bytes.len();
    let mut rv: u16 = 0;
    let mut i: usize = pos;
    proof {
        assert(bytes@.subrange(pos as int, pos as int) =~= Seq::<u8>::empty());
        vstd::arithmetic::div_mod::lemma_small_mod(0, 0x10000);
    }
    while i < end
        invariant
            blen == bytes@.len(),
            pos <= i <= end <= bytes@.len() <= usize::MAX,
            rv == encoding::bcd_nat(bytes@.subrange(pos as int, i as int)) % 0x10000,
        decreases end - i,
    {
        let b = bytes[i];
        let hi = (b / 16) as u16;
        let lo = (b % 16) as u16;
        let ghost prev = encoding::bcd_nat(bytes@.subrange(pos as int, i as int));
        let rv2 = rv.wrapping_mul(100).wrapping_add(hi * 10 + lo);
        proof {
            let s2 = bytes@.subrange(pos as int, i + 1);
            assert(s2.drop_last() =~= bytes@.subrange(pos as int, i as int));
            assert(s2.last() == bytes@[i as int]);
            assert(encoding::bcd_nat(s2) == prev * 100 + hi * 10 + lo);
            vstd::arithmetic::div_mod::lemma_mul_mod_noop_left(prev as int, 100, 0x10000);
            vstd::arithmetic::div_mod::lemma_add_mod_noop(
                (prev % 0x10000) as int * 100,
                (hi * 10 + lo) as int,
                0x10000,
            );
            vstd::arithmetic::div_mod::lemma_add_mod_noop(
                prev as int * 100,
                (hi * 10 + lo) as int,
                0x10000,
            );
            vstd::arithmetic::div_mod::lemma_mod_bound((hi * 10 + lo) as int, 0x10000);
            vstd::arithmetic::div_mod::lemma_small_mod((hi * 10 + lo) as nat, 0x10000);
        }
        rv = rv2;
        i = i + 1;
    }
    rv
}

#[verifier::rlimit(50)]
fn dec_bcd_u8(bytes: &[u8], pos: usize, end: usize) -> (r: u8)
    requires
        pos <= end <= bytes@.len(),
    ensures
        r == encoding::bcd_nat(bytes@.subrange(pos as int, end as int)) % 0x100,
{
    let blen = bytes.len();
    let mut rv: u8 = 0;
    let mut i: usize = pos;
    proof {
        assert(bytes@.subrange(pos as int, pos as int) =~= Seq::<u8>::empty());
        vstd::arithmetic::div_mod::lemma_small_mod(0, 0x100);
    }
    while i < end
        invariant
            blen == bytes@.len(),
            pos <= i <= end <= bytes@.len() <= usize::MAX,
            rv == encoding::bcd_nat(bytes@.subrange(pos as int, i as int)) % 0x100,
        decreases end - i,
    {
        let b = bytes[i];
        let hi = (b / 16) as u8;
        let lo = (b % 16) as u8;
        let ghost prev = encoding::bcd_nat(bytes@.subrange(pos as int, i as int));
        let rv2 = rv.wrapping_mul(100).wrapping_add(hi.wrapping_mul(10).wrapping_add(lo));
        proof {
            let s2 = bytes@.subrange(pos as int, i + 1);
            assert(s2.drop_last() =~= bytes@.subrange(pos as int, i as int));
            assert(s2.last() == bytes@[i as int]);
            assert(encoding::bcd_nat(s2) == prev * 100 + hi * 10 + lo);
            assert(hi <= 15 && lo <= 15);
            vstd::arithmetic::div_mod::lemma_small_mod((hi * 10 + lo) as nat, 0x100);
            vstd::arithmetic::div_mod::lemma_mul_mod_noop_left(prev as int, 100, 0x100);
            vstd::arithmetic::div_mod::lemma_add_mod_noop(
                (prev % 0x100) as int * 100,
                (hi * 10 + lo) as int,
                0x100,
            );
            vstd::arithmetic::div_mod::lemma_add_mod_noop(
                prev as int * 100,
                (hi * 10 + lo) as int,
                0x100,
            );
            vstd::arithmetic::div_mod::lemma_mod_bound((hi * 10 + lo) as int, 0x100);
        }
        rv = rv2;
        i = i + 1;
    }
    rv
}

pub fn de_u16_tagged(
    bytes: &[u8],
    pos: usize,
    tag: Option<Tag>,
    len: LengthSpec,
    enc: NumEncoding,
) -> (r: ZVTResult<(u16, usize)>)
    requires
        pos <= bytes@.len(),
        match len {
            LengthSpec::Llv(d) => d <= 8,
            _ => true,
        },
    ensures
        r == spec_de_u16_tagged(bytes@, pos as int, spec_tag_opt(tag), len, enc),
        r matches Ok(v) ==> pos <= v.1 <= bytes@.len(),
{
    let mut p: usize = pos;
    match tag {
        Some(et) => {
            match encoding::dec_tag_std(bytes, pos) {
                Err(e) => {
                    return Err(e);
                },
                Ok((t, q)) => {
                    if t.0 != et.0 {
                        return Err(ZVTError::WrongTag(t));
                    }
                    p = q;
                },
            }
        },
        None => {},
    }
    let w: usize = match enc {
        NumEncoding::Bcd => bytes.len() - p,
        _ => 2,
    };
    let (ps, pe) = match region(bytes, p, len, w) {
        Err(e) => {
            return Err(e);
        },
        Ok(v) => v,
    };
    match enc {
        NumEncoding::LittleEndian => {
            if pe - ps >= 2 {
                Ok((bytes[ps] as u16 + bytes[ps + 1] as u16 * 256, ps + 2))
            } else {
                Err(ZVTError::IncompleteData)
            }
        },
        NumEncoding::BigEndian => {
            if pe - ps >= 2 {
                Ok((bytes[ps] as u16 * 256 + bytes[ps + 1] as u16, ps + 2))
            } else {
                Err(ZVTError::IncompleteData)
            }
        },
        NumEncoding::Bcd => Ok((dec_bcd_u16(bytes, ps, pe), pe)),
    }
}

pub fn de_u8_tagged(
    bytes: &[u8],
    pos: usize,
    tag: Option<Tag>,
    len: LengthSpec,
    enc: NumEncoding,
) -> (r: ZVTResult<(u8, usize)>)
    requires
        pos <= bytes@.len(),
        match len {
            LengthSpec::Llv(d) => d <= 8,
            _ => true,
        },
    ensures
        r == spec_de_u8_tagged(bytes@, pos as int, spec_tag_opt(tag), len, enc),
        r matches Ok(v) ==> pos <= v.1 <= bytes@.len(),
{
    let mut p: usize = pos;
    match tag {
        Some(et) => {
            match encoding::dec_tag_std(bytes, pos) {
                Err(e) => {
                    return Err(e);
                },
                Ok((t, q)) => {
                    if t.0 != et.0 {
                        return Err(ZVTError::WrongTag(t));
                    }
                    p = q;
                },
            }
        },
        None => {},
    }
    let w: usize = match enc {
        NumEncoding::Bcd => bytes.len() - p,
        _ => 1,
    };
    let (ps, pe) = match region(bytes, p, len, w) {
        Err(e) => {
            return Err(e);
        },
        Ok(v) => v,
    };
    match enc {
        NumEncoding::Bcd => Ok((dec_bcd_u8(bytes, ps, pe), pe)),
        _ => {
            if pe - ps >= 1 {
                Ok((bytes[ps], ps + 1))
            } else {
                Err(ZVTError::IncompleteData)
            }
        },
    }
}

/// An optional scalar: with an expected tag any failure is reported; with
/// none, failure reads as an absent value that consumes nothing.
pub open spec fn spec_de_opt_u16_tagged(
    s: Seq<u8>,
    pos: int,
    tag: Option<u16>,
    len: LengthSpec,
    enc: NumEncoding,
) -> ZVTResult<(Option<u16>, usize)> {
    match spec_de_u16_tagged(s, pos, tag, len, enc) {
        Ok((v, p)) => Ok((Some(v), p)),
        Err(e) => if tag is Some {
            Err(e)
        } else {
            Ok((None, pos as usize))
        },
    }
}

pub fn de_opt_u16_tagged(
    bytes: &[u8],
    pos: usize,
    tag: Option<Tag>,
    len: LengthSpec,
    enc: NumEncoding,
) -> (r: ZVTResult<(Option<u16>, usize)>)
    requires
        pos <= bytes@.len(),
        match len {
            LengthSpec::Llv(d) => d <= 8,
            _ => true,
        },
    ensures
        r == spec_de_opt_u16_tagged(bytes@, pos as int, spec_tag_opt(tag), len, enc),
        r matches Ok(v) ==> pos <= v.1 <= bytes@.len(),
{
    let has_tag = tag.is_some();
    match de_u16_tagged(bytes, pos, tag, len, enc) {
        Ok((v, p)) => Ok((Some(v), p)),
        Err(e) => {
            if has_tag {
                Err(e)
            } else {
                Ok((None, pos))
            }
        },
    }
}

/// A BCD number field holding a machine-word value.
pub open spec fn spec_de_usize_bcd(s: Seq<u8>, p: int, len: LengthSpec) -> ZVTResult<
    (usize, usize),
> {
    match spec_region(s, p, len, s.len() - p) {
        Err(e) => Err(e),
        Ok((ps, pe)) => Ok(
            (
                (encoding::bcd_nat(s.subrange(ps as int, pe as int))
                    % encoding::usize_mod()) as usize,
                pe,
            ),
        ),
    }
}

pub fn de_usize_bcd(bytes: &[u8], pos: usize, len: LengthSpec) -> (r: ZVTResult<(usize, usize)>)
    requires
        pos <= bytes@.len(),
        match len {
            LengthSpec::Llv(d) => d <= 8,
            _ => true,
        },
    ensures
        r == spec_de_usize_bcd(bytes@, pos as int, len),
        r matches Ok(v) ==> pos <= v.1 <= bytes@.len(),
{
    let w: usize = bytes.len() - pos;
    let (ps, pe) = match region(bytes, pos, len, w) {
        Err(e) => {
            return Err(e);
        },
        Ok(v) => v,
    };
    Ok((encoding::dec_bcd(bytes, ps, pe), pe))
}

/// An optional BCD number with no tag context: failure reads as absent.
pub open spec fn spec_de_opt_usize_bcd(s: Seq<u8>, p: int, len: LengthSpec) -> (Option<usize>, usize) {
    match spec_de_usize_bcd(s, p, len) {
        Ok((v, q)) => (Some(v), q),
        Err(_) => (None, p as usize),
    }
}

pub fn de_opt_usize_bcd(bytes: &[u8], pos: usize, len: LengthSpec) -> (r: (Option<usize>, usize))
    requires
        pos <= bytes@.len(),
        match len {
            LengthSpec::Llv(d) => d <= 8,
            _ => true,
        },
    ensures
        r == spec_de_opt_usize_bcd(bytes@, pos as int, len),
        pos <= r.1 <= bytes@.len(),
{
    match de_usize_bcd(bytes, pos, len) {
        Ok((v, q)) => (Some(v), q),
        Err(_) => (None, pos),
    }
}

/// Serializes a BCD number field: shortest BCD, zero-padded for a fixed
/// width.
pub fn ser_usize_bcd(v: usize, tag: Option<Tag>, len: LengthSpec) -> (r: Vec<u8>)
    requires
        match len {
            LengthSpec::Fixed(n) => encoding::bcd_bytes(v as nat).len() <= n,
            LengthSpec::Tlv => encoding::bcd_bytes(v as nat).len() <= 0xffff,
            LengthSpec::Adpu => encoding::bcd_bytes(v as nat).len() <= 0xffff,
            _ => true,
        },
    ensures
        r@ == field_bytes(
            spec_tag_opt(tag),
            len,
            padded_region(len, encoding::bcd_bytes(v as nat)),
        ),
{
    let payload = encoding::enc_bcd(v);
    let region: Vec<u8> = match len {
        LengthSpec::Fixed(n) => pad_fixed(payload, n),
        _ => payload,
    };
    let mut out: Vec<u8> = Vec::new();
    ser_field(&mut out, tag, len, &region);
    proof {
        assert(out@ =~= field_bytes(spec_tag_opt(tag), len, region@));
    }
    out
}

/// A string field: the region is the raw UTF-8 bytes, or packed hex digits
/// when `hex` is chosen.
pub open spec fn spec_de_string(s: Seq<u8>, p: int, len: LengthSpec, hex: bool) -> ZVTResult<
    (Seq<char>, usize),
> {
    match spec_region(s, p, len, s.len() - p) {
        Err(e) => Err(e),
        Ok((ps, pe)) => {
            let payload = s.subrange(ps as int, pe as int);
            if hex {
                Ok((vstd::utf8::decode_utf8(encoding::hex_ascii(payload)), pe))
            } else if vstd::utf8::valid_utf8(payload) {
                Ok((vstd::utf8::decode_utf8(payload), pe))
            } else {
                Err(ZVTError::IncompleteData)
            }
        },
    }
}

pub fn de_string_field(bytes: &[u8], pos: usize, len: LengthSpec, hex: bool) -> (r: ZVTResult<
    (String, usize),
>)
    requires
        pos <= bytes@.len(),
        match len {
            LengthSpec::Llv(d) => d <= 8,
            _ => true,
        },
    ensures
        match r {
            Ok(v) => spec_de_string(bytes@, pos as int, len, hex) == Ok::<_, ZVTError>(
                (v.0@, v.1),
            ) && pos <= v.1 <= bytes@.len(),
            Err(e) => spec_de_string(bytes@, pos as int, len, hex) == Err::<(Seq<char>, usize), _>(
                e,
            ),
        },
{
    let w: usize = bytes.len() - pos;
    let (ps, pe) = match region(bytes, pos, len, w) {
        Err(e) => {
            return Err(e);
        },
        Ok(v) => v,
    };
    if hex {
        let s = encoding::dec_hex(bytes, ps, pe);
        proof {
            let payload = bytes@.subrange(ps as int, pe as int);
            encoding::lemma_hex_ascii_len(payload);
            assert forall|j: int| 0 <= j < encoding::hex_ascii(payload).len() implies encoding::hex_ascii(
                payload,
            )[j] < 0x80 by {
                assert(encoding::is_hex_digit_ascii(encoding::hex_ascii(payload)[j]));
            };
            encoding::lemma_ascii_valid_utf8(encoding::hex_ascii(payload));
            vstd::utf8::encode_utf8_decode_utf8(s@);
            vstd::utf8::decode_utf8_encode_utf8(encoding::hex_ascii(payload));
        }
        Ok((s, pe))
    } else {
        match encoding::dec_string(bytes, ps, pe) {
            Ok((s, _)) => {
                proof {
                    vstd::utf8::encode_utf8_decode_utf8(s@);
                    vstd::utf8::decode_utf8_encode_utf8(
                        bytes@.subrange(ps as int, pe as int),
                    );
                }
                Ok((s, pe))
            },
            Err(e) => Err(e),
        }
    }
}

/// Serializes a string field; a hex field packs its digits.
pub fn ser_string_field(v: &str, tag: Option<Tag>, len: LengthSpec, hex: bool) -> (r: Vec<u8>)
    requires
        hex ==> encoding::is_hex_ascii(vstd::utf8::encode_utf8(v@)),
        ({
            let payload_len: int = if hex {
                vstd::utf8::encode_utf8(v@).len() as int / 2
            } else {
                vstd::utf8::encode_utf8(v@).len() as int
            };
            match len {
                LengthSpec::Fixed(n) => payload_len <= n,
                LengthSpec::Tlv => payload_len <= 0xffff,
                LengthSpec::Adpu => payload_len <= 0xffff,
                _ => true,
            }
        }),
    ensures
        !hex ==> r@ == field_bytes(
            spec_tag_opt(tag),
            len,
            padded_region(len, vstd::utf8::encode_utf8(v@)),
        ),
        hex ==> exists|p: Seq<u8>|
            encoding::hex_ascii(p) == vstd::utf8::encode_utf8(v@) && r@ == field_bytes(
                spec_tag_opt(tag),
                len,
                padded_region(len, p),
            ) && 2 * p.len() == vstd::utf8::encode_utf8(v@).len(),
{
    let payload: Vec<u8> = if hex {
        let p = encoding::enc_hex(v);
        proof {
            encoding::lemma_hex_ascii_len(p@);
        }
        p
    } else {
        encoding::str_bytes(v)
    };
    let region: Vec<u8> = match len {
        LengthSpec::Fixed(n) => pad_fixed(payload, n),
        _ => payload,
    };
    let mut out: Vec<u8> = Vec::new();
    ser_field(&mut out, tag, len, &region);
    proof {
        assert(out@ =~= field_bytes(spec_tag_opt(tag), len, region@));
    }
    out
}

// --- Reading single entries as values ----------------------------------------

/// An optional one-byte entry: the first payload byte.
pub fn entry_opt_u8(entries: &Vec<(u16, Vec<u8>)>, t: u16) -> (r: ZVTResult<Option<u8>>)
    ensures
        r == match find_entry(entries_view(entries@), t) {
            None => Ok::<_, ZVTError>(None::<u8>),
            Some(pl) => {
                if pl.len() >= 1 {
                    Ok::<_, ZVTError>(Some(pl[0]))
                } else {
                    Err::<Option<u8>, _>(ZVTError::IncompleteData)
                }
            },
        },
{
    match find_payload(entries, t) {
        None => Ok(None),
        Some(pl) => {
            if pl.len() >= 1 {
                Ok(Some(pl[0]))
            } else {
                Err(ZVTError::IncompleteData)
            }
        },
    }
}

/// An optional BCD number entry: the whole payload as packed BCD.
pub fn entry_opt_usize_bcd(entries: &Vec<(u16, Vec<u8>)>, t: u16) -> (r: Option<usize>)
    ensures
        r == match find_entry(entries_view(entries@), t) {
            None => None::<usize>,
            Some(pl) => Some((encoding::bcd_nat(pl) % encoding::usize_mod()) as usize),
        },
{
    match find_payload(entries, t) {
        None => None,
        Some(pl) => {
            let ghost plv = pl@;
            let v = encoding::dec_bcd(pl.as_slice(), 0, pl.len());
            proof {
                assert(plv.subrange(0, plv.len() as int) =~= plv);
            }
            Some(v)
        },
    }
}

/// An optional big-endian 16-bit entry.
pub fn entry_opt_u16_be(entries: &Vec<(u16, Vec<u8>)>, t: u16) -> (r: ZVTResult<Option<u16>>)
    ensures
        r == match find_entry(entries_view(entries@), t) {
            None => Ok::<_, ZVTError>(None::<u16>),
            Some(pl) => {
                if pl.len() >= 2 {
                    Ok::<_, ZVTError>(Some(encoding::u16_be_val(pl[0], pl[1])))
                } else {
                    Err::<Option<u16>, _>(ZVTError::IncompleteData)
                }
            },
        },
{
    match find_payload(entries, t) {
        None => Ok(None),
        Some(pl) => {
            if pl.len() >= 2 {
                Ok(Some(pl[0] as u16 * 256 + pl[1] as u16))
            } else {
                Err(ZVTError::IncompleteData)
            }
        },
    }
}

/// An optional big-endian 32-bit entry.
pub fn entry_opt_u32_be(entries: &Vec<(u16, Vec<u8>)>, t: u16) -> (r: ZVTResult<Option<u32>>)
    ensures
        r == match find_entry(entries_view(entries@), t) {
            None => Ok::<_, ZVTError>(None::<u32>),
            Some(pl) => {
                if pl.len() >= 4 {
                    Ok::<_, ZVTError>(Some(encoding::u32_be_val(pl[0], pl[1], pl[2], pl[3])))
                } else {
                    Err::<Option<u32>, _>(ZVTError::IncompleteData)
                }
            },
        },
{
    match find_payload(entries, t) {
        None => Ok(None),
        Some(pl) => {
            if pl.len() >= 4 {
                Ok(
                    Some(
                        pl[0] as u32 * 0x1000000 + pl[1] as u32 * 0x10000 + pl[2] as u32 * 256
                            + pl[3] as u32,
                    ),
                )
            } else {
                Err(ZVTError::IncompleteData)
            }
        },
    }
}

/// An optional string entry: the whole payload as UTF-8, or rendered as
/// lowercase hex.
pub fn entry_opt_string(entries: &Vec<(u16, Vec<u8>)>, t: u16, hex: bool) -> (r: ZVTResult<
    Option<String>,
>)
    ensures
        ({
            let f = find_entry(entries_view(entries@), t);
            match f {
                None => r == Ok::<_, ZVTError>(None::<String>),
                Some(pl) => {
                    if hex {
                        r matches Ok(o) && o matches Some(s) && vstd::utf8::encode_utf8(s@)
                            == encoding::hex_ascii(pl)
                    } else if vstd::utf8::valid_utf8(pl) {
                        r matches Ok(o) && o matches Some(s) && vstd::utf8::encode_utf8(s@) == pl
                            && s@ == vstd::utf8::decode_utf8(pl)
                    } else {
                        r == Err::<Option<String>, _>(ZVTError::IncompleteData)
                    }
                },
            }
        }),
{
    match find_payload(entries, t) {
        None => Ok(None),
        Some(pl) => {
            let ghost plv = pl@;
            proof {
                assert(plv.subrange(0, plv.len() as int) =~= plv);
            }
            if hex {
                let s = encoding::dec_hex(pl.as_slice(), 0, pl.len());
                Ok(Some(s))
            } else {
                match encoding::dec_string(pl.as_slice(), 0, pl.len()) {
                    Ok((s, _)) => {
                        proof {
                            vstd::utf8::encode_utf8_decode_utf8(s@);
                            vstd::utf8::decode_utf8_encode_utf8(plv);
                        }
                        Ok(Some(s))
                    },
                    Err(e) => Err(e),
                }
            }
        },
    }
}

/// An optional raw-bytes entry: the whole payload.
pub fn entry_opt_bytes(entries: &Vec<(u16, Vec<u8>)>, t: u16) -> (r: Option<Vec<u8>>)
    ensures
        match r {
            None => find_entry(entries_view(entries@), t) is None,
            Some(v) => find_entry(entries_view(entries@), t) == Some(v@),
        },
{
    find_payload(entries, t)
}

/// With every required tag seen, the walk ends in the entries.
pub proof fn lemma_finish_ok(
    descs: Seq<FieldDesc>,
    seen: Seq<u16>,
    entries: Seq<(u16, Seq<u8>)>,
    i: int,
)
    requires
        forall|k: int|
            0 <= k < descs.len() ==> !(#[trigger] descs[k]).required || seen.contains(descs[k].tag),
    ensures
        finish_parse(descs, seen, entries, i) == Ok::<_, ErrorView>((entries, i)),
{
    lemma_missing_empty(descs, seen);
}

proof fn lemma_missing_empty(descs: Seq<FieldDesc>, seen: Seq<u16>)
    requires
        forall|k: int|
            0 <= k < descs.len() ==> !(#[trigger] descs[k]).required || seen.contains(descs[k].tag),
    ensures
        missing_tags(descs, seen) =~= Seq::<u16>::empty(),
        sort_tags(missing_tags(descs, seen)) =~= Seq::<u16>::empty(),
    decreases descs.len(),
{
    if descs.len() > 0 {
        assert(descs.last() == descs[descs.len() - 1]);
        lemma_missing_empty(descs.drop_last(), seen);
    }
}

/// A later tag in the seen list keeps earlier membership.
pub proof fn lemma_seen_push(seen: Seq<u16>, t: u16, x: u16)
    ensures
        seen.push(t).contains(x) <==> (seen.contains(x) || x == t),
{
    if seen.contains(x) {
        let j = choose|j: int| 0 <= j < seen.len() && seen[j] == x;
        assert(seen.push(t)[j] == x);
    }
    if seen.push(t).contains(x) {
        let j = choose|j: int| 0 <= j < seen.push(t).len() && seen.push(t)[j] == x;
        if j < seen.len() {
            assert(seen[j] == x);
        }
    }
    assert(seen.push(t)[seen.len() as int] == t);
}

/// The low five bits of a byte, spoken of arithmetically.
pub proof fn lemma_low5(b: u8)
    ensures
        b & 0x1f == b % 32,
{
    assert(b & 0x1f == b % 32) by (bit_vector);
}

/// Splitting a concatenation at a known position.
pub proof fn lemma_peel(s: Seq<u8>, i: int, f: Seq<u8>, rest: Seq<u8>)
    requires
        0 <= i,
        i + f.len() + rest.len() <= s.len(),
        s.subrange(i, i + f.len() + rest.len()) == f + rest,
    ensures
        s.subrange(i, i + f.len()) == f,
        s.subrange(i + f.len(), i + f.len() + rest.len()) == rest,
{
    let e = i + f.len() + rest.len();
    assert forall|j: int| 0 <= j < f.len() implies s.subrange(i, i + f.len() as int)[j]
        == f[j] by {
        assert(s.subrange(i, e)[j] == (f + rest)[j]);
    };
    assert(s.subrange(i, i + f.len() as int) =~= f);
    assert forall|j: int| 0 <= j < rest.len() implies s.subrange(i + f.len(), e)[j]
        == rest[j] by {
        assert(s.subrange(i, e)[f.len() + j] == (f + rest)[f.len() + j]);
        assert(s.subrange(i, e)[f.len() + j] == s[i + f.len() + j]);
        assert((f + rest)[f.len() + j] == rest[j]);
        assert(s.subrange(i + f.len(), e)[j] == s[i + f.len() + j]);
    };
    assert(s.subrange(i + f.len(), e) =~= rest);
}

// --- A packet's tagged section as a list of optional fields ------------------

/// One tagged field as a packet declares it: tag, length form, and the
/// payload region when the field is present.
pub open spec fn opt_field_bytes(t: u16, len: LengthSpec, r: Option<Seq<u8>>) -> Seq<u8> {
    match r {
        Some(x) => field_bytes(Some(t), len, x),
        None => seq![],
    }
}

/// The bytes of a whole tagged section, in declaration order.
pub open spec fn cat_opt_fields(fs: Seq<(u16, LengthSpec, Option<Seq<u8>>)>) -> Seq<u8>
    decreases fs.len(),
{
    if fs.len() == 0 {
        seq![]
    } else {
        opt_field_bytes(fs[0].0, fs[0].1, fs[0].2) + cat_opt_fields(fs.drop_first())
    }
}

/// The entries the decoder collects from that section.
pub open spec fn cat_opt_entries(fs: Seq<(u16, LengthSpec, Option<Seq<u8>>)>) -> Seq<
    (u16, Seq<u8>),
>
    decreases fs.len(),
{
    if fs.len() == 0 {
        seq![]
    } else {
        (match fs[0].2 {
            Some(x) => seq![(fs[0].0, x)],
            None => seq![],
        }) + cat_opt_entries(fs.drop_first())
    }
}

/// The tags of the present fields, in order.
pub open spec fn present_tags(fs: Seq<(u16, LengthSpec, Option<Seq<u8>>)>) -> Seq<u16>
    decreases fs.len(),
{
    if fs.len() == 0 {
        seq![]
    } else {
        (match fs[0].2 {
            Some(_) => seq![fs[0].0],
            None => seq![],
        }) + present_tags(fs.drop_first())
    }
}

/// The payload of the first present field with this tag.
pub open spec fn fs_lookup(fs: Seq<(u16, LengthSpec, Option<Seq<u8>>)>, t: u16) -> Option<
    Seq<u8>,
>
    decreases fs.len(),
{
    if fs.len() == 0 {
        None
    } else if fs[0].0 == t && fs[0].2 is Some {
        fs[0].2
    } else {
        fs_lookup(fs.drop_first(), t)
    }
}

/// The payloads of every present field with this tag, in order.
pub open spec fn fs_payloads(fs: Seq<(u16, LengthSpec, Option<Seq<u8>>)>, t: u16) -> Seq<
    Seq<u8>,
>
    decreases fs.len(),
{
    if fs.len() == 0 {
        seq![]
    } else {
        (match fs[0].2 {
            Some(x) => if fs[0].0 == t {
                seq![x]
            } else {
                seq![]
            },
            None => seq![],
        }) + fs_payloads(fs.drop_first(), t)
    }
}

/// When a section's fields fit the descriptors: each present field is
/// described, its region fits its length form, and a tag recurs only if
/// repeatable.
pub open spec fn fs_ok(
    fs: Seq<(u16, LengthSpec, Option<Seq<u8>>)>,
    descs: Seq<FieldDesc>,
    seen: Seq<u16>,
) -> bool {
    forall|j: int|
        0 <= j < fs.len() && (#[trigger] fs[j]).2 is Some ==> {
            &&& encoding::tag_wf(fs[j].0)
            &&& find_desc(descs, fs[j].0) matches Some(d) && d.len == fs[j].1 && region_wf(
                d.len,
                d.width as int,
                fs[j].2.unwrap().len() as int,
            ) && (d.repeatable || (!seen.contains(fs[j].0) && forall|i: int|
                0 <= i < j ==> (#[trigger] fs[i]).0 != fs[j].0))
        }
}

/// Walking the decoder over a serialized section consumes it whole and
/// collects exactly its entries.
pub proof fn lemma_parse_cat(
    s: Seq<u8>,
    i: int,
    descs: Seq<FieldDesc>,
    seen: Seq<u16>,
    acc: Seq<(u16, Seq<u8>)>,
    fs: Seq<(u16, LengthSpec, Option<Seq<u8>>)>,
)
    requires
        0 <= i,
        s.len() <= usize::MAX,
        i + cat_opt_fields(fs).len() <= s.len(),
        s.subrange(i, i + cat_opt_fields(fs).len() as int) == cat_opt_fields(fs),
        fs_ok(fs, descs, seen),
    ensures
        spec_parse_fields(s, i, descs, seen, acc) == spec_parse_fields(
            s,
            i + cat_opt_fields(fs).len(),
            descs,
            seen + present_tags(fs),
            acc + cat_opt_entries(fs),
        ),
    decreases fs.len(),
{
    if fs.len() == 0 {
        assert(seen + present_tags(fs) =~= seen);
        assert(acc + cat_opt_entries(fs) =~= acc);
    } else {
        let hd = fs[0];
        let tl = fs.drop_first();
        let fb = opt_field_bytes(hd.0, hd.1, hd.2);
        let rest = cat_opt_fields(tl);
        lemma_peel(s, i, fb, rest);
        match hd.2 {
            None => {
                assert(fs_ok(tl, descs, seen)) by {
                    assert forall|j: int| 0 <= j < tl.len() && (#[trigger] tl[j]).2 is Some implies {
                        &&& encoding::tag_wf(tl[j].0)
                        &&& find_desc(descs, tl[j].0) matches Some(d) && d.len == tl[j].1
                            && region_wf(
                            d.len,
                            d.width as int,
                            tl[j].2.unwrap().len() as int,
                        ) && (d.repeatable || (!seen.contains(tl[j].0) && forall|i2: int|
                            0 <= i2 < j ==> (#[trigger] tl[i2]).0 != tl[j].0))
                    } by {
                        assert(tl[j] == fs[j + 1]);
                        assert(fs[j + 1].2 is Some);
                        let d = find_desc(descs, fs[j + 1].0).unwrap();
                        if !d.repeatable {
                            assert forall|i2: int| 0 <= i2 < j implies (#[trigger] tl[i2]).0
                                != tl[j].0 by {
                                assert(tl[i2] == fs[i2 + 1]);
                            };
                        }
                    };
                };
                lemma_parse_cat(s, i, descs, seen, acc, tl);
                assert(seen + present_tags(fs) =~= seen + present_tags(tl));
                assert(acc + cat_opt_entries(fs) =~= acc + cat_opt_entries(tl));
            },
            Some(region) => {
                let t = hd.0;
                let d = find_desc(descs, t).unwrap();
                lemma_parse_fields_step(s, i, descs, seen, acc, t, d, region);
                let i2 = i + fb.len();
                let seen2 = seen.push(t);
                let acc2 = acc.push((t, region));
                assert(fs_ok(tl, descs, seen2)) by {
                    assert forall|j: int| 0 <= j < tl.len() && (#[trigger] tl[j]).2 is Some implies {
                        &&& encoding::tag_wf(tl[j].0)
                        &&& find_desc(descs, tl[j].0) matches Some(dd) && dd.len == tl[j].1
                            && region_wf(
                            dd.len,
                            dd.width as int,
                            tl[j].2.unwrap().len() as int,
                        ) && (dd.repeatable || (!seen2.contains(tl[j].0) && forall|i3: int|
                            0 <= i3 < j ==> (#[trigger] tl[i3]).0 != tl[j].0))
                    } by {
                        assert(tl[j] == fs[j + 1]);
                        assert(fs[j + 1].2 is Some);
                        let dd = find_desc(descs, fs[j + 1].0).unwrap();
                        if !dd.repeatable {
                            assert(!seen.contains(fs[j + 1].0));
                            assert(fs[0].0 != fs[j + 1].0);
                            lemma_seen_push(seen, t, tl[j].0);
                            assert forall|i3: int| 0 <= i3 < j implies (#[trigger] tl[i3]).0
                                != tl[j].0 by {
                                assert(tl[i3] == fs[i3 + 1]);
                            };
                        }
                    };
                };
                lemma_parse_cat(s, i2, descs, seen2, acc2, tl);
                assert(seen + present_tags(fs) =~= seen2 + present_tags(tl));
                assert(acc + cat_opt_entries(fs) =~= acc2 + cat_opt_entries(tl));
            },
        }
    }
}

/// A section's bytes split at any field boundary.
pub proof fn lemma_cat_opt_fields_split(fs: Seq<(u16, LengthSpec, Option<Seq<u8>>)>, m: int)
    requires
        0 <= m <= fs.len(),
    ensures
        cat_opt_fields(fs) == cat_opt_fields(fs.subrange(0, m)) + cat_opt_fields(
            fs.subrange(m, fs.len() as int),
        ),
    decreases m,
{
    if m == 0 {
        assert(fs.subrange(0, 0) =~= Seq::<(u16, LengthSpec, Option<Seq<u8>>)>::empty());
        assert(fs.subrange(0, fs.len() as int) =~= fs);
        assert(cat_opt_fields(fs.subrange(0, 0)) + cat_opt_fields(fs) =~= cat_opt_fields(fs));
    } else {
        let tl = fs.drop_first();
        lemma_cat_opt_fields_split(tl, m - 1);
        assert(fs.subrange(0, m).drop_first() =~= tl.subrange(0, m - 1));
        assert(fs.subrange(m, fs.len() as int) =~= tl.subrange(m - 1, tl.len() as int));
        assert(fs.subrange(0, m)[0] == fs[0]);
        assert(fs.subrange(0, m).len() > 0);
        assert(cat_opt_fields(fs.subrange(0, m)) == opt_field_bytes(fs[0].0, fs[0].1, fs[0].2)
            + cat_opt_fields(tl.subrange(0, m - 1)));
        assert(cat_opt_fields(fs) == opt_field_bytes(fs[0].0, fs[0].1, fs[0].2) + cat_opt_fields(
            tl,
        ));
        assert(cat_opt_fields(fs.subrange(0, m)) + cat_opt_fields(
            fs.subrange(m, fs.len() as int),
        ) =~= cat_opt_fields(fs));
    }
}

/// A section's bytes, entries, present tags and lookups all distribute
/// over concatenation of field lists.
pub proof fn lemma_cat_opt_fields_cat(
    a: Seq<(u16, LengthSpec, Option<Seq<u8>>)>,
    b: Seq<(u16, LengthSpec, Option<Seq<u8>>)>,
)
    ensures
        cat_opt_fields(a + b) == cat_opt_fields(a) + cat_opt_fields(b),
        cat_opt_entries(a + b) == cat_opt_entries(a) + cat_opt_entries(b),
        present_tags(a + b) == present_tags(a) + present_tags(b),
    decreases a.len(),
{
    if a.len() == 0 {
        assert(a + b =~= b);
        assert(cat_opt_fields(a) =~= Seq::<u8>::empty());
        assert(cat_opt_entries(a) =~= Seq::<(u16, Seq<u8>)>::empty());
        assert(present_tags(a) =~= Seq::<u16>::empty());
        assert(cat_opt_fields(a) + cat_opt_fields(b) =~= cat_opt_fields(b));
        assert(cat_opt_entries(a) + cat_opt_entries(b) =~= cat_opt_entries(b));
        assert(present_tags(a) + present_tags(b) =~= present_tags(b));
    } else {
        lemma_cat_opt_fields_cat(a.drop_first(), b);
        assert((a + b).drop_first() =~= a.drop_first() + b);
        assert((a + b)[0] == a[0]);
        assert(cat_opt_fields(a + b) =~= cat_opt_fields(a) + cat_opt_fields(b));
        assert(cat_opt_entries(a + b) =~= cat_opt_entries(a) + cat_opt_entries(b));
        assert(present_tags(a + b) =~= present_tags(a) + present_tags(b));
    }
}

pub proof fn lemma_fs_lookup_cat(
    a: Seq<(u16, LengthSpec, Option<Seq<u8>>)>,
    b: Seq<(u16, LengthSpec, Option<Seq<u8>>)>,
    t: u16,
)
    ensures
        fs_lookup(a + b, t) == if fs_lookup(a, t) is Some {
            fs_lookup(a, t)
        } else {
            fs_lookup(b, t)
        },
    decreases a.len(),
{
    if a.len() == 0 {
        assert(a + b =~= b);
    } else {
        lemma_fs_lookup_cat(a.drop_first(), b, t);
        assert((a + b).drop_first() =~= a.drop_first() + b);
        assert((a + b)[0] == a[0]);
    }
}

pub proof fn lemma_fs_payloads_cat(
    a: Seq<(u16, LengthSpec, Option<Seq<u8>>)>,
    b: Seq<(u16, LengthSpec, Option<Seq<u8>>)>,
    t: u16,
)
    ensures
        fs_payloads(a + b, t) == fs_payloads(a, t) + fs_payloads(b, t),
    decreases a.len(),
{
    if a.len() == 0 {
        assert(a + b =~= b);
        assert(fs_payloads(a, t) =~= Seq::<Seq<u8>>::empty());
        assert(fs_payloads(a, t) + fs_payloads(b, t) =~= fs_payloads(b, t));
    } else {
        lemma_fs_payloads_cat(a.drop_first(), b, t);
        assert((a + b).drop_first() =~= a.drop_first() + b);
        assert((a + b)[0] == a[0]);
        assert(fs_payloads(a + b, t) =~= fs_payloads(a, t) + fs_payloads(b, t));
    }
}

/// A repeated field's run: one entry per element region, all under one
/// TLV-delimited tag.
pub open spec fn rep_fs(regions: Seq<Seq<u8>>, tag: u16) -> Seq<
    (u16, LengthSpec, Option<Seq<u8>>),
> {
    regions.map(|i: int, r: Seq<u8>| (tag, LengthSpec::Tlv, Some(r)))
}

/// What the lookups see of a repeated run: nothing under other tags, the
/// first region under its own, and all its regions in order.
pub proof fn lemma_rep_fs(regions: Seq<Seq<u8>>, tag: u16)
    ensures
        forall|t: u16| t != tag ==> #[trigger] fs_lookup(rep_fs(regions, tag), t) is None,
        fs_payloads(rep_fs(regions, tag), tag) == regions,
        forall|t: u16|
            t != tag ==> #[trigger] fs_payloads(rep_fs(regions, tag), t) =~= Seq::<
                Seq<u8>,
            >::empty(),
        regions.len() == 0 ==> fs_lookup(rep_fs(regions, tag), tag) is None,
        regions.len() > 0 ==> fs_lookup(rep_fs(regions, tag), tag) == Some(regions[0]),
    decreases regions.len(),
{
    let fs = rep_fs(regions, tag);
    if regions.len() == 0 {
        assert(fs =~= Seq::<(u16, LengthSpec, Option<Seq<u8>>)>::empty());
        assert(fs_payloads(fs, tag) =~= regions);
    } else {
        lemma_rep_fs(regions.drop_first(), tag);
        assert(fs.drop_first() =~= rep_fs(regions.drop_first(), tag));
        assert(fs[0] == (tag, LengthSpec::Tlv, Some(regions[0])));
        assert forall|t: u16| t != tag implies #[trigger] fs_lookup(fs, t) is None by {
            assert(fs_lookup(rep_fs(regions.drop_first(), tag), t) is None);
            assert(fs_lookup(fs.drop_first(), t) == fs_lookup(
                rep_fs(regions.drop_first(), tag),
                t,
            ));
        }
        let tl = regions.drop_first();
        lemma_payloads_fs_step(regions, tag);
        assert(fs_payloads(fs, tag) =~= regions);
        assert forall|t: u16| t != tag implies #[trigger] fs_payloads(fs, t) =~= Seq::<
            Seq<u8>,
        >::empty() by {
            lemma_payloads_fs_other(fs, t, tag);
        };
    }
}

proof fn lemma_payloads_fs_step(regions: Seq<Seq<u8>>, tag: u16)
    requires
        regions.len() > 0,
        fs_payloads(rep_fs(regions.drop_first(), tag), tag) == regions.drop_first(),
    ensures
        fs_payloads(rep_fs(regions, tag), tag) == regions,
{
    let fs = rep_fs(regions, tag);
    let hd: Seq<(u16, LengthSpec, Option<Seq<u8>>)> = seq![
        (tag, LengthSpec::Tlv, Some(regions[0])),
    ];
    assert(fs =~= hd + rep_fs(regions.drop_first(), tag));
    lemma_fs_payloads_cat(hd, rep_fs(regions.drop_first(), tag), tag);
    assert(fs_payloads(hd, tag) =~= seq![regions[0]]) by {
        assert(hd.drop_first() =~= Seq::<(u16, LengthSpec, Option<Seq<u8>>)>::empty());
        assert(fs_payloads(Seq::<(u16, LengthSpec, Option<Seq<u8>>)>::empty(), tag) =~= Seq::<
            Seq<u8>,
        >::empty());
    };
    assert(seq![regions[0]] + regions.drop_first() =~= regions);
}

proof fn lemma_payloads_fs_other(
    fs: Seq<(u16, LengthSpec, Option<Seq<u8>>)>,
    t: u16,
    tag: u16,
)
    requires
        t != tag,
        forall|j: int| 0 <= j < fs.len() ==> (#[trigger] fs[j]).0 == tag,
    ensures
        fs_payloads(fs, t) =~= Seq::<Seq<u8>>::empty(),
    decreases fs.len(),
{
    if fs.len() > 0 {
        lemma_payloads_fs_other(fs.drop_first(), t, tag);
        assert(fs.drop_first().len() == fs.len() - 1);
        assert forall|j: int|
            0 <= j < fs.drop_first().len() implies (#[trigger] fs.drop_first()[j]).0 == tag by {
            assert(fs.drop_first()[j] == fs[j + 1]);
        };
    }
}

/// Looking an entry up in the collected entries of a section finds the
/// first present field with that tag.
pub proof fn lemma_find_entry_fs(fs: Seq<(u16, LengthSpec, Option<Seq<u8>>)>, t: u16)
    ensures
        find_entry(cat_opt_entries(fs), t) == fs_lookup(fs, t),
    decreases fs.len(),
{
    if fs.len() > 0 {
        lemma_find_entry_fs(fs.drop_first(), t);
        match fs[0].2 {
            Some(x) => {
                let e = cat_opt_entries(fs);
                assert(e[0] == (fs[0].0, x));
                assert(e.drop_first() =~= cat_opt_entries(fs.drop_first()));
            },
            None => {
                assert(cat_opt_entries(fs) =~= cat_opt_entries(fs.drop_first()));
            },
        }
    }
}

/// Collecting a tag's payloads from a section's entries gives the present
/// regions of that tag, in order.
pub proof fn lemma_payloads_fs(fs: Seq<(u16, LengthSpec, Option<Seq<u8>>)>, t: u16)
    ensures
        payloads_of(cat_opt_entries(fs), t) == fs_payloads(fs, t),
    decreases fs.len(),
{
    if fs.len() > 0 {
        lemma_payloads_fs(fs.drop_first(), t);
        let hd_e: Seq<(u16, Seq<u8>)> = match fs[0].2 {
            Some(x) => seq![(fs[0].0, x)],
            None => seq![],
        };
        lemma_payloads_cat(hd_e, cat_opt_entries(fs.drop_first()), t);
        let hd_p: Seq<Seq<u8>> = match fs[0].2 {
            Some(x) => if fs[0].0 == t {
                seq![x]
            } else {
                seq![]
            },
            None => seq![],
        };
        assert(payloads_of(hd_e, t) =~= hd_p) by {
            match fs[0].2 {
                Some(x) => {
                    assert(hd_e.drop_last() =~= Seq::<(u16, Seq<u8>)>::empty());
                    assert(hd_e.last() == (fs[0].0, x));
                    assert(payloads_of(Seq::<(u16, Seq<u8>)>::empty(), t) =~= Seq::<
                        Seq<u8>,
                    >::empty());
                },
                None => {
                    assert(hd_e =~= Seq::<(u16, Seq<u8>)>::empty());
                },
            }
        };
    }
}

/// `payloads_of` distributes over concatenation.
pub proof fn lemma_payloads_cat(a: Seq<(u16, Seq<u8>)>, b: Seq<(u16, Seq<u8>)>, t: u16)
    ensures
        payloads_of(a + b, t) == payloads_of(a, t) + payloads_of(b, t),
    decreases b.len(),
{
    if b.len() == 0 {
        assert(a + b =~= a);
        assert(payloads_of(a, t) + payloads_of(b, t) =~= payloads_of(a, t));
    } else {
        lemma_payloads_cat(a, b.drop_last(), t);
        assert((a + b).drop_last() =~= a + b.drop_last());
        assert((a + b).last() == b.last());
        assert(payloads_of(a, t) + payloads_of(b, t) =~= payloads_of(a + b, t));
    }
}

/// A present field's tag stands among the present tags.
pub proof fn lemma_present_tags_contains(fs: Seq<(u16, LengthSpec, Option<Seq<u8>>)>, j: int)
    requires
        0 <= j < fs.len(),
        fs[j].2 is Some,
    ensures
        present_tags(fs).contains(fs[j].0),
    decreases fs.len(),
{
    if j == 0 {
        assert(present_tags(fs)[0] == fs[0].0);
    } else {
        lemma_present_tags_contains(fs.drop_first(), j - 1);
        let pt = present_tags(fs.drop_first());
        let k = choose|k: int| 0 <= k < pt.len() && pt[k] == fs.drop_first()[j - 1].0;
        match fs[0].2 {
            Some(_) => {
                assert(present_tags(fs)[k + 1] == pt[k]);
            },
            None => {
                assert(present_tags(fs)[k] == pt[k]);
            },
        }
        assert(fs.drop_first()[j - 1] == fs[j]);
    }
}

/// Membership in the concatenation of seen tags.
pub proof fn lemma_contains_cat(a: Seq<u16>, b: Seq<u16>, x: u16)
    ensures
        (a + b).contains(x) <==> a.contains(x) || b.contains(x),
{
    if a.contains(x) {
        let j = choose|j: int| 0 <= j < a.len() && a[j] == x;
        assert((a + b)[j] == x);
    }
    if b.contains(x) {
        let j = choose|j: int| 0 <= j < b.len() && b[j] == x;
        assert((a + b)[a.len() + j] == x);
    }
    if (a + b).contains(x) {
        let j = choose|j: int| 0 <= j < (a + b).len() && (a + b)[j] == x;
        if j < a.len() {
            assert(a[j] == x);
        } else {
            assert(b[j - a.len()] == x);
        }
    }
}

/// The sorted order of the missing-tags report.
pub open spec fn tags_sorted(s: Seq<u16>) -> bool {
    forall|a: int, b: int| 0 <= a < b < s.len() ==> s[a] <= s[b]
}

pub proof fn lemma_insert_sorted_keeps_sorted(x: u16, s: Seq<u16>)
    requires
        tags_sorted(s),
    ensures
        tags_sorted(insert_sorted(x, s)),
        insert_sorted(x, s).to_multiset() == s.push(x).to_multiset(),
    decreases s.len(),
{
    broadcast use vstd::seq_lib::to_multiset_insert;
    broadcast use vstd::seq_lib::to_multiset_build;

    if s.len() == 0 {
        assert(seq![x] =~= s.push(x));
    } else if x <= s[0] {
        assert(seq![x] + s =~= s.insert(0, x));
    } else {
        let rest = s.drop_first();
        assert(tags_sorted(rest)) by {
            assert forall|a: int, b: int| 0 <= a < b < rest.len() implies rest[a] <= rest[b] by {
                assert(rest[a] == s[a + 1] && rest[b] == s[b + 1]);
            };
        };
        lemma_insert_sorted_keeps_sorted(x, rest);
        let inner = insert_sorted(x, rest);
        let whole = seq![s[0]] + inner;
        assert(insert_sorted(x, s) == whole);
        assert(tags_sorted(whole)) by {
            assert forall|a: int, b: int| 0 <= a < b < whole.len() implies whole[a] <= whole[b] by {
                if a == 0 {
                    assert(whole[0] == s[0]);
                    assert(inner.contains(inner[b - 1]));
                    lemma_insert_sorted_members(x, rest, whole[b]);
                    if whole[b] == x {
                    } else {
                        let w = choose|w: int| 0 <= w < rest.len() && rest[w] == whole[b];
                        assert(s[w + 1] == whole[b]);
                    }
                } else {
                    assert(whole[a] == inner[a - 1] && whole[b] == inner[b - 1]);
                }
            };
        };
        assert(whole.to_multiset() == s.push(x).to_multiset()) by {
            assert(whole =~= inner.insert(0, s[0]));
            assert(inner.to_multiset() == rest.push(x).to_multiset());
            assert(rest.push(x).to_multiset() == rest.to_multiset().insert(x));
            assert(s =~= rest.insert(0, s[0]));
            assert(s.to_multiset() == rest.to_multiset().insert(s[0]));
            assert(s.push(x).to_multiset() == s.to_multiset().insert(x));
            assert(whole.to_multiset() == rest.to_multiset().insert(x).insert(s[0]));
            assert(rest.to_multiset().insert(x).insert(s[0]) =~= rest.to_multiset().insert(
                s[0],
            ).insert(x));
        };
    }
}

/// Every element of an insertion result is the inserted one or one of the
/// sequence.
proof fn lemma_insert_sorted_members(x: u16, s: Seq<u16>, y: u16)
    requires
        insert_sorted(x, s).contains(y),
    ensures
        y == x || exists|w: int| 0 <= w < s.len() && s[w] == y,
    decreases s.len(),
{
    let r = insert_sorted(x, s);
    let j = choose|j: int| 0 <= j < r.len() && r[j] == y;
    if s.len() == 0 {
    } else if x <= s[0] {
        if j > 0 {
            assert(s[j - 1] == y);
        }
    } else {
        if j == 0 {
            assert(s[0] == y);
        } else {
            let inner = insert_sorted(x, s.drop_first());
            assert(inner[j - 1] == y);
            assert(inner.contains(y));
            lemma_insert_sorted_members(x, s.drop_first(), y);
            if y != x {
                let w = choose|w: int|
                    0 <= w < s.drop_first().len() && s.drop_first()[w] == y;
                assert(s[w + 1] == y);
            }
        }
    }
}

/// The missing-tags report is sorted ascending and holds exactly the
/// required tags that were not seen.
pub proof fn lemma_sort_tags_sorted(s: Seq<u16>)
    ensures
        tags_sorted(sort_tags(s)),
        sort_tags(s).to_multiset() == s.to_multiset(),
    decreases s.len(),
{
    broadcast use vstd::seq_lib::to_multiset_build;

    if s.len() > 0 {
        lemma_sort_tags_sorted(s.drop_last());
        lemma_insert_sorted_keeps_sorted(s.last(), sort_tags(s.drop_last()));
        assert(s.drop_last().push(s.last()) =~= s);
        assert(sort_tags(s.drop_last()).push(s.last()).to_multiset() == sort_tags(
            s.drop_last(),
        ).to_multiset().insert(s.last()));
        assert(s.drop_last().push(s.last()).to_multiset() == s.drop_last().to_multiset().insert(
            s.last(),
        ));
        assert(sort_tags(s) == insert_sorted(s.last(), sort_tags(s.drop_last())));
        assert(sort_tags(s).to_multiset() == sort_tags(s.drop_last()).push(s.last()).to_multiset());
        assert(sort_tags(s.drop_last()).to_multiset() == s.drop_last().to_multiset());
    } else {
        assert(s =~= Seq::<u16>::empty());
        assert(sort_tags(s) =~= s);
    }
}

} // verus!
