use zvt::encoding;
use zvt::fields;
use zvt::fields::LengthSpec;
use zvt::fields::NumEncoding;
use zvt::length::Adpu;
use zvt::length::Empty;
use zvt::length::Fixed;
use zvt::length::LlvImpl;
use zvt::length::Tlv;
use zvt::packets;
use zvt::packets::PartialReversalReceiptNo;
use zvt::Tag;
use zvt::ZVTError;

#[test]
fn test_tlv() {
    let data = vec![0usize, 127, 255, 256, 300];
    for d in data {
        let bytes = Tlv::serialize(d);
        let (output, _) = Tlv::deserialize(&bytes, 0).unwrap();
        assert_eq!(d, output, "{:?}", bytes);
    }
}

#[test]
fn test_zvt_serializer_impl() {
    // Without length and tag.
    assert_eq!(
        fields::ser_u16_tagged(12, None, LengthSpec::Unprefixed, NumEncoding::LittleEndian),
        [12, 0]
    );
    assert_eq!(
        fields::de_u16_tagged(&[12, 0], 0, None, LengthSpec::Unprefixed, NumEncoding::LittleEndian)
            .unwrap()
            .0,
        12
    );

    // With length and custom encoding.
    assert_eq!(
        fields::ser_u16_tagged(12, None, LengthSpec::Tlv, NumEncoding::LittleEndian),
        [2, 12, 0]
    );
    assert_eq!(
        fields::de_u16_tagged(&[2, 12, 0], 0, None, LengthSpec::Tlv, NumEncoding::LittleEndian)
            .unwrap()
            .0,
        12
    );
    assert_eq!(
        fields::ser_u16_tagged(12, None, LengthSpec::Adpu, NumEncoding::LittleEndian),
        [2, 12, 0]
    );
    assert_eq!(
        fields::de_u16_tagged(&[2, 12, 0], 0, None, LengthSpec::Adpu, NumEncoding::LittleEndian)
            .unwrap()
            .0,
        12
    );
    assert_eq!(
        fields::ser_u16_tagged(12, None, LengthSpec::Adpu, NumEncoding::Bcd),
        [1, 0x12]
    );
    assert_eq!(
        fields::de_u16_tagged(&[1, 0x12], 0, None, LengthSpec::Adpu, NumEncoding::Bcd)
            .unwrap()
            .0,
        12
    );

    // With length and tags.
    assert_eq!(
        fields::ser_u16_tagged(12, Some(Tag(11)), LengthSpec::Unprefixed, NumEncoding::LittleEndian),
        [11, 12, 0]
    );
    assert_eq!(
        fields::de_u16_tagged(
            &[11, 12, 0],
            0,
            Some(Tag(11)),
            LengthSpec::Unprefixed,
            NumEncoding::LittleEndian
        )
        .unwrap()
        .0,
        12
    );
    assert_eq!(
        fields::ser_u16_tagged(12, Some(Tag(11)), LengthSpec::Tlv, NumEncoding::LittleEndian),
        [11, 2, 12, 0]
    );
    assert_eq!(
        fields::de_u16_tagged(
            &[11, 2, 12, 0],
            0,
            Some(Tag(11)),
            LengthSpec::Tlv,
            NumEncoding::LittleEndian
        )
        .unwrap()
        .0,
        12
    );

    // A two-byte tag and big-endian value, composed from the pieces.
    let mut be = encoding::enc_tag_be(Tag(11));
    be.extend(Tlv::serialize(2));
    be.extend(encoding::enc_u16_be(12));
    assert_eq!(be, [0, 11, 2, 0, 12]);
    let (tag, p) = encoding::dec_tag_be(&be, 0).unwrap();
    assert_eq!(tag, Tag(11));
    let (len, p) = Tlv::deserialize(&be, p).unwrap();
    assert_eq!(len, 2);
    let (value, _) = encoding::dec_u16_be(&be, p).unwrap();
    assert_eq!(value, 12);

    // Failures.
    assert_eq!(
        fields::de_u16_tagged(&[1], 0, None, LengthSpec::Unprefixed, NumEncoding::LittleEndian),
        Err(ZVTError::IncompleteData)
    );
    assert_eq!(
        fields::de_u16_tagged(
            &[12, 12, 0],
            0,
            Some(Tag(11)),
            LengthSpec::Unprefixed,
            NumEncoding::LittleEndian
        ),
        Err(ZVTError::WrongTag(Tag(12)))
    );
}

#[test]
fn test_zvt_serializer_impl_option() {
    // Without a tag.
    assert_eq!(
        fields::ser_u16_tagged(12, None, LengthSpec::Unprefixed, NumEncoding::LittleEndian),
        [12, 0]
    );
    assert_eq!(
        fields::de_opt_u16_tagged(
            &[12, 0],
            0,
            None,
            LengthSpec::Unprefixed,
            NumEncoding::LittleEndian
        )
        .unwrap()
        .0,
        Some(12)
    );
    assert_eq!(
        fields::de_opt_u16_tagged(&[0], 0, None, LengthSpec::Unprefixed, NumEncoding::LittleEndian)
            .unwrap()
            .0,
        None
    );

    // With a tag.
    assert_eq!(
        fields::ser_u16_tagged(12, Some(Tag(11)), LengthSpec::Unprefixed, NumEncoding::LittleEndian),
        [11, 12, 0]
    );
    assert_eq!(
        fields::de_opt_u16_tagged(
            &[11, 12, 0],
            0,
            Some(Tag(11)),
            LengthSpec::Unprefixed,
            NumEncoding::LittleEndian
        )
        .unwrap()
        .0,
        Some(12)
    );
    assert_eq!(
        fields::de_opt_u16_tagged(
            &[],
            0,
            Some(Tag(11)),
            LengthSpec::Unprefixed,
            NumEncoding::LittleEndian
        ),
        Err(ZVTError::IncompleteData)
    );
    assert_eq!(
        fields::de_opt_u16_tagged(
            &[0],
            0,
            Some(Tag(11)),
            LengthSpec::Unprefixed,
            NumEncoding::LittleEndian
        ),
        Err(ZVTError::WrongTag(Tag(0)))
    );
}

fn bar_descs() -> Vec<fields::FieldDesc> {
    vec![
        fields::FieldDesc { tag: 0x3, len: LengthSpec::Unprefixed, width: 4, repeatable: false, required: false },
        fields::FieldDesc { tag: 0x1, len: LengthSpec::Unprefixed, width: 2, repeatable: false, required: true },
        fields::FieldDesc { tag: 0x2, len: LengthSpec::Unprefixed, width: 4, repeatable: false, required: false },
    ]
}

fn u32_le(pl: &[u8]) -> u32 {
    pl[0] as u32 + pl[1] as u32 * 256 + pl[2] as u32 * 65536 + pl[3] as u32 * 16777216
}

// One untagged byte, then tagged fields in any order: the shape every
// legacy packet shares, checked against hand-written frames.
#[test]
fn test_command() {
    // A value with a big-endian tagged field present.
    let bytes = vec![13u8, 12, 9, 1, 3, 0, 0, 0, 2, 1, 3, 0];
    let (ps, pe) = packets::de_frame(&bytes, 13, 12).unwrap();
    let body = &bytes[ps..pe];
    let (a, p) = fields::de_u8_tagged(body, 0, None, LengthSpec::Unprefixed, NumEncoding::LittleEndian)
        .unwrap();
    assert_eq!(a, 1);
    let (entries, _) = fields::parse_tagged_fields(body, p, &bar_descs()).unwrap();
    let b = fields::entry_opt_u32_be(&entries, 0x3).unwrap();
    assert_eq!(b, Some(2));
    let c = fields::find_payload(&entries, 0x1).map(|pl| pl[0] as u16 + pl[1] as u16 * 256);
    assert_eq!(c, Some(3));
    let d = fields::find_payload(&entries, 0x2).map(|pl| u32_le(&pl));
    assert_eq!(d, None);

    // The other optional present instead.
    let bytes = vec![13u8, 12, 9, 1, 1, 3, 0, 2, 4, 0, 0, 0];
    let (ps, pe) = packets::de_frame(&bytes, 13, 12).unwrap();
    let body = &bytes[ps..pe];
    let (a, p) = fields::de_u8_tagged(body, 0, None, LengthSpec::Unprefixed, NumEncoding::LittleEndian)
        .unwrap();
    assert_eq!(a, 1);
    let (entries, _) = fields::parse_tagged_fields(body, p, &bar_descs()).unwrap();
    let d = fields::find_payload(&entries, 0x2).map(|pl| u32_le(&pl));
    assert_eq!(d, Some(4));

    // The tagged fields out of order.
    for bytes in [
        vec![13u8, 12, 14, 1, 2, 4, 0, 0, 0, 1, 3, 0, 3, 0, 0, 0, 2],
        vec![13u8, 12, 14, 1, 2, 4, 0, 0, 0, 3, 0, 0, 0, 2, 1, 3, 0],
    ] {
        let (ps, pe) = packets::de_frame(&bytes, 13, 12).unwrap();
        let body = &bytes[ps..pe];
        let (a, p) =
            fields::de_u8_tagged(body, 0, None, LengthSpec::Unprefixed, NumEncoding::LittleEndian)
                .unwrap();
        assert_eq!(a, 1);
        let (entries, _) = fields::parse_tagged_fields(body, p, &bar_descs()).unwrap();
        assert_eq!(fields::entry_opt_u32_be(&entries, 0x3).unwrap(), Some(2));
        let c = fields::find_payload(&entries, 0x1).map(|pl| pl[0] as u16 + pl[1] as u16 * 256);
        assert_eq!(c, Some(3));
        let d = fields::find_payload(&entries, 0x2).map(|pl| u32_le(&pl));
        assert_eq!(d, Some(4));
    }

    // Missing required field.
    let bytes = vec![13u8, 12, 11, 1, 2, 4, 0, 0, 0, 3, 0, 0, 0, 2];
    let (ps, pe) = packets::de_frame(&bytes, 13, 12).unwrap();
    let body = &bytes[ps..pe];
    let (_, p) = fields::de_u8_tagged(body, 0, None, LengthSpec::Unprefixed, NumEncoding::LittleEndian)
        .unwrap();
    assert_eq!(
        fields::parse_tagged_fields(body, p, &bar_descs()),
        Err(ZVTError::MissingRequiredTags(vec![Tag(0x1)]))
    );

    // Duplicate field.
    let bytes = vec![13u8, 12, 14, 1, 3, 0, 0, 0, 2, 1, 3, 0, 3, 0, 0, 0, 2];
    let (ps, pe) = packets::de_frame(&bytes, 13, 12).unwrap();
    let body = &bytes[ps..pe];
    let (_, p) = fields::de_u8_tagged(body, 0, None, LengthSpec::Unprefixed, NumEncoding::LittleEndian)
        .unwrap();
    assert_eq!(
        fields::parse_tagged_fields(body, p, &bar_descs()),
        Err(ZVTError::DuplicateTag(Tag(3)))
    );
}

#[test]
fn test_encodings() {
    // A big-endian scalar, a TLV-delimited BCD number, and a hex string.
    let mut bytes = fields::ser_u16_tagged(1, None, LengthSpec::Unprefixed, NumEncoding::BigEndian);
    bytes.extend(fields::ser_usize_bcd(2, None, LengthSpec::Tlv));
    bytes.extend(fields::ser_string_field("ffde", None, LengthSpec::Unprefixed, true));
    assert_eq!(bytes, vec![0u8, 1, 1, 2, 0xff, 0xde]);

    let (a, p) = fields::de_u16_tagged(&bytes, 0, None, LengthSpec::Unprefixed, NumEncoding::BigEndian)
        .unwrap();
    assert_eq!(a, 1);
    let (b, p) = fields::de_usize_bcd(&bytes, p, LengthSpec::Tlv).unwrap();
    assert_eq!(b, 2);
    let (c, _) = fields::de_string_field(&bytes, p, LengthSpec::Unprefixed, true).unwrap();
    assert_eq!(c, "ffde");
}

#[test]
fn test_named_struct() {
    // Two untagged scalars in declaration order.
    let mut bytes = fields::ser_u8_tagged(1, None, LengthSpec::Unprefixed, NumEncoding::LittleEndian);
    bytes.extend([2u8, 0, 0, 0]);
    assert_eq!(bytes, vec![1u8, 2, 0, 0, 0]);
    let (x, p) = fields::de_u8_tagged(&bytes, 0, None, LengthSpec::Unprefixed, NumEncoding::LittleEndian)
        .unwrap();
    assert_eq!(x, 1);
    assert_eq!(u32_le(&bytes[p..]), 2);
    assert_eq!(bytes.len() - p, 4);
}

#[test]
fn test_foo() {
    // An untagged fixed-width BCD field and an absent tagged optional.
    let bytes = fields::ser_usize_bcd(1, None, LengthSpec::Fixed(2));
    assert_eq!(bytes, vec![0u8, 0x01]);
    let (a, p) = fields::de_usize_bcd(&bytes, 0, LengthSpec::Fixed(2)).unwrap();
    assert_eq!(a, 1);
    let descs = vec![fields::FieldDesc {
        tag: 0x13,
        len: LengthSpec::Fixed(4),
        width: 0,
        repeatable: false,
        required: false,
    }];
    let (entries, _) = fields::parse_tagged_fields(&bytes, p, &descs).unwrap();
    assert_eq!(fields::entry_opt_usize_bcd(&entries, 0x13), None);
}

#[test]
fn test_nested() {
    // A nested block inside a TLV envelope survives the round trip.
    let inner_body = {
        let mut v = fields::ser_u8_tagged(2, None, LengthSpec::Unprefixed, NumEncoding::LittleEndian);
        v.extend(fields::ser_u8_tagged(
            3,
            Some(Tag(0x12)),
            LengthSpec::Unprefixed,
            NumEncoding::LittleEndian,
        ));
        v
    };
    let mut bytes = fields::ser_u16_tagged(1, None, LengthSpec::Unprefixed, NumEncoding::LittleEndian);
    let mut out = Vec::new();
    fields::ser_field(&mut out, Some(Tag(0x12)), LengthSpec::Tlv, &inner_body);
    bytes.extend(out);

    let (a, p) = fields::de_u16_tagged(&bytes, 0, None, LengthSpec::Unprefixed, NumEncoding::LittleEndian)
        .unwrap();
    assert_eq!(a, 1);
    let descs = vec![fields::FieldDesc {
        tag: 0x12,
        len: LengthSpec::Tlv,
        width: 0,
        repeatable: false,
        required: false,
    }];
    let (entries, _) = fields::parse_tagged_fields(&bytes, p, &descs).unwrap();
    let pl = fields::find_payload(&entries, 0x12).unwrap();
    let (ia, ip) = fields::de_u8_tagged(&pl, 0, None, LengthSpec::Unprefixed, NumEncoding::LittleEndian)
        .unwrap();
    assert_eq!(ia, 2);
    let (ib, _) = fields::de_u8_tagged(
        &pl,
        ip,
        Some(Tag(0x12)),
        LengthSpec::Unprefixed,
        NumEncoding::LittleEndian,
    )
    .unwrap();
    assert_eq!(ib, 3);
}

#[test]
fn test_tagged_but_optional_but_still_tagged() {
    let descs = vec![
        fields::FieldDesc {
            tag: 0x11,
            len: LengthSpec::Unprefixed,
            width: 2,
            repeatable: false,
            required: true,
        },
        fields::FieldDesc {
            tag: 0x12,
            len: LengthSpec::Unprefixed,
            width: 2,
            repeatable: false,
            required: false,
        },
    ];
    // Present and absent optional both round-trip.
    for b in [Some(2u16), None] {
        let mut bytes =
            fields::ser_u16_tagged(1, Some(Tag(0x11)), LengthSpec::Unprefixed, NumEncoding::LittleEndian);
        if let Some(x) = b {
            bytes.extend(fields::ser_u16_tagged(
                x,
                Some(Tag(0x12)),
                LengthSpec::Unprefixed,
                NumEncoding::LittleEndian,
            ));
        }
        let (entries, _) = fields::parse_tagged_fields(&bytes, 0, &descs).unwrap();
        let a = fields::find_payload(&entries, 0x11).map(|pl| pl[0] as u16 + pl[1] as u16 * 256);
        assert_eq!(a, Some(1));
        let bb = fields::find_payload(&entries, 0x12).map(|pl| pl[0] as u16 + pl[1] as u16 * 256);
        assert_eq!(bb, b);
    }

    // The required field missing is reported.
    for data in [vec![], vec![0x12u8, 0, 0]] {
        assert_eq!(
            fields::parse_tagged_fields(&data, 0, &descs),
            Err(ZVTError::MissingRequiredTags(vec![Tag(0x11)]))
        );
    }
}

#[test]
fn test_length_codecs_roundtrip() {
    for n in [0usize, 1, 9, 10, 98, 99] {
        let b = LlvImpl::serialize(2, n);
        assert_eq!(LlvImpl::deserialize(&b, 0, 2).unwrap().0, n);
    }
    for n in [0usize, 254, 255, 256, 65535] {
        let b = Adpu::serialize(n);
        assert_eq!(Adpu::deserialize(&b, 0).unwrap().0, n);
    }
    assert_eq!(Empty::serialize(7), Vec::<u8>::new());
    assert_eq!(Empty::deserialize(&[1, 2, 3], 0).unwrap(), (3, 0));
    assert_eq!(Fixed::serialize(4, 1), vec![0u8, 0, 0]);
    assert_eq!(Fixed::deserialize(&[1, 2, 3, 4], 0, 4).unwrap(), (4, 0));
    assert_eq!(Fixed::deserialize(&[1, 2], 0, 4), Err(ZVTError::IncompleteData));
}

#[test]
fn test_tlv_error_forms() {
    // Unimplemented leading length bytes.
    assert_eq!(Tlv::deserialize(&[0x80, 1], 0), Err(ZVTError::NonImplemented));
    assert_eq!(Tlv::deserialize(&[0x83, 1], 0), Err(ZVTError::NonImplemented));
    assert_eq!(Tlv::deserialize(&[0xfe, 1], 0), Err(ZVTError::NonImplemented));
    assert_eq!(Tlv::deserialize(&[], 0), Err(ZVTError::IncompleteData));
    // A 300-byte payload announces itself with the two-byte form.
    assert_eq!(Tlv::serialize(300), vec![0x82u8, 0x01, 0x2c]);
}

#[test]
fn test_receipt_no_codec() {
    assert_eq!(PartialReversalReceiptNo::encode(0xffff), vec![0xffu8, 0xff]);
    assert_eq!(PartialReversalReceiptNo::encode(1234), vec![0x12u8, 0x34]);
    assert_eq!(PartialReversalReceiptNo::encode(7), vec![0x00u8, 0x07]);
    for v in [0usize, 7, 42, 1234, 9999, 0xffff] {
        let b = PartialReversalReceiptNo::encode(v);
        assert_eq!(PartialReversalReceiptNo::decode(&b, 0).unwrap().0, v);
    }
    assert_eq!(
        PartialReversalReceiptNo::decode(&[0xff], 0),
        Err(ZVTError::IncompleteData)
    );
}
