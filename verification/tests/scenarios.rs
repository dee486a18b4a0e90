use zvt::commands::Command;
use zvt::feig;
use zvt::packets;
use zvt::packets::tlv;
use zvt::sequences;
use zvt::ZVTError;

#[test]
fn registration_encodes_to_known_frame() {
    let p = packets::Registration {
        password: 123456,
        config_byte: 0xde,
        currency: Some(978),
        tlv: None,
    };
    assert_eq!(
        p.zvt_serialize(),
        vec![0x06u8, 0x00, 0x06, 0x12, 0x34, 0x56, 0xde, 0x09, 0x78]
    );
    let (back, used) = packets::Registration::zvt_deserialize(&p.zvt_serialize()).unwrap();
    assert_eq!(back, p);
    assert_eq!(used, 9);
}

#[test]
fn abort_decodes_from_known_frame() {
    let bytes = [0x06u8, 0x1e, 0x01, 0xa1];
    let (p, used) = packets::Abort::zvt_deserialize(&bytes).unwrap();
    assert_eq!(p, packets::Abort { error: 0xa1 });
    assert_eq!(used, 4);
}

#[test]
fn partial_reversal_query_encodes_to_known_frame() {
    let p = packets::PartialReversal {
        receipt_no: Some(0xffff),
        amount: None,
        payment_type: None,
        currency: None,
        tlv: None,
    };
    assert_eq!(p.zvt_serialize(), vec![0x06u8, 0x23, 0x03, 0x87, 0xff, 0xff]);
}

#[test]
fn enhanced_system_information_with_missing_battery() {
    let bytes = b"\x06\x0f\x2417FE5C90GER-APP-v2.0.9   525251118.0";
    let (p, _) =
        feig::packets::CVendFunctionsEnhancedSystemInformationCompletion::zvt_deserialize(bytes)
            .unwrap();
    assert_eq!(p.device_id, "17FE5C90");
    assert_eq!(p.sw_version, "GER-APP-v2.0.9   ");
    assert_eq!(p.terminal_id, "52525111");
    assert_eq!(p.battery_voltage, "");
    assert_eq!(p.temperature, "8.0");
}

#[test]
fn enhanced_system_information_with_battery() {
    let bytes = b"\x06\x0f\x2817FE5C90GER-APP-v2.0.9   52525111ABCD8.0";
    let (p, _) =
        feig::packets::CVendFunctionsEnhancedSystemInformationCompletion::zvt_deserialize(bytes)
            .unwrap();
    assert_eq!(p.device_id, "17FE5C90");
    assert_eq!(p.battery_voltage, "ABCD");
    assert_eq!(p.temperature, "8.0");
}

#[test]
fn request_for_data_decodes_file_and_offset() {
    // The TLV block: tag 2D wrapping 1D 01 23 and 1E 04 00 00 FD E8.
    let inner = vec![0x1du8, 0x01, 0x23, 0x1e, 0x04, 0x00, 0x00, 0xfd, 0xe8];
    let mut tlv_bytes = vec![0x2du8, inner.len() as u8];
    tlv_bytes.extend(&inner);
    let mut body = vec![0x06u8, tlv_bytes.len() as u8];
    body.extend(&tlv_bytes);
    let mut frame = vec![0x04u8, 0x0c, body.len() as u8];
    frame.extend(&body);

    let (p, _) = feig::packets::RequestForData::zvt_deserialize(&frame).unwrap();
    let (file_id, offset) = feig::sequences::parse_request_for_data(&p).unwrap();
    assert_eq!(file_id, 0x23);
    assert_eq!(offset, 65000);
    // And the same frame serializes back.
    assert_eq!(p.zvt_serialize(), frame);
}

#[test]
fn request_for_data_missing_layers_are_incomplete() {
    let p = feig::packets::RequestForData { tlv: None };
    assert_eq!(
        feig::sequences::parse_request_for_data(&p),
        Err(ZVTError::IncompleteData)
    );
    let p = feig::packets::RequestForData {
        tlv: Some(feig::tlv::WriteData { file: None }),
    };
    assert_eq!(
        feig::sequences::parse_request_for_data(&p),
        Err(ZVTError::IncompleteData)
    );
    let p = feig::packets::RequestForData {
        tlv: Some(feig::tlv::WriteData {
            file: Some(feig::tlv::File {
                file_id: Some(3),
                file_offset: None,
                file_size: None,
                payload: None,
            }),
        }),
    };
    assert_eq!(
        feig::sequences::parse_request_for_data(&p),
        Err(ZVTError::IncompleteData)
    );
}

#[test]
fn command_registry_dispatches_by_control_field() {
    let bytes = [0x06u8, 0x1e, 0x01, 0x6c];
    match Command::zvt_parse(&bytes).unwrap() {
        Command::Abort(a) => assert_eq!(a.error, 0x6c),
        _ => panic!("wrong variant"),
    }
    let nack = [0x84u8, 0x9c, 0x00];
    match Command::zvt_parse(&nack).unwrap() {
        Command::Nack(n) => assert_eq!(n.instr, 0x9c),
        _ => panic!("wrong variant"),
    }
    assert!(matches!(
        Command::zvt_parse(&[0x99u8, 0x00, 0x00]),
        Err(ZVTError::WrongTag(_))
    ));
    assert_eq!(Command::zvt_parse(&[0x06u8]), Err(ZVTError::IncompleteData));
}

#[test]
fn read_card_roundtrip() {
    let p = packets::ReadCard {
        timeout_sec: 15,
        card_type: Some(16),
        dialog_control: Some(2),
        tlv: Some(tlv::ReadCard {
            card_reading_control: Some(0xd0),
            card_type: Some(0x07),
        }),
    };
    let bytes = p.zvt_serialize();
    let (back, used) = packets::ReadCard::zvt_deserialize(&bytes).unwrap();
    assert_eq!(back, p);
    assert_eq!(used, bytes.len());
}

#[test]
fn completion_data_roundtrip() {
    let p = packets::CompletionData {
        result_code: None,
        status_byte: Some(0x10),
        terminal_id: Some(52523535),
        currency: Some(978),
    };
    let bytes = p.zvt_serialize();
    let (back, _) = packets::CompletionData::zvt_deserialize(&bytes).unwrap();
    assert_eq!(back, p);
}

#[test]
fn reservation_roundtrip_with_reference() {
    let p = packets::Reservation {
        amount: Some(2500),
        currency: Some(978),
        payment_type: Some(0x40),
        expiry_date: None,
        card_number: None,
        track_2_data: None,
        timeout: None,
        maximum_no_of_status_info: None,
        pump_no: None,
        trace_number: None,
        aid_authorization_attribute: None,
        additional_text: None,
        zvt_card_type: None,
        tlv: Some(tlv::PreAuthData {
            bmp_data: Some(tlv::Bmp60 {
                bmp_prefix: "AC".to_string(),
                bmp_data: "384HH2".to_string(),
            }),
        }),
    };
    let bytes = p.zvt_serialize();
    let (back, used) = packets::Reservation::zvt_deserialize(&bytes).unwrap();
    assert_eq!(back, p);
    assert_eq!(used, bytes.len());
}

#[test]
fn status_information_roundtrip() {
    let p = packets::StatusInformation {
        amount: Some(2500),
        trace_number: Some(975),
        time: Some(225558),
        date: Some(405),
        expiry_date: Some(2405),
        card_sequence_number: None,
        card_type: Some(0x60),
        card_number: Some(5598845555548074),
        track_2_data: None,
        result_code: Some(0),
        terminal_id: Some(52523535),
        vu_number: Some("804011926      ".to_string()),
        aid_authorization_attribute: None,
        additional_text: None,
        single_amounts: None,
        receipt_no: Some(231),
        currency: Some(978),
        zvt_card_type: Some(6),
        card_name: Some("MasterCard".to_string()),
        zvt_card_type_id: Some(1),
        tlv: None,
    };
    let bytes = p.zvt_serialize();
    let (back, _) = packets::StatusInformation::zvt_deserialize(&bytes).unwrap();
    assert_eq!(back, p);
}

#[test]
fn status_information_with_subs_roundtrip() {
    let p = packets::StatusInformation {
        amount: None,
        trace_number: None,
        time: None,
        date: None,
        expiry_date: None,
        card_sequence_number: None,
        card_type: None,
        card_number: None,
        track_2_data: None,
        result_code: Some(0),
        terminal_id: None,
        vu_number: None,
        aid_authorization_attribute: None,
        additional_text: None,
        single_amounts: None,
        receipt_no: None,
        currency: None,
        zvt_card_type: None,
        card_name: None,
        zvt_card_type_id: None,
        tlv: Some(tlv::StatusInformation {
            uuid: Some("000000000000081ca72f".to_string()),
            maximum_pre_autorisation: None,
            card_identification_item: None,
            ats: Some("0578807002".to_string()),
            card_type: Some(1),
            sub_type: Some("fe04".to_string()),
            atqa: Some("0400".to_string()),
            sak: Some(0x20),
            subs: vec![tlv::Subs {
                card_type: None,
                application_id: Some("a0000000041010".to_string()),
            }],
            subs_on_card: None,
        }),
    };
    let bytes = p.zvt_serialize();
    let (back, _) = packets::StatusInformation::zvt_deserialize(&bytes).unwrap();
    assert_eq!(back, p);
}

#[test]
fn end_of_day_roundtrip() {
    let p = packets::EndOfDay { password: 123456 };
    let bytes = p.zvt_serialize();
    assert_eq!(bytes, vec![0x06u8, 0x50, 0x03, 0x12, 0x34, 0x56]);
    let (back, _) = packets::EndOfDay::zvt_deserialize(&bytes).unwrap();
    assert_eq!(back, p);
}

#[test]
fn partial_reversal_abort_roundtrip() {
    let p = packets::PartialReversalAbort {
        error: 184,
        receipt_no: Some(0xffff),
    };
    let bytes = p.zvt_serialize();
    let (back, _) = packets::PartialReversalAbort::zvt_deserialize(&bytes).unwrap();
    assert_eq!(back, p);
}

#[test]
fn intermediate_status_roundtrip() {
    let p = packets::IntermediateStatusInformation {
        status: 0x17,
        timeout: Some(0),
    };
    let bytes = p.zvt_serialize();
    let (back, _) = packets::IntermediateStatusInformation::zvt_deserialize(&bytes).unwrap();
    assert_eq!(back, p);
}

#[test]
fn sequence_state_stops_at_terminal_event() {
    let mut st = sequences::SequenceState::new();
    st.on_frame(false);
    assert!(!st.done);
    assert_eq!(st.frames_read, st.acks_written);
    st.on_frame(true);
    assert!(st.done);
    assert_eq!(st.frames_read, 2);
    assert_eq!(st.acks_written, 2);
}

#[test]
fn frame_lengths_follow_the_header() {
    assert_eq!(sequences::frame_len_short(7), Some(10));
    assert_eq!(sequences::frame_len_short(0xfe), Some(3 + 0xfe));
    assert_eq!(sequences::frame_len_short(0xff), None);
    assert_eq!(sequences::frame_len_long(0xe8, 0x03), 5 + 1000);
}

#[test]
fn response_terminal_events() {
    let abort = packets::Abort { error: 1 };
    let r = sequences::ReadCardResponse::Abort(abort);
    assert!(r.is_terminal());
    let i = sequences::ReadCardResponse::IntermediateStatusInformation(
        packets::IntermediateStatusInformation { status: 0, timeout: None },
    );
    assert!(!i.is_terminal());
}

#[test]
fn ack_frame_is_three_bytes() {
    let a = packets::Ack {};
    assert_eq!(a.zvt_serialize(), vec![0x80u8, 0x00, 0x00]);
    let (back, used) = packets::Ack::zvt_deserialize(&[0x80, 0x00, 0x00]).unwrap();
    assert_eq!(back, packets::Ack {});
    assert_eq!(used, 3);
}

#[test]
fn write_data_carries_the_slice() {
    let p = feig::sequences::make_write_data(0x13, 0, vec![1, 2, 3]);
    let bytes = p.zvt_serialize();
    let (back, _) = feig::packets::WriteData::zvt_deserialize(&bytes).unwrap();
    let f = back.tlv.unwrap().file.unwrap();
    assert_eq!(f.file_id, Some(0x13));
    assert_eq!(f.file_offset, Some(0));
    assert_eq!(f.payload, Some(vec![1, 2, 3]));
}

#[test]
fn write_file_announcement_roundtrip() {
    let p = feig::sequences::prepare_write_file(&vec![(0x23u8, 3357255u32), (0x22, 3611)], 123456);
    let bytes = p.zvt_serialize();
    let (back, _) = feig::packets::WriteFile::zvt_deserialize(&bytes).unwrap();
    assert_eq!(back.password, 123456);
    let files = back.tlv.unwrap().files;
    assert_eq!(files.len(), 2);
    assert_eq!(files[0].file_size, Some(3357255));
}

#[test]
fn diagnosis_roundtrip() {
    let p = packets::Diagnosis {
        tlv: Some(tlv::Diagnosis { diagnosis_type: Some(4) }),
    };
    let bytes = p.zvt_serialize();
    assert_eq!(bytes, vec![0x06u8, 0x70, 0x05, 0x06, 0x03, 0x1b, 0x01, 0x04]);
    let (back, _) = packets::Diagnosis::zvt_deserialize(&bytes).unwrap();
    assert_eq!(back, p);
}

#[test]
fn print_text_block_roundtrip() {
    let p = packets::PrintTextBlock {
        tlv: Some(tlv::PrintTextBlock {
            receipt_type: Some(2),
            lines: Some(tlv::TextLines {
                lines: vec!["first".to_string(), "second".to_string()],
                eol: Some(255),
            }),
        }),
    };
    let bytes = p.zvt_serialize();
    let (back, _) = packets::PrintTextBlock::zvt_deserialize(&bytes).unwrap();
    assert_eq!(back, p);
}

#[test]
fn unknown_tags_end_the_tagged_section() {
    // A completion body followed by an unknown tag: the decoder stops there
    // without error and reports how far it came.
    let p = packets::CompletionData {
        result_code: Some(0),
        status_byte: None,
        terminal_id: None,
        currency: None,
    };
    let mut body = Vec::new();
    body.extend([0x27u8, 0x00]);
    body.extend([0x77u8, 0x01, 0x02]);
    let (decoded, used) = packets::CompletionData::decode_body(&body).unwrap();
    assert_eq!(decoded, p);
    assert_eq!(used, 2);
}
