use zvt::config::Config;
use zvt::constants::ErrorMessages;
use zvt::config::iso_4217;
use zvt::config::currency;
use zvt::config::end_of_day_max_interval;
use zvt::config::pre_authorization_amount;
use zvt::config::read_card_timeout;
use zvt::packets;
use zvt::packets::DiagnosisType;
use zvt::packets::tlv;
use zvt::retry::RetryAction;
use zvt::retry::RetryState;
use zvt::sequences::EndOfDayResponse;
use zvt::terminal;
use zvt::terminal::CardInfo;
use zvt::terminal::EodOutcome;
use zvt::terminal::Feig;

fn controller() -> Feig {
    Feig::new(Config::default())
}

#[test]
fn begin_then_commit_reverses_the_remainder() {
    let mut f = controller();
    let req = f.begin_transaction_request("tok-1", 2500).unwrap();
    assert_eq!(req.amount, Some(2500));
    assert_eq!(req.currency, Some(978));
    let b = req.tlv.unwrap().bmp_data.unwrap();
    assert_eq!(b.bmp_prefix, "AC");
    assert_eq!(b.bmp_data, "tok-1");

    f.begin_transaction_finish("tok-1", 2500, Some(231));
    let rev = f.commit_transaction_request("tok-1", 1000).unwrap();
    assert_eq!(rev.amount, Some(1500));
    assert_eq!(rev.receipt_no, Some(231));

    // Billing more than the hold reverses nothing, not a negative amount.
    let rev = f.commit_transaction_request("tok-1", 9999).unwrap();
    assert_eq!(rev.amount, Some(0));
}

#[test]
fn commit_failure_keeps_the_token() {
    let mut f = controller();
    f.begin_transaction_finish("tok-1", 2500, Some(231));
    let r = f.commit_transaction_finish("tok-1", None);
    assert!(r.is_none());
    // The token is still there: a retry builds the same request.
    assert!(f.commit_transaction_request("tok-1", 100).is_ok());

    let status = packets::StatusInformation {
        amount: Some(100),
        trace_number: Some(975),
        time: Some(134530),
        date: Some(517),
        expiry_date: None,
        card_sequence_number: None,
        card_type: None,
        card_number: None,
        track_2_data: None,
        result_code: None,
        terminal_id: Some(52523535),
        vu_number: None,
        aid_authorization_attribute: None,
        additional_text: None,
        single_amounts: None,
        receipt_no: None,
        currency: None,
        zvt_card_type: None,
        card_name: None,
        zvt_card_type_id: None,
        tlv: None,
    };
    let summary = f.commit_transaction_finish("tok-1", Some(&status)).unwrap();
    assert_eq!(summary.amount, Some(100));
    assert_eq!(summary.date.as_deref(), Some("0517"));
    assert_eq!(summary.time.as_deref(), Some("134530"));
    // Now the token is gone.
    assert!(f.commit_transaction_request("tok-1", 100).is_err());
}

#[test]
fn cancel_removes_the_token_exactly_on_wire_success() {
    let mut f = controller();
    f.begin_transaction_finish("tok-1", 2500, Some(231));
    assert_eq!(f.cancel_transaction_lookup("tok-1").unwrap(), 231);
    assert!(f.cancel_transaction_lookup("other").is_err());

    // A failed wire reversal keeps the token.
    f.cancel_transaction_finish("tok-1", false);
    assert!(f.cancel_transaction_lookup("tok-1").is_ok());

    // A successful one removes it.
    f.cancel_transaction_finish("tok-1", true);
    assert!(f.cancel_transaction_lookup("tok-1").is_err());
}

#[test]
fn capacity_and_duplicate_tokens_are_refused() {
    let mut f = controller();
    f.begin_transaction_finish("tok-1", 2500, Some(1));
    assert!(f.begin_transaction_request("tok-1", 2500).is_err());
    // Default capacity is one transaction.
    assert!(f.begin_transaction_request("tok-2", 2500).is_err());
}

#[test]
fn end_of_day_tolerates_receiver_not_ready() {
    let done = EndOfDayResponse::Abort(packets::PartialReversalAbort {
        error: 0xa0,
        receipt_no: None,
    });
    assert!(matches!(terminal::eod_outcome(&done), EodOutcome::Done));

    let failed = EndOfDayResponse::Abort(packets::PartialReversalAbort {
        error: 0xb8,
        receipt_no: Some(12),
    });
    assert!(matches!(terminal::eod_outcome(&failed), EodOutcome::Failed(0xb8)));

    let going = EndOfDayResponse::PrintLine(packets::PrintLine {
        attribute: 0,
        text: "x".to_string(),
    });
    assert!(matches!(terminal::eod_outcome(&going), EodOutcome::Continue));
}

#[test]
fn retry_drops_the_connection_between_attempts() {
    let mut r = RetryState::new(2);
    assert!(r.take_attempt());
    r.on_connected();
    assert!(r.connected);
    // The first attempt fails with an error: the inner transport is gone
    // before the second attempt starts.
    assert_eq!(r.on_sequence_error(), RetryAction::YieldErrorAndRetry);
    assert!(!r.connected);
    assert!(r.take_attempt());
    r.on_connected();
    assert_eq!(r.on_finished(), RetryAction::Stop);
    assert!(r.connected);
    assert!(!r.take_attempt());
}

#[test]
fn timeout_yields_one_error_and_drops_the_transport() {
    let mut r = RetryState::new(1);
    assert!(r.take_attempt());
    r.on_connected();
    assert_eq!(r.on_timeout(), RetryAction::YieldErrorAndRetry);
    assert!(!r.connected);
    assert!(!r.take_attempt());
}

#[test]
fn card_classification() {
    let deny = vec!["a00000035910".to_string()];
    // An application outside the deny list is a bank card.
    let bank = tlv::StatusInformation {
        uuid: Some("000000000000081ca72f".to_string()),
        maximum_pre_autorisation: None,
        card_identification_item: None,
        ats: None,
        card_type: None,
        sub_type: None,
        atqa: None,
        sak: None,
        subs: vec![tlv::Subs {
            card_type: None,
            application_id: Some("a0000000041010".to_string()),
        }],
        subs_on_card: None,
    };
    assert_eq!(terminal::classify_card(&bank, &deny).unwrap(), CardInfo::Bank);

    // Only denied applications plus an identifier: a membership card with
    // the id uppercased, cut to fourteen places and stripped of the six
    // leading zeros.
    let member = tlv::StatusInformation {
        uuid: Some("000000000000081ca72f".to_string()),
        subs: vec![tlv::Subs {
            card_type: None,
            application_id: Some("a0000003591010028001".to_string()),
        }],
        ..empty_block()
    };
    match terminal::classify_card(&member, &deny).unwrap() {
        CardInfo::MembershipCard(id) => assert_eq!(id, "081CA72F"),
        _ => panic!("expected membership card"),
    }

    // Nothing usable at all.
    let nothing = empty_block();
    assert!(terminal::classify_card(&nothing, &deny).is_err());
}

fn empty_block() -> tlv::StatusInformation {
    tlv::StatusInformation {
        uuid: None,
        maximum_pre_autorisation: None,
        card_identification_item: None,
        ats: None,
        card_type: None,
        sub_type: None,
        atqa: None,
        sak: None,
        subs: Vec::new(),
        subs_on_card: None,
    }
}

#[test]
fn version_containment() {
    assert!(terminal::version_matches("GER-APP-v2.0.12", "2.0.12"));
    assert!(!terminal::version_matches("GER-APP-v2.0.12", "2.0.13"));
    assert!(terminal::version_matches("anything", ""));
}

#[test]
fn iso_4217_maps_known_codes() {
    assert_eq!(iso_4217("GBP"), Some(826));
    assert_eq!(iso_4217("gbp"), Some(826));
    assert_eq!(iso_4217("EUR"), Some(978));
    assert_eq!(iso_4217("SEK"), Some(752));
    assert_eq!(iso_4217("PLN"), Some(985));
    assert_eq!(iso_4217("ABC"), None);
}

#[test]
fn config_defaults() {
    assert_eq!(currency(), 978);
    assert_eq!(pre_authorization_amount(), 2500);
    assert_eq!(read_card_timeout(), 15);
    assert_eq!(end_of_day_max_interval(), 86400);
    let c = Config::default();
    assert_eq!(c.transactions_max_num, 1);
    assert_eq!(c.feig_config.currency, 978);
}

#[test]
fn firmware_directory_table() {
    let present = vec![
        "app1/update.spec".to_string(),
        "app1/update.tar.gz".to_string(),
        "something/else".to_string(),
    ];
    let files = zvt::feig::sequences::convert_dir(&present).unwrap();
    assert_eq!(files.len(), 2);
    assert_eq!(files[0].file_id, 0x22);
    assert_eq!(files[1].file_id, 0x23);
    assert!(zvt::feig::sequences::convert_dir(&vec!["nope".to_string()]).is_none());
}

#[test]
fn write_file_announcement() {
    let sizes = vec![(0x23u8, 3357255u32), (0x22, 3611)];
    let p = zvt::feig::sequences::prepare_write_file(&sizes, 123456);
    assert_eq!(p.password, 123456);
    let files = p.tlv.unwrap().files;
    assert_eq!(files.len(), 2);
    assert_eq!(files[0].file_id, Some(0x23));
    assert_eq!(files[0].file_size, Some(3357255));
    assert_eq!(files[1].file_id, Some(0x22));
}

#[test]
fn error_messages_round_trip() {
    assert_eq!(ErrorMessages::from_u8(0xa0), Some(ErrorMessages::ReceiverNotReady));
    assert_eq!(
        ErrorMessages::from_u8(0x6c),
        Some(ErrorMessages::AbortViaTimeoutOrAbortKey)
    );
    assert_eq!(ErrorMessages::from_u8(0x00), None);
    assert_eq!(ErrorMessages::ReceiverNotReady.code(), 0xa0);
}

#[test]
fn device_serials_compare_case_insensitively() {
    assert!(terminal::device_id_matches("17fe5c90", "17FE5C90"));
    assert!(!terminal::device_id_matches("17fe5c90", "17FE5C91"));
}

#[test]
fn terminal_id_request_and_verify() {
    let mut c = Config::default();
    c.terminal_id = "52523535".to_string();
    // Already the configured identifier: nothing to send.
    assert!(terminal::set_terminal_id_request(&c, "52523535").is_none());
    // A different one: the request carries the parsed identifier.
    let req = terminal::set_terminal_id_request(&c, "00000000").unwrap();
    assert_eq!(req.terminal_id, Some(52523535));
    assert!(terminal::set_terminal_id_verify(&c, "52523535").is_ok());
    assert!(terminal::set_terminal_id_verify(&c, "00000000").is_err());
}

#[test]
fn read_card_abort_and_eod_interval() {
    assert_eq!(
        terminal::read_card_abort_outcome(0x6c),
        terminal::ReadCardAbort::NoCardPresented
    );
    assert_eq!(
        terminal::read_card_abort_outcome(0x64),
        terminal::ReadCardAbort::Terminal(0x64)
    );
    assert!(terminal::end_of_day_due(86400, 86400, true));
    assert!(!terminal::end_of_day_due(86400, 86400, false));
    assert!(!terminal::end_of_day_due(10, 86400, true));
}

#[test]
fn diagnosis_words_and_reference_pairs() {
    assert_eq!(zvt::packets::parse_diagnosis("4"), Some(DiagnosisType::EmvConfiguration));
    assert_eq!(
        zvt::packets::parse_diagnosis("emv_configuration"),
        Some(DiagnosisType::EmvConfiguration)
    );
    assert_eq!(zvt::packets::parse_diagnosis("line").unwrap().code(), 1);
    assert_eq!(zvt::packets::parse_diagnosis("bogus"), None);

    let both = zvt::packets::prep_bmp_data(Some("AC".to_string()), Some("tok".to_string()))
        .unwrap()
        .unwrap();
    assert_eq!(both.bmp_data.unwrap().bmp_prefix, "AC");
    assert!(zvt::packets::prep_bmp_data(None, None).unwrap().is_none());
    assert!(zvt::packets::prep_bmp_data(Some("AC".to_string()), None).is_err());
}

#[test]
fn terminal_id_sentinel_and_decimal_parse() {
    assert_eq!(zvt::config::normalize_terminal_id(String::new()), "00000000");
    assert_eq!(
        zvt::config::normalize_terminal_id("1234".to_string()),
        "1234"
    );
    assert_eq!(terminal::parse_decimal("52523535"), Some(52523535));
    assert_eq!(terminal::parse_decimal(""), None);
    assert_eq!(terminal::parse_decimal("12a"), None);
}

#[test]
fn firmware_directory_rejects_fabricated_tables() {
    // The recognized entries come back exactly, in order.
    let present = vec![
        "app1/update.tar.gz".to_string(),
        "nothing".to_string(),
        "firmware/kernel.gz".to_string(),
    ];
    let files = zvt::feig::sequences::convert_dir(&present).unwrap();
    assert_eq!(files.len(), 2);
    assert_eq!(files[0].file_id, 0x23);
    assert_eq!(files[0].path, "app1/update.tar.gz");
    assert_eq!(files[1].file_id, 0x10);
    assert_eq!(files[1].path, "firmware/kernel.gz");
}
