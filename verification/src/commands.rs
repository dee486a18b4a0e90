//! The registry of known commands: a received frame parsed into a typed
//! sum over its control field.

use crate::errors::ZVTError;
use crate::errors::ZVTResult;
use crate::packets;
use crate::Tag;
use vstd::prelude::*;

verus! {

/// Every packet the peer may send, by control field; `Nack` matches any
/// instruction under its class. Where one control field serves several
/// packet layouts, the plain layout is the one parsed here.
#[derive(Debug, PartialEq)]
pub enum Command {
    SetTimeAndDate(packets::SetTimeAndDate),
    StatusInformation(packets::StatusInformation),
    IntermediateStatusInformation(packets::IntermediateStatusInformation),
    StatusEnquiry(packets::StatusEnquiry),
    Registration(packets::Registration),
    Authorization(packets::Authorization),
    CompletionData(packets::CompletionData),
    ResetTerminal(packets::ResetTerminal),
    PrintSystemConfiguration(packets::PrintSystemConfiguration),
    SetTerminalId(packets::SetTerminalId),
    Abort(packets::Abort),
    Reservation(packets::Reservation),
    PartialReversal(packets::PartialReversal),
    PreAuthReversal(packets::PreAuthReversal),
    EndOfDay(packets::EndOfDay),
    Diagnosis(packets::Diagnosis),
    Initialization(packets::Initialization),
    ReadCard(packets::ReadCard),
    PrintLine(packets::PrintLine),
    PrintTextBlock(packets::PrintTextBlock),
    SelectLanguage(packets::SelectLanguage),
    Ack(packets::Ack),
    Nack(packets::Nack),
}

impl Command {
    /// Parses a received frame by its control field: every well-formed
    /// frame of a known command is taken as its variant, any instruction
    /// under the rejection class is a `Nack`, an unknown control field is
    /// a wrong tag, and fewer than two bytes are incomplete.
    pub fn zvt_parse(bytes: &[u8]) -> (r: ZVTResult<Self>)
        ensures
            bytes@.len() < 2 ==> r == Err::<Self, _>(ZVTError::IncompleteData),
            bytes@.len() >= 2 && bytes@[0] != 0x84 && !((bytes@[0] == 0x4 && bytes@[1] == 0x1) || (bytes@[0] == 0x4 && bytes@[1] == 0xf) || (bytes@[0] == 0x4 && bytes@[1] == 0xff) || (bytes@[0] == 0x5 && bytes@[1] == 0x1) || (bytes@[0] == 0x6 && bytes@[1] == 0x0) || (bytes@[0] == 0x6 && bytes@[1] == 0x1) || (bytes@[0] == 0x6 && bytes@[1] == 0xf) || (bytes@[0] == 0x6 && bytes@[1] == 0x18) || (bytes@[0] == 0x6 && bytes@[1] == 0x1a) || (bytes@[0] == 0x6 && bytes@[1] == 0x1b) || (bytes@[0] == 0x6 && bytes@[1] == 0x1e) || (bytes@[0] == 0x6 && bytes@[1] == 0x22) || (bytes@[0] == 0x6 && bytes@[1] == 0x23) || (bytes@[0] == 0x6 && bytes@[1] == 0x25) || (bytes@[0] == 0x6 && bytes@[1] == 0x50) || (bytes@[0] == 0x6 && bytes@[1] == 0x70) || (bytes@[0] == 0x6 && bytes@[1] == 0x93) || (bytes@[0] == 0x6 && bytes@[1] == 0xc0) || (bytes@[0] == 0x6 && bytes@[1] == 0xd1) || (bytes@[0] == 0x6 && bytes@[1] == 0xd3) || (bytes@[0] == 0x8 && bytes@[1] == 0x30) || (bytes@[0] == 0x80 && bytes@[1] == 0x0)) ==> r == Err::<Self, _>(
                ZVTError::WrongTag(Tag((bytes@[0] * 256 + bytes@[1]) as u16)),
            ),
            r matches Ok(resp) ==> bytes@.len() >= 2 && (match resp {
                Command::SetTimeAndDate(_) => bytes@[0] == 0x4 && bytes@[1] == 0x1,
                Command::StatusInformation(_) => bytes@[0] == 0x4 && bytes@[1] == 0xf,
                Command::IntermediateStatusInformation(_) => bytes@[0] == 0x4 && bytes@[1] == 0xff,
                Command::StatusEnquiry(_) => bytes@[0] == 0x5 && bytes@[1] == 0x1,
                Command::Registration(_) => bytes@[0] == 0x6 && bytes@[1] == 0x0,
                Command::Authorization(_) => bytes@[0] == 0x6 && bytes@[1] == 0x1,
                Command::CompletionData(_) => bytes@[0] == 0x6 && bytes@[1] == 0xf,
                Command::ResetTerminal(_) => bytes@[0] == 0x6 && bytes@[1] == 0x18,
                Command::PrintSystemConfiguration(_) => bytes@[0] == 0x6 && bytes@[1] == 0x1a,
                Command::SetTerminalId(_) => bytes@[0] == 0x6 && bytes@[1] == 0x1b,
                Command::Abort(_) => bytes@[0] == 0x6 && bytes@[1] == 0x1e,
                Command::Reservation(_) => bytes@[0] == 0x6 && bytes@[1] == 0x22,
                Command::PartialReversal(_) => bytes@[0] == 0x6 && bytes@[1] == 0x23,
                Command::PreAuthReversal(_) => bytes@[0] == 0x6 && bytes@[1] == 0x25,
                Command::EndOfDay(_) => bytes@[0] == 0x6 && bytes@[1] == 0x50,
                Command::Diagnosis(_) => bytes@[0] == 0x6 && bytes@[1] == 0x70,
                Command::Initialization(_) => bytes@[0] == 0x6 && bytes@[1] == 0x93,
                Command::ReadCard(_) => bytes@[0] == 0x6 && bytes@[1] == 0xc0,
                Command::PrintLine(_) => bytes@[0] == 0x6 && bytes@[1] == 0xd1,
                Command::PrintTextBlock(_) => bytes@[0] == 0x6 && bytes@[1] == 0xd3,
                Command::SelectLanguage(_) => bytes@[0] == 0x8 && bytes@[1] == 0x30,
                Command::Ack(_) => bytes@[0] == 0x80 && bytes@[1] == 0x0,
                Command::Nack(nk) => bytes@[0] == 0x84 && nk.instr == bytes@[1],
            }),
            forall|v: packets::SetTimeAndDate, rest: Seq<u8>|
                v.wf() && (true) && v.body_bytes().len() <= 0xffff && bytes@ == #[trigger] (crate::packets::frame_bytes(0x4, 0x1, v.body_bytes()) + rest) ==> (r matches Ok(resp) && (resp matches Command::SetTimeAndDate(p) && p == v)),
            forall|v: packets::IntermediateStatusInformation, rest: Seq<u8>|
                v.wf() && (v.timeout is Some) && v.body_bytes().len() <= 0xffff && bytes@ == #[trigger] (crate::packets::frame_bytes(0x4, 0xff, v.body_bytes()) + rest) ==> (r matches Ok(resp) && (resp matches Command::IntermediateStatusInformation(p) && p == v)),
            forall|v: packets::StatusEnquiry, rest: Seq<u8>|
                v.wf() && (v.password is Some || (v.service_byte is None && v.tlv is None)) && v.body_bytes().len() <= 0xffff && bytes@ == #[trigger] (crate::packets::frame_bytes(0x5, 0x1, v.body_bytes()) + rest) ==> (r matches Ok(resp) && (resp matches Command::StatusEnquiry(p) && p == v)),
            forall|v: packets::Registration, rest: Seq<u8>|
                v.wf() && (v.currency is Some || v.tlv is None) && v.body_bytes().len() <= 0xffff && bytes@ == #[trigger] (crate::packets::frame_bytes(0x6, 0x0, v.body_bytes()) + rest) ==> (r matches Ok(resp) && (resp matches Command::Registration(p) && p == v)),
            forall|v: packets::Authorization, rest: Seq<u8>|
                v.wf() && (true) && v.body_bytes().len() <= 0xffff && bytes@ == #[trigger] (crate::packets::frame_bytes(0x6, 0x1, v.body_bytes()) + rest) ==> (r matches Ok(resp) && (resp matches Command::Authorization(p) && packets::Authorization::eqv(p, v))),
            forall|v: packets::CompletionData, rest: Seq<u8>|
                v.wf() && (true) && v.body_bytes().len() <= 0xffff && bytes@ == #[trigger] (crate::packets::frame_bytes(0x6, 0xf, v.body_bytes()) + rest) ==> (r matches Ok(resp) && (resp matches Command::CompletionData(p) && p == v)),
            forall|v: packets::ResetTerminal, rest: Seq<u8>|
                v.wf() && (true) && v.body_bytes().len() <= 0xffff && bytes@ == #[trigger] (crate::packets::frame_bytes(0x6, 0x18, v.body_bytes()) + rest) ==> (r matches Ok(resp) && (resp matches Command::ResetTerminal(p) && p == v)),
            forall|v: packets::PrintSystemConfiguration, rest: Seq<u8>|
                v.wf() && (true) && v.body_bytes().len() <= 0xffff && bytes@ == #[trigger] (crate::packets::frame_bytes(0x6, 0x1a, v.body_bytes()) + rest) ==> (r matches Ok(resp) && (resp matches Command::PrintSystemConfiguration(p) && p == v)),
            forall|v: packets::SetTerminalId, rest: Seq<u8>|
                v.wf() && (true) && v.body_bytes().len() <= 0xffff && bytes@ == #[trigger] (crate::packets::frame_bytes(0x6, 0x1b, v.body_bytes()) + rest) ==> (r matches Ok(resp) && (resp matches Command::SetTerminalId(p) && p == v)),
            forall|v: packets::Abort, rest: Seq<u8>|
                v.wf() && (true) && v.body_bytes().len() <= 0xffff && bytes@ == #[trigger] (crate::packets::frame_bytes(0x6, 0x1e, v.body_bytes()) + rest) ==> (r matches Ok(resp) && (resp matches Command::Abort(p) && p == v)),
            forall|v: packets::Reservation, rest: Seq<u8>|
                v.wf() && (true) && v.body_bytes().len() <= 0xffff && bytes@ == #[trigger] (crate::packets::frame_bytes(0x6, 0x22, v.body_bytes()) + rest) ==> (r matches Ok(resp) && (resp matches Command::Reservation(p) && packets::Reservation::eqv(p, v))),
            forall|v: packets::PartialReversal, rest: Seq<u8>|
                v.wf() && (true) && v.body_bytes().len() <= 0xffff && bytes@ == #[trigger] (crate::packets::frame_bytes(0x6, 0x23, v.body_bytes()) + rest) ==> (r matches Ok(resp) && (resp matches Command::PartialReversal(p) && packets::PartialReversal::eqv(p, v))),
            forall|v: packets::PreAuthReversal, rest: Seq<u8>|
                v.wf() && (true) && v.body_bytes().len() <= 0xffff && bytes@ == #[trigger] (crate::packets::frame_bytes(0x6, 0x25, v.body_bytes()) + rest) ==> (r matches Ok(resp) && (resp matches Command::PreAuthReversal(p) && p == v)),
            forall|v: packets::EndOfDay, rest: Seq<u8>|
                v.wf() && (true) && v.body_bytes().len() <= 0xffff && bytes@ == #[trigger] (crate::packets::frame_bytes(0x6, 0x50, v.body_bytes()) + rest) ==> (r matches Ok(resp) && (resp matches Command::EndOfDay(p) && p == v)),
            forall|v: packets::Diagnosis, rest: Seq<u8>|
                v.wf() && (true) && v.body_bytes().len() <= 0xffff && bytes@ == #[trigger] (crate::packets::frame_bytes(0x6, 0x70, v.body_bytes()) + rest) ==> (r matches Ok(resp) && (resp matches Command::Diagnosis(p) && p == v)),
            forall|v: packets::Initialization, rest: Seq<u8>|
                v.wf() && (true) && v.body_bytes().len() <= 0xffff && bytes@ == #[trigger] (crate::packets::frame_bytes(0x6, 0x93, v.body_bytes()) + rest) ==> (r matches Ok(resp) && (resp matches Command::Initialization(p) && p == v)),
            forall|v: packets::ReadCard, rest: Seq<u8>|
                v.wf() && (true) && v.body_bytes().len() <= 0xffff && bytes@ == #[trigger] (crate::packets::frame_bytes(0x6, 0xc0, v.body_bytes()) + rest) ==> (r matches Ok(resp) && (resp matches Command::ReadCard(p) && p == v)),
            forall|v: packets::PrintLine, rest: Seq<u8>|
                v.wf() && (true) && v.body_bytes().len() <= 0xffff && bytes@ == #[trigger] (crate::packets::frame_bytes(0x6, 0xd1, v.body_bytes()) + rest) ==> (r matches Ok(resp) && (resp matches Command::PrintLine(p) && packets::PrintLine::eqv(p, v))),
            forall|v: packets::PrintTextBlock, rest: Seq<u8>|
                v.wf() && (true) && v.body_bytes().len() <= 0xffff && bytes@ == #[trigger] (crate::packets::frame_bytes(0x6, 0xd3, v.body_bytes()) + rest) ==> (r matches Ok(resp) && (resp matches Command::PrintTextBlock(p) && packets::PrintTextBlock::eqv(p, v))),
            forall|v: packets::SelectLanguage, rest: Seq<u8>|
                v.wf() && (true) && v.body_bytes().len() <= 0xffff && bytes@ == #[trigger] (crate::packets::frame_bytes(0x8, 0x30, v.body_bytes()) + rest) ==> (r matches Ok(resp) && (resp matches Command::SelectLanguage(p) && p == v)),
            forall|v: packets::Ack, rest: Seq<u8>|
                v.wf() && (true) && v.body_bytes().len() <= 0xffff && bytes@ == #[trigger] (crate::packets::frame_bytes(0x80, 0x0, v.body_bytes()) + rest) ==> (r matches Ok(resp) && (resp matches Command::Ack(p) && p == v)),
    {
        if bytes.len() < 2 {
            return Err(ZVTError::IncompleteData);
        }
        if bytes[0] == 0x4 && bytes[1] == 0x1 {
            match packets::SetTimeAndDate::zvt_deserialize(bytes) {
                Ok((p, _)) => Ok(Command::SetTimeAndDate(p)),
                Err(e) => Err(e),
            }
        } else if bytes[0] == 0x4 && bytes[1] == 0xf {
            match packets::StatusInformation::zvt_deserialize(bytes) {
                Ok((p, _)) => Ok(Command::StatusInformation(p)),
                Err(e) => Err(e),
            }
        } else if bytes[0] == 0x4 && bytes[1] == 0xff {
            match packets::IntermediateStatusInformation::zvt_deserialize(bytes) {
                Ok((p, _)) => Ok(Command::IntermediateStatusInformation(p)),
                Err(e) => Err(e),
            }
        } else if bytes[0] == 0x5 && bytes[1] == 0x1 {
            match packets::StatusEnquiry::zvt_deserialize(bytes) {
                Ok((p, _)) => Ok(Command::StatusEnquiry(p)),
                Err(e) => Err(e),
            }
        } else if bytes[0] == 0x6 && bytes[1] == 0x0 {
            match packets::Registration::zvt_deserialize(bytes) {
                Ok((p, _)) => Ok(Command::Registration(p)),
                Err(e) => Err(e),
            }
        } else if bytes[0] == 0x6 && bytes[1] == 0x1 {
            match packets::Authorization::zvt_deserialize(bytes) {
                Ok((p, _)) => Ok(Command::Authorization(p)),
                Err(e) => Err(e),
            }
        } else if bytes[0] == 0x6 && bytes[1] == 0xf {
            match packets::CompletionData::zvt_deserialize(bytes) {
                Ok((p, _)) => Ok(Command::CompletionData(p)),
                Err(e) => Err(e),
            }
        } else if bytes[0] == 0x6 && bytes[1] == 0x18 {
            match packets::ResetTerminal::zvt_deserialize(bytes) {
                Ok((p, _)) => Ok(Command::ResetTerminal(p)),
                Err(e) => Err(e),
            }
        } else if bytes[0] == 0x6 && bytes[1] == 0x1a {
            match packets::PrintSystemConfiguration::zvt_deserialize(bytes) {
                Ok((p, _)) => Ok(Command::PrintSystemConfiguration(p)),
                Err(e) => Err(e),
            }
        } else if bytes[0] == 0x6 && bytes[1] == 0x1b {
            match packets::SetTerminalId::zvt_deserialize(bytes) {
                Ok((p, _)) => Ok(Command::SetTerminalId(p)),
                Err(e) => Err(e),
            }
        } else if bytes[0] == 0x6 && bytes[1] == 0x1e {
            match packets::Abort::zvt_deserialize(bytes) {
                Ok((p, _)) => Ok(Command::Abort(p)),
                Err(e) => Err(e),
            }
        } else if bytes[0] == 0x6 && bytes[1] == 0x22 {
            match packets::Reservation::zvt_deserialize(bytes) {
                Ok((p, _)) => Ok(Command::Reservation(p)),
                Err(e) => Err(e),
            }
        } else if bytes[0] == 0x6 && bytes[1] == 0x23 {
            match packets::PartialReversal::zvt_deserialize(bytes) {
                Ok((p, _)) => Ok(Command::PartialReversal(p)),
                Err(e) => Err(e),
            }
        } else if bytes[0] == 0x6 && bytes[1] == 0x25 {
            match packets::PreAuthReversal::zvt_deserialize(bytes) {
                Ok((p, _)) => Ok(Command::PreAuthReversal(p)),
                Err(e) => Err(e),
            }
        } else if bytes[0] == 0x6 && bytes[1] == 0x50 {
            match packets::EndOfDay::zvt_deserialize(bytes) {
                Ok((p, _)) => Ok(Command::EndOfDay(p)),
                Err(e) => Err(e),
            }
        } else if bytes[0] == 0x6 && bytes[1] == 0x70 {
            match packets::Diagnosis::zvt_deserialize(bytes) {
                Ok((p, _)) => Ok(Command::Diagnosis(p)),
                Err(e) => Err(e),
            }
        } else if bytes[0] == 0x6 && bytes[1] == 0x93 {
            match packets::Initialization::zvt_deserialize(bytes) {
                Ok((p, _)) => Ok(Command::Initialization(p)),
                Err(e) => Err(e),
            }
        } else if bytes[0] == 0x6 && bytes[1] == 0xc0 {
            match packets::ReadCard::zvt_deserialize(bytes) {
                Ok((p, _)) => Ok(Command::ReadCard(p)),
                Err(e) => Err(e),
            }
        } else if bytes[0] == 0x6 && bytes[1] == 0xd1 {
            match packets::PrintLine::zvt_deserialize(bytes) {
                Ok((p, _)) => Ok(Command::PrintLine(p)),
                Err(e) => Err(e),
            }
        } else if bytes[0] == 0x6 && bytes[1] == 0xd3 {
            match packets::PrintTextBlock::zvt_deserialize(bytes) {
                Ok((p, _)) => Ok(Command::PrintTextBlock(p)),
                Err(e) => Err(e),
            }
        } else if bytes[0] == 0x8 && bytes[1] == 0x30 {
            match packets::SelectLanguage::zvt_deserialize(bytes) {
                Ok((p, _)) => Ok(Command::SelectLanguage(p)),
                Err(e) => Err(e),
            }
        } else if bytes[0] == 0x80 && bytes[1] == 0x0 {
            match packets::Ack::zvt_deserialize(bytes) {
                Ok((p, _)) => Ok(Command::Ack(p)),
                Err(e) => Err(e),
            }
        } else if bytes[0] == 0x84 {
            Ok(Command::Nack(packets::Nack { instr: bytes[1] }))
        } else {
            Err(ZVTError::WrongTag(Tag(bytes[0] as u16 * 256 + bytes[1] as u16)))
        }
    }
}

} // verus!