//! The dialog state machines: each command's response set, which event
//! ends its dialog, and the bookkeeping every dialog shares.
//!
//! A dialog sends its request, then reads frames one by one; every frame is
//! acknowledged before the next read, and the first terminal event ends the
//! dialog. The byte stream itself is driven by the caller: the library
//! parses frames and decides, the caller performs the reads and writes.

use crate::errors::ZVTError;
use crate::errors::ZVTResult;
use crate::packets;
use crate::Tag;
use vstd::prelude::*;

verus! {

/// How many bytes a whole frame takes when the third header byte is short:
/// exactly the header and the announced payload.
pub fn frame_len_short(len_byte: u8) -> (r: Option<usize>)
    ensures
        len_byte != 0xff ==> r == Some((3 + len_byte) as usize),
        len_byte == 0xff ==> r is None,
{
    if len_byte != 0xff {
        Some(3 + len_byte as usize)
    } else {
        None
    }
}

/// How many bytes a whole frame takes in the long form: the five header
/// bytes and the little-endian length that followed the `0xFF` marker.
pub fn frame_len_long(lo: u8, hi: u8) -> (r: usize)
    ensures
        r == 5 + lo + hi * 256,
{
    5 + lo as usize + hi as usize * 256
}

/// What every dialog keeps while frames arrive: how many frames were read,
/// how many acknowledgements were written, and whether the terminal event
/// has been seen. Acknowledgements keep step with the frames: the wire
/// position is always right after the last acknowledgement.
pub struct SequenceState {
    pub frames_read: usize,
    pub acks_written: usize,
    pub done: bool,
}

impl SequenceState {
    /// Every read frame has been acknowledged.
    pub open spec fn wf(self) -> bool {
        self.acks_written == self.frames_read
    }

    pub fn new() -> (r: Self)
        ensures
            r.wf(),
            !r.done,
            r.frames_read == 0,
    {
        SequenceState { frames_read: 0, acks_written: 0, done: false }
    }

    /// Accounts for one frame: it is read, acknowledged, and ends the
    /// dialog exactly when it is the terminal event. After the terminal
    /// event no further frame may be processed.
    pub fn on_frame(&mut self, terminal: bool)
        requires
            !old(self).done,
            old(self).wf(),
            old(self).frames_read < usize::MAX,
        ensures
            final(self).wf(),
            final(self).frames_read == old(self).frames_read + 1,
            final(self).acks_written == old(self).acks_written + 1,
            final(self).done == terminal,
    {
        self.frames_read = self.frames_read + 1;
        self.acks_written = self.acks_written + 1;
        self.done = terminal;
    }
}

/// Registers at the terminal; one completion ends it.
pub struct Registration;

/// The frames the terminal may answer a Registration dialog with.
#[derive(Debug, PartialEq)]
pub enum RegistrationResponse {
    CompletionData(packets::CompletionData),
}

impl RegistrationResponse {
    /// The events that end the dialog.
    pub open spec fn spec_terminal(self) -> bool {
        match self {
            RegistrationResponse::CompletionData(_) => true,
        }
    }

    pub fn is_terminal(&self) -> (r: bool)
        ensures r == self.spec_terminal(),
    {
        match self {
            RegistrationResponse::CompletionData(_) => true,
        }
    }

    /// Parses one received frame into the dialog's response set: every
    /// well-formed frame of the set is taken as its variant, a control
    /// field outside the set is a wrong tag, and fewer than two bytes
    /// are incomplete.
    pub fn zvt_parse(bytes: &[u8]) -> (r: ZVTResult<Self>)
        ensures
            bytes@.len() < 2 ==> r == Err::<Self, _>(ZVTError::IncompleteData),
            bytes@.len() >= 2 && !((bytes@[0] == 0x6 && bytes@[1] == 0xf)) ==> r == Err::<Self, _>(ZVTError::WrongTag(
                Tag((bytes@[0] * 256 + bytes@[1]) as u16),
            )),
            r matches Ok(resp) ==> bytes@.len() >= 2 && (match resp {
                RegistrationResponse::CompletionData(_) => bytes@[0] == 0x6 && bytes@[1] == 0xf,
            }),
            forall|v: packets::CompletionData, rest: Seq<u8>|
                v.wf() && (true) && v.body_bytes().len() <= 0xffff && bytes@ == #[trigger] (crate::packets::frame_bytes(0x6, 0xf, v.body_bytes()) + rest) ==> (r matches Ok(resp) && (resp matches RegistrationResponse::CompletionData(p) && p == v)),
    {
        if bytes.len() < 2 {
            return Err(ZVTError::IncompleteData);
        }
        if bytes[0] == 0x6 && bytes[1] == 0xf {
            match packets::CompletionData::zvt_deserialize(bytes) {
                Ok((p, _)) => Ok(RegistrationResponse::CompletionData(p)),
                Err(e) => Err(e),
            }
        } else {
            Err(ZVTError::WrongTag(Tag(bytes[0] as u16 * 256 + bytes[1] as u16)))
        }
    }
}

/// Reads a card; the status message or an abort ends it.
pub struct ReadCard;

/// The frames the terminal may answer a ReadCard dialog with.
#[derive(Debug, PartialEq)]
pub enum ReadCardResponse {
    IntermediateStatusInformation(packets::IntermediateStatusInformation),
    StatusInformation(packets::StatusInformation),
    Abort(packets::Abort),
}

impl ReadCardResponse {
    /// The events that end the dialog.
    pub open spec fn spec_terminal(self) -> bool {
        match self {
            ReadCardResponse::IntermediateStatusInformation(_) => false,
            ReadCardResponse::StatusInformation(_) => true,
            ReadCardResponse::Abort(_) => true,
        }
    }

    pub fn is_terminal(&self) -> (r: bool)
        ensures r == self.spec_terminal(),
    {
        match self {
            ReadCardResponse::IntermediateStatusInformation(_) => false,
            ReadCardResponse::StatusInformation(_) => true,
            ReadCardResponse::Abort(_) => true,
        }
    }

    /// Parses one received frame into the dialog's response set: every
    /// well-formed frame of the set is taken as its variant, a control
    /// field outside the set is a wrong tag, and fewer than two bytes
    /// are incomplete.
    pub fn zvt_parse(bytes: &[u8]) -> (r: ZVTResult<Self>)
        ensures
            bytes@.len() < 2 ==> r == Err::<Self, _>(ZVTError::IncompleteData),
            bytes@.len() >= 2 && !((bytes@[0] == 0x4 && bytes@[1] == 0xff) || (bytes@[0] == 0x4 && bytes@[1] == 0xf) || (bytes@[0] == 0x6 && bytes@[1] == 0x1e)) ==> r == Err::<Self, _>(ZVTError::WrongTag(
                Tag((bytes@[0] * 256 + bytes@[1]) as u16),
            )),
            r matches Ok(resp) ==> bytes@.len() >= 2 && (match resp {
                ReadCardResponse::IntermediateStatusInformation(_) => bytes@[0] == 0x4 && bytes@[1] == 0xff,
                ReadCardResponse::StatusInformation(_) => bytes@[0] == 0x4 && bytes@[1] == 0xf,
                ReadCardResponse::Abort(_) => bytes@[0] == 0x6 && bytes@[1] == 0x1e,
            }),
            forall|v: packets::IntermediateStatusInformation, rest: Seq<u8>|
                v.wf() && (v.timeout is Some) && v.body_bytes().len() <= 0xffff && bytes@ == #[trigger] (crate::packets::frame_bytes(0x4, 0xff, v.body_bytes()) + rest) ==> (r matches Ok(resp) && (resp matches ReadCardResponse::IntermediateStatusInformation(p) && p == v)),
            forall|v: packets::Abort, rest: Seq<u8>|
                v.wf() && (true) && v.body_bytes().len() <= 0xffff && bytes@ == #[trigger] (crate::packets::frame_bytes(0x6, 0x1e, v.body_bytes()) + rest) ==> (r matches Ok(resp) && (resp matches ReadCardResponse::Abort(p) && p == v)),
    {
        if bytes.len() < 2 {
            return Err(ZVTError::IncompleteData);
        }
        if bytes[0] == 0x4 && bytes[1] == 0xff {
            match packets::IntermediateStatusInformation::zvt_deserialize(bytes) {
                Ok((p, _)) => Ok(ReadCardResponse::IntermediateStatusInformation(p)),
                Err(e) => Err(e),
            }
        } else if bytes[0] == 0x4 && bytes[1] == 0xf {
            match packets::StatusInformation::zvt_deserialize(bytes) {
                Ok((p, _)) => Ok(ReadCardResponse::StatusInformation(p)),
                Err(e) => Err(e),
            }
        } else if bytes[0] == 0x6 && bytes[1] == 0x1e {
            match packets::Abort::zvt_deserialize(bytes) {
                Ok((p, _)) => Ok(ReadCardResponse::Abort(p)),
                Err(e) => Err(e),
            }
        } else {
            Err(ZVTError::WrongTag(Tag(bytes[0] as u16 * 256 + bytes[1] as u16)))
        }
    }
}

/// Initialises the terminal.
pub struct Initialization;

/// The frames the terminal may answer a Initialization dialog with.
#[derive(Debug, PartialEq)]
pub enum InitializationResponse {
    IntermediateStatusInformation(packets::IntermediateStatusInformation),
    PrintLine(packets::PrintLine),
    PrintTextBlock(packets::PrintTextBlock),
    CompletionData(packets::CompletionData),
    Abort(packets::Abort),
}

impl InitializationResponse {
    /// The events that end the dialog.
    pub open spec fn spec_terminal(self) -> bool {
        match self {
            InitializationResponse::IntermediateStatusInformation(_) => false,
            InitializationResponse::PrintLine(_) => false,
            InitializationResponse::PrintTextBlock(_) => false,
            InitializationResponse::CompletionData(_) => true,
            InitializationResponse::Abort(_) => true,
        }
    }

    pub fn is_terminal(&self) -> (r: bool)
        ensures r == self.spec_terminal(),
    {
        match self {
            InitializationResponse::IntermediateStatusInformation(_) => false,
            InitializationResponse::PrintLine(_) => false,
            InitializationResponse::PrintTextBlock(_) => false,
            InitializationResponse::CompletionData(_) => true,
            InitializationResponse::Abort(_) => true,
        }
    }

    /// Parses one received frame into the dialog's response set: every
    /// well-formed frame of the set is taken as its variant, a control
    /// field outside the set is a wrong tag, and fewer than two bytes
    /// are incomplete.
    pub fn zvt_parse(bytes: &[u8]) -> (r: ZVTResult<Self>)
        ensures
            bytes@.len() < 2 ==> r == Err::<Self, _>(ZVTError::IncompleteData),
            bytes@.len() >= 2 && !((bytes@[0] == 0x4 && bytes@[1] == 0xff) || (bytes@[0] == 0x6 && bytes@[1] == 0xd1) || (bytes@[0] == 0x6 && bytes@[1] == 0xd3) || (bytes@[0] == 0x6 && bytes@[1] == 0xf) || (bytes@[0] == 0x6 && bytes@[1] == 0x1e)) ==> r == Err::<Self, _>(ZVTError::WrongTag(
                Tag((bytes@[0] * 256 + bytes@[1]) as u16),
            )),
            r matches Ok(resp) ==> bytes@.len() >= 2 && (match resp {
                InitializationResponse::IntermediateStatusInformation(_) => bytes@[0] == 0x4 && bytes@[1] == 0xff,
                InitializationResponse::PrintLine(_) => bytes@[0] == 0x6 && bytes@[1] == 0xd1,
                InitializationResponse::PrintTextBlock(_) => bytes@[0] == 0x6 && bytes@[1] == 0xd3,
                InitializationResponse::CompletionData(_) => bytes@[0] == 0x6 && bytes@[1] == 0xf,
                InitializationResponse::Abort(_) => bytes@[0] == 0x6 && bytes@[1] == 0x1e,
            }),
            forall|v: packets::IntermediateStatusInformation, rest: Seq<u8>|
                v.wf() && (v.timeout is Some) && v.body_bytes().len() <= 0xffff && bytes@ == #[trigger] (crate::packets::frame_bytes(0x4, 0xff, v.body_bytes()) + rest) ==> (r matches Ok(resp) && (resp matches InitializationResponse::IntermediateStatusInformation(p) && p == v)),
            forall|v: packets::PrintLine, rest: Seq<u8>|
                v.wf() && (true) && v.body_bytes().len() <= 0xffff && bytes@ == #[trigger] (crate::packets::frame_bytes(0x6, 0xd1, v.body_bytes()) + rest) ==> (r matches Ok(resp) && (resp matches InitializationResponse::PrintLine(p) && packets::PrintLine::eqv(p, v))),
            forall|v: packets::PrintTextBlock, rest: Seq<u8>|
                v.wf() && (true) && v.body_bytes().len() <= 0xffff && bytes@ == #[trigger] (crate::packets::frame_bytes(0x6, 0xd3, v.body_bytes()) + rest) ==> (r matches Ok(resp) && (resp matches InitializationResponse::PrintTextBlock(p) && packets::PrintTextBlock::eqv(p, v))),
            forall|v: packets::CompletionData, rest: Seq<u8>|
                v.wf() && (true) && v.body_bytes().len() <= 0xffff && bytes@ == #[trigger] (crate::packets::frame_bytes(0x6, 0xf, v.body_bytes()) + rest) ==> (r matches Ok(resp) && (resp matches InitializationResponse::CompletionData(p) && p == v)),
            forall|v: packets::Abort, rest: Seq<u8>|
                v.wf() && (true) && v.body_bytes().len() <= 0xffff && bytes@ == #[trigger] (crate::packets::frame_bytes(0x6, 0x1e, v.body_bytes()) + rest) ==> (r matches Ok(resp) && (resp matches InitializationResponse::Abort(p) && p == v)),
    {
        if bytes.len() < 2 {
            return Err(ZVTError::IncompleteData);
        }
        if bytes[0] == 0x4 && bytes[1] == 0xff {
            match packets::IntermediateStatusInformation::zvt_deserialize(bytes) {
                Ok((p, _)) => Ok(InitializationResponse::IntermediateStatusInformation(p)),
                Err(e) => Err(e),
            }
        } else if bytes[0] == 0x6 && bytes[1] == 0xd1 {
            match packets::PrintLine::zvt_deserialize(bytes) {
                Ok((p, _)) => Ok(InitializationResponse::PrintLine(p)),
                Err(e) => Err(e),
            }
        } else if bytes[0] == 0x6 && bytes[1] == 0xd3 {
            match packets::PrintTextBlock::zvt_deserialize(bytes) {
                Ok((p, _)) => Ok(InitializationResponse::PrintTextBlock(p)),
                Err(e) => Err(e),
            }
        } else if bytes[0] == 0x6 && bytes[1] == 0xf {
            match packets::CompletionData::zvt_deserialize(bytes) {
                Ok((p, _)) => Ok(InitializationResponse::CompletionData(p)),
                Err(e) => Err(e),
            }
        } else if bytes[0] == 0x6 && bytes[1] == 0x1e {
            match packets::Abort::zvt_deserialize(bytes) {
                Ok((p, _)) => Ok(InitializationResponse::Abort(p)),
                Err(e) => Err(e),
            }
        } else {
            Err(ZVTError::WrongTag(Tag(bytes[0] as u16 * 256 + bytes[1] as u16)))
        }
    }
}

/// Sets the terminal identifier.
pub struct SetTerminalId;

/// The frames the terminal may answer a SetTerminalId dialog with.
#[derive(Debug, PartialEq)]
pub enum SetTerminalIdResponse {
    CompletionData(packets::CompletionData),
    Abort(packets::Abort),
}

impl SetTerminalIdResponse {
    /// The events that end the dialog.
    pub open spec fn spec_terminal(self) -> bool {
        match self {
            SetTerminalIdResponse::CompletionData(_) => true,
            SetTerminalIdResponse::Abort(_) => true,
        }
    }

    pub fn is_terminal(&self) -> (r: bool)
        ensures r == self.spec_terminal(),
    {
        match self {
            SetTerminalIdResponse::CompletionData(_) => true,
            SetTerminalIdResponse::Abort(_) => true,
        }
    }

    /// Parses one received frame into the dialog's response set: every
    /// well-formed frame of the set is taken as its variant, a control
    /// field outside the set is a wrong tag, and fewer than two bytes
    /// are incomplete.
    pub fn zvt_parse(bytes: &[u8]) -> (r: ZVTResult<Self>)
        ensures
            bytes@.len() < 2 ==> r == Err::<Self, _>(ZVTError::IncompleteData),
            bytes@.len() >= 2 && !((bytes@[0] == 0x6 && bytes@[1] == 0xf) || (bytes@[0] == 0x6 && bytes@[1] == 0x1e)) ==> r == Err::<Self, _>(ZVTError::WrongTag(
                Tag((bytes@[0] * 256 + bytes@[1]) as u16),
            )),
            r matches Ok(resp) ==> bytes@.len() >= 2 && (match resp {
                SetTerminalIdResponse::CompletionData(_) => bytes@[0] == 0x6 && bytes@[1] == 0xf,
                SetTerminalIdResponse::Abort(_) => bytes@[0] == 0x6 && bytes@[1] == 0x1e,
            }),
            forall|v: packets::CompletionData, rest: Seq<u8>|
                v.wf() && (true) && v.body_bytes().len() <= 0xffff && bytes@ == #[trigger] (crate::packets::frame_bytes(0x6, 0xf, v.body_bytes()) + rest) ==> (r matches Ok(resp) && (resp matches SetTerminalIdResponse::CompletionData(p) && p == v)),
            forall|v: packets::Abort, rest: Seq<u8>|
                v.wf() && (true) && v.body_bytes().len() <= 0xffff && bytes@ == #[trigger] (crate::packets::frame_bytes(0x6, 0x1e, v.body_bytes()) + rest) ==> (r matches Ok(resp) && (resp matches SetTerminalIdResponse::Abort(p) && p == v)),
    {
        if bytes.len() < 2 {
            return Err(ZVTError::IncompleteData);
        }
        if bytes[0] == 0x6 && bytes[1] == 0xf {
            match packets::CompletionData::zvt_deserialize(bytes) {
                Ok((p, _)) => Ok(SetTerminalIdResponse::CompletionData(p)),
                Err(e) => Err(e),
            }
        } else if bytes[0] == 0x6 && bytes[1] == 0x1e {
            match packets::Abort::zvt_deserialize(bytes) {
                Ok((p, _)) => Ok(SetTerminalIdResponse::Abort(p)),
                Err(e) => Err(e),
            }
        } else {
            Err(ZVTError::WrongTag(Tag(bytes[0] as u16 * 256 + bytes[1] as u16)))
        }
    }
}

/// Restarts the terminal.
pub struct ResetTerminal;

/// The frames the terminal may answer a ResetTerminal dialog with.
#[derive(Debug, PartialEq)]
pub enum ResetTerminalResponse {
    CompletionData(packets::CompletionData),
}

impl ResetTerminalResponse {
    /// The events that end the dialog.
    pub open spec fn spec_terminal(self) -> bool {
        match self {
            ResetTerminalResponse::CompletionData(_) => true,
        }
    }

    pub fn is_terminal(&self) -> (r: bool)
        ensures r == self.spec_terminal(),
    {
        match self {
            ResetTerminalResponse::CompletionData(_) => true,
        }
    }

    /// Parses one received frame into the dialog's response set: every
    /// well-formed frame of the set is taken as its variant, a control
    /// field outside the set is a wrong tag, and fewer than two bytes
    /// are incomplete.
    pub fn zvt_parse(bytes: &[u8]) -> (r: ZVTResult<Self>)
        ensures
            bytes@.len() < 2 ==> r == Err::<Self, _>(ZVTError::IncompleteData),
            bytes@.len() >= 2 && !((bytes@[0] == 0x6 && bytes@[1] == 0xf)) ==> r == Err::<Self, _>(ZVTError::WrongTag(
                Tag((bytes@[0] * 256 + bytes@[1]) as u16),
            )),
            r matches Ok(resp) ==> bytes@.len() >= 2 && (match resp {
                ResetTerminalResponse::CompletionData(_) => bytes@[0] == 0x6 && bytes@[1] == 0xf,
            }),
            forall|v: packets::CompletionData, rest: Seq<u8>|
                v.wf() && (true) && v.body_bytes().len() <= 0xffff && bytes@ == #[trigger] (crate::packets::frame_bytes(0x6, 0xf, v.body_bytes()) + rest) ==> (r matches Ok(resp) && (resp matches ResetTerminalResponse::CompletionData(p) && p == v)),
    {
        if bytes.len() < 2 {
            return Err(ZVTError::IncompleteData);
        }
        if bytes[0] == 0x6 && bytes[1] == 0xf {
            match packets::CompletionData::zvt_deserialize(bytes) {
                Ok((p, _)) => Ok(ResetTerminalResponse::CompletionData(p)),
                Err(e) => Err(e),
            }
        } else {
            Err(ZVTError::WrongTag(Tag(bytes[0] as u16 * 256 + bytes[1] as u16)))
        }
    }
}

/// Runs a diagnosis; the terminal may hand its clock over mid-dialog.
pub struct Diagnosis;

/// The frames the terminal may answer a Diagnosis dialog with.
#[derive(Debug, PartialEq)]
pub enum DiagnosisResponse {
    IntermediateStatusInformation(packets::IntermediateStatusInformation),
    SetTimeAndDate(packets::SetTimeAndDate),
    PrintLine(packets::PrintLine),
    PrintTextBlock(packets::PrintTextBlock),
    CompletionData(packets::CompletionData),
    Abort(packets::Abort),
}

impl DiagnosisResponse {
    /// The events that end the dialog.
    pub open spec fn spec_terminal(self) -> bool {
        match self {
            DiagnosisResponse::IntermediateStatusInformation(_) => false,
            DiagnosisResponse::SetTimeAndDate(_) => false,
            DiagnosisResponse::PrintLine(_) => false,
            DiagnosisResponse::PrintTextBlock(_) => false,
            DiagnosisResponse::CompletionData(_) => true,
            DiagnosisResponse::Abort(_) => true,
        }
    }

    pub fn is_terminal(&self) -> (r: bool)
        ensures r == self.spec_terminal(),
    {
        match self {
            DiagnosisResponse::IntermediateStatusInformation(_) => false,
            DiagnosisResponse::SetTimeAndDate(_) => false,
            DiagnosisResponse::PrintLine(_) => false,
            DiagnosisResponse::PrintTextBlock(_) => false,
            DiagnosisResponse::CompletionData(_) => true,
            DiagnosisResponse::Abort(_) => true,
        }
    }

    /// Parses one received frame into the dialog's response set: every
    /// well-formed frame of the set is taken as its variant, a control
    /// field outside the set is a wrong tag, and fewer than two bytes
    /// are incomplete.
    pub fn zvt_parse(bytes: &[u8]) -> (r: ZVTResult<Self>)
        ensures
            bytes@.len() < 2 ==> r == Err::<Self, _>(ZVTError::IncompleteData),
            bytes@.len() >= 2 && !((bytes@[0] == 0x4 && bytes@[1] == 0xff) || (bytes@[0] == 0x4 && bytes@[1] == 0x1) || (bytes@[0] == 0x6 && bytes@[1] == 0xd1) || (bytes@[0] == 0x6 && bytes@[1] == 0xd3) || (bytes@[0] == 0x6 && bytes@[1] == 0xf) || (bytes@[0] == 0x6 && bytes@[1] == 0x1e)) ==> r == Err::<Self, _>(ZVTError::WrongTag(
                Tag((bytes@[0] * 256 + bytes@[1]) as u16),
            )),
            r matches Ok(resp) ==> bytes@.len() >= 2 && (match resp {
                DiagnosisResponse::IntermediateStatusInformation(_) => bytes@[0] == 0x4 && bytes@[1] == 0xff,
                DiagnosisResponse::SetTimeAndDate(_) => bytes@[0] == 0x4 && bytes@[1] == 0x1,
                DiagnosisResponse::PrintLine(_) => bytes@[0] == 0x6 && bytes@[1] == 0xd1,
                DiagnosisResponse::PrintTextBlock(_) => bytes@[0] == 0x6 && bytes@[1] == 0xd3,
                DiagnosisResponse::CompletionData(_) => bytes@[0] == 0x6 && bytes@[1] == 0xf,
                DiagnosisResponse::Abort(_) => bytes@[0] == 0x6 && bytes@[1] == 0x1e,
            }),
            forall|v: packets::IntermediateStatusInformation, rest: Seq<u8>|
                v.wf() && (v.timeout is Some) && v.body_bytes().len() <= 0xffff && bytes@ == #[trigger] (crate::packets::frame_bytes(0x4, 0xff, v.body_bytes()) + rest) ==> (r matches Ok(resp) && (resp matches DiagnosisResponse::IntermediateStatusInformation(p) && p == v)),
            forall|v: packets::SetTimeAndDate, rest: Seq<u8>|
                v.wf() && (true) && v.body_bytes().len() <= 0xffff && bytes@ == #[trigger] (crate::packets::frame_bytes(0x4, 0x1, v.body_bytes()) + rest) ==> (r matches Ok(resp) && (resp matches DiagnosisResponse::SetTimeAndDate(p) && p == v)),
            forall|v: packets::PrintLine, rest: Seq<u8>|
                v.wf() && (true) && v.body_bytes().len() <= 0xffff && bytes@ == #[trigger] (crate::packets::frame_bytes(0x6, 0xd1, v.body_bytes()) + rest) ==> (r matches Ok(resp) && (resp matches DiagnosisResponse::PrintLine(p) && packets::PrintLine::eqv(p, v))),
            forall|v: packets::PrintTextBlock, rest: Seq<u8>|
                v.wf() && (true) && v.body_bytes().len() <= 0xffff && bytes@ == #[trigger] (crate::packets::frame_bytes(0x6, 0xd3, v.body_bytes()) + rest) ==> (r matches Ok(resp) && (resp matches DiagnosisResponse::PrintTextBlock(p) && packets::PrintTextBlock::eqv(p, v))),
            forall|v: packets::CompletionData, rest: Seq<u8>|
                v.wf() && (true) && v.body_bytes().len() <= 0xffff && bytes@ == #[trigger] (crate::packets::frame_bytes(0x6, 0xf, v.body_bytes()) + rest) ==> (r matches Ok(resp) && (resp matches DiagnosisResponse::CompletionData(p) && p == v)),
            forall|v: packets::Abort, rest: Seq<u8>|
                v.wf() && (true) && v.body_bytes().len() <= 0xffff && bytes@ == #[trigger] (crate::packets::frame_bytes(0x6, 0x1e, v.body_bytes()) + rest) ==> (r matches Ok(resp) && (resp matches DiagnosisResponse::Abort(p) && p == v)),
    {
        if bytes.len() < 2 {
            return Err(ZVTError::IncompleteData);
        }
        if bytes[0] == 0x4 && bytes[1] == 0xff {
            match packets::IntermediateStatusInformation::zvt_deserialize(bytes) {
                Ok((p, _)) => Ok(DiagnosisResponse::IntermediateStatusInformation(p)),
                Err(e) => Err(e),
            }
        } else if bytes[0] == 0x4 && bytes[1] == 0x1 {
            match packets::SetTimeAndDate::zvt_deserialize(bytes) {
                Ok((p, _)) => Ok(DiagnosisResponse::SetTimeAndDate(p)),
                Err(e) => Err(e),
            }
        } else if bytes[0] == 0x6 && bytes[1] == 0xd1 {
            match packets::PrintLine::zvt_deserialize(bytes) {
                Ok((p, _)) => Ok(DiagnosisResponse::PrintLine(p)),
                Err(e) => Err(e),
            }
        } else if bytes[0] == 0x6 && bytes[1] == 0xd3 {
            match packets::PrintTextBlock::zvt_deserialize(bytes) {
                Ok((p, _)) => Ok(DiagnosisResponse::PrintTextBlock(p)),
                Err(e) => Err(e),
            }
        } else if bytes[0] == 0x6 && bytes[1] == 0xf {
            match packets::CompletionData::zvt_deserialize(bytes) {
                Ok((p, _)) => Ok(DiagnosisResponse::CompletionData(p)),
                Err(e) => Err(e),
            }
        } else if bytes[0] == 0x6 && bytes[1] == 0x1e {
            match packets::Abort::zvt_deserialize(bytes) {
                Ok((p, _)) => Ok(DiagnosisResponse::Abort(p)),
                Err(e) => Err(e),
            }
        } else {
            Err(ZVTError::WrongTag(Tag(bytes[0] as u16 * 256 + bytes[1] as u16)))
        }
    }
}

/// Settles the stored turnover; an abort may carry a pending receipt number.
pub struct EndOfDay;

/// The frames the terminal may answer a EndOfDay dialog with.
#[derive(Debug, PartialEq)]
pub enum EndOfDayResponse {
    IntermediateStatusInformation(packets::IntermediateStatusInformation),
    StatusInformation(packets::StatusInformation),
    PrintLine(packets::PrintLine),
    PrintTextBlock(packets::PrintTextBlock),
    CompletionData(packets::CompletionData),
    Abort(packets::PartialReversalAbort),
}

impl EndOfDayResponse {
    /// The events that end the dialog.
    pub open spec fn spec_terminal(self) -> bool {
        match self {
            EndOfDayResponse::IntermediateStatusInformation(_) => false,
            EndOfDayResponse::StatusInformation(_) => false,
            EndOfDayResponse::PrintLine(_) => false,
            EndOfDayResponse::PrintTextBlock(_) => false,
            EndOfDayResponse::CompletionData(_) => true,
            EndOfDayResponse::Abort(_) => true,
        }
    }

    pub fn is_terminal(&self) -> (r: bool)
        ensures r == self.spec_terminal(),
    {
        match self {
            EndOfDayResponse::IntermediateStatusInformation(_) => false,
            EndOfDayResponse::StatusInformation(_) => false,
            EndOfDayResponse::PrintLine(_) => false,
            EndOfDayResponse::PrintTextBlock(_) => false,
            EndOfDayResponse::CompletionData(_) => true,
            EndOfDayResponse::Abort(_) => true,
        }
    }

    /// Parses one received frame into the dialog's response set: every
    /// well-formed frame of the set is taken as its variant, a control
    /// field outside the set is a wrong tag, and fewer than two bytes
    /// are incomplete.
    pub fn zvt_parse(bytes: &[u8]) -> (r: ZVTResult<Self>)
        ensures
            bytes@.len() < 2 ==> r == Err::<Self, _>(ZVTError::IncompleteData),
            bytes@.len() >= 2 && !((bytes@[0] == 0x4 && bytes@[1] == 0xff) || (bytes@[0] == 0x4 && bytes@[1] == 0xf) || (bytes@[0] == 0x6 && bytes@[1] == 0xd1) || (bytes@[0] == 0x6 && bytes@[1] == 0xd3) || (bytes@[0] == 0x6 && bytes@[1] == 0xf) || (bytes@[0] == 0x6 && bytes@[1] == 0x1e)) ==> r == Err::<Self, _>(ZVTError::WrongTag(
                Tag((bytes@[0] * 256 + bytes@[1]) as u16),
            )),
            r matches Ok(resp) ==> bytes@.len() >= 2 && (match resp {
                EndOfDayResponse::IntermediateStatusInformation(_) => bytes@[0] == 0x4 && bytes@[1] == 0xff,
                EndOfDayResponse::StatusInformation(_) => bytes@[0] == 0x4 && bytes@[1] == 0xf,
                EndOfDayResponse::PrintLine(_) => bytes@[0] == 0x6 && bytes@[1] == 0xd1,
                EndOfDayResponse::PrintTextBlock(_) => bytes@[0] == 0x6 && bytes@[1] == 0xd3,
                EndOfDayResponse::CompletionData(_) => bytes@[0] == 0x6 && bytes@[1] == 0xf,
                EndOfDayResponse::Abort(_) => bytes@[0] == 0x6 && bytes@[1] == 0x1e,
            }),
            forall|v: packets::IntermediateStatusInformation, rest: Seq<u8>|
                v.wf() && (v.timeout is Some) && v.body_bytes().len() <= 0xffff && bytes@ == #[trigger] (crate::packets::frame_bytes(0x4, 0xff, v.body_bytes()) + rest) ==> (r matches Ok(resp) && (resp matches EndOfDayResponse::IntermediateStatusInformation(p) && p == v)),
            forall|v: packets::PrintLine, rest: Seq<u8>|
                v.wf() && (true) && v.body_bytes().len() <= 0xffff && bytes@ == #[trigger] (crate::packets::frame_bytes(0x6, 0xd1, v.body_bytes()) + rest) ==> (r matches Ok(resp) && (resp matches EndOfDayResponse::PrintLine(p) && packets::PrintLine::eqv(p, v))),
            forall|v: packets::PrintTextBlock, rest: Seq<u8>|
                v.wf() && (true) && v.body_bytes().len() <= 0xffff && bytes@ == #[trigger] (crate::packets::frame_bytes(0x6, 0xd3, v.body_bytes()) + rest) ==> (r matches Ok(resp) && (resp matches EndOfDayResponse::PrintTextBlock(p) && packets::PrintTextBlock::eqv(p, v))),
            forall|v: packets::CompletionData, rest: Seq<u8>|
                v.wf() && (true) && v.body_bytes().len() <= 0xffff && bytes@ == #[trigger] (crate::packets::frame_bytes(0x6, 0xf, v.body_bytes()) + rest) ==> (r matches Ok(resp) && (resp matches EndOfDayResponse::CompletionData(p) && p == v)),
            forall|v: packets::PartialReversalAbort, rest: Seq<u8>|
                v.wf() && (true) && v.body_bytes().len() <= 0xffff && bytes@ == #[trigger] (crate::packets::frame_bytes(0x6, 0x1e, v.body_bytes()) + rest) ==> (r matches Ok(resp) && (resp matches EndOfDayResponse::Abort(p) && p == v)),
    {
        if bytes.len() < 2 {
            return Err(ZVTError::IncompleteData);
        }
        if bytes[0] == 0x4 && bytes[1] == 0xff {
            match packets::IntermediateStatusInformation::zvt_deserialize(bytes) {
                Ok((p, _)) => Ok(EndOfDayResponse::IntermediateStatusInformation(p)),
                Err(e) => Err(e),
            }
        } else if bytes[0] == 0x4 && bytes[1] == 0xf {
            match packets::StatusInformation::zvt_deserialize(bytes) {
                Ok((p, _)) => Ok(EndOfDayResponse::StatusInformation(p)),
                Err(e) => Err(e),
            }
        } else if bytes[0] == 0x6 && bytes[1] == 0xd1 {
            match packets::PrintLine::zvt_deserialize(bytes) {
                Ok((p, _)) => Ok(EndOfDayResponse::PrintLine(p)),
                Err(e) => Err(e),
            }
        } else if bytes[0] == 0x6 && bytes[1] == 0xd3 {
            match packets::PrintTextBlock::zvt_deserialize(bytes) {
                Ok((p, _)) => Ok(EndOfDayResponse::PrintTextBlock(p)),
                Err(e) => Err(e),
            }
        } else if bytes[0] == 0x6 && bytes[1] == 0xf {
            match packets::CompletionData::zvt_deserialize(bytes) {
                Ok((p, _)) => Ok(EndOfDayResponse::CompletionData(p)),
                Err(e) => Err(e),
            }
        } else if bytes[0] == 0x6 && bytes[1] == 0x1e {
            match packets::PartialReversalAbort::zvt_deserialize(bytes) {
                Ok((p, _)) => Ok(EndOfDayResponse::Abort(p)),
                Err(e) => Err(e),
            }
        } else {
            Err(ZVTError::WrongTag(Tag(bytes[0] as u16 * 256 + bytes[1] as u16)))
        }
    }
}

/// Places a hold on a card; the responses mirror an authorization.
pub struct Reservation;

/// The frames the terminal may answer a Reservation dialog with.
#[derive(Debug, PartialEq)]
pub enum AuthorizationResponse {
    IntermediateStatusInformation(packets::IntermediateStatusInformation),
    StatusInformation(packets::StatusInformation),
    PrintLine(packets::PrintLine),
    PrintTextBlock(packets::PrintTextBlock),
    CompletionData(packets::CompletionData),
    Abort(packets::Abort),
}

impl AuthorizationResponse {
    /// The events that end the dialog.
    pub open spec fn spec_terminal(self) -> bool {
        match self {
            AuthorizationResponse::IntermediateStatusInformation(_) => false,
            AuthorizationResponse::StatusInformation(_) => false,
            AuthorizationResponse::PrintLine(_) => false,
            AuthorizationResponse::PrintTextBlock(_) => false,
            AuthorizationResponse::CompletionData(_) => true,
            AuthorizationResponse::Abort(_) => true,
        }
    }

    pub fn is_terminal(&self) -> (r: bool)
        ensures r == self.spec_terminal(),
    {
        match self {
            AuthorizationResponse::IntermediateStatusInformation(_) => false,
            AuthorizationResponse::StatusInformation(_) => false,
            AuthorizationResponse::PrintLine(_) => false,
            AuthorizationResponse::PrintTextBlock(_) => false,
            AuthorizationResponse::CompletionData(_) => true,
            AuthorizationResponse::Abort(_) => true,
        }
    }

    /// Parses one received frame into the dialog's response set: every
    /// well-formed frame of the set is taken as its variant, a control
    /// field outside the set is a wrong tag, and fewer than two bytes
    /// are incomplete.
    pub fn zvt_parse(bytes: &[u8]) -> (r: ZVTResult<Self>)
        ensures
            bytes@.len() < 2 ==> r == Err::<Self, _>(ZVTError::IncompleteData),
            bytes@.len() >= 2 && !((bytes@[0] == 0x4 && bytes@[1] == 0xff) || (bytes@[0] == 0x4 && bytes@[1] == 0xf) || (bytes@[0] == 0x6 && bytes@[1] == 0xd1) || (bytes@[0] == 0x6 && bytes@[1] == 0xd3) || (bytes@[0] == 0x6 && bytes@[1] == 0xf) || (bytes@[0] == 0x6 && bytes@[1] == 0x1e)) ==> r == Err::<Self, _>(ZVTError::WrongTag(
                Tag((bytes@[0] * 256 + bytes@[1]) as u16),
            )),
            r matches Ok(resp) ==> bytes@.len() >= 2 && (match resp {
                AuthorizationResponse::IntermediateStatusInformation(_) => bytes@[0] == 0x4 && bytes@[1] == 0xff,
                AuthorizationResponse::StatusInformation(_) => bytes@[0] == 0x4 && bytes@[1] == 0xf,
                AuthorizationResponse::PrintLine(_) => bytes@[0] == 0x6 && bytes@[1] == 0xd1,
                AuthorizationResponse::PrintTextBlock(_) => bytes@[0] == 0x6 && bytes@[1] == 0xd3,
                AuthorizationResponse::CompletionData(_) => bytes@[0] == 0x6 && bytes@[1] == 0xf,
                AuthorizationResponse::Abort(_) => bytes@[0] == 0x6 && bytes@[1] == 0x1e,
            }),
            forall|v: packets::IntermediateStatusInformation, rest: Seq<u8>|
                v.wf() && (v.timeout is Some) && v.body_bytes().len() <= 0xffff && bytes@ == #[trigger] (crate::packets::frame_bytes(0x4, 0xff, v.body_bytes()) + rest) ==> (r matches Ok(resp) && (resp matches AuthorizationResponse::IntermediateStatusInformation(p) && p == v)),
            forall|v: packets::PrintLine, rest: Seq<u8>|
                v.wf() && (true) && v.body_bytes().len() <= 0xffff && bytes@ == #[trigger] (crate::packets::frame_bytes(0x6, 0xd1, v.body_bytes()) + rest) ==> (r matches Ok(resp) && (resp matches AuthorizationResponse::PrintLine(p) && packets::PrintLine::eqv(p, v))),
            forall|v: packets::PrintTextBlock, rest: Seq<u8>|
                v.wf() && (true) && v.body_bytes().len() <= 0xffff && bytes@ == #[trigger] (crate::packets::frame_bytes(0x6, 0xd3, v.body_bytes()) + rest) ==> (r matches Ok(resp) && (resp matches AuthorizationResponse::PrintTextBlock(p) && packets::PrintTextBlock::eqv(p, v))),
            forall|v: packets::CompletionData, rest: Seq<u8>|
                v.wf() && (true) && v.body_bytes().len() <= 0xffff && bytes@ == #[trigger] (crate::packets::frame_bytes(0x6, 0xf, v.body_bytes()) + rest) ==> (r matches Ok(resp) && (resp matches AuthorizationResponse::CompletionData(p) && p == v)),
            forall|v: packets::Abort, rest: Seq<u8>|
                v.wf() && (true) && v.body_bytes().len() <= 0xffff && bytes@ == #[trigger] (crate::packets::frame_bytes(0x6, 0x1e, v.body_bytes()) + rest) ==> (r matches Ok(resp) && (resp matches AuthorizationResponse::Abort(p) && p == v)),
    {
        if bytes.len() < 2 {
            return Err(ZVTError::IncompleteData);
        }
        if bytes[0] == 0x4 && bytes[1] == 0xff {
            match packets::IntermediateStatusInformation::zvt_deserialize(bytes) {
                Ok((p, _)) => Ok(AuthorizationResponse::IntermediateStatusInformation(p)),
                Err(e) => Err(e),
            }
        } else if bytes[0] == 0x4 && bytes[1] == 0xf {
            match packets::StatusInformation::zvt_deserialize(bytes) {
                Ok((p, _)) => Ok(AuthorizationResponse::StatusInformation(p)),
                Err(e) => Err(e),
            }
        } else if bytes[0] == 0x6 && bytes[1] == 0xd1 {
            match packets::PrintLine::zvt_deserialize(bytes) {
                Ok((p, _)) => Ok(AuthorizationResponse::PrintLine(p)),
                Err(e) => Err(e),
            }
        } else if bytes[0] == 0x6 && bytes[1] == 0xd3 {
            match packets::PrintTextBlock::zvt_deserialize(bytes) {
                Ok((p, _)) => Ok(AuthorizationResponse::PrintTextBlock(p)),
                Err(e) => Err(e),
            }
        } else if bytes[0] == 0x6 && bytes[1] == 0xf {
            match packets::CompletionData::zvt_deserialize(bytes) {
                Ok((p, _)) => Ok(AuthorizationResponse::CompletionData(p)),
                Err(e) => Err(e),
            }
        } else if bytes[0] == 0x6 && bytes[1] == 0x1e {
            match packets::Abort::zvt_deserialize(bytes) {
                Ok((p, _)) => Ok(AuthorizationResponse::Abort(p)),
                Err(e) => Err(e),
            }
        } else {
            Err(ZVTError::WrongTag(Tag(bytes[0] as u16 * 256 + bytes[1] as u16)))
        }
    }
}

/// Releases the unused part of a reservation.
pub struct PartialReversal;

/// The frames the terminal may answer a PartialReversal dialog with.
#[derive(Debug, PartialEq)]
pub enum PartialReversalResponse {
    IntermediateStatusInformation(packets::IntermediateStatusInformation),
    StatusInformation(packets::StatusInformation),
    PrintLine(packets::PrintLine),
    PrintTextBlock(packets::PrintTextBlock),
    CompletionData(packets::CompletionData),
    PartialReversalAbort(packets::PartialReversalAbort),
}

impl PartialReversalResponse {
    /// The events that end the dialog.
    pub open spec fn spec_terminal(self) -> bool {
        match self {
            PartialReversalResponse::IntermediateStatusInformation(_) => false,
            PartialReversalResponse::StatusInformation(_) => false,
            PartialReversalResponse::PrintLine(_) => false,
            PartialReversalResponse::PrintTextBlock(_) => false,
            PartialReversalResponse::CompletionData(_) => true,
            PartialReversalResponse::PartialReversalAbort(_) => true,
        }
    }

    pub fn is_terminal(&self) -> (r: bool)
        ensures r == self.spec_terminal(),
    {
        match self {
            PartialReversalResponse::IntermediateStatusInformation(_) => false,
            PartialReversalResponse::StatusInformation(_) => false,
            PartialReversalResponse::PrintLine(_) => false,
            PartialReversalResponse::PrintTextBlock(_) => false,
            PartialReversalResponse::CompletionData(_) => true,
            PartialReversalResponse::PartialReversalAbort(_) => true,
        }
    }

    /// Parses one received frame into the dialog's response set: every
    /// well-formed frame of the set is taken as its variant, a control
    /// field outside the set is a wrong tag, and fewer than two bytes
    /// are incomplete.
    pub fn zvt_parse(bytes: &[u8]) -> (r: ZVTResult<Self>)
        ensures
            bytes@.len() < 2 ==> r == Err::<Self, _>(ZVTError::IncompleteData),
            bytes@.len() >= 2 && !((bytes@[0] == 0x4 && bytes@[1] == 0xff) || (bytes@[0] == 0x4 && bytes@[1] == 0xf) || (bytes@[0] == 0x6 && bytes@[1] == 0xd1) || (bytes@[0] == 0x6 && bytes@[1] == 0xd3) || (bytes@[0] == 0x6 && bytes@[1] == 0xf) || (bytes@[0] == 0x6 && bytes@[1] == 0x1e)) ==> r == Err::<Self, _>(ZVTError::WrongTag(
                Tag((bytes@[0] * 256 + bytes@[1]) as u16),
            )),
            r matches Ok(resp) ==> bytes@.len() >= 2 && (match resp {
                PartialReversalResponse::IntermediateStatusInformation(_) => bytes@[0] == 0x4 && bytes@[1] == 0xff,
                PartialReversalResponse::StatusInformation(_) => bytes@[0] == 0x4 && bytes@[1] == 0xf,
                PartialReversalResponse::PrintLine(_) => bytes@[0] == 0x6 && bytes@[1] == 0xd1,
                PartialReversalResponse::PrintTextBlock(_) => bytes@[0] == 0x6 && bytes@[1] == 0xd3,
                PartialReversalResponse::CompletionData(_) => bytes@[0] == 0x6 && bytes@[1] == 0xf,
                PartialReversalResponse::PartialReversalAbort(_) => bytes@[0] == 0x6 && bytes@[1] == 0x1e,
            }),
            forall|v: packets::IntermediateStatusInformation, rest: Seq<u8>|
                v.wf() && (v.timeout is Some) && v.body_bytes().len() <= 0xffff && bytes@ == #[trigger] (crate::packets::frame_bytes(0x4, 0xff, v.body_bytes()) + rest) ==> (r matches Ok(resp) && (resp matches PartialReversalResponse::IntermediateStatusInformation(p) && p == v)),
            forall|v: packets::PrintLine, rest: Seq<u8>|
                v.wf() && (true) && v.body_bytes().len() <= 0xffff && bytes@ == #[trigger] (crate::packets::frame_bytes(0x6, 0xd1, v.body_bytes()) + rest) ==> (r matches Ok(resp) && (resp matches PartialReversalResponse::PrintLine(p) && packets::PrintLine::eqv(p, v))),
            forall|v: packets::PrintTextBlock, rest: Seq<u8>|
                v.wf() && (true) && v.body_bytes().len() <= 0xffff && bytes@ == #[trigger] (crate::packets::frame_bytes(0x6, 0xd3, v.body_bytes()) + rest) ==> (r matches Ok(resp) && (resp matches PartialReversalResponse::PrintTextBlock(p) && packets::PrintTextBlock::eqv(p, v))),
            forall|v: packets::CompletionData, rest: Seq<u8>|
                v.wf() && (true) && v.body_bytes().len() <= 0xffff && bytes@ == #[trigger] (crate::packets::frame_bytes(0x6, 0xf, v.body_bytes()) + rest) ==> (r matches Ok(resp) && (resp matches PartialReversalResponse::CompletionData(p) && p == v)),
            forall|v: packets::PartialReversalAbort, rest: Seq<u8>|
                v.wf() && (true) && v.body_bytes().len() <= 0xffff && bytes@ == #[trigger] (crate::packets::frame_bytes(0x6, 0x1e, v.body_bytes()) + rest) ==> (r matches Ok(resp) && (resp matches PartialReversalResponse::PartialReversalAbort(p) && p == v)),
    {
        if bytes.len() < 2 {
            return Err(ZVTError::IncompleteData);
        }
        if bytes[0] == 0x4 && bytes[1] == 0xff {
            match packets::IntermediateStatusInformation::zvt_deserialize(bytes) {
                Ok((p, _)) => Ok(PartialReversalResponse::IntermediateStatusInformation(p)),
                Err(e) => Err(e),
            }
        } else if bytes[0] == 0x4 && bytes[1] == 0xf {
            match packets::StatusInformation::zvt_deserialize(bytes) {
                Ok((p, _)) => Ok(PartialReversalResponse::StatusInformation(p)),
                Err(e) => Err(e),
            }
        } else if bytes[0] == 0x6 && bytes[1] == 0xd1 {
            match packets::PrintLine::zvt_deserialize(bytes) {
                Ok((p, _)) => Ok(PartialReversalResponse::PrintLine(p)),
                Err(e) => Err(e),
            }
        } else if bytes[0] == 0x6 && bytes[1] == 0xd3 {
            match packets::PrintTextBlock::zvt_deserialize(bytes) {
                Ok((p, _)) => Ok(PartialReversalResponse::PrintTextBlock(p)),
                Err(e) => Err(e),
            }
        } else if bytes[0] == 0x6 && bytes[1] == 0xf {
            match packets::CompletionData::zvt_deserialize(bytes) {
                Ok((p, _)) => Ok(PartialReversalResponse::CompletionData(p)),
                Err(e) => Err(e),
            }
        } else if bytes[0] == 0x6 && bytes[1] == 0x1e {
            match packets::PartialReversalAbort::zvt_deserialize(bytes) {
                Ok((p, _)) => Ok(PartialReversalResponse::PartialReversalAbort(p)),
                Err(e) => Err(e),
            }
        } else {
            Err(ZVTError::WrongTag(Tag(bytes[0] as u16 * 256 + bytes[1] as u16)))
        }
    }
}

/// Prints the terminal's configuration.
pub struct PrintSystemConfiguration;

/// The frames the terminal may answer a PrintSystemConfiguration dialog with.
#[derive(Debug, PartialEq)]
pub enum PrintSystemConfigurationResponse {
    PrintLine(packets::PrintLine),
    PrintTextBlock(packets::PrintTextBlock),
    CompletionData(packets::CompletionData),
}

impl PrintSystemConfigurationResponse {
    /// The events that end the dialog.
    pub open spec fn spec_terminal(self) -> bool {
        match self {
            PrintSystemConfigurationResponse::PrintLine(_) => false,
            PrintSystemConfigurationResponse::PrintTextBlock(_) => false,
            PrintSystemConfigurationResponse::CompletionData(_) => true,
        }
    }

    pub fn is_terminal(&self) -> (r: bool)
        ensures r == self.spec_terminal(),
    {
        match self {
            PrintSystemConfigurationResponse::PrintLine(_) => false,
            PrintSystemConfigurationResponse::PrintTextBlock(_) => false,
            PrintSystemConfigurationResponse::CompletionData(_) => true,
        }
    }

    /// Parses one received frame into the dialog's response set: every
    /// well-formed frame of the set is taken as its variant, a control
    /// field outside the set is a wrong tag, and fewer than two bytes
    /// are incomplete.
    pub fn zvt_parse(bytes: &[u8]) -> (r: ZVTResult<Self>)
        ensures
            bytes@.len() < 2 ==> r == Err::<Self, _>(ZVTError::IncompleteData),
            bytes@.len() >= 2 && !((bytes@[0] == 0x6 && bytes@[1] == 0xd1) || (bytes@[0] == 0x6 && bytes@[1] == 0xd3) || (bytes@[0] == 0x6 && bytes@[1] == 0xf)) ==> r == Err::<Self, _>(ZVTError::WrongTag(
                Tag((bytes@[0] * 256 + bytes@[1]) as u16),
            )),
            r matches Ok(resp) ==> bytes@.len() >= 2 && (match resp {
                PrintSystemConfigurationResponse::PrintLine(_) => bytes@[0] == 0x6 && bytes@[1] == 0xd1,
                PrintSystemConfigurationResponse::PrintTextBlock(_) => bytes@[0] == 0x6 && bytes@[1] == 0xd3,
                PrintSystemConfigurationResponse::CompletionData(_) => bytes@[0] == 0x6 && bytes@[1] == 0xf,
            }),
            forall|v: packets::PrintLine, rest: Seq<u8>|
                v.wf() && (true) && v.body_bytes().len() <= 0xffff && bytes@ == #[trigger] (crate::packets::frame_bytes(0x6, 0xd1, v.body_bytes()) + rest) ==> (r matches Ok(resp) && (resp matches PrintSystemConfigurationResponse::PrintLine(p) && packets::PrintLine::eqv(p, v))),
            forall|v: packets::PrintTextBlock, rest: Seq<u8>|
                v.wf() && (true) && v.body_bytes().len() <= 0xffff && bytes@ == #[trigger] (crate::packets::frame_bytes(0x6, 0xd3, v.body_bytes()) + rest) ==> (r matches Ok(resp) && (resp matches PrintSystemConfigurationResponse::PrintTextBlock(p) && packets::PrintTextBlock::eqv(p, v))),
            forall|v: packets::CompletionData, rest: Seq<u8>|
                v.wf() && (true) && v.body_bytes().len() <= 0xffff && bytes@ == #[trigger] (crate::packets::frame_bytes(0x6, 0xf, v.body_bytes()) + rest) ==> (r matches Ok(resp) && (resp matches PrintSystemConfigurationResponse::CompletionData(p) && p == v)),
    {
        if bytes.len() < 2 {
            return Err(ZVTError::IncompleteData);
        }
        if bytes[0] == 0x6 && bytes[1] == 0xd1 {
            match packets::PrintLine::zvt_deserialize(bytes) {
                Ok((p, _)) => Ok(PrintSystemConfigurationResponse::PrintLine(p)),
                Err(e) => Err(e),
            }
        } else if bytes[0] == 0x6 && bytes[1] == 0xd3 {
            match packets::PrintTextBlock::zvt_deserialize(bytes) {
                Ok((p, _)) => Ok(PrintSystemConfigurationResponse::PrintTextBlock(p)),
                Err(e) => Err(e),
            }
        } else if bytes[0] == 0x6 && bytes[1] == 0xf {
            match packets::CompletionData::zvt_deserialize(bytes) {
                Ok((p, _)) => Ok(PrintSystemConfigurationResponse::CompletionData(p)),
                Err(e) => Err(e),
            }
        } else {
            Err(ZVTError::WrongTag(Tag(bytes[0] as u16 * 256 + bytes[1] as u16)))
        }
    }
}

/// Selects the dialog language.
pub struct SelectLanguage;

/// The frames the terminal may answer a SelectLanguage dialog with.
#[derive(Debug, PartialEq)]
pub enum SelectLanguageResponse {
    CompletionData(packets::CompletionData),
}

impl SelectLanguageResponse {
    /// The events that end the dialog.
    pub open spec fn spec_terminal(self) -> bool {
        match self {
            SelectLanguageResponse::CompletionData(_) => true,
        }
    }

    pub fn is_terminal(&self) -> (r: bool)
        ensures r == self.spec_terminal(),
    {
        match self {
            SelectLanguageResponse::CompletionData(_) => true,
        }
    }

    /// Parses one received frame into the dialog's response set: every
    /// well-formed frame of the set is taken as its variant, a control
    /// field outside the set is a wrong tag, and fewer than two bytes
    /// are incomplete.
    pub fn zvt_parse(bytes: &[u8]) -> (r: ZVTResult<Self>)
        ensures
            bytes@.len() < 2 ==> r == Err::<Self, _>(ZVTError::IncompleteData),
            bytes@.len() >= 2 && !((bytes@[0] == 0x6 && bytes@[1] == 0xf)) ==> r == Err::<Self, _>(ZVTError::WrongTag(
                Tag((bytes@[0] * 256 + bytes@[1]) as u16),
            )),
            r matches Ok(resp) ==> bytes@.len() >= 2 && (match resp {
                SelectLanguageResponse::CompletionData(_) => bytes@[0] == 0x6 && bytes@[1] == 0xf,
            }),
            forall|v: packets::CompletionData, rest: Seq<u8>|
                v.wf() && (true) && v.body_bytes().len() <= 0xffff && bytes@ == #[trigger] (crate::packets::frame_bytes(0x6, 0xf, v.body_bytes()) + rest) ==> (r matches Ok(resp) && (resp matches SelectLanguageResponse::CompletionData(p) && p == v)),
    {
        if bytes.len() < 2 {
            return Err(ZVTError::IncompleteData);
        }
        if bytes[0] == 0x6 && bytes[1] == 0xf {
            match packets::CompletionData::zvt_deserialize(bytes) {
                Ok((p, _)) => Ok(SelectLanguageResponse::CompletionData(p)),
                Err(e) => Err(e),
            }
        } else {
            Err(ZVTError::WrongTag(Tag(bytes[0] as u16 * 256 + bytes[1] as u16)))
        }
    }
}

/// Queries the status and lets timed jobs run.
pub struct StatusEnquiry;

/// The frames the terminal may answer a StatusEnquiry dialog with.
#[derive(Debug, PartialEq)]
pub enum StatusEnquiryResponse {
    IntermediateStatusInformation(packets::IntermediateStatusInformation),
    PrintLine(packets::PrintLine),
    PrintTextBlock(packets::PrintTextBlock),
    CompletionData(packets::CompletionData),
}

impl StatusEnquiryResponse {
    /// The events that end the dialog.
    pub open spec fn spec_terminal(self) -> bool {
        match self {
            StatusEnquiryResponse::IntermediateStatusInformation(_) => false,
            StatusEnquiryResponse::PrintLine(_) => false,
            StatusEnquiryResponse::PrintTextBlock(_) => false,
            StatusEnquiryResponse::CompletionData(_) => true,
        }
    }

    pub fn is_terminal(&self) -> (r: bool)
        ensures r == self.spec_terminal(),
    {
        match self {
            StatusEnquiryResponse::IntermediateStatusInformation(_) => false,
            StatusEnquiryResponse::PrintLine(_) => false,
            StatusEnquiryResponse::PrintTextBlock(_) => false,
            StatusEnquiryResponse::CompletionData(_) => true,
        }
    }

    /// Parses one received frame into the dialog's response set: every
    /// well-formed frame of the set is taken as its variant, a control
    /// field outside the set is a wrong tag, and fewer than two bytes
    /// are incomplete.
    pub fn zvt_parse(bytes: &[u8]) -> (r: ZVTResult<Self>)
        ensures
            bytes@.len() < 2 ==> r == Err::<Self, _>(ZVTError::IncompleteData),
            bytes@.len() >= 2 && !((bytes@[0] == 0x4 && bytes@[1] == 0xff) || (bytes@[0] == 0x6 && bytes@[1] == 0xd1) || (bytes@[0] == 0x6 && bytes@[1] == 0xd3) || (bytes@[0] == 0x6 && bytes@[1] == 0xf)) ==> r == Err::<Self, _>(ZVTError::WrongTag(
                Tag((bytes@[0] * 256 + bytes@[1]) as u16),
            )),
            r matches Ok(resp) ==> bytes@.len() >= 2 && (match resp {
                StatusEnquiryResponse::IntermediateStatusInformation(_) => bytes@[0] == 0x4 && bytes@[1] == 0xff,
                StatusEnquiryResponse::PrintLine(_) => bytes@[0] == 0x6 && bytes@[1] == 0xd1,
                StatusEnquiryResponse::PrintTextBlock(_) => bytes@[0] == 0x6 && bytes@[1] == 0xd3,
                StatusEnquiryResponse::CompletionData(_) => bytes@[0] == 0x6 && bytes@[1] == 0xf,
            }),
            forall|v: packets::IntermediateStatusInformation, rest: Seq<u8>|
                v.wf() && (v.timeout is Some) && v.body_bytes().len() <= 0xffff && bytes@ == #[trigger] (crate::packets::frame_bytes(0x4, 0xff, v.body_bytes()) + rest) ==> (r matches Ok(resp) && (resp matches StatusEnquiryResponse::IntermediateStatusInformation(p) && p == v)),
            forall|v: packets::PrintLine, rest: Seq<u8>|
                v.wf() && (true) && v.body_bytes().len() <= 0xffff && bytes@ == #[trigger] (crate::packets::frame_bytes(0x6, 0xd1, v.body_bytes()) + rest) ==> (r matches Ok(resp) && (resp matches StatusEnquiryResponse::PrintLine(p) && packets::PrintLine::eqv(p, v))),
            forall|v: packets::PrintTextBlock, rest: Seq<u8>|
                v.wf() && (true) && v.body_bytes().len() <= 0xffff && bytes@ == #[trigger] (crate::packets::frame_bytes(0x6, 0xd3, v.body_bytes()) + rest) ==> (r matches Ok(resp) && (resp matches StatusEnquiryResponse::PrintTextBlock(p) && packets::PrintTextBlock::eqv(p, v))),
            forall|v: packets::CompletionData, rest: Seq<u8>|
                v.wf() && (true) && v.body_bytes().len() <= 0xffff && bytes@ == #[trigger] (crate::packets::frame_bytes(0x6, 0xf, v.body_bytes()) + rest) ==> (r matches Ok(resp) && (resp matches StatusEnquiryResponse::CompletionData(p) && p == v)),
    {
        if bytes.len() < 2 {
            return Err(ZVTError::IncompleteData);
        }
        if bytes[0] == 0x4 && bytes[1] == 0xff {
            match packets::IntermediateStatusInformation::zvt_deserialize(bytes) {
                Ok((p, _)) => Ok(StatusEnquiryResponse::IntermediateStatusInformation(p)),
                Err(e) => Err(e),
            }
        } else if bytes[0] == 0x6 && bytes[1] == 0xd1 {
            match packets::PrintLine::zvt_deserialize(bytes) {
                Ok((p, _)) => Ok(StatusEnquiryResponse::PrintLine(p)),
                Err(e) => Err(e),
            }
        } else if bytes[0] == 0x6 && bytes[1] == 0xd3 {
            match packets::PrintTextBlock::zvt_deserialize(bytes) {
                Ok((p, _)) => Ok(StatusEnquiryResponse::PrintTextBlock(p)),
                Err(e) => Err(e),
            }
        } else if bytes[0] == 0x6 && bytes[1] == 0xf {
            match packets::CompletionData::zvt_deserialize(bytes) {
                Ok((p, _)) => Ok(StatusEnquiryResponse::CompletionData(p)),
                Err(e) => Err(e),
            }
        } else {
            Err(ZVTError::WrongTag(Tag(bytes[0] as u16 * 256 + bytes[1] as u16)))
        }
    }
}

/// Reverses a reservation in full; the dialog mirrors a partial reversal.
pub struct PreAuthReversal;

} // verus!