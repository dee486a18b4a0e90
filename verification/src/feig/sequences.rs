//! The vendor dialogs: system information and the firmware transfer.

use crate::errors::ZVTError;
use crate::errors::ZVTResult;
use crate::feig::packets;
use crate::feig::tlv;
use crate::packets as zvt_packets;
use crate::Tag;
use vstd::prelude::*;
use vstd::string::StringExecFns;

verus! {

/// Queries the enhanced system information.
pub struct GetSystemInfo;

/// The frames a system-information query may be answered with.
#[derive(Debug, PartialEq)]
pub enum GetSystemInfoResponse {
    CVendFunctionsEnhancedSystemInformationCompletion(
        packets::CVendFunctionsEnhancedSystemInformationCompletion,
    ),
    Abort(zvt_packets::Abort),
}

impl GetSystemInfoResponse {
    /// Both answers end the dialog.
    pub open spec fn spec_terminal(self) -> bool {
        true
    }

    pub fn is_terminal(&self) -> (r: bool)
        ensures
            r == self.spec_terminal(),
    {
        true
    }

    pub fn zvt_parse(bytes: &[u8]) -> (r: ZVTResult<Self>)
        ensures
            bytes@.len() < 2 ==> r == Err::<Self, _>(ZVTError::IncompleteData),
            bytes@.len() >= 2 && !((bytes@[0] == 0x06 && bytes@[1] == 0x0f) || (bytes@[0] == 0x06
                && bytes@[1] == 0x1e)) ==> r == Err::<Self, _>(ZVTError::WrongTag(
                Tag((bytes@[0] * 256 + bytes@[1]) as u16),
            )),
            r matches Ok(resp) ==> bytes@.len() >= 2 && (match resp {
                GetSystemInfoResponse::CVendFunctionsEnhancedSystemInformationCompletion(_) => bytes@[0] == 0x06 && bytes@[1] == 0x0f,
                GetSystemInfoResponse::Abort(_) => bytes@[0] == 0x06 && bytes@[1] == 0x1e,
            }),
            forall|v: packets::CVendFunctionsEnhancedSystemInformationCompletion, rest: Seq<u8>|
                v.wf() && v.body_bytes().len() <= 0xffff && bytes@ == #[trigger] (
                crate::packets::frame_bytes(0x06, 0x0f, v.body_bytes()) + rest) ==> (r matches Ok(
                    resp,
                ) && (resp matches GetSystemInfoResponse::CVendFunctionsEnhancedSystemInformationCompletion(
                    p,
                ) && packets::CVendFunctionsEnhancedSystemInformationCompletion::eqv(p, v))),
            forall|v: zvt_packets::Abort, rest: Seq<u8>|
                v.wf() && v.body_bytes().len() <= 0xffff && bytes@ == #[trigger] (
                crate::packets::frame_bytes(0x06, 0x1e, v.body_bytes()) + rest) ==> (r matches Ok(
                    resp,
                ) && (resp matches GetSystemInfoResponse::Abort(p) && p == v)),
    {
        if bytes.len() < 2 {
            return Err(ZVTError::IncompleteData);
        }
        if bytes[0] == 0x06 && bytes[1] == 0x0f {
            match packets::CVendFunctionsEnhancedSystemInformationCompletion::zvt_deserialize(
                bytes,
            ) {
                Ok((p, _)) => Ok(
                    GetSystemInfoResponse::CVendFunctionsEnhancedSystemInformationCompletion(p),
                ),
                Err(e) => Err(e),
            }
        } else if bytes[0] == 0x06 && bytes[1] == 0x1e {
            match zvt_packets::Abort::zvt_deserialize(bytes) {
                Ok((p, _)) => Ok(GetSystemInfoResponse::Abort(p)),
                Err(e) => Err(e),
            }
        } else {
            Err(ZVTError::WrongTag(Tag(bytes[0] as u16 * 256 + bytes[1] as u16)))
        }
    }
}

/// The firmware transfer dialog.
pub struct WriteFile;

/// One file of a firmware payload: its wire id and its path.
#[derive(Debug, PartialEq)]
pub struct File {
    pub file_id: u8,
    pub path: String,
}

/// The frames the terminal sends during a firmware transfer.
#[derive(Debug, PartialEq)]
pub enum WriteFileResponse {
    CompletionData(zvt_packets::CompletionData),
    RequestForData(packets::RequestForData),
    Abort(zvt_packets::Abort),
}

impl WriteFileResponse {
    /// Data requests keep the dialog going; completion or abort end it.
    pub open spec fn spec_terminal(self) -> bool {
        match self {
            WriteFileResponse::CompletionData(_) => true,
            WriteFileResponse::RequestForData(_) => false,
            WriteFileResponse::Abort(_) => true,
        }
    }

    pub fn is_terminal(&self) -> (r: bool)
        ensures
            r == self.spec_terminal(),
    {
        match self {
            WriteFileResponse::CompletionData(_) => true,
            WriteFileResponse::RequestForData(_) => false,
            WriteFileResponse::Abort(_) => true,
        }
    }

    pub fn zvt_parse(bytes: &[u8]) -> (r: ZVTResult<Self>)
        ensures
            bytes@.len() < 2 ==> r == Err::<Self, _>(ZVTError::IncompleteData),
            bytes@.len() >= 2 && !((bytes@[0] == 0x06 && bytes@[1] == 0x0f) || (bytes@[0] == 0x04
                && bytes@[1] == 0x0c) || (bytes@[0] == 0x06 && bytes@[1] == 0x1e)) ==> r == Err::<
                Self,
                _,
            >(ZVTError::WrongTag(Tag((bytes@[0] * 256 + bytes@[1]) as u16))),
            r matches Ok(resp) ==> bytes@.len() >= 2 && (match resp {
                WriteFileResponse::CompletionData(_) => bytes@[0] == 0x06 && bytes@[1] == 0x0f,
                WriteFileResponse::RequestForData(_) => bytes@[0] == 0x04 && bytes@[1] == 0x0c,
                WriteFileResponse::Abort(_) => bytes@[0] == 0x06 && bytes@[1] == 0x1e,
            }),
            forall|v: zvt_packets::CompletionData, rest: Seq<u8>|
                v.wf() && v.body_bytes().len() <= 0xffff && bytes@ == #[trigger] (
                crate::packets::frame_bytes(0x06, 0x0f, v.body_bytes()) + rest) ==> (r matches Ok(
                    resp,
                ) && (resp matches WriteFileResponse::CompletionData(p) && p == v)),
            forall|v: packets::RequestForData, rest: Seq<u8>|
                v.wf() && (match v.tlv { Some(w) => (match w.file { Some(f) => (match f.payload { Some(pl) => pl@.len() > 0, None => true }), None => true }), None => true }) && v.body_bytes().len() <= 0xffff && bytes@
                    == #[trigger] (crate::packets::frame_bytes(0x04, 0x0c, v.body_bytes())
                    + rest) ==> (r matches Ok(resp) && (resp
                    matches WriteFileResponse::RequestForData(p)
                    && packets::RequestForData::eqv(p, v))),
            forall|v: zvt_packets::Abort, rest: Seq<u8>|
                v.wf() && v.body_bytes().len() <= 0xffff && bytes@ == #[trigger] (
                crate::packets::frame_bytes(0x06, 0x1e, v.body_bytes()) + rest) ==> (r matches Ok(
                    resp,
                ) && (resp matches WriteFileResponse::Abort(p) && p == v)),
    {
        if bytes.len() < 2 {
            return Err(ZVTError::IncompleteData);
        }
        if bytes[0] == 0x06 && bytes[1] == 0x0f {
            match zvt_packets::CompletionData::zvt_deserialize(bytes) {
                Ok((p, _)) => Ok(WriteFileResponse::CompletionData(p)),
                Err(e) => Err(e),
            }
        } else if bytes[0] == 0x04 && bytes[1] == 0x0c {
            match packets::RequestForData::zvt_deserialize(bytes) {
                Ok((p, _)) => Ok(WriteFileResponse::RequestForData(p)),
                Err(e) => Err(e),
            }
        } else if bytes[0] == 0x06 && bytes[1] == 0x1e {
            match zvt_packets::Abort::zvt_deserialize(bytes) {
                Ok((p, _)) => Ok(WriteFileResponse::Abort(p)),
                Err(e) => Err(e),
            }
        } else {
            Err(ZVTError::WrongTag(Tag(bytes[0] as u16 * 256 + bytes[1] as u16)))
        }
    }
}

/// The id a known relative path transfers under, if any.
pub open spec fn spec_file_id(p: Seq<char>) -> Option<u8> {
    if p == "firmware/kernel.gz"@ {
        Some(0x10u8)
    } else if p == "firmware/rootfs.gz"@ {
        Some(0x11u8)
    } else if p == "firmware/components.tar.gz"@ {
        Some(0x12u8)
    } else if p == "firmware/update.spec"@ {
        Some(0x13u8)
    } else if p == "firmware/update_extended.spec"@ {
        Some(0x14u8)
    } else if p == "app0/update.spec"@ {
        Some(0x20u8)
    } else if p == "app0/update.tar.gz"@ {
        Some(0x21u8)
    } else if p == "app1/update.spec"@ {
        Some(0x22u8)
    } else if p == "app1/update.tar.gz"@ {
        Some(0x23u8)
    } else if p == "app2/update.spec"@ {
        Some(0x24u8)
    } else if p == "app2/update.tar.gz"@ {
        Some(0x25u8)
    } else if p == "app3/update.spec"@ {
        Some(0x26u8)
    } else if p == "app3/update.tar.gz"@ {
        Some(0x27u8)
    } else if p == "app4/update.spec"@ {
        Some(0x28u8)
    } else if p == "app4/update.tar.gz"@ {
        Some(0x29u8)
    } else if p == "app5/update.spec"@ {
        Some(0x30u8)
    } else if p == "app5/update.tar.gz"@ {
        Some(0x31u8)
    } else if p == "app6/update.spec"@ {
        Some(0x32u8)
    } else if p == "app6/update.tar.gz"@ {
        Some(0x33u8)
    } else if p == "app7/update.spec"@ {
        Some(0x34u8)
    } else if p == "app7/update.tar.gz"@ {
        Some(0x35u8)
    } else {
        None
    }
}

fn file_id_of(p: &String) -> (r: Option<u8>)
    ensures
        r == spec_file_id(p@),
{
    if p.eq(&String::from_str("firmware/kernel.gz")) {
        Some(0x10)
    } else if p.eq(&String::from_str("firmware/rootfs.gz")) {
        Some(0x11)
    } else if p.eq(&String::from_str("firmware/components.tar.gz")) {
        Some(0x12)
    } else if p.eq(&String::from_str("firmware/update.spec")) {
        Some(0x13)
    } else if p.eq(&String::from_str("firmware/update_extended.spec")) {
        Some(0x14)
    } else if p.eq(&String::from_str("app0/update.spec")) {
        Some(0x20)
    } else if p.eq(&String::from_str("app0/update.tar.gz")) {
        Some(0x21)
    } else if p.eq(&String::from_str("app1/update.spec")) {
        Some(0x22)
    } else if p.eq(&String::from_str("app1/update.tar.gz")) {
        Some(0x23)
    } else if p.eq(&String::from_str("app2/update.spec")) {
        Some(0x24)
    } else if p.eq(&String::from_str("app2/update.tar.gz")) {
        Some(0x25)
    } else if p.eq(&String::from_str("app3/update.spec")) {
        Some(0x26)
    } else if p.eq(&String::from_str("app3/update.tar.gz")) {
        Some(0x27)
    } else if p.eq(&String::from_str("app4/update.spec")) {
        Some(0x28)
    } else if p.eq(&String::from_str("app4/update.tar.gz")) {
        Some(0x29)
    } else if p.eq(&String::from_str("app5/update.spec")) {
        Some(0x30)
    } else if p.eq(&String::from_str("app5/update.tar.gz")) {
        Some(0x31)
    } else if p.eq(&String::from_str("app6/update.spec")) {
        Some(0x32)
    } else if p.eq(&String::from_str("app6/update.tar.gz")) {
        Some(0x33)
    } else if p.eq(&String::from_str("app7/update.spec")) {
        Some(0x34)
    } else if p.eq(&String::from_str("app7/update.tar.gz")) {
        Some(0x35)
    } else {
        None
    }
}

/// The id table applied to a list of present paths: one `(id, path)` entry
/// per recognized path, in the order given; unrecognized paths drop out.
pub open spec fn spec_convert_dir(ps: Seq<Seq<char>>) -> Seq<(u8, Seq<char>)>
    decreases ps.len(),
{
    if ps.len() == 0 {
        seq![]
    } else {
        spec_convert_dir(ps.drop_last()) + (match spec_file_id(ps.last()) {
            Some(id) => seq![(id, ps.last())],
            None => seq![],
        })
    }
}

/// Maps the relative paths present in a payload directory to their wire
/// ids: exactly the recognized paths, in order, each under its table id;
/// a directory with no recognized path maps to nothing.
pub fn convert_dir(present: &Vec<String>) -> (r: Option<Vec<File>>)
    ensures
        ({
            let expect = spec_convert_dir(present@.map(|i: int, p: String| p@));
            match r {
                Some(m) => expect.len() >= 1 && m@.map(|i: int, f: File| (f.file_id, f.path@))
                    == expect,
                None => expect.len() == 0,
            }
        }),
{
    let ghost pv = present@.map(|i: int, p: String| p@);
    let mut out: Vec<File> = Vec::new();
    let mut i: usize = 0;
    proof {
        assert(pv.subrange(0, 0) =~= Seq::<Seq<char>>::empty());
        assert(out@.map(|k: int, f: File| (f.file_id, f.path@)) =~= spec_convert_dir(
            pv.subrange(0, 0),
        ));
    }
    while i < present.len()
        invariant
            i <= present@.len(),
            pv == present@.map(|k: int, p: String| p@),
            out@.map(|k: int, f: File| (f.file_id, f.path@)) == spec_convert_dir(
                pv.subrange(0, i as int),
            ),
        decreases present@.len() - i,
    {
        let ghost out0 = out@;
        match file_id_of(&present[i]) {
            Some(id) => {
                let path = present[i].clone();
                out.push(File { file_id: id, path });
                proof {
                    assert(out@.map(|k: int, f: File| (f.file_id, f.path@)) =~= out0.map(
                        |k: int, f: File| (f.file_id, f.path@),
                    ).push((id, pv[i as int])));
                }
            },
            None => {},
        }
        proof {
            assert(pv.subrange(0, i + 1).drop_last() =~= pv.subrange(0, i as int));
            assert(pv.subrange(0, i + 1).last() == pv[i as int]);
            assert(out@.map(|k: int, f: File| (f.file_id, f.path@)) =~= spec_convert_dir(
                pv.subrange(0, i + 1),
            ));
        }
        i = i + 1;
    }
    proof {
        assert(pv.subrange(0, pv.len() as int) =~= pv);
    }
    if out.len() == 0 {
        proof {
            assert(spec_convert_dir(pv).len() == out@.map(
                |k: int, f: File| (f.file_id, f.path@),
            ).len());
        }
        None
    } else {
        Some(out)
    }
}

/// Reads the file id and offset out of a data request; any missing layer
/// is incomplete data.
pub fn parse_request_for_data(req: &packets::RequestForData) -> (r: ZVTResult<(u8, u32)>)
    ensures
        r == match req.tlv {
            None => Err::<(u8, u32), _>(ZVTError::IncompleteData),
            Some(w) => match w.file {
                None => Err::<(u8, u32), _>(ZVTError::IncompleteData),
                Some(f) => match (f.file_id, f.file_offset) {
                    (Some(id), Some(off)) => Ok::<_, ZVTError>((id, off)),
                    _ => Err::<(u8, u32), _>(ZVTError::IncompleteData),
                },
            },
        },
{
    match &req.tlv {
        None => Err(ZVTError::IncompleteData),
        Some(w) => match &w.file {
            None => Err(ZVTError::IncompleteData),
            Some(f) => match (f.file_id, f.file_offset) {
                (Some(id), Some(off)) => Ok((id, off)),
                _ => Err(ZVTError::IncompleteData),
            },
        },
    }
}

/// The path a requested file id maps to, if the id was announced.
pub fn lookup_file(files: &Vec<File>, id: u8) -> (r: Option<String>)
    ensures
        match r {
            Some(p) => exists|j: int|
                0 <= j < files@.len() && (#[trigger] files@[j]).file_id == id && files@[j].path@
                    == p@,
            None => forall|j: int| 0 <= j < files@.len() ==> (#[trigger] files@[j]).file_id != id,
        },
{
    let mut i: usize = 0;
    while i < files.len()
        invariant
            i <= files@.len(),
            forall|j: int| 0 <= j < i ==> (#[trigger] files@[j]).file_id != id,
        decreases files@.len() - i,
    {
        if files[i].file_id == id {
            let p = files[i].path.clone();
            proof {
                assert(files@[i as int].file_id == id);
            }
            return Some(p);
        }
        i = i + 1;
    }
    None
}

/// The announcement frame of a transfer: every file with its size.
pub fn prepare_write_file(sizes: &Vec<(u8, u32)>, password: usize) -> (r: packets::WriteFile)
    requires
        crate::encoding::bcd_bytes(password as nat).len() <= 3,
    ensures
        r.password == password,
        r.tlv matches Some(w) && (w.files@.len() == sizes@.len() && forall|j: int|
            0 <= j < sizes@.len() ==> (#[trigger] w.files@[j]).file_id == Some(sizes@[j].0)
                && w.files@[j].file_size == Some(sizes@[j].1) && w.files@[j].file_offset is None
                && w.files@[j].payload is None),
{
    let mut files: Vec<tlv::File> = Vec::new();
    let mut i: usize = 0;
    while i < sizes.len()
        invariant
            i <= sizes@.len(),
            files@.len() == i,
            forall|j: int|
                0 <= j < i ==> (#[trigger] files@[j]).file_id == Some(sizes@[j].0)
                    && files@[j].file_size == Some(sizes@[j].1) && files@[j].file_offset is None
                    && files@[j].payload is None,
        decreases sizes@.len() - i,
    {
        files.push(
            tlv::File {
                file_id: Some(sizes[i].0),
                file_offset: None,
                file_size: Some(sizes[i].1),
                payload: None,
            },
        );
        i = i + 1;
    }
    packets::WriteFile { password, tlv: Some(tlv::WriteFile { files }) }
}

/// The answer to a data request: the same id and offset with the payload
/// slice that was read.
pub fn make_write_data(file_id: u8, file_offset: u32, payload: Vec<u8>) -> (r: packets::WriteData)
    ensures
        r.tlv matches Some(w) && (w.file matches Some(f) && f.file_id == Some(file_id)
            && f.file_offset == Some(file_offset) && f.file_size is None && (f.payload
            matches Some(p) && p@ == payload@)),
{
    packets::WriteData {
        tlv: Some(
            tlv::WriteData {
                file: Some(
                    tlv::File {
                        file_id: Some(file_id),
                        file_offset: Some(file_offset),
                        file_size: None,
                        payload: Some(payload),
                    },
                ),
            },
        ),
    }
}

} // verus!
