//! The protocol between the application and its index service.

use crate::bytes;
use crate::bytes::{push_all, push_i64, push_le, read_16, read_i64, read_u16, read_u32, read_u64};
use crate::ntfs;
use crate::ntfs::{FileId, MftRecord};
use crate::text;
use crate::text::{is_ascii_letter, to_ascii_upper, utf8_text};
use crate::volume::{MftEnumeration, UsnJournalInfo, UsnReadSummary};
use vstd::prelude::*;
use vstd::slice::slice_subrange;

verus! {

pub const PROTOCOL_VERSION: u16 = 2;

pub const HEADER_SIZE: usize = 12;

pub const MAX_FRAME_BODY: usize = 8_388_608;

pub const MAX_BATCH_RECORDS: usize = 131_072;

/// The bytes of a record besides its name.
pub const RECORD_SIZE: usize = 52;

pub const REQUEST_HELLO: u16 = 1;

pub const REQUEST_ENUMERATE_MFT: u16 = 2;

pub const REQUEST_QUERY_USN: u16 = 3;

pub const REQUEST_READ_USN: u16 = 4;

pub const RESPONSE_HELLO: u16 = 100;

pub const RESPONSE_MFT_BATCH: u16 = 101;

pub const RESPONSE_COMPLETE: u16 = 102;

pub const RESPONSE_ERROR: u16 = 103;

pub const RESPONSE_USN_INFO: u16 = 104;

pub const RESPONSE_USN_BATCH: u16 = 105;

pub const RESPONSE_USN_COMPLETE: u16 = 106;

/// What the application asks for.
#[derive(Debug, Clone, Copy, PartialEq, Eq)]
pub enum Request {
    Hello,
    EnumerateMft { volume: char },
    QueryUsn { volume: char },
    ReadUsn { volume: char, start_usn: i64, journal_id: u64, target_usn: i64 },
}

/// What the service answers.
#[derive(Debug, PartialEq, Eq)]
pub enum Response {
    Hello { protocol: u16 },
    MftBatch(Vec<MftRecord>),
    Complete(MftEnumeration),
    UsnInfo(UsnJournalInfo),
    UsnBatch(Vec<MftRecord>),
    UsnComplete(UsnReadSummary),
    Error { code: u32, message: String },
}

/// What a response says.
#[verifier::ext_equal]
pub enum ResponseModel {
    Hello { protocol: u16 },
    MftBatch(Seq<ntfs::RecordModel>),
    Complete(MftEnumeration),
    UsnInfo(UsnJournalInfo),
    UsnBatch(Seq<ntfs::RecordModel>),
    UsnComplete(UsnReadSummary),
    Error { code: u32, message: Seq<char> },
}

impl View for Response {
    type V = ResponseModel;

    open spec fn view(&self) -> ResponseModel {
        match self {
            Response::Hello { protocol } => ResponseModel::Hello { protocol: *protocol },
            Response::MftBatch(records) => ResponseModel::MftBatch(ntfs::record_models(records@)),
            Response::Complete(summary) => ResponseModel::Complete(*summary),
            Response::UsnInfo(info) => ResponseModel::UsnInfo(*info),
            Response::UsnBatch(records) => ResponseModel::UsnBatch(ntfs::record_models(records@)),
            Response::UsnComplete(summary) => ResponseModel::UsnComplete(*summary),
            Response::Error { code, message } => ResponseModel::Error {
                code: *code,
                message: message@,
            },
        }
    }
}

/// Why a message was refused.
#[derive(Debug, Clone, Copy, PartialEq, Eq)]
pub enum IpcError {
    /// The body is larger than a frame may be.
    FrameTooLarge,
    /// Fewer bytes than announced.
    Truncated,
    BadMagic,
    IncompatibleVersion(u16),
    /// A volume that is no letter, or a range that ends before it starts.
    InvalidRange,
    /// An unknown kind, or a body of the wrong length.
    UnknownMessage,
    TooManyRecords,
    NameTooLong,
    BatchTooLarge,
    MissingCount,
    FieldPastEnd,
    NamePastEnd,
    NotUtf8,
    TrailingData,
    InvalidErrorLength,
}

/// The four bytes that open every frame.
pub open spec fn magic() -> Seq<u8> {
    seq![0x4cu8, 0x43, 0x49, 0x58]
}

/// The header of a frame.
pub open spec fn frame_header(kind: u16, length: nat) -> Seq<u8> {
    magic() + bytes::le_bytes(PROTOCOL_VERSION as nat, 2) + bytes::le_bytes(kind as nat, 2)
        + bytes::le_bytes(length, 4)
}

/// A frame with its body.
pub open spec fn frame(kind: u16, body: Seq<u8>) -> Seq<u8> {
    frame_header(kind, body.len()) + body
}

/// What a header announces: the kind and the length of the body.
pub open spec fn header_contents(h: Seq<u8>) -> Result<(u16, nat), IpcError> {
    if h.len() < HEADER_SIZE {
        Err(IpcError::Truncated)
    } else if h.subrange(0, 4) != magic() {
        Err(IpcError::BadMagic)
    } else if bytes::field(h, 4, 2) != PROTOCOL_VERSION {
        Err(IpcError::IncompatibleVersion(bytes::field(h, 4, 2) as u16))
    } else if bytes::field(h, 8, 4) > MAX_FRAME_BODY {
        Err(IpcError::FrameTooLarge)
    } else {
        Ok((bytes::field(h, 6, 2) as u16, bytes::field(h, 8, 4)))
    }
}

/// The first frame in `b`.
pub open spec fn frame_contents(b: Seq<u8>) -> Result<(u16, Seq<u8>), IpcError> {
    match header_contents(b) {
        Err(e) => Err(e),
        Ok((kind, length)) => if HEADER_SIZE + length > b.len() {
            Err(IpcError::Truncated)
        } else {
            Ok((kind, b.subrange(HEADER_SIZE as int, HEADER_SIZE + length)))
        },
    }
}

/// Reads a header: the kind and the length of the body behind it.
pub fn read_header(h: &[u8]) -> (r: Result<(u16, usize), IpcError>)
    ensures
        match header_contents(h@) {
            Ok((kind, length)) => r is Ok && r->Ok_0.0 == kind && r->Ok_0.1 == length,
            Err(e) => r == Err::<(u16, usize), IpcError>(e),
        },
{
    match (read_u16(h, 4), read_u16(h, 6), read_u32(h, 8)) {
        (Some(version), Some(kind), Some(length)) => {
            let opens: bool = h[0] == 0x4c && h[1] == 0x43 && h[2] == 0x49 && h[3] == 0x58;
            assert(opens == (h@.subrange(0, 4) =~= magic())) by {
                if h@.subrange(0, 4) =~= magic() {
                    assert(h@.subrange(0, 4)[0] == h@[0]);
                    assert(h@.subrange(0, 4)[1] == h@[1]);
                    assert(h@.subrange(0, 4)[2] == h@[2]);
                    assert(h@.subrange(0, 4)[3] == h@[3]);
                }
            }
            if !opens {
                Err(IpcError::BadMagic)
            } else if version != PROTOCOL_VERSION {
                Err(IpcError::IncompatibleVersion(version))
            } else if length as usize > MAX_FRAME_BODY {
                Err(IpcError::FrameTooLarge)
            } else {
                Ok((kind, length as usize))
            }
        },
        _ => Err(IpcError::Truncated),
    }
}

/// The first frame of what was received: its kind and its body.
pub fn read_frame(received: &[u8]) -> (r: Result<(u16, Vec<u8>), IpcError>)
    ensures
        match frame_contents(received@) {
            Ok((kind, body)) => r is Ok && r->Ok_0.0 == kind && r->Ok_0.1@ == body,
            Err(e) => r == Err::<(u16, Vec<u8>), IpcError>(e),
        },
{
    match read_header(received) {
        Err(e) => Err(e),
        Ok((kind, length)) => {
            if length > received.len() - HEADER_SIZE {
                return Err(IpcError::Truncated);
            }
            let mut body: Vec<u8> = Vec::new();
            push_all(&mut body, slice_subrange(received, HEADER_SIZE, HEADER_SIZE + length));
            assert(body@ =~= received@.subrange(HEADER_SIZE as int, HEADER_SIZE + length));
            Ok((kind, body))
        },
    }
}

/// A frame around `body`.
pub fn write_frame(kind: u16, body: &[u8]) -> (r: Result<Vec<u8>, IpcError>)
    ensures
        body@.len() > MAX_FRAME_BODY ==> r == Err::<Vec<u8>, IpcError>(IpcError::FrameTooLarge),
        body@.len() <= MAX_FRAME_BODY ==> r is Ok && r->Ok_0@ == frame(kind, body@),
{
    if body.len() > MAX_FRAME_BODY {
        return Err(IpcError::FrameTooLarge);
    }
    let mut out: Vec<u8> = Vec::new();
    out.push(0x4c);
    out.push(0x43);
    out.push(0x49);
    out.push(0x58);
    assert(out@ =~= magic());
    push_le(&mut out, PROTOCOL_VERSION as u64, 2);
    push_le(&mut out, kind as u64, 2);
    push_le(&mut out, body.len() as u64, 4);
    push_all(&mut out, body);
    Ok(out)
}

/// What is read from a written frame is what was written, whatever follows.
pub proof fn frame_reads_back(kind: u16, body: Seq<u8>, after: Seq<u8>)
    requires
        body.len() <= MAX_FRAME_BODY,
    ensures
        frame_contents(frame(kind, body) + after) == Ok::<(u16, Seq<u8>), IpcError>((kind, body)),
{
    let all = frame(kind, body) + after;
    let v = bytes::le_bytes(PROTOCOL_VERSION as nat, 2);
    let k = bytes::le_bytes(kind as nat, 2);
    let l = bytes::le_bytes(body.len(), 4);
    bytes::pow256_values();
    bytes::written_number_reads_back(PROTOCOL_VERSION as nat, 2);
    bytes::written_number_reads_back(kind as nat, 2);
    bytes::written_number_reads_back(body.len(), 4);
    assert(all.subrange(0, 4) =~= magic());
    assert(all.subrange(4, 6) =~= v);
    assert(all.subrange(6, 8) =~= k);
    assert(all.subrange(8, 12) =~= l);
    assert(all.subrange(12, 12 + body.len() as int) =~= body);
}

/// A frame that lacks bytes at its end is refused.
pub proof fn cut_frame_is_refused(kind: u16, body: Seq<u8>, k: int)
    requires
        body.len() <= MAX_FRAME_BODY,
        0 <= k < frame(kind, body).len(),
    ensures
        frame_contents(frame(kind, body).take(k)) == Err::<(u16, Seq<u8>), IpcError>(
            IpcError::Truncated,
        ),
{
    let all = frame(kind, body);
    let cut = all.take(k);
    frame_reads_back(kind, body, Seq::empty());
    assert(all + Seq::<u8>::empty() =~= all);
    bytes::le_bytes_len(PROTOCOL_VERSION as nat, 2);
    bytes::le_bytes_len(kind as nat, 2);
    bytes::le_bytes_len(body.len(), 4);
    assert(all.len() == HEADER_SIZE + body.len());
    assert(header_contents(all) is Ok);
    if k >= HEADER_SIZE {
        assert(cut.subrange(0, 4) =~= all.subrange(0, 4));
        assert(cut.subrange(4, 6) =~= all.subrange(4, 6));
        assert(cut.subrange(6, 8) =~= all.subrange(6, 8));
        assert(cut.subrange(8, 12) =~= all.subrange(8, 12));
        let announced = header_contents(all)->Ok_0;
        assert(all.subrange(12, 12 + announced.1 as int).len() == body.len());
    }
}

/// A request whose volume and range are in order.
pub open spec fn is_valid_request(request: Request) -> bool {
    match request {
        Request::Hello => true,
        Request::EnumerateMft { volume } => text::ascii_letter(volume),
        Request::QueryUsn { volume } => text::ascii_letter(volume),
        Request::ReadUsn { volume, start_usn, target_usn, .. } => text::ascii_letter(volume)
            && start_usn <= target_usn,
    }
}

/// The request with its drive letter as a capital.
pub open spec fn canonical(request: Request) -> Request {
    match request {
        Request::Hello => request,
        Request::EnumerateMft { volume } => Request::EnumerateMft {
            volume: text::ascii_upper(volume),
        },
        Request::QueryUsn { volume } => Request::QueryUsn { volume: text::ascii_upper(volume) },
        Request::ReadUsn { volume, start_usn, journal_id, target_usn } => Request::ReadUsn {
            volume: text::ascii_upper(volume),
            start_usn,
            journal_id,
            target_usn,
        },
    }
}

pub open spec fn request_kind(request: Request) -> u16 {
    match request {
        Request::Hello => REQUEST_HELLO,
        Request::EnumerateMft { .. } => REQUEST_ENUMERATE_MFT,
        Request::QueryUsn { .. } => REQUEST_QUERY_USN,
        Request::ReadUsn { .. } => REQUEST_READ_USN,
    }
}

pub open spec fn request_body(request: Request) -> Seq<u8> {
    match request {
        Request::Hello => Seq::empty(),
        Request::EnumerateMft { volume } => seq![text::ascii_upper(volume) as u8],
        Request::QueryUsn { volume } => seq![text::ascii_upper(volume) as u8],
        Request::ReadUsn { volume, start_usn, journal_id, target_usn } => seq![
            text::ascii_upper(volume) as u8,
        ] + bytes::le_bytes(bytes::unsigned(start_usn as int), 8) + bytes::le_bytes(
            journal_id as nat,
            8,
        ) + bytes::le_bytes(bytes::unsigned(target_usn as int), 8),
    }
}

/// The request that a message carries.
pub open spec fn request_contents(kind: u16, body: Seq<u8>) -> Result<Request, IpcError> {
    if kind == REQUEST_HELLO && body.len() == 0 {
        Ok(Request::Hello)
    } else if kind == REQUEST_ENUMERATE_MFT && body.len() == 1 && text::ascii_letter(
        body[0] as char,
    ) {
        Ok(Request::EnumerateMft { volume: text::ascii_upper(body[0] as char) })
    } else if kind == REQUEST_QUERY_USN && body.len() == 1 && text::ascii_letter(body[0] as char) {
        Ok(Request::QueryUsn { volume: text::ascii_upper(body[0] as char) })
    } else if kind == REQUEST_READ_USN && body.len() == 25 && text::ascii_letter(body[0] as char) {
        let start_usn = bytes::signed(bytes::field(body, 1, 8));
        let target_usn = bytes::signed(bytes::field(body, 17, 8));
        if start_usn > target_usn {
            Err(IpcError::InvalidRange)
        } else {
            Ok(
                Request::ReadUsn {
                    volume: text::ascii_upper(body[0] as char),
                    start_usn: start_usn as i64,
                    journal_id: bytes::field(body, 9, 8) as u64,
                    target_usn: target_usn as i64,
                },
            )
        }
    } else {
        Err(IpcError::UnknownMessage)
    }
}

pub fn encode_request(request: &Request) -> (r: Result<(u16, Vec<u8>), IpcError>)
    ensures
        !is_valid_request(*request) ==> r == Err::<(u16, Vec<u8>), IpcError>(IpcError::InvalidRange),
        is_valid_request(*request) ==> r is Ok && r->Ok_0.0 == request_kind(*request)
            && r->Ok_0.1@ == request_body(*request),
{
    let mut body: Vec<u8> = Vec::new();
    match request {
        Request::Hello => {
            assert(body@ =~= request_body(*request));
            Ok((REQUEST_HELLO, body))
        },
        Request::EnumerateMft { volume } => {
            if !is_ascii_letter(*volume) {
                return Err(IpcError::InvalidRange);
            }
            body.push(to_ascii_upper(*volume) as u8);
            assert(body@ =~= request_body(*request));
            Ok((REQUEST_ENUMERATE_MFT, body))
        },
        Request::QueryUsn { volume } => {
            if !is_ascii_letter(*volume) {
                return Err(IpcError::InvalidRange);
            }
            body.push(to_ascii_upper(*volume) as u8);
            assert(body@ =~= request_body(*request));
            Ok((REQUEST_QUERY_USN, body))
        },
        Request::ReadUsn { volume, start_usn, journal_id, target_usn } => {
            if !is_ascii_letter(*volume) || *start_usn > *target_usn {
                return Err(IpcError::InvalidRange);
            }
            body.push(to_ascii_upper(*volume) as u8);
            push_i64(&mut body, *start_usn);
            push_le(&mut body, *journal_id, 8);
            push_i64(&mut body, *target_usn);
            assert(body@ =~= request_body(*request));
            Ok((REQUEST_READ_USN, body))
        },
    }
}

pub fn decode_request(kind: u16, body: &[u8]) -> (r: Result<Request, IpcError>)
    ensures
        r == request_contents(kind, body@),
{
    if kind == REQUEST_HELLO && body.len() == 0 {
        return Ok(Request::Hello);
    }
    if body.len() == 1 && is_ascii_letter(body[0] as char) {
        let volume: char = to_ascii_upper(body[0] as char);
        if kind == REQUEST_ENUMERATE_MFT {
            return Ok(Request::EnumerateMft { volume });
        }
        if kind == REQUEST_QUERY_USN {
            return Ok(Request::QueryUsn { volume });
        }
    }
    if kind == REQUEST_READ_USN && body.len() == 25 && is_ascii_letter(body[0] as char) {
        match (read_i64(body, 1), read_u64(body, 9), read_i64(body, 17)) {
            (Some(start_usn), Some(journal_id), Some(target_usn)) => {
                if start_usn > target_usn {
                    return Err(IpcError::InvalidRange);
                }
                return Ok(
                    Request::ReadUsn {
                        volume: to_ascii_upper(body[0] as char),
                        start_usn,
                        journal_id,
                        target_usn,
                    },
                );
            },
            _ => {},
        }
    }
    Err(IpcError::UnknownMessage)
}

/// A valid request arrives as it was sent, with a capital drive letter.
pub proof fn request_reads_back(request: Request)
    requires
        is_valid_request(request),
    ensures
        request_contents(request_kind(request), request_body(request)) == Ok::<Request, IpcError>(
            canonical(request),
        ),
        request_body(request).len() <= MAX_FRAME_BODY,
{
    match request {
        Request::ReadUsn { volume, start_usn, journal_id, target_usn } => {
            let body = request_body(request);
            let v = seq![text::ascii_upper(volume) as u8];
            let s = bytes::le_bytes(bytes::unsigned(start_usn as int), 8);
            let j = bytes::le_bytes(journal_id as nat, 8);
            let t = bytes::le_bytes(bytes::unsigned(target_usn as int), 8);
            bytes::pow256_values();
            bytes::signed_pattern_round_trip(start_usn);
            bytes::signed_pattern_round_trip(target_usn);
            bytes::written_number_reads_back(bytes::unsigned(start_usn as int), 8);
            bytes::written_number_reads_back(journal_id as nat, 8);
            bytes::written_number_reads_back(bytes::unsigned(target_usn as int), 8);
            assert(body.subrange(1, 9) =~= s);
            assert(body.subrange(9, 17) =~= j);
            assert(body.subrange(17, 25) =~= t);
            assert(body[0] == v[0]);
        },
        _ => {},
    }
}

/// The bytes of one record.
pub open spec fn record_bytes(r: ntfs::RecordModel) -> Seq<u8> {
    r.id + r.parent_id + bytes::le_bytes(bytes::unsigned(r.usn), 8) + bytes::le_bytes(
        r.attributes as nat,
        4,
    ) + bytes::le_bytes(r.reason as nat, 4) + bytes::le_bytes(
        vstd::utf8::encode_utf8(r.name).len(),
        4,
    ) + vstd::utf8::encode_utf8(r.name)
}

/// The body of a batch with the records from `i` on behind `body`.
pub open spec fn batch_from(
    records: Seq<ntfs::RecordModel>,
    i: int,
    body: Seq<u8>,
) -> Result<Seq<u8>, IpcError>
    decreases records.len() - i,
{
    if i >= records.len() {
        Ok(body)
    } else if vstd::utf8::encode_utf8(records[i].name).len() > MAX_FRAME_BODY {
        Err(IpcError::NameTooLong)
    } else if (body + record_bytes(records[i])).len() > MAX_FRAME_BODY {
        Err(IpcError::BatchTooLarge)
    } else {
        batch_from(records, i + 1, body + record_bytes(records[i]))
    }
}

/// The body of a batch: the number of records, then the records.
pub open spec fn batch_body(records: Seq<ntfs::RecordModel>) -> Result<Seq<u8>, IpcError> {
    if records.len() > MAX_BATCH_RECORDS {
        Err(IpcError::TooManyRecords)
    } else {
        batch_from(records, 0, bytes::le_bytes(records.len(), 4))
    }
}

/// The next `left` records in `b` from `at` on, behind those already read.
pub open spec fn records_from(
    b: Seq<u8>,
    at: int,
    left: nat,
    read: Seq<ntfs::RecordModel>,
) -> Result<Seq<ntfs::RecordModel>, IpcError>
    decreases left,
{
    if left == 0 {
        if at != b.len() {
            Err(IpcError::TrailingData)
        } else {
            Ok(read)
        }
    } else if at + RECORD_SIZE > b.len() {
        Err(IpcError::FieldPastEnd)
    } else {
        let length = bytes::field(b, at + 48, 4);
        let start = at + RECORD_SIZE;
        if start + length > b.len() {
            Err(IpcError::NamePastEnd)
        } else {
            let name = b.subrange(start, start + length);
            if !vstd::utf8::valid_utf8(name) {
                Err(IpcError::NotUtf8)
            } else {
                records_from(
                    b,
                    start + length,
                    (left - 1) as nat,
                    read.push(
                        ntfs::RecordModel {
                            id: b.subrange(at, at + 16),
                            parent_id: b.subrange(at + 16, at + 32),
                            name: vstd::utf8::decode_utf8(name),
                            attributes: bytes::field(b, at + 40, 4) as u32,
                            reason: bytes::field(b, at + 44, 4) as u32,
                            usn: bytes::signed(bytes::field(b, at + 32, 8)),
                        },
                    ),
                )
            }
        }
    }
}

/// The records in the body of a batch.
pub open spec fn batch_contents(b: Seq<u8>) -> Result<Seq<ntfs::RecordModel>, IpcError> {
    if b.len() < 4 {
        Err(IpcError::MissingCount)
    } else if bytes::field(b, 0, 4) > MAX_BATCH_RECORDS {
        Err(IpcError::TooManyRecords)
    } else {
        records_from(b, 4, bytes::field(b, 0, 4), Seq::empty())
    }
}

pub fn encode_records(records: &Vec<MftRecord>) -> (r: Result<Vec<u8>, IpcError>)
    ensures
        match batch_body(ntfs::record_models(records@)) {
            Ok(body) => r is Ok && r->Ok_0@ == body,
            Err(e) => r == Err::<Vec<u8>, IpcError>(e),
        },
{
    let ghost models = ntfs::record_models(records@);
    if records.len() > MAX_BATCH_RECORDS {
        return Err(IpcError::TooManyRecords);
    }
    let mut body: Vec<u8> = Vec::new();
    push_le(&mut body, records.len() as u64, 4);
    assert(body@ =~= bytes::le_bytes(models.len(), 4));
    let mut i: usize = 0;
    while i < records.len()
        invariant
            i <= records@.len(),
            models == ntfs::record_models(records@),
            models.len() <= MAX_BATCH_RECORDS,
            batch_body(models) == batch_from(models, i as int, body@),
        decreases records@.len() - i,
    {
        let record: &MftRecord = &records[i];
        let name: &[u8] = record.name.as_str().as_bytes();
        if name.len() > MAX_FRAME_BODY {
            return Err(IpcError::NameTooLong);
        }
        let ghost before = body@;
        let id: [u8; 16] = record.id.as_bytes();
        let parent: [u8; 16] = record.parent_id.as_bytes();
        push_all(&mut body, id.as_slice());
        push_all(&mut body, parent.as_slice());
        push_i64(&mut body, record.usn);
        push_le(&mut body, record.attributes as u64, 4);
        push_le(&mut body, record.reason as u64, 4);
        push_le(&mut body, name.len() as u64, 4);
        push_all(&mut body, name);
        assert(body@ =~= before + record_bytes(models[i as int]));
        if body.len() > MAX_FRAME_BODY {
            return Err(IpcError::BatchTooLarge);
        }
        i = i + 1;
    }
    Ok(body)
}

pub fn decode_records(body: &[u8]) -> (r: Result<Vec<MftRecord>, IpcError>)
    ensures
        match batch_contents(body@) {
            Ok(models) => r is Ok && ntfs::record_models(r->Ok_0@) == models,
            Err(e) => r == Err::<Vec<MftRecord>, IpcError>(e),
        },
{
    let count: usize = match read_u32(body, 0) {
        Some(count) => count as usize,
        None => {
            return Err(IpcError::MissingCount);
        },
    };
    if count > MAX_BATCH_RECORDS {
        return Err(IpcError::TooManyRecords);
    }
    let mut at: usize = 4;
    let mut left: usize = count;
    let mut records: Vec<MftRecord> = Vec::new();
    assert(ntfs::record_models(records@) =~= Seq::empty());
    while left > 0
        invariant
            at <= body@.len(),
            records_from(body@, at as int, left as nat, ntfs::record_models(records@))
                == batch_contents(body@),
        decreases left,
    {
        if body.len() - at < RECORD_SIZE {
            return Err(IpcError::FieldPastEnd);
        }
        match (
            read_16(body, at),
            read_16(body, at + 16),
            read_i64(body, at + 32),
            read_u32(body, at + 40),
            read_u32(body, at + 44),
            read_u32(body, at + 48),
        ) {
            (
                Some(id),
                Some(parent),
                Some(usn),
                Some(attributes),
                Some(reason),
                Some(length),
            ) => {
                let start: usize = at + RECORD_SIZE;
                let length: usize = length as usize;
                if length > body.len() - start {
                    return Err(IpcError::NamePastEnd);
                }
                let name: String = match utf8_text(slice_subrange(body, start, start + length)) {
                    Some(name) => name,
                    None => {
                        return Err(IpcError::NotUtf8);
                    },
                };
                let ghost before = records@;
                records.push(
                    MftRecord {
                        id: FileId::from_bytes(id),
                        parent_id: FileId::from_bytes(parent),
                        name,
                        attributes,
                        reason,
                        usn,
                    },
                );
                assert(ntfs::record_models(records@) =~= ntfs::record_models(before).push(
                    records@.last()@,
                ));
                at = start + length;
                left = left - 1;
            },
            _ => {
                return Err(IpcError::FieldPastEnd);
            },
        }
    }
    if at != body.len() {
        return Err(IpcError::TrailingData);
    }
    Ok(records)
}

/// References of the length that a record has.
pub open spec fn well_sized(records: Seq<ntfs::RecordModel>) -> bool {
    forall|i: int|
        0 <= i < records.len() ==> (#[trigger] records[i]).id.len() == 16
            && records[i].parent_id.len() == 16 && i64::MIN <= records[i].usn <= i64::MAX
}

/// Reading one written record takes exactly its bytes.
proof fn record_reads_back(
    before: Seq<u8>,
    r: ntfs::RecordModel,
    after: Seq<u8>,
    left: nat,
    read: Seq<ntfs::RecordModel>,
)
    requires
        r.id.len() == 16,
        r.parent_id.len() == 16,
        i64::MIN <= r.usn <= i64::MAX,
        vstd::utf8::encode_utf8(r.name).len() <= MAX_FRAME_BODY,
        left > 0,
    ensures
        records_from(before + record_bytes(r) + after, before.len() as int, left, read)
            == records_from(
            before + record_bytes(r) + after,
            (before + record_bytes(r)).len() as int,
            (left - 1) as nat,
            read.push(r),
        ),
{
    let name = vstd::utf8::encode_utf8(r.name);
    let b = before + record_bytes(r) + after;
    let at = before.len() as int;
    let u = bytes::le_bytes(bytes::unsigned(r.usn), 8);
    let a = bytes::le_bytes(r.attributes as nat, 4);
    let e = bytes::le_bytes(r.reason as nat, 4);
    let l = bytes::le_bytes(name.len(), 4);
    bytes::pow256_values();
    bytes::signed_pattern_round_trip(r.usn as i64);
    bytes::written_number_reads_back(bytes::unsigned(r.usn), 8);
    bytes::written_number_reads_back(r.attributes as nat, 4);
    bytes::written_number_reads_back(r.reason as nat, 4);
    bytes::written_number_reads_back(name.len(), 4);
    assert(b.subrange(at, at + 16) =~= r.id);
    assert(b.subrange(at + 16, at + 32) =~= r.parent_id);
    assert(b.subrange(at + 32, at + 40) =~= u);
    assert(b.subrange(at + 40, at + 44) =~= a);
    assert(b.subrange(at + 44, at + 48) =~= e);
    assert(b.subrange(at + 48, at + 52) =~= l);
    assert(b.subrange(at + 52, at + 52 + name.len() as int) =~= name);
    vstd::utf8::encode_utf8_valid_utf8(r.name);
    vstd::utf8::encode_utf8_decode_utf8(r.name);
}

/// Reading a written batch, with `after` behind it.
proof fn batch_reads_back_from(
    records: Seq<ntfs::RecordModel>,
    i: int,
    before: Seq<u8>,
    after: Seq<u8>,
)
    requires
        0 <= i <= records.len(),
        well_sized(records),
        batch_from(records, i, before) is Ok,
    ensures
        records_from(
            batch_from(records, i, before)->Ok_0 + after,
            before.len() as int,
            (records.len() - i) as nat,
            records.take(i),
        ) == if after.len() == 0 {
            Ok::<Seq<ntfs::RecordModel>, IpcError>(records)
        } else {
            Err(IpcError::TrailingData)
        },
        before.len() <= batch_from(records, i, before)->Ok_0.len(),
        batch_from(records, i, before)->Ok_0.take(before.len() as int) == before,
    decreases records.len() - i,
{
    if i >= records.len() {
        assert(records.take(i) =~= records);
        assert(before.take(before.len() as int) =~= before);
    } else {
        let r = records[i];
        let next = before + record_bytes(r);
        let all = batch_from(records, i, before)->Ok_0;
        batch_reads_back_from(records, i + 1, next, after);
        assert(all.take(next.len() as int) == next);
        assert(all =~= next + all.skip(next.len() as int));
        let rest = all.skip(next.len() as int) + after;
        assert(all + after =~= before + record_bytes(r) + rest);
        record_reads_back(
            before,
            r,
            rest,
            (records.len() - i) as nat,
            records.take(i),
        );
        assert(records.take(i).push(r) =~= records.take(i + 1));
        assert(all.take(before.len() as int) =~= next.take(before.len() as int));
        assert(next.take(before.len() as int) =~= before);
    }
}

/// A batch that could be written is read back record by record, and any
/// byte behind it is refused.
pub proof fn batch_reads_back(records: Seq<ntfs::RecordModel>, after: Seq<u8>)
    requires
        well_sized(records),
        batch_body(records) is Ok,
    ensures
        batch_contents(batch_body(records)->Ok_0 + after) == if after.len() == 0 {
            Ok::<Seq<ntfs::RecordModel>, IpcError>(records)
        } else {
            Err(IpcError::TrailingData)
        },
{
    let count = bytes::le_bytes(records.len(), 4);
    bytes::pow256_values();
    bytes::written_number_reads_back(records.len(), 4);
    batch_reads_back_from(records, 0, count, after);
    let all = batch_body(records)->Ok_0;
    assert((all + after).subrange(0, 4) =~= all.take(4));
    assert(records.take(0) =~= Seq::empty());
}

/// Bytes behind records that could be read are refused.
proof fn records_end_where_they_are_read(
    b: Seq<u8>,
    after: Seq<u8>,
    at: int,
    left: nat,
    read: Seq<ntfs::RecordModel>,
)
    requires
        0 <= at,
        after.len() > 0,
        records_from(b, at, left, read) is Ok,
    ensures
        records_from(b + after, at, left, read) == Err::<Seq<ntfs::RecordModel>, IpcError>(
            IpcError::TrailingData,
        ),
    decreases left,
{
    let c = b + after;
    if left > 0 {
        assert(c.subrange(at + 48, at + 52) =~= b.subrange(at + 48, at + 52));
        assert(c.subrange(at + 44, at + 48) =~= b.subrange(at + 44, at + 48));
        assert(c.subrange(at + 40, at + 44) =~= b.subrange(at + 40, at + 44));
        assert(c.subrange(at + 32, at + 40) =~= b.subrange(at + 32, at + 40));
        assert(c.subrange(at + 16, at + 32) =~= b.subrange(at + 16, at + 32));
        assert(c.subrange(at, at + 16) =~= b.subrange(at, at + 16));
        let length = bytes::field(b, at + 48, 4);
        let start = at + RECORD_SIZE;
        let name = b.subrange(start, start + length);
        assert(c.subrange(start, start + length) =~= name);
        records_end_where_they_are_read(
            b,
            after,
            start + length,
            (left - 1) as nat,
            read.push(
                ntfs::RecordModel {
                    id: b.subrange(at, at + 16),
                    parent_id: b.subrange(at + 16, at + 32),
                    name: vstd::utf8::decode_utf8(name),
                    attributes: bytes::field(b, at + 40, 4) as u32,
                    reason: bytes::field(b, at + 44, 4) as u32,
                    usn: bytes::signed(bytes::field(b, at + 32, 8)),
                },
            ),
        );
    }
}

/// A body that is read as a batch is refused with bytes behind it.
pub proof fn longer_batch_is_refused(b: Seq<u8>, after: Seq<u8>)
    requires
        batch_contents(b) is Ok,
        after.len() > 0,
    ensures
        batch_contents(b + after) == Err::<Seq<ntfs::RecordModel>, IpcError>(
            IpcError::TrailingData,
        ),
{
    assert((b + after).subrange(0, 4) =~= b.subrange(0, 4));
    records_end_where_they_are_read(b, after, 4, bytes::field(b, 0, 4), Seq::empty());
}

/// A batch that could be written is refused when it lacks bytes at its end.
pub proof fn cut_batch_is_refused(records: Seq<ntfs::RecordModel>, k: int)
    requires
        well_sized(records),
        batch_body(records) is Ok,
        0 <= k < batch_body(records)->Ok_0.len(),
    ensures
        batch_contents(batch_body(records)->Ok_0.take(k)) is Err,
{
    let body = batch_body(records)->Ok_0;
    batch_reads_back(records, Seq::empty());
    assert(body + Seq::<u8>::empty() =~= body);
    if batch_contents(body.take(k)) is Ok {
        longer_batch_is_refused(body.take(k), body.skip(k));
        assert(body.take(k) + body.skip(k) =~= body);
    }
}

pub open spec fn response_kind(response: ResponseModel) -> u16 {
    match response {
        ResponseModel::Hello { .. } => RESPONSE_HELLO,
        ResponseModel::MftBatch(_) => RESPONSE_MFT_BATCH,
        ResponseModel::Complete(_) => RESPONSE_COMPLETE,
        ResponseModel::UsnInfo(_) => RESPONSE_USN_INFO,
        ResponseModel::UsnBatch(_) => RESPONSE_USN_BATCH,
        ResponseModel::UsnComplete(_) => RESPONSE_USN_COMPLETE,
        ResponseModel::Error { .. } => RESPONSE_ERROR,
    }
}

pub open spec fn response_body(response: ResponseModel) -> Result<Seq<u8>, IpcError> {
    match response {
        ResponseModel::Hello { protocol } => Ok(bytes::le_bytes(protocol as nat, 2)),
        ResponseModel::MftBatch(records) => batch_body(records),
        ResponseModel::Complete(s) => Ok(
            bytes::le_bytes(s.batches as nat, 8) + bytes::le_bytes(s.records as nat, 8)
                + bytes::le_bytes(s.last_reference as nat, 8),
        ),
        ResponseModel::UsnInfo(info) => Ok(
            bytes::le_bytes(info.journal_id as nat, 8) + bytes::le_bytes(
                bytes::unsigned(info.first_usn as int),
                8,
            ) + bytes::le_bytes(bytes::unsigned(info.next_usn as int), 8) + bytes::le_bytes(
                bytes::unsigned(info.lowest_valid_usn as int),
                8,
            ),
        ),
        ResponseModel::UsnBatch(records) => batch_body(records),
        ResponseModel::UsnComplete(s) => Ok(
            bytes::le_bytes(s.batches as nat, 8) + bytes::le_bytes(s.records as nat, 8)
                + bytes::le_bytes(bytes::unsigned(s.next_usn as int), 8),
        ),
        ResponseModel::Error { code, message } => Ok(
            bytes::le_bytes(code as nat, 4) + bytes::le_bytes(
                vstd::utf8::encode_utf8(message).len(),
                4,
            ) + vstd::utf8::encode_utf8(message),
        ),
    }
}

/// The response that a message carries.
pub open spec fn response_contents(kind: u16, b: Seq<u8>) -> Result<ResponseModel, IpcError> {
    if kind == RESPONSE_HELLO && b.len() == 2 {
        Ok(ResponseModel::Hello { protocol: bytes::field(b, 0, 2) as u16 })
    } else if kind == RESPONSE_MFT_BATCH {
        match batch_contents(b) {
            Ok(records) => Ok(ResponseModel::MftBatch(records)),
            Err(e) => Err(e),
        }
    } else if kind == RESPONSE_COMPLETE && b.len() == 24 {
        Ok(
            ResponseModel::Complete(
                MftEnumeration {
                    batches: bytes::field(b, 0, 8) as u64,
                    records: bytes::field(b, 8, 8) as u64,
                    last_reference: bytes::field(b, 16, 8) as u64,
                },
            ),
        )
    } else if kind == RESPONSE_USN_INFO && b.len() == 32 {
        Ok(
            ResponseModel::UsnInfo(
                UsnJournalInfo {
                    journal_id: bytes::field(b, 0, 8) as u64,
                    first_usn: bytes::signed(bytes::field(b, 8, 8)) as i64,
                    next_usn: bytes::signed(bytes::field(b, 16, 8)) as i64,
                    lowest_valid_usn: bytes::signed(bytes::field(b, 24, 8)) as i64,
                },
            ),
        )
    } else if kind == RESPONSE_USN_BATCH {
        match batch_contents(b) {
            Ok(records) => Ok(ResponseModel::UsnBatch(records)),
            Err(e) => Err(e),
        }
    } else if kind == RESPONSE_USN_COMPLETE && b.len() == 24 {
        Ok(
            ResponseModel::UsnComplete(
                UsnReadSummary {
                    batches: bytes::field(b, 0, 8) as u64,
                    records: bytes::field(b, 8, 8) as u64,
                    next_usn: bytes::signed(bytes::field(b, 16, 8)) as i64,
                },
            ),
        )
    } else if kind == RESPONSE_ERROR && b.len() >= 8 {
        let length = bytes::field(b, 4, 4);
        if length > MAX_FRAME_BODY || b.len() != 8 + length {
            Err(IpcError::InvalidErrorLength)
        } else if !vstd::utf8::valid_utf8(b.skip(8)) {
            Err(IpcError::NotUtf8)
        } else {
            Ok(
                ResponseModel::Error {
                    code: bytes::field(b, 0, 4) as u32,
                    message: vstd::utf8::decode_utf8(b.skip(8)),
                },
            )
        }
    } else {
        Err(IpcError::UnknownMessage)
    }
}

pub fn encode_response(response: &Response) -> (r: Result<(u16, Vec<u8>), IpcError>)
    ensures
        match response_body(response@) {
            Ok(body) => r is Ok && r->Ok_0.0 == response_kind(response@) && r->Ok_0.1@ == body,
            Err(e) => r == Err::<(u16, Vec<u8>), IpcError>(e),
        },
{
    let mut body: Vec<u8> = Vec::new();
    match response {
        Response::Hello { protocol } => {
            push_le(&mut body, *protocol as u64, 2);
            assert(body@ =~= bytes::le_bytes(*protocol as nat, 2));
            Ok((RESPONSE_HELLO, body))
        },
        Response::MftBatch(records) => match encode_records(records) {
            Ok(body) => Ok((RESPONSE_MFT_BATCH, body)),
            Err(e) => Err(e),
        },
        Response::Complete(summary) => {
            push_le(&mut body, summary.batches, 8);
            push_le(&mut body, summary.records, 8);
            push_le(&mut body, summary.last_reference, 8);
            assert(body@ =~= response_body(response@)->Ok_0);
            Ok((RESPONSE_COMPLETE, body))
        },
        Response::UsnInfo(info) => {
            push_le(&mut body, info.journal_id, 8);
            push_i64(&mut body, info.first_usn);
            push_i64(&mut body, info.next_usn);
            push_i64(&mut body, info.lowest_valid_usn);
            assert(body@ =~= response_body(response@)->Ok_0);
            Ok((RESPONSE_USN_INFO, body))
        },
        Response::UsnBatch(records) => match encode_records(records) {
            Ok(body) => Ok((RESPONSE_USN_BATCH, body)),
            Err(e) => Err(e),
        },
        Response::UsnComplete(summary) => {
            push_le(&mut body, summary.batches, 8);
            push_le(&mut body, summary.records, 8);
            push_i64(&mut body, summary.next_usn);
            assert(body@ =~= response_body(response@)->Ok_0);
            Ok((RESPONSE_USN_COMPLETE, body))
        },
        Response::Error { code, message } => {
            let text: &[u8] = message.as_str().as_bytes();
            push_le(&mut body, *code as u64, 4);
            push_le(&mut body, text.len() as u64, 4);
            push_all(&mut body, text);
            assert(body@ =~= response_body(response@)->Ok_0);
            Ok((RESPONSE_ERROR, body))
        },
    }
}

pub fn decode_response(kind: u16, body: &[u8]) -> (r: Result<Response, IpcError>)
    ensures
        match response_contents(kind, body@) {
            Ok(model) => r is Ok && r->Ok_0@ == model,
            Err(e) => r == Err::<Response, IpcError>(e),
        },
{
    if kind == RESPONSE_HELLO && body.len() == 2 {
        return match read_u16(body, 0) {
            Some(protocol) => Ok(Response::Hello { protocol }),
            None => Err(IpcError::UnknownMessage),
        };
    }
    if kind == RESPONSE_MFT_BATCH {
        return match decode_records(body) {
            Ok(records) => Ok(Response::MftBatch(records)),
            Err(e) => Err(e),
        };
    }
    if kind == RESPONSE_USN_BATCH {
        return match decode_records(body) {
            Ok(records) => Ok(Response::UsnBatch(records)),
            Err(e) => Err(e),
        };
    }
    if kind == RESPONSE_COMPLETE && body.len() == 24 {
        return match (read_u64(body, 0), read_u64(body, 8), read_u64(body, 16)) {
            (Some(batches), Some(records), Some(last_reference)) => Ok(
                Response::Complete(MftEnumeration { batches, records, last_reference }),
            ),
            _ => Err(IpcError::UnknownMessage),
        };
    }
    if kind == RESPONSE_USN_INFO && body.len() == 32 {
        return match (
            read_u64(body, 0),
            read_i64(body, 8),
            read_i64(body, 16),
            read_i64(body, 24),
        ) {
            (Some(journal_id), Some(first_usn), Some(next_usn), Some(lowest_valid_usn)) => Ok(
                Response::UsnInfo(
                    UsnJournalInfo { journal_id, first_usn, next_usn, lowest_valid_usn },
                ),
            ),
            _ => Err(IpcError::UnknownMessage),
        };
    }
    if kind == RESPONSE_USN_COMPLETE && body.len() == 24 {
        return match (read_u64(body, 0), read_u64(body, 8), read_i64(body, 16)) {
            (Some(batches), Some(records), Some(next_usn)) => Ok(
                Response::UsnComplete(UsnReadSummary { batches, records, next_usn }),
            ),
            _ => Err(IpcError::UnknownMessage),
        };
    }
    if kind == RESPONSE_ERROR && body.len() >= 8 {
        return match (read_u32(body, 0), read_u32(body, 4)) {
            (Some(code), Some(length)) => {
                if length as usize > MAX_FRAME_BODY || body.len() != 8 + length as usize {
                    return Err(IpcError::InvalidErrorLength);
                }
                let text: &[u8] = slice_subrange(body, 8, body.len());
                assert(text@ =~= body@.skip(8));
                match utf8_text(text) {
                    Some(message) => Ok(Response::Error { code, message }),
                    None => Err(IpcError::NotUtf8),
                }
            },
            _ => Err(IpcError::UnknownMessage),
        };
    }
    Err(IpcError::UnknownMessage)
}

/// A response whose body fits a frame arrives as it was sent.
pub proof fn response_reads_back(response: Response)
    requires
        response_body(response@) is Ok,
        response_body(response@)->Ok_0.len() <= MAX_FRAME_BODY,
    ensures
        response_contents(response_kind(response@), response_body(response@)->Ok_0) == Ok::<
            ResponseModel,
            IpcError,
        >(response@),
{
    let body = response_body(response@)->Ok_0;
    bytes::pow256_values();
    match response {
        Response::Hello { protocol } => {
            bytes::written_number_reads_back(protocol as nat, 2);
            assert(body.subrange(0, 2) =~= body);
        },
        Response::MftBatch(records) => {
            records_are_well_sized(records@);
            batch_reads_back(ntfs::record_models(records@), Seq::empty());
            assert(body + Seq::empty() =~= body);
        },
        Response::UsnBatch(records) => {
            records_are_well_sized(records@);
            batch_reads_back(ntfs::record_models(records@), Seq::empty());
            assert(body + Seq::empty() =~= body);
        },
        Response::Complete(s) => {
            bytes::written_number_reads_back(s.batches as nat, 8);
            bytes::written_number_reads_back(s.records as nat, 8);
            bytes::written_number_reads_back(s.last_reference as nat, 8);
            assert(body.subrange(0, 8) =~= bytes::le_bytes(s.batches as nat, 8));
            assert(body.subrange(8, 16) =~= bytes::le_bytes(s.records as nat, 8));
            assert(body.subrange(16, 24) =~= bytes::le_bytes(s.last_reference as nat, 8));
        },
        Response::UsnInfo(info) => {
            let f = bytes::unsigned(info.first_usn as int);
            let n = bytes::unsigned(info.next_usn as int);
            let l = bytes::unsigned(info.lowest_valid_usn as int);
            bytes::signed_pattern_round_trip(info.first_usn);
            bytes::signed_pattern_round_trip(info.next_usn);
            bytes::signed_pattern_round_trip(info.lowest_valid_usn);
            bytes::written_number_reads_back(info.journal_id as nat, 8);
            bytes::written_number_reads_back(f, 8);
            bytes::written_number_reads_back(n, 8);
            bytes::written_number_reads_back(l, 8);
            assert(body.subrange(0, 8) =~= bytes::le_bytes(info.journal_id as nat, 8));
            assert(body.subrange(8, 16) =~= bytes::le_bytes(f, 8));
            assert(body.subrange(16, 24) =~= bytes::le_bytes(n, 8));
            assert(body.subrange(24, 32) =~= bytes::le_bytes(l, 8));
        },
        Response::UsnComplete(s) => {
            let n = bytes::unsigned(s.next_usn as int);
            bytes::signed_pattern_round_trip(s.next_usn);
            bytes::written_number_reads_back(s.batches as nat, 8);
            bytes::written_number_reads_back(s.records as nat, 8);
            bytes::written_number_reads_back(n, 8);
            assert(body.subrange(0, 8) =~= bytes::le_bytes(s.batches as nat, 8));
            assert(body.subrange(8, 16) =~= bytes::le_bytes(s.records as nat, 8));
            assert(body.subrange(16, 24) =~= bytes::le_bytes(n, 8));
        },
        Response::Error { code, message } => {
            let text = vstd::utf8::encode_utf8(message@);
            bytes::le_bytes_len(text.len(), 4);
            bytes::written_number_reads_back(code as nat, 4);
            bytes::written_number_reads_back(text.len(), 4);
            assert(body.subrange(0, 4) =~= bytes::le_bytes(code as nat, 4));
            assert(body.subrange(4, 8) =~= bytes::le_bytes(text.len(), 4));
            assert(body.skip(8) =~= text);
            vstd::utf8::encode_utf8_valid_utf8(message@);
            vstd::utf8::encode_utf8_decode_utf8(message@);
        },
    }
}

/// A body that is read as a response is refused with bytes behind it.
pub proof fn longer_response_is_refused(kind: u16, b: Seq<u8>, after: Seq<u8>)
    requires
        response_contents(kind, b) is Ok,
        after.len() > 0,
    ensures
        response_contents(kind, b + after) is Err,
{
    if kind == RESPONSE_MFT_BATCH || kind == RESPONSE_USN_BATCH {
        longer_batch_is_refused(b, after);
    } else if kind == RESPONSE_ERROR {
        assert((b + after).subrange(4, 8) =~= b.subrange(4, 8));
    }
}

/// A response whose body fits a frame is refused when its body lacks bytes at
/// its end, and when bytes stand behind it.
pub proof fn cut_or_longer_response_is_refused(response: Response, k: int, after: Seq<u8>)
    requires
        response_body(response@) is Ok,
        response_body(response@)->Ok_0.len() <= MAX_FRAME_BODY,
        0 <= k < response_body(response@)->Ok_0.len(),
        after.len() > 0,
    ensures
        response_contents(
            response_kind(response@),
            response_body(response@)->Ok_0.take(k),
        ) is Err,
        response_contents(response_kind(response@), response_body(response@)->Ok_0 + after) is Err,
{
    let kind = response_kind(response@);
    let body = response_body(response@)->Ok_0;
    response_reads_back(response);
    longer_response_is_refused(kind, body, after);
    if response_contents(kind, body.take(k)) is Ok {
        longer_response_is_refused(kind, body.take(k), body.skip(k));
        assert(body.take(k) + body.skip(k) =~= body);
    }
}

proof fn records_are_well_sized(records: Seq<MftRecord>)
    ensures
        well_sized(ntfs::record_models(records)),
{
    assert forall|i: int| 0 <= i < records.len() implies (#[trigger] ntfs::record_models(
        records,
    )[i]).id.len() == 16 && ntfs::record_models(records)[i].parent_id.len() == 16 by {
        FileId::same_bytes(records[i].id, records[i].id);
        FileId::same_bytes(records[i].parent_id, records[i].parent_id);
    }
}

/// The frame of a request.
pub fn write_request(request: &Request) -> (r: Result<Vec<u8>, IpcError>)
    ensures
        !is_valid_request(*request) ==> r == Err::<Vec<u8>, IpcError>(IpcError::InvalidRange),
        is_valid_request(*request) ==> r is Ok && r->Ok_0@ == frame(
            request_kind(*request),
            request_body(*request),
        ),
{
    match encode_request(request) {
        Ok((kind, body)) => {
            proof {
                request_reads_back(*request);
            }
            write_frame(kind, &body)
        },
        Err(e) => Err(e),
    }
}

/// The request in the first frame of what was received.
pub fn read_request(received: &[u8]) -> (r: Result<Request, IpcError>)
    ensures
        r == match frame_contents(received@) {
            Ok((kind, body)) => request_contents(kind, body),
            Err(e) => Err(e),
        },
{
    match read_frame(received) {
        Ok((kind, body)) => decode_request(kind, &body),
        Err(e) => Err(e),
    }
}

/// The frame of a response.
pub fn write_response(response: &Response) -> (r: Result<Vec<u8>, IpcError>)
    ensures
        match response_body(response@) {
            Err(e) => r == Err::<Vec<u8>, IpcError>(e),
            Ok(body) => if body.len() > MAX_FRAME_BODY {
                r == Err::<Vec<u8>, IpcError>(IpcError::FrameTooLarge)
            } else {
                r is Ok && r->Ok_0@ == frame(response_kind(response@), body)
            },
        },
{
    match encode_response(response) {
        Ok((kind, body)) => write_frame(kind, &body),
        Err(e) => Err(e),
    }
}

/// The response in the first frame of what was received.
pub fn read_response(received: &[u8]) -> (r: Result<Response, IpcError>)
    ensures
        match frame_contents(received@) {
            Ok((kind, body)) => match response_contents(kind, body) {
                Ok(model) => r is Ok && r->Ok_0@ == model,
                Err(e) => r == Err::<Response, IpcError>(e),
            },
            Err(e) => r == Err::<Response, IpcError>(e),
        },
{
    match read_frame(received) {
        Ok((kind, body)) => decode_response(kind, &body),
        Err(e) => Err(e),
    }
}

/// System codes of a pipe whose other end is gone.
pub open spec fn disconnect_code(code: i32) -> bool {
    code == 109 || code == 232 || code == 233
}

/// Why a request could not be read.
#[derive(Debug, Clone, Copy, PartialEq, Eq)]
pub enum ReadFailure {
    /// The system refused, with its code where it has one.
    System(Option<i32>),
    Protocol(IpcError),
}

/// What the service does next.
#[derive(Debug, PartialEq, Eq)]
pub enum ServiceAction {
    /// The client is gone.
    Finish,
    /// The client cannot be served any further.
    Fail(ReadFailure),
    Reply(Response),
    EnumerateMft { volume: char },
    QueryUsn { volume: char },
    ReadUsn { volume: char, start_usn: i64, journal_id: u64, target_usn: i64 },
}

/// What the service does about the next request of a client.
pub fn serve_client(read: Result<Request, ReadFailure>) -> (action: ServiceAction)
    ensures
        match read {
            Err(ReadFailure::System(Some(code))) if disconnect_code(code) => action
                == ServiceAction::Finish,
            Err(failure) => action == ServiceAction::Fail(failure),
            Ok(Request::Hello) => action == ServiceAction::Reply(
                Response::Hello { protocol: PROTOCOL_VERSION },
            ),
            Ok(Request::EnumerateMft { volume }) => action == (ServiceAction::EnumerateMft {
                volume,
            }),
            Ok(Request::QueryUsn { volume }) => action == (ServiceAction::QueryUsn { volume }),
            Ok(Request::ReadUsn { volume, start_usn, journal_id, target_usn }) => action
                == (ServiceAction::ReadUsn { volume, start_usn, journal_id, target_usn }),
        },
{
    match read {
        Err(ReadFailure::System(Some(code))) => {
            if code == 109 || code == 232 || code == 233 {
                ServiceAction::Finish
            } else {
                ServiceAction::Fail(ReadFailure::System(Some(code)))
            }
        },
        Err(failure) => ServiceAction::Fail(failure),
        Ok(Request::Hello) => ServiceAction::Reply(Response::Hello { protocol: PROTOCOL_VERSION }),
        Ok(Request::EnumerateMft { volume }) => ServiceAction::EnumerateMft { volume },
        Ok(Request::QueryUsn { volume }) => ServiceAction::QueryUsn { volume },
        Ok(Request::ReadUsn { volume, start_usn, journal_id, target_usn }) => {
            ServiceAction::ReadUsn { volume, start_usn, journal_id, target_usn }
        },
    }
}

/// The bit pattern of a system code.
pub open spec fn code_pattern(code: i32) -> int {
    if code >= 0 {
        code as int
    } else {
        code + 0x1_0000_0000
    }
}

/// The answer to a request that the service could not fulfil: the system's
/// code, or 1 where it has none.
pub fn write_service_error(os_code: Option<i32>, message: String) -> (response: Response)
    ensures
        response matches Response::Error { code, message: m } && m == message && code
            == code_pattern(
            match os_code {
                Some(c) => c,
                None => 1,
            },
        ),
{
    let code: i32 = match os_code {
        Some(code) => code,
        None => 1,
    };
    let pattern: u32 = if code >= 0 {
        code as u32
    } else {
        (code as i64 + 0x1_0000_0000) as u32
    };
    Response::Error { code: pattern, message }
}

/// Why a conversation with the service failed.
#[derive(Debug, PartialEq, Eq)]
pub enum ClientError {
    /// The service answered with an error of its own.
    Service { code: u32, message: String },
    /// The service answered out of turn.
    Unexpected(Response),
}

/// The next step of a conversation that delivers batches.
#[derive(Debug, PartialEq, Eq)]
pub enum ClientStep<T> {
    Batch(Vec<MftRecord>),
    Done(T),
}

/// The error that an unexpected response stands for.
pub open spec fn refusal(response: Response) -> ClientError {
    match response {
        Response::Error { code, message } => ClientError::Service { code, message },
        other => ClientError::Unexpected(other),
    }
}

fn refuse(response: Response) -> (e: ClientError)
    ensures
        e == refusal(response),
{
    match response {
        Response::Error { code, message } => ClientError::Service { code, message },
        other => ClientError::Unexpected(other),
    }
}

/// The answer to a greeting: the service must speak the same protocol.
pub fn accept_handshake(response: Response) -> (r: Result<(), ClientError>)
    ensures
        r == if response == (Response::Hello { protocol: PROTOCOL_VERSION }) {
            Ok::<(), ClientError>(())
        } else {
            Err(refusal(response))
        },
{
    match response {
        Response::Hello { protocol } => {
            if protocol == PROTOCOL_VERSION {
                Ok(())
            } else {
                Err(ClientError::Unexpected(Response::Hello { protocol }))
            }
        },
        other => Err(refuse(other)),
    }
}

/// An answer while a volume is enumerated.
pub fn enumerate_mft_via_service(response: Response) -> (r: Result<
    ClientStep<MftEnumeration>,
    ClientError,
>)
    ensures
        r == match response {
            Response::MftBatch(records) => Ok(ClientStep::Batch(records)),
            Response::Complete(summary) => Ok(ClientStep::Done(summary)),
            other => Err(refusal(other)),
        },
{
    match response {
        Response::MftBatch(records) => Ok(ClientStep::Batch(records)),
        Response::Complete(summary) => Ok(ClientStep::Done(summary)),
        other => Err(refuse(other)),
    }
}

/// The answer to a question about a journal.
pub fn query_usn_via_service(response: Response) -> (r: Result<UsnJournalInfo, ClientError>)
    ensures
        r == match response {
            Response::UsnInfo(info) => Ok(info),
            other => Err(refusal(other)),
        },
{
    match response {
        Response::UsnInfo(info) => Ok(info),
        other => Err(refuse(other)),
    }
}

/// An answer while a journal is read.
pub fn read_usn_via_service(response: Response) -> (r: Result<
    ClientStep<UsnReadSummary>,
    ClientError,
>)
    ensures
        r == match response {
            Response::UsnBatch(records) => Ok(ClientStep::Batch(records)),
            Response::UsnComplete(summary) => Ok(ClientStep::Done(summary)),
            other => Err(refusal(other)),
        },
{
    match response {
        Response::UsnBatch(records) => Ok(ClientStep::Batch(records)),
        Response::UsnComplete(summary) => Ok(ClientStep::Done(summary)),
        other => Err(refuse(other)),
    }
}

/// How a frame is laid out: the letters LCIX, version 2, the kind, the length
/// of the body and the body, each number with its low byte first.
pub proof fn frame_is_laid_out(kind: u16, body: Seq<u8>)
    ensures
        frame(kind, body) == seq![0x4cu8, 0x43, 0x49, 0x58, 2, 0] + bytes::le_bytes(kind as nat, 2)
            + bytes::le_bytes(body.len(), 4) + body,
{
    reveal_with_fuel(bytes::le_bytes, 3);
    let head = seq![0x4cu8, 0x43, 0x49, 0x58, 2, 0];
    assert(magic() + bytes::le_bytes(2, 2) =~= head);
    assert(frame(kind, body) =~= head + bytes::le_bytes(kind as nat, 2) + bytes::le_bytes(
        body.len(),
        4,
    ) + body);
}

/// What does not begin as a frame of this version, or announces more than
/// eight mebibytes, is refused, each for its own reason.
pub proof fn other_frames_are_refused(b: Seq<u8>)
    requires
        b.len() >= 12,
    ensures
        b.take(4) != seq![0x4cu8, 0x43, 0x49, 0x58] ==> frame_contents(b) == Err::<
            (u16, Seq<u8>),
            IpcError,
        >(IpcError::BadMagic),
        b.take(4) == seq![0x4cu8, 0x43, 0x49, 0x58] && (b[4] != 2 || b[5] != 0) ==> frame_contents(b)
            == Err::<(u16, Seq<u8>), IpcError>(
            IpcError::IncompatibleVersion((b[4] + 256 * b[5]) as u16),
        ),
        b.take(4) == seq![0x4cu8, 0x43, 0x49, 0x58] && b[4] == 2 && b[5] == 0 && b[8] + 0x100 * b[9]
            + 0x1_0000 * b[10] + 0x100_0000 * b[11] > 8_388_608 ==> frame_contents(b) == Err::<
            (u16, Seq<u8>),
            IpcError,
        >(IpcError::FrameTooLarge),
{
    assert(b.subrange(0, 4) =~= b.take(4));
    reveal_with_fuel(bytes::le_value, 5);
    assert(bytes::field(b, 4, 2) == b[4] + 256 * b[5]);
    assert(bytes::field(b, 8, 4) == b[8] + 0x100 * b[9] + 0x1_0000 * b[10] + 0x100_0000 * b[11]);
}

/// How requests are laid out: a greeting is empty, a volume is its capital
/// letter, and a part of a journal is told by the volume, where it starts, the
/// journal and where it ends.
pub proof fn request_is_laid_out(volume: char, start: i64, journal: u64, target: i64)
    requires
        'a' <= volume <= 'z' || 'A' <= volume <= 'Z',
    ensures
        ({
            let letter = if 'a' <= volume <= 'z' {
                (volume as int - 32) as u8
            } else {
                volume as u8
            };
            let part = Request::ReadUsn {
                volume,
                start_usn: start,
                journal_id: journal,
                target_usn: target,
            };
            &&& request_kind(Request::Hello) == 1 && request_body(Request::Hello) == Seq::<
                u8,
            >::empty()
            &&& request_kind(Request::EnumerateMft { volume }) == 2 && request_body(
                Request::EnumerateMft { volume },
            ) == seq![letter]
            &&& request_kind(Request::QueryUsn { volume }) == 3 && request_body(
                Request::QueryUsn { volume },
            ) == seq![letter]
            &&& request_kind(part) == 4 && request_body(part) == seq![letter] + bytes::le_bytes(
                bytes::unsigned(start as int),
                8,
            ) + bytes::le_bytes(journal as nat, 8) + bytes::le_bytes(
                bytes::unsigned(target as int),
                8,
            )
        }),
{
}

/// Every greeting is valid, every request for a volume with a letter, and for
/// a part of its journal that does not end before it starts; no other is.
pub proof fn requests_name_volumes_and_ranges(volume: char, start: i64, journal: u64, target: i64)
    ensures
        is_valid_request(Request::Hello),
        is_valid_request(Request::EnumerateMft { volume }) <==> 'a' <= volume <= 'z' || 'A' <= volume
            <= 'Z',
        is_valid_request(Request::QueryUsn { volume }) <==> 'a' <= volume <= 'z' || 'A' <= volume
            <= 'Z',
        is_valid_request(
            (Request::ReadUsn { volume, start_usn: start, journal_id: journal, target_usn: target }),
        ) <==> ('a' <= volume <= 'z' || 'A' <= volume <= 'Z') && start <= target,
        canonical(
            (Request::ReadUsn { volume, start_usn: start, journal_id: journal, target_usn: target }),
        ) == (Request::ReadUsn {
            volume: text::ascii_upper(volume),
            start_usn: start,
            journal_id: journal,
            target_usn: target,
        }),
        canonical(Request::EnumerateMft { volume }) == (Request::EnumerateMft {
            volume: text::ascii_upper(volume),
        }),
        canonical(Request::QueryUsn { volume }) == (Request::QueryUsn {
            volume: text::ascii_upper(volume),
        }),
        canonical(Request::Hello) == Request::Hello,
{
}

/// The bytes of records one behind the other: reference, reference of the
/// directory, update sequence number, attributes, reason, length of the name
/// and the name.
pub open spec fn laid_out(records: Seq<ntfs::RecordModel>) -> Seq<u8>
    decreases records.len(),
{
    if records.len() == 0 {
        Seq::empty()
    } else {
        let r = records.last();
        let name = vstd::utf8::encode_utf8(r.name);
        laid_out(records.drop_last()) + r.id + r.parent_id + bytes::le_bytes(
            bytes::unsigned(r.usn),
            8,
        ) + bytes::le_bytes(r.attributes as nat, 4) + bytes::le_bytes(r.reason as nat, 4)
            + bytes::le_bytes(name.len(), 4) + name
    }
}

/// Every batch of up to 131072 records that takes no more than eight mebibytes
/// is written, as the number of records and the records behind it.
pub proof fn batch_is_laid_out(records: Seq<ntfs::RecordModel>)
    requires
        records.len() <= 131_072,
        4 + laid_out(records).len() <= 8_388_608,
    ensures
        batch_body(records) == Ok::<Seq<u8>, IpcError>(
            bytes::le_bytes(records.len(), 4) + laid_out(records),
        ),
{
    bytes::le_bytes_len(records.len(), 4);
    batch_grows(records, 0);
    assert(records.take(0) =~= Seq::empty());
    let head = bytes::le_bytes(records.len(), 4);
    assert(head + laid_out(records.take(0)) =~= head);
}

proof fn batch_grows(records: Seq<ntfs::RecordModel>, i: int)
    requires
        0 <= i <= records.len(),
        4 + laid_out(records).len() <= 8_388_608,
    ensures
        batch_from(
            records,
            i,
            bytes::le_bytes(records.len(), 4) + laid_out(records.take(i)),
        ) == Ok::<Seq<u8>, IpcError>(bytes::le_bytes(records.len(), 4) + laid_out(records)),
    decreases records.len() - i,
{
    let head = bytes::le_bytes(records.len(), 4);
    bytes::le_bytes_len(records.len(), 4);
    let body = head + laid_out(records.take(i));
    if i == records.len() {
        assert(records.take(i) =~= records);
    } else {
        let r = records[i];
        assert(records.take(i + 1).drop_last() =~= records.take(i));
        assert(records.take(i + 1).last() == r);
        assert(body + record_bytes(r) =~= head + laid_out(records.take(i + 1)));
        part_is_no_longer(records, i + 1);
        batch_grows(records, i + 1);
    }
}

proof fn part_is_no_longer(records: Seq<ntfs::RecordModel>, i: int)
    requires
        0 <= i <= records.len(),
    ensures
        laid_out(records.take(i)).len() <= laid_out(records).len(),
    decreases records.len(),
{
    if i == records.len() {
        assert(records.take(i) =~= records);
    } else {
        part_is_no_longer(records.drop_last(), i);
        assert(records.drop_last().take(i) =~= records.take(i));
    }
}

/// How responses are laid out: each kind has a number of its own, and its
/// numbers stand one behind the other, low bytes first.
pub proof fn response_is_laid_out(
    protocol: u16,
    done: MftEnumeration,
    info: UsnJournalInfo,
    summary: UsnReadSummary,
    code: u32,
    message: Seq<char>,
    records: Seq<ntfs::RecordModel>,
)
    ensures
        response_kind(ResponseModel::Hello { protocol }) == 100,
        response_kind(ResponseModel::MftBatch(records)) == 101,
        response_kind(ResponseModel::Complete(done)) == 102,
        response_kind(ResponseModel::Error { code, message }) == 103,
        response_kind(ResponseModel::UsnInfo(info)) == 104,
        response_kind(ResponseModel::UsnBatch(records)) == 105,
        response_kind(ResponseModel::UsnComplete(summary)) == 106,
        response_body(ResponseModel::Hello { protocol }) == Ok::<Seq<u8>, IpcError>(
            bytes::le_bytes(protocol as nat, 2),
        ),
        response_body(ResponseModel::MftBatch(records)) == batch_body(records),
        response_body(ResponseModel::UsnBatch(records)) == batch_body(records),
        response_body(ResponseModel::Complete(done)) == Ok::<Seq<u8>, IpcError>(
            bytes::le_bytes(done.batches as nat, 8) + bytes::le_bytes(done.records as nat, 8)
                + bytes::le_bytes(done.last_reference as nat, 8),
        ),
        response_body(ResponseModel::UsnInfo(info)) == Ok::<Seq<u8>, IpcError>(
            bytes::le_bytes(info.journal_id as nat, 8) + bytes::le_bytes(
                bytes::unsigned(info.first_usn as int),
                8,
            ) + bytes::le_bytes(bytes::unsigned(info.next_usn as int), 8) + bytes::le_bytes(
                bytes::unsigned(info.lowest_valid_usn as int),
                8,
            ),
        ),
        response_body(ResponseModel::UsnComplete(summary)) == Ok::<Seq<u8>, IpcError>(
            bytes::le_bytes(summary.batches as nat, 8) + bytes::le_bytes(summary.records as nat, 8)
                + bytes::le_bytes(bytes::unsigned(summary.next_usn as int), 8),
        ),
        response_body(ResponseModel::Error { code, message }) == Ok::<Seq<u8>, IpcError>(
            bytes::le_bytes(code as nat, 4) + bytes::le_bytes(
                vstd::utf8::encode_utf8(message).len(),
                4,
            ) + vstd::utf8::encode_utf8(message),
        ),
{
}

/// What the service could not do is told with its own code and message, and
/// any other answer out of turn as it came. The code of the system keeps its
/// bits; a closed pipe is told by three of its codes.
pub proof fn refusal_tells_the_answer(code: u32, message: String, other: Response, system: i32)
    ensures
        refusal(Response::Error { code, message }) == (ClientError::Service { code, message }),
        !(other is Error) ==> refusal(other) == ClientError::Unexpected(other),
        0 <= code_pattern(system) <= u32::MAX,
        code_pattern(system) == system || code_pattern(system) == system + 0x1_0000_0000,
        disconnect_code(system) <==> system == 109 || system == 232 || system == 233,
{
}

} // verus!
