//! The protocol between the application and its indexing service.

use logcrate::ipc::{
    accept_handshake, decode_records, decode_request, decode_response, encode_records,
    encode_request, encode_response, enumerate_mft_via_service, query_usn_via_service, read_frame, read_request,
    read_response, read_usn_via_service, serve_client, write_frame, write_request, write_response,
    write_service_error, ClientError, ClientStep, IpcError, ReadFailure, Request, Response,
    ServiceAction, MAX_FRAME_BODY, PROTOCOL_VERSION, REQUEST_HELLO, RESPONSE_ERROR,
};
use logcrate::ntfs::{FileId, MftRecord};
use logcrate::volume::{MftEnumeration, UsnJournalInfo, UsnReadSummary};

fn record() -> MftRecord {
    MftRecord {
        id: FileId::from_u64(10),
        parent_id: FileId::from_u64(5),
        name: "调试-debug.log".into(),
        attributes: 32,
        reason: 0,
        usn: 99,
    }
}

#[test]
fn protocol_round_trips_requests_and_bounded_batches() {
    let requests = [
        Request::Hello,
        Request::EnumerateMft { volume: 'd' },
        Request::QueryUsn { volume: 'D' },
        Request::ReadUsn { volume: 'D', start_usn: 10, journal_id: 20, target_usn: 30 },
    ];
    for request in requests {
        let bytes = write_request(&request).unwrap();
        let decoded = read_request(&bytes).unwrap();
        let expected = match request {
            Request::EnumerateMft { .. } => Request::EnumerateMft { volume: 'D' },
            other => other,
        };
        assert_eq!(decoded, expected);
    }

    let responses = [
        Response::Hello { protocol: PROTOCOL_VERSION },
        Response::MftBatch(vec![record()]),
        Response::Complete(MftEnumeration { batches: 2, records: 3, last_reference: 4 }),
        Response::UsnInfo(UsnJournalInfo {
            journal_id: 5,
            first_usn: 6,
            next_usn: 7,
            lowest_valid_usn: 4,
        }),
        Response::UsnBatch(vec![record()]),
        Response::UsnComplete(UsnReadSummary { batches: 8, records: 9, next_usn: 10 }),
        Response::Error { code: 5, message: "拒绝访问".into() },
    ];
    for response in responses {
        let bytes = write_response(&response).unwrap();
        assert_eq!(read_response(&bytes).unwrap(), response);
    }
}

#[test]
fn protocol_rejects_oversized_unknown_and_trailing_data() {
    let mut oversized = write_frame(REQUEST_HELLO, &[]).unwrap();
    oversized[8..12].copy_from_slice(&((MAX_FRAME_BODY + 1) as u32).to_le_bytes());
    assert!(read_request(&oversized).is_err());

    let unknown = write_frame(999, &[]).unwrap();
    assert!(read_request(&unknown).is_err());

    let mut records = encode_records(&vec![record()]).unwrap();
    records.push(0);
    assert!(decode_records(&records).is_err());
}

#[test]
fn every_refusal_of_a_message_has_its_cause() {
    let frame = write_frame(REQUEST_HELLO, &[]).unwrap();
    assert_eq!(read_frame(&frame[..5]), Err(IpcError::Truncated));
    let mut magic = frame.clone();
    magic[0] = 0;
    assert_eq!(read_frame(&magic), Err(IpcError::BadMagic));
    let mut version = frame.clone();
    version[4] = 9;
    assert_eq!(read_frame(&version), Err(IpcError::IncompatibleVersion(9)));
    let mut large = frame.clone();
    large[8..12].copy_from_slice(&((MAX_FRAME_BODY + 1) as u32).to_le_bytes());
    assert_eq!(read_frame(&large), Err(IpcError::FrameTooLarge));
    let mut cut = frame.clone();
    cut[8] = 4;
    assert_eq!(read_frame(&cut), Err(IpcError::Truncated));
    assert_eq!(read_request(&write_frame(999, &[]).unwrap()), Err(IpcError::UnknownMessage));
    assert_eq!(decode_request(2, &[49]), Err(IpcError::UnknownMessage));
    assert_eq!(decode_records(&[1, 2]), Err(IpcError::MissingCount));
    assert_eq!(decode_records(&[1, 0, 0, 0]), Err(IpcError::FieldPastEnd));
    assert_eq!(decode_records(&[255, 255, 255, 255]), Err(IpcError::TooManyRecords));
    let mut trailing = encode_records(&vec![record()]).unwrap();
    trailing.push(0);
    assert_eq!(decode_records(&trailing), Err(IpcError::TrailingData));
    let mut short = encode_records(&vec![record()]).unwrap();
    short.pop();
    assert_eq!(decode_records(&short), Err(IpcError::NamePastEnd));
    let mut garbled = encode_records(&vec![record()]).unwrap();
    let last = garbled.len() - 1;
    garbled[last] = 0xff;
    assert_eq!(decode_records(&garbled), Err(IpcError::NotUtf8));
    assert_eq!(
        decode_response(RESPONSE_ERROR, &[5, 0, 0, 0, 9, 0, 0, 0, 65]),
        Err(IpcError::InvalidErrorLength)
    );
    assert_eq!(
        encode_request(&Request::ReadUsn {
            volume: 'C',
            start_usn: 30,
            journal_id: 1,
            target_usn: 10
        }),
        Err(IpcError::InvalidRange)
    );
}

#[test]
fn frames_start_with_the_protocol_version() {
    let frame = write_frame(7, &[1, 2, 3]).unwrap();
    assert_eq!(frame.len(), 15);
    assert_eq!(frame[4..6], PROTOCOL_VERSION.to_le_bytes());
    assert_eq!(frame[6..8], 7_u16.to_le_bytes());
    assert_eq!(frame[8..12], 3_u32.to_le_bytes());
    assert_eq!(read_frame(&frame), Ok((7, vec![1, 2, 3])));
}

#[test]
fn the_service_answers_each_request() {
    assert_eq!(
        serve_client(Ok(Request::Hello)),
        ServiceAction::Reply(Response::Hello { protocol: PROTOCOL_VERSION })
    );
    assert_eq!(
        serve_client(Ok(Request::EnumerateMft { volume: 'C' })),
        ServiceAction::EnumerateMft { volume: 'C' }
    );
    assert_eq!(
        serve_client(Ok(Request::QueryUsn { volume: 'C' })),
        ServiceAction::QueryUsn { volume: 'C' }
    );
    for code in [109, 232, 233] {
        assert_eq!(serve_client(Err(ReadFailure::System(Some(code)))), ServiceAction::Finish);
    }
    assert_eq!(
        serve_client(Err(ReadFailure::System(Some(5)))),
        ServiceAction::Fail(ReadFailure::System(Some(5)))
    );
    assert_eq!(
        serve_client(Err(ReadFailure::Protocol(IpcError::BadMagic))),
        ServiceAction::Fail(ReadFailure::Protocol(IpcError::BadMagic))
    );
    assert_eq!(
        write_service_error(Some(5), "denied".into()),
        Response::Error { code: 5, message: "denied".into() }
    );
    assert_eq!(
        write_service_error(None, "odd".into()),
        Response::Error { code: 1, message: "odd".into() }
    );
}

#[test]
fn the_client_takes_only_fitting_answers() {
    assert_eq!(accept_handshake(Response::Hello { protocol: PROTOCOL_VERSION }), Ok(()));
    assert_eq!(
        accept_handshake(Response::Hello { protocol: 1 }),
        Err(ClientError::Unexpected(Response::Hello { protocol: 1 }))
    );
    assert_eq!(
        enumerate_mft_via_service(Response::MftBatch(vec![record()])),
        Ok(ClientStep::Batch(vec![record()]))
    );
    let done = MftEnumeration { batches: 2, records: 3, last_reference: 4 };
    assert_eq!(enumerate_mft_via_service(Response::Complete(done)), Ok(ClientStep::Done(done)));
    assert_eq!(
        enumerate_mft_via_service(Response::Error { code: 5, message: "denied".into() }),
        Err(ClientError::Service { code: 5, message: "denied".into() })
    );
    let info = UsnJournalInfo { journal_id: 5, first_usn: 6, next_usn: 7, lowest_valid_usn: 4 };
    assert_eq!(query_usn_via_service(Response::UsnInfo(info)), Ok(info));
    assert!(query_usn_via_service(Response::Complete(done)).is_err());
    let read = UsnReadSummary { batches: 8, records: 9, next_usn: 10 };
    assert_eq!(read_usn_via_service(Response::UsnComplete(read)), Ok(ClientStep::Done(read)));
    assert!(read_usn_via_service(Response::MftBatch(vec![])).is_err());
}

#[test]
fn cut_and_longer_messages_are_refused() {
    let responses = [
        Response::Hello { protocol: PROTOCOL_VERSION },
        Response::MftBatch(vec![record(), record()]),
        Response::Complete(MftEnumeration { batches: 2, records: 3, last_reference: 4 }),
        Response::UsnInfo(UsnJournalInfo {
            journal_id: 5,
            first_usn: 6,
            next_usn: 7,
            lowest_valid_usn: 4,
        }),
        Response::UsnBatch(vec![]),
        Response::UsnComplete(UsnReadSummary { batches: 8, records: 9, next_usn: 10 }),
        Response::Error { code: 5, message: "拒绝访问".into() },
    ];
    for response in responses {
        let (kind, body) = encode_response(&response).unwrap();
        for end in 0..body.len() {
            assert!(decode_response(kind, &body[..end]).is_err());
        }
        let mut longer = body.clone();
        longer.push(0);
        assert!(decode_response(kind, &longer).is_err());
        let frame = write_response(&response).unwrap();
        for end in 0..frame.len() {
            assert_eq!(read_response(&frame[..end]), Err(IpcError::Truncated));
        }
    }
    let batch = encode_records(&vec![record(), record()]).unwrap();
    for end in 0..batch.len() {
        assert!(decode_records(&batch[..end]).is_err());
    }
    let mut longer = batch.clone();
    longer.push(0);
    assert_eq!(decode_records(&longer), Err(IpcError::TrailingData));
}
