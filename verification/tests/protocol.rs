//! End-to-end checks of the protocol core: framing, decoding, resolution,
//! listing, and the dispatcher's decisions, on concrete byte streams.

use astra_server::dispatch::{connection_step, render_reply, ConnectionStep, FsReply};
use astra_server::listing::PathSet;
use astra_server::request::{decode_request, Decoded, Operation, ProtocolError};
use astra_server::wire::{decode_error_frame, encode_error};

fn complete(input: &[u8]) -> astra_server::request::Request {
    match decode_request(input, true) {
        Decoded::Complete(req) => req,
        _ => panic!("expected a complete request"),
    }
}

#[test]
fn read_scenario_42_bytes() {
    let mut input: Vec<u8> = vec![0x01];
    input.extend_from_slice(b"data/unit.bin\n");
    let req = complete(&input);
    assert_eq!(req.operation, Operation::Read);
    assert_eq!(req.path, b"rom:/Data/data/unit.bin".to_vec());
    assert!(req.pattern.is_none());

    let data: Vec<u8> = (0..42u8).collect();
    let response = render_reply(&FsReply::FileData(data.clone()));
    let mut expected: Vec<u8> = vec![0x00, 0, 0, 0, 0, 0, 0, 0, 42];
    expected.extend_from_slice(&data);
    assert_eq!(response, expected);
}

#[test]
fn exists_scenario_absent_file() {
    let mut input: Vec<u8> = vec![0x00];
    input.extend_from_slice(b"missing.txt\n");
    let req = complete(&input);
    assert_eq!(req.operation, Operation::Exists);
    assert_eq!(req.path, b"rom:/Data/missing.txt".to_vec());

    let response = render_reply(&FsReply::Existence(false));
    assert_eq!(response, vec![0x00, 0x00]);
}

#[test]
fn exists_scenario_present_file() {
    let response = render_reply(&FsReply::Existence(true));
    assert_eq!(response, vec![0x00, 0x01]);
}

#[test]
fn list_scenario_one_file_glob_ignored() {
    let mut input: Vec<u8> = vec![0x02];
    input.extend_from_slice(b"units\n");
    input.extend_from_slice(b"*.bin\n");
    let req = complete(&input);
    assert_eq!(req.operation, Operation::List);
    assert_eq!(req.path, b"rom:/Data/units".to_vec());
    assert_eq!(req.pattern, Some(b"*.bin".to_vec()));

    let mut paths = PathSet::new();
    let relative = astra_server::listing::strip_two_segments(b"rom:/Data/units/a.bin");
    assert_eq!(relative, b"units/a.bin".to_vec());
    paths.insert(relative);

    let response = render_reply(&FsReply::DirListing(paths));
    let mut expected: Vec<u8> = vec![0x00, 0, 0, 0, 0, 0, 0, 0, 1];
    expected.extend_from_slice(b"units/a.bin\n");
    assert_eq!(response, expected);
}

#[test]
fn error_frame_round_trip() {
    let frame = encode_error(b"no such file");
    assert_eq!(frame[0], 0x01);
    let back = decode_error_frame(&frame).expect("a well-formed error frame decodes");
    assert_eq!(back, b"no such file".to_vec());
}

#[test]
fn error_frame_rejects_wrong_length_field() {
    let mut frame = encode_error(b"truncated");
    frame.pop();
    assert!(decode_error_frame(&frame).is_none());
    let ok = render_reply(&FsReply::Existence(true));
    assert!(decode_error_frame(&ok).is_none());
}

#[test]
fn unknown_operation_is_rejected_with_a_message() {
    let input: Vec<u8> = vec![0x07];
    match decode_request(&input, false) {
        Decoded::Malformed(ProtocolError::UnknownOperation(7)) => {}
        _ => panic!("an unknown operation byte must be rejected at once"),
    }
    match connection_step(&input, false) {
        ConnectionStep::Reject(frame) => {
            assert_eq!(frame[0], 0x01);
            let message = decode_error_frame(&frame).expect("rejection is a whole error frame");
            assert_eq!(message, b"unknown operation 7".to_vec());
        }
        _ => panic!("a malformed stream is answered"),
    }
}

#[test]
fn unknown_operation_message_digits() {
    let frame = match connection_step(&[0xff], true) {
        ConnectionStep::Reject(frame) => frame,
        _ => panic!("a malformed stream is answered"),
    };
    let message = decode_error_frame(&frame).unwrap();
    assert_eq!(message, b"unknown operation 255".to_vec());
}

#[test]
fn closed_before_operation_byte() {
    match connection_step(&[], true) {
        ConnectionStep::Reject(frame) => {
            let message = decode_error_frame(&frame).unwrap();
            assert!(!message.is_empty());
            assert_eq!(message, b"connection closed before the operation byte".to_vec());
        }
        _ => panic!("a closed empty stream is malformed"),
    }
}

#[test]
fn closed_before_path_line() {
    let mut input: Vec<u8> = vec![0x01];
    input.extend_from_slice(b"no-terminator");
    match decode_request(&input, true) {
        Decoded::Malformed(ProtocolError::MissingPath) => {}
        _ => panic!("a path line without its newline is malformed at the end"),
    }
}

#[test]
fn closed_before_pattern_line() {
    let mut input: Vec<u8> = vec![0x02];
    input.extend_from_slice(b"units\n");
    match decode_request(&input, true) {
        Decoded::Malformed(ProtocolError::MissingPattern) => {}
        _ => panic!("a listing without its pattern line is malformed at the end"),
    }
}

#[test]
fn open_stream_waits_instead_of_failing() {
    assert!(matches!(decode_request(&[], false), Decoded::Incomplete));
    assert!(matches!(decode_request(&[0x00], false), Decoded::Incomplete));
    let mut partial: Vec<u8> = vec![0x02];
    partial.extend_from_slice(b"units\n*.bi");
    assert!(matches!(decode_request(&partial, false), Decoded::Incomplete));
    assert!(matches!(connection_step(&partial, false), ConnectionStep::AwaitBytes));
}

#[test]
fn perform_step_carries_the_request() {
    let mut input: Vec<u8> = vec![0x00];
    input.extend_from_slice(b"a.txt\n");
    match connection_step(&input, false) {
        ConnectionStep::Perform(req) => {
            assert_eq!(req.operation, Operation::Exists);
            assert_eq!(req.path, b"rom:/Data/a.txt".to_vec());
        }
        _ => panic!("a full request is performed"),
    }
}
