//! The dispatcher's decisions and the connection state machine's core:
//! which filesystem work a request calls for, and which bytes answer each
//! outcome. The surrounding loop performs the filesystem work and moves
//! the bytes; everything it decides is decided here.

use vstd::prelude::*;
use crate::listing::PathSet;
use crate::paths::SLASH;
use crate::request::{decode_request, decode_result_is, Decoded, ProtocolError, Request};
use crate::wire::{
    encode_error, encode_exists, encode_list, encode_read, error_frame, exists_frame,
    list_frame, read_frame, STATUS_ERR,
};

verus! {

/// What the filesystem answered for a request's operation.
pub enum FsReply {
    /// Whether an entry exists at the path (an absent path is a valid
    /// `false`, not a failure).
    Existence(bool),
    /// The whole contents of the file that was read.
    FileData(Vec<u8>),
    /// Why the file could not be read.
    FileFailure(Vec<u8>),
    /// The relative paths of the regular files beneath the directory.
    DirListing(PathSet),
    /// Why the directory could not be walked.
    DirFailure(Vec<u8>),
}

/// The exact bytes owed on the wire for a filesystem answer.
pub open spec fn response_bytes(reply: &FsReply) -> Seq<u8> {
    match reply {
        FsReply::Existence(present) => exists_frame(*present),
        FsReply::FileData(data) => read_frame(data@),
        FsReply::FileFailure(message) => error_frame(message@),
        FsReply::DirListing(paths) => list_frame(paths@),
        FsReply::DirFailure(message) => error_frame(message@),
    }
}

/// Serializes a filesystem answer into its response frame.
pub fn render_reply(reply: &FsReply) -> (r: Vec<u8>)
    ensures
        r@ == response_bytes(reply),
{
    match reply {
        FsReply::Existence(present) => encode_exists(*present),
        FsReply::FileData(data) => encode_read(data.as_slice()),
        FsReply::FileFailure(message) => encode_error(message.as_slice()),
        FsReply::DirListing(paths) => encode_list(paths.entries()),
        FsReply::DirFailure(message) => encode_error(message.as_slice()),
    }
}

/// The text a listing request reports for its pattern: the resolved path,
/// a slash, then the pattern line. It is diagnostic only; the pattern is
/// never applied as a filter.
pub fn glob_diagnostic(path: &[u8], pattern: &[u8]) -> (r: Vec<u8>)
    ensures
        r@ == path@ + seq![SLASH] + pattern@,
{
    let mut r = vstd::slice::slice_to_vec(path);
    r.push(SLASH);
    crate::wire::append_bytes(&mut r, pattern);
    proof {
        assert(r@ =~= path@ + seq![SLASH] + pattern@);
    }
    r
}

/// What a connection does next, once the bytes received so far have been
/// examined.
pub enum ConnectionStep {
    /// The bytes are a prefix of a request: read more.
    AwaitBytes,
    /// A full request arrived: perform its filesystem work, answer with
    /// `render_reply`, and close.
    Perform(Request),
    /// The stream can never become a request: answer with exactly these
    /// bytes and close.
    Reject(Vec<u8>),
}

/// What `connection_step` must decide: the decoder's verdict, with a
/// rejection already serialized as an error frame.
pub open spec fn step_result_is(input: Seq<u8>, at_end: bool, s: ConnectionStep) -> bool {
    match s {
        ConnectionStep::AwaitBytes => decode_result_is(input, at_end, Decoded::Incomplete),
        ConnectionStep::Perform(req) => decode_result_is(
            input,
            at_end,
            Decoded::Complete(req),
        ),
        ConnectionStep::Reject(frame) => exists|e: ProtocolError|
            decode_result_is(input, at_end, Decoded::Malformed(e))
                && frame@ == error_frame(e.spec_message()),
    }
}

/// Decides a connection's next move from the bytes received so far. A
/// malformed stream is answered, never dropped: the rejection frame always
/// carries the error status and a non-empty message.
pub fn connection_step(input: &[u8], at_end: bool) -> (s: ConnectionStep)
    ensures
        step_result_is(input@, at_end, s),
        match s {
            ConnectionStep::Reject(frame) => frame@.len() > 9 && frame@[0] == STATUS_ERR,
            _ => true,
        },
{
    match decode_request(input, at_end) {
        Decoded::Incomplete => ConnectionStep::AwaitBytes,
        Decoded::Complete(req) => ConnectionStep::Perform(req),
        Decoded::Malformed(e) => {
            let message = e.message();
            let message_len = message.len();
            let frame = encode_error(message.as_slice());
            proof {
                assert(e.spec_message().len() == message_len);
                e.lemma_message_nonempty();
                crate::wire::lemma_error_frame_round_trip(e.spec_message());
                assert(decode_result_is(input@, at_end, Decoded::Malformed(e)));
            }
            ConnectionStep::Reject(frame)
        },
    }
}

} // verus!
