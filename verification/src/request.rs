//! Request decoding: one byte selects the operation, a newline-terminated
//! line carries the path, and a listing carries one more line with a match
//! pattern. Decoding works on the bytes received so far, so a caller can
//! tell a request that is still arriving from one that is malformed.

use vstd::prelude::*;
use vstd::string::StrSliceExecFns;
use vstd::string::StringSliceAdditionalSpecFns;
use crate::paths::{first_pos, find_byte, resolved_path, resolve_path};
use crate::wire::NEWLINE;

verus! {

broadcast use vstd::string::group_string_axioms;

/// The three operations a request can select.
#[derive(Clone, Copy, PartialEq, Eq, Structural, Debug)]
pub enum Operation {
    /// Ask whether an entry exists at the path.
    Exists,
    /// Read the whole file at the path.
    Read,
    /// List the regular files beneath the path.
    List,
}

/// The operation a code byte selects, if any: 0, 1 and 2 are taken, every
/// other byte is rejected.
pub open spec fn spec_operation_of(code: u8) -> Option<Operation> {
    if code == 0 {
        Some(Operation::Exists)
    } else if code == 1 {
        Some(Operation::Read)
    } else if code == 2 {
        Some(Operation::List)
    } else {
        None
    }
}

/// Maps a code byte to its operation.
pub fn operation_of(code: u8) -> (r: Option<Operation>)
    ensures
        r == spec_operation_of(code),
{
    if code == 0 {
        Some(Operation::Exists)
    } else if code == 1 {
        Some(Operation::Read)
    } else if code == 2 {
        Some(Operation::List)
    } else {
        None
    }
}

/// Why a byte stream failed to decode into a request.
#[derive(Clone, Copy, PartialEq, Eq, Structural, Debug)]
pub enum ProtocolError {
    /// The stream closed before the operation byte arrived.
    MissingOperation,
    /// The stream closed before the path line was terminated.
    MissingPath,
    /// The stream closed before the pattern line was terminated.
    MissingPattern,
    /// The operation byte selects no operation.
    UnknownOperation(u8),
}

/// The decimal digits of `n`, without leading zeros.
pub open spec fn decimal_digits(n: u8) -> Seq<u8> {
    if n >= 100 {
        seq![(48 + n / 100) as u8, (48 + (n / 10) % 10) as u8, (48 + n % 10) as u8]
    } else if n >= 10 {
        seq![(48 + n / 10) as u8, (48 + n % 10) as u8]
    } else {
        seq![(48 + n) as u8]
    }
}

impl ProtocolError {
    /// The human-readable report sent back for this failure.
    pub open spec fn spec_message(self) -> Seq<u8> {
        match self {
            ProtocolError::MissingOperation => "connection closed before the operation byte".spec_bytes(),
            ProtocolError::MissingPath => "connection closed before the path line".spec_bytes(),
            ProtocolError::MissingPattern => "connection closed before the pattern line".spec_bytes(),
            ProtocolError::UnknownOperation(code) => "unknown operation ".spec_bytes()
                + decimal_digits(code),
        }
    }

    /// Renders the report.
    pub fn message(&self) -> (r: Vec<u8>)
        ensures
            r@ == self.spec_message(),
    {
        match self {
            ProtocolError::MissingOperation => "connection closed before the operation byte".as_bytes_vec(),
            ProtocolError::MissingPath => "connection closed before the path line".as_bytes_vec(),
            ProtocolError::MissingPattern => "connection closed before the pattern line".as_bytes_vec(),
            ProtocolError::UnknownOperation(code) => {
                let code = *code;
                let mut r = "unknown operation ".as_bytes_vec();
                if code >= 100 {
                    r.push(48 + code / 100);
                    r.push(48 + (code / 10) % 10);
                    r.push(48 + code % 10);
                } else if code >= 10 {
                    r.push(48 + code / 10);
                    r.push(48 + code % 10);
                } else {
                    r.push(48 + code);
                }
                proof {
                    assert(r@ =~= self.spec_message());
                }
                r
            },
        }
    }

    /// A failure report is never empty.
    pub proof fn lemma_message_nonempty(self)
        ensures
            self.spec_message().len() > 0,
    {
        reveal_strlit("connection closed before the operation byte");
        reveal_strlit("connection closed before the path line");
        reveal_strlit("connection closed before the pattern line");
        reveal_strlit("unknown operation ");
        match self {
            ProtocolError::MissingOperation => {
                let s: &str = "connection closed before the operation byte";
                assert(vstd::string::is_ascii(s));
            },
            ProtocolError::MissingPath => {
                let s: &str = "connection closed before the path line";
                assert(vstd::string::is_ascii(s));
            },
            ProtocolError::MissingPattern => {
                let s: &str = "connection closed before the pattern line";
                assert(vstd::string::is_ascii(s));
            },
            ProtocolError::UnknownOperation(_) => {
                let s: &str = "unknown operation ";
                assert(vstd::string::is_ascii(s));
            },
        }
    }
}

/// A decoded request: the operation, the path already resolved beneath the
/// root, and for a listing the match pattern line (carried along but not
/// applied to filtering).
pub struct Request {
    pub operation: Operation,
    pub path: Vec<u8>,
    pub pattern: Option<Vec<u8>>,
}

/// What decoding the bytes received so far yields.
pub enum Decoded {
    /// A full request was framed.
    Complete(Request),
    /// The bytes so far are a prefix of a request; more must be read.
    Incomplete,
    /// The bytes can never grow into a request.
    Malformed(ProtocolError),
}

/// Holds when `r` is a completed request with exactly these parts.
pub open spec fn is_complete(r: Decoded, op: Operation, path: Seq<u8>, pattern: Option<Seq<u8>>) -> bool {
    match r {
        Decoded::Complete(req) => {
            &&& req.operation == op
            &&& req.path@ == path
            &&& match (req.pattern, pattern) {
                (Option::None, Option::None) => true,
                (Option::Some(v), Option::Some(s)) => v@ == s,
                _ => false,
            }
        },
        _ => false,
    }
}

/// What `decode_request` must return for `input`, the bytes received so
/// far, with `at_end` saying that the stream has closed: the operation
/// byte is checked first; then the path line must be newline-terminated,
/// and for a listing a pattern line too; a missing piece is `Incomplete`
/// while the stream is open and malformed once it has closed.
pub open spec fn decode_result_is(input: Seq<u8>, at_end: bool, r: Decoded) -> bool {
    if input.len() == 0 {
        if at_end {
            r == Decoded::Malformed(ProtocolError::MissingOperation)
        } else {
            r == Decoded::Incomplete
        }
    } else {
        match spec_operation_of(input[0]) {
            Option::None => r == Decoded::Malformed(ProtocolError::UnknownOperation(input[0])),
            Option::Some(op) => {
                let rest = input.skip(1);
                match first_pos(rest, NEWLINE) {
                    Option::None => if at_end {
                        r == Decoded::Malformed(ProtocolError::MissingPath)
                    } else {
                        r == Decoded::Incomplete
                    },
                    Option::Some(p) => {
                        let path = resolved_path(rest.take(p));
                        if op != Operation::List {
                            is_complete(r, op, path, Option::None)
                        } else {
                            let after = rest.skip(p + 1);
                            match first_pos(after, NEWLINE) {
                                Option::None => if at_end {
                                    r == Decoded::Malformed(ProtocolError::MissingPattern)
                                } else {
                                    r == Decoded::Incomplete
                                },
                                Option::Some(q) => is_complete(r, op, path, Option::Some(after.take(q))),
                            }
                        }
                    },
                }
            },
        }
    }
}

/// Decodes the bytes received so far into a request, asks for more, or
/// rejects the stream for good.
pub fn decode_request(input: &[u8], at_end: bool) -> (r: Decoded)
    ensures
        decode_result_is(input@, at_end, r),
{
    if input.len() == 0 {
        if at_end {
            return Decoded::Malformed(ProtocolError::MissingOperation);
        } else {
            return Decoded::Incomplete;
        }
    }
    let op = match operation_of(input[0]) {
        Option::None => {
            return Decoded::Malformed(ProtocolError::UnknownOperation(input[0]));
        },
        Option::Some(op) => op,
    };
    let ghost rest = input@.skip(1);
    let path_end = match find_byte(input, 1, NEWLINE) {
        Option::None => {
            proof {
                assert(first_pos(rest, NEWLINE) is None);
            }
            if at_end {
                return Decoded::Malformed(ProtocolError::MissingPath);
            } else {
                return Decoded::Incomplete;
            }
        },
        Option::Some(i) => i,
    };
    proof {
        assert(first_pos(rest, NEWLINE) == Some(path_end - 1));
        assert(input@.subrange(1, path_end as int) =~= rest.take(path_end - 1));
    }
    let path = resolve_path(&input[1..path_end]);
    match op {
        Operation::List => {
            let ghost after = rest.skip(path_end as int);
            proof {
                assert(after =~= input@.skip(path_end + 1));
            }
            let pattern_end = match find_byte(input, path_end + 1, NEWLINE) {
                Option::None => {
                    proof {
                        assert(first_pos(after, NEWLINE) is None);
                    }
                    if at_end {
                        return Decoded::Malformed(ProtocolError::MissingPattern);
                    } else {
                        return Decoded::Incomplete;
                    }
                },
                Option::Some(j) => j,
            };
            proof {
                assert(first_pos(after, NEWLINE) == Some(pattern_end - path_end - 1));
                assert(input@.subrange(path_end + 1, pattern_end as int)
                    =~= after.take(pattern_end - path_end - 1));
            }
            let pattern = vstd::slice::slice_to_vec(&input[path_end + 1..pattern_end]);
            Decoded::Complete(Request { operation: op, path, pattern: Some(pattern) })
        },
        _ => {
            Decoded::Complete(Request { operation: op, path, pattern: None })
        },
    }
}

} // verus!
