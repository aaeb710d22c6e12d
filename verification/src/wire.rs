//! The wire format of responses: a status byte, then a payload whose
//! multi-byte integers are 8-byte big-endian length or count fields.

use vstd::prelude::*;

verus! {

/// Status byte of a successful response.
pub const STATUS_OK: u8 = 0;
/// Status byte of an error response.
pub const STATUS_ERR: u8 = 1;
/// Line terminator used by listing payloads.
pub const NEWLINE: u8 = 10;

/// The 8-byte big-endian encoding of `n`.
pub open spec fn be_u64_bytes(n: u64) -> Seq<u8> {
    seq![
        ((n >> 56) & 0xff) as u8,
        ((n >> 48) & 0xff) as u8,
        ((n >> 40) & 0xff) as u8,
        ((n >> 32) & 0xff) as u8,
        ((n >> 24) & 0xff) as u8,
        ((n >> 16) & 0xff) as u8,
        ((n >> 8) & 0xff) as u8,
        (n & 0xff) as u8,
    ]
}

/// The value read back from 8 big-endian bytes.
pub open spec fn be_u64_value(b: Seq<u8>) -> u64
    recommends
        b.len() == 8,
{
    (((b[0] as u64) << 56) | ((b[1] as u64) << 48) | ((b[2] as u64) << 40)
        | ((b[3] as u64) << 32) | ((b[4] as u64) << 24) | ((b[5] as u64) << 16)
        | ((b[6] as u64) << 8) | (b[7] as u64)) as u64
}

/// Decoding the 8 bytes that encode `n` yields `n` again.
pub proof fn lemma_be_u64_round_trip(n: u64)
    ensures
        be_u64_value(be_u64_bytes(n)) == n,
{
    let b0 = ((n >> 56) & 0xff) as u8;
    let b1 = ((n >> 48) & 0xff) as u8;
    let b2 = ((n >> 40) & 0xff) as u8;
    let b3 = ((n >> 32) & 0xff) as u8;
    let b4 = ((n >> 24) & 0xff) as u8;
    let b5 = ((n >> 16) & 0xff) as u8;
    let b6 = ((n >> 8) & 0xff) as u8;
    let b7 = (n & 0xff) as u8;
    assert((((b0 as u64) << 56) | ((b1 as u64) << 48) | ((b2 as u64) << 40)
        | ((b3 as u64) << 32) | ((b4 as u64) << 24) | ((b5 as u64) << 16)
        | ((b6 as u64) << 8) | (b7 as u64)) == n) by (bit_vector)
        requires
            b0 == ((n >> 56) & 0xff) as u8,
            b1 == ((n >> 48) & 0xff) as u8,
            b2 == ((n >> 40) & 0xff) as u8,
            b3 == ((n >> 32) & 0xff) as u8,
            b4 == ((n >> 24) & 0xff) as u8,
            b5 == ((n >> 16) & 0xff) as u8,
            b6 == ((n >> 8) & 0xff) as u8,
            b7 == (n & 0xff) as u8,
    ;
}

/// Writes `n` as 8 big-endian bytes.
pub fn u64_to_be(n: u64) -> (r: Vec<u8>)
    ensures
        r@ == be_u64_bytes(n),
{
    proof {
        assert((n >> 56) & 0xff < 256 && (n >> 48) & 0xff < 256 && (n >> 40) & 0xff < 256
            && (n >> 32) & 0xff < 256 && (n >> 24) & 0xff < 256 && (n >> 16) & 0xff < 256
            && (n >> 8) & 0xff < 256 && n & 0xff < 256) by (bit_vector);
    }
    let mut r: Vec<u8> = Vec::new();
    r.push(((n >> 56) & 0xff) as u8);
    r.push(((n >> 48) & 0xff) as u8);
    r.push(((n >> 40) & 0xff) as u8);
    r.push(((n >> 32) & 0xff) as u8);
    r.push(((n >> 24) & 0xff) as u8);
    r.push(((n >> 16) & 0xff) as u8);
    r.push(((n >> 8) & 0xff) as u8);
    r.push((n & 0xff) as u8);
    proof {
        assert(r@ =~= be_u64_bytes(n));
    }
    r
}

/// Reads a u64 out of 8 big-endian bytes.
pub fn be_to_u64(b: &[u8]) -> (r: u64)
    requires
        b@.len() == 8,
    ensures
        r == be_u64_value(b@),
{
    ((b[0] as u64) << 56) | ((b[1] as u64) << 48) | ((b[2] as u64) << 40)
        | ((b[3] as u64) << 32) | ((b[4] as u64) << 24) | ((b[5] as u64) << 16)
        | ((b[6] as u64) << 8) | (b[7] as u64)
}

/// The frame answering an existence check: success status, then a flag byte.
pub open spec fn exists_frame(present: bool) -> Seq<u8> {
    seq![STATUS_OK, if present { 1u8 } else { 0u8 }]
}

/// The frame answering a whole-file read: success status, the byte count,
/// then the bytes themselves.
pub open spec fn read_frame(data: Seq<u8>) -> Seq<u8>
    recommends
        data.len() <= u64::MAX,
{
    seq![STATUS_OK] + be_u64_bytes(data.len() as u64) + data
}

/// The lines of a listing payload: each path followed by a newline.
pub open spec fn listing_lines(paths: Seq<Seq<u8>>) -> Seq<u8>
    decreases paths.len(),
{
    if paths.len() == 0 {
        Seq::empty()
    } else {
        paths[0] + seq![NEWLINE] + listing_lines(paths.skip(1))
    }
}

/// The frame answering a listing: success status, the entry count, then
/// one newline-terminated path per entry.
pub open spec fn list_frame(paths: Seq<Seq<u8>>) -> Seq<u8>
    recommends
        paths.len() <= u64::MAX,
{
    seq![STATUS_OK] + be_u64_bytes(paths.len() as u64) + listing_lines(paths)
}

/// The frame reporting a failure: error status, the message length, then
/// the message bytes.
pub open spec fn error_frame(message: Seq<u8>) -> Seq<u8>
    recommends
        message.len() <= u64::MAX,
{
    seq![STATUS_ERR] + be_u64_bytes(message.len() as u64) + message
}

/// Appends all of `src` to `dst`.
pub(crate) fn append_bytes(dst: &mut Vec<u8>, src: &[u8])
    ensures
        final(dst)@ == old(dst)@ + src@,
{
    let mut i: usize = 0;
    while i < src.len()
        invariant
            i <= src@.len(),
            dst@ == old(dst)@ + src@.take(i as int),
        decreases src@.len() - i,
    {
        dst.push(src[i]);
        proof {
            assert(old(dst)@ + src@.take(i as int) + seq![src@[i as int]]
                =~= old(dst)@ + src@.take(i + 1));
        }
        i = i + 1;
    }
    proof {
        assert(old(dst)@ + src@.take(src@.len() as int) =~= old(dst)@ + src@);
    }
}

/// Encodes the answer to an existence check.
pub fn encode_exists(present: bool) -> (r: Vec<u8>)
    ensures
        r@ == exists_frame(present),
{
    let mut r: Vec<u8> = Vec::new();
    r.push(STATUS_OK);
    r.push(if present { 1 } else { 0 });
    proof {
        assert(r@ =~= exists_frame(present));
    }
    r
}

/// Encodes the answer to a whole-file read.
pub fn encode_read(data: &[u8]) -> (r: Vec<u8>)
    ensures
        r@ == read_frame(data@),
{
    let mut r: Vec<u8> = Vec::new();
    r.push(STATUS_OK);
    let len = u64_to_be(data.len() as u64);
    append_bytes(&mut r, len.as_slice());
    append_bytes(&mut r, data);
    proof {
        assert(r@ =~= read_frame(data@));
    }
    r
}

/// Encodes a failure report.
pub fn encode_error(message: &[u8]) -> (r: Vec<u8>)
    ensures
        r@ == error_frame(message@),
{
    let mut r: Vec<u8> = Vec::new();
    r.push(STATUS_ERR);
    let len = u64_to_be(message.len() as u64);
    append_bytes(&mut r, len.as_slice());
    append_bytes(&mut r, message);
    proof {
        assert(r@ =~= error_frame(message@));
    }
    r
}

/// Taking one more path into the payload appends that path and a newline.
proof fn lemma_listing_lines_snoc(paths: Seq<Seq<u8>>, i: int)
    requires
        0 <= i < paths.len(),
    ensures
        listing_lines(paths.take(i + 1)) == listing_lines(paths.take(i)) + paths[i] + seq![NEWLINE],
    decreases i,
{
    if i == 0 {
        assert(paths.take(1).skip(1) =~= paths.take(0));
        assert(paths.take(1)[0] == paths[0]);
        assert(listing_lines(paths.take(0)) =~= Seq::<u8>::empty());
        assert(listing_lines(paths.take(1)) =~= listing_lines(paths.take(0)) + paths[0] + seq![NEWLINE]);
    } else {
        let tail = paths.skip(1);
        lemma_listing_lines_snoc(tail, i - 1);
        assert(paths.take(i + 1).skip(1) =~= tail.take(i));
        assert(paths.take(i).skip(1) =~= tail.take(i - 1));
        assert(paths.take(i + 1)[0] == paths[0]);
        assert(paths.take(i)[0] == paths[0]);
        assert(tail[i - 1] == paths[i]);
        assert(listing_lines(paths.take(i + 1))
            =~= listing_lines(paths.take(i)) + paths[i] + seq![NEWLINE]);
    }
}

/// Encodes the answer to a listing; entries keep the order they were given in.
pub fn encode_list(paths: &Vec<Vec<u8>>) -> (r: Vec<u8>)
    ensures
        r@ == list_frame(paths.deep_view()),
{
    let ghost views = paths.deep_view();
    let mut r: Vec<u8> = Vec::new();
    r.push(STATUS_OK);
    let count = u64_to_be(paths.len() as u64);
    append_bytes(&mut r, count.as_slice());
    let ghost header = r@;
    let mut i: usize = 0;
    while i < paths.len()
        invariant
            i <= paths@.len(),
            views == paths.deep_view(),
            views.len() == paths@.len(),
            r@ == header + listing_lines(views.take(i as int)),
        decreases paths@.len() - i,
    {
        proof {
            lemma_listing_lines_snoc(views, i as int);
            assert(views[i as int] == paths@[i as int]@);
        }
        append_bytes(&mut r, paths[i].as_slice());
        r.push(NEWLINE);
        proof {
            assert(header + listing_lines(views.take(i as int)) + paths@[i as int]@
                + seq![NEWLINE] =~= header + listing_lines(views.take(i + 1)));
        }
        i = i + 1;
    }
    proof {
        assert(views.take(views.len() as int) =~= views);
        assert(r@ =~= list_frame(views));
    }
    r
}

/// Parses an error frame back into its message, as the remote client does:
/// the result is the message when the input is exactly an error frame whose
/// length field matches the bytes that follow it, and nothing otherwise.
pub fn decode_error_frame(frame: &[u8]) -> (r: Option<Vec<u8>>)
    ensures
        match r {
            Some(message) => {
                &&& frame@.len() >= 9
                &&& frame@[0] == STATUS_ERR
                &&& be_u64_value(frame@.subrange(1, 9)) == frame@.len() - 9
                &&& message@ == frame@.skip(9)
            },
            None => {
                ||| frame@.len() < 9
                ||| frame@[0] != STATUS_ERR
                ||| be_u64_value(frame@.subrange(1, 9)) != frame@.len() - 9
            },
        },
{
    if frame.len() < 9 {
        return None;
    }
    if frame[0] != STATUS_ERR {
        return None;
    }
    let mut len_bytes: Vec<u8> = Vec::new();
    let mut i: usize = 1;
    while i < 9
        invariant
            1 <= i <= 9,
            frame@.len() >= 9,
            len_bytes@ == frame@.subrange(1, i as int),
        decreases 9 - i,
    {
        len_bytes.push(frame[i]);
        proof {
            assert(frame@.subrange(1, i as int) + seq![frame@[i as int]]
                =~= frame@.subrange(1, i + 1));
        }
        i = i + 1;
    }
    let stated = be_to_u64(len_bytes.as_slice());
    if stated != (frame.len() - 9) as u64 {
        return None;
    }
    let mut message: Vec<u8> = Vec::new();
    let mut j: usize = 9;
    while j < frame.len()
        invariant
            9 <= j <= frame@.len(),
            message@ == frame@.subrange(9, j as int),
        decreases frame@.len() - j,
    {
        message.push(frame[j]);
        proof {
            assert(frame@.subrange(9, j as int) + seq![frame@[j as int]]
                =~= frame@.subrange(9, j + 1));
        }
        j = j + 1;
    }
    proof {
        assert(frame@.subrange(9, frame@.len() as int) =~= frame@.skip(9));
    }
    Some(message)
}

/// Framing is exact: an encoded error message decodes back to the same
/// bytes, with no truncation or padding.
pub proof fn lemma_error_frame_round_trip(message: Seq<u8>)
    requires
        message.len() <= u64::MAX,
    ensures
        error_frame(message).len() == 9 + message.len(),
        error_frame(message)[0] == STATUS_ERR,
        error_frame(message).subrange(1, 9) == be_u64_bytes(message.len() as u64),
        be_u64_value(error_frame(message).subrange(1, 9)) == message.len(),
        error_frame(message).skip(9) == message,
{
    let frame = error_frame(message);
    assert(frame.subrange(1, 9) =~= be_u64_bytes(message.len() as u64));
    lemma_be_u64_round_trip(message.len() as u64);
    assert(frame.skip(9) =~= message);
}

/// A listing frame carries its payload exactly: the count field equals the
/// number of entries, and the bytes after it are the entries' lines.
pub proof fn lemma_list_frame_exact(paths: Seq<Seq<u8>>)
    requires
        paths.len() <= u64::MAX,
    ensures
        list_frame(paths).len() == 9 + listing_lines(paths).len(),
        list_frame(paths)[0] == STATUS_OK,
        be_u64_value(list_frame(paths).subrange(1, 9)) == paths.len(),
        list_frame(paths).skip(9) == listing_lines(paths),
{
    let frame = list_frame(paths);
    assert(frame.subrange(1, 9) =~= be_u64_bytes(paths.len() as u64));
    lemma_be_u64_round_trip(paths.len() as u64);
    assert(frame.skip(9) =~= listing_lines(paths));
}

/// A read frame carries its payload exactly: the length field equals the
/// byte count, and the bytes after it are the file's bytes unchanged.
pub proof fn lemma_read_frame_exact(data: Seq<u8>)
    requires
        data.len() <= u64::MAX,
    ensures
        read_frame(data).len() == 9 + data.len(),
        read_frame(data)[0] == STATUS_OK,
        be_u64_value(read_frame(data).subrange(1, 9)) == data.len(),
        read_frame(data).skip(9) == data,
{
    let frame = read_frame(data);
    assert(frame.subrange(1, 9) =~= be_u64_bytes(data.len() as u64));
    lemma_be_u64_round_trip(data.len() as u64);
    assert(frame.skip(9) =~= data);
}

} // verus!
