//! Path text handling: every client-supplied path is trimmed, has its
//! backslashes turned into forward slashes, and is joined beneath the fixed
//! root prefix.

use vstd::prelude::*;
use vstd::string::StrSliceExecFns;
use vstd::string::StringSliceAdditionalSpecFns;

verus! {

/// The path separator written on the wire and in resolved paths.
pub const SLASH: u8 = 47;
/// The separator clients on the other platform may send instead.
pub const BACKSLASH: u8 = 92;

/// The fixed root prefix all client paths are resolved beneath.
pub open spec fn root_prefix() -> Seq<u8> {
    "rom:/Data/".spec_bytes()
}

/// The ASCII whitespace stripped from the ends of a path line.
pub open spec fn is_space(b: u8) -> bool {
    b == 32 || (9 <= b <= 13)
}

/// How many whitespace bytes the text starts with.
pub open spec fn leading_spaces(s: Seq<u8>) -> nat
    decreases s.len(),
{
    if s.len() == 0 {
        0
    } else if is_space(s[0]) {
        1 + leading_spaces(s.skip(1))
    } else {
        0
    }
}

/// How many whitespace bytes the text ends with.
pub open spec fn trailing_spaces(s: Seq<u8>) -> nat
    decreases s.len(),
{
    if s.len() == 0 {
        0
    } else if is_space(s[s.len() - 1]) {
        1 + trailing_spaces(s.take(s.len() - 1))
    } else {
        0
    }
}

/// The text with surrounding whitespace removed.
pub open spec fn trim_spec(s: Seq<u8>) -> Seq<u8> {
    if leading_spaces(s) == s.len() {
        Seq::empty()
    } else {
        s.subrange(leading_spaces(s) as int, s.len() - trailing_spaces(s))
    }
}

/// The text with every backslash replaced by a forward slash.
pub open spec fn normalized(s: Seq<u8>) -> Seq<u8> {
    Seq::new(s.len(), |i: int| if s[i] == BACKSLASH { SLASH } else { s[i] })
}

/// Where a raw client path line resolves to: the root prefix, then the
/// trimmed and separator-normalized text.
pub open spec fn resolved_path(raw: Seq<u8>) -> Seq<u8> {
    root_prefix() + normalized(trim_spec(raw))
}

proof fn lemma_leading_spaces_at(s: Seq<u8>, i: int)
    requires
        0 <= i <= s.len(),
        forall|k: int| 0 <= k < i ==> is_space(s[k]),
        i == s.len() || !is_space(s[i]),
    ensures
        leading_spaces(s) == i,
    decreases i,
{
    if i == 0 {
    } else {
        let tail = s.skip(1);
        assert(forall|k: int| 0 <= k < i - 1 ==> tail[k] == s[k + 1] && is_space(s[k + 1]));
        assert(i - 1 == tail.len() || !is_space(tail[i - 1]));
        lemma_leading_spaces_at(tail, i - 1);
    }
}

proof fn lemma_trailing_spaces_at(s: Seq<u8>, j: int)
    requires
        0 <= j <= s.len(),
        forall|k: int| j <= k < s.len() ==> is_space(s[k]),
        j == 0 || !is_space(s[j - 1]),
    ensures
        trailing_spaces(s) == s.len() - j,
    decreases s.len() - j,
{
    if j == s.len() {
    } else {
        let head = s.take(s.len() - 1);
        assert(is_space(s[s.len() - 1]));
        assert(forall|k: int| j <= k < head.len() ==> head[k] == s[k] && is_space(s[k]));
        lemma_trailing_spaces_at(head, j);
    }
}

fn is_space_byte(b: u8) -> (r: bool)
    ensures
        r == is_space(b),
{
    b == 32 || (9 <= b && b <= 13)
}

/// Removes the surrounding whitespace of a path line.
pub fn trim_bytes(s: &[u8]) -> (r: Vec<u8>)
    ensures
        r@ == trim_spec(s@),
{
    let mut start: usize = 0;
    while start < s.len() && is_space_byte(s[start])
        invariant
            start <= s@.len(),
            forall|k: int| 0 <= k < start ==> is_space(s@[k]),
        decreases s@.len() - start,
    {
        start = start + 1;
    }
    proof {
        lemma_leading_spaces_at(s@, start as int);
    }
    if start == s.len() {
        let r: Vec<u8> = Vec::new();
        proof {
            assert(r@ =~= trim_spec(s@));
        }
        return r;
    }
    let mut end: usize = s.len();
    while end > start && is_space_byte(s[end - 1])
        invariant
            start <= end <= s@.len(),
            forall|k: int| end <= k < s@.len() ==> is_space(s@[k]),
        decreases end,
    {
        end = end - 1;
    }
    proof {
        assert(end > start);
        lemma_trailing_spaces_at(s@, end as int);
    }
    let mut r: Vec<u8> = Vec::new();
    let mut k: usize = start;
    while k < end
        invariant
            start <= k <= end <= s@.len(),
            r@ == s@.subrange(start as int, k as int),
        decreases end - k,
    {
        r.push(s[k]);
        proof {
            assert(s@.subrange(start as int, k as int) + seq![s@[k as int]]
                =~= s@.subrange(start as int, k + 1));
        }
        k = k + 1;
    }
    proof {
        assert(r@ =~= trim_spec(s@));
    }
    r
}

/// Resolves a raw client path line beneath the root prefix.
pub fn resolve_path(raw: &[u8]) -> (r: Vec<u8>)
    ensures
        r@ == resolved_path(raw@),
{
    let mut r = "rom:/Data/".as_bytes_vec();
    let t = trim_bytes(raw);
    let mut i: usize = 0;
    while i < t.len()
        invariant
            i <= t@.len(),
            t@ == trim_spec(raw@),
            r@ == root_prefix() + normalized(t@).take(i as int),
        decreases t@.len() - i,
    {
        let b = t[i];
        r.push(if b == BACKSLASH { SLASH } else { b });
        proof {
            assert(root_prefix() + normalized(t@).take(i as int)
                + seq![normalized(t@)[i as int]] =~= root_prefix() + normalized(t@).take(i + 1));
        }
        i = i + 1;
    }
    proof {
        assert(normalized(t@).take(t@.len() as int) =~= normalized(t@));
        assert(r@ =~= resolved_path(raw@));
    }
    r
}

/// The position of the first `b` in `s`, if any.
pub open spec fn first_pos(s: Seq<u8>, b: u8) -> Option<int>
    decreases s.len(),
{
    if s.len() == 0 {
        None
    } else if s[0] == b {
        Some(0int)
    } else {
        match first_pos(s.skip(1), b) {
            None => None,
            Some(i) => Some(i + 1),
        }
    }
}

pub proof fn lemma_first_pos_at(s: Seq<u8>, b: u8, i: int)
    requires
        0 <= i < s.len(),
        s[i] == b,
        forall|k: int| 0 <= k < i ==> s[k] != b,
    ensures
        first_pos(s, b) == Some(i),
    decreases i,
{
    if i > 0 {
        let tail = s.skip(1);
        assert(forall|k: int| 0 <= k < i - 1 ==> tail[k] == s[k + 1] && s[k + 1] != b);
        assert(tail[i - 1] == b);
        lemma_first_pos_at(tail, b, i - 1);
    }
}

pub proof fn lemma_first_pos_none(s: Seq<u8>, b: u8)
    requires
        forall|k: int| 0 <= k < s.len() ==> s[k] != b,
    ensures
        first_pos(s, b) is None,
    decreases s.len(),
{
    if s.len() > 0 {
        let tail = s.skip(1);
        assert(forall|k: int| 0 <= k < tail.len() ==> tail[k] == s[k + 1] && s[k + 1] != b);
        lemma_first_pos_none(tail, b);
    }
}

/// Scans `s` from `from` for the byte `b`, reporting the first position.
pub fn find_byte(s: &[u8], from: usize, b: u8) -> (r: Option<usize>)
    requires
        from <= s@.len(),
    ensures
        match r {
            Some(i) => from <= i < s@.len() && s@[i as int] == b
                && first_pos(s@.skip(from as int), b) == Some(i - from),
            None => first_pos(s@.skip(from as int), b) is None,
        },
{
    let mut i: usize = from;
    while i < s.len()
        invariant
            from <= i <= s@.len(),
            forall|k: int| from <= k < i ==> s@[k] != b,
        decreases s@.len() - i,
    {
        if s[i] == b {
            proof {
                let rest = s@.skip(from as int);
                assert(forall|k: int| 0 <= k < i - from ==> rest[k] == s@[k + from]);
                lemma_first_pos_at(rest, b, i - from);
            }
            return Some(i);
        }
        i = i + 1;
    }
    proof {
        let rest = s@.skip(from as int);
        assert(forall|k: int| 0 <= k < rest.len() ==> rest[k] == s@[k + from]);
        lemma_first_pos_none(rest, b);
    }
    None
}

} // verus!
