//! Listing support: turning a walked file's full path into a path relative
//! to the grandparent of the traversal root (the first two path segments
//! are dropped), and collecting such paths without duplicates.

use vstd::prelude::*;
use crate::paths::{first_pos, SLASH};
use crate::wire::append_bytes;

verus! {

/// Bounds and characterization of `first_pos`: a found position carries
/// the byte and nothing before it does; otherwise no position does.
pub proof fn lemma_first_pos_range(s: Seq<u8>, b: u8)
    ensures
        match first_pos(s, b) {
            Option::Some(p) => 0 <= p < s.len() && s[p] == b
                && (forall|k: int| 0 <= k < p ==> s[k] != b),
            Option::None => forall|k: int| 0 <= k < s.len() ==> s[k] != b,
        },
    decreases s.len(),
{
    if s.len() > 0 && s[0] != b {
        let tail = s.skip(1);
        lemma_first_pos_range(tail, b);
        assert(forall|k: int| 0 <= k < tail.len() ==> tail[k] == s[k + 1]);
        match first_pos(tail, b) {
            Option::Some(i) => {
                assert(s[i + 1] == b);
                assert forall|k: int| 0 <= k < i + 1 implies s[k] != b by {
                    if k > 0 {
                        assert(tail[k - 1] != b);
                    }
                }
            },
            Option::None => {
                assert forall|k: int| 0 <= k < s.len() implies s[k] != b by {
                    if k > 0 {
                        assert(tail[k - 1] != b);
                    }
                }
            },
        }
    }
}

/// The non-empty segments of a path, in order: the text between slashes.
pub open spec fn split_segments(s: Seq<u8>) -> Seq<Seq<u8>>
    decreases s.len(),
    via split_segments_decreases
{
    match first_pos(s, SLASH) {
        Option::None => if s.len() == 0 {
            Seq::empty()
        } else {
            seq![s]
        },
        Option::Some(p) => {
            let head = s.take(p);
            let rest = split_segments(s.skip(p + 1));
            if head.len() == 0 {
                rest
            } else {
                seq![head] + rest
            }
        },
    }
}

#[via_fn]
proof fn split_segments_decreases(s: Seq<u8>) {
    lemma_first_pos_range(s, SLASH);
}

/// The segments joined back with single slashes.
pub open spec fn joined(segs: Seq<Seq<u8>>) -> Seq<u8>
    decreases segs.len(),
{
    if segs.len() == 0 {
        Seq::empty()
    } else if segs.len() == 1 {
        segs[0]
    } else {
        segs[0] + seq![SLASH] + joined(segs.skip(1))
    }
}

/// A full walked path made relative to the grandparent of the traversal
/// root: its first two segments dropped, the rest joined with slashes.
pub open spec fn after_two_segments(s: Seq<u8>) -> Seq<u8> {
    let segs = split_segments(s);
    if segs.len() <= 2 {
        Seq::empty()
    } else {
        joined(segs.skip(2))
    }
}

/// Splits a path into its non-empty segments.
pub fn split_path(path: &[u8]) -> (segs: Vec<Vec<u8>>)
    ensures
        segs@.len() == split_segments(path@).len(),
        forall|k: int| 0 <= k < segs@.len() ==> segs@[k]@ == split_segments(path@)[k],
{
    let ghost full = path@;
    let mut segs: Vec<Vec<u8>> = Vec::new();
    let ghost mut done: Seq<Seq<u8>> = Seq::empty();
    let mut start: usize = 0;
    let mut i: usize = 0;
    proof {
        assert(full.skip(0) =~= full);
        assert(done + split_segments(full) =~= split_segments(full));
    }
    while i < path.len()
        invariant
            start <= i <= full.len(),
            full == path@,
            segs@.len() == done.len(),
            forall|k: int| 0 <= k < done.len() ==> segs@[k]@ == done[k],
            forall|k: int| 0 <= k < done.len() ==> done[k].len() > 0,
            split_segments(full) == done + split_segments(full.skip(start as int)),
            forall|k: int| start <= k < i ==> full[k] != SLASH,
        decreases full.len() - i,
    {
        if path[i] == SLASH {
            let ghost piece = full.subrange(start as int, i as int);
            proof {
                let suffix = full.skip(start as int);
                assert(forall|k: int| 0 <= k < i - start ==> suffix[k] == full[k + start]);
                assert(suffix[i - start] == SLASH);
                crate::paths::lemma_first_pos_at(suffix, SLASH, i - start);
                assert(suffix.take(i - start) =~= piece);
                assert(suffix.skip(i - start + 1) =~= full.skip(i + 1));
            }
            if i > start {
                let segment = vstd::slice::slice_to_vec(&path[start..i]);
                segs.push(segment);
                proof {
                    assert(split_segments(full.skip(start as int))
                        == seq![piece] + split_segments(full.skip(i + 1)));
                    assert(done + (seq![piece] + split_segments(full.skip(i + 1)))
                        =~= (done + seq![piece]) + split_segments(full.skip(i + 1)));
                    assert(forall|k: int| 0 <= k < done.len() ==> segs@[k]@ == done[k]);
                }
                proof {
                    done = done + seq![piece];
                }
            } else {
                proof {
                    assert(split_segments(full.skip(start as int))
                        == split_segments(full.skip(i + 1)));
                }
            }
            start = i + 1;
        }
        i = i + 1;
    }
    proof {
        let suffix = full.skip(start as int);
        assert(forall|k: int| 0 <= k < suffix.len() ==> suffix[k] == full[k + start]);
        crate::paths::lemma_first_pos_none(suffix, SLASH);
        if start < full.len() {
            assert(split_segments(suffix) == seq![suffix]);
        } else {
            assert(split_segments(suffix) =~= Seq::<Seq<u8>>::empty());
        }
    }
    if start < path.len() {
        let segment = vstd::slice::slice_to_vec(&path[start..path.len()]);
        segs.push(segment);
        proof {
            assert(full.subrange(start as int, full.len() as int) =~= full.skip(start as int));
            assert(done + seq![full.skip(start as int)]
                =~= split_segments(full));
        }
    } else {
        proof {
            assert(done + split_segments(full.skip(start as int)) =~= done);
        }
    }
    segs
}

/// Joining one more segment appends a slash and that segment.
proof fn lemma_joined_snoc(segs: Seq<Seq<u8>>, k: int)
    requires
        1 <= k < segs.len(),
    ensures
        joined(segs.take(k + 1)) == joined(segs.take(k)) + seq![SLASH] + segs[k],
    decreases k,
{
    if k == 1 {
        let two = segs.take(2);
        assert(two.skip(1) =~= segs.skip(1).take(1));
        assert(joined(segs.skip(1).take(1)) == segs.skip(1).take(1)[0]);
        assert(segs.skip(1).take(1)[0] == segs[1]);
        assert(joined(segs.take(1)) == segs.take(1)[0]);
        assert(joined(two) =~= joined(segs.take(1)) + seq![SLASH] + segs[1]);
    } else {
        let tail = segs.skip(1);
        lemma_joined_snoc(tail, k - 1);
        assert(segs.take(k + 1).skip(1) =~= tail.take(k));
        assert(segs.take(k).skip(1) =~= tail.take(k - 1));
        assert(segs.take(k + 1)[0] == segs[0]);
        assert(segs.take(k)[0] == segs[0]);
        assert(tail[k - 1] == segs[k]);
        assert(joined(segs.take(k + 1))
            =~= joined(segs.take(k)) + seq![SLASH] + segs[k]);
    }
}

/// Drops the first two segments of a walked path and joins the rest: the
/// relative path a listing reports for one file.
pub fn strip_two_segments(path: &[u8]) -> (r: Vec<u8>)
    ensures
        r@ == after_two_segments(path@),
{
    let segs = split_path(path);
    let ghost all = split_segments(path@);
    let mut r: Vec<u8> = Vec::new();
    if segs.len() <= 2 {
        proof {
            assert(r@ =~= after_two_segments(path@));
        }
        return r;
    }
    let ghost tail = all.skip(2);
    let mut i: usize = 2;
    while i < segs.len()
        invariant
            2 <= i <= segs@.len(),
            segs@.len() == all.len(),
            2 < all.len(),
            forall|k: int| 0 <= k < segs@.len() ==> segs@[k]@ == all[k],
            tail == all.skip(2),
            r@ == joined(tail.take(i - 2)),
        decreases segs@.len() - i,
    {
        if i > 2 {
            r.push(SLASH);
        }
        append_bytes(&mut r, segs[i].as_slice());
        proof {
            assert(tail[i - 2] == all[i as int]);
            if i == 2 {
                assert(joined(tail.take(1)) == tail.take(1)[0]);
                assert(r@ =~= joined(tail.take(1)));
            } else {
                lemma_joined_snoc(tail, i - 2);
                assert(r@ =~= joined(tail.take(i - 1)));
            }
        }
        i = i + 1;
    }
    proof {
        assert(tail.take(tail.len() as int) =~= tail);
        assert(r@ =~= after_two_segments(path@));
    }
    r
}

/// Compares two byte strings.
pub fn bytes_eq(a: &[u8], b: &[u8]) -> (r: bool)
    ensures
        r == (a@ == b@),
{
    if a.len() != b.len() {
        return false;
    }
    let mut i: usize = 0;
    while i < a.len()
        invariant
            i <= a@.len(),
            a@.len() == b@.len(),
            forall|k: int| 0 <= k < i ==> a@[k] == b@[k],
        decreases a@.len() - i,
    {
        if a[i] != b[i] {
            return false;
        }
        i = i + 1;
    }
    proof {
        assert(a@ =~= b@);
    }
    true
}

/// The relative paths a listing reports, collected without duplicates:
/// inserting a path a second time leaves the collection unchanged.
pub struct PathSet {
    entries: Vec<Vec<u8>>,
}

impl View for PathSet {
    type V = Seq<Seq<u8>>;

    closed spec fn view(&self) -> Seq<Seq<u8>> {
        self.entries.deep_view()
    }
}

impl PathSet {
    /// No path occurs twice.
    pub open spec fn wf(&self) -> bool {
        forall|i: int, j: int| 0 <= i < j < self@.len() ==> self@[i] != self@[j]
    }

    /// An empty collection.
    pub fn new() -> (r: PathSet)
        ensures
            r@ == Seq::<Seq<u8>>::empty(),
            r.wf(),
    {
        let r = PathSet { entries: Vec::new() };
        proof {
            assert(r@ =~= Seq::<Seq<u8>>::empty());
        }
        r
    }

    /// How many paths are collected.
    pub fn len(&self) -> (r: usize)
        ensures
            r == self@.len(),
    {
        self.entries.len()
    }

    /// Whether `p` is already collected.
    pub fn contains(&self, p: &[u8]) -> (r: bool)
        ensures
            r == self@.contains(p@),
    {
        let mut i: usize = 0;
        while i < self.entries.len()
            invariant
                i <= self@.len(),
                self@.len() == self.entries@.len(),
                forall|k: int| 0 <= k < self@.len() ==> self@[k] == self.entries@[k]@,
                forall|k: int| 0 <= k < i ==> self@[k] != p@,
            decreases self@.len() - i,
        {
            if bytes_eq(self.entries[i].as_slice(), p) {
                proof {
                    assert(self@[i as int] == p@);
                }
                return true;
            }
            i = i + 1;
        }
        proof {
            assert(!self@.contains(p@));
        }
        false
    }

    /// Collects `p`: a path seen before is not added again, so the entries
    /// keep set semantics while the first-insertion order is preserved.
    pub fn insert(&mut self, p: Vec<u8>)
        ensures
            final(self)@ == if old(self)@.contains(p@) {
                old(self)@
            } else {
                old(self)@.push(p@)
            },
            old(self).wf() ==> final(self).wf(),
            forall|q: Seq<u8>| #[trigger] final(self)@.contains(q)
                <==> (old(self)@.contains(q) || q == p@),
    {
        let ghost before = self@;
        if self.contains(p.as_slice()) {
            proof {
                assert forall|q: Seq<u8>| #[trigger] self@.contains(q)
                    <==> (before.contains(q) || q == p@) by {
                    if q == p@ {
                        assert(before.contains(p@));
                    }
                }
            }
            return;
        }
        let ghost pv = p@;
        self.entries.push(p);
        proof {
            assert(self@ =~~= before.push(pv));
            assert forall|q: Seq<u8>| #[trigger] self@.contains(q)
                implies (before.contains(q) || q == p@) by {
                let k = choose|k: int| 0 <= k < self@.len() && self@[k] == q;
                if k < before.len() {
                    assert(before[k] == q);
                }
            }
            assert forall|q: Seq<u8>| before.contains(q) || q == p@
                implies #[trigger] self@.contains(q) by {
                if before.contains(q) {
                    let k = choose|k: int| 0 <= k < before.len() && before[k] == q;
                    assert(self@[k] == q);
                } else {
                    assert(self@[before.len() as int] == q);
                }
            }
            assert(forall|k: int| 0 <= k < before.len() ==> before[k] != p@);
        }
    }

    /// The collected paths, in first-insertion order.
    pub fn entries(&self) -> (r: &Vec<Vec<u8>>)
        ensures
            r.deep_view() == self@,
    {
        &self.entries
    }
}

} // verus!
