//! Views of single records inside a shared byte buffer.

use vstd::prelude::*;
use crate::order::{
    bytes_lt, lemma_le_transitive, lemma_lt_at_first_difference, lemma_lt_connected,
    lemma_lt_irreflexive, lemma_lt_prefix,
};

verus! {

/// A record of the shared buffer, named by where it starts and how long it is.
/// It owns no bytes: the same view read against another buffer gives other bytes.
#[derive(Clone, Copy, Debug, PartialEq, Eq, Structural)]
pub struct RecordView {
    pub offset: usize,
    pub length: usize,
}

impl RecordView {
    /// The view lies inside a buffer with these contents.
    pub open spec fn fits(self, buffer: Seq<u8>) -> bool {
        self.offset + self.length <= buffer.len()
    }

    /// The bytes that the view names in `buffer`.
    pub open spec fn bytes(self, buffer: Seq<u8>) -> Seq<u8> {
        buffer.subrange(self.offset as int, self.offset + self.length)
    }

    /// `self` sorts strictly before `other` by the bytes both name in `buffer`.
    pub open spec fn lt(self, other: RecordView, buffer: Seq<u8>) -> bool {
        bytes_lt(self.bytes(buffer), other.bytes(buffer))
    }

    pub fn new(offset: usize, length: usize) -> (view: RecordView)
        ensures
            view.offset == offset,
            view.length == length,
    {
        RecordView { offset, length }
    }

    /// Decides whether `self` sorts strictly before `other`.
    pub fn precedes(&self, other: &RecordView, buffer: &[u8]) -> (r: bool)
        requires
            self.fits(buffer@),
            other.fits(buffer@),
        ensures
            r == self.lt(*other, buffer@),
    {
        let ghost a = self.bytes(buffer@);
        let ghost b = other.bytes(buffer@);
        let size = buffer.len();
        let mut i: usize = 0;
        while i < self.length && i < other.length
            invariant
                i <= self.length,
                i <= other.length,
                size == buffer@.len(),
                self.fits(buffer@),
                other.fits(buffer@),
                a == self.bytes(buffer@),
                b == other.bytes(buffer@),
                forall|k: int| 0 <= k < i ==> a[k] == b[k],
            decreases self.length - i,
        {
            let x = buffer[self.offset + i];
            let y = buffer[other.offset + i];
            assert(x == a[i as int]);
            assert(y == b[i as int]);
            if x != y {
                proof {
                    lemma_lt_at_first_difference(a, b, i as int);
                }
                return x < y;
            }
            i += 1;
        }
        proof {
            if i == self.length {
                lemma_lt_prefix(a, b);
            } else {
                lemma_lt_prefix(b, a);
            }
        }
        i < other.length
    }

    /// Copies the bytes that the view names out of `buffer`.
    pub fn to_vec(&self, buffer: &[u8]) -> (out: Vec<u8>)
        requires
            self.fits(buffer@),
        ensures
            out@ == self.bytes(buffer@),
    {
        let mut out: Vec<u8> = Vec::with_capacity(self.length);
        let size = buffer.len();
        let mut i: usize = 0;
        while i < self.length
            invariant
                i <= self.length,
                size == buffer@.len(),
                self.fits(buffer@),
                out@ == buffer@.subrange(self.offset as int, self.offset + i),
            decreases self.length - i,
        {
            out.push(buffer[self.offset + i]);
            assert(out@ =~= buffer@.subrange(self.offset as int, self.offset + i + 1));
            i += 1;
        }
        out
    }
}

/// Every view of `views` lies inside `buffer`.
pub open spec fn all_fit(views: Seq<RecordView>, buffer: Seq<u8>) -> bool {
    forall|i: int| 0 <= i < views.len() ==> (#[trigger] views[i]).fits(buffer)
}

/// The bytes of each view, in the order of the views.
pub open spec fn contents(views: Seq<RecordView>, buffer: Seq<u8>) -> Seq<Seq<u8>> {
    Seq::new(views.len(), |i: int| views[i].bytes(buffer))
}

/// The test that picks the views which name the bytes `key`.
pub open spec fn names(buffer: Seq<u8>, key: Seq<u8>) -> spec_fn(RecordView) -> bool {
    |view: RecordView| view.bytes(buffer) == key
}

/// The views stand in ascending byte-lexicographic order of their bytes: no
/// view sorts strictly before one that stands ahead of it.
pub open spec fn ascending(views: Seq<RecordView>, buffer: Seq<u8>) -> bool {
    forall|i: int, j: int| 0 <= i < j < views.len() ==> !views[j].lt(views[i], buffer)
}

/// No view of `views` sorts strictly before `floor`.
pub open spec fn bounded_below(views: Seq<RecordView>, floor: RecordView, buffer: Seq<u8>) -> bool {
    forall|k: int| 0 <= k < views.len() ==> !(#[trigger] views[k]).lt(floor, buffer)
}

/// `ceiling` sorts strictly before no view of `views`.
pub open spec fn bounded_above(views: Seq<RecordView>, ceiling: RecordView, buffer: Seq<u8>) -> bool {
    forall|k: int| 0 <= k < views.len() ==> !ceiling.lt(#[trigger] views[k], buffer)
}

/// An ascending run stays ascending when a view that none of its views sorts
/// strictly after is put behind it.
pub proof fn lemma_push_ascending(views: Seq<RecordView>, ceiling: RecordView, buffer: Seq<u8>)
    requires
        ascending(views, buffer),
        bounded_above(views, ceiling, buffer),
    ensures
        ascending(views.push(ceiling), buffer),
{
    let grown = views.push(ceiling);
    assert forall|i: int, j: int| 0 <= i < j < grown.len() implies !grown[j].lt(
        grown[i],
        buffer,
    ) by {
        if j < views.len() {
            assert(!views[j].lt(views[i], buffer));
        } else {
            assert(!ceiling.lt(views[i], buffer));
        }
    }
}

/// An ascending run stays ascending when a view that sorts strictly after none
/// of its views is put in front of it.
pub proof fn lemma_prepend_ascending(floor: RecordView, views: Seq<RecordView>, buffer: Seq<u8>)
    requires
        ascending(views, buffer),
        bounded_below(views, floor, buffer),
    ensures
        ascending(seq![floor] + views, buffer),
{
    let grown = seq![floor] + views;
    assert forall|i: int, j: int| 0 <= i < j < grown.len() implies !grown[j].lt(
        grown[i],
        buffer,
    ) by {
        if i > 0 {
            assert(!views[j - 1].lt(views[i - 1], buffer));
        } else {
            assert(!views[j - 1].lt(floor, buffer));
        }
    }
}

/// Two ascending runs that hold the same views, each as often as the other,
/// name the same bytes position by position.
pub proof fn lemma_ascending_contents_unique(
    first: Seq<RecordView>,
    second: Seq<RecordView>,
    buffer: Seq<u8>,
)
    requires
        ascending(first, buffer),
        ascending(second, buffer),
        first.to_multiset() == second.to_multiset(),
    ensures
        contents(first, buffer) == contents(second, buffer),
    decreases first.len(),
{
    broadcast use vstd::seq_lib::group_to_multiset_ensures;

    assert(first.len() == second.len()) by {
        vstd::seq_lib::to_multiset_len(first);
        vstd::seq_lib::to_multiset_len(second);
    }
    if first.len() == 0 {
        assert(contents(first, buffer) =~= contents(second, buffer));
    } else {
        let top = first.last();
        let last = first.len() - 1;
        assert(first.contains(top)) by {
            assert(first[last] == top);
        }
        assert(second.contains(top)) by {
            assert(first.to_multiset().count(top) > 0);
            assert(second.to_multiset().count(top) > 0);
        }
        let at = choose|at: int| 0 <= at < second.len() && second[at] == top;
        let rest = second.remove(at);
        assert(first.drop_last() =~= first.remove(last));
        assert(first.drop_last().to_multiset() == rest.to_multiset());
        assert(ascending(first.drop_last(), buffer));
        assert(ascending(rest, buffer)) by {
            assert forall|i: int, j: int| 0 <= i < j < rest.len() implies !rest[j].lt(
                rest[i],
                buffer,
            ) by {
                let from_i = if i < at { i } else { i + 1 };
                let from_j = if j < at { j } else { j + 1 };
                assert(rest[i] == second[from_i] && rest[j] == second[from_j]);
            }
        }
        lemma_ascending_contents_unique(first.drop_last(), rest, buffer);
        // The greatest view of `second` stands in `first`, so it is not above `top`.
        let peak = second.last();
        assert(second.contains(peak)) by {
            assert(second[last] == peak);
        }
        assert(first.contains(peak)) by {
            assert(second.to_multiset().count(peak) > 0);
            assert(first.to_multiset().count(peak) > 0);
        }
        let seen = choose|seen: int| 0 <= seen < first.len() && first[seen] == peak;
        lemma_lt_irreflexive(top.bytes(buffer));
        lemma_lt_irreflexive(peak.bytes(buffer));
        assert(!top.lt(peak, buffer));
        assert forall|k: int| at <= k < second.len() implies (#[trigger] second[k]).bytes(buffer)
            == top.bytes(buffer) by {
            if k > at {
                lemma_lt_irreflexive(second[k].bytes(buffer));
                assert(second[at] == top);
                assert(!second[k].lt(second[at], buffer));
                assert(!peak.lt(second[k], buffer)) by {
                    if k < last {
                        assert(!second[last].lt(second[k], buffer));
                    }
                }
                assert(!top.lt(peak, buffer)) by {
                    if seen < last {
                        assert(!first[last].lt(first[seen], buffer));
                    }
                }
                lemma_le_transitive(
                    second[k].bytes(buffer),
                    peak.bytes(buffer),
                    top.bytes(buffer),
                );
                lemma_lt_connected(second[k].bytes(buffer), top.bytes(buffer));
            }
        }
        let one = contents(first, buffer);
        let two = contents(second, buffer);
        let one_rest = contents(first.drop_last(), buffer);
        let two_rest = contents(rest, buffer);
        assert(one.len() == two.len());
        assert forall|k: int| 0 <= k < one.len() implies one[k] == two[k] by {
            if k < last {
                assert(one[k] == one_rest[k]);
                assert(one_rest[k] == two_rest[k]);
                if k < at {
                    assert(rest[k] == second[k]);
                } else {
                    assert(rest[k] == second[k + 1]);
                    assert(second[k + 1].bytes(buffer) == top.bytes(buffer));
                    assert(second[k].bytes(buffer) == top.bytes(buffer));
                }
            } else {
                assert(second[k].bytes(buffer) == top.bytes(buffer));
            }
        }
        assert(one =~= two);
    }
}

} // verus!
