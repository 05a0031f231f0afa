//! The two-pointer merge of two runs of record views.

use vstd::prelude::*;
use crate::lines::delimited_len;
use crate::order::{
    lemma_le_transitive, lemma_lt_asymmetric, lemma_lt_irreflexive, lemma_lt_le_transitive,
};
use crate::record::{all_fit, ascending, bounded_below, lemma_prepend_ascending, RecordView};

verus! {

/// The merge of two runs. The walk looks at the heads of both: the left head
/// leaves only when it sorts strictly before the right head, so on a tie the
/// right head leaves first.
pub open spec fn merge_records(
    left: Seq<RecordView>,
    right: Seq<RecordView>,
    buffer: Seq<u8>,
) -> Seq<RecordView>
    decreases left.len() + right.len(),
{
    if left.len() == 0 {
        right
    } else if right.len() == 0 {
        left
    } else if left[0].lt(right[0], buffer) {
        seq![left[0]] + merge_records(left.skip(1), right, buffer)
    } else {
        seq![right[0]] + merge_records(left, right.skip(1), buffer)
    }
}

/// Where the merge puts the left run's view number `i`.
pub open spec fn left_position(
    left: Seq<RecordView>,
    right: Seq<RecordView>,
    buffer: Seq<u8>,
    i: int,
) -> int
    decreases left.len() + right.len(),
{
    if left.len() == 0 || right.len() == 0 {
        i
    } else if left[0].lt(right[0], buffer) {
        if i == 0 {
            0
        } else {
            1 + left_position(left.skip(1), right, buffer, i - 1)
        }
    } else {
        1 + left_position(left, right.skip(1), buffer, i)
    }
}

/// Where the merge puts the right run's view number `j`.
pub open spec fn right_position(
    left: Seq<RecordView>,
    right: Seq<RecordView>,
    buffer: Seq<u8>,
    j: int,
) -> int
    decreases left.len() + right.len(),
{
    if left.len() == 0 || right.len() == 0 {
        j
    } else if left[0].lt(right[0], buffer) {
        1 + right_position(left.skip(1), right, buffer, j)
    } else {
        if j == 0 {
            0
        } else {
            1 + right_position(left, right.skip(1), buffer, j - 1)
        }
    }
}

/// The merge holds as many views as both runs together.
pub proof fn lemma_merge_len(left: Seq<RecordView>, right: Seq<RecordView>, buffer: Seq<u8>)
    ensures
        merge_records(left, right, buffer).len() == left.len() + right.len(),
    decreases left.len() + right.len(),
{
    if left.len() != 0 && right.len() != 0 {
        if left[0].lt(right[0], buffer) {
            lemma_merge_len(left.skip(1), right, buffer);
        } else {
            lemma_merge_len(left, right.skip(1), buffer);
        }
    }
}

/// The merge of two runs that lie inside the buffer lies inside it.
pub proof fn lemma_merge_fits(left: Seq<RecordView>, right: Seq<RecordView>, buffer: Seq<u8>)
    requires
        all_fit(left, buffer),
        all_fit(right, buffer),
    ensures
        all_fit(merge_records(left, right, buffer), buffer),
    decreases left.len() + right.len(),
{
    if left.len() != 0 && right.len() != 0 {
        if left[0].lt(right[0], buffer) {
            lemma_merge_fits(left.skip(1), right, buffer);
        } else {
            lemma_merge_fits(left, right.skip(1), buffer);
        }
    }
}

/// A view that bounds both runs from below bounds their merge.
pub proof fn lemma_merge_bounded_below(
    left: Seq<RecordView>,
    right: Seq<RecordView>,
    floor: RecordView,
    buffer: Seq<u8>,
)
    requires
        bounded_below(left, floor, buffer),
        bounded_below(right, floor, buffer),
    ensures
        bounded_below(merge_records(left, right, buffer), floor, buffer),
    decreases left.len() + right.len(),
{
    if left.len() != 0 && right.len() != 0 {
        if left[0].lt(right[0], buffer) {
            let rest = left.skip(1);
            assert forall|k: int| 0 <= k < rest.len() implies !(#[trigger] rest[k]).lt(
                floor,
                buffer,
            ) by {
                assert(rest[k] == left[k + 1]);
            }
            lemma_merge_bounded_below(rest, right, floor, buffer);
            assert(!left[0].lt(floor, buffer));
        } else {
            let rest = right.skip(1);
            assert forall|k: int| 0 <= k < rest.len() implies !(#[trigger] rest[k]).lt(
                floor,
                buffer,
            ) by {
                assert(rest[k] == right[k + 1]);
            }
            lemma_merge_bounded_below(left, rest, floor, buffer);
            assert(!right[0].lt(floor, buffer));
        }
    }
}

/// The views behind the first of an ascending run are ascending, and the
/// first bounds them from below.
proof fn lemma_ascending_tail(run: Seq<RecordView>, buffer: Seq<u8>)
    requires
        ascending(run, buffer),
        run.len() > 0,
    ensures
        ascending(run.skip(1), buffer),
        bounded_below(run.skip(1), run[0], buffer),
{
    let rest = run.skip(1);
    assert forall|i: int, j: int| 0 <= i < j < rest.len() implies !rest[j].lt(rest[i], buffer) by {
        assert(!run[j + 1].lt(run[i + 1], buffer));
    }
    assert forall|k: int| 0 <= k < rest.len() implies !(#[trigger] rest[k]).lt(run[0], buffer) by {
        assert(!run[k + 1].lt(run[0], buffer));
    }
}

/// The merge of two ascending runs is ascending.
pub proof fn lemma_merge_ascending(left: Seq<RecordView>, right: Seq<RecordView>, buffer: Seq<u8>)
    requires
        ascending(left, buffer),
        ascending(right, buffer),
    ensures
        ascending(merge_records(left, right, buffer), buffer),
    decreases left.len() + right.len(),
{
    if left.len() != 0 && right.len() != 0 {
        lemma_ascending_tail(left, buffer);
        lemma_ascending_tail(right, buffer);
        if left[0].lt(right[0], buffer) {
            let head = left[0];
            lemma_merge_ascending(left.skip(1), right, buffer);
            assert forall|k: int| 0 <= k < right.len() implies !(#[trigger] right[k]).lt(
                head,
                buffer,
            ) by {
                if k > 0 {
                    assert(!right[k].lt(right[0], buffer));
                }
                lemma_lt_irreflexive(right[0].bytes(buffer));
                lemma_lt_le_transitive(
                    head.bytes(buffer),
                    right[0].bytes(buffer),
                    right[k].bytes(buffer),
                );
                lemma_lt_asymmetric(head.bytes(buffer), right[k].bytes(buffer));
            }
            lemma_merge_bounded_below(left.skip(1), right, head, buffer);
            lemma_prepend_ascending(head, merge_records(left.skip(1), right, buffer), buffer);
        } else {
            let head = right[0];
            lemma_merge_ascending(left, right.skip(1), buffer);
            assert forall|k: int| 0 <= k < left.len() implies !(#[trigger] left[k]).lt(
                head,
                buffer,
            ) by {
                if k > 0 {
                    assert(!left[k].lt(left[0], buffer));
                    lemma_le_transitive(
                        head.bytes(buffer),
                        left[0].bytes(buffer),
                        left[k].bytes(buffer),
                    );
                }
            }
            lemma_merge_bounded_below(left, right.skip(1), head, buffer);
            lemma_prepend_ascending(head, merge_records(left, right.skip(1), buffer), buffer);
        }
    }
}

/// The merge holds the views of both runs, each as often as both runs together
/// hold it.
pub proof fn lemma_merge_permutes(left: Seq<RecordView>, right: Seq<RecordView>, buffer: Seq<u8>)
    ensures
        merge_records(left, right, buffer).to_multiset() == left.to_multiset().add(
            right.to_multiset(),
        ),
    decreases left.len() + right.len(),
{
    broadcast use vstd::seq_lib::group_to_multiset_ensures;

    if left.len() == 0 {
        assert(left.to_multiset() =~= vstd::multiset::Multiset::empty());
        assert(right.to_multiset() =~= left.to_multiset().add(right.to_multiset()));
    } else if right.len() == 0 {
        assert(right.to_multiset() =~= vstd::multiset::Multiset::empty());
        assert(left.to_multiset() =~= left.to_multiset().add(right.to_multiset()));
    } else if left[0].lt(right[0], buffer) {
        let rest = left.skip(1);
        let merged = merge_records(rest, right, buffer);
        lemma_merge_permutes(rest, right, buffer);
        vstd::seq_lib::lemma_multiset_commutative(seq![left[0]], merged);
        vstd::seq_lib::lemma_multiset_commutative(seq![left[0]], rest);
        assert(left =~= seq![left[0]] + rest);
        assert(merge_records(left, right, buffer).to_multiset() =~= left.to_multiset().add(
            right.to_multiset(),
        ));
    } else {
        let rest = right.skip(1);
        let merged = merge_records(left, rest, buffer);
        lemma_merge_permutes(left, rest, buffer);
        vstd::seq_lib::lemma_multiset_commutative(seq![right[0]], merged);
        vstd::seq_lib::lemma_multiset_commutative(seq![right[0]], rest);
        assert(right =~= seq![right[0]] + rest);
        assert(merge_records(left, right, buffer).to_multiset() =~= left.to_multiset().add(
            right.to_multiset(),
        ));
    }
}

/// The merge holds the left run's view number `i` at `left_position`.
pub proof fn lemma_left_position(
    left: Seq<RecordView>,
    right: Seq<RecordView>,
    buffer: Seq<u8>,
    i: int,
)
    requires
        0 <= i < left.len(),
    ensures
        0 <= left_position(left, right, buffer, i) < left.len() + right.len(),
        merge_records(left, right, buffer).len() == left.len() + right.len(),
        merge_records(left, right, buffer)[left_position(left, right, buffer, i)] == left[i],
    decreases left.len() + right.len(),
{
    lemma_merge_len(left, right, buffer);
    if right.len() != 0 {
        if left[0].lt(right[0], buffer) {
            if i != 0 {
                lemma_left_position(left.skip(1), right, buffer, i - 1);
            }
        } else {
            lemma_left_position(left, right.skip(1), buffer, i);
        }
    }
}

/// The merge holds the right run's view number `j` at `right_position`.
pub proof fn lemma_right_position(
    left: Seq<RecordView>,
    right: Seq<RecordView>,
    buffer: Seq<u8>,
    j: int,
)
    requires
        0 <= j < right.len(),
    ensures
        0 <= right_position(left, right, buffer, j) < left.len() + right.len(),
        merge_records(left, right, buffer).len() == left.len() + right.len(),
        merge_records(left, right, buffer)[right_position(left, right, buffer, j)] == right[j],
    decreases left.len() + right.len(),
{
    lemma_merge_len(left, right, buffer);
    if left.len() != 0 {
        if left[0].lt(right[0], buffer) {
            lemma_right_position(left.skip(1), right, buffer, j);
        } else {
            if j != 0 {
                lemma_right_position(left, right.skip(1), buffer, j - 1);
            }
        }
    }
}

/// Ties go to the right run. Where a view of the left run does not sort
/// strictly before a view of the right run, as when both name equal bytes, the
/// merge of two ascending runs emits the right one first.
pub proof fn lemma_merge_prefers_right(
    left: Seq<RecordView>,
    right: Seq<RecordView>,
    buffer: Seq<u8>,
    i: int,
    j: int,
)
    requires
        ascending(left, buffer),
        ascending(right, buffer),
        0 <= i < left.len(),
        0 <= j < right.len(),
        !left[i].lt(right[j], buffer),
    ensures
        right_position(left, right, buffer, j) < left_position(left, right, buffer, i),
    decreases left.len() + right.len(),
{
    lemma_ascending_tail(left, buffer);
    lemma_ascending_tail(right, buffer);
    if left[0].lt(right[0], buffer) {
        if i == 0 {
            if j > 0 {
                assert(!right[j].lt(right[0], buffer));
            }
            lemma_lt_irreflexive(right[0].bytes(buffer));
            lemma_lt_le_transitive(
                left[0].bytes(buffer),
                right[0].bytes(buffer),
                right[j].bytes(buffer),
            );
        } else {
            lemma_merge_prefers_right(left.skip(1), right, buffer, i - 1, j);
        }
    } else {
        if j == 0 {
            lemma_left_position(left, right.skip(1), buffer, i);
        } else {
            lemma_merge_prefers_right(left, right.skip(1), buffer, i, j - 1);
        }
    }
}

/// The merge takes as many bytes when written out as both runs together.
pub proof fn lemma_merge_delimited_len(
    left: Seq<RecordView>,
    right: Seq<RecordView>,
    buffer: Seq<u8>,
)
    ensures
        delimited_len(merge_records(left, right, buffer)) == delimited_len(left) + delimited_len(
            right,
        ),
    decreases left.len() + right.len(),
{
    if left.len() != 0 && right.len() != 0 {
        if left[0].lt(right[0], buffer) {
            let rest = merge_records(left.skip(1), right, buffer);
            lemma_merge_delimited_len(left.skip(1), right, buffer);
            assert((seq![left[0]] + rest).skip(1) =~= rest);
        } else {
            let rest = merge_records(left, right.skip(1), buffer);
            lemma_merge_delimited_len(left, right.skip(1), buffer);
            assert((seq![right[0]] + rest).skip(1) =~= rest);
        }
    }
}

} // verus!
