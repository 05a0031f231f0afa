//! The stable in-place sort that finishes a range of record views.

use vstd::prelude::*;
use crate::lines::{delimited_len, lemma_delimited_len_concat};
use crate::order::{lemma_le_transitive, lemma_lt_asymmetric, lemma_lt_irreflexive};
use crate::record::{
    all_fit, ascending, bounded_above, lemma_push_ascending, names, RecordView,
};

verus! {

/// `run` with `view` put behind the last view that it does not sort strictly
/// before: among views with equal bytes, the newcomer goes last.
pub open spec fn insert_record(run: Seq<RecordView>, view: RecordView, buffer: Seq<u8>) -> Seq<
    RecordView,
>
    decreases run.len(),
{
    if run.len() == 0 || !view.lt(run.last(), buffer) {
        run.push(view)
    } else {
        insert_record(run.drop_last(), view, buffer).push(run.last())
    }
}

/// The views of `views` in ascending order of their bytes; views with equal
/// bytes keep the order in which `views` holds them.
pub open spec fn stable_sort(views: Seq<RecordView>, buffer: Seq<u8>) -> Seq<RecordView>
    decreases views.len(),
{
    if views.len() == 0 {
        views
    } else {
        insert_record(stable_sort(views.drop_last(), buffer), views.last(), buffer)
    }
}

/// Inserting adds one view.
pub proof fn lemma_insert_len(run: Seq<RecordView>, view: RecordView, buffer: Seq<u8>)
    ensures
        insert_record(run, view, buffer).len() == run.len() + 1,
    decreases run.len(),
{
    if run.len() != 0 && view.lt(run.last(), buffer) {
        lemma_insert_len(run.drop_last(), view, buffer);
    }
}

/// Sorting keeps the number of views.
pub proof fn lemma_stable_sort_len(views: Seq<RecordView>, buffer: Seq<u8>)
    ensures
        stable_sort(views, buffer).len() == views.len(),
    decreases views.len(),
{
    if views.len() != 0 {
        lemma_stable_sort_len(views.drop_last(), buffer);
        lemma_insert_len(stable_sort(views.drop_last(), buffer), views.last(), buffer);
    }
}

/// Sorting views that lie inside the buffer gives views that lie inside it.
pub proof fn lemma_stable_sort_fits(views: Seq<RecordView>, buffer: Seq<u8>)
    requires
        all_fit(views, buffer),
    ensures
        all_fit(stable_sort(views, buffer), buffer),
    decreases views.len(),
{
    if views.len() != 0 {
        lemma_stable_sort_fits(views.drop_last(), buffer);
        lemma_insert_fits(stable_sort(views.drop_last(), buffer), views.last(), buffer);
    }
}

/// Inserting a view that lies inside the buffer into a run that does keeps the
/// run inside it.
pub proof fn lemma_insert_fits(run: Seq<RecordView>, view: RecordView, buffer: Seq<u8>)
    requires
        all_fit(run, buffer),
        view.fits(buffer),
    ensures
        all_fit(insert_record(run, view, buffer), buffer),
    decreases run.len(),
{
    if run.len() != 0 && view.lt(run.last(), buffer) {
        lemma_insert_fits(run.drop_last(), view, buffer);
    }
}

/// A view that bounds a run and the newcomer from above bounds the run with
/// the newcomer inserted.
pub proof fn lemma_insert_bounded_above(
    run: Seq<RecordView>,
    view: RecordView,
    ceiling: RecordView,
    buffer: Seq<u8>,
)
    requires
        bounded_above(run, ceiling, buffer),
        !ceiling.lt(view, buffer),
    ensures
        bounded_above(insert_record(run, view, buffer), ceiling, buffer),
    decreases run.len(),
{
    if run.len() != 0 && view.lt(run.last(), buffer) {
        let shorter = run.drop_last();
        assert forall|k: int| 0 <= k < shorter.len() implies !ceiling.lt(
            #[trigger] shorter[k],
            buffer,
        ) by {
            assert(shorter[k] == run[k]);
        }
        lemma_insert_bounded_above(shorter, view, ceiling, buffer);
        lemma_insert_len(shorter, view, buffer);
        assert(!ceiling.lt(run[run.len() - 1], buffer));
    }
}

/// Inserting into an ascending run gives an ascending run.
pub proof fn lemma_insert_ascending(run: Seq<RecordView>, view: RecordView, buffer: Seq<u8>)
    requires
        ascending(run, buffer),
    ensures
        ascending(insert_record(run, view, buffer), buffer),
    decreases run.len(),
{
    if run.len() == 0 {
        lemma_push_ascending(run, view, buffer);
    } else {
        let last = run.len() - 1;
        let top = run.last();
        let shorter = run.drop_last();
        lemma_lt_irreflexive(top.bytes(buffer));
        assert(bounded_above(shorter, top, buffer)) by {
            assert forall|k: int| 0 <= k < shorter.len() implies !top.lt(
                #[trigger] shorter[k],
                buffer,
            ) by {
                assert(!run[last].lt(run[k], buffer));
            }
        }
        assert(ascending(shorter, buffer)) by {
            assert forall|i: int, j: int| 0 <= i < j < shorter.len() implies !shorter[j].lt(
                shorter[i],
                buffer,
            ) by {
                assert(!run[j].lt(run[i], buffer));
            }
        }
        if !view.lt(top, buffer) {
            assert(bounded_above(run, view, buffer)) by {
                assert forall|k: int| 0 <= k < run.len() implies !view.lt(
                    #[trigger] run[k],
                    buffer,
                ) by {
                    if k < last {
                        assert(!run[last].lt(run[k], buffer));
                        lemma_le_transitive(
                            run[k].bytes(buffer),
                            top.bytes(buffer),
                            view.bytes(buffer),
                        );
                    }
                }
            }
            lemma_push_ascending(run, view, buffer);
        } else {
            lemma_insert_ascending(shorter, view, buffer);
            lemma_lt_asymmetric(view.bytes(buffer), top.bytes(buffer));
            lemma_insert_bounded_above(shorter, view, top, buffer);
            lemma_push_ascending(insert_record(shorter, view, buffer), top, buffer);
        }
    }
}

/// Inserting adds the newcomer to the views of the run and changes nothing else.
pub proof fn lemma_insert_permutes(run: Seq<RecordView>, view: RecordView, buffer: Seq<u8>)
    ensures
        insert_record(run, view, buffer).to_multiset() == run.to_multiset().insert(view),
    decreases run.len(),
{
    broadcast use vstd::seq_lib::group_to_multiset_ensures;

    if run.len() != 0 && view.lt(run.last(), buffer) {
        let shorter = run.drop_last();
        lemma_insert_permutes(shorter, view, buffer);
        assert(run =~= shorter.push(run.last()));
        assert(insert_record(run, view, buffer).to_multiset() =~= shorter.to_multiset().insert(
            view,
        ).insert(run.last()));
        assert(run.to_multiset() =~= shorter.to_multiset().insert(run.last()));
        assert(insert_record(run, view, buffer).to_multiset() =~= run.to_multiset().insert(view));
    }
}

/// The sorted views stand in ascending order.
pub proof fn lemma_stable_sort_ascending(views: Seq<RecordView>, buffer: Seq<u8>)
    ensures
        ascending(stable_sort(views, buffer), buffer),
    decreases views.len(),
{
    if views.len() != 0 {
        lemma_stable_sort_ascending(views.drop_last(), buffer);
        lemma_insert_ascending(stable_sort(views.drop_last(), buffer), views.last(), buffer);
    }
}

/// Sorting neither adds nor loses a view: each stands in the result as often
/// as before.
pub proof fn lemma_stable_sort_permutes(views: Seq<RecordView>, buffer: Seq<u8>)
    ensures
        stable_sort(views, buffer).to_multiset() == views.to_multiset(),
    decreases views.len(),
{
    broadcast use vstd::seq_lib::group_to_multiset_ensures;

    if views.len() != 0 {
        let shorter = views.drop_last();
        lemma_stable_sort_permutes(shorter, buffer);
        lemma_insert_permutes(stable_sort(shorter, buffer), views.last(), buffer);
        assert(views =~= shorter.push(views.last()));
        assert(views.to_multiset() =~= shorter.to_multiset().insert(views.last()));
    }
}

/// Inserting a view adds its bytes and one delimiter to what the run takes
/// when written out.
pub proof fn lemma_insert_delimited_len(run: Seq<RecordView>, view: RecordView, buffer: Seq<u8>)
    ensures
        delimited_len(insert_record(run, view, buffer)) == delimited_len(run) + view.length + 1,
    decreases run.len(),
{
    assert(delimited_len(seq![view]) == view.length + 1) by {
        assert(seq![view].skip(1) =~= Seq::<RecordView>::empty());
        assert(delimited_len(seq![view].skip(1)) == 0);
    }
    if run.len() == 0 || !view.lt(run.last(), buffer) {
        lemma_delimited_len_concat(run, seq![view]);
        assert(run.push(view) =~= run + seq![view]);
    } else {
        let shorter = run.drop_last();
        let top = run.last();
        let grown = insert_record(shorter, view, buffer);
        lemma_insert_delimited_len(shorter, view, buffer);
        lemma_delimited_len_concat(grown, seq![top]);
        lemma_delimited_len_concat(shorter, seq![top]);
        assert(grown.push(top) =~= grown + seq![top]);
        assert(run =~= shorter + seq![top]);
        assert(delimited_len(seq![top]) == top.length + 1) by {
            assert(seq![top].skip(1) =~= Seq::<RecordView>::empty());
            assert(delimited_len(seq![top].skip(1)) == 0);
        }
    }
}

/// Sorted views take as many bytes when written out as they took unsorted.
pub proof fn lemma_stable_sort_delimited_len(views: Seq<RecordView>, buffer: Seq<u8>)
    ensures
        delimited_len(stable_sort(views, buffer)) == delimited_len(views),
    decreases views.len(),
{
    if views.len() != 0 {
        let shorter = views.drop_last();
        let top = views.last();
        lemma_stable_sort_delimited_len(shorter, buffer);
        lemma_insert_delimited_len(stable_sort(shorter, buffer), top, buffer);
        lemma_delimited_len_concat(shorter, seq![top]);
        assert(views =~= shorter + seq![top]);
        assert(delimited_len(seq![top]) == top.length + 1) by {
            assert(seq![top].skip(1) =~= Seq::<RecordView>::empty());
            assert(delimited_len(seq![top].skip(1)) == 0);
        }
    }
}

/// Inserting puts the newcomer behind every view of the run that names the
/// same bytes, and moves no two views of the run past each other.
pub proof fn lemma_insert_keeps_ties(
    run: Seq<RecordView>,
    view: RecordView,
    buffer: Seq<u8>,
    key: Seq<u8>,
)
    ensures
        insert_record(run, view, buffer).filter(names(buffer, key)) == if view.bytes(buffer)
            == key {
            run.filter(names(buffer, key)).push(view)
        } else {
            run.filter(names(buffer, key))
        },
    decreases run.len(),
{
    reveal(Seq::filter);
    let pick = names(buffer, key);
    if run.len() == 0 || !view.lt(run.last(), buffer) {
        assert(run.push(view).drop_last() =~= run);
    } else {
        let shorter = run.drop_last();
        let top = run.last();
        let grown = insert_record(shorter, view, buffer);
        lemma_insert_keeps_ties(shorter, view, buffer, key);
        lemma_lt_irreflexive(key);
        assert(grown.push(top).drop_last() =~= grown);
        assert(!(pick(view) && pick(top)));
    }
}

/// The sort is stable: the views that name the same bytes stand in the result
/// in the order in which they stood before.
pub proof fn lemma_stable_sort_keeps_ties(views: Seq<RecordView>, buffer: Seq<u8>, key: Seq<u8>)
    ensures
        stable_sort(views, buffer).filter(names(buffer, key)) == views.filter(names(buffer, key)),
    decreases views.len(),
{
    reveal(Seq::filter);
    if views.len() != 0 {
        lemma_stable_sort_keeps_ties(views.drop_last(), buffer, key);
        lemma_insert_keeps_ties(stable_sort(views.drop_last(), buffer), views.last(), buffer, key);
    }
}

/// Inserting behind a run whose tail sorts strictly after `view` is inserting
/// into the run without that tail, and putting the tail back.
proof fn lemma_insert_past_tail(run: Seq<RecordView>, view: RecordView, buffer: Seq<u8>, cut: int)
    requires
        0 <= cut <= run.len(),
        forall|k: int| cut <= k < run.len() ==> view.lt(#[trigger] run[k], buffer),
    ensures
        insert_record(run, view, buffer) == insert_record(run.take(cut), view, buffer) + run.skip(
            cut,
        ),
    decreases run.len() - cut,
{
    if cut == run.len() {
        assert(run.take(cut) =~= run);
        assert(insert_record(run, view, buffer) + run.skip(cut) =~= insert_record(
            run,
            view,
            buffer,
        ));
    } else {
        let shorter = run.drop_last();
        lemma_insert_past_tail(shorter, view, buffer, cut);
        assert(shorter.take(cut) =~= run.take(cut));
        assert((insert_record(run.take(cut), view, buffer) + shorter.skip(cut)).push(run.last())
            =~= insert_record(run.take(cut), view, buffer) + run.skip(cut));
    }
}

/// Sorts the views at `min..=max` of `array` in place and leaves the others alone.
pub fn sort_range(buffer: &[u8], array: &mut Vec<RecordView>, min: usize, max: usize)
    requires
        min <= max < old(array).len(),
        all_fit(old(array)@, buffer@),
    ensures
        final(array)@ == old(array)@.take(min as int) + stable_sort(
            old(array)@.subrange(min as int, max + 1),
            buffer@,
        ) + old(array)@.skip(max + 1),
{
    let ghost start = array@;
    let size = array.len();
    let mut next: usize = min;
    assert(start.subrange(min as int, min as int) =~= Seq::<RecordView>::empty());
    while next <= max
        invariant
            min <= next <= max + 1,
            max < size == start.len(),
            array@.len() == start.len(),
            all_fit(start, buffer@),
            all_fit(array@, buffer@),
            forall|k: int| 0 <= k < min ==> array@[k] == start[k],
            forall|k: int| next <= k < start.len() ==> array@[k] == start[k],
            array@.subrange(min as int, next as int) == stable_sort(
                start.subrange(min as int, next as int),
                buffer@,
            ),
        decreases max + 1 - next,
    {
        let view = array[next];
        let ghost run = array@.subrange(min as int, next as int);
        let mut slot: usize = next;
        while slot > min && view.precedes(&array[slot - 1], buffer)
            invariant
                min <= slot <= next,
                next <= max < start.len(),
                array@.len() == start.len(),
                run.len() == next - min,
                view.fits(buffer@),
                view == start[next as int],
                all_fit(start, buffer@),
                all_fit(array@, buffer@),
                forall|k: int| 0 <= k < min ==> array@[k] == start[k],
                forall|k: int| next < k < start.len() ==> array@[k] == start[k],
                forall|k: int| min <= k < slot ==> array@[k] == run[k - min],
                forall|k: int| slot < k <= next ==> array@[k] == run[k - 1 - min],
                forall|k: int| slot - min <= k < run.len() ==> view.lt(#[trigger] run[k], buffer@),
            decreases slot,
        {
            let moved = array[slot - 1];
            array.set(slot, moved);
            slot -= 1;
        }
        array.set(slot, view);
        proof {
            let cut = slot - min;
            let grown = start.subrange(min as int, next + 1);
            assert(grown.drop_last() =~= start.subrange(min as int, next as int));
            assert(grown.last() == view);
            lemma_insert_past_tail(run, view, buffer@, cut);
            assert(insert_record(run.take(cut), view, buffer@) == run.take(cut).push(view)) by {
                if cut > 0 {
                    assert(run.take(cut).last() == run[cut - 1]);
                    assert(array@[slot - 1] == run[cut - 1]);
                }
            }
            assert(array@.subrange(min as int, next + 1) =~= run.take(cut).push(view) + run.skip(
                cut,
            ));
        }
        next += 1;
    }
    proof {
        assert(array@ =~= start.take(min as int) + array@.subrange(min as int, max + 1)
            + start.skip(max + 1));
    }
}

} // verus!
