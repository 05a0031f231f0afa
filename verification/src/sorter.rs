//! The sorter of line records: it splits a range of views at a fixed offset,
//! sorts both parts, and merges them.

use vstd::prelude::*;
use vstd::slice::slice_subrange;
use vstd::utf8::valid_utf8;
use crate::insertion::{
    lemma_stable_sort_ascending, lemma_stable_sort_delimited_len, lemma_stable_sort_fits,
    lemma_stable_sort_len, lemma_stable_sort_permutes, sort_range, stable_sort,
};
use crate::lines::{
    delimited, delimited_len, lemma_delimited_len, lemma_delimited_len_concat,
    lemma_split_from_delimited, lemma_split_from_fits, split, split_records, write_back,
    written_back,
};
use crate::merging::{
    lemma_merge_ascending, lemma_merge_delimited_len, lemma_merge_fits, lemma_merge_len,
    lemma_merge_permutes, merge_records,
};
use crate::record::{all_fit, ascending, contents, lemma_ascending_contents_unique, RecordView};

verus! {

/// A range shorter than twice this many views is sorted without splitting; a
/// longer one is split this many views behind its first.
pub const SIZE_THRESHOLD: usize = 300;

/// The largest number of workers that a sorter asks for.
pub const MAX_WORKERS_COUNT: usize = 20;

/// One unit of sorting work: the inclusive range of views to sort, and whether
/// a pool of workers is attached to share the work.
#[derive(Clone, Copy, Debug, PartialEq, Eq, Structural)]
pub struct SortParams {
    pub min_pivot: usize,
    pub max_pivot: usize,
    pub pooled: bool,
}

/// The number of workers for a buffer of `size` bytes: one for every two whole
/// thresholds that fit into it, and never more than `MAX_WORKERS_COUNT`.
pub open spec fn workers_for(size: nat) -> nat {
    let wanted = (size / (SIZE_THRESHOLD as nat)) / 2;
    if wanted < MAX_WORKERS_COUNT {
        wanted
    } else {
        MAX_WORKERS_COUNT as nat
    }
}

/// Calls `std::str::from_utf8` and reports whether it accepted the bytes. The
/// contract claims that it accepts exactly the well-formed UTF-8 sequences.
#[verifier::external_body]
fn decodes(bytes: &[u8]) -> (ok: bool)
    ensures
        ok == valid_utf8(bytes@),
{
    std::str::from_utf8(bytes).is_ok()
}

impl SortParams {
    /// Where the range is split: `SIZE_THRESHOLD` views behind its first, when
    /// a pool is attached and the range holds at least twice the threshold.
    /// Otherwise the range is sorted as a whole.
    pub open spec fn split_at(self) -> Option<usize> {
        if self.pooled && self.max_pivot - self.min_pivot + 1 >= 2 * SIZE_THRESHOLD {
            Some((self.min_pivot + SIZE_THRESHOLD) as usize)
        } else {
            None
        }
    }

    /// Decides whether the range is split, and where. The views up to and
    /// including the returned one form the lower part.
    pub fn middle_pivot(&self) -> (middle: Option<usize>)
        requires
            self.min_pivot <= self.max_pivot,
        ensures
            middle == self.split_at(),
    {
        if self.pooled && self.max_pivot - self.min_pivot >= SIZE_THRESHOLD * 2 - 1 {
            Some(self.min_pivot + SIZE_THRESHOLD)
        } else {
            None
        }
    }
}

/// What sorting `views` leaves in their place. Without a pool, or below twice
/// the threshold, the views are sorted stably. Otherwise the first
/// `SIZE_THRESHOLD + 1` views and the rest are sorted each in the same way and
/// then merged.
pub open spec fn sort_outcome(views: Seq<RecordView>, buffer: Seq<u8>, pooled: bool) -> Seq<
    RecordView,
>
    decreases views.len(),
{
    if !pooled || views.len() < 2 * SIZE_THRESHOLD {
        stable_sort(views, buffer)
    } else {
        merge_records(
            sort_outcome(views.take(SIZE_THRESHOLD + 1), buffer, pooled),
            sort_outcome(views.skip(SIZE_THRESHOLD + 1), buffer, pooled),
            buffer,
        )
    }
}

/// Sorting keeps the number of views.
pub proof fn lemma_sort_outcome_len(views: Seq<RecordView>, buffer: Seq<u8>, pooled: bool)
    ensures
        sort_outcome(views, buffer, pooled).len() == views.len(),
    decreases views.len(),
{
    if !pooled || views.len() < 2 * SIZE_THRESHOLD {
        lemma_stable_sort_len(views, buffer);
    } else {
        let left = views.take(SIZE_THRESHOLD + 1);
        let right = views.skip(SIZE_THRESHOLD + 1);
        lemma_sort_outcome_len(left, buffer, pooled);
        lemma_sort_outcome_len(right, buffer, pooled);
        lemma_merge_len(
            sort_outcome(left, buffer, pooled),
            sort_outcome(right, buffer, pooled),
            buffer,
        );
    }
}

/// Sorting views that lie inside the buffer gives views that lie inside it.
pub proof fn lemma_sort_outcome_fits(views: Seq<RecordView>, buffer: Seq<u8>, pooled: bool)
    requires
        all_fit(views, buffer),
    ensures
        all_fit(sort_outcome(views, buffer, pooled), buffer),
    decreases views.len(),
{
    if !pooled || views.len() < 2 * SIZE_THRESHOLD {
        lemma_stable_sort_fits(views, buffer);
    } else {
        let left = views.take(SIZE_THRESHOLD + 1);
        let right = views.skip(SIZE_THRESHOLD + 1);
        lemma_sort_outcome_fits(left, buffer, pooled);
        lemma_sort_outcome_fits(right, buffer, pooled);
        lemma_merge_fits(
            sort_outcome(left, buffer, pooled),
            sort_outcome(right, buffer, pooled),
            buffer,
        );
    }
}

/// Sorting leaves the views in ascending order of their bytes, with a pool or
/// without one.
pub proof fn lemma_sort_outcome_ascending(views: Seq<RecordView>, buffer: Seq<u8>, pooled: bool)
    ensures
        ascending(sort_outcome(views, buffer, pooled), buffer),
    decreases views.len(),
{
    if !pooled || views.len() < 2 * SIZE_THRESHOLD {
        lemma_stable_sort_ascending(views, buffer);
    } else {
        let left = views.take(SIZE_THRESHOLD + 1);
        let right = views.skip(SIZE_THRESHOLD + 1);
        lemma_sort_outcome_ascending(left, buffer, pooled);
        lemma_sort_outcome_ascending(right, buffer, pooled);
        lemma_merge_ascending(
            sort_outcome(left, buffer, pooled),
            sort_outcome(right, buffer, pooled),
            buffer,
        );
    }
}

/// Sorting neither adds nor loses a view, with a pool or without one: each
/// view stands in the result as often as before.
pub proof fn lemma_sort_outcome_permutes(views: Seq<RecordView>, buffer: Seq<u8>, pooled: bool)
    ensures
        sort_outcome(views, buffer, pooled).to_multiset() == views.to_multiset(),
    decreases views.len(),
{
    if !pooled || views.len() < 2 * SIZE_THRESHOLD {
        lemma_stable_sort_permutes(views, buffer);
    } else {
        let left = views.take(SIZE_THRESHOLD + 1);
        let right = views.skip(SIZE_THRESHOLD + 1);
        lemma_sort_outcome_permutes(left, buffer, pooled);
        lemma_sort_outcome_permutes(right, buffer, pooled);
        lemma_merge_permutes(
            sort_outcome(left, buffer, pooled),
            sort_outcome(right, buffer, pooled),
            buffer,
        );
        vstd::seq_lib::lemma_multiset_commutative(left, right);
        assert(views =~= left + right);
    }
}

/// Sorting with a pool gives, position by position, the bytes that the plain
/// stable sort of the same views gives.
pub proof fn lemma_sort_outcome_matches_sequential(
    views: Seq<RecordView>,
    buffer: Seq<u8>,
    pooled: bool,
)
    ensures
        contents(sort_outcome(views, buffer, pooled), buffer) == contents(
            stable_sort(views, buffer),
            buffer,
        ),
{
    lemma_sort_outcome_ascending(views, buffer, pooled);
    lemma_sort_outcome_permutes(views, buffer, pooled);
    lemma_stable_sort_ascending(views, buffer);
    lemma_stable_sort_permutes(views, buffer);
    lemma_ascending_contents_unique(
        sort_outcome(views, buffer, pooled),
        stable_sort(views, buffer),
        buffer,
    );
}

/// Sorted views take as many bytes when written out as they took unsorted.
pub proof fn lemma_sort_outcome_delimited_len(
    views: Seq<RecordView>,
    buffer: Seq<u8>,
    pooled: bool,
)
    ensures
        delimited_len(sort_outcome(views, buffer, pooled)) == delimited_len(views),
    decreases views.len(),
{
    if !pooled || views.len() < 2 * SIZE_THRESHOLD {
        lemma_stable_sort_delimited_len(views, buffer);
    } else {
        let left = views.take(SIZE_THRESHOLD + 1);
        let right = views.skip(SIZE_THRESHOLD + 1);
        lemma_sort_outcome_delimited_len(left, buffer, pooled);
        lemma_sort_outcome_delimited_len(right, buffer, pooled);
        lemma_merge_delimited_len(
            sort_outcome(left, buffer, pooled),
            sort_outcome(right, buffer, pooled),
            buffer,
        );
        lemma_delimited_len_concat(left, right);
        assert(views =~= left + right);
    }
}

/// Sorting the records of a whole buffer and writing them back rewrites every
/// byte of it: the buffer then holds the sorted records with one delimiter
/// between each two, and nothing of what it held before is left over.
pub proof fn lemma_sorted_records_fill_buffer(buffer: Seq<u8>, pooled: bool)
    requires
        buffer.len() <= usize::MAX,
    ensures
        ({
            let sorted = sort_outcome(split_records(buffer), buffer, pooled);
            &&& delimited(sorted, buffer).len() == buffer.len() + 1
            &&& delimited(sorted, buffer).last() == crate::lines::DELIMITER
            &&& written_back(sorted, buffer) == delimited(sorted, buffer).drop_last()
        }),
{
    let records = split_records(buffer);
    let sorted = sort_outcome(records, buffer, pooled);
    lemma_split_from_fits(buffer, 0, 0);
    lemma_split_from_delimited(buffer, 0, 0);
    assert(buffer.skip(0) =~= buffer);
    lemma_delimited_len(records, buffer);
    lemma_sort_outcome_fits(records, buffer, pooled);
    lemma_sort_outcome_len(records, buffer, pooled);
    lemma_sort_outcome_delimited_len(records, buffer, pooled);
    lemma_delimited_len(sorted, buffer);
    let stream = delimited(sorted, buffer);
    assert(stream.take(buffer.len() as int) =~= stream.drop_last());
    lemma_delimited_ends_with_delimiter(sorted, buffer);
}

/// The delimited bytes of at least one view end with the delimiter.
proof fn lemma_delimited_ends_with_delimiter(views: Seq<RecordView>, buffer: Seq<u8>)
    requires
        views.len() > 0,
    ensures
        delimited(views, buffer).len() > 0,
        delimited(views, buffer).last() == crate::lines::DELIMITER,
    decreases views.len(),
{
    if views.len() > 1 {
        lemma_delimited_ends_with_delimiter(views.skip(1), buffer);
    } else {
        assert(views.skip(1) =~= Seq::<RecordView>::empty());
        assert(delimited(views.skip(1), buffer) =~= Seq::<u8>::empty());
    }
}

/// Overwrites the views of `array` from `min` on with those of `run`.
fn splice(array: &mut Vec<RecordView>, min: usize, run: &Vec<RecordView>)
    requires
        min + run.len() <= old(array).len(),
    ensures
        final(array)@ == old(array)@.take(min as int) + run@ + old(array)@.skip(min + run.len()),
{
    let ghost start = array@;
    let size = array.len();
    let mut done: usize = 0;
    while done < run.len()
        invariant
            done <= run.len(),
            min + run.len() <= start.len() == size,
            array@.len() == start.len(),
            forall|k: int| 0 <= k < min ==> array@[k] == start[k],
            forall|k: int| min <= k < min + done ==> array@[k] == run@[k - min],
            forall|k: int| min + done <= k < start.len() ==> array@[k] == start[k],
        decreases run.len() - done,
    {
        array.set(min + done, run[done]);
        done += 1;
    }
    assert(array@ =~= start.take(min as int) + run@ + start.skip(min + run.len()));
}

/// A buffer of text, the views of its records, and the number of workers that
/// its size calls for.
pub struct Sorter {
    buffer: Vec<u8>,
    workers_count: usize,
    array: Vec<RecordView>,
}

impl Sorter {
    /// The bytes of the buffer.
    pub closed spec fn bytes(&self) -> Seq<u8> {
        self.buffer@
    }

    /// The views of the records, in their current order.
    pub closed spec fn views(&self) -> Seq<RecordView> {
        self.array@
    }

    /// The number of workers that the buffer's size calls for.
    pub closed spec fn workers(&self) -> nat {
        self.workers_count as nat
    }

    /// A pool is attached when more than one worker is called for.
    pub open spec fn pooled(&self) -> bool {
        self.workers() > 1
    }

    /// There is at least one view, every view lies inside the buffer, and no
    /// more workers are called for than the limit allows.
    pub open spec fn wf(&self) -> bool {
        &&& self.views().len() >= 1
        &&& all_fit(self.views(), self.bytes())
        &&& self.workers() <= MAX_WORKERS_COUNT
    }

    /// Takes a buffer of UTF-8 text and cuts it into records at each newline.
    pub fn new(buffer: Vec<u8>) -> (sorter: Sorter)
        requires
            valid_utf8(buffer@),
        ensures
            sorter.wf(),
            sorter.bytes() == buffer@,
            sorter.views() == split_records(buffer@),
            sorter.workers() == workers_for(buffer@.len()),
    {
        let wanted = (buffer.len() / SIZE_THRESHOLD) / 2;
        let workers_count = if wanted < MAX_WORKERS_COUNT {
            wanted
        } else {
            MAX_WORKERS_COUNT
        };
        let array = split(buffer.as_slice());
        Sorter { buffer, workers_count, array }
    }

    /// As `new`, for bytes of which nothing is known: `None` when they are not
    /// UTF-8 text.
    pub fn try_new(buffer: Vec<u8>) -> (made: Option<Sorter>)
        ensures
            made.is_some() == valid_utf8(buffer@),
            made matches Some(sorter) ==> {
                &&& sorter.wf()
                &&& sorter.bytes() == buffer@
                &&& sorter.views() == split_records(buffer@)
                &&& sorter.workers() == workers_for(buffer@.len())
            },
    {
        if decodes(buffer.as_slice()) {
            Some(Sorter::new(buffer))
        } else {
            None
        }
    }

    /// Sorts the records and writes them back into the buffer. The views then
    /// stand in sorted order and still name the places that the records had
    /// before the buffer was rewritten.
    pub fn sort(&mut self)
        requires
            old(self).wf(),
        ensures
            final(self).wf(),
            final(self).workers() == old(self).workers(),
            final(self).views() == sort_outcome(
                old(self).views(),
                old(self).bytes(),
                old(self).pooled(),
            ),
            final(self).bytes() == written_back(final(self).views(), old(self).bytes()),
            ascending(final(self).views(), old(self).bytes()),
            final(self).views().to_multiset() == old(self).views().to_multiset(),
    {
        let params = SortParams {
            min_pivot: 0,
            max_pivot: self.array.len() - 1,
            pooled: self.workers_count > 1,
        };
        let ghost start = self.array@;
        proof {
            assert(start.subrange(0, start.len() as int) =~= start);
            lemma_sort_outcome_fits(start, self.buffer@, params.pooled);
            lemma_sort_outcome_len(start, self.buffer@, params.pooled);
            lemma_sort_outcome_ascending(start, self.buffer@, params.pooled);
            lemma_sort_outcome_permutes(start, self.buffer@, params.pooled);
        }
        Self::sort_task(self.buffer.as_slice(), &mut self.array, &params);
        assert(self.array@ =~= sort_outcome(start, self.buffer@, params.pooled));
        write_back(&mut self.buffer, &self.array);
    }

    /// The buffer.
    pub fn buffer(&self) -> (buffer: &Vec<u8>)
        ensures
            buffer@ == self.bytes(),
    {
        &self.buffer
    }

    /// Gives the buffer up.
    pub fn into_buffer(self) -> (buffer: Vec<u8>)
        ensures
            buffer@ == self.bytes(),
    {
        self.buffer
    }

    /// The views of the records, in their current order.
    pub fn array(&self) -> (array: &Vec<RecordView>)
        ensures
            array@ == self.views(),
    {
        &self.array
    }

    /// The shape of the pool to attach: the slots of its queue, two for each
    /// worker, and the number of its workers. `None` where one worker or none
    /// is called for: the sort then runs without a pool.
    pub fn pool_size(&self) -> (shape: Option<(usize, usize)>)
        requires
            self.wf(),
        ensures
            match shape {
                Some((slots, workers)) => {
                    &&& self.pooled()
                    &&& slots == 2 * self.workers()
                    &&& workers == self.workers()
                },
                None => !self.pooled(),
            },
    {
        if self.workers_count > 1 {
            Some((2 * self.workers_count, self.workers_count))
        } else {
            None
        }
    }

    /// The number of workers that the buffer's size calls for.
    pub fn workers_count(&self) -> (count: usize)
        ensures
            count == self.workers(),
    {
        self.workers_count
    }

    /// Sorts the views at `min_pivot..=max_pivot` of `array` by the bytes they
    /// name in `buffer`, and leaves the views outside that range where they are.
    pub fn sort_task(buffer: &[u8], array: &mut Vec<RecordView>, params: &SortParams)
        requires
            params.min_pivot <= params.max_pivot < old(array).len(),
            all_fit(old(array)@, buffer@),
        ensures
            final(array)@ == old(array)@.take(params.min_pivot as int) + sort_outcome(
                old(array)@.subrange(params.min_pivot as int, params.max_pivot + 1),
                buffer@,
                params.pooled,
            ) + old(array)@.skip(params.max_pivot + 1),
            final(array)@.len() == old(array)@.len(),
            forall|k: int|
                0 <= k < old(array)@.len() && !(params.min_pivot <= k <= params.max_pivot)
                    ==> final(array)@[k] == old(array)@[k],
            ascending(
                final(array)@.subrange(params.min_pivot as int, params.max_pivot + 1),
                buffer@,
            ),
            final(array)@.subrange(params.min_pivot as int, params.max_pivot + 1).to_multiset()
                == old(array)@.subrange(
                params.min_pivot as int,
                params.max_pivot + 1,
            ).to_multiset(),
            all_fit(final(array)@, buffer@),
        decreases params.max_pivot - params.min_pivot,
    {
        let min_pivot = params.min_pivot;
        let max_pivot = params.max_pivot;
        proof {
            let range = array@.subrange(min_pivot as int, max_pivot + 1);
            let sorted = sort_outcome(range, buffer@, params.pooled);
            lemma_sort_outcome_len(range, buffer@, params.pooled);
            lemma_sort_outcome_fits(range, buffer@, params.pooled);
            lemma_sort_outcome_ascending(range, buffer@, params.pooled);
            lemma_sort_outcome_permutes(range, buffer@, params.pooled);
            let whole = array@.take(min_pivot as int) + sorted + array@.skip(max_pivot + 1);
            assert(whole.subrange(min_pivot as int, max_pivot + 1) =~= sorted);
        }
        let middle_pivot = match params.middle_pivot() {
            Some(middle_pivot) => middle_pivot,
            None => {
                sort_range(buffer, array, min_pivot, max_pivot);
                return ;
            },
        };
        let ghost start = array@;
        let ghost range = start.subrange(min_pivot as int, max_pivot + 1);
        let ghost low = range.take(SIZE_THRESHOLD + 1);
        let ghost high = range.skip(SIZE_THRESHOLD + 1);
        let ghost low_sorted = sort_outcome(low, buffer@, params.pooled);
        let ghost high_sorted = sort_outcome(high, buffer@, params.pooled);
        let min_params = SortParams { min_pivot, max_pivot: middle_pivot, pooled: params.pooled };
        let max_params = SortParams {
            min_pivot: middle_pivot + 1,
            max_pivot,
            pooled: params.pooled,
        };
        proof {
            assert(start.subrange(min_pivot as int, middle_pivot + 1) =~= low);
            assert(start.subrange(middle_pivot + 1, max_pivot + 1) =~= high);
            assert(all_fit(low, buffer@));
            assert(all_fit(high, buffer@));
            lemma_sort_outcome_len(low, buffer@, params.pooled);
            lemma_sort_outcome_len(high, buffer@, params.pooled);
            lemma_sort_outcome_fits(low, buffer@, params.pooled);
            lemma_sort_outcome_fits(high, buffer@, params.pooled);
        }
        Self::sort_task(buffer, array, &min_params);
        proof {
            assert(array@.len() == start.len());
            assert(array@.subrange(middle_pivot + 1, max_pivot + 1) =~= high);
            assert(all_fit(array@, buffer@));
        }
        Self::sort_task(buffer, array, &max_params);
        proof {
            assert(array@.len() == start.len());
            assert(array@.subrange(min_pivot as int, middle_pivot + 1) =~= low_sorted);
            assert(array@.subrange(middle_pivot + 1, max_pivot + 1) =~= high_sorted);
        }
        let merged = {
            let whole = array.as_slice();
            let left = slice_subrange(whole, min_pivot, middle_pivot + 1);
            let right = slice_subrange(whole, middle_pivot + 1, max_pivot + 1);
            Self::merge(buffer, left, right)
        };
        proof {
            lemma_merge_len(low_sorted, high_sorted, buffer@);
        }
        let ghost sorted_halves = array@;
        splice(array, min_pivot, &merged);
        proof {
            assert(sorted_halves.take(min_pivot as int) =~= start.take(min_pivot as int));
            assert(sorted_halves.skip(max_pivot + 1) =~= start.skip(max_pivot + 1));
        }
    }

    /// Merges two runs of views: the left head is emitted when it sorts strictly
    /// before the right head, the right head otherwise.
    pub fn merge(buffer: &[u8], left: &[RecordView], right: &[RecordView]) -> (target: Vec<
        RecordView,
    >)
        requires
            all_fit(left@, buffer@),
            all_fit(right@, buffer@),
        ensures
            target@ == merge_records(left@, right@, buffer@),
            target@.len() == left@.len() + right@.len(),
            target@.to_multiset() == left@.to_multiset().add(right@.to_multiset()),
            ascending(left@, buffer@) && ascending(right@, buffer@) ==> ascending(
                target@,
                buffer@,
            ),
            all_fit(target@, buffer@),
    {
        proof {
            lemma_merge_len(left@, right@, buffer@);
            lemma_merge_permutes(left@, right@, buffer@);
            lemma_merge_fits(left@, right@, buffer@);
            if ascending(left@, buffer@) && ascending(right@, buffer@) {
                lemma_merge_ascending(left@, right@, buffer@);
            }
        }
        let mut target: Vec<RecordView> = Vec::new();
        let mut left_pivot: usize = 0;
        let mut right_pivot: usize = 0;
        proof {
            assert(left@.skip(0) =~= left@);
            assert(right@.skip(0) =~= right@);
            assert(target@ + merge_records(left@, right@, buffer@) =~= merge_records(
                left@,
                right@,
                buffer@,
            ));
        }
        while left_pivot < left.len() && right_pivot < right.len()
            invariant
                left_pivot <= left.len(),
                right_pivot <= right.len(),
                all_fit(left@, buffer@),
                all_fit(right@, buffer@),
                merge_records(left@, right@, buffer@) == target@ + merge_records(
                    left@.skip(left_pivot as int),
                    right@.skip(right_pivot as int),
                    buffer@,
                ),
            decreases left.len() - left_pivot + right.len() - right_pivot,
        {
            let left_view = left[left_pivot];
            let right_view = right[right_pivot];
            let ghost rest_left = left@.skip(left_pivot as int);
            let ghost rest_right = right@.skip(right_pivot as int);
            let ghost before = target@;
            assert(rest_left[0] == left_view && rest_right[0] == right_view);
            if left_view.precedes(&right_view, buffer) {
                target.push(left_view);
                left_pivot += 1;
                assert(rest_left.skip(1) =~= left@.skip(left_pivot as int));
                assert(before + (seq![left_view] + merge_records(
                    rest_left.skip(1),
                    rest_right,
                    buffer@,
                )) =~= target@ + merge_records(rest_left.skip(1), rest_right, buffer@));
            } else {
                target.push(right_view);
                right_pivot += 1;
                assert(rest_right.skip(1) =~= right@.skip(right_pivot as int));
                assert(before + (seq![right_view] + merge_records(
                    rest_left,
                    rest_right.skip(1),
                    buffer@,
                )) =~= target@ + merge_records(rest_left, rest_right.skip(1), buffer@));
            }
        }
        assert(merge_records(left@, right@, buffer@) =~= target@ + left@.skip(left_pivot as int)
            + right@.skip(right_pivot as int));
        while left_pivot < left.len()
            invariant
                left_pivot <= left.len(),
                merge_records(left@, right@, buffer@) =~= target@ + left@.skip(left_pivot as int)
                    + right@.skip(right_pivot as int),
            decreases left.len() - left_pivot,
        {
            target.push(left[left_pivot]);
            left_pivot += 1;
        }
        while right_pivot < right.len()
            invariant
                left_pivot == left.len(),
                right_pivot <= right.len(),
                merge_records(left@, right@, buffer@) =~= target@ + left@.skip(left_pivot as int)
                    + right@.skip(right_pivot as int),
            decreases right.len() - right_pivot,
        {
            target.push(right[right_pivot]);
            right_pivot += 1;
        }
        assert(merge_records(left@, right@, buffer@) =~= target@);
        target
    }
}

} // verus!
