//! Cutting a buffer into records at the delimiter, and writing records back.

use vstd::prelude::*;
use crate::record::{all_fit, RecordView};

verus! {

/// The byte that ends a record.
pub const DELIMITER: u8 = 10;

/// The records of `bytes` from the one that starts at `start`, when the bytes
/// between `start` and `at` are known to hold no delimiter.
pub open spec fn split_from(bytes: Seq<u8>, start: int, at: int) -> Seq<RecordView>
    decreases bytes.len() - at,
{
    if at >= bytes.len() {
        seq![RecordView { offset: start as usize, length: (bytes.len() - start) as usize }]
    } else if bytes[at] == DELIMITER {
        seq![RecordView { offset: start as usize, length: (at - start) as usize }] + split_from(
            bytes,
            at + 1,
            at + 1,
        )
    } else {
        split_from(bytes, start, at + 1)
    }
}

/// The records of `bytes`: the stretches between delimiters, empty ones
/// included, in the order in which they lie. A buffer with `n` delimiters has
/// `n + 1` records, and the empty buffer has one empty record.
pub open spec fn split_records(bytes: Seq<u8>) -> Seq<RecordView> {
    split_from(bytes, 0, 0)
}

/// The bytes of each view in turn, each followed by the delimiter.
pub open spec fn delimited(views: Seq<RecordView>, buffer: Seq<u8>) -> Seq<u8>
    decreases views.len(),
{
    if views.len() == 0 {
        Seq::empty()
    } else {
        views[0].bytes(buffer) + seq![DELIMITER] + delimited(views.skip(1), buffer)
    }
}

/// The buffer after the views were written back into it: their delimited
/// bytes from the start, cut at the buffer's end, and behind them what the
/// buffer held there before.
pub open spec fn written_back(views: Seq<RecordView>, buffer: Seq<u8>) -> Seq<u8> {
    let stream = delimited(views, buffer);
    if stream.len() >= buffer.len() {
        stream.take(buffer.len() as int)
    } else {
        stream + buffer.skip(stream.len() as int)
    }
}

/// Writing back keeps the buffer's length.
pub proof fn lemma_written_back_len(views: Seq<RecordView>, buffer: Seq<u8>)
    ensures
        written_back(views, buffer).len() == buffer.len(),
{
}

/// The records cut from a buffer lie inside it, and there is at least one.
pub proof fn lemma_split_from_fits(bytes: Seq<u8>, start: int, at: int)
    requires
        0 <= start <= at <= bytes.len() <= usize::MAX,
    ensures
        split_from(bytes, start, at).len() >= 1,
        all_fit(split_from(bytes, start, at), bytes),
    decreases bytes.len() - at,
{
    if at < bytes.len() {
        if bytes[at] == DELIMITER {
            lemma_split_from_fits(bytes, at + 1, at + 1);
        } else {
            lemma_split_from_fits(bytes, start, at + 1);
        }
    }
}

/// The delimited bytes of two runs of views, one behind the other.
pub proof fn lemma_delimited_concat(
    first: Seq<RecordView>,
    second: Seq<RecordView>,
    buffer: Seq<u8>,
)
    ensures
        delimited(first + second, buffer) == delimited(first, buffer) + delimited(second, buffer),
    decreases first.len(),
{
    if first.len() == 0 {
        assert(first + second =~= second);
        assert(delimited(first, buffer) + delimited(second, buffer) =~= delimited(second, buffer));
    } else {
        lemma_delimited_concat(first.skip(1), second, buffer);
        assert((first + second).skip(1) =~= first.skip(1) + second);
        assert(delimited(first + second, buffer) =~= delimited(first, buffer) + delimited(
            second,
            buffer,
        ));
    }
}

/// The number of bytes that the views take when each is followed by the
/// delimiter.
pub open spec fn delimited_len(views: Seq<RecordView>) -> nat
    decreases views.len(),
{
    if views.len() == 0 {
        0
    } else {
        (views[0].length + 1 + delimited_len(views.skip(1))) as nat
    }
}

/// The delimited bytes of views that lie inside the buffer are as many as
/// `delimited_len` says.
pub proof fn lemma_delimited_len(views: Seq<RecordView>, buffer: Seq<u8>)
    requires
        all_fit(views, buffer),
    ensures
        delimited(views, buffer).len() == delimited_len(views),
    decreases views.len(),
{
    if views.len() != 0 {
        assert(views[0].fits(buffer));
        assert forall|i: int| 0 <= i < views.skip(1).len() implies (#[trigger] views.skip(
            1,
        )[i]).fits(buffer) by {
            assert(views[i + 1].fits(buffer));
        }
        lemma_delimited_len(views.skip(1), buffer);
    }
}

/// The count for two runs of views, one behind the other, is the sum of both
/// counts.
pub proof fn lemma_delimited_len_concat(first: Seq<RecordView>, second: Seq<RecordView>)
    ensures
        delimited_len(first + second) == delimited_len(first) + delimited_len(second),
    decreases first.len(),
{
    if first.len() == 0 {
        assert(first + second =~= second);
    } else {
        lemma_delimited_len_concat(first.skip(1), second);
        assert((first + second).skip(1) =~= first.skip(1) + second);
    }
}

/// Joining the records of a buffer, each followed by the delimiter, gives the
/// buffer back with one delimiter behind it.
pub proof fn lemma_split_from_delimited(bytes: Seq<u8>, start: int, at: int)
    requires
        0 <= start <= at <= bytes.len() <= usize::MAX,
        forall|k: int| start <= k < at ==> bytes[k] != DELIMITER,
    ensures
        delimited(split_from(bytes, start, at), bytes) == bytes.skip(start).push(DELIMITER),
    decreases bytes.len() - at,
{
    let records = split_from(bytes, start, at);
    if at >= bytes.len() {
        assert(records.skip(1) =~= Seq::<RecordView>::empty());
        assert(records[0].bytes(bytes) =~= bytes.skip(start));
        assert(delimited(records.skip(1), bytes) =~= Seq::<u8>::empty());
        assert(delimited(records, bytes) =~= bytes.skip(start).push(DELIMITER));
    } else if bytes[at] == DELIMITER {
        lemma_split_from_delimited(bytes, at + 1, at + 1);
        assert(records.skip(1) =~= split_from(bytes, at + 1, at + 1));
        assert(records[0].bytes(bytes) =~= bytes.subrange(start, at));
        let joined = bytes.subrange(start, at) + seq![DELIMITER] + bytes.skip(at + 1).push(
            DELIMITER,
        );
        assert(delimited(records, bytes) == joined);
        assert(joined =~= bytes.skip(start).push(DELIMITER));
    } else {
        lemma_split_from_delimited(bytes, start, at + 1);
    }
}

/// Cuts `buffer` into its records.
pub fn split(buffer: &[u8]) -> (array: Vec<RecordView>)
    ensures
        array@ == split_records(buffer@),
        array@.len() >= 1,
        all_fit(array@, buffer@),
{
    let mut array: Vec<RecordView> = Vec::new();
    let size = buffer.len();
    let mut start: usize = 0;
    let mut at: usize = 0;
    proof {
        assert(array@ + split_from(buffer@, 0, 0) =~= split_records(buffer@));
        lemma_split_from_fits(buffer@, 0, 0);
    }
    while at < size
        invariant
            start <= at <= size == buffer@.len(),
            split_records(buffer@) == array@ + split_from(buffer@, start as int, at as int),
        decreases size - at,
    {
        if buffer[at] == DELIMITER {
            let ghost before = array@;
            let ghost first = RecordView { offset: start, length: (at - start) as usize };
            array.push(RecordView { offset: start, length: at - start });
            assert(before + (seq![first] + split_from(buffer@, at + 1, at + 1)) =~= array@
                + split_from(buffer@, at + 1, at + 1));
            start = at + 1;
        }
        at += 1;
    }
    let ghost before = array@;
    array.push(RecordView { offset: start, length: size - start });
    assert(before + split_from(buffer@, start as int, at as int) =~= array@);
    array
}

/// Writes the views back into `buffer`: the bytes each names, copied first,
/// then laid down from the start with a delimiter behind each, stopping at the
/// buffer's end. Bytes behind the last one written stay as they were.
pub fn write_back(buffer: &mut Vec<u8>, array: &Vec<RecordView>)
    requires
        all_fit(array@, old(buffer)@),
    ensures
        final(buffer)@ == written_back(array@, old(buffer)@),
{
    let size = buffer.len();
    let ghost stream = delimited(array@, buffer@);
    let ghost mut rest = stream;
    let mut image: Vec<u8> = Vec::new();
    let mut next: usize = 0;
    proof {
        assert(array@.skip(0) =~= array@);
        assert(image@ + rest =~= stream);
    }
    while next < array.len() && image.len() < size
        invariant
            next <= array.len(),
            image.len() <= size == buffer@.len(),
            buffer@ == old(buffer)@,
            all_fit(array@, buffer@),
            stream == image@ + rest,
            image.len() < size ==> rest == delimited(array@.skip(next as int), buffer@),
        decreases array.len() - next,
    {
        let view = array[next];
        let ghost later = delimited(array@.skip(next + 1), buffer@);
        let ghost bytes = view.bytes(buffer@);
        let mut copied: usize = 0;
        proof {
            assert(array@.skip(next as int)[0] == view);
            assert(array@.skip(next as int).skip(1) =~= array@.skip(next + 1));
            assert(bytes.skip(0) =~= bytes);
        }
        while copied < view.length && image.len() < size
            invariant
                copied <= view.length,
                image.len() <= size == buffer@.len(),
                view.fits(buffer@),
                bytes == view.bytes(buffer@),
                stream == image@ + rest,
                rest == bytes.skip(copied as int) + seq![DELIMITER] + later,
            decreases view.length - copied,
        {
            let ghost before = image@;
            let ghost old_rest = rest;
            let byte = buffer[view.offset + copied];
            image.push(byte);
            copied += 1;
            proof {
                rest = bytes.skip(copied as int) + seq![DELIMITER] + later;
                assert(byte == bytes[copied - 1]);
                assert(old_rest =~= seq![byte] + rest);
                assert(before + old_rest =~= image@ + rest);
            }
        }
        if copied == view.length && image.len() < size {
            let ghost before = image@;
            let ghost old_rest = rest;
            image.push(DELIMITER);
            proof {
                rest = later;
                assert(bytes.skip(copied as int) =~= Seq::<u8>::empty());
                assert(old_rest =~= seq![DELIMITER] + rest);
                assert(before + old_rest =~= image@ + rest);
            }
        }
        next += 1;
    }
    let ghost kept = image@;
    proof {
        if image.len() < size {
            assert(array@.skip(next as int) =~= Seq::<RecordView>::empty());
            assert(kept =~= stream);
        } else {
            assert(kept =~= stream.take(size as int));
        }
    }
    let mut at: usize = image.len();
    while at < size
        invariant
            kept.len() <= at <= size == buffer@.len(),
            buffer@ == old(buffer)@,
            image@ == kept + buffer@.subrange(kept.len() as int, at as int),
        decreases size - at,
    {
        image.push(buffer[at]);
        at += 1;
        assert(image@ =~= kept + buffer@.subrange(kept.len() as int, at as int));
    }
    proof {
        assert(image@ =~= written_back(array@, buffer@));
    }
    *buffer = image;
}

} // verus!
