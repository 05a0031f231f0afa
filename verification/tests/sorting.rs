use sorter::insertion::sort_range;
use sorter::lines::{split, write_back};
use sorter::order::less_than;
use sorter::record::RecordView;
use sorter::sorter::{SortParams, Sorter, MAX_WORKERS_COUNT, SIZE_THRESHOLD};

/// Lays the records down one behind the other, without delimiters, and
/// returns the buffer with one view for each record.
fn lay_out(records: &[&[u8]]) -> (Vec<u8>, Vec<RecordView>) {
    let mut buffer = Vec::new();
    let mut views = Vec::new();
    for record in records {
        views.push(RecordView::new(buffer.len(), record.len()));
        buffer.extend_from_slice(record);
    }
    (buffer, views)
}

fn read(buffer: &[u8], views: &[RecordView]) -> Vec<Vec<u8>> {
    views.iter().map(|view| view.to_vec(buffer)).collect()
}

fn test_range_sorting() {
    let (buffer, mut array) = lay_out(&[&[10, 2, 4], &[10, 2], &[1, 2, 3]]);
    let params = SortParams { min_pivot: 1, max_pivot: 2, pooled: false };
    Sorter::sort_task(&buffer, &mut array, &params);
    let sorted: Vec<Vec<u8>> = vec![vec![10, 2, 4], vec![1, 2, 3], vec![10, 2]];
    assert_eq!(read(&buffer, &array), sorted);
}

#[test]
fn main_it_works() {
    let (buffer, mut array) = lay_out(&[&[10, 2, 4], &[10, 2], &[1, 2, 3]]);
    let params = SortParams { min_pivot: 0, max_pivot: 2, pooled: false };
    Sorter::sort_task(&buffer, &mut array, &params);
    let sorted: Vec<Vec<u8>> = vec![vec![1, 2, 3], vec![10, 2], vec![10, 2, 4]];
    assert_eq!(read(&buffer, &array), sorted);
    test_range_sorting();
}

#[test]
fn full_range_with_pool_flag() {
    let (buffer, mut array) = lay_out(&[&[10, 2, 4], &[10, 2], &[1, 2, 3]]);
    let params = SortParams { min_pivot: 0, max_pivot: 2, pooled: true };
    Sorter::sort_task(&buffer, &mut array, &params);
    let sorted: Vec<Vec<u8>> = vec![vec![1, 2, 3], vec![10, 2], vec![10, 2, 4]];
    assert_eq!(read(&buffer, &array), sorted);
}

#[test]
fn partial_range_leaves_the_rest_in_place() {
    let (buffer, mut array) = lay_out(&[b"zz", b"d", b"c", b"b", b"a", b"yy"]);
    let before = array.clone();
    let params = SortParams { min_pivot: 1, max_pivot: 4, pooled: false };
    Sorter::sort_task(&buffer, &mut array, &params);
    assert_eq!(array[0], before[0]);
    assert_eq!(array[5], before[5]);
    assert_eq!(
        read(&buffer, &array),
        vec![b"zz".to_vec(), b"a".to_vec(), b"b".to_vec(), b"c".to_vec(), b"d".to_vec(), b"yy".to_vec()]
    );
}

#[test]
fn single_view_range_is_untouched() {
    let (buffer, mut array) = lay_out(&[b"b", b"a"]);
    let before = array.clone();
    let params = SortParams { min_pivot: 1, max_pivot: 1, pooled: true };
    Sorter::sort_task(&buffer, &mut array, &params);
    assert_eq!(array, before);
}

#[test]
fn byte_order_compares_first_difference_then_length() {
    assert!(less_than(&[1, 2, 3], &[10, 2]));
    assert!(less_than(&[10, 2], &[10, 2, 4]));
    assert!(!less_than(&[10, 2, 4], &[10, 2]));
    assert!(!less_than(&[10, 2], &[10, 2]));
    assert!(less_than(&[], &[0]));
    assert!(!less_than(&[], &[]));
    assert!(!less_than(&[0], &[]));
    assert!(less_than(&[1, 255], &[2, 0]));
    assert!(!less_than(&[200], &[100, 1]));
}

#[test]
fn views_compare_by_the_bytes_they_name() {
    let buffer = b"abcabd".to_vec();
    let first = RecordView::new(0, 3);
    let second = RecordView::new(3, 3);
    let prefix = RecordView::new(0, 2);
    assert!(first.precedes(&second, &buffer));
    assert!(!second.precedes(&first, &buffer));
    assert!(prefix.precedes(&first, &buffer));
    assert!(!first.precedes(&prefix, &buffer));
    assert!(!first.precedes(&first, &buffer));
    assert_eq!(second.to_vec(&buffer), b"abd".to_vec());
    assert_eq!(RecordView::new(6, 0).to_vec(&buffer), Vec::<u8>::new());
}

#[test]
fn merge_interleaves_two_sorted_runs() {
    let (buffer, views) = lay_out(&[b"a", b"c", b"e", b"b", b"d", b"f", b"g"]);
    let merged = Sorter::merge(&buffer, &views[0..3], &views[3..7]);
    assert_eq!(
        read(&buffer, &merged),
        vec![b"a".to_vec(), b"b".to_vec(), b"c".to_vec(), b"d".to_vec(), b"e".to_vec(), b"f".to_vec(), b"g".to_vec()]
    );
}

#[test]
fn merge_walks_both_runs_to_their_ends() {
    // The left run is longer than the right one and ends above it.
    let (buffer, views) = lay_out(&[b"a", b"b", b"x", b"y", b"z", b"c", b"d"]);
    let merged = Sorter::merge(&buffer, &views[0..5], &views[5..7]);
    assert_eq!(
        read(&buffer, &merged),
        vec![b"a".to_vec(), b"b".to_vec(), b"c".to_vec(), b"d".to_vec(), b"x".to_vec(), b"y".to_vec(), b"z".to_vec()]
    );
}

#[test]
fn merge_emits_the_right_view_first_on_a_tie() {
    let (buffer, views) = lay_out(&[b"k", b"m", b"k", b"m"]);
    let left = &views[0..2];
    let right = &views[2..4];
    let merged = Sorter::merge(&buffer, left, right);
    assert_eq!(merged, vec![right[0], left[0], right[1], left[1]]);
}

#[test]
fn merge_with_an_empty_run_returns_the_other() {
    let (buffer, views) = lay_out(&[b"a", b"b"]);
    assert_eq!(Sorter::merge(&buffer, &views, &[]), views);
    assert_eq!(Sorter::merge(&buffer, &[], &views), views);
    assert_eq!(Sorter::merge(&buffer, &[], &[]), Vec::<RecordView>::new());
}

#[test]
fn leaf_sort_keeps_equal_records_in_their_order() {
    let (buffer, mut array) = lay_out(&[b"b", b"a", b"b", b"a"]);
    let before = array.clone();
    sort_range(&buffer, &mut array, 0, 3);
    assert_eq!(array, vec![before[1], before[3], before[0], before[2]]);
}

fn numbered_records(count: usize) -> (Vec<u8>, Vec<RecordView>) {
    let mut buffer = Vec::new();
    let mut views = Vec::new();
    for index in 0..count {
        // A scrambled three-digit key, so that many records tie.
        let key = (index * 7919 + 13) % 500;
        let text = format!("{:03}", key);
        views.push(RecordView::new(buffer.len(), text.len()));
        buffer.extend_from_slice(text.as_bytes());
    }
    (buffer, views)
}

#[test]
fn split_sort_matches_the_plain_sort() {
    let count = 4 * SIZE_THRESHOLD + 17;
    let (buffer, views) = numbered_records(count);
    let mut pooled = views.clone();
    let mut plain = views.clone();
    Sorter::sort_task(&buffer, &mut pooled, &SortParams { min_pivot: 0, max_pivot: count - 1, pooled: true });
    Sorter::sort_task(&buffer, &mut plain, &SortParams { min_pivot: 0, max_pivot: count - 1, pooled: false });
    assert_eq!(read(&buffer, &pooled), read(&buffer, &plain));
    let mut expected = read(&buffer, &views);
    expected.sort();
    assert_eq!(read(&buffer, &pooled), expected);
    let mut left = pooled.clone();
    let mut right = views.clone();
    left.sort_by_key(|view| view.offset);
    right.sort_by_key(|view| view.offset);
    assert_eq!(left, right);
}

#[test]
fn split_is_made_a_threshold_behind_the_first_view() {
    // With a tie across the split point the merge puts the right part's view
    // first, which the plain stable sort does not do.
    let count = 2 * SIZE_THRESHOLD;
    let mut records: Vec<&[u8]> = Vec::new();
    for _ in 0..count {
        records.push(b"same");
    }
    let (buffer, views) = lay_out(&records);
    let mut pooled = views.clone();
    Sorter::sort_task(&buffer, &mut pooled, &SortParams { min_pivot: 0, max_pivot: count - 1, pooled: true });
    let mut expected: Vec<RecordView> = views[SIZE_THRESHOLD + 1..].to_vec();
    expected.extend_from_slice(&views[..SIZE_THRESHOLD + 1]);
    assert_eq!(pooled, expected);
    let mut plain = views.clone();
    Sorter::sort_task(&buffer, &mut plain, &SortParams { min_pivot: 0, max_pivot: count - 1, pooled: false });
    assert_eq!(plain, views);
}

#[test]
fn below_twice_the_threshold_a_pool_changes_nothing() {
    let count = 2 * SIZE_THRESHOLD - 1;
    let (buffer, views) = numbered_records(count);
    let mut pooled = views.clone();
    let mut plain = views.clone();
    Sorter::sort_task(&buffer, &mut pooled, &SortParams { min_pivot: 0, max_pivot: count - 1, pooled: true });
    Sorter::sort_task(&buffer, &mut plain, &SortParams { min_pivot: 0, max_pivot: count - 1, pooled: false });
    assert_eq!(pooled, plain);
}

#[test]
fn buffer_is_cut_at_every_newline() {
    let buffer = b"bb\na\n\nccc".to_vec();
    let views = split(&buffer);
    assert_eq!(
        views,
        vec![RecordView::new(0, 2), RecordView::new(3, 1), RecordView::new(5, 0), RecordView::new(6, 3)]
    );
    assert_eq!(split(b""), vec![RecordView::new(0, 0)]);
    assert_eq!(split(b"\n"), vec![RecordView::new(0, 0), RecordView::new(1, 0)]);
    assert_eq!(split(b"x\n"), vec![RecordView::new(0, 1), RecordView::new(2, 0)]);
}

#[test]
fn write_back_stops_at_the_end_of_the_buffer() {
    let mut buffer = b"bb\na".to_vec();
    let views = vec![RecordView::new(3, 1), RecordView::new(0, 2)];
    write_back(&mut buffer, &views);
    assert_eq!(buffer, b"a\nbb".to_vec());

    // A stream that is longer than the buffer is cut in the middle of a record.
    let mut buffer = b"abcd".to_vec();
    let views = vec![RecordView::new(0, 3), RecordView::new(1, 3)];
    write_back(&mut buffer, &views);
    assert_eq!(buffer, b"abc\n".to_vec());
}

#[test]
fn write_back_leaves_the_tail_behind_a_short_stream() {
    let mut buffer = b"abcdefgh".to_vec();
    let views = vec![RecordView::new(6, 2), RecordView::new(0, 1)];
    write_back(&mut buffer, &views);
    assert_eq!(buffer, b"gh\na\nfgh".to_vec());

    let mut buffer = b"xyz".to_vec();
    write_back(&mut buffer, &Vec::new());
    assert_eq!(buffer, b"xyz".to_vec());
}

#[test]
fn sorter_sorts_the_lines_of_a_buffer() {
    let mut sorter = Sorter::try_new(b"pear\napple\nfig\napple pie\n".to_vec()).unwrap();
    assert_eq!(sorter.array().len(), 5);
    assert_eq!(sorter.workers_count(), 0);
    assert_eq!(sorter.pool_size(), None);
    sorter.sort();
    assert_eq!(sorter.buffer(), &b"\napple\napple pie\nfig\npear".to_vec());
}

#[test]
fn sorter_takes_a_single_line() {
    let mut sorter = Sorter::try_new(b"only".to_vec()).unwrap();
    sorter.sort();
    assert_eq!(sorter.buffer(), &b"only".to_vec());
    let mut empty = Sorter::try_new(Vec::new()).unwrap();
    empty.sort();
    assert_eq!(empty.buffer(), &Vec::<u8>::new());
}

#[test]
fn sorter_refuses_bytes_that_are_not_text() {
    assert!(Sorter::try_new(vec![b'a', 0xff, b'\n']).is_none());
    assert!(Sorter::try_new(vec![0xc3]).is_none());
    assert!(Sorter::try_new(vec![0xed, 0xa0, 0x80]).is_none());
    assert!(Sorter::try_new("za\u{17e}\n\u{20ac}".as_bytes().to_vec()).is_some());
}

#[test]
fn worker_count_follows_the_size_of_the_buffer() {
    let of_size = |size: usize| Sorter::try_new(vec![b'a'; size]).unwrap();
    assert_eq!(of_size(0).workers_count(), 0);
    assert_eq!(of_size(599).workers_count(), 0);
    assert_eq!(of_size(600).workers_count(), 1);
    assert_eq!(of_size(1199).workers_count(), 1);
    assert_eq!(of_size(1199).pool_size(), None);
    assert_eq!(of_size(1200).workers_count(), 2);
    assert_eq!(of_size(1200).pool_size(), Some((4, 2)));
    assert_eq!(of_size(2 * SIZE_THRESHOLD * 7 + 1).workers_count(), 7);
    assert_eq!(of_size(2 * SIZE_THRESHOLD * MAX_WORKERS_COUNT).workers_count(), 20);
    assert_eq!(of_size(100_000).workers_count(), 20);
    assert_eq!(of_size(100_000).pool_size(), Some((40, 20)));
}

#[test]
fn large_buffer_comes_out_sorted() {
    let mut text = Vec::new();
    let lines = 3 * SIZE_THRESHOLD;
    for index in 0..lines {
        let key = (index * 7919 + 13) % 1000;
        text.extend_from_slice(format!("line {:04}", key).as_bytes());
        if index + 1 < lines {
            text.push(b'\n');
        }
    }
    let mut expected: Vec<&[u8]> = text.split(|byte| *byte == b'\n').collect();
    expected.sort();
    let expected = expected.join(&b'\n');
    let mut sorter = Sorter::try_new(text.clone()).unwrap();
    assert!(sorter.pool_size().is_some());
    sorter.sort();
    assert_eq!(sorter.buffer(), &expected);
}
