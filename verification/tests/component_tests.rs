use brc::accum::{process_chunk, LocalAcc};
use brc::bytes::find_byte;
use brc::chunker::split;
use brc::interner::Interner;
use brc::merger::merge;
use brc::parser::parse_number;
use brc::stat::Stat;

#[test]
fn interner_same_bytes_same_id() {
    let mut it = Interner::new();
    let first = it.get_or_add(b"paris");
    let second = it.get_or_add(b"paris");
    assert_eq!(first, second);
    assert_eq!(it.len(), 1);
}

#[test]
fn interner_dense_first_seen_order() {
    let mut it = Interner::new();
    assert_eq!(it.get_or_add(b"paris"), 0);
    assert_eq!(it.get_or_add(b"oslo"), 1);
    assert_eq!(it.get_or_add(b"paris"), 0);
    assert_eq!(it.get_or_add(b"lima"), 2);
    let names = it.into_names();
    assert_eq!(names, vec![b"paris".to_vec(), b"oslo".to_vec(), b"lima".to_vec()]);
}

#[test]
fn interner_names_match_lookup() {
    let mut it = Interner::new();
    let keys: Vec<&[u8]> = vec![b"a", b"bb", b"ccc", b"a", b"bb"];
    let mut ids: Vec<usize> = Vec::new();
    for k in &keys {
        ids.push(it.get_or_add(k));
    }
    assert_eq!(ids, vec![0, 1, 2, 0, 1]);
    let names = it.names();
    for (k, id) in keys.iter().zip(ids.iter()) {
        assert_eq!(&names[*id], k);
    }
}

#[test]
fn chunker_partitions_exactly() {
    let data = b"a;1\nbb;2\nccc;3\nd;4\n";
    for workers in 1..=6 {
        let ranges = split(data, workers);
        assert_eq!(ranges.len(), workers);
        assert_eq!(ranges[0].0, 0);
        assert_eq!(ranges[workers - 1].1, data.len());
        for k in 0..workers {
            assert!(ranges[k].0 <= ranges[k].1);
            if k + 1 < workers {
                assert_eq!(ranges[k].1, ranges[k + 1].0);
                let b = ranges[k].1;
                assert!(b == data.len() || b == 0 || data[b - 1] == b'\n');
            }
        }
    }
}

#[test]
fn chunker_empty_buffer() {
    let ranges = split(b"", 4);
    assert_eq!(ranges, vec![(0, 0), (0, 0), (0, 0), (0, 0)]);
}

#[test]
fn chunker_no_terminator_at_all() {
    let data = b"onlyonekey;3.5";
    let ranges = split(data, 3);
    assert_eq!(ranges[2].1, data.len());
    let covered: usize = ranges.iter().map(|r| r.1 - r.0).sum();
    assert_eq!(covered, data.len());
}

#[test]
fn parse_plain_and_signed() {
    let b = b"14.2";
    assert_eq!(parse_number(b, 0, b.len()), (Some(142), 4));
    let b = b"-3.0";
    assert_eq!(parse_number(b, 0, b.len()), (Some(-30), 4));
    let b = b"+5.3";
    assert_eq!(parse_number(b, 0, b.len()), (Some(53), 4));
    let b = b"7";
    assert_eq!(parse_number(b, 0, b.len()), (Some(70), 1));
}

#[test]
fn parse_stops_after_one_fraction_digit() {
    let b = b"1.234";
    assert_eq!(parse_number(b, 0, b.len()), (Some(12), 3));
}

#[test]
fn parse_rejects_missing_digits() {
    let b = b"abc";
    assert_eq!(parse_number(b, 0, b.len()).0, None);
    let b = b"-";
    assert_eq!(parse_number(b, 0, b.len()).0, None);
    let b = b".5";
    assert_eq!(parse_number(b, 0, b.len()).0, None);
}

#[test]
fn parse_rejects_oversized_magnitude() {
    let b = b"99999999999999999999";
    assert_eq!(parse_number(b, 0, b.len()).0, None);
    let b = b"214748364.7";
    assert_eq!(parse_number(b, 0, b.len()).0, Some(2147483647));
    let b = b"214748364.8";
    assert_eq!(parse_number(b, 0, b.len()).0, None);
}

#[test]
fn find_byte_first_occurrence_in_window() {
    let data = b"ab;cd;ef";
    assert_eq!(find_byte(data, b';', 0, data.len()), Some(2));
    assert_eq!(find_byte(data, b';', 3, data.len()), Some(5));
    assert_eq!(find_byte(data, b';', 6, data.len()), None);
    assert_eq!(find_byte(data, b'x', 0, data.len()), None);
}

#[test]
fn stat_observe_and_merge() {
    let mut a = Stat::empty();
    a.observe(50);
    a.observe(-10);
    assert_eq!((a.min, a.max, a.sum, a.count), (-10, 50, 40, 2));
    let mut b = Stat::empty();
    b.observe(300);
    b.merge_from(&a);
    assert_eq!((b.min, b.max, b.sum, b.count), (-10, 300, 340, 3));
    let empty = Stat::empty();
    b.merge_from(&empty);
    assert_eq!((b.min, b.max, b.sum, b.count), (-10, 300, 340, 3));
}

#[test]
fn process_two_chunks_and_merge() {
    let data = b"a;1.0\nb;2.0\na;3.0\n";
    let mut it = Interner::new();
    let mut first = LocalAcc::new();
    process_chunk(data, 0, 6, &mut it, &mut first);
    let mut second = LocalAcc::new();
    process_chunk(data, 6, data.len(), &mut it, &mut second);
    assert_eq!(it.len(), 2);
    let locals = vec![first, second];
    let global = merge(&locals, it.len());
    assert_eq!(global.len(), 2);
    assert_eq!((global[0].min, global[0].max, global[0].sum, global[0].count), (10, 30, 40, 2));
    assert_eq!((global[1].min, global[1].max, global[1].sum, global[1].count), (20, 20, 20, 1));
}
