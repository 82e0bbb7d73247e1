use brc::engine::{aggregate, Summary};

fn assert_same(a: &Summary, b: &Summary) {
    assert_eq!(a.names, b.names);
    assert_eq!(a.stats.len(), b.stats.len());
    for i in 0..a.stats.len() {
        assert_eq!(a.stats[i].min, b.stats[i].min);
        assert_eq!(a.stats[i].max, b.stats[i].max);
        assert_eq!(a.stats[i].sum, b.stats[i].sum);
        assert_eq!(a.stats[i].count, b.stats[i].count);
    }
}

#[test]
fn three_records_single_worker() {
    let input = b"NYC;14.2\nNYC;-3.0\nLA;30.5\n";
    let r = aggregate(input, 1);
    assert_eq!(r.names.len(), 2);
    assert_eq!(r.names[0], b"NYC".to_vec());
    assert_eq!(r.names[1], b"LA".to_vec());
    let nyc = &r.stats[0];
    assert_eq!(nyc.min, -30);
    assert_eq!(nyc.max, 142);
    assert_eq!(nyc.sum, 112);
    assert_eq!(nyc.count, 2);
    let avg = (nyc.sum as f64) / (nyc.count as f64) / 10.0;
    assert_eq!(format!("{:.2}", avg), "5.60");
    assert_eq!(format!("{:.1}", (nyc.min as f64) / 10.0), "-3.0");
    assert_eq!(format!("{:.1}", (nyc.max as f64) / 10.0), "14.2");
    let la = &r.stats[1];
    assert_eq!(la.min, 305);
    assert_eq!(la.max, 305);
    assert_eq!(la.sum, 305);
    assert_eq!(la.count, 1);
    let la_avg = (la.sum as f64) / (la.count as f64) / 10.0;
    assert_eq!(format!("{:.2}", la_avg), "30.50");
}

#[test]
fn empty_input_gives_empty_output() {
    let r = aggregate(b"", 3);
    assert_eq!(r.names.len(), 0);
    assert_eq!(r.stats.len(), 0);
}

#[test]
fn repeated_key_any_worker_count() {
    let mut input: Vec<u8> = Vec::new();
    for _ in 0..1000 {
        input.extend_from_slice(b"station;10.0\n");
    }
    for workers in [1usize, 2, 3, 7, 13, 64] {
        let r = aggregate(&input, workers);
        assert_eq!(r.names.len(), 1, "workers = {}", workers);
        assert_eq!(r.names[0], b"station".to_vec());
        let s = &r.stats[0];
        assert_eq!(s.count, 1000);
        assert_eq!(s.min, 100);
        assert_eq!(s.max, 100);
        assert_eq!(s.sum, 100_000);
    }
}

#[test]
fn four_workers_boundary_mid_line() {
    // ten 10-byte records; a quarter of the buffer ends mid-line, so the
    // chunker must extend that range to the next terminator
    let mut input: Vec<u8> = Vec::new();
    for i in 0..10 {
        let line = format!("alpha{};1.{}\n", i, i);
        input.extend_from_slice(line.as_bytes());
    }
    assert_eq!(input.len() % 4, 2);
    let one = aggregate(&input, 1);
    let four = aggregate(&input, 4);
    assert_same(&one, &four);
    let total: u64 = four.stats.iter().map(|s| s.count).sum();
    assert_eq!(total, 10, "no record dropped or parsed twice");
}

#[test]
fn deterministic_across_worker_counts() {
    let mut input: Vec<u8> = Vec::new();
    for i in 0..100 {
        let line = format!("city{};{}.{}\n", i % 7, i % 40, i % 10);
        input.extend_from_slice(line.as_bytes());
    }
    let reference = aggregate(&input, 1);
    for workers in 2..=16 {
        let r = aggregate(&input, workers);
        assert_same(&reference, &r);
    }
}

#[test]
fn negative_and_signless_values() {
    let input = b"a;-0.5\na;0.5\nb;7\nb;+2.5\n";
    let r = aggregate(input, 2);
    assert_eq!(r.names.len(), 2);
    let a = &r.stats[0];
    assert_eq!((a.min, a.max, a.sum, a.count), (-5, 5, 0, 2));
    let b = &r.stats[1];
    assert_eq!((b.min, b.max, b.sum, b.count), (25, 70, 95, 2));
}

#[test]
fn no_trailing_terminator() {
    let r = aggregate(b"k;10.0", 1);
    assert_eq!(r.names.len(), 1);
    assert_eq!(r.stats[0].count, 1);
    assert_eq!(r.stats[0].sum, 100);
}

#[test]
fn malformed_value_is_skipped() {
    let r = aggregate(b"x;\nx;abc\nx;1.0\n", 1);
    assert_eq!(r.names.len(), 1);
    assert_eq!(r.names[0], b"x".to_vec());
    assert_eq!(r.stats[0].count, 1);
    assert_eq!(r.stats[0].sum, 10);
}

#[test]
fn oversized_value_is_skipped() {
    let r = aggregate(b"k;99999999999999999999.9\nk;2.0\n", 1);
    assert_eq!(r.names.len(), 1);
    assert_eq!(r.stats[0].count, 1);
    assert_eq!(r.stats[0].sum, 20);
}

#[test]
fn extra_fraction_digits_ignored() {
    // only one fractional digit belongs to the grammar; the rest of the line
    // is skipped up to the terminator
    let r = aggregate(b"k;1.234\n", 1);
    assert_eq!(r.stats[0].sum, 12);
    assert_eq!(r.stats[0].count, 1);
}

#[test]
fn line_without_delimiter_joins_next_key() {
    // a line with no delimiter is not a record boundary for the scan: the
    // next delimiter ends a key that spans the terminator
    let r = aggregate(b"stray\nk;1.0\n", 1);
    assert_eq!(r.names.len(), 1);
    assert_eq!(r.names[0], b"stray\nk".to_vec());
    assert_eq!(r.stats[0].sum, 10);
}

#[test]
fn more_workers_than_records() {
    let r = aggregate(b"k;1.0\n", 64);
    assert_eq!(r.names.len(), 1);
    assert_eq!(r.stats[0].count, 1);
}
