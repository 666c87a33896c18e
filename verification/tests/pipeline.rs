use station_stats::line::LineError;
use station_stats::output::format_table;
use station_stats::pipeline::{quota_of, report, run, Config, RunError};
use station_stats::plan::{plan, Partition};
use station_stats::scan::{scan_partition, ScanError};
use station_stats::table::Table;

fn config(partition_count: usize) -> Config {
    Config::new(partition_count, None).unwrap()
}

fn row(table: &Table, key: &str) -> (i64, i64, i128, u64) {
    let s = table.get(key.as_bytes()).unwrap();
    (s.min(), s.max(), s.sum(), s.count())
}

fn total(table: &Table) -> u64 {
    let mut sum = 0;
    for i in 0..table.len() {
        sum += table.stats_at(i).count();
    }
    sum
}

fn report_lines(table: &Table) -> Vec<String> {
    let text = String::from_utf8(format_table(table)).unwrap();
    text.lines().map(|l| l.to_string()).collect()
}

const CITIES: &str = "Paris;10.0\nParis;20.0\nLondon;5.5\n";

const MIXED: &str = "Oslo;-3.5\nA;1\nBordeaux;17.2\nOslo;4.0\nA;-1.5\nKuala Lumpur;31.9\nOslo;-10.1\nA;2.5\nBordeaux;0.0\nZ;99.9\n";

#[test]
fn three_lines_one_partition() {
    let table = run(CITIES.as_bytes(), &config(1)).unwrap();
    let lines = report_lines(&table);
    assert_eq!(lines.len(), 2);
    assert!(lines.contains(&"Paris,10.0,20.0,15.0".to_string()));
    assert!(lines.contains(&"London,5.5,5.5,5.5".to_string()));
}

#[test]
fn report_keeps_order_of_first_appearance() {
    let table = run(CITIES.as_bytes(), &config(1)).unwrap();
    assert_eq!(
        String::from_utf8(format_table(&table)).unwrap(),
        "Paris,10.0,20.0,15.0\nLondon,5.5,5.5,5.5\n"
    );
}

#[test]
fn empty_input_gives_empty_report() {
    for p in [1usize, 2, 16] {
        let table = run(b"", &config(p)).unwrap();
        assert_eq!(table.len(), 0);
        assert!(table.is_empty());
        assert_eq!(format_table(&table), Vec::<u8>::new());
    }
}

#[test]
fn line_without_delimiter_is_rejected() {
    let r = run(b"Paris;10.0\nLondon\nRome;1.0\n", &config(1));
    assert_eq!(
        r.err(),
        Some(RunError::Rejected(ScanError { kind: LineError::MissingDelimiter, offset: 11 }))
    );
}

#[test]
fn empty_line_is_rejected() {
    let r = run(b"Paris;10.0\n\nRome;1.0\n", &config(3));
    assert_eq!(
        r.err(),
        Some(RunError::Rejected(ScanError { kind: LineError::MissingDelimiter, offset: 11 }))
    );
}

#[test]
fn malformed_number_is_rejected() {
    let r = run(b"Paris;10.0\nRome;abc\n", &config(2));
    assert_eq!(
        r.err(),
        Some(RunError::Rejected(ScanError { kind: LineError::MalformedNumber, offset: 11 }))
    );
    let r = run(b"Rome;\n", &config(1));
    assert_eq!(
        r.err(),
        Some(RunError::Rejected(ScanError { kind: LineError::MalformedNumber, offset: 0 }))
    );
}

#[test]
fn number_out_of_range_is_rejected() {
    let r = run(b"Rome;922337203685477580.8\n", &config(1));
    assert_eq!(
        r.err(),
        Some(RunError::Rejected(ScanError { kind: LineError::NumberOutOfRange, offset: 0 }))
    );
}

#[test]
fn first_rejected_line_is_reported_for_any_partition_count() {
    let data = b"a;1\nb;2\nbad\nc;3\nd;x\ne;5\nworse\n";
    for p in 1..=data.len() + 2 {
        let r = run(data, &config(p));
        assert_eq!(
            r.err(),
            Some(RunError::Rejected(ScanError { kind: LineError::MissingDelimiter, offset: 8 }))
        );
    }
}

#[test]
fn every_line_is_counted_once() {
    let lines = MIXED.lines().count();
    assert_eq!(lines, 10);
    for p in 1..=lines {
        let table = run(MIXED.as_bytes(), &config(p)).unwrap();
        assert_eq!(total(&table), lines as u64);
    }
    for p in lines..=MIXED.len() + 3 {
        let table = run(MIXED.as_bytes(), &config(p)).unwrap();
        assert_eq!(total(&table), lines as u64);
    }
}

#[test]
fn last_line_without_terminator_is_a_line() {
    for p in 1..=12 {
        let table = run(b"a;1.0\nb;2.0\na;3.0", &config(p)).unwrap();
        assert_eq!(total(&table), 3);
        assert_eq!(row(&table, "a"), (10, 30, 40, 2));
        assert_eq!(row(&table, "b"), (20, 20, 20, 1));
    }
}

#[test]
fn aggregates_of_one_key() {
    let data = b"k;3.5\nk;-7.2\nk;0.0\nk;12\nk;-0.1\n";
    for p in 1..=data.len() {
        let table = run(data, &config(p)).unwrap();
        assert_eq!(table.len(), 1);
        let s = table.get(b"k").unwrap();
        assert_eq!(s.min(), -72);
        assert_eq!(s.max(), 120);
        assert_eq!(s.sum(), 35 - 72 + 0 + 120 - 1);
        assert_eq!(s.count(), 5);
        assert_eq!(s.mean(), 16);
    }
}

#[test]
fn one_partition_and_sixteen_agree() {
    let one = run(MIXED.as_bytes(), &config(1)).unwrap();
    let sixteen = run(MIXED.as_bytes(), &config(16)).unwrap();
    assert_eq!(one.len(), 5);
    assert_eq!(sixteen.len(), 5);
    for key in ["Oslo", "A", "Bordeaux", "Kuala Lumpur", "Z"] {
        assert_eq!(row(&one, key), row(&sixteen, key));
        assert_eq!(
            one.get(key.as_bytes()).unwrap().mean(),
            sixteen.get(key.as_bytes()).unwrap().mean()
        );
    }
    assert_eq!(row(&one, "Oslo"), (-101, 40, -96, 3));
    assert_eq!(row(&one, "A"), (-15, 25, 20, 3));
    assert_eq!(row(&one, "Bordeaux"), (0, 172, 172, 2));
    assert_eq!(row(&one, "Kuala Lumpur"), (319, 319, 319, 1));
    assert_eq!(row(&one, "Z"), (999, 999, 999, 1));
}

#[test]
fn boundary_at_first_byte() {
    let data = b"a;1\nb;2\nc;3\n";
    let first = scan_partition(data, &Partition { index: 0, start: 0, end: 0 }, None).unwrap();
    let second = scan_partition(data, &Partition { index: 1, start: 0, end: 12 }, None).unwrap();
    assert_eq!(total(&first), 1);
    assert_eq!(row(&first, "a"), (10, 10, 10, 1));
    assert_eq!(total(&second), 2);
    assert!(second.get(b"a").is_none());
    assert_eq!(row(&second, "b"), (20, 20, 20, 1));
    assert_eq!(row(&second, "c"), (30, 30, 30, 1));
}

#[test]
fn boundary_within_a_line() {
    let data = b"a;1\nb;2\nc;3\n";
    let first = scan_partition(data, &Partition { index: 0, start: 0, end: 6 }, None).unwrap();
    let second = scan_partition(data, &Partition { index: 1, start: 6, end: 12 }, None).unwrap();
    assert_eq!(total(&first), 2);
    assert_eq!(row(&first, "a"), (10, 10, 10, 1));
    assert_eq!(row(&first, "b"), (20, 20, 20, 1));
    assert_eq!(total(&second), 1);
    assert_eq!(row(&second, "c"), (30, 30, 30, 1));
}

#[test]
fn boundary_on_a_terminator() {
    let data = b"a;1\nb;2\nc;3\n";
    let first = scan_partition(data, &Partition { index: 0, start: 0, end: 3 }, None).unwrap();
    let second = scan_partition(data, &Partition { index: 1, start: 3, end: 12 }, None).unwrap();
    assert_eq!(total(&first), 1);
    assert_eq!(row(&first, "a"), (10, 10, 10, 1));
    assert_eq!(total(&second), 2);
    assert_eq!(row(&second, "b"), (20, 20, 20, 1));
    assert_eq!(row(&second, "c"), (30, 30, 30, 1));
}

#[test]
fn boundary_behind_a_terminator() {
    let data = b"a;1\nb;2\nc;3\n";
    let first = scan_partition(data, &Partition { index: 0, start: 0, end: 4 }, None).unwrap();
    let second = scan_partition(data, &Partition { index: 1, start: 4, end: 12 }, None).unwrap();
    assert_eq!(total(&first), 2);
    assert_eq!(total(&second), 1);
    assert_eq!(row(&second, "c"), (30, 30, 30, 1));
}

#[test]
fn every_cut_parts_the_lines() {
    let data = MIXED.as_bytes();
    for cut in 0..=data.len() {
        let first =
            scan_partition(data, &Partition { index: 0, start: 0, end: cut }, None).unwrap();
        let second =
            scan_partition(data, &Partition { index: 1, start: cut, end: data.len() }, None)
                .unwrap();
        assert_eq!(total(&first) + total(&second), 10);
        let merged = first.merge(&second).unwrap();
        assert_eq!(row(&merged, "Oslo"), (-101, 40, -96, 3));
        assert_eq!(row(&merged, "Z"), (999, 999, 999, 1));
    }
}

#[test]
fn a_line_longer_than_several_partitions() {
    let data = b"a;1\nthe key of this line is long;2\nc;3\n";
    for p in 1..=data.len() {
        let table = run(data, &config(p)).unwrap();
        assert_eq!(total(&table), 3);
        assert_eq!(row(&table, "the key of this line is long"), (20, 20, 20, 1));
    }
}

#[test]
fn plan_cuts_at_multiples_of_the_quotient() {
    let parts = plan(100, 16);
    assert_eq!(parts.len(), 16);
    for (i, part) in parts.iter().enumerate() {
        assert_eq!(part.index, i);
        assert_eq!(part.start, 6 * i);
        assert_eq!(part.end, if i == 15 { 100 } else { 6 * (i + 1) });
    }
    assert_eq!(plan(10, 1), vec![Partition { index: 0, start: 0, end: 10 }]);
    assert_eq!(
        plan(2, 3),
        vec![
            Partition { index: 0, start: 0, end: 0 },
            Partition { index: 1, start: 0, end: 0 },
            Partition { index: 2, start: 0, end: 2 },
        ]
    );
    assert_eq!(
        plan(0, 2),
        vec![Partition { index: 0, start: 0, end: 0 }, Partition { index: 1, start: 0, end: 0 }]
    );
}

#[test]
fn config_needs_a_partition() {
    assert_eq!(Config::new(0, None), None);
    assert_eq!(Config::new(0, Some(5)), None);
    assert_eq!(
        Config::new(3, Some(5)),
        Some(Config { partition_count: 3, line_count_hint: Some(5) })
    );
}

#[test]
fn quota_is_the_share_and_one_more_for_the_first() {
    let c = Config::new(16, Some(1000)).unwrap();
    assert_eq!(quota_of(&c, 0), Some(63));
    assert_eq!(quota_of(&c, 1), Some(62));
    assert_eq!(quota_of(&c, 15), Some(62));
    let none = Config::new(16, None).unwrap();
    assert_eq!(quota_of(&none, 0), None);
    assert_eq!(quota_of(&none, 7), None);
    let most = Config::new(1, Some(usize::MAX)).unwrap();
    assert_eq!(quota_of(&most, 0), Some(usize::MAX));
}

#[test]
fn scan_with_quota_stops_after_so_many_lines() {
    let data = b"a;1\nb;2\nc;3\nd;4\n";
    let first = Partition { index: 0, start: 0, end: 8 };
    let t = scan_partition(data, &first, Some(3)).unwrap();
    assert_eq!(total(&t), 3);
    assert!(t.get(b"c").is_some());
    assert!(t.get(b"d").is_none());
    let t = scan_partition(data, &first, Some(0)).unwrap();
    assert_eq!(total(&t), 0);
    let t = scan_partition(data, &first, Some(9)).unwrap();
    assert_eq!(total(&t), 4);
    let second = Partition { index: 1, start: 8, end: 16 };
    let t = scan_partition(data, &second, Some(1)).unwrap();
    assert_eq!(total(&t), 1);
    assert_eq!(row(&t, "d"), (40, 40, 40, 1));
    let t = scan_partition(data, &second, Some(5)).unwrap();
    assert_eq!(total(&t), 1);
}

#[test]
fn scan_with_quota_does_not_look_at_later_lines() {
    let data = b"a;1\nb;2\nbad\n";
    let first = Partition { index: 0, start: 0, end: 12 };
    assert_eq!(total(&scan_partition(data, &first, Some(2)).unwrap()), 2);
    assert_eq!(
        scan_partition(data, &first, Some(3)).err(),
        Some(ScanError { kind: LineError::MissingDelimiter, offset: 8 })
    );
}

#[test]
fn hint_with_one_partition_reads_all_lines() {
    let c = Config::new(1, Some(10)).unwrap();
    let table = run(MIXED.as_bytes(), &c).unwrap();
    assert_eq!(total(&table), 10);
    assert_eq!(row(&table, "Oslo"), (-101, 40, -96, 3));
    let c = Config::new(1, Some(1000)).unwrap();
    assert_eq!(total(&run(MIXED.as_bytes(), &c).unwrap()), 10);
}

#[test]
fn hint_too_low_drops_lines() {
    let c = Config::new(1, Some(4)).unwrap();
    let table = run(MIXED.as_bytes(), &c).unwrap();
    assert_eq!(total(&table), 5);
    assert!(table.get(b"Z").is_none());
}

#[test]
fn hint_with_lines_of_equal_length() {
    let data = b"a;1\nb;2\nc;3\nd;4\ne;5\nf;6\ng;7\nh;8\n";
    let c = Config::new(4, Some(8)).unwrap();
    let table = run(data, &c).unwrap();
    assert_eq!(total(&table), 8);
    assert_eq!(table.len(), 8);
    assert_eq!(row(&table, "a"), (10, 10, 10, 1));
    assert_eq!(row(&table, "c"), (30, 30, 30, 1));
    assert_eq!(row(&table, "d"), (40, 40, 40, 1));
    assert_eq!(row(&table, "h"), (80, 80, 80, 1));
}

#[test]
fn hint_with_lines_of_unequal_length_drops_a_line() {
    let data = b"a;1\nb;2\nc;3\na long key there;4\n";
    let c = Config::new(2, Some(4)).unwrap();
    let table = run(data, &c).unwrap();
    assert_eq!(total(&table), 3);
    assert!(table.get(b"a long key there").is_none());
    let table = run(data, &config(2)).unwrap();
    assert_eq!(total(&table), 4);
}

#[test]
fn report_is_the_same_for_any_partition_count() {
    let expected = "Oslo,-10.1,4.0,-3.2\nA,-1.5,2.5,0.7\nBordeaux,0.0,17.2,8.6\nKuala Lumpur,31.9,31.9,31.9\nZ,99.9,99.9,99.9\n";
    for p in 1..=MIXED.len() + 2 {
        let out = report(MIXED.as_bytes(), &config(p)).unwrap();
        assert_eq!(String::from_utf8(out).unwrap(), expected);
    }
}

#[test]
fn report_of_nothing_and_of_a_rejected_line() {
    assert_eq!(report(b"", &config(4)), Ok(Vec::new()));
    assert_eq!(
        report(b"a;1\nb\n", &config(4)),
        Err(RunError::Rejected(ScanError { kind: LineError::MissingDelimiter, offset: 4 }))
    );
}

#[test]
fn keys_are_listed_in_order_of_first_appearance() {
    for p in [1usize, 2, 3, 7, 16, 200] {
        let table = run(MIXED.as_bytes(), &config(p)).unwrap();
        let keys: Vec<&[u8]> = (0..table.len()).map(|i| table.key_at(i)).collect();
        assert_eq!(keys, vec![&b"Oslo"[..], b"A", b"Bordeaux", b"Kuala Lumpur", b"Z"]);
    }
}

#[test]
fn carriage_return_before_line_feed_is_no_part_of_the_line() {
    for p in 1..=20 {
        let table = run(b"a;1.0\r\nb;2\r\na;3.5\r\n", &config(p)).unwrap();
        assert_eq!(total(&table), 3);
        assert_eq!(row(&table, "a"), (10, 35, 45, 2));
        assert_eq!(row(&table, "b"), (20, 20, 20, 1));
    }
    assert_eq!(
        run(b"a;1.0\r", &config(1)).err(),
        Some(RunError::Rejected(ScanError { kind: LineError::MalformedNumber, offset: 0 }))
    );
    assert_eq!(
        run(b"a;1\r.0\n", &config(1)).err(),
        Some(RunError::Rejected(ScanError { kind: LineError::MalformedNumber, offset: 0 }))
    );
    assert_eq!(
        run(b"a;1\n\r\n", &config(1)).err(),
        Some(RunError::Rejected(ScanError { kind: LineError::MissingDelimiter, offset: 4 }))
    );
    let table = run(b"a\r;1\n", &config(1)).unwrap();
    assert_eq!(row(&table, "a\r"), (10, 10, 10, 1));
}

#[test]
fn many_keys() {
    let mut data = String::new();
    for round in 0..3 {
        for i in 0..5000 {
            data.push_str(&format!("station {};{}.{}\n", i, i + round, round));
        }
    }
    for p in [1usize, 16] {
        let table = run(data.as_bytes(), &config(p)).unwrap();
        assert_eq!(table.len(), 5000);
        assert_eq!(total(&table), 15000);
        for i in [0i64, 1, 77, 2500, 4999] {
            let key = format!("station {}", i);
            assert_eq!(
                row(&table, &key),
                (10 * i, 10 * (i + 2) + 2, (30 * i + 33) as i128, 3)
            );
        }
        assert!(table.get(b"station 5000").is_none());
        assert_eq!(table.key_at(4999), b"station 4999");
    }
}
