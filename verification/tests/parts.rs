use station_stats::bytes::{bytes_eq, find_from};
use station_stats::line::{parse_line, LineError};
use station_stats::measure::{parse_measurement, render_measurement, NumberError};
use station_stats::output::{append_bytes, append_line, format_line, format_table};
use station_stats::reduce::{merge_all, merge_range, reduce};
use station_stats::stats::{CountOverflow, Stats};
use station_stats::table::Table;

fn table_of(rows: &[(&str, i64)]) -> Table {
    let mut t = Table::new();
    for (k, v) in rows {
        t.record(k.as_bytes(), *v).unwrap();
    }
    t
}

fn rows_of(table: &Table) -> Vec<(Vec<u8>, i64, i64, i128, u64)> {
    let mut rows = Vec::new();
    for i in 0..table.len() {
        let s = table.stats_at(i);
        rows.push((table.key_at(i).to_vec(), s.min(), s.max(), s.sum(), s.count()));
    }
    rows.sort();
    rows
}

fn huge() -> Stats {
    let mut s = Stats::single(5);
    for _ in 0..63 {
        let other = s;
        s.combine(&other).unwrap();
    }
    s
}

#[test]
fn measurement_texts() {
    assert_eq!(parse_measurement(b"10.0"), Ok(100));
    assert_eq!(parse_measurement(b"5.5"), Ok(55));
    assert_eq!(parse_measurement(b"-5.5"), Ok(-55));
    assert_eq!(parse_measurement(b"0"), Ok(0));
    assert_eq!(parse_measurement(b"-0"), Ok(0));
    assert_eq!(parse_measurement(b"-0.0"), Ok(0));
    assert_eq!(parse_measurement(b"7"), Ok(70));
    assert_eq!(parse_measurement(b"007.3"), Ok(73));
    assert_eq!(parse_measurement(b"99.9"), Ok(999));
    assert_eq!(parse_measurement(b"-99.9"), Ok(-999));
    assert_eq!(parse_measurement(b"123456789.1"), Ok(1234567891));
}

#[test]
fn measurement_texts_that_are_malformed() {
    for text in [
        "", "-", ".", "-.", ".5", "5.", "-.5", "5.55", "1.2.3", "+5", "5 ", " 5", "1e5", "abc",
        "--5", "5-", "5.-", "0x10", "inf", "NaN", "1,5", "5.5\r", "-5.a",
    ] {
        assert_eq!(parse_measurement(text.as_bytes()), Err(NumberError::Malformed), "{}", text);
    }
}

#[test]
fn measurement_range() {
    assert_eq!(parse_measurement(b"922337203685477580.7"), Ok(i64::MAX));
    assert_eq!(parse_measurement(b"922337203685477580.8"), Err(NumberError::OutOfRange));
    assert_eq!(parse_measurement(b"-922337203685477580.8"), Ok(i64::MIN));
    assert_eq!(parse_measurement(b"-922337203685477580.9"), Err(NumberError::OutOfRange));
    assert_eq!(parse_measurement(b"922337203685477581"), Err(NumberError::OutOfRange));
    assert_eq!(parse_measurement(b"922337203685477580"), Ok(9223372036854775800));
    assert_eq!(
        parse_measurement(b"99999999999999999999999999999999999999.9"),
        Err(NumberError::OutOfRange)
    );
    assert_eq!(
        parse_measurement(b"99999999999999999999999999999999999999.x"),
        Err(NumberError::Malformed)
    );
    assert_eq!(
        parse_measurement(b"0000000000000000000000000000000000000001.5"),
        Ok(15)
    );
}

#[test]
fn measurement_rendering() {
    assert_eq!(render_measurement(100), b"10.0".to_vec());
    assert_eq!(render_measurement(55), b"5.5".to_vec());
    assert_eq!(render_measurement(-55), b"-5.5".to_vec());
    assert_eq!(render_measurement(0), b"0.0".to_vec());
    assert_eq!(render_measurement(-1), b"-0.1".to_vec());
    assert_eq!(render_measurement(9), b"0.9".to_vec());
    assert_eq!(render_measurement(1234567891), b"123456789.1".to_vec());
    assert_eq!(render_measurement(i64::MAX), b"922337203685477580.7".to_vec());
    assert_eq!(render_measurement(i64::MIN), b"-922337203685477580.8".to_vec());
}

#[test]
fn rendering_reads_back() {
    for v in [0i64, 1, -1, 9, 10, -10, 99, 100, 101, -12345, 98765, i64::MAX, i64::MIN] {
        assert_eq!(parse_measurement(&render_measurement(v)), Ok(v));
    }
}

#[test]
fn line_parts() {
    assert_eq!(parse_line(b"Paris;10.0"), Ok((&b"Paris"[..], 100)));
    assert_eq!(parse_line(b";1.5"), Ok((&b""[..], 15)));
    assert_eq!(parse_line(b"St. John's;-3"), Ok((&b"St. John's"[..], -30)));
    assert_eq!(parse_line(b"Paris"), Err(LineError::MissingDelimiter));
    assert_eq!(parse_line(b""), Err(LineError::MissingDelimiter));
    assert_eq!(parse_line(b"Paris;"), Err(LineError::MalformedNumber));
    assert_eq!(parse_line(b"a;b;1.0"), Err(LineError::MalformedNumber));
    assert_eq!(parse_line(b"Paris;ten"), Err(LineError::MalformedNumber));
    assert_eq!(
        parse_line(b"Paris;9223372036854775807"),
        Err(LineError::NumberOutOfRange)
    );
}

#[test]
fn byte_search() {
    assert_eq!(find_from(b"a;b;c", b';', 0), 1);
    assert_eq!(find_from(b"a;b;c", b';', 1), 1);
    assert_eq!(find_from(b"a;b;c", b';', 2), 3);
    assert_eq!(find_from(b"a;b;c", b';', 4), 5);
    assert_eq!(find_from(b"a;b;c", b';', 5), 5);
    assert_eq!(find_from(b"a;b;c", b';', 9), 5);
    assert_eq!(find_from(b"", b';', 0), 0);
    assert_eq!(find_from(b"abc", b'x', 0), 3);
}

#[test]
fn byte_equality() {
    assert!(bytes_eq(b"", b""));
    assert!(bytes_eq(b"Paris", b"Paris"));
    assert!(!bytes_eq(b"Paris", b"paris"));
    assert!(!bytes_eq(b"Paris", b"Pari"));
    assert!(!bytes_eq(b"", b"x"));
}

#[test]
fn statistics_of_measurements() {
    let mut s = Stats::single(100);
    assert_eq!((s.min(), s.max(), s.sum(), s.count(), s.mean()), (100, 100, 100, 1, 100));
    assert_eq!(s.record(200), Ok(()));
    assert_eq!((s.min(), s.max(), s.sum(), s.count(), s.mean()), (100, 200, 300, 2, 150));
    assert_eq!(s.record(-50), Ok(()));
    assert_eq!((s.min(), s.max(), s.sum(), s.count()), (-50, 200, 250, 3));
    let mut t = Stats::single(7);
    assert_eq!(t.combine(&s), Ok(()));
    assert_eq!((t.min(), t.max(), t.sum(), t.count()), (-50, 200, 257, 4));
}

#[test]
fn mean_rounds_to_nearest_tenth_half_up() {
    let mean = |values: &[i64]| {
        let mut s = Stats::single(values[0]);
        for v in &values[1..] {
            s.record(*v).unwrap();
        }
        s.mean()
    };
    assert_eq!(mean(&[7, 8]), 8);
    assert_eq!(mean(&[-7, -8]), -7);
    assert_eq!(mean(&[1, 1, 2]), 1);
    assert_eq!(mean(&[1, 2, 2]), 2);
    assert_eq!(mean(&[-1, -1, -2]), -1);
    assert_eq!(mean(&[-1, -2, -2]), -2);
    assert_eq!(mean(&[0, -1]), 0);
    assert_eq!(mean(&[0, 1]), 1);
    assert_eq!(mean(&[10, 20, 30, 41]), 25);
    assert_eq!(mean(&[i64::MAX, i64::MAX]), i64::MAX);
    assert_eq!(mean(&[i64::MIN, i64::MIN, i64::MIN]), i64::MIN);
    assert_eq!(mean(&[i64::MIN, i64::MAX]), 0);
}

#[test]
fn count_overflow_leaves_statistics_unchanged() {
    let mut s = huge();
    assert_eq!(s.count(), 1u64 << 63);
    assert_eq!(s.sum(), 5i128 << 63);
    let other = s;
    assert_eq!(s.combine(&other), Err(CountOverflow));
    assert_eq!((s.min(), s.max(), s.sum(), s.count()), (5, 5, 5i128 << 63, 1u64 << 63));
    assert_eq!(s.record(-1), Ok(()));
    assert_eq!((s.min(), s.max(), s.sum(), s.count()), (-1, 5, (5i128 << 63) - 1, (1u64 << 63) + 1));
}

#[test]
fn record_at_the_greatest_count_fails() {
    let mut power = Stats::single(5);
    let mut s = power;
    for _ in 1..64 {
        let same = power;
        power.combine(&same).unwrap();
        s.combine(&power).unwrap();
    }
    assert_eq!(s.count(), u64::MAX);
    assert_eq!(s.sum(), 5 * (u64::MAX as i128));
    assert_eq!(s.mean(), 5);
    assert_eq!(s.record(7), Err(CountOverflow));
    assert_eq!(s.combine(&Stats::single(7)), Err(CountOverflow));
    assert_eq!((s.min(), s.max(), s.sum(), s.count()), (5, 5, 5 * (u64::MAX as i128), u64::MAX));
    let mut t = Table::new();
    t.absorb(b"k", s).unwrap();
    assert_eq!(t.record(b"k", 7), Err(CountOverflow));
    assert_eq!(t.record(b"j", 7), Ok(()));
    assert_eq!(t.get(b"k").unwrap().count(), u64::MAX);
}

#[test]
fn table_records_and_finds() {
    let mut t = Table::new();
    assert_eq!(t.len(), 0);
    assert!(t.is_empty());
    assert!(t.get(b"Paris").is_none());
    assert_eq!(t.record(b"Paris", 100), Ok(()));
    assert_eq!(t.record(b"London", 55), Ok(()));
    assert_eq!(t.record(b"Paris", 200), Ok(()));
    assert_eq!(t.len(), 2);
    assert!(!t.is_empty());
    let p = t.get(b"Paris").unwrap();
    assert_eq!((p.min(), p.max(), p.sum(), p.count()), (100, 200, 300, 2));
    let l = t.get(b"London").unwrap();
    assert_eq!((l.min(), l.max(), l.sum(), l.count()), (55, 55, 55, 1));
    assert!(t.get(b"paris").is_none());
    assert!(t.get(b"").is_none());
    assert_eq!(t.key_at(0), b"Paris");
    assert_eq!(t.key_at(1), b"London");
    assert_eq!(t.stats_at(1).count(), 1);
}

#[test]
fn table_absorbs_statistics() {
    let mut t = table_of(&[("a", 10), ("b", 20)]);
    let mut s = Stats::single(-5);
    s.record(30).unwrap();
    assert_eq!(t.absorb(b"a", s), Ok(()));
    assert_eq!(t.absorb(b"c", s), Ok(()));
    assert_eq!(
        rows_of(&t),
        vec![
            (b"a".to_vec(), -5, 30, 35, 3),
            (b"b".to_vec(), 20, 20, 20, 1),
            (b"c".to_vec(), -5, 30, 25, 2),
        ]
    );
}

#[test]
fn table_count_overflow() {
    let mut t = Table::new();
    assert_eq!(t.absorb(b"k", huge()), Ok(()));
    assert_eq!(t.absorb(b"k", huge()), Err(CountOverflow));
    assert_eq!(t.get(b"k").unwrap().count(), 1u64 << 63);
    assert_eq!(t.absorb(b"other", huge()), Ok(()));
    let mut u = Table::new();
    u.absorb(b"fine", huge()).unwrap();
    u.absorb(b"k", huge()).unwrap();
    assert!(t.merge(&u).is_err());
}

#[test]
fn merge_takes_keys_of_both() {
    let a = table_of(&[("x", 10), ("y", 20), ("x", 30)]);
    let b = table_of(&[("y", -5), ("z", 7)]);
    let m = a.merge(&b).unwrap();
    assert_eq!(
        rows_of(&m),
        vec![
            (b"x".to_vec(), 10, 30, 40, 2),
            (b"y".to_vec(), -5, 20, 15, 2),
            (b"z".to_vec(), 7, 7, 7, 1),
        ]
    );
    let e = Table::new().merge(&Table::new()).unwrap();
    assert_eq!(e.len(), 0);
}

#[test]
fn merge_is_associative() {
    let a = || table_of(&[("x", 10), ("y", 20), ("x", 30)]);
    let b = || table_of(&[("y", -5), ("z", 7), ("w", 1)]);
    let c = || table_of(&[("z", 100), ("x", -100), ("v", 0)]);
    let left = a().merge(&b()).unwrap().merge(&c()).unwrap();
    let right = a().merge(&b().merge(&c()).unwrap()).unwrap();
    assert_eq!(rows_of(&left), rows_of(&right));
    assert_eq!(
        rows_of(&left),
        vec![
            (b"v".to_vec(), 0, 0, 0, 1),
            (b"w".to_vec(), 1, 1, 1, 1),
            (b"x".to_vec(), -100, 30, -60, 3),
            (b"y".to_vec(), -5, 20, 15, 2),
            (b"z".to_vec(), 7, 100, 107, 2),
        ]
    );
}

#[test]
fn merge_is_commutative() {
    let a = || table_of(&[("x", 10), ("y", 20), ("x", 30)]);
    let b = || table_of(&[("y", -5), ("z", 7), ("w", 1)]);
    assert_eq!(rows_of(&a().merge(&b()).unwrap()), rows_of(&b().merge(&a()).unwrap()));
}

#[test]
fn reduce_gives_what_merging_in_order_gives() {
    let make = || {
        let mut tables = Vec::new();
        for i in 0..16i64 {
            tables.push(table_of(&[
                ("all", i),
                (if i % 2 == 0 { "even" } else { "odd" }, 10 * i),
                (if i == 7 { "seven" } else { "all" }, -i),
            ]));
        }
        tables
    };
    let flat = merge_all(&make()).unwrap();
    assert_eq!(flat.get(b"seven").unwrap().count(), 1);
    assert_eq!(flat.get(b"all").unwrap().count(), 31);
    assert_eq!(flat.get(b"all").unwrap().min(), -15);
    assert_eq!(flat.get(b"all").unwrap().max(), 15);
    assert_eq!(flat.get(b"even").unwrap().sum(), 560);
    for fan_in in [2usize, 3, 4, 5, 16, 17, 100] {
        let tree = reduce(make(), fan_in).unwrap();
        assert_eq!(rows_of(&tree), rows_of(&flat));
    }
    let part = merge_range(&make(), 4, 8).unwrap();
    assert_eq!(part.get(b"all").unwrap().count(), 7);
    assert_eq!(part.get(b"all").unwrap().max(), 7);
    assert_eq!(part.get(b"all").unwrap().min(), -6);
    assert_eq!(merge_range(&make(), 3, 3).unwrap().len(), 0);
}

#[test]
fn reduce_of_none_and_of_one() {
    assert_eq!(reduce(Vec::new(), 4).unwrap().len(), 0);
    assert_eq!(merge_all(&[]).unwrap().len(), 0);
    let one = reduce(vec![table_of(&[("a", 1), ("a", 3)])], 2).unwrap();
    assert_eq!(rows_of(&one), vec![(b"a".to_vec(), 1, 3, 4, 2)]);
}

#[test]
fn reduce_reports_count_overflow() {
    let make = || {
        let mut tables = Vec::new();
        for _ in 0..3 {
            let mut t = Table::new();
            t.absorb(b"k", huge()).unwrap();
            tables.push(t);
        }
        tables
    };
    assert!(reduce(make(), 2).is_err());
    assert!(reduce(make(), 4).is_err());
    assert!(merge_all(&make()).is_err());
    assert!(merge_range(&make(), 0, 1).is_ok());
}

#[test]
fn report_lines() {
    let mut s = Stats::single(100);
    s.record(200).unwrap();
    assert_eq!(format_line(b"Paris", &s), b"Paris,10.0,20.0,15.0".to_vec());
    let t = Stats::single(-55);
    assert_eq!(format_line(b"", &t), b",-5.5,-5.5,-5.5".to_vec());
    let mut out = b"x\n".to_vec();
    append_line(&mut out, b"k", &t);
    assert_eq!(out, b"x\nk,-5.5,-5.5,-5.5".to_vec());
    append_bytes(&mut out, b"\nend");
    assert_eq!(out, b"x\nk,-5.5,-5.5,-5.5\nend".to_vec());
    let table = table_of(&[("b", 15), ("a", -5), ("b", 0)]);
    assert_eq!(format_table(&table), b"b,0.0,1.5,0.8\na,-0.5,-0.5,-0.5\n".to_vec());
    assert_eq!(format_table(&Table::new()), Vec::<u8>::new());
}

#[test]
fn merge_lists_the_keys_of_the_first_table_first() {
    let a = table_of(&[("x", 10), ("y", 20), ("x", 30)]);
    let b = table_of(&[("z", 7), ("y", -5), ("w", 1)]);
    let m = a.merge(&b).unwrap();
    let keys: Vec<&[u8]> = (0..m.len()).map(|i| m.key_at(i)).collect();
    assert_eq!(keys, vec![&b"x"[..], b"y", b"z", b"w"]);
    let tables = vec![
        table_of(&[("c", 1)]),
        table_of(&[("b", 1), ("c", 1)]),
        table_of(&[("a", 1)]),
        table_of(&[("d", 1), ("a", 1)]),
        table_of(&[("e", 1), ("b", 2)]),
    ];
    let t = reduce(tables, 2).unwrap();
    let keys: Vec<&[u8]> = (0..t.len()).map(|i| t.key_at(i)).collect();
    assert_eq!(keys, vec![&b"c"[..], b"b", b"a", b"d", b"e"]);
    assert_eq!(t.get(b"b").unwrap().sum(), 3);
}

#[test]
fn keys_that_share_a_slot_are_kept_apart() {
    let mut t = Table::new();
    let mut keys: Vec<Vec<u8>> = Vec::new();
    for i in 0..20000u32 {
        keys.push(i.to_le_bytes().to_vec());
    }
    for (i, key) in keys.iter().enumerate() {
        t.record(key, i as i64).unwrap();
    }
    for (i, key) in keys.iter().enumerate() {
        t.record(key, -(i as i64)).unwrap();
    }
    assert_eq!(t.len(), 20000);
    for (i, key) in keys.iter().enumerate() {
        let s = t.get(key).unwrap();
        assert_eq!((s.min(), s.max(), s.sum(), s.count()), (-(i as i64), i as i64, 0, 2));
        assert_eq!(t.key_at(i), &key[..]);
    }
    assert!(t.get(&20000u32.to_le_bytes()).is_none());
    assert!(t.get(b"").is_none());
}
