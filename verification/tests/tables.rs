use std::time::Duration;
use voxell_timer::power_toys::ScopedTimer;
use voxell_timer::ranking::rank;
use voxell_timer::report::{describe, pretty_table};
use voxell_timer::table::{decimal_text, render_table};

fn ms(millis: u64) -> Duration {
    Duration::from_millis(millis)
}

fn row(a: &str, b: &str, c: &str) -> (String, String, String) {
    (a.to_string(), b.to_string(), c.to_string())
}

#[test]
fn rank_orders_longest_first() {
    let ranked = rank(vec![("a", ms(10), 1), ("b", ms(1000), 2), ("c", ms(500), 3)]);
    assert_eq!(ranked, vec![("b", ms(1000), 2), ("c", ms(500), 3), ("a", ms(10), 1)]);
}

#[test]
fn rank_keeps_equal_times_in_order() {
    let ranked = rank(vec![
        ("a", ms(5), 1),
        ("b", ms(9), 1),
        ("c", ms(5), 1),
        ("d", ms(9), 1),
        ("e", ms(5), 1),
        ("f", ms(7), 1),
    ]);
    let names: Vec<&str> = ranked.iter().map(|r| r.0).collect();
    assert_eq!(names, vec!["b", "d", "f", "a", "c", "e"]);
}

#[test]
fn rank_of_nothing_is_nothing() {
    let ranked: Vec<(u8, Duration, u32)> = rank(Vec::new());
    assert!(ranked.is_empty());
}

#[test]
fn rank_twice_is_rank_once() {
    let once = rank(vec![(1, ms(3), 1), (2, ms(3), 1), (3, ms(8), 1), (4, ms(1), 1)]);
    let twice = rank(once.clone());
    assert_eq!(once, twice);
}

#[test]
fn decimal_text_writes_digits() {
    assert_eq!(decimal_text(0), "0");
    assert_eq!(decimal_text(7), "7");
    assert_eq!(decimal_text(10), "10");
    assert_eq!(decimal_text(305), "305");
    assert_eq!(decimal_text(10000), "10000");
    assert_eq!(decimal_text(u32::MAX), "4294967295");
}

#[test]
fn describe_words_each_line() {
    let rows = describe(&vec![("hot loop", Duration::new(1, 500_000_000), 12), ("x", ms(16), 0)]);
    assert_eq!(rows, vec![row("hot loop", "1.5s", "12"), row("x", "16ms", "0")]);
}

#[test]
fn describe_words_durations_as_debug_does() {
    let rows = describe(&vec![
        (1, Duration::from_nanos(0), 1),
        (2, Duration::from_nanos(1), 1),
        (3, Duration::from_micros(16_485), 1),
        (4, Duration::from_secs(3600), 1),
    ]);
    let words: Vec<&str> = rows.iter().map(|r| r.1.as_str()).collect();
    assert_eq!(words, vec!["0ns", "1ns", "16.485ms", "3600s"]);
    assert_eq!(rows[3].0, "4");
}

#[test]
fn empty_table_has_labels_only() {
    let table = render_table(&Vec::new());
    let expected = "\
+------------+----------+--------------+
| Identifier | Duration | Times Forked |
+------------+----------+--------------+
+------------+----------+--------------+";
    assert_eq!(table, expected);
}

#[test]
fn columns_grow_with_their_cells() {
    let table = render_table(&vec![
        row("scope 1", "16.485ms", "15"),
        row("scope sdfkljsdfsdf", "0.00000000001s", "1"),
        row("hot loop", "5.34h", "3651343000000"),
    ]);
    let expected = "\
+--------------------+----------------+---------------+
| Identifier         | Duration       | Times Forked  |
+--------------------+----------------+---------------+
| scope 1            | 16.485ms       | 15            |
| scope sdfkljsdfsdf | 0.00000000001s | 1             |
| hot loop           | 5.34h          | 3651343000000 |
+--------------------+----------------+---------------+";
    assert_eq!(table, expected);
}

#[test]
fn rows_are_as_long_as_rules() {
    let table = render_table(&vec![row("a", "b", "c"), row("a much longer identifier", "1s", "2")]);
    let lines: Vec<&str> = table.lines().collect();
    assert_eq!(lines.len(), 6);
    for line in &lines {
        assert_eq!(line.chars().count(), lines[0].chars().count());
    }
    assert_eq!(lines[0].matches('-').count(), (24 + 2) + (8 + 2) + (12 + 2));
    assert!(!table.ends_with('\n'));
}

#[test]
fn widths_count_bytes_and_padding_counts_characters() {
    let table = render_table(&vec![row("é", "1s", "1"), row("ééééééé", "1s", "1")]);
    let expected = "\
+----------------+----------+--------------+
| Identifier     | Duration | Times Forked |
+----------------+----------+--------------+
| é              | 1s       | 1            |
| ééééééé        | 1s       | 1            |
+----------------+----------+--------------+";
    assert_eq!(table, expected);
}

#[test]
fn siblings_are_listed_longest_first() {
    let mut root: ScopedTimer<&str> = ScopedTimer::new("R");
    root.fork("A").join_after(ms(10));
    root.fork("B").join_after(ms(1000));
    let table = pretty_table(root.join_and_finish_after(ms(1010)));
    let expected = "\
+------------+----------+--------------+
| Identifier | Duration | Times Forked |
+------------+----------+--------------+
| B          | 1s       | 1            |
| A          | 10ms     | 1            |
| R          | 0ns      | 2            |
+------------+----------+--------------+";
    assert_eq!(table, expected);
}

#[test]
fn siblings_with_the_clock_are_listed_longest_first() {
    let mut root: ScopedTimer<&str> = ScopedTimer::new("R");
    root.fork("A").join();
    let b = root.fork("B");
    let start = std::time::Instant::now();
    while start.elapsed() < ms(20) {}
    b.join();
    let table = root.join_and_finish_pretty();
    let lines: Vec<&str> = table.lines().collect();
    assert_eq!(lines.len(), 7);
    assert!(lines[3].starts_with("| B "));
    assert!(lines[1].starts_with("| Identifier | Duration"));
    assert_eq!(lines[0], lines[2]);
    assert_eq!(lines[0], lines[6]);
}

#[test]
fn rendering_twice_gives_the_same_table() {
    let report = vec![("a", ms(5), 1), ("b", ms(9), 2), ("c", ms(5), 3)];
    let first = pretty_table(report.clone());
    let second = pretty_table(report);
    assert_eq!(first, second);
}

#[test]
fn equal_times_keep_report_order_in_the_table() {
    let table = pretty_table(vec![("x", ms(5), 1), ("y", ms(5), 2), ("z", ms(6), 3)]);
    let lines: Vec<&str> = table.lines().collect();
    assert!(lines[3].starts_with("| z "));
    assert!(lines[4].starts_with("| x "));
    assert!(lines[5].starts_with("| y "));
}
