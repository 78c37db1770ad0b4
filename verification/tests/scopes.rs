use std::time::{Duration, Instant};
use voxell_timer::power_toys::ScopedTimer;
use voxell_timer::time_fn;

fn busy(millis: u64) {
    let start = Instant::now();
    while start.elapsed() < Duration::from_millis(millis) {}
}

fn ms(millis: u64) -> Duration {
    Duration::from_millis(millis)
}

#[test]
fn test() {
    fn sleep(x: u64) {
        busy(x / 10);
    }

    let mut tlt: ScopedTimer<usize> = ScopedTimer::new(0);
    let fork1 = tlt.fork(1);
    sleep(333);
    fork1.join();

    let mut fork2 = tlt.fork(2);
    let mut fork3 = fork2.fork(3);
    let mut fork4 = fork3.fork(4);
    let fork5 = fork4.fork(5);
    sleep(1000);
    fork5.join();
    fork4.join();
    fork3.join();
    fork2.join();

    let mut fork6 = tlt.fork(6);
    for _ in 0..6 {
        let fork7 = fork6.fork(7);
        sleep(666);
        fork7.join();
    }
    fork6.join();

    let mut fork8 = tlt.fork(8);
    for _ in 0..100000 {
        let fork9 = fork8.fork(9);
        fork9.join();
    }
    fork8.join();

    let results = tlt.join_and_finish_pretty();
    println!("{}", results);
    assert!(results.starts_with("+-"));
    assert_eq!(results.lines().count(), 4 + 10);
    assert!(results.contains("| 100000 "));
}

#[test]
fn single_fork_reports_child_before_root() {
    let mut root: ScopedTimer<&str> = ScopedTimer::new("R");
    let a = root.fork("A");
    a.join_after(ms(100));
    let report = root.join_and_finish_after(ms(100));
    assert_eq!(report, vec![("A", ms(100), 1), ("R", Duration::ZERO, 1)]);
}

#[test]
fn single_fork_with_the_clock() {
    let mut root: ScopedTimer<&str> = ScopedTimer::new("R");
    let a = root.fork("A");
    busy(20);
    a.join();
    let report = root.join_and_finish();
    assert_eq!(report.len(), 2);
    assert_eq!(report[0].0, "A");
    assert_eq!(report[0].2, 1);
    assert!(report[0].1 >= ms(20));
    assert_eq!(report[1].0, "R");
    assert_eq!(report[1].2, 1);
    assert!(report[1].1 < ms(20));
}

#[test]
fn six_forks_of_one_identifier_merge() {
    let mut root: ScopedTimer<&str> = ScopedTimer::new("R");
    for _ in 0..6 {
        let a = root.fork("A");
        a.join_after(ms(66));
    }
    let report = root.join_and_finish_after(ms(396));
    assert_eq!(report, vec![("A", ms(396), 6), ("R", Duration::ZERO, 6)]);
}

#[test]
fn forking_twice_makes_one_child() {
    let mut root: ScopedTimer<u32> = ScopedTimer::new(0);
    root.fork(1).join_after(ms(1));
    root.fork(2).join_after(ms(2));
    root.fork(1).join_after(ms(4));
    let report = root.join_and_finish_after(ms(10));
    assert_eq!(report, vec![(1, ms(5), 2), (2, ms(2), 1), (0, ms(3), 3)]);
}

#[test]
fn nested_forks_report_innermost_first() {
    let mut root: ScopedTimer<&str> = ScopedTimer::new("R");
    {
        let mut a = root.fork("A");
        let b = a.fork("B");
        b.join_after(ms(50));
        a.join_after(ms(50));
    }
    let report = root.join_and_finish_after(ms(50));
    assert_eq!(
        report,
        vec![("B", ms(50), 1), ("A", Duration::ZERO, 1), ("R", Duration::ZERO, 1)]
    );
}

#[test]
fn nested_forks_with_the_clock() {
    let mut root: ScopedTimer<&str> = ScopedTimer::new("R");
    {
        let mut a = root.fork("A");
        let b = a.fork("B");
        busy(20);
        b.join();
        a.join();
    }
    let report = root.join_and_finish();
    assert_eq!(report.len(), 3);
    assert_eq!((report[0].0, report[0].2), ("B", 1));
    assert_eq!((report[1].0, report[1].2), ("A", 1));
    assert_eq!((report[2].0, report[2].2), ("R", 1));
    assert!(report[0].1 >= ms(20));
    assert!(report[1].1 < report[0].1);
    assert!(report[2].1 < report[0].1);
}

#[test]
fn forking_from_a_handle_does_not_count_on_the_handle() {
    let mut root: ScopedTimer<&str> = ScopedTimer::new("R");
    {
        let mut a = root.fork("A");
        a.fork("B").join_after(ms(1));
        a.fork("C").join_after(ms(1));
        a.fork("B").join_after(ms(1));
        a.join_after(ms(5));
    }
    let report = root.join_and_finish_after(ms(9));
    assert_eq!(
        report,
        vec![("B", ms(2), 2), ("C", ms(1), 1), ("A", ms(2), 1), ("R", ms(4), 1)]
    );
}

#[test]
fn self_time_is_accumulated_less_children() {
    let mut root: ScopedTimer<u8> = ScopedTimer::new(0);
    {
        let mut a = root.fork(1);
        a.fork(2).join_after(Duration::new(1, 500));
        a.fork(3).join_after(Duration::new(2, 250));
        a.join_after(Duration::new(10, 1000));
    }
    let report = root.join_and_finish_after(Duration::new(12, 0));
    assert_eq!(report[2], (1, Duration::new(7, 250), 1));
    assert_eq!(report[3], (0, Duration::new(1, 999_999_000), 1));
}

#[test]
fn self_time_saturates_at_zero() {
    let mut root: ScopedTimer<&str> = ScopedTimer::new("R");
    {
        let mut a = root.fork("A");
        a.fork("B").join_after(ms(30));
        a.fork("C").join_after(ms(30));
        a.join_after(ms(40));
    }
    let report = root.join_and_finish_after(ms(10));
    assert_eq!(
        report,
        vec![
            ("B", ms(30), 1),
            ("C", ms(30), 1),
            ("A", Duration::ZERO, 1),
            ("R", Duration::ZERO, 1)
        ]
    );
}

#[test]
fn accumulated_time_stops_at_the_longest_duration() {
    let mut root: ScopedTimer<&str> = ScopedTimer::new("R");
    root.fork("A").join_after(Duration::MAX);
    root.fork("A").join_after(ms(1));
    let report = root.join_and_finish_after(Duration::ZERO);
    assert_eq!(report, vec![("A", Duration::MAX, 2), ("R", Duration::ZERO, 2)]);
}

#[test]
fn root_alone_reports_itself() {
    let root: ScopedTimer<&str> = ScopedTimer::new("R");
    let report = root.join_and_finish_after(ms(7));
    assert_eq!(report, vec![("R", ms(7), 0)]);
}

#[test]
fn root_is_active_from_its_making() {
    let root: ScopedTimer<&str> = ScopedTimer::new("R");
    busy(10);
    let report = root.join_and_finish();
    assert_eq!(report.len(), 1);
    assert!(report[0].1 >= ms(10));
}

#[test]
fn starting_at_keeps_the_given_instant() {
    let then = Instant::now();
    busy(10);
    let root: ScopedTimer<&str> = ScopedTimer::starting_at("R", then);
    let report = root.join_and_finish();
    assert!(report[0].1 >= ms(10));
}

#[test]
fn fork_at_keeps_the_given_instant() {
    let then = Instant::now();
    busy(10);
    let mut root: ScopedTimer<&str> = ScopedTimer::new("R");
    {
        let mut a = root.fork_at("A", then);
        let b = a.fork_at("B", then);
        b.join();
        a.join();
    }
    let report = root.join_and_finish_after(ms(100));
    assert_eq!(report[0].0, "B");
    assert!(report[0].1 >= ms(10));
    assert_eq!(report[1].0, "A");
    assert!(report[1].1 < ms(10));
}

#[test]
fn refork_resets_the_activation_start() {
    let mut root: ScopedTimer<&str> = ScopedTimer::new("R");
    root.fork("A").join();
    busy(20);
    root.fork("A").join();
    let report = root.join_and_finish();
    assert_eq!(report[0].0, "A");
    assert_eq!(report[0].2, 2);
    assert!(report[0].1 < ms(20));
}

#[test]
fn ten_thousand_rapid_forks() {
    let mut root: ScopedTimer<&str> = ScopedTimer::new("R");
    for _ in 0..10000 {
        let a = root.fork("A");
        a.join();
    }
    let report = root.join_and_finish();
    assert_eq!(report.len(), 2);
    assert_eq!(report[0].0, "A");
    assert_eq!(report[0].2, 10000);
    assert!(report[0].1 > Duration::ZERO);
    assert!(report[0].1 < Duration::from_secs(5));
    assert_eq!(report[1].2, 10000);
}

#[test]
fn a_dropped_handle_is_joined() {
    let mut root: ScopedTimer<&str> = ScopedTimer::new("R");
    {
        let _a = root.fork("A");
        busy(20);
    }
    let report = root.join_and_finish();
    assert_eq!(report[0].0, "A");
    assert!(report[0].1 >= ms(20));
}

#[test]
fn a_joined_handle_is_joined_once() {
    let then = Instant::now();
    busy(20);
    let mut root: ScopedTimer<&str> = ScopedTimer::new("R");
    let a = root.fork_at("A", then);
    a.join_after(ms(3));
    let report = root.join_and_finish_after(ms(3));
    assert_eq!(report[0], ("A", ms(3), 1));
}

#[test]
fn time_fn_returns_the_result() {
    let (res, dur) = time_fn(|| {
        busy(10);
        5 + 3
    });
    assert_eq!(res, 8);
    assert!(dur >= ms(10));
}

#[test]
fn time_fn_moves_what_it_captures() {
    #[derive(PartialEq, Debug)]
    struct Noncopy;
    let capture = Noncopy;
    let (res, _dur) = time_fn(move || capture);
    assert_eq!(res, Noncopy);
}
