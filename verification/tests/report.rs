use c_oncpu::counts::merge_processors;
use c_oncpu::report::{merge, render_line, Line, Report};

fn line(key: &str, count: u64) -> Line {
    Line { key: String::from(key), count }
}

fn lines_of(report: &Report) -> Vec<(String, u64)> {
    let mut lines = Vec::new();
    let mut i = 0;
    while i < report.len() {
        let line = report.line(i).unwrap();
        lines.push((line.key.clone(), line.count));
        i += 1;
    }
    lines
}

#[test]
fn counts_of_the_processors_are_added_up() {
    assert_eq!(merge_processors(&Vec::new()), Some(0));
    assert_eq!(merge_processors(&vec![5]), Some(5));
    assert_eq!(merge_processors(&vec![1, 0, 2, 4]), Some(7));
    assert_eq!(merge_processors(&vec![u64::MAX - 1, 1]), Some(u64::MAX));
}

#[test]
fn sum_of_the_processors_that_does_not_fit() {
    assert_eq!(merge_processors(&vec![u64::MAX, 1]), None);
    assert_eq!(merge_processors(&vec![u64::MAX, 0, 1, 0]), None);
    assert_eq!(merge_processors(&vec![1 << 63, 1 << 63]), None);
}

#[test]
fn new_report_has_no_lines() {
    let report = Report::new();
    assert_eq!(report.len(), 0);
    assert_eq!(report.total(), 0);
    assert_eq!(report.render(), "");
    assert!(report.line(0).is_none());
    assert_eq!(report.count_of("main"), 0);
}

#[test]
fn same_text_is_merged_by_adding() {
    let mut report = Report::new();
    assert!(report.add(String::from("main;work"), 2));
    assert!(report.add(String::from("main;idle"), 1));
    assert!(report.add(String::from("main;work"), 3));
    assert_eq!(
        lines_of(&report),
        vec![(String::from("main;work"), 5), (String::from("main;idle"), 1)]
    );
    assert_eq!(report.count_of("main;work"), 5);
    assert_eq!(report.count_of("main;idle"), 1);
    assert_eq!(report.count_of("main"), 0);
    assert_eq!(report.total(), 6);
}

#[test]
fn line_with_count_zero_is_kept() {
    let mut report = Report::new();
    assert!(report.add(String::from("main"), 0));
    assert_eq!(lines_of(&report), vec![(String::from("main"), 0)]);
    assert_eq!(report.render(), "main 0\n");
}

#[test]
fn count_that_does_not_fit_is_not_added() {
    let mut report = Report::new();
    assert!(report.add(String::from("a"), u64::MAX - 1));
    assert!(report.add(String::from("b"), 7));
    assert!(!report.add(String::from("a"), 2));
    assert_eq!(lines_of(&report), vec![(String::from("a"), u64::MAX - 1), (String::from("b"), 7)]);
    assert!(report.add(String::from("a"), 1));
    assert_eq!(report.count_of("a"), u64::MAX);
    assert!(!report.add(String::from("a"), 1));
    assert!(report.add(String::from("a"), 0));
    assert_eq!(report.count_of("a"), u64::MAX);
}

#[test]
fn total_is_not_bound_by_one_line() {
    let mut report = Report::new();
    assert!(report.add(String::from("a"), u64::MAX));
    assert!(report.add(String::from("b"), u64::MAX));
    assert_eq!(report.total(), 2 * (u64::MAX as u128));
}

#[test]
fn line_of_the_file() {
    assert_eq!(render_line("main;work;compute +0x10", 2), "main;work;compute +0x10 2\n");
    assert_eq!(render_line("", 0), " 0\n");
    assert_eq!(render_line("a", u64::MAX), "a 18446744073709551615\n");
}

#[test]
fn two_stacks_with_three_samples() {
    let entries = vec![
        line("main;work;compute +0x10", 1),
        line("main;work;compute +0x10", 1),
        line("main;idle +0x4", 1),
    ];
    let report = merge(&entries).unwrap();
    assert_eq!(report.len(), 2);
    assert_eq!(report.count_of("main;work;compute +0x10"), 2);
    assert_eq!(report.count_of("main;idle +0x4"), 1);
    let text = report.render();
    let mut written: Vec<&str> = text.lines().collect();
    written.sort();
    assert_eq!(written, vec!["main;idle +0x4 1", "main;work;compute +0x10 2"]);
    assert_eq!(text, "main;work;compute +0x10 2\nmain;idle +0x4 1\n");
}

#[test]
fn merging_keeps_the_sum_of_the_counts() {
    let entries = vec![
        line("a", 3),
        line("b", 0),
        line("a", 4),
        line("c", 10),
        line("b", 1),
        line("a", 5),
    ];
    let report = merge(&entries).unwrap();
    assert_eq!(report.total(), 23);
    assert_eq!(
        lines_of(&report),
        vec![(String::from("a"), 12), (String::from("b"), 1), (String::from("c"), 10)]
    );
    assert_eq!(report.render(), "a 12\nb 1\nc 10\n");
}

#[test]
fn merging_nothing_gives_an_empty_report() {
    let report = merge(&Vec::new()).unwrap();
    assert_eq!(report.len(), 0);
}

#[test]
fn merging_fails_where_one_text_counts_too_much() {
    let entries = vec![line("a", u64::MAX), line("b", 1), line("a", 1)];
    assert!(merge(&entries).is_none());
    let fits = vec![line("a", u64::MAX), line("b", 1), line("a", 0)];
    assert!(merge(&fits).is_some());
}

#[test]
fn order_of_merging_does_not_change_the_counts() {
    let first = vec![line("a", 3), line("b", 1), line("a", 4)];
    let second = vec![line("c", 5), line("b", 2)];
    let mut one_way = Vec::new();
    one_way.extend(first.iter().cloned());
    one_way.extend(second.iter().cloned());
    let mut other_way = Vec::new();
    other_way.extend(second.iter().cloned());
    other_way.extend(first.iter().cloned());
    let left = merge(&one_way).unwrap();
    let right = merge(&other_way).unwrap();
    for key in ["a", "b", "c", "d"] {
        assert_eq!(left.count_of(key), right.count_of(key));
    }
    assert_eq!(left.count_of("a"), 7);
    assert_eq!(left.count_of("b"), 3);
    assert_eq!(left.count_of("c"), 5);
    assert_eq!(left.total(), right.total());
    assert_eq!(lines_of(&left)[0], (String::from("a"), 7));
    assert_eq!(lines_of(&right)[0], (String::from("c"), 5));
}
