//! Tests for aggregation, ranking and report rendering.

use toip::{render_report, render_row, scan_lines, FrequencyTable};

fn b(s: &str) -> Vec<u8> {
    s.as_bytes().to_vec()
}

fn lines(ls: &[&str]) -> Vec<Vec<u8>> {
    ls.iter().map(|l| b(l)).collect()
}

#[test]
fn observe_increments_and_initializes() {
    let mut t = FrequencyTable::new();
    assert_eq!(t.count_of(&b("1.1.1.1")), 0);
    t.observe(b("1.1.1.1"));
    t.observe(b("1.1.1.1"));
    t.observe(b("2.2.2.2"));
    assert_eq!(t.count_of(&b("1.1.1.1")), 2);
    assert_eq!(t.count_of(&b("2.2.2.2")), 1);
    assert_eq!(t.count_of(&b("3.3.3.3")), 0);
    assert_eq!(t.distinct_count(), 2);
}

#[test]
fn aggregation_order_independent() {
    let a = lines(&["1.1.1.1 x", "1.1.1.1 y", "2.2.2.2 z"]);
    let perms: [[usize; 3]; 6] = [
        [0, 1, 2],
        [0, 2, 1],
        [1, 0, 2],
        [1, 2, 0],
        [2, 0, 1],
        [2, 1, 0],
    ];
    for p in perms.iter() {
        let shuffled: Vec<Vec<u8>> = p.iter().map(|&i| a[i].clone()).collect();
        let t = scan_lines(&shuffled);
        assert_eq!(t.count_of(&b("1.1.1.1")), 2);
        assert_eq!(t.count_of(&b("2.2.2.2")), 1);
        assert_eq!(t.distinct_count(), 2);
    }
}

#[test]
fn sum_of_counts_equals_matched_lines() {
    let input = lines(&[
        "8.8.8.8 query",
        "no match on this line",
        "8.8.8.8 again",
        "9.9.9.9 once",
        "also nothing",
        "1.2.3.4",
    ]);
    let t = scan_lines(&input);
    let all = t.top(t.distinct_count());
    let total: u64 = all.iter().map(|e| e.1).sum();
    assert_eq!(total, 4);
}

#[test]
fn rescan_yields_identical_tables() {
    let input = lines(&["5.5.5.5 a", "6.6.6.6 b", "5.5.5.5 c", "junk"]);
    let t1 = scan_lines(&input);
    let t2 = scan_lines(&input);
    assert_eq!(t1.distinct_count(), t2.distinct_count());
    assert_eq!(t1.count_of(&b("5.5.5.5")), t2.count_of(&b("5.5.5.5")));
    assert_eq!(t1.count_of(&b("6.6.6.6")), t2.count_of(&b("6.6.6.6")));
    assert_eq!(t1.top(10), t2.top(10));
}

#[test]
fn top_zero_returns_empty() {
    let t = scan_lines(&lines(&["1.1.1.1", "2.2.2.2"]));
    assert_eq!(t.top(0), Vec::<(Vec<u8>, u64)>::new());
}

#[test]
fn top_of_empty_table_is_empty() {
    let t = FrequencyTable::new();
    assert_eq!(t.top(5), Vec::<(Vec<u8>, u64)>::new());
}

#[test]
fn top_beyond_distinct_returns_all() {
    let t = scan_lines(&lines(&["1.1.1.1", "2.2.2.2", "1.1.1.1"]));
    let r = t.top(100);
    assert_eq!(r, vec![(b("1.1.1.1"), 2), (b("2.2.2.2"), 1)]);
}

#[test]
fn top_sorted_by_count_descending() {
    let t = scan_lines(&lines(&[
        "3.3.3.3", "7.7.7.7", "7.7.7.7", "7.7.7.7", "5.5.5.5", "5.5.5.5",
    ]));
    let r = t.top(2);
    assert_eq!(r, vec![(b("7.7.7.7"), 3), (b("5.5.5.5"), 2)]);
}

#[test]
fn top_ties_broken_lexicographically() {
    let t = scan_lines(&lines(&["9.0.0.2", "9.0.0.10", "9.0.0.1"]));
    let r = t.top(3);
    assert_eq!(r, vec![(b("9.0.0.1"), 1), (b("9.0.0.10"), 1), (b("9.0.0.2"), 1)]);
}

#[test]
fn render_row_pads_count_to_five() {
    assert_eq!(render_row(3, &b("9.9.9.1")), b("    3\t9.9.9.1"));
    assert_eq!(render_row(12345, &b("1.2.3.4")), b("12345\t1.2.3.4"));
}

#[test]
fn render_row_wide_count_unpadded() {
    assert_eq!(render_row(123456, &b("1.2.3.4")), b("123456\t1.2.3.4"));
}

#[test]
fn report_layout() {
    let entries = vec![(b("1.1.1.1"), 2u64), (b("2.2.2.2"), 1u64)];
    let rep = render_report(&entries);
    assert_eq!(rep.len(), 4);
    assert_eq!(rep[0], b("Count\tName"));
    assert_eq!(rep[1], b("-----\t----"));
    assert_eq!(rep[2], b("    2\t1.1.1.1"));
    assert_eq!(rep[3], b("    1\t2.2.2.2"));
}

#[test]
fn end_to_end_scenario() {
    let input = lines(&[
        "9.9.9.1 first",
        "9.9.9.2 second",
        "9.9.9.1 third",
        "9.9.9.2 fourth",
        "9.9.9.1 fifth",
    ]);
    let t = scan_lines(&input);
    assert_eq!(t.distinct_count(), 2);
    let top = t.top(1);
    assert_eq!(top, vec![(b("9.9.9.1"), 3)]);
    let rep = render_report(&top);
    assert_eq!(rep.len(), 3);
    assert_eq!(rep[2], b("    3\t9.9.9.1"));
}
