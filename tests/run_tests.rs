use childsize::processor::sort_rows;
use childsize::{ChildSizeEntry, FilterError, GlobFilter, Opts, Processor, SortMode};

fn opts(patterns: &[&str], sort: SortMode, reverse: bool, show_summary: bool) -> Opts {
    Opts {
        paths: vec!["/r".to_string()],
        patterns: patterns.iter().map(|p| p.to_string()).collect(),
        sort,
        reverse,
        show_summary,
    }
}

fn walk(p: &mut Processor, f: &GlobFilter) {
    p.filefold("/r", "/r", false, "r", None, f);
    p.filefold("/r/a", "/r", false, "a", None, f);
    p.filefold("/r/a/1.txt", "/r", true, "1.txt", Some(10), f);
    p.filefold("/r/a/2.txt", "/r", true, "2.txt", Some(30), f);
    p.filefold("/r/b", "/r", false, "b", None, f);
    p.filefold("/r/b/3.txt", "/r", true, "3.txt", Some(20), f);
}

fn entry(count: u64, total: u64, average: u64, max: u64, min: u64) -> ChildSizeEntry {
    ChildSizeEntry { count, total, average, max, min }
}

#[test]
fn scenario_two_groups_by_total() {
    let mut p = Processor::new(opts(&[], SortMode::Total, false, false));
    let f = p.glob_filter().unwrap();
    walk(&mut p, &f);
    let r = p.process();
    assert_eq!(r.rows.len(), 2);
    assert_eq!(r.rows[0].0, "/r/b");
    assert_eq!(r.rows[0].1, entry(1, 20, 20, 20, 20));
    assert_eq!(r.rows[1].0, "/r/a");
    assert_eq!(r.rows[1].1, entry(2, 40, 20, 30, 10));
    assert!(r.summary.is_none());
}

#[test]
fn scenario_summary_block() {
    let mut p = Processor::new(opts(&[], SortMode::Total, false, true));
    let f = p.glob_filter().unwrap();
    walk(&mut p, &f);
    let r = p.process();
    assert_eq!(r.summary, Some(entry(3, 60, 20, 30, 10)));
}

#[test]
fn scenario_pattern_matches_nothing() {
    let mut p = Processor::new(opts(&["*.log"], SortMode::Total, false, true));
    let f = p.glob_filter().unwrap();
    walk(&mut p, &f);
    let r = p.process();
    assert!(r.rows.is_empty());
    let s = r.summary.unwrap();
    assert_eq!(s.count, 0);
    assert_eq!(s.average, 0);
}

#[test]
fn reverse_flips_order() {
    let mut p = Processor::new(opts(&[], SortMode::Total, true, false));
    let f = p.glob_filter().unwrap();
    walk(&mut p, &f);
    let r = p.process();
    assert_eq!(r.rows[0].0, "/r/a");
    assert_eq!(r.rows[1].0, "/r/b");
}

#[test]
fn ties_ordered_by_key() {
    let rows = vec![
        ("/r/c".to_string(), entry(1, 5, 5, 5, 5)),
        ("/r/a".to_string(), entry(1, 5, 5, 5, 5)),
        ("/r/b".to_string(), entry(2, 1, 0, 1, 0)),
    ];
    let sorted = sort_rows(rows, SortMode::Average, false);
    let keys: Vec<&str> = sorted.iter().map(|r| r.0.as_str()).collect();
    assert_eq!(keys, vec!["/r/b", "/r/a", "/r/c"]);
    let again = sort_rows(sorted.clone(), SortMode::Average, true);
    let keys: Vec<&str> = again.iter().map(|r| r.0.as_str()).collect();
    assert_eq!(keys, vec!["/r/c", "/r/a", "/r/b"]);
}

#[test]
fn sort_by_count_max_min() {
    let rows = vec![
        ("x".to_string(), entry(3, 9, 3, 5, 1)),
        ("y".to_string(), entry(1, 7, 7, 7, 7)),
        ("z".to_string(), entry(2, 8, 4, 6, 2)),
    ];
    let by = |m: SortMode| -> Vec<String> {
        sort_rows(rows.clone(), m, false).into_iter().map(|r| r.0).collect()
    };
    assert_eq!(by(SortMode::Count), vec!["y", "z", "x"]);
    assert_eq!(by(SortMode::Max), vec!["x", "z", "y"]);
    assert_eq!(by(SortMode::Min), vec!["x", "z", "y"]);
}

#[test]
fn empty_pattern_set_passes_every_name() {
    let f = GlobFilter::new(&vec![]).unwrap();
    assert!(f.matches("anything.bin"));
    assert!(f.matches(""));
}

#[test]
fn one_pattern_passes_matching_names_only() {
    let f = GlobFilter::new(&vec!["*.txt".to_string()]).unwrap();
    assert!(f.matches("1.txt"));
    assert!(!f.matches("1.log"));
    let g = GlobFilter::new(&vec!["*.log".to_string(), "a?.txt".to_string()]).unwrap();
    assert!(g.matches("ab.txt"));
    assert!(g.matches("x.log"));
    assert!(!g.matches("abc.txt"));
}

#[test]
fn invalid_pattern_is_reported() {
    let r = GlobFilter::new(&vec!["*.txt".to_string(), "a[".to_string(), "{".to_string()]);
    assert_eq!(r.err(), Some(FilterError::InvalidPattern(1)));
    let p = Processor::new(opts(&["[z-a]"], SortMode::Count, false, false));
    assert_eq!(p.glob_filter().err(), Some(FilterError::InvalidPattern(0)));
}

#[test]
fn filtered_files_reach_no_accumulator() {
    let mut p = Processor::new(opts(&["*.txt"], SortMode::Count, false, true));
    let f = p.glob_filter().unwrap();
    assert!(p.filefold("/r/a/1.txt", "/r", true, "1.txt", Some(4), &f));
    assert!(!p.filefold("/r/a/2.log", "/r", true, "2.log", Some(9), &f));
    assert!(!p.filefold("/r/a/3.txt", "/r", true, "3.txt", None, &f));
    assert!(!p.filefold("/r/a/d.txt", "/r", false, "d.txt", Some(1), &f));
    assert_eq!(p.summary().count, 1);
    assert_eq!(p.summary().total, 4);
}

#[test]
fn outside_root_counts_under_empty_key() {
    let mut p = Processor::new(opts(&[], SortMode::Count, false, false));
    let f = p.glob_filter().unwrap();
    assert!(p.filefold("/elsewhere/1.txt", "/r", true, "1.txt", Some(3), &f));
    let r = p.process();
    assert_eq!(r.rows.len(), 1);
    assert_eq!(r.rows[0].0, "");
}

#[test]
fn record_refuses_overflow() {
    let mut p = Processor::new(opts(&[], SortMode::Count, false, true));
    assert!(p.record("k".to_string(), u64::MAX - 1));
    assert!(!p.record("j".to_string(), 2));
    assert!(p.record("k".to_string(), 1));
    let r = p.process();
    assert_eq!(r.rows.len(), 1);
    assert_eq!(r.rows[0].1.count, 2);
    assert_eq!(r.summary.unwrap().total, u64::MAX);
}
