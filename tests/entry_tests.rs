use childsize::{ChildSizeEntry, SortMode};

#[test]
fn fold_tracks_count_total_extremes() {
    let mut e = ChildSizeEntry::new();
    for s in [10u64, 30, 5, 20] {
        e.fold(s);
    }
    e.update_average();
    assert_eq!(e.count, 4);
    assert_eq!(e.total, 65);
    assert_eq!(e.max, 30);
    assert_eq!(e.min, 5);
    assert_eq!(e.average, 16);
}

#[test]
fn empty_average_is_zero() {
    let mut e = ChildSizeEntry::default();
    e.update_average();
    assert_eq!(e.count, 0);
    assert_eq!(e.average, 0);
    assert_eq!(e.max, 0);
    assert_eq!(e.min, 1u64 << 50);
}

#[test]
fn first_fold_sets_min_even_above_sentinel() {
    let mut e = ChildSizeEntry::new();
    e.fold((1u64 << 50) + 7);
    assert_eq!(e.min, (1u64 << 50) + 7);
    assert_eq!(e.max, (1u64 << 50) + 7);
}

#[test]
fn sort_mode_names_in_any_case() {
    assert_eq!(SortMode::from_name("Count"), Some(SortMode::Count));
    assert_eq!(SortMode::from_name("TOTAL"), Some(SortMode::Total));
    assert_eq!(SortMode::from_name("average"), Some(SortMode::Average));
    assert_eq!(SortMode::from_name("Max"), Some(SortMode::Max));
    assert_eq!(SortMode::from_name("mIn"), Some(SortMode::Min));
    assert_eq!(SortMode::from_name("size"), None);
    assert_eq!(SortMode::from_lowercase("MAX"), None);
    assert_eq!("MAX".parse::<SortMode>(), Ok(SortMode::Max));
    assert_eq!("nope".parse::<SortMode>(), Err("no match"));
}

#[test]
fn metric_selects_field() {
    let e = ChildSizeEntry { count: 1, total: 2, average: 3, max: 4, min: 5 };
    assert_eq!(SortMode::Count.metric(&e), 1);
    assert_eq!(SortMode::Total.metric(&e), 2);
    assert_eq!(SortMode::Average.metric(&e), 3);
    assert_eq!(SortMode::Max.metric(&e), 4);
    assert_eq!(SortMode::Min.metric(&e), 5);
}
