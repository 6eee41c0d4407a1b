use flow::cache::{Cache, CacheEntry, Error};

fn lines(texts: &[&str]) -> Vec<String> {
    texts.iter().map(|t| t.to_string()).collect()
}

#[test]
fn empty_cache_scores_zero() {
    let cache = Cache::new();
    assert_eq!(cache.lookup("/nowhere"), 0);
}

#[test]
fn add_records_one_visit_unit() {
    let mut cache = Cache::new();
    cache.add("/home/user/src".to_string());
    assert_eq!(cache.lookup("/home/user/src"), 100);
}

#[test]
fn add_twice_accumulates() {
    let mut cache = Cache::new();
    cache.add("/a".to_string());
    cache.add("/a".to_string());
    assert_eq!(cache.lookup("/a"), 200);
}

#[test]
fn add_leaves_other_entries_alone() {
    let mut cache = Cache::new();
    cache.add("/a".to_string());
    cache.add("/b".to_string());
    cache.add("/a".to_string());
    assert_eq!(cache.lookup("/a"), 200);
    assert_eq!(cache.lookup("/b"), 100);
}

#[test]
fn entry_accessors() {
    let e = CacheEntry::new(250);
    assert_eq!(e.score(), 250);
}

#[test]
fn parses_integer_score() {
    let cache = Cache::from_reader(&lines(&["/a|50"])).unwrap();
    assert_eq!(cache.lookup("/a"), 5000);
}

#[test]
fn parses_fractional_scores() {
    let cache = Cache::from_reader(&lines(&["/a|1.50", "/b|0.5", "/c|0.05"])).unwrap();
    assert_eq!(cache.lookup("/a"), 150);
    assert_eq!(cache.lookup("/b"), 50);
    assert_eq!(cache.lookup("/c"), 5);
}

#[test]
fn extra_separators_are_ignored() {
    let cache = Cache::from_reader(&lines(&["/a|1|junk"])).unwrap();
    assert_eq!(cache.lookup("/a"), 100);
}

#[test]
fn later_record_for_same_path_wins() {
    let cache = Cache::from_reader(&lines(&["/a|1", "/a|3"])).unwrap();
    assert_eq!(cache.lookup("/a"), 300);
}

#[test]
fn missing_separator_is_invalid() {
    let r = Cache::from_reader(&lines(&["noseparator"]));
    match r {
        Err(Error::InvalidEntry(l)) => assert_eq!(l, "noseparator"),
        _ => panic!("expected InvalidEntry"),
    }
}

#[test]
fn non_numeric_score_is_invalid() {
    let r = Cache::from_reader(&lines(&["/a|x"]));
    match r {
        Err(Error::InvalidEntry(l)) => assert_eq!(l, "/a|x"),
        _ => panic!("expected InvalidEntry"),
    }
}

#[test]
fn empty_score_is_invalid() {
    assert!(matches!(
        Cache::from_reader(&lines(&["/a|"])),
        Err(Error::InvalidEntry(_))
    ));
}

#[test]
fn overlong_fraction_is_invalid() {
    assert!(matches!(
        Cache::from_reader(&lines(&["/a|1.234"])),
        Err(Error::InvalidEntry(_))
    ));
}

#[test]
fn first_bad_line_is_reported() {
    let r = Cache::from_reader(&lines(&["/a|1", "bad", "also|bad|score x"]));
    match r {
        Err(Error::InvalidEntry(l)) => assert_eq!(l, "bad"),
        _ => panic!("expected InvalidEntry"),
    }
}

#[test]
fn renders_two_decimal_records() {
    let mut cache = Cache::new();
    cache.add("/a".to_string());
    assert_eq!(cache.to_writer(), vec!["/a|1.00".to_string()]);
}

#[test]
fn persist_then_load_round_trips() {
    let mut cache = Cache::new();
    cache.add("/home/user/src/proj".to_string());
    cache.add("/home/user/src/proj".to_string());
    cache.add("/tmp/scratch".to_string());
    let reloaded = Cache::from_reader(&cache.to_writer()).unwrap();
    assert_eq!(reloaded.lookup("/home/user/src/proj"), 200);
    assert_eq!(reloaded.lookup("/tmp/scratch"), 100);
    assert_eq!(reloaded.entries().len(), cache.entries().len());
}

#[test]
fn round_trip_keeps_fractional_scores() {
    let cache = Cache::from_reader(&lines(&["/a|12.34", "/b|0.05", "/c|7"])).unwrap();
    let reloaded = Cache::from_reader(&cache.to_writer()).unwrap();
    assert_eq!(reloaded.lookup("/a"), 1234);
    assert_eq!(reloaded.lookup("/b"), 5);
    assert_eq!(reloaded.lookup("/c"), 700);
}

#[test]
fn largest_score_round_trips() {
    let cache = Cache::from_reader(&lines(&["/a|184467440737095516.15"])).unwrap();
    assert_eq!(cache.lookup("/a"), u64::MAX);
    let reloaded = Cache::from_reader(&cache.to_writer()).unwrap();
    assert_eq!(reloaded.lookup("/a"), u64::MAX);
}

#[test]
fn score_beyond_the_representable_range_is_invalid() {
    assert!(matches!(
        Cache::from_reader(&lines(&["/a|184467440737095516.16"])),
        Err(Error::InvalidEntry(_))
    ));
    assert!(matches!(
        Cache::from_reader(&lines(&["/a|99999999999999999999"])),
        Err(Error::InvalidEntry(_))
    ));
}

#[test]
fn aging_is_a_no_op_at_or_below_ceiling() {
    let mut cache = Cache::new();
    cache.add("/a".to_string());
    cache.add("/a".to_string());
    cache.add("/a".to_string());
    cache.aging(Some(300));
    assert_eq!(cache.lookup("/a"), 300);
}

#[test]
fn aging_scales_every_entry_by_99_over_100() {
    let mut cache = Cache::new();
    for _ in 0..3 {
        cache.add("/a".to_string());
    }
    cache.add("/b".to_string());
    cache.aging(Some(200));
    assert_eq!(cache.lookup("/a"), 297);
    assert_eq!(cache.lookup("/b"), 99);
}

#[test]
fn aging_rounds_down_to_the_hundredth() {
    let cache = Cache::from_reader(&vec!["/a|1.50".to_string()]);
    let mut cache = cache.unwrap();
    cache.aging(Some(0));
    assert_eq!(cache.lookup("/a"), 148);
}

#[test]
fn aging_default_ceiling_is_9000() {
    let mut cache = Cache::from_reader(&lines(&["/a|9000"])).unwrap();
    cache.aging(None);
    assert_eq!(cache.lookup("/a"), 900000);
    let mut over = Cache::from_reader(&lines(&["/a|9000.01"])).unwrap();
    over.aging(None);
    assert_eq!(over.lookup("/a"), 891000);
}

#[test]
fn aging_preserves_relative_order() {
    let mut cache = Cache::from_reader(&lines(&["/lo|10", "/hi|300"])).unwrap();
    cache.aging(Some(100));
    assert!(cache.lookup("/lo") < cache.lookup("/hi"));
    assert_eq!(cache.lookup("/lo"), 990);
    assert_eq!(cache.lookup("/hi"), 29700);
}

#[test]
fn entries_exposes_all_pairs() {
    let mut cache = Cache::new();
    cache.add("/a".to_string());
    cache.add("/b".to_string());
    let entries = cache.entries();
    assert_eq!(entries.len(), 2);
    assert_eq!(entries[0].0, "/a");
    assert_eq!(entries[0].1.score(), 100);
    assert_eq!(entries[1].0, "/b");
    assert_eq!(entries[1].1.score(), 100);
}
