use customer_analyzer::decimal::Decimal;
use customer_analyzer::error::AnalysisError;
use customer_analyzer::row::CachedRow;
use customer_analyzer::sources::{analyze_top20_cached, merge_sources, DataCache, SourceStore};

fn row(code: &str, name: &str, pay: i64, recharge: i64) -> CachedRow {
    CachedRow {
        customer_code: code.to_string(),
        customer_name: name.to_string(),
        pay_amount: Decimal::from_micros(i128::from(pay)).unwrap(),
        recharge_deduction: Decimal::from_micros(i128::from(recharge)).unwrap(),
        province: None,
        city: None,
        district: None,
        region: None,
        month: None,
    }
}

fn first() -> DataCache {
    DataCache::new("a.xlsx".to_string(), vec![row("A", "", 10, 1), row("B", "乙", 20, 2), row("A", "甲", 30, 3)])
}

fn second() -> DataCache {
    DataCache::new("b.xlsx".to_string(), vec![row("C", "丙", 5, 0), row("A", "甲二", 7, 0)])
}

fn store() -> SourceStore {
    let mut s = SourceStore::new();
    s.insert("one", first());
    s.insert("two", second());
    s
}

fn ids(names: &[&str]) -> Vec<String> {
    names.iter().map(|n| n.to_string()).collect()
}

fn totals(cache: &DataCache) -> Vec<(String, String, i128, i128, i128, u64)> {
    let t = cache.customers();
    (0..t.len())
        .map(|i| {
            let e = t.get(i);
            (e.customer_code.clone(), e.customer_name.clone(), e.pay_amount.clamped(), e.recharge_deduction.clamped(), e.total_amount.clamped(), e.order_count)
        })
        .collect()
}

#[test]
fn a_cache_aggregates_its_rows() {
    let cache = first();
    assert_eq!(cache.file_path(), "a.xlsx");
    assert_eq!(cache.cached_rows().len(), 3);
    assert_eq!(
        totals(&cache),
        vec![("A".to_string(), "甲".to_string(), 40, 4, 44, 2), ("B".to_string(), "乙".to_string(), 20, 2, 22, 1)]
    );
    let report = analyze_top20_cached(&cache);
    assert_eq!(report.total_rows, 3);
    assert_eq!(report.total_customers, 2);
    assert_eq!(report.total_amount.clamped(), 66);
    assert_eq!(report.top20[0].customer_code, "A");
}

#[test]
fn sources_merge_in_the_order_named() {
    let merged = merge_sources(&store(), &ids(&["one", "two"])).unwrap();
    assert_eq!(merged.file_path(), "a.xlsx; b.xlsx");
    let codes: Vec<&str> = merged.cached_rows().iter().map(|r| r.customer_code.as_str()).collect();
    assert_eq!(codes, vec!["A", "B", "A", "C", "A"]);
    assert_eq!(
        totals(&merged),
        vec![
            ("A".to_string(), "甲".to_string(), 47, 4, 51, 3),
            ("B".to_string(), "乙".to_string(), 20, 2, 22, 1),
            ("C".to_string(), "丙".to_string(), 5, 0, 5, 1),
        ]
    );
    let back = merge_sources(&store(), &ids(&["two", "one"])).unwrap();
    assert_eq!(back.file_path(), "b.xlsx; a.xlsx");
    assert_eq!(totals(&back)[0], ("C".to_string(), "丙".to_string(), 5, 0, 5, 1));
    assert_eq!(totals(&back)[1], ("A".to_string(), "甲二".to_string(), 47, 4, 51, 3));
}

#[test]
fn one_source_merges_to_itself() {
    let merged = merge_sources(&store(), &ids(&["one"])).unwrap();
    assert_eq!(merged.file_path(), "a.xlsx");
    assert_eq!(totals(&merged), totals(&first()));
    assert_eq!(merged.cached_rows().len(), 3);
}

#[test]
fn a_source_named_twice_counts_twice() {
    let merged = merge_sources(&store(), &ids(&["one", "one"])).unwrap();
    assert_eq!(merged.cached_rows().len(), 6);
    assert_eq!(merged.file_path(), "a.xlsx; a.xlsx");
    let once = totals(&first());
    let twice = totals(&merged);
    assert_eq!(once.len(), twice.len());
    for (a, b) in once.iter().zip(twice.iter()) {
        assert_eq!((&b.0, &b.1), (&a.0, &a.1));
        assert_eq!((b.2, b.3, b.4, b.5), (2 * a.2, 2 * a.3, 2 * a.4, 2 * a.5));
    }
}

#[test]
fn merging_nothing_fails() {
    assert!(matches!(merge_sources(&store(), &Vec::new()), Err(AnalysisError::EmptySourceList)));
    assert!(matches!(merge_sources(&SourceStore::new(), &Vec::new()), Err(AnalysisError::EmptySourceList)));
}

#[test]
fn merging_what_is_not_loaded_fails_naming_it() {
    match merge_sources(&store(), &ids(&["one", "three", "four"])) {
        Err(AnalysisError::SourceNotLoaded(id)) => assert_eq!(id, "three"),
        other => panic!("{:?}", other.map(|c| c.file_path().clone())),
    }
    match merge_sources(&SourceStore::new(), &ids(&["one"])) {
        Err(AnalysisError::SourceNotLoaded(id)) => assert_eq!(id, "one"),
        other => panic!("{:?}", other.map(|c| c.file_path().clone())),
    }
}

#[test]
fn a_store_keeps_one_source_for_each_identifier() {
    let mut s = store();
    assert_eq!(s.len(), 2);
    assert_eq!(s.get("one").unwrap().file_path(), "a.xlsx");
    assert_eq!(s.get("two").unwrap().file_path(), "b.xlsx");
    assert!(s.get("three").is_none());
    assert!(s.get("One").is_none());
    s.insert("one", second());
    assert_eq!(s.len(), 2);
    assert_eq!(s.get("one").unwrap().file_path(), "b.xlsx");
    assert!(s.remove("one"));
    assert!(!s.remove("one"));
    assert_eq!(s.len(), 1);
    assert!(s.get("one").is_none());
    assert_eq!(s.get("two").unwrap().file_path(), "b.xlsx");
    s.insert("three", first());
    assert_eq!(s.len(), 2);
    assert_eq!(s.get("three").unwrap().cached_rows().len(), 3);
}

#[test]
fn merging_leaves_the_sources_as_they_were() {
    let s = store();
    let _ = merge_sources(&s, &ids(&["one", "two"])).unwrap();
    assert_eq!(totals(s.get("one").unwrap()), totals(&first()));
    assert_eq!(totals(s.get("two").unwrap()), totals(&second()));
}
