use customer_analyzer::catalog::{DataSourceConfig, DataSourceListConfig};

fn source(id: &str, path: &str) -> DataSourceConfig {
    DataSourceConfig {
        id: id.to_string(),
        file_path: path.to_string(),
        file_name: path.to_string(),
        loaded_at: "2025-01-01 00:00:00".to_string(),
        total_rows: 3,
    }
}

fn list() -> DataSourceListConfig {
    let mut l = DataSourceListConfig::new();
    l.add(source("a", "/data/a.xlsx"));
    l.add(source("b", "/data/b.xlsx"));
    l.add(source("c", "/data/c.xlsx"));
    l
}

fn ids(l: &DataSourceListConfig) -> Vec<&str> {
    l.data_sources.iter().map(|s| s.id.as_str()).collect()
}

#[test]
fn an_added_source_becomes_the_current_one() {
    let mut l = DataSourceListConfig::new();
    assert!(l.current().is_none());
    assert_eq!(l.startup_id(), None);
    l.add(source("a", "/data/a.xlsx"));
    assert_eq!(l.current_id.as_deref(), Some("a"));
    l.add(source("b", "/data/b.xlsx"));
    assert_eq!(l.current_id.as_deref(), Some("b"));
    assert_eq!(ids(&l), vec!["a", "b"]);
    assert_eq!(l.current().unwrap().id, "b");
    assert_eq!(l.startup_id().as_deref(), Some("b"));
}

#[test]
fn sources_are_found_by_path_and_identifier() {
    let l = list();
    assert!(l.has_path("/data/b.xlsx"));
    assert!(!l.has_path("/data/B.xlsx"));
    assert!(!l.has_path(""));
    assert_eq!(l.find("a"), Some(0));
    assert_eq!(l.find("c"), Some(2));
    assert_eq!(l.find("d"), None);
}

#[test]
fn removing_the_current_source_moves_on_to_the_first() {
    let mut l = list();
    assert!(l.remove("c"));
    assert_eq!(ids(&l), vec!["a", "b"]);
    assert_eq!(l.current_id.as_deref(), Some("a"));
    assert!(l.remove("a"));
    assert_eq!(ids(&l), vec!["b"]);
    assert_eq!(l.current_id.as_deref(), Some("b"));
    assert!(l.remove("b"));
    assert!(l.data_sources.is_empty());
    assert_eq!(l.current_id, None);
}

#[test]
fn removing_another_source_keeps_the_current_one() {
    let mut l = list();
    assert!(!l.remove("a"));
    assert_eq!(ids(&l), vec!["b", "c"]);
    assert_eq!(l.current_id.as_deref(), Some("c"));
    assert!(!l.remove("zzz"));
    assert_eq!(ids(&l), vec!["b", "c"]);
    let mut twice = list();
    twice.data_sources.push(source("a", "/data/a2.xlsx"));
    assert!(!twice.remove("a"));
    assert_eq!(ids(&twice), vec!["b", "c"]);
}

#[test]
fn the_source_shown_is_the_current_one_or_else_the_first() {
    let mut l = list();
    assert_eq!(l.current().unwrap().id, "c");
    l.current_id = Some("gone".to_string());
    assert_eq!(l.current().unwrap().id, "a");
    assert_eq!(l.startup_id().as_deref(), Some("gone"));
    l.current_id = None;
    assert_eq!(l.current().unwrap().id, "a");
    assert_eq!(l.startup_id().as_deref(), Some("a"));
}
