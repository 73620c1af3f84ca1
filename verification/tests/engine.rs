//! End-to-end checks of the tabular engine: loading, coercion, filtering,
//! aggregation, pivoting and pagination.

use databoard::query::{Dimension, FilterItem, FilterMode, Metric, MetricMode, Query};
use databoard::session::StateStore;
use databoard::value::{ColumnType, EngineError};

fn chars(s: &str) -> Vec<char> {
    s.chars().collect()
}

fn query(
    rows: Vec<&str>,
    columns: Vec<&str>,
    metrics: Vec<(&str, MetricMode)>,
    search: Vec<(&str, FilterMode, Vec<&str>)>,
) -> Query {
    Query {
        dimensions: Dimension {
            rows: rows.into_iter().map(chars).collect(),
            columns: columns.into_iter().map(chars).collect(),
        },
        metrics: metrics
            .into_iter()
            .map(|(n, m)| Metric { index: chars(n), mode: m })
            .collect(),
        filters: Vec::new(),
        rules: Vec::new(),
        search: search
            .into_iter()
            .map(|(n, m, vs)| FilterItem {
                index: chars(n),
                mode: m,
                value: vs.into_iter().map(chars).collect(),
            })
            .collect(),
    }
}

fn mapping(pairs: Vec<(&str, ColumnType)>) -> Vec<(Vec<char>, ColumnType)> {
    pairs.into_iter().map(|(n, k)| (chars(n), k)).collect()
}

#[test]
fn aggregation_sum_by_group() {
    let mut s = StateStore::default();
    s.read_csv("a,v\n1,10\n1,30\n2,5\n").unwrap();
    s.etl(&mapping(vec![("a", ColumnType::Integer), ("v", ColumnType::Integer)]))
        .unwrap();
    let prev = s
        .search(&query(vec!["a"], vec![], vec![("v", MetricMode::Sum)], vec![]))
        .unwrap();
    assert_eq!(s.to_string(&prev), "[{\"a\":1,\"v\":40},{\"a\":2,\"v\":5}]");
}

#[test]
fn aggregation_avg_and_count() {
    let mut s = StateStore::default();
    s.read_csv("a,v\n1,10\n1,30\n2,5\n").unwrap();
    s.etl(&mapping(vec![("a", ColumnType::Integer), ("v", ColumnType::Integer)]))
        .unwrap();
    let prev = s
        .search(&query(vec!["a"], vec![], vec![("v", MetricMode::Avg)], vec![]))
        .unwrap();
    assert_eq!(s.to_string(&prev), "[{\"a\":1,\"v\":20.0},{\"a\":2,\"v\":5.0}]");
    let prev = s
        .search(&query(vec!["a"], vec![], vec![("v", MetricMode::Count)], vec![]))
        .unwrap();
    assert_eq!(s.to_string(&prev), "[{\"a\":1,\"v\":2},{\"a\":2,\"v\":1}]");
}

#[test]
fn range_filter_includes_both_bounds() {
    let mut s = StateStore::default();
    s.read_csv("k\n5\n10\n15\n20\n25\n").unwrap();
    s.etl(&mapping(vec![("k", ColumnType::Integer)])).unwrap();
    let prev = s
        .search(&query(
            vec![],
            vec![],
            vec![],
            vec![("k", FilterMode::DateRange, vec!["10", "20"])],
        ))
        .unwrap();
    assert_eq!(s.to_string(&prev), "[{\"k\":10},{\"k\":15},{\"k\":20}]");
}

#[test]
fn float_range_filter_inclusive() {
    let mut s = StateStore::default();
    s.read_csv("k\n1.5\n10.0\n20.0\n20.5\n").unwrap();
    s.etl(&mapping(vec![("k", ColumnType::Float)])).unwrap();
    let prev = s
        .search(&query(
            vec![],
            vec![],
            vec![],
            vec![("k", FilterMode::DigitalRange, vec!["10", "20"])],
        ))
        .unwrap();
    assert_eq!(s.to_string(&prev), "[{\"k\":10.0},{\"k\":20.0}]");
}

#[test]
fn unknown_filter_column_is_skipped() {
    let mut s = StateStore::default();
    s.read_csv("k\n1\n2\n").unwrap();
    s.etl(&mapping(vec![("k", ColumnType::Integer)])).unwrap();
    let prev = s
        .search(&query(
            vec![],
            vec![],
            vec![],
            vec![("nope", FilterMode::Single, vec!["1"])],
        ))
        .unwrap();
    assert_eq!(s.to_string(&prev), "[{\"k\":1},{\"k\":2}]");
}

#[test]
fn unparsable_filter_values_are_skipped() {
    let mut s = StateStore::default();
    s.read_csv("k\n1\n2\n").unwrap();
    s.etl(&mapping(vec![("k", ColumnType::Integer)])).unwrap();
    let prev = s
        .search(&query(
            vec![],
            vec![],
            vec![],
            vec![("k", FilterMode::Single, vec!["zebra"])],
        ))
        .unwrap();
    assert_eq!(s.to_string(&prev), "[{\"k\":1},{\"k\":2}]");
}

#[test]
fn text_filters_match_and_prefix() {
    let mut s = StateStore::default();
    s.read_csv("w\napple\napricot\nbanana\n").unwrap();
    s.etl(&mapping(vec![("w", ColumnType::String)])).unwrap();
    let prev = s
        .search(&query(
            vec![],
            vec![],
            vec![],
            vec![("w", FilterMode::MatchPrefix, vec!["ap"])],
        ))
        .unwrap();
    assert_eq!(s.to_string(&prev), "[{\"w\":\"apple\"},{\"w\":\"apricot\"}]");
    let prev = s
        .search(&query(
            vec![],
            vec![],
            vec![],
            vec![("w", FilterMode::Single, vec![" banana "])],
        ))
        .unwrap();
    assert_eq!(s.to_string(&prev), "[{\"w\":\"banana\"}]");
}

#[test]
fn pivot_takes_first_metric_that_succeeds() {
    let mut s = StateStore::default();
    s.read_csv("a,c,y\n1,u,10\n1,w,20\n2,u,30\n").unwrap();
    s.etl(&mapping(vec![
        ("a", ColumnType::Integer),
        ("c", ColumnType::String),
        ("y", ColumnType::Integer),
    ]))
    .unwrap();
    // The first metric names a column that does not exist, so its pivot
    // cannot succeed; the second must be the one taken.
    let prev = s
        .search(&query(
            vec!["a"],
            vec!["c"],
            vec![("x", MetricMode::Sum), ("y", MetricMode::Avg)],
            vec![],
        ))
        .unwrap();
    assert_eq!(
        s.to_string(&prev),
        "[{\"a\":1,\"u\":10.0,\"w\":20.0},{\"a\":2,\"u\":30.0,\"w\":null}]"
    );
}

#[test]
fn pivot_with_no_workable_metric_returns_filtered_rows() {
    let mut s = StateStore::default();
    s.read_csv("a,c\n1,u\n").unwrap();
    s.etl(&mapping(vec![("a", ColumnType::Integer), ("c", ColumnType::String)]))
        .unwrap();
    let prev = s
        .search(&query(vec!["a"], vec!["c"], vec![("x", MetricMode::Sum)], vec![]))
        .unwrap();
    assert_eq!(s.to_string(&prev), "[{\"a\":1,\"c\":\"u\"}]");
}

#[test]
fn rate_metric_is_not_implemented() {
    let mut s = StateStore::default();
    s.read_csv("a,v\n1,10\n").unwrap();
    s.etl(&mapping(vec![("a", ColumnType::Integer), ("v", ColumnType::Integer)]))
        .unwrap();
    let before = s.to_string(&s.records(0, 100));
    let err = s
        .search(&query(vec!["a"], vec![], vec![("v", MetricMode::Rate)], vec![]))
        .unwrap_err();
    assert!(matches!(err, EngineError::NotImplemented));
    assert_eq!(s.to_string(&s.records(0, 100)), before);
    let err = s
        .search(&query(
            vec!["a"],
            vec!["a"],
            vec![("v", MetricMode::Rate)],
            vec![],
        ))
        .unwrap_err();
    assert!(matches!(err, EngineError::NotImplemented));
}

#[test]
fn aggregate_missing_column_is_not_found() {
    let mut s = StateStore::default();
    s.read_csv("a,v\n1,10\n").unwrap();
    s.etl(&mapping(vec![("a", ColumnType::Integer), ("v", ColumnType::Integer)]))
        .unwrap();
    let err = s
        .search(&query(vec!["zz"], vec![], vec![("v", MetricMode::Sum)], vec![]))
        .unwrap_err();
    assert!(matches!(err, EngineError::NotFound));
}

#[test]
fn sum_of_text_column_is_unsupported() {
    let mut s = StateStore::default();
    s.read_csv("a,w\n1,x\n").unwrap();
    s.etl(&mapping(vec![("a", ColumnType::Integer), ("w", ColumnType::String)]))
        .unwrap();
    let err = s
        .search(&query(vec!["a"], vec![], vec![("w", MetricMode::Sum)], vec![]))
        .unwrap_err();
    assert!(matches!(err, EngineError::UnsupportedMetric));
}

#[test]
fn pagination_boundary_is_empty_not_error() {
    let mut s = StateStore::default();
    s.read_csv("k\n1\n2\n3\n").unwrap();
    s.etl(&mapping(vec![("k", ColumnType::Integer)])).unwrap();
    s.search(&query(vec![], vec![], vec![], vec![])).unwrap();
    let page = s.records(3, 100);
    assert_eq!(page.row_count(), 0);
    let page = s.records(100, 100);
    assert_eq!(page.row_count(), 0);
    let page = s.records(1, 1);
    assert_eq!(s.to_string(&page), "[{\"k\":2}]");
}

#[test]
fn unique_values_first_seen_order() {
    let mut s = StateStore::default();
    s.read_csv("a\nx\ny\nx\n").unwrap();
    s.etl(&mapping(vec![("a", ColumnType::String)])).unwrap();
    let vs = s.column_unique(&chars("a")).unwrap();
    assert_eq!(vs.len(), 2);
    let err = s.column_unique(&chars("zz")).unwrap_err();
    assert!(matches!(err, EngineError::NotFound));
}

#[test]
fn export_writes_whole_result() {
    let mut s = StateStore::default();
    s.read_csv("a,v\n1,10\n1,30\n2,5\n").unwrap();
    s.etl(&mapping(vec![("a", ColumnType::Integer), ("v", ColumnType::Integer)]))
        .unwrap();
    s.search(&query(vec!["a"], vec![], vec![("v", MetricMode::Sum)], vec![]))
        .unwrap();
    assert_eq!(s.save_csv(), "a,v\n1,40\n2,5\n");
}

#[test]
fn duplicate_header_is_bad_input() {
    let mut s = StateStore::default();
    let err = s.read_csv("a,a\n1,2\n").unwrap_err();
    assert!(matches!(err, EngineError::BadInput));
    let err = s.read_csv("").unwrap_err();
    assert!(matches!(err, EngineError::BadInput));
    let err = s.read_csv("a,b\n1\n").unwrap_err();
    assert!(matches!(err, EngineError::BadInput));
}
