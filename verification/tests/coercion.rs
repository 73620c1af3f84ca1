//! Checks of the per-cell readers and the normalization rules: date layout
//! priority, sentinel and missing fallbacks, numeric extraction, epoch
//! conversions and atomicity.

use databoard::parse::{date_extract_x, float_extract_x, int_extract_x};
use databoard::session::StateStore;
use databoard::value::{ColumnType, EngineError};

fn chars(s: &str) -> Vec<char> {
    s.chars().collect()
}

fn mapping(pairs: Vec<(&str, ColumnType)>) -> Vec<(Vec<char>, ColumnType)> {
    pairs.into_iter().map(|(n, k)| (chars(n), k)).collect()
}

#[test]
fn date_layout_priority_six_forms() {
    let forms = [
        "2024-03-05",
        "20240305",
        "240305",
        "2024/03/05",
        "05/03/2024",
        "2024年03月05日",
    ];
    for f in forms {
        assert_eq!(date_extract_x(&chars(f)), (2024, 3, 5), "form {}", f);
    }
    assert_eq!(date_extract_x(&chars("2024.03.05")), (2024, 3, 5));
}

#[test]
fn date_fallback_is_sentinel_never_missing() {
    assert_eq!(date_extract_x(&chars("no date here")), (2000, 1, 1));
    assert_eq!(date_extract_x(&chars("")), (2000, 1, 1));
    let mut s = StateStore::default();
    s.read_csv("d\nnot a date\n").unwrap();
    s.etl(&mapping(vec![("d", ColumnType::Date)])).unwrap();
    let prev = s
        .search(&databoard::query::Query {
            dimensions: databoard::query::Dimension { rows: vec![], columns: vec![] },
            metrics: vec![],
            filters: vec![],
            rules: vec![],
            search: vec![],
        })
        .unwrap();
    assert_eq!(s.to_string(&prev), "[{\"d\":\"2000-01-01\"}]");
}

#[test]
fn numeric_fallback_is_missing_never_sentinel() {
    assert_eq!(int_extract_x(&chars("no digits")), None);
    assert_eq!(float_extract_x(&chars("still none")), None);
    let mut s = StateStore::default();
    s.read_csv("n\nnothing\n").unwrap();
    s.etl(&mapping(vec![("n", ColumnType::Integer)])).unwrap();
    let page = s.records(0, 0);
    assert_eq!(page.row_count(), 0);
    s.search(&databoard::query::Query {
        dimensions: databoard::query::Dimension { rows: vec![], columns: vec![] },
        metrics: vec![],
        filters: vec![],
        rules: vec![],
        search: vec![],
    })
    .map(|_| ())
    .unwrap();
    // A missing first-column value is filtered out, so the result is empty.
    assert_eq!(s.save_csv(), "n\n");
}

#[test]
fn integer_extraction_first_digit_run() {
    assert_eq!(int_extract_x(&chars("abc123def456")), Some(123));
    assert_eq!(int_extract_x(&chars("  42 units")), Some(42));
    assert_eq!(int_extract_x(&chars("99999999999")), None);
}

#[test]
fn float_extraction_separators_and_trailing_dot() {
    assert_eq!(float_extract_x(&chars("1,234.56")), Some(1_234_560_000));
    assert_eq!(float_extract_x(&chars("12.")), Some(12_000_000));
    assert_eq!(float_extract_x(&chars("price 7.5 usd")), Some(7_500_000));
    assert_eq!(float_extract_x(&chars("1.2.3")), None);
}

#[test]
fn integer_seconds_become_epoch_dates() {
    let mut s = StateStore::default();
    s.read_csv("t\n86400\n0\n").unwrap();
    s.etl(&mapping(vec![("t", ColumnType::Date)])).unwrap();
    s.search(&databoard::query::Query {
        dimensions: databoard::query::Dimension { rows: vec![], columns: vec![] },
        metrics: vec![],
        filters: vec![],
        rules: vec![],
        search: vec![],
    })
    .unwrap();
    assert_eq!(s.save_csv(), "t\n1970-01-02\n1970-01-01\n");
}

#[test]
fn widening_and_truncating_casts() {
    let mut s = StateStore::default();
    s.read_csv("i,f\n7,9.9\n").unwrap();
    s.etl(&mapping(vec![("i", ColumnType::Float), ("f", ColumnType::Integer)]))
        .unwrap();
    s.search(&databoard::query::Query {
        dimensions: databoard::query::Dimension { rows: vec![], columns: vec![] },
        metrics: vec![],
        filters: vec![],
        rules: vec![],
        search: vec![],
    })
    .unwrap();
    assert_eq!(s.save_csv(), "i,f\n7.0,9\n");
}

#[test]
fn normalization_is_atomic_on_missing_mapping() {
    let mut s = StateStore::default();
    s.read_csv("a,b\n1,x\n").unwrap();
    s.etl(&mapping(vec![("a", ColumnType::Integer), ("b", ColumnType::String)]))
        .unwrap();
    let before = s.to_string(&s.preview(10));
    let err = s
        .etl(&mapping(vec![("a", ColumnType::Integer)]))
        .unwrap_err();
    assert!(matches!(err, EngineError::MissingMapping(_)));
    // The previous normalized table is untouched, byte for byte.
    s.search(&databoard::query::Query {
        dimensions: databoard::query::Dimension { rows: vec![], columns: vec![] },
        metrics: vec![],
        filters: vec![],
        rules: vec![],
        search: vec![],
    })
    .unwrap();
    assert_eq!(s.save_csv(), "a,b\n1,x\n");
    assert_eq!(s.to_string(&s.preview(10)), before);
}

#[test]
fn normalization_twice_is_identical() {
    let mut s = StateStore::default();
    let m = mapping(vec![("a", ColumnType::Integer), ("d", ColumnType::Date)]);
    s.read_csv("a,d\n03,2024-03-05\n").unwrap();
    s.etl(&m).unwrap();
    let q = databoard::query::Query {
        dimensions: databoard::query::Dimension { rows: vec![], columns: vec![] },
        metrics: vec![],
        filters: vec![],
        rules: vec![],
        search: vec![],
    };
    s.search(&q).unwrap();
    let first = s.save_csv();
    s.etl(&m).unwrap();
    s.search(&q).unwrap();
    assert_eq!(s.save_csv(), first);
    assert_eq!(first, "a,d\n3,2024-03-05\n");
}

#[test]
fn matched_layout_with_impossible_day_fails_the_call() {
    let mut s = StateStore::default();
    s.read_csv("d,x\n999999,1\nzz,2\n").unwrap();
    let err = s
        .etl(&mapping(vec![("d", ColumnType::Date), ("x", ColumnType::Integer)]))
        .unwrap_err();
    assert!(matches!(err, EngineError::UnsupportedCoercion));
}

#[test]
fn boolean_columns_coerce_by_rule() {
    let mut s = StateStore::default();
    s.read_csv("b\ntrue\nfalse\n").unwrap();
    s.etl(&mapping(vec![("b", ColumnType::Integer)])).unwrap();
    s.search(&databoard::query::Query {
        dimensions: databoard::query::Dimension { rows: vec![], columns: vec![] },
        metrics: vec![],
        filters: vec![],
        rules: vec![],
        search: vec![],
    })
    .unwrap();
    assert_eq!(s.save_csv(), "b\n1\n0\n");
}

#[test]
fn string_target_trims_whitespace() {
    let mut s = StateStore::default();
    s.read_csv("w\n  hi  \n").unwrap();
    s.etl(&mapping(vec![("w", ColumnType::String)])).unwrap();
    s.search(&databoard::query::Query {
        dimensions: databoard::query::Dimension { rows: vec![], columns: vec![] },
        metrics: vec![],
        filters: vec![],
        rules: vec![],
        search: vec![],
    })
    .unwrap();
    assert_eq!(s.save_csv(), "w\nhi\n");
}
