use pagealloc::builder::{select, Column, Comparator, DataSource, Filter, Value};

// Assert that a filter tree combining comparisons, a nested select
// expression, negation and disjunction can be built.
#[test]
#[allow(unused)]
fn filter_construction() -> Result<(), String> {
    Filter::new(
        Value::Column("user".to_string()),
        Comparator::Eq,
        Value::U64(20),
    )
    .and(Filter::new(
        Value::Column("user".to_string()),
        Comparator::Eq,
        Value::Expression(Box::new(select(
            "id".to_string(),
            vec!["article".to_string()],
        )?)),
    ))
    .not()
    .or(Filter::new(
        Value::Column("bucket".to_string()),
        Comparator::Eq,
        Value::List(vec![Value::I32(1)]),
    ));
    Ok(())
}

#[test]
fn select_parses_names_and_aliases() {
    let sb = select(
        "users".to_string(),
        vec!["user u".to_string(), "id".to_string(), "  age   a  ".to_string()],
    )
    .unwrap();
    match sb.src {
        DataSource::Table { table, columns } => {
            assert_eq!(table, "users");
            assert_eq!(columns.len(), 3);
            assert_eq!(
                columns[0],
                Column { name: "user".to_string(), alias: Some("u".to_string()) }
            );
            assert_eq!(columns[1], Column { name: "id".to_string(), alias: None });
            assert_eq!(
                columns[2],
                Column { name: "age".to_string(), alias: Some("a".to_string()) }
            );
        }
        _ => panic!("expected a table source"),
    }
}

#[test]
fn select_accepts_empty_column_list() {
    let sb = select("t".to_string(), vec![]).unwrap();
    match sb.src {
        DataSource::Table { table, columns } => {
            assert_eq!(table, "t");
            assert!(columns.is_empty());
        }
        _ => panic!("expected a table source"),
    }
}

#[test]
fn select_rejects_blank_column() {
    let err = select("t".to_string(), vec!["id".to_string(), "   ".to_string()]).unwrap_err();
    assert_eq!(err, "empty column name");
}

#[test]
fn filter_wraps_source() {
    let sb = select("t".to_string(), vec!["id".to_string()]).unwrap();
    let filtered = sb.filter(Filter::new(
        Value::Column("id".to_string()),
        Comparator::Gt,
        Value::U64(7),
    ));
    match filtered.src {
        DataSource::Filtered { filter, src } => {
            assert!(!filter.inverted);
            match *src {
                DataSource::Table { table, .. } => assert_eq!(table, "t"),
                _ => panic!("expected the table source below the filter"),
            }
        }
        _ => panic!("expected a filtered source"),
    }
}

#[test]
fn not_flips_inversion() {
    let f = Filter::new(Value::Null, Comparator::Eq, Value::Null);
    assert!(!f.inverted);
    let g = f.not();
    assert!(g.inverted);
    let h = g.not();
    assert!(!h.inverted);
}

#[test]
fn default_value_is_null() {
    assert_eq!(Value::default(), Value::Null);
}

#[test]
fn value_from_uuid_carries_the_bytes() {
    let bytes: [u8; 16] = [0, 1, 2, 3, 4, 5, 6, 7, 8, 9, 10, 11, 12, 13, 14, 15];
    let u = uuid::Uuid::from_bytes(bytes);
    let v = pagealloc::builder::value_from_uuid(&u);
    assert_eq!(v, Value::Uuid(bytes));
}
