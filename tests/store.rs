use file_compare::dates::{parse_date, shift_date, CalendarDate};
use file_compare::order_manager::{OrderManager, QueryCondition};
use file_compare::pipeline::window_start;
use file_compare::row::{Field, Row};
use file_compare::value::{Number, Value};

fn text(s: &str) -> Value {
    Value::Text(s.to_string())
}

fn tagged(tag: &str) -> Row {
    Row { fields: vec![Field { name: "tag".to_string(), value: text(tag) }] }
}

fn tag_of(r: &Row) -> String {
    match r.get("tag") {
        Value::Text(t) => t,
        other => panic!("no tag: {:?}", other),
    }
}

fn date(y: i32, m: u32, d: u32) -> CalendarDate {
    CalendarDate { year: y, month: m, day: d }
}

#[test]
fn put_twice_keeps_only_second_batch() {
    let mut store = OrderManager::new();
    let d = date(2024, 5, 10);
    store.put_batch("cfg", "bank", d, vec![tagged("first-1"), tagged("first-2")]);
    store.put_batch("cfg", "bank", d, vec![tagged("second")]);
    let rows = store.load_window("cfg", "bank", d, d);
    let tags: Vec<String> = rows.iter().map(tag_of).collect();
    assert_eq!(tags, vec!["second"]);
    assert_eq!(store.batches.len(), 1);
}

#[test]
fn window_returns_inner_days_in_date_order() {
    let mut store = OrderManager::new();
    for (day, tag) in [(12, "d+2"), (7, "d-3"), (10, "d"), (13, "d+3"), (8, "d-2")] {
        store.put_batch("cfg", "orders", date(2024, 3, day), vec![tagged(tag)]);
    }
    store.put_batch("cfg", "bank", date(2024, 3, 10), vec![tagged("other source")]);
    let rows = store.load_window("cfg", "orders", date(2024, 3, 8), date(2024, 3, 12));
    let tags: Vec<String> = rows.iter().map(tag_of).collect();
    assert_eq!(tags, vec!["d-2", "d", "d+2"]);
}

#[test]
fn window_crosses_month_and_year_boundaries() {
    let d = parse_date("2024-01-02").unwrap();
    let start = window_start(d, 5).unwrap();
    assert_eq!(start, date(2023, 12, 28));
    assert_eq!(shift_date(date(2024, 2, 28), 1).unwrap(), date(2024, 2, 29));
    assert_eq!(shift_date(date(2023, 2, 28), 1).unwrap(), date(2023, 3, 1));
    let mut store = OrderManager::new();
    store.put_batch("c", "s", date(2023, 12, 27), vec![tagged("out")]);
    store.put_batch("c", "s", date(2023, 12, 28), vec![tagged("in-1")]);
    store.put_batch("c", "s", date(2024, 1, 2), vec![tagged("in-2")]);
    let tags: Vec<String> = store.load_window("c", "s", start, d).iter().map(tag_of).collect();
    assert_eq!(tags, vec!["in-1", "in-2"]);
}

#[test]
fn malformed_dates_are_rejected() {
    assert!(parse_date("2024-02-30").is_err());
    assert!(parse_date("yesterday").is_err());
    assert_eq!(parse_date("2024-02-29").unwrap(), date(2024, 2, 29));
}

#[test]
fn save_records_metadata_and_replaces_day() {
    let mut store = OrderManager::new();
    let f1 = store.save_order_data("cfg", "Config", "bank", "a.csv", "2024-05-10", vec![tagged("1"), tagged("2")]).unwrap();
    assert_eq!(f1.record_count, 2);
    assert_eq!(f1.file_id.len(), 36);
    assert_eq!(f1.date_range.as_ref().unwrap().start, "2024-05-10");
    let f2 = store.save_order_data("cfg", "Config", "bank", "b.csv", "2024-05-10", vec![tagged("3")]).unwrap();
    assert_ne!(f1.file_id, f2.file_id);
    let rows = store.load_historical_data("cfg", "bank", "2024-05-01", "2024-05-31").unwrap();
    assert_eq!(rows.iter().map(tag_of).collect::<Vec<_>>(), vec!["3"]);
    let listed = store.list_order_files();
    assert_eq!(listed.len(), 2);
    assert_eq!(listed[0].file_name, "b.csv");
    assert!(store.save_order_data("cfg", "Config", "bank", "c.csv", "10/05/2024", vec![]).is_err());
    assert_eq!(store.files.len(), 2);
    assert!(store.load_historical_data("cfg", "bank", "bad", "2024-05-31").is_err());
}

#[test]
fn cleanup_removes_strictly_earlier_batches() {
    let mut store = OrderManager::new();
    for day in [1, 2, 3] {
        store.save_order_data("cfg", "Config", "bank", "f.csv", &format!("2024-06-0{}", day), vec![tagged(&day.to_string())]).unwrap();
    }
    let removed = store.cleanup_orders_before_date("2024-06-02").unwrap();
    assert_eq!(removed, 1);
    let rows = store.load_window("cfg", "bank", date(2024, 1, 1), date(2024, 12, 31));
    assert_eq!(rows.iter().map(tag_of).collect::<Vec<_>>(), vec!["2", "3"]);
    assert_eq!(store.files.len(), 2);
    assert!(store.cleanup_orders_before_date("June").is_err());
}

#[test]
fn delete_file_removes_its_batch() {
    let mut store = OrderManager::new();
    let f = store.save_order_data("cfg", "Config", "bank", "f.csv", "2024-06-01", vec![tagged("x")]).unwrap();
    store.save_order_data("cfg", "Config", "orders", "g.csv", "2024-06-01", vec![tagged("y")]).unwrap();
    store.delete_order_file("no-such-id");
    assert_eq!(store.batches.len(), 2);
    store.delete_order_file(&f.file_id);
    assert_eq!(store.batches.len(), 1);
    assert_eq!(store.files.len(), 1);
    assert_eq!(store.get_files_by_config("cfg").len(), 1);
    assert_eq!(store.get_files_by_config("other").len(), 0);
    assert_eq!(store.clear_all_orders(), 1);
    assert_eq!(store.batches.len(), 0);
}

#[test]
fn query_filters_by_conditions_and_limit() {
    let mut store = OrderManager::new();
    let mk = |id: &str, amount: i64| Row {
        fields: vec![
            Field { name: "tag".to_string(), value: text(id) },
            Field { name: "amount".to_string(), value: Value::Number(Number { num: amount, den: 1 }) },
        ],
    };
    store.put_batch("cfg", "bank", date(2024, 1, 1), vec![mk("alpha", 5), mk("beta", 15), mk("gamma", 25)]);
    store.put_batch("other", "bank", date(2024, 1, 1), vec![mk("delta", 15)]);
    let cond = |field: &str, op: &str, v: &str, v2: Option<&str>| QueryCondition {
        field: field.to_string(),
        operator: op.to_string(),
        value: v.to_string(),
        value2: v2.map(|s| s.to_string()),
    };
    let tags = |rows: Vec<Row>| rows.iter().map(tag_of).collect::<Vec<_>>();
    assert_eq!(tags(store.query_orders(Some("cfg"), None, &vec![cond("amount", "gt", "10", None)], None)), vec!["beta", "gamma"]);
    assert_eq!(tags(store.query_orders(None, Some("bank"), &vec![cond("amount", "lt", "16", None)], None)), vec!["alpha", "beta", "delta"]);
    assert_eq!(tags(store.query_orders(Some("cfg"), None, &vec![cond("amount", "between", "5", Some("15"))], None)), vec!["alpha", "beta"]);
    assert_eq!(tags(store.query_orders(Some("cfg"), None, &vec![cond("tag", "contains", "mm", None)], None)), vec!["gamma"]);
    assert_eq!(tags(store.query_orders(Some("cfg"), None, &vec![cond("tag", "equals", "beta", None)], None)), vec!["beta"]);
    assert_eq!(tags(store.query_orders(Some("cfg"), None, &vec![cond("missing", "unknown-op", "", None)], None)), Vec::<String>::new());
    assert_eq!(tags(store.query_orders(Some("cfg"), None, &vec![cond("tag", "unknown-op", "", None)], Some(2))), vec!["alpha", "beta"]);
    assert_eq!(tags(store.query_orders(Some("cfg"), None, &vec![cond("tag", "gt", "1", None)], None)), Vec::<String>::new());
}

#[test]
fn shifting_out_of_range_is_an_error() {
    assert!(shift_date(date(2024, 1, 1), 1_000_000_000).is_err());
    assert!(shift_date(date(2024, 1, 1), -1_000_000_000).is_err());
    assert!(window_start(date(2024, 1, 1), usize::MAX).is_err());
}

#[test]
fn empty_store_loads_nothing() {
    let store = OrderManager::new();
    assert!(store.load_window("cfg", "bank", date(2000, 1, 1), date(2100, 1, 1)).is_empty());
    assert!(store.list_order_files().is_empty());
    assert!(store.query_orders(None, None, &vec![], None).is_empty());
}

#[test]
fn malformed_cleanup_date_deletes_nothing() {
    let mut store = OrderManager::new();
    store.save_order_data("cfg", "Config", "bank", "f.csv", "2024-06-01", vec![tagged("x")]).unwrap();
    assert!(store.cleanup_orders_before_date("2024-13-01").is_err());
    assert!(store.cleanup_orders_before_date("01/02/2024").is_err());
    assert_eq!(store.batches.len(), 1);
    assert_eq!(store.files.len(), 1);
}

#[test]
fn leap_year_window_start() {
    let d = parse_date("2024-03-02").unwrap();
    assert_eq!(window_start(d, 5).unwrap(), date(2024, 2, 26));
    assert_eq!(file_compare::pipeline::window_end(date(2024, 2, 27), 3).unwrap(), date(2024, 3, 1));
}

#[test]
fn resaving_same_text_date_replaces_the_batch() {
    let mut store = OrderManager::new();
    store.save_order_data("cfg", "Config", "bank", "f.csv", "2024-3-1", vec![tagged("a"), tagged("b")]).unwrap();
    store.save_order_data("cfg", "Config", "bank", "f.csv", "2024-3-1", vec![tagged("a"), tagged("b")]).unwrap();
    assert_eq!(store.batches.len(), 1);
    let rows = store.load_historical_data("cfg", "bank", "2024-03-01", "2024-03-01").unwrap();
    assert_eq!(rows.iter().map(tag_of).collect::<Vec<_>>(), vec!["a", "b"]);
}
