use file_compare::matcher::{join_row, perform_reconciliation};
use file_compare::models::{ColumnMapping, DateRange, FileConfig, MatchConfig, ReconciliationResult, StatusMapping};
use file_compare::order_manager::OrderManager;
use file_compare::pipeline::{build_stats, reconcile_sources};
use file_compare::row::{Field, Row};
use file_compare::value::{Number, Value};

fn text(s: &str) -> Value {
    Value::Text(s.to_string())
}

fn row(pairs: &[(&str, Value)]) -> Row {
    Row { fields: pairs.iter().map(|(n, v)| Field { name: n.to_string(), value: v.clone() }).collect() }
}

fn as_text(v: &Value) -> String {
    match v {
        Value::Text(t) => t.clone(),
        other => panic!("expected text, got {:?}", other),
    }
}

fn mapping(src: &str, ty: &str, field: &str) -> ColumnMapping {
    ColumnMapping {
        id: field.to_string(),
        source_column: src.to_string(),
        field_type: ty.to_string(),
        field_name: field.to_string(),
        rule_type: String::new(),
        rule_config: String::new(),
        save_original: false,
        format_rules: vec![],
    }
}

fn mappings(side: &str) -> Vec<ColumnMapping> {
    vec![
        mapping("id", "OrderString", &format!("source{}Id", side)),
        mapping("status", "OrderStatus", &format!("source{}Status", side)),
        mapping("amount", "OrderAmount", &format!("source{}Amount", side)),
    ]
}

fn file_config(source: &str, date: &str) -> FileConfig {
    FileConfig {
        source_name: source.to_string(),
        file_type: "PAYOUT".to_string(),
        date_range: DateRange { start: date.to_string(), end: date.to_string() },
        file_path: String::new(),
        file_name: format!("{}.csv", source),
        header: 1,
        timezone: "UTC".to_string(),
        remove_duplicate: true,
    }
}

fn match_config() -> MatchConfig {
    let paid = || vec![StatusMapping { source_status: vec!["PAID".to_string()], target_status: "PAID".to_string() }];
    let mut b = paid();
    b.push(StatusMapping { source_status: vec!["PENDING".to_string()], target_status: "PENDING".to_string() });
    MatchConfig {
        source_a_id_field: "sourceAId".to_string(),
        source_a_status_mapping: paid(),
        source_b_id_field: "sourceBId".to_string(),
        source_b_status_mapping: b,
        use_historical_source_a: false,
        use_historical_source_b: false,
        history_days: 5,
    }
}

fn raw(id: &str, status: &str, amount: &str) -> Row {
    row(&[("id", text(id)), ("status", text(status)), ("amount", text(amount))])
}

fn run(a: Vec<Row>, b: Vec<Row>) -> ReconciliationResult {
    let mut store = OrderManager::new();
    reconcile_sources(
        &mut store,
        &a,
        &b,
        &file_config("orders", "2024-05-10"),
        &file_config("bank", "2024-05-10"),
        &mappings("A"),
        &mappings("B"),
        &match_config(),
        "cfg",
        "Config",
    )
    .unwrap()
}

#[test]
fn scenario_equal_amounts_match() {
    let res = run(vec![raw("X1", "PAID", "100.0")], vec![raw("X1", "PAID", "100.0")]);
    assert_eq!(res.matched.len(), 1);
    assert!(res.only_in_a.is_empty() && res.only_in_b.is_empty() && res.diff_amount.is_empty());
    assert_eq!(as_text(&res.matched[0].get("sourceAId")), "X1");
    assert_eq!(as_text(&res.matched[0].get("sourceBId")), "X1");
    let stats = build_stats(&res);
    assert_eq!((stats.matched_count, stats.total_source_a, stats.total_source_b), (1, 1, 1));
}

#[test]
fn scenario_amount_mismatch() {
    let res = run(vec![raw("X1", "PAID", "100.0")], vec![raw("X1", "PAID", "90.0")]);
    assert!(res.matched.is_empty());
    assert_eq!(res.diff_amount.len(), 1);
    assert!(res.only_in_a.is_empty() && res.only_in_b.is_empty());
    assert_eq!(as_text(&res.diff_amount[0].get("sourceAAmount")), "100.0");
    assert_eq!(as_text(&res.diff_amount[0].get("sourceBAmount")), "90.0");
    assert_eq!(build_stats(&res).diff_amount_count, 1);
}

#[test]
fn scenario_only_in_a() {
    let res = run(vec![raw("X2", "PAID", "50.0")], vec![]);
    assert_eq!(res.only_in_a.len(), 1);
    assert_eq!(as_text(&res.only_in_a[0].get("sourceAId")), "X2");
    assert!(res.matched.is_empty() && res.only_in_b.is_empty() && res.diff_amount.is_empty());
}

#[test]
fn scenario_status_gap_drops_pair() {
    let a = vec![row(&[("id", text("X3")), ("status", text("PAID"))])];
    let b = vec![row(&[("id", text("X3")), ("status", text("PENDING"))])];
    let res = run(a, b);
    assert!(res.matched.is_empty());
    assert!(res.only_in_a.is_empty());
    assert!(res.only_in_b.is_empty());
    assert!(res.diff_amount.is_empty());
}

#[test]
fn amounts_compare_exactly_and_unparsable_is_zero() {
    let res = run(vec![raw("X1", "PAID", "100"), raw("X2", "PAID", "abc")], vec![raw("X1", "PAID", "100.00"), raw("X2", "PAID", "0")]);
    assert_eq!(res.matched.len(), 2);
    assert!(res.diff_amount.is_empty());
}

#[test]
fn unaliased_status_never_pairs() {
    let res = run(vec![raw("X1", "WEIRD", "1")], vec![raw("X1", "WEIRD", "1")]);
    assert!(res.matched.is_empty() && res.diff_amount.is_empty());
    assert!(res.only_in_a.is_empty() && res.only_in_b.is_empty());
}

#[test]
fn absent_keys_never_join() {
    let a = vec![row(&[("k", Value::Null), ("normalized_status", text("PAID"))])];
    let b = vec![row(&[("normalized_status", text("PAID"))])];
    let res = perform_reconciliation(&a, &b, "k", "k", "", "");
    assert!(res.matched.is_empty());
    assert_eq!(res.only_in_a.len(), 1);
    assert_eq!(res.only_in_b.len(), 1);
}

#[test]
fn without_amount_columns_every_pair_matches() {
    let a = vec![row(&[("ka", text("1")), ("normalized_status", text("S")), ("amt", text("5"))])];
    let b = vec![
        row(&[("kb", text("1")), ("normalized_status", text("S")), ("amt", text("6"))]),
        row(&[("kb", text("1")), ("normalized_status", text("S")), ("amt", text("7"))]),
    ];
    let res = perform_reconciliation(&a, &b, "ka", "kb", "", "amt");
    assert_eq!(res.matched.len(), 2);
    let res = perform_reconciliation(&a, &b, "ka", "kb", "amt", "amt");
    assert_eq!(res.diff_amount.len(), 2);
    assert_eq!(as_text(&res.diff_amount[0].get("amt_b")), "6");
    assert_eq!(as_text(&res.diff_amount[1].get("amt_b")), "7");
}

#[test]
fn joined_row_renames_clashing_columns() {
    let a = row(&[("id", text("1")), ("x", text("a"))]);
    let b = row(&[("id", text("1")), ("y", Value::Number(Number { num: 2, den: 1 }))]);
    let j = join_row(&a, &b);
    assert_eq!(j.columns(), vec!["id".to_string(), "x".to_string(), "id_b".to_string(), "y".to_string()]);
}

#[test]
fn malformed_business_date_is_an_error() {
    let mut store = OrderManager::new();
    let r = reconcile_sources(
        &mut store,
        &vec![],
        &vec![],
        &file_config("orders", "2024-13-01"),
        &file_config("bank", "2024-13-01"),
        &mappings("A"),
        &mappings("B"),
        &match_config(),
        "cfg",
        "Config",
    );
    assert!(r.is_err());
}

#[test]
fn history_window_widens_side_a() {
    let mut store = OrderManager::new();
    let mut cfg = match_config();
    cfg.use_historical_source_a = true;
    cfg.history_days = 2;
    let earlier = reconcile_sources(
        &mut store,
        &vec![raw("H1", "PAID", "10")],
        &vec![],
        &file_config("orders", "2024-05-09"),
        &file_config("bank", "2024-05-09"),
        &mappings("A"),
        &mappings("B"),
        &cfg,
        "cfg",
        "Config",
    )
    .unwrap();
    assert_eq!(earlier.only_in_a.len(), 1);
    let res = reconcile_sources(
        &mut store,
        &vec![raw("T1", "PAID", "10")],
        &vec![raw("H1", "PAID", "10"), raw("T1", "PAID", "10")],
        &file_config("orders", "2024-05-10"),
        &file_config("bank", "2024-05-10"),
        &mappings("A"),
        &mappings("B"),
        &cfg,
        "cfg",
        "Config",
    )
    .unwrap();
    assert_eq!(res.matched.len(), 2);
    assert!(res.only_in_b.is_empty());
}

#[test]
fn unknown_key_column_fails_with_available_columns() {
    let mut store = OrderManager::new();
    let mut cfg = match_config();
    cfg.source_a_id_field = "wrongId".to_string();
    let err = reconcile_sources(
        &mut store,
        &vec![raw("X1", "PAID", "1")],
        &vec![raw("X1", "PAID", "1")],
        &file_config("orders", "2024-05-10"),
        &file_config("bank", "2024-05-10"),
        &mappings("A"),
        &mappings("B"),
        &cfg,
        "cfg",
        "Config",
    )
    .unwrap_err();
    assert!(err.contains("'wrongId'"));
    assert!(err.contains("sourceAId"));
}

#[test]
fn empty_batches_give_empty_partitions() {
    let res = perform_reconciliation(&vec![], &vec![], "a", "b", "x", "y");
    assert!(res.matched.is_empty() && res.only_in_a.is_empty() && res.only_in_b.is_empty() && res.diff_amount.is_empty());
    let only_b = perform_reconciliation(&vec![], &vec![row(&[("b", text("1"))])], "a", "b", "", "");
    assert_eq!(only_b.only_in_b.len(), 1);
}

#[test]
fn failed_run_leaves_store_untouched() {
    let mut store = OrderManager::new();
    let mut cfg = match_config();
    cfg.source_b_id_field = "missing".to_string();
    let err = reconcile_sources(
        &mut store,
        &vec![raw("X1", "PAID", "1")],
        &vec![raw("X1", "PAID", "1")],
        &file_config("orders", "2024-05-10"),
        &file_config("bank", "2024-05-10"),
        &mappings("A"),
        &mappings("B"),
        &cfg,
        "cfg",
        "Config",
    )
    .unwrap_err();
    assert_eq!(
        err,
        "configured field 'missing' does not exist in source B. Available fields: id, status, amount, sourceBId, sourceBStatus, sourceBAmount, normalized_status"
    );
    assert!(store.batches.is_empty());
    assert!(store.files.is_empty());
    let bad_date = reconcile_sources(
        &mut store,
        &vec![],
        &vec![],
        &file_config("orders", "2024-02-30"),
        &file_config("bank", "2024-02-30"),
        &mappings("A"),
        &mappings("B"),
        &match_config(),
        "cfg",
        "Config",
    );
    assert_eq!(bad_date.unwrap_err(), "malformed date, expected YYYY-MM-DD");
    assert!(store.batches.is_empty());
}
