use file_compare::exporter::{cell_text_exec, difference_cell, difference_text, order_diff_headers, order_headers, row_cells};
use file_compare::matcher::perform_reconciliation;
use file_compare::row::{Field, Row};
use file_compare::value::{Number, Value};

fn names(v: &[&str]) -> Vec<String> {
    v.iter().map(|s| s.to_string()).collect()
}

fn row(pairs: &[(&str, Value)]) -> Row {
    Row { fields: pairs.iter().map(|(n, v)| Field { name: n.to_string(), value: v.clone() }).collect() }
}

fn text(s: &str) -> Value {
    Value::Text(s.to_string())
}

#[test]
fn headers_follow_priority_groups() {
    let all = names(&[
        "amount", "sourceAId", "normalized_status", "sourceATime", "sourceAAmount", "sourceAStatus", "raw",
        "sourceAId_original", "e2e", "sourceANote",
    ]);
    assert_eq!(
        order_headers(&all),
        names(&[
            "sourceAId", "sourceAId_original", "sourceATime", "amount", "sourceAAmount", "normalized_status",
            "sourceAStatus", "sourceANote",
        ])
    );
}

#[test]
fn diff_headers_put_a_then_b_amount_and_difference_last() {
    let all = names(&["sourceBAmount", "sourceAId", "sourceBId", "sourceAAmount", "normalized_status", "sourceBStatus", "amount"]);
    let (h, a, b) = order_diff_headers(&all);
    assert_eq!(
        h,
        names(&["sourceAId", "sourceBId", "sourceAAmount", "sourceBAmount", "normalized_status", "sourceBStatus", "金额差异"])
    );
    assert_eq!(a.as_deref(), Some("sourceAAmount"));
    assert_eq!(b.as_deref(), Some("sourceBAmount"));
    let (h, a, _) = order_diff_headers(&names(&["sourceBAmount", "x"]));
    assert!(a.is_none());
    assert_eq!(h, names(&["sourceBAmount"]));
}

#[test]
fn difference_is_rounded_to_hundredths() {
    let n = |num: i64, den: u64| Number { num, den };
    assert_eq!(difference_text(n(1000, 10), n(90, 1)).unwrap(), "10.00");
    assert_eq!(difference_text(n(125, 1000), n(0, 1)).unwrap(), "0.13");
    assert_eq!(difference_text(n(-125, 1000), n(0, 1)).unwrap(), "-0.13");
    assert_eq!(difference_text(n(-4, 1000), n(0, 1)).unwrap(), "0.00");
    assert_eq!(difference_text(n(1, 3), n(0, 1)).unwrap(), "0.33");
    assert!(difference_text(n(1, 10_000_000_000_000_000), n(0, 1)).is_none());
}

#[test]
fn mismatch_row_carries_difference() {
    let a = vec![row(&[("sourceAId", text("X1")), ("normalized_status", text("PAID")), ("sourceAAmount", text("100.0"))])];
    let b = vec![row(&[("sourceBId", text("X1")), ("normalized_status", text("PAID")), ("sourceBAmount", text("90.0"))])];
    let res = perform_reconciliation(&a, &b, "sourceAId", "sourceBId", "sourceAAmount", "sourceBAmount");
    assert_eq!(res.diff_amount.len(), 1);
    assert_eq!(difference_cell(&res.diff_amount[0], "sourceAAmount", "sourceBAmount"), "10.00");
}

#[test]
fn cells_render_each_kind() {
    assert_eq!(cell_text_exec(&Value::Null), "");
    assert_eq!(cell_text_exec(&Value::Bool(true)), "true");
    assert_eq!(cell_text_exec(&Value::Number(Number { num: 5, den: 2 })), "2.50");
    assert_eq!(cell_text_exec(&Value::Number(Number { num: 1000, den: 10 })), "100.0");
    assert_eq!(cell_text_exec(&Value::Number(Number { num: -1005, den: 1000 })), "-1.005");
    assert_eq!(cell_text_exec(&Value::Number(Number { num: 7, den: 1 })), "7");
    assert_eq!(cell_text_exec(&Value::Number(Number { num: 5, den: 100 })), "0.05");
    assert_eq!(cell_text_exec(&text("x")), "x");
    let r = row(&[("a", text("1")), ("b", Value::Bool(false))]);
    assert_eq!(row_cells(&r, &names(&["b", "missing", "a"])), names(&["false", "", "1"]));
}

#[test]
fn column_kinds_ignore_case() {
    let all = names(&["SOURCEATIME", "SourceAID", "Bank_STATUS", "AMOUNT"]);
    assert_eq!(order_headers(&all), names(&["SourceAID", "SOURCEATIME", "AMOUNT", "Bank_STATUS"]));
}
