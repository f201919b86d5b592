use file_compare::models::{ColumnMapping, FormatRule, StatusMapping};
use file_compare::row::{Field, Row};
use file_compare::rules::{apply_data_cleaning, apply_format_rule, apply_format_rules};
use file_compare::status::normalize_status;
use file_compare::dedup::remove_duplicates;
use file_compare::value::{parse_count, parse_decimal, Number, Value};

fn text(s: &str) -> Value {
    Value::Text(s.to_string())
}

fn rule(op: &str, value: &str) -> FormatRule {
    FormatRule { rule_type: "pre".to_string(), operation: op.to_string(), value: value.to_string() }
}

fn row(pairs: &[(&str, Value)]) -> Row {
    Row { fields: pairs.iter().map(|(n, v)| Field { name: n.to_string(), value: v.clone() }).collect() }
}

fn as_text(v: &Value) -> String {
    match v {
        Value::Text(t) => t.clone(),
        other => panic!("expected text, got {:?}", other),
    }
}

fn as_number(v: &Value) -> (i64, u64) {
    match v {
        Value::Number(n) => (n.num, n.den),
        other => panic!("expected number, got {:?}", other),
    }
}

#[test]
fn unknown_operation_passes_value_through() {
    let v = text("abc[12]");
    let out = apply_format_rule(&v, &rule("NO_SUCH_OP", "3"));
    assert_eq!(as_text(&out), "abc[12]");
    let chain = vec![rule("DEL_PRE", "1"), rule("WHATEVER", ""), rule("ADD_CHAR_AFTER", "!")];
    let without = vec![rule("DEL_PRE", "1"), rule("ADD_CHAR_AFTER", "!")];
    assert_eq!(as_text(&apply_format_rules(&v, &chain)), as_text(&apply_format_rules(&v, &without)));
    assert_eq!(as_text(&apply_format_rules(&v, &chain)), "bc[12]!");
}

#[test]
fn del_after_truncates_long_and_keeps_short() {
    assert_eq!(as_text(&apply_format_rule(&text("E2E123456789"), &rule("DEL_AFTER", "7"))), "E2E1234");
    assert_eq!(as_text(&apply_format_rule(&text("E2E1234"), &rule("DEL_AFTER", "7"))), "E2E1234");
    assert_eq!(as_text(&apply_format_rule(&text("abc"), &rule("DEL_AFTER", "7"))), "abc");
    assert_eq!(as_text(&apply_format_rule(&text("abc"), &rule("DEL_AFTER", "0"))), "");
}

#[test]
fn del_pre_drops_prefix() {
    assert_eq!(as_text(&apply_format_rule(&text("ID-0042"), &rule("DEL_PRE", "3"))), "0042");
    assert_eq!(as_text(&apply_format_rule(&text("ab"), &rule("DEL_PRE", "5"))), "");
    assert_eq!(as_text(&apply_format_rule(&text("ab"), &rule("DEL_PRE", "+1"))), "b");
}

#[test]
fn unparsable_count_is_a_no_op() {
    assert_eq!(as_text(&apply_format_rule(&text("abcdef"), &rule("DEL_PRE", "x"))), "abcdef");
    assert_eq!(as_text(&apply_format_rule(&text("abcdef"), &rule("DEL_AFTER", "-2"))), "abcdef");
    assert_eq!(as_text(&apply_format_rule(&text("abcdef"), &rule("DEL_AFTER", "99999999999"))), "abcdef");
}

#[test]
fn del_char_and_replace() {
    assert_eq!(as_text(&apply_format_rule(&text("1,234,567"), &rule("DEL_CHAR", ","))), "1234567");
    assert_eq!(as_text(&apply_format_rule(&text("a--b--c"), &rule("DEL_CHAR", "--"))), "abc");
    assert_eq!(as_text(&apply_format_rule(&text("2024/01/02"), &rule("REPLACE_TWO_CHAR", "/,-"))), "2024-01-02");
    assert_eq!(as_text(&apply_format_rule(&text("aaa"), &rule("REPLACE_TWO_CHAR", "aa,b"))), "ba");
    assert_eq!(as_text(&apply_format_rule(&text("a,b"), &rule("REPLACE_TWO_CHAR", "a,b,c"))), "a,b");
    assert_eq!(as_text(&apply_format_rule(&text("abc"), &rule("DEL_CHAR", ""))), "abc");
}

#[test]
fn bracket_value_extracts_first_group() {
    assert_eq!(as_text(&apply_format_rule(&text("pay [ORD-7] x [y]"), &rule("BRA_VALUE", ""))), "ORD-7");
    assert_eq!(as_text(&apply_format_rule(&text("[]x]"), &rule("BRA_VALUE", ""))), "]x");
    assert_eq!(as_text(&apply_format_rule(&text("none"), &rule("BRA_VALUE", ""))), "");
    assert_eq!(as_text(&apply_format_rule(&text("[open"), &rule("BRA_VALUE", ""))), "");
}

#[test]
fn add_prefix_and_suffix() {
    assert_eq!(as_text(&apply_format_rule(&text("42"), &rule("ADD_CHAR_PRE", "ID-"))), "ID-42");
    assert_eq!(as_text(&apply_format_rule(&text("42"), &rule("ADD_CHAR_AFTER", "-X"))), "42-X");
}

#[test]
fn numeric_rules_are_exact() {
    assert_eq!(as_number(&apply_format_rule(&text("-12.50"), &rule("ABS_VALUE", ""))), (1250, 100));
    assert_eq!(as_number(&apply_format_rule(&text("1000"), &rule("DIVIDE_NUMBER", "100"))), (1000, 100));
    assert_eq!(as_number(&apply_format_rule(&text("3"), &rule("DIVIDE_NUMBER", "-2"))), (-3, 2));
    assert_eq!(as_text(&apply_format_rule(&text("abc"), &rule("ABS_VALUE", ""))), "abc");
    assert_eq!(as_text(&apply_format_rule(&text("10"), &rule("DIVIDE_NUMBER", "0"))), "10");
    assert_eq!(as_text(&apply_format_rule(&text("10"), &rule("DIVIDE_NUMBER", "x"))), "10");
    let n = Value::Number(Number { num: -7, den: 1 });
    assert_eq!(as_number(&apply_format_rule(&n, &rule("ABS_VALUE", ""))), (7, 1));
}

#[test]
fn textual_rule_leaves_numbers_alone() {
    let n = Value::Number(Number { num: 5, den: 1 });
    assert_eq!(as_number(&apply_format_rule(&n, &rule("ADD_CHAR_PRE", "x"))), (5, 1));
    assert!(matches!(apply_format_rule(&Value::Null, &rule("DEL_AFTER", "2")), Value::Null));
}

#[test]
fn timestamp_rule_reformats() {
    assert_eq!(
        as_text(&apply_format_rule(&text("2024-03-05T07:08:09"), &rule("XENDIT_TIME", ""))),
        "2024-03-05 07:08:09"
    );
    assert_eq!(as_text(&apply_format_rule(&text("not a time"), &rule("XENDIT_TIME", ""))), "not a time");
}

#[test]
fn decimal_and_count_parsing() {
    let d = parse_decimal(&"-0012.340".chars().collect()).unwrap();
    assert_eq!((d.num, d.den), (-12340, 1000));
    assert!(parse_decimal(&".".chars().collect()).is_none());
    assert!(parse_decimal(&"1.2.3".chars().collect()).is_none());
    assert!(parse_decimal(&"9223372036854775808".chars().collect()).is_none());
    assert_eq!(parse_decimal(&"+.5".chars().collect()).map(|n| (n.num, n.den)), Some((5, 10)));
    assert_eq!(parse_count(&"+15".chars().collect()), Some(15));
    assert_eq!(parse_count(&"2147483648".chars().collect()), None);
    assert_eq!(parse_count(&"".chars().collect()), None);
}

#[test]
fn cleaning_writes_target_and_original() {
    let mapping = ColumnMapping {
        id: "2".to_string(),
        source_column: "e2e".to_string(),
        field_type: "OrderString".to_string(),
        field_name: "sourceAId".to_string(),
        rule_type: "ORDER_STRING_NORMAL".to_string(),
        rule_config: String::new(),
        save_original: true,
        format_rules: vec![rule("DEL_AFTER", "3")],
    };
    let rows = vec![row(&[("e2e", text("ABCDEF"))])];
    let out = apply_data_cleaning(&rows, &vec![mapping]);
    assert_eq!(out.len(), 1);
    assert_eq!(as_text(&out[0].get("sourceAId")), "ABC");
    assert_eq!(as_text(&out[0].get("sourceAId_original")), "ABCDEF");
    assert_eq!(as_text(&out[0].get("e2e")), "ABCDEF");
    assert_eq!(out[0].columns(), vec!["e2e".to_string(), "sourceAId".to_string(), "sourceAId_original".to_string()]);
}

#[test]
fn status_normalization_first_alias_set_wins() {
    let ms = vec![
        StatusMapping { source_status: vec!["PAID".to_string(), "OK".to_string()], target_status: "PAID".to_string() },
        StatusMapping { source_status: vec!["OK".to_string()], target_status: "OTHER".to_string() },
    ];
    let rows = vec![row(&[("s", text("OK"))]), row(&[("s", text("paid"))]), row(&[("x", text("PAID"))])];
    let out = normalize_status(&rows, "s", &ms);
    assert_eq!(as_text(&out[0].get("normalized_status")), "PAID");
    assert!(matches!(out[1].get("normalized_status"), Value::Null));
    assert!(matches!(out[2].get("normalized_status"), Value::Null));
    assert!(out[1].has_column("normalized_status"));
}

#[test]
fn dedup_keeps_first_and_order() {
    let rows = vec![
        row(&[("id", text("A")), ("n", text("1"))]),
        row(&[("id", text("B")), ("n", text("2"))]),
        row(&[("id", text("A")), ("n", text("3"))]),
        row(&[("n", text("4"))]),
        row(&[("n", text("5"))]),
        row(&[("id", text("C")), ("n", text("6"))]),
    ];
    let out = remove_duplicates(&rows, "id");
    let ns: Vec<String> = out.iter().map(|r| as_text(&r.get("n"))).collect();
    assert_eq!(ns, vec!["1", "2", "4", "5", "6"]);
}

#[test]
fn dedup_compares_numbers_by_value() {
    let rows = vec![
        row(&[("id", Value::Number(Number { num: 10, den: 10 }))]),
        row(&[("id", Value::Number(Number { num: 1, den: 1 }))]),
        row(&[("id", text("1"))]),
    ];
    assert_eq!(remove_duplicates(&rows, "id").len(), 2);
}
