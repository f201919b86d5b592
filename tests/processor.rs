use file_compare::models::{ColumnMapping, FormatRule, StatusMapping};
use file_compare::processor::DataProcessor;
use file_compare::row::{Field, Row};
use file_compare::value::Value;

fn row(pairs: &[(&str, &str)]) -> Row {
    Row { fields: pairs.iter().map(|(n, v)| Field { name: n.to_string(), value: Value::Text(v.to_string()) }).collect() }
}

#[test]
fn processor_runs_stages_on_named_tables() {
    let mut p = DataProcessor::new();
    p.load_historical_data("source_a", vec![row(&[("e2e", "AB-1x"), ("st", "OK")]), row(&[("e2e", "AB-1y"), ("st", "OK")])]).unwrap();
    p.load_historical_data("source_b", vec![row(&[("id", "AB-1"), ("st", "DONE")])]).unwrap();
    assert!(p.load_historical_data("orders", vec![]).is_err());
    let mapping = ColumnMapping {
        id: "1".to_string(),
        source_column: "e2e".to_string(),
        field_type: "OrderString".to_string(),
        field_name: "key".to_string(),
        rule_type: String::new(),
        rule_config: String::new(),
        save_original: false,
        format_rules: vec![FormatRule { rule_type: "pre".to_string(), operation: "DEL_AFTER".to_string(), value: "4".to_string() }],
    };
    p.apply_data_cleaning("source_a", &vec![mapping]).unwrap();
    p.remove_duplicates("source_a", "key").unwrap();
    assert_eq!(p.get_table_data("source_a").unwrap().len(), 1);
    p.normalize_status("source_a", "st", &vec![StatusMapping { source_status: vec!["OK".to_string()], target_status: "PAID".to_string() }]).unwrap();
    p.normalize_status("source_b", "st", &vec![StatusMapping { source_status: vec!["DONE".to_string()], target_status: "PAID".to_string() }]).unwrap();
    assert_eq!(p.get_table_columns("source_a").unwrap(), vec!["e2e", "st", "key", "normalized_status"]);
    let res = p.perform_reconciliation("key", "id", "", "");
    assert_eq!(res.matched.len(), 1);
    assert!(p.get_table_columns("nope").is_err());
    p.create_empty_tables();
    assert!(p.get_table_data("source_b").unwrap().is_empty());
}
