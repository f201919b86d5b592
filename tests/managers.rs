use file_compare::config_manager::with_default_config;
use file_compare::models::ReconciliationResult;
use file_compare::pipeline::recheck_task;
use file_compare::config_manager::{default_config, ConfigManager};
use file_compare::models::{default_history_days, DateRange, ReconciliationStats, ReconciliationTask};
use file_compare::order_manager::OrderManager;
use file_compare::pipeline::{double_check, find_field_name, require_column};
use file_compare::row::{Field, Row};
use file_compare::task_manager::TaskManager;
use file_compare::value::Value;

fn task(id: &str, config: &str) -> ReconciliationTask {
    ReconciliationTask {
        task_id: id.to_string(),
        task_name: format!("task {}", id),
        config_id: config.to_string(),
        config_name: "Config".to_string(),
        source_a_name: "orders".to_string(),
        source_b_name: "bank".to_string(),
        task_type: "PAYOUT".to_string(),
        date_range: DateRange { start: "2024-05-10".to_string(), end: "2024-05-10".to_string() },
        created_at: "now".to_string(),
        source_a_file_name: "a.csv".to_string(),
        source_b_file_name: "b.csv".to_string(),
        stats: ReconciliationStats {
            matched_count: 0,
            only_in_source_a_count: 0,
            only_in_source_b_count: 0,
            diff_amount_count: 0,
            total_source_a: 0,
            total_source_b: 0,
        },
        used_historical_source_a: false,
        used_historical_source_b: false,
    }
}

fn text(s: &str) -> Value {
    Value::Text(s.to_string())
}

fn row(pairs: &[(&str, &str)]) -> Row {
    Row { fields: pairs.iter().map(|(n, v)| Field { name: n.to_string(), value: text(v) }).collect() }
}

#[test]
fn history_days_default_is_five() {
    assert_eq!(default_history_days(), 5);
}

#[test]
fn tasks_upsert_filter_and_delete() {
    let mut m = TaskManager::new(vec![]);
    m.save_task(task("t1", "c1"));
    m.save_task(task("t2", "c2"));
    m.save_task(task("t3", "c1"));
    let mut renamed = task("t1", "c1");
    renamed.task_name = "renamed".to_string();
    m.save_task(renamed);
    assert_eq!(m.tasks.len(), 3);
    assert_eq!(m.tasks[0].task_name, "renamed");
    let ids: Vec<String> = m.get_tasks_by_config("c1").iter().map(|t| t.task_id.clone()).collect();
    assert_eq!(ids, vec!["t1", "t3"]);
    assert!(m.find_task("t2").is_some());
    m.delete_task("t2");
    assert!(m.find_task("t2").is_none());
    assert_eq!(m.tasks.len(), 2);
}

#[test]
fn configs_path_upsert_and_remove() {
    let m = ConfigManager::new("/home/u/.file-compare/reconciliation_configs".to_string());
    assert_eq!(m.get_config_file_path(), "/home/u/.file-compare/reconciliation_configs/configs.json");
    let mut configs = vec![];
    ConfigManager::upsert_config(&mut configs, default_config("t0"));
    let mut again = default_config("t1");
    again.name = "changed".to_string();
    ConfigManager::upsert_config(&mut configs, again);
    assert_eq!(configs.len(), 1);
    assert_eq!(configs[0].name, "changed");
    let mut other = default_config("t2");
    other.id = "second".to_string();
    ConfigManager::upsert_config(&mut configs, other);
    ConfigManager::remove_config(&mut configs, "default-example");
    assert_eq!(configs.len(), 1);
    assert_eq!(configs[0].id, "second");
}

#[test]
fn default_config_shape() {
    let c = default_config("2024-01-01T00:00:00Z");
    assert_eq!(c.id, "default-example");
    assert_eq!(c.config_type, "PAYOUT");
    assert_eq!(c.created_at, "2024-01-01T00:00:00Z");
    assert_eq!(find_field_name(&c.source_a_config.mappings, "OrderAmount"), "sourceAAmount");
    assert_eq!(find_field_name(&c.source_b_config.mappings, "OrderStatus"), "sourceBStatus");
    assert_eq!(find_field_name(&c.source_b_config.mappings, "Nothing"), "");
    assert_eq!(c.source_a_config.mappings[1].format_rules[0].operation, "DEL_AFTER");
    assert_eq!(c.match_config.source_a_status_mapping[0].source_status, vec!["PAID", "COMPLETED", "SUCCESS"]);
}

#[test]
fn missing_column_error_lists_columns() {
    let rows = vec![row(&[("a", "1"), ("b", "2")]), row(&[("c", "3")])];
    assert!(require_column(&rows, "c", "source A").is_ok());
    let err = require_column(&rows, "zz", "source A").unwrap_err();
    assert!(err.contains("'zz'"));
    assert!(err.contains("source A"));
    assert!(err.ends_with("a, b, c"));
}

#[test]
fn double_check_widens_both_sides() {
    let mut store = OrderManager::new();
    let a = |id: &str| row(&[("sourceAId", id), ("normalized_status", "PAID"), ("sourceAAmount", "5")]);
    let b = |id: &str| row(&[("sourceBId", id), ("normalized_status", "PAID"), ("sourceBAmount", "5")]);
    store.save_order_data("default-example", "C", "orders", "a", "2024-05-08", vec![a("E1")]).unwrap();
    store.save_order_data("default-example", "C", "bank", "b", "2024-05-12", vec![b("E1")]).unwrap();
    store.save_order_data("default-example", "C", "orders", "a", "2024-05-10", vec![a("E2")]).unwrap();
    let config = default_config("t");
    let t = task("t1", "default-example");
    let narrow = double_check(&store, &t, &config, 0).unwrap_err();
    assert_eq!(narrow, "configured field 'sourceBId' does not exist in source B. Available fields: ");
    store.save_order_data("default-example", "C", "bank", "b", "2024-05-10", vec![b("E9")]).unwrap();
    let one_day = double_check(&store, &t, &config, 0).unwrap();
    assert_eq!(one_day.only_in_a.len(), 1);
    assert_eq!(one_day.only_in_b.len(), 1);
    assert!(one_day.matched.is_empty());
    let wide = double_check(&store, &t, &config, 2).unwrap();
    assert_eq!(wide.matched.len(), 1);
    assert_eq!(wide.only_in_a.len(), 1);
    assert_eq!(wide.only_in_b.len(), 1);
    let empty = OrderManager::new();
    assert!(double_check(&empty, &t, &config, 2).is_err());
}

#[test]
fn recheck_and_run_records() {
    let res = ReconciliationResult { matched: vec![], only_in_a: vec![row(&[("a", "1")])], only_in_b: vec![], diff_amount: vec![] };
    let t = recheck_task(&task("t1", "c1"), 1700000000123, "now2".to_string(), 3, &res);
    assert_eq!(t.task_id, "task_1700000000123_doublecheck");
    assert_eq!(t.task_name, "task t1 (Double Check)");
    assert_eq!(t.source_a_file_name, "历史数据(±3天)");
    assert_eq!(t.stats.only_in_source_a_count, 1);
    assert_eq!(t.stats.total_source_a, 1);
    assert!(t.used_historical_source_a && t.used_historical_source_b);
    let fresh = with_default_config(vec![], "t");
    assert_eq!(fresh.len(), 1);
    assert_eq!(fresh[0].config_type, "PAYOUT");
    let mut other = default_config("t");
    other.id = "mine".to_string();
    let kept = with_default_config(vec![other], "t");
    assert_eq!(kept.len(), 1);
    assert_eq!(kept[0].id, "mine");
}
