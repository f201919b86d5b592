//! Configuration and result records shared by the pipeline stages.

use vstd::prelude::*;
use crate::row::Row;

verus! {

/// A saved reconciliation configuration for one pair of data sources.
#[derive(Clone, Debug)]
pub struct ChannelConfig {
    pub id: String,
    pub name: String,
    pub source_a_name: String,
    pub source_b_name: String,
    pub config_type: String,
    pub created_at: String,
    pub updated_at: String,
    pub source_a_config: FileTypeConfig,
    pub source_b_config: FileTypeConfig,
    pub match_config: MatchConfig,
}

/// How the files of one source are read and cleaned.
#[derive(Clone, Debug)]
pub struct FileTypeConfig {
    pub header: usize,
    pub timezone: String,
    pub remove_duplicate: bool,
    pub mappings: Vec<ColumnMapping>,
}

/// One uploaded file of one source, with its business date range.
#[derive(Clone, Debug)]
pub struct FileConfig {
    pub source_name: String,
    pub file_type: String,
    pub date_range: DateRange,
    pub file_path: String,
    pub file_name: String,
    pub header: usize,
    pub timezone: String,
    pub remove_duplicate: bool,
}

/// An inclusive range of business dates, written `YYYY-MM-DD`.
#[derive(Clone, Debug)]
pub struct DateRange {
    pub start: String,
    pub end: String,
}

/// How one canonical field is derived from one raw column.
#[derive(Clone, Debug)]
pub struct ColumnMapping {
    pub id: String,
    pub source_column: String,
    pub field_type: String,
    pub field_name: String,
    pub rule_type: String,
    pub rule_config: String,
    pub save_original: bool,
    pub format_rules: Vec<FormatRule>,
}

/// One transformation step: an operation tag and its parameter.
#[derive(Clone, Debug)]
pub struct FormatRule {
    pub rule_type: String,
    pub operation: String,
    pub value: String,
}

/// Raw status aliases that all stand for one canonical status.
#[derive(Clone, Debug)]
pub struct StatusMapping {
    pub source_status: Vec<String>,
    pub target_status: String,
}

/// How the two sources are joined and compared.
#[derive(Clone, Debug)]
pub struct MatchConfig {
    pub source_a_id_field: String,
    pub source_a_status_mapping: Vec<StatusMapping>,
    pub source_b_id_field: String,
    pub source_b_status_mapping: Vec<StatusMapping>,
    pub use_historical_source_a: bool,
    pub use_historical_source_b: bool,
    pub history_days: usize,
}

/// Number of days of history that a match configuration looks back by default.
pub fn default_history_days() -> (r: usize)
    ensures
        r == 5,
{
    5
}

/// The four partitions of a reconciliation run.
#[derive(Clone, Debug)]
pub struct ReconciliationResult {
    pub matched: Vec<Row>,
    pub only_in_a: Vec<Row>,
    pub only_in_b: Vec<Row>,
    pub diff_amount: Vec<Row>,
}

/// The record kept of one reconciliation run.
#[derive(Clone, Debug)]
pub struct ReconciliationTask {
    pub task_id: String,
    pub task_name: String,
    pub config_id: String,
    pub config_name: String,
    pub source_a_name: String,
    pub source_b_name: String,
    pub task_type: String,
    pub date_range: DateRange,
    pub created_at: String,
    pub source_a_file_name: String,
    pub source_b_file_name: String,
    pub stats: ReconciliationStats,
    pub used_historical_source_a: bool,
    pub used_historical_source_b: bool,
}

/// Partition sizes of a reconciliation run.
#[derive(Clone, Copy, Debug, PartialEq, Eq, Structural)]
pub struct ReconciliationStats {
    pub matched_count: usize,
    pub only_in_source_a_count: usize,
    pub only_in_source_b_count: usize,
    pub diff_amount_count: usize,
    pub total_source_a: usize,
    pub total_source_b: usize,
}

} // verus!
