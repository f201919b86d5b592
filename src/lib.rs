//! Record-level reconciliation of two independently formatted tabular sources:
//! rule-based column cleaning, status normalisation, deduplication, a dated
//! batch store with historical windows, and a four-way matcher.

pub mod config_manager;
pub mod dates;
pub mod dedup;
pub mod exporter;
pub mod laws;
pub mod matcher;
pub mod models;
pub mod order_manager;
pub mod pipeline;
pub mod processor;
pub mod row;
pub mod rules;
pub mod status;
pub mod task_manager;
pub mod text;
pub mod value;
