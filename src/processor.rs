//! A working set of two named tables, `source_a` and `source_b`, on which a
//! run's stages act in turn.

use vstd::prelude::*;
use crate::dedup::{all_wf, dedup_rows, remove_duplicates, rows_model};
use crate::matcher::perform_reconciliation as match_tables;
use crate::models::{ColumnMapping, ReconciliationResult, StatusMapping};
use crate::pipeline::{available_columns, distinct_columns, duplicate_rows, is_match_of, match_columns, names_of};
use crate::row::{Row, RowModel};
use crate::rules::{apply_data_cleaning as clean_rows, clean_row, mapping_model};
use crate::status::{normalize_status as normalize_rows, normalized_row, status_model};
use crate::text::{chars_of, str_eq, string_of};

verus! {

/// Which table a name selects: `Some(true)` for `source_a`, `Some(false)` for
/// `source_b`, none for any other name.
pub open spec fn table_of(name: Seq<char>) -> Option<bool> {
    if name == "source_a"@ {
        Some(true)
    } else if name == "source_b"@ {
        Some(false)
    } else {
        None
    }
}

fn table_exec(name: &str) -> (r: Option<bool>)
    ensures
        r == table_of(name@),
{
    if str_eq(name, "source_a") {
        Some(true)
    } else if str_eq(name, "source_b") {
        Some(false)
    } else {
        None
    }
}

fn no_table(name: &str) -> (r: String) {
    let mut msg = chars_of("no table named '");
    crate::text::push_str(&mut msg, name);
    crate::text::push_str(&mut msg, "'");
    string_of(&msg)
}

/// The two tables of a run.
pub struct DataProcessor {
    pub source_a: Vec<Row>,
    pub source_b: Vec<Row>,
}

impl DataProcessor {
    pub open spec fn wf(&self) -> bool {
        all_wf(self.source_a@) && all_wf(self.source_b@)
    }

    /// The model of the table a name selects.
    pub open spec fn table(&self, a: bool) -> Seq<RowModel> {
        if a { rows_model(self.source_a@) } else { rows_model(self.source_b@) }
    }

    /// `self` after table `a` became `t`, the other table unchanged; an
    /// unknown name changes nothing.
    pub open spec fn updated(&self, old: &DataProcessor, name: Seq<char>, t: Seq<RowModel>) -> bool {
        match table_of(name) {
            Some(a) => self.table(a) == t && self.table(!a) == old.table(!a),
            None => self.table(true) == old.table(true) && self.table(false) == old.table(false),
        }
    }

    /// Two empty tables.
    pub fn new() -> (r: DataProcessor)
        ensures
            r.wf(),
            r.source_a@.len() == 0,
            r.source_b@.len() == 0,
    {
        DataProcessor { source_a: Vec::new(), source_b: Vec::new() }
    }

    /// Empties both tables.
    pub fn create_empty_tables(&mut self)
        ensures
            final(self).wf(),
            final(self).source_a@.len() == 0,
            final(self).source_b@.len() == 0,
    {
        self.source_a = Vec::new();
        self.source_b = Vec::new();
    }

    /// Appends `records` to a table.
    pub fn load_historical_data(&mut self, table_name: &str, records: Vec<Row>) -> (r: Result<(), String>)
        requires
            old(self).wf(),
            all_wf(records@),
        ensures
            final(self).wf(),
            r is Ok <==> table_of(table_name@) is Some,
            table_of(table_name@) matches Some(a) ==> final(self).updated(old(self), table_name@, old(self).table(a) + rows_model(records@)),
            table_of(table_name@) is None ==> final(self).updated(old(self), table_name@, Seq::empty()),
    {
        let which = match table_exec(table_name) {
            Some(a) => a,
            None => return Err(no_table(table_name)),
        };
        let mut records = records;
        let ghost before = if which { rows_model(self.source_a@) } else { rows_model(self.source_b@) };
        let ghost added = rows_model(records@);
        if which {
            self.source_a.append(&mut records);
        } else {
            self.source_b.append(&mut records);
        }
        proof {
            if which {
                assert(rows_model(self.source_a@) =~= before + added);
            } else {
                assert(rows_model(self.source_b@) =~= before + added);
            }
        }
        Ok(())
    }

    /// A copy of a table's rows.
    pub fn get_table_data(&self, table_name: &str) -> (r: Result<Vec<Row>, String>)
        requires
            self.wf(),
        ensures
            r is Ok <==> table_of(table_name@) is Some,
            r matches Ok(rows) ==> all_wf(rows@) && rows_model(rows@) == self.table(table_of(table_name@)->0),
    {
        match table_exec(table_name) {
            Some(true) => Ok(duplicate_rows(&self.source_a)),
            Some(false) => Ok(duplicate_rows(&self.source_b)),
            None => Err(no_table(table_name)),
        }
    }

    /// The distinct column names of a table.
    pub fn get_table_columns(&self, table_name: &str) -> (r: Result<Vec<String>, String>)
        ensures
            r is Ok <==> table_of(table_name@) is Some,
            r matches Ok(cols) ==> names_of(cols@) == distinct_columns(self.table(table_of(table_name@)->0)),
    {
        match table_exec(table_name) {
            Some(true) => Ok(available_columns(&self.source_a)),
            Some(false) => Ok(available_columns(&self.source_b)),
            None => Err(no_table(table_name)),
        }
    }

    /// Applies `mappings` to every row of a table.
    pub fn apply_data_cleaning(&mut self, table_name: &str, mappings: &Vec<ColumnMapping>) -> (r: Result<(), String>)
        requires
            old(self).wf(),
        ensures
            final(self).wf(),
            r is Ok <==> table_of(table_name@) is Some,
            table_of(table_name@) matches Some(a) ==> final(self).updated(
                old(self),
                table_name@,
                old(self).table(a).map_values(|x: RowModel| clean_row(x, mappings@.map_values(|m: ColumnMapping| mapping_model(m)))),
            ),
            table_of(table_name@) is None ==> final(self).updated(old(self), table_name@, Seq::empty()),
    {
        let which = match table_exec(table_name) {
            Some(a) => a,
            None => return Err(no_table(table_name)),
        };
        let ghost ms = mappings@.map_values(|m: ColumnMapping| mapping_model(m));
        if which {
            let t = clean_rows(&self.source_a, mappings);
            assert(rows_model(t@) =~= rows_model(self.source_a@).map_values(|x: RowModel| clean_row(x, ms)));
            self.source_a = t;
        } else {
            let t = clean_rows(&self.source_b, mappings);
            assert(rows_model(t@) =~= rows_model(self.source_b@).map_values(|x: RowModel| clean_row(x, ms)));
            self.source_b = t;
        }
        Ok(())
    }

    /// Removes the rows of a table whose key an earlier row already has.
    pub fn remove_duplicates(&mut self, table_name: &str, id_field: &str) -> (r: Result<(), String>)
        requires
            old(self).wf(),
        ensures
            final(self).wf(),
            r is Ok <==> table_of(table_name@) is Some,
            table_of(table_name@) matches Some(a) ==> final(self).updated(old(self), table_name@, dedup_rows(old(self).table(a), id_field@)),
            table_of(table_name@) is None ==> final(self).updated(old(self), table_name@, Seq::empty()),
    {
        let which = match table_exec(table_name) {
            Some(a) => a,
            None => return Err(no_table(table_name)),
        };
        if which {
            self.source_a = remove_duplicates(&self.source_a, id_field);
        } else {
            self.source_b = remove_duplicates(&self.source_b, id_field);
        }
        Ok(())
    }

    /// Sets the canonical status of every row of a table from column `status_field`.
    pub fn normalize_status(&mut self, table_name: &str, status_field: &str, mappings: &Vec<StatusMapping>) -> (r: Result<(), String>)
        requires
            old(self).wf(),
        ensures
            final(self).wf(),
            r is Ok <==> table_of(table_name@) is Some,
            table_of(table_name@) matches Some(a) ==> final(self).updated(
                old(self),
                table_name@,
                old(self).table(a).map_values(|x: RowModel| normalized_row(x, status_field@, mappings@.map_values(|m: StatusMapping| status_model(m)))),
            ),
            table_of(table_name@) is None ==> final(self).updated(old(self), table_name@, Seq::empty()),
    {
        let which = match table_exec(table_name) {
            Some(a) => a,
            None => return Err(no_table(table_name)),
        };
        let ghost sms = mappings@.map_values(|m: StatusMapping| status_model(m));
        if which {
            let t = normalize_rows(&self.source_a, status_field, mappings);
            assert(rows_model(t@) =~= rows_model(self.source_a@).map_values(|x: RowModel| normalized_row(x, status_field@, sms)));
            self.source_a = t;
        } else {
            let t = normalize_rows(&self.source_b, status_field, mappings);
            assert(rows_model(t@) =~= rows_model(self.source_b@).map_values(|x: RowModel| normalized_row(x, status_field@, sms)));
            self.source_b = t;
        }
        Ok(())
    }

    /// Matches `source_a` against `source_b`; see the matcher.
    pub fn perform_reconciliation(
        &self,
        order_id_field: &str,
        bank_id_field: &str,
        order_amount_field: &str,
        bank_amount_field: &str,
    ) -> (r: ReconciliationResult)
        requires
            self.wf(),
        ensures
            is_match_of(
                r,
                self.table(true),
                self.table(false),
                match_columns(order_id_field@, bank_id_field@, order_amount_field@, bank_amount_field@),
            ),
    {
        match_tables(&self.source_a, &self.source_b, order_id_field, bank_id_field, order_amount_field, bank_amount_field)
    }
}

} // verus!
