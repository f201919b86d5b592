//! One reconciliation run, from raw batches to the four partitions: clean,
//! deduplicate, normalise statuses, store the day's batches, optionally widen
//! each side to a historical window, and match.

use vstd::prelude::*;
use crate::dates::{
    CalendarDate, date_of, day_number, in_chrono_range, lemma_day_number_bound, malformed_date_message,
    parse_date, shift_date, shift_exists,
};
use crate::dedup::{all_wf, dedup_rows, remove_duplicates, rows_model};
use crate::matcher::{MatchColumns, pairs_all, perform_reconciliation, unmatched};
use crate::models::{
    ChannelConfig, ColumnMapping, FileConfig, MatchConfig, ReconciliationResult, ReconciliationStats,
    ReconciliationTask, StatusMapping,
};
use crate::order_manager::{BatchModel, OrderManager, put_result, window_rows};
use crate::row::{Row, RowModel, find_field, has_field, lemma_find_field_bound};
use crate::rules::{apply_data_cleaning, clean_row, mapping_model};
use crate::status::{normalize_status, normalized_row, status_model};
use crate::exporter::{nat_text, nat_text_exec};
use crate::text::{chars_of, push_str, str_eq, string_of};

verus! {

/// The target field of the first mapping of type `ty`; empty when none has it.
pub open spec fn field_name_of_type(ms: Seq<ColumnMapping>, ty: Seq<char>) -> Seq<char>
    decreases ms.len(),
{
    if ms.len() == 0 {
        Seq::empty()
    } else if ms[0].field_type@ == ty {
        ms[0].field_name@
    } else {
        field_name_of_type(ms.subrange(1, ms.len() as int), ty)
    }
}

/// The target field of the first mapping of type `field_type`, or an empty
/// string when no mapping has that type.
pub fn find_field_name(mappings: &Vec<ColumnMapping>, field_type: &str) -> (r: String)
    ensures
        r@ == field_name_of_type(mappings@, field_type@),
{
    let mut i: usize = 0;
    assert(mappings@.subrange(0, mappings@.len() as int) =~= mappings@);
    while i < mappings.len()
        invariant
            i <= mappings@.len(),
            field_name_of_type(mappings@, field_type@) == field_name_of_type(
                mappings@.subrange(i as int, mappings@.len() as int),
                field_type@,
            ),
        decreases mappings@.len() - i,
    {
        let ghost rest = mappings@.subrange(i as int, mappings@.len() as int);
        assert(rest[0] == mappings@[i as int]);
        assert(rest.subrange(1, rest.len() as int) =~= mappings@.subrange(i + 1, mappings@.len() as int));
        if str_eq(mappings[i].field_type.as_str(), field_type) {
            return mappings[i].field_name.clone();
        }
        i = i + 1;
    }
    String::new()
}

/// A raw batch after cleaning, optional deduplication on `id`, and, when
/// `status_field` is non-empty, status normalisation.
pub open spec fn prepared_rows(
    rs: Seq<RowModel>,
    ms: Seq<ColumnMapping>,
    dedup: bool,
    id: Seq<char>,
    status_field: Seq<char>,
    sms: Seq<StatusMapping>,
) -> Seq<RowModel> {
    let cleaned = rs.map_values(|r: RowModel| clean_row(r, ms.map_values(|m: ColumnMapping| mapping_model(m))));
    let deduped = if dedup { dedup_rows(cleaned, id) } else { cleaned };
    if status_field.len() > 0 {
        deduped.map_values(|r: RowModel| normalized_row(r, status_field, sms.map_values(|m: StatusMapping| status_model(m))))
    } else {
        deduped
    }
}

/// Cleans a raw batch with `mappings`, removes duplicates on `id_field` when
/// asked, and sets canonical statuses from the first status-typed mapping's
/// field, when there is one.
pub fn prepare_source(
    rows: &Vec<Row>,
    mappings: &Vec<ColumnMapping>,
    remove_duplicate: bool,
    id_field: &str,
    status_mappings: &Vec<StatusMapping>,
) -> (r: Vec<Row>)
    requires
        all_wf(rows@),
    ensures
        all_wf(r@),
        rows_model(r@) == prepared_rows(
            rows_model(rows@),
            mappings@,
            remove_duplicate,
            id_field@,
            field_name_of_type(mappings@, "OrderStatus"@),
            status_mappings@,
        ),
{
    let cleaned = apply_data_cleaning(rows, mappings);
    let ghost cm = rows_model(rows@).map_values(|r: RowModel| clean_row(r, mappings@.map_values(|m: ColumnMapping| mapping_model(m))));
    assert(rows_model(cleaned@) =~= cm);
    assert(all_wf(cleaned@));
    let deduped = if remove_duplicate {
        remove_duplicates(&cleaned, id_field)
    } else {
        cleaned
    };
    let status_field = find_field_name(mappings, "OrderStatus");
    if status_field.unicode_len() > 0 {
        let out = normalize_status(&deduped, status_field.as_str(), status_mappings);
        assert(rows_model(out@) =~= rows_model(deduped@).map_values(|r: RowModel| normalized_row(r, status_field@, status_mappings@.map_values(|m: StatusMapping| status_model(m)))));
        out
    } else {
        deduped
    }
}

/// The match columns of a run.
pub open spec fn match_columns(id_a: Seq<char>, id_b: Seq<char>, amount_a: Seq<char>, amount_b: Seq<char>) -> MatchColumns {
    MatchColumns { id_a, id_b, amount_a, amount_b }
}

/// `res` holds the four partitions of matching `a` against `b`.
pub open spec fn is_match_of(res: ReconciliationResult, a: Seq<RowModel>, b: Seq<RowModel>, c: MatchColumns) -> bool {
    &&& rows_model(res.matched@) == pairs_all(a, b, c, false)
    &&& rows_model(res.diff_amount@) == pairs_all(a, b, c, true)
    &&& rows_model(res.only_in_a@) == unmatched(a, c.id_a, b, c.id_b)
    &&& rows_model(res.only_in_b@) == unmatched(b, c.id_b, a, c.id_a)
}

/// The rows one side is matched with: the stored window from `lo` to `d` when
/// history is used, else the prepared batch.
pub open spec fn side_rows(
    hist: bool,
    store: Seq<crate::order_manager::BatchModel>,
    cfg: Seq<char>,
    src: Seq<char>,
    lo: CalendarDate,
    d: CalendarDate,
    prepared: Seq<RowModel>,
) -> Seq<RowModel> {
    if hist {
        window_rows(store, cfg, src, lo, d)
    } else {
        prepared
    }
}

/// The first error of checking a side: none for a side without rows; else
/// a missing key column, then a missing amount column when one is configured.
pub open spec fn columns_error(rows: Seq<RowModel>, id: Seq<char>, amount: Seq<char>, side: Seq<char>) -> Option<Seq<char>> {
    if rows.len() == 0 {
        None
    } else if !column_present(rows, id) {
        Some(missing_column_message(id, side, distinct_columns(rows)))
    } else if amount.len() > 0 && !column_present(rows, amount) {
        Some(missing_column_message(amount, side, distinct_columns(rows)))
    } else {
        None
    }
}

/// Checks a non-empty side for its key column and, when configured, its
/// amount column.
pub fn check_columns(rows: &Vec<Row>, id: &str, amount: &str, side: &str) -> (r: Result<(), String>)
    ensures
        r is Ok <==> columns_error(rows_model(rows@), id@, amount@, side@) is None,
        r matches Err(m) ==> columns_error(rows_model(rows@), id@, amount@, side@) == Some(m@),
{
    if rows.len() == 0 {
        return Ok(());
    }
    require_column(rows, id, side)?;
    if amount.unicode_len() > 0 {
        require_column(rows, amount, side)?;
    }
    Ok(())
}

/// The batch of one side after preparation.
pub open spec fn side_prepared(rows: Seq<Row>, remove_duplicate: bool, id: Seq<char>, ms: Seq<ColumnMapping>, sms: Seq<StatusMapping>) -> Seq<RowModel> {
    prepared_rows(rows_model(rows), ms, remove_duplicate, id, field_name_of_type(ms, "OrderStatus"@), sms)
}

/// Store `m2` is store `m0` after storing `pa` under source `src_a` and then
/// `pb` under source `src_b`, both on business date `d`.
pub open spec fn stored_both(
    m0: Seq<BatchModel>,
    m2: Seq<BatchModel>,
    cfg: Seq<char>,
    src_a: Seq<char>,
    src_b: Seq<char>,
    d: CalendarDate,
    pa: Seq<RowModel>,
    pb: Seq<RowModel>,
) -> bool {
    exists|m1: Seq<BatchModel>| #[trigger] put_result(m0, m1, (cfg, src_a, d, pa)) && put_result(m1, m2, (cfg, src_b, d, pb))
}

/// `lo` is the day `n` days before `d`.
pub open spec fn days_before(lo: CalendarDate, d: CalendarDate, n: int) -> bool {
    lo.valid() && in_chrono_range(lo) && day_number(lo) == day_number(d) - n
}

/// `hi` is the day `n` days after `d`.
pub open spec fn days_after(hi: CalendarDate, d: CalendarDate, n: int) -> bool {
    hi.valid() && in_chrono_range(hi) && day_number(hi) == day_number(d) + n
}

/// The outcome of a run on business date `d` whose window start exists:
/// with `m2` the store after both batches are stored and `lo` the day
/// `n` days before `d`, each side is its window (when its history flag is
/// set) or its prepared batch; the run fails with the first column error of
/// side A, then of side B; otherwise `res` holds their match and the store
/// ends as `m2`.
pub open spec fn run_spec(
    res: Option<ReconciliationResult>,
    err: Option<Seq<char>>,
    m0: Seq<BatchModel>,
    mf: Seq<BatchModel>,
    d: CalendarDate,
    n: int,
    hist_a: bool,
    hist_b: bool,
    cfg: Seq<char>,
    src_a: Seq<char>,
    src_b: Seq<char>,
    pa: Seq<RowModel>,
    pb: Seq<RowModel>,
    c: MatchColumns,
) -> bool {
    exists|m2: Seq<BatchModel>, lo: CalendarDate| #[trigger] stored_both(m0, m2, cfg, src_a, src_b, d, pa, pb) && #[trigger] days_before(lo, d, n) && {
        let sa = side_rows(hist_a, m2, cfg, src_a, lo, d, pa);
        let sb = side_rows(hist_b, m2, cfg, src_b, lo, d, pb);
        let ea = columns_error(sa, c.id_a, c.amount_a, "source A"@);
        let e = if ea is Some { ea } else { columns_error(sb, c.id_b, c.amount_b, "source B"@) };
        &&& (res is Some <==> e is None)
        &&& (res matches Some(x) ==> is_match_of(x, sa, sb, c) && mf == m2)
        &&& (err matches Some(m) ==> e == Some(m))
    }
}

/// The first day of a window of `days` days that ends on `end`; an error
/// exactly when chrono's date range does not hold it.
pub fn window_start(end: CalendarDate, days: usize) -> (r: Result<CalendarDate, String>)
    requires
        end.valid(),
    ensures
        r matches Ok(d) ==> d.valid() && in_chrono_range(d) && day_number(d) == day_number(end) - days,
        r is Ok <==> in_chrono_range(end) && shift_exists(end, -(days as int)),
{
    if days as u64 > 9223372036854775807u64 {
        proof {
            if shift_exists(end, -(days as int)) {
                let e = choose|e: CalendarDate| e.valid() && in_chrono_range(e) && #[trigger] day_number(e) == day_number(end) + -(days as int);
                lemma_day_number_bound(e);
                if in_chrono_range(end) {
                    lemma_day_number_bound(end);
                }
            }
        }
        return Err(string_of(&chars_of("date calculation failed")));
    }
    shift_date(end, -(days as i64))
}

/// The last day of a window of `days` days that starts on `start`; an error
/// exactly when chrono's date range does not hold it.
pub fn window_end(start: CalendarDate, days: usize) -> (r: Result<CalendarDate, String>)
    requires
        start.valid(),
    ensures
        r matches Ok(d) ==> d.valid() && in_chrono_range(d) && day_number(d) == day_number(start) + days,
        r is Ok <==> in_chrono_range(start) && shift_exists(start, days as int),
{
    if days as u64 > 9223372036854775807u64 {
        proof {
            if shift_exists(start, days as int) {
                let e = choose|e: CalendarDate| e.valid() && in_chrono_range(e) && #[trigger] day_number(e) == day_number(start) + days as int;
                lemma_day_number_bound(e);
                if in_chrono_range(start) {
                    lemma_day_number_bound(start);
                }
            }
        }
        return Err(string_of(&chars_of("date calculation failed")));
    }
    shift_date(start, days as i64)
}

/// Runs one reconciliation on the business date `source_a_config.date_range.start`:
/// prepares both raw batches (clean, deduplicate when asked, normalise
/// statuses), stores them under that date (replacing earlier batches of the
/// date), widens a side to the stored window of `match_config.history_days`
/// days ending on that date when its history flag is set, checks each side
/// with rows for its key column (and amount column, when configured), and
/// matches. Amounts are compared when both sides have an amount-typed
/// mapping. A run that fails leaves the store as it was.
pub fn reconcile_sources(
    store: &mut OrderManager,
    source_a_rows: &Vec<Row>,
    source_b_rows: &Vec<Row>,
    source_a_config: &FileConfig,
    source_b_config: &FileConfig,
    source_a_mappings: &Vec<ColumnMapping>,
    source_b_mappings: &Vec<ColumnMapping>,
    match_config: &MatchConfig,
    config_id: &str,
    config_name: &str,
) -> (r: Result<ReconciliationResult, String>)
    requires
        old(store).wf(),
        all_wf(source_a_rows@),
        all_wf(source_b_rows@),
    ensures
        final(store).wf(),
        r is Err ==> final(store).model() == old(store).model() && final(store).files == old(store).files,
        date_of(source_a_config.date_range.start@) is None ==> r == Err::<ReconciliationResult, String>(
            r->Err_0,
        ) && r->Err_0@ == malformed_date_message(),
        date_of(source_a_config.date_range.start@) matches Some(d) ==> (!(in_chrono_range(d) && shift_exists(
            d,
            -(match_config.history_days as int),
        )) ==> r is Err),
        date_of(source_a_config.date_range.start@) matches Some(d) ==> (in_chrono_range(d) && shift_exists(
            d,
            -(match_config.history_days as int),
        ) ==> run_spec(
            match r { Ok(x) => Some(x), Err(_) => None },
            match r { Ok(_) => None, Err(m) => Some(m@) },
            old(store).model(),
            final(store).model(),
            d,
            match_config.history_days as int,
            match_config.use_historical_source_a,
            match_config.use_historical_source_b,
            config_id@,
            source_a_config.source_name@,
            source_b_config.source_name@,
            side_prepared(
                source_a_rows@,
                source_a_config.remove_duplicate,
                match_config.source_a_id_field@,
                source_a_mappings@,
                match_config.source_a_status_mapping@,
            ),
            side_prepared(
                source_b_rows@,
                source_b_config.remove_duplicate,
                match_config.source_b_id_field@,
                source_b_mappings@,
                match_config.source_b_status_mapping@,
            ),
            match_columns(
                match_config.source_a_id_field@,
                match_config.source_b_id_field@,
                field_name_of_type(source_a_mappings@, "OrderAmount"@),
                field_name_of_type(source_b_mappings@, "OrderAmount"@),
            ),
        )),
{
    let a = prepare_source(
        source_a_rows,
        source_a_mappings,
        source_a_config.remove_duplicate,
        match_config.source_a_id_field.as_str(),
        &match_config.source_a_status_mapping,
    );
    let b = prepare_source(
        source_b_rows,
        source_b_mappings,
        source_b_config.remove_duplicate,
        match_config.source_b_id_field.as_str(),
        &match_config.source_b_status_mapping,
    );
    let ghost pa = rows_model(a@);
    let ghost pb = rows_model(b@);
    let amount_a = find_field_name(source_a_mappings, "OrderAmount");
    let amount_b = find_field_name(source_b_mappings, "OrderAmount");
    let upload_date = source_a_config.date_range.start.as_str();
    let day = parse_date(upload_date)?;
    let start = window_start(day, match_config.history_days)?;
    let ghost m0 = store.model();
    let mut next = store.duplicate();
    let a_store = duplicate_rows(&a);
    let b_store = duplicate_rows(&b);
    let ghost mn0 = next.model();
    next.save_order_data_on(
        config_id,
        config_name,
        source_a_config.source_name.as_str(),
        source_a_config.file_name.as_str(),
        upload_date,
        day,
        a_store,
    );
    let ghost m1 = next.model();
    next.save_order_data_on(
        config_id,
        config_name,
        source_b_config.source_name.as_str(),
        source_b_config.file_name.as_str(),
        upload_date,
        day,
        b_store,
    );
    let ghost m2 = next.model();
    assert(stored_both(m0, m2, config_id@, source_a_config.source_name@, source_b_config.source_name@, day, pa, pb));
    let ea = if match_config.use_historical_source_a {
        next.load_window(config_id, source_a_config.source_name.as_str(), start, day)
    } else {
        a
    };
    let eb = if match_config.use_historical_source_b {
        next.load_window(config_id, source_b_config.source_name.as_str(), start, day)
    } else {
        b
    };
    let ghost c = match_columns(
        match_config.source_a_id_field@,
        match_config.source_b_id_field@,
        amount_a@,
        amount_b@,
    );
    let ghost sa = side_rows(match_config.use_historical_source_a, m2, config_id@, source_a_config.source_name@, start, day, pa);
    let ghost sb = side_rows(match_config.use_historical_source_b, m2, config_id@, source_b_config.source_name@, start, day, pb);
    assert(rows_model(ea@) == sa);
    assert(rows_model(eb@) == sb);
    assert(days_before(start, day, match_config.history_days as int));
    let ca = check_columns(&ea, match_config.source_a_id_field.as_str(), amount_a.as_str(), "source A");
    match ca {
        Err(m) => {
            proof {
                reveal_strlit("source A");
                assert(run_spec(None, Some(m@), m0, m0, day, match_config.history_days as int,
                    match_config.use_historical_source_a, match_config.use_historical_source_b, config_id@,
                    source_a_config.source_name@, source_b_config.source_name@, pa, pb, c));
            }
            return Err(m);
        },
        Ok(()) => {},
    }
    let cb = check_columns(&eb, match_config.source_b_id_field.as_str(), amount_b.as_str(), "source B");
    match cb {
        Err(m) => {
            proof {
                assert(run_spec(None, Some(m@), m0, m0, day, match_config.history_days as int,
                    match_config.use_historical_source_a, match_config.use_historical_source_b, config_id@,
                    source_a_config.source_name@, source_b_config.source_name@, pa, pb, c));
            }
            return Err(m);
        },
        Ok(()) => {},
    }
    let res = perform_reconciliation(
        &ea,
        &eb,
        match_config.source_a_id_field.as_str(),
        match_config.source_b_id_field.as_str(),
        amount_a.as_str(),
        amount_b.as_str(),
    );
    *store = next;
    proof {
        assert(is_match_of(res, sa, sb, c));
        assert(run_spec(Some(res), None, m0, store.model(), day, match_config.history_days as int,
            match_config.use_historical_source_a, match_config.use_historical_source_b, config_id@,
            source_a_config.source_name@, source_b_config.source_name@, pa, pb, c));
    }
    Ok(res)
}

/// A copy of every row of a batch.
pub fn duplicate_rows(rows: &Vec<Row>) -> (r: Vec<Row>)
    requires
        all_wf(rows@),
    ensures
        all_wf(r@),
        rows_model(r@) == rows_model(rows@),
{
    let mut out: Vec<Row> = Vec::new();
    let mut i: usize = 0;
    while i < rows.len()
        invariant
            i <= rows@.len(),
            all_wf(rows@),
            all_wf(out@),
            rows_model(out@) == rows_model(rows@).subrange(0, i as int),
        decreases rows@.len() - i,
    {
        let ghost prev = rows_model(out@);
        out.push(rows[i].duplicate());
        assert(rows_model(out@) =~= prev.push(rows@[i as int]@));
        assert(rows_model(rows@).subrange(0, i + 1) =~= rows_model(rows@).subrange(0, i as int).push(rows@[i as int]@));
        i = i + 1;
    }
    assert(rows_model(rows@).subrange(0, i as int) =~= rows_model(rows@));
    out
}

/// Partition sizes of a result; each total counts a side's rows that took
/// part in a partition, saturating at the largest `usize`.
pub fn build_stats(result: &ReconciliationResult) -> (r: ReconciliationStats)
    ensures
        r.matched_count == result.matched@.len(),
        r.only_in_source_a_count == result.only_in_a@.len(),
        r.only_in_source_b_count == result.only_in_b@.len(),
        r.diff_amount_count == result.diff_amount@.len(),
        r.total_source_a as int == vstd::math::min(
            (result.matched@.len() + result.only_in_a@.len() + result.diff_amount@.len()) as int,
            usize::MAX as int,
        ),
        r.total_source_b as int == vstd::math::min(
            (result.matched@.len() + result.only_in_b@.len() + result.diff_amount@.len()) as int,
            usize::MAX as int,
        ),
{
    let m = result.matched.len();
    let a = result.only_in_a.len();
    let b = result.only_in_b.len();
    let d = result.diff_amount.len();
    ReconciliationStats {
        matched_count: m,
        only_in_source_a_count: a,
        only_in_source_b_count: b,
        diff_amount_count: d,
        total_source_a: m.saturating_add(a).saturating_add(d),
        total_source_b: m.saturating_add(b).saturating_add(d),
    }
}

/// Whether some row of `rs` has a column named `name`.
pub open spec fn column_present(rs: Seq<RowModel>, name: Seq<char>) -> bool {
    exists|i: int| 0 <= i < rs.len() && has_field(#[trigger] rs[i], name)
}

/// `acc` followed by the names of `names` it does not hold yet, each once, in order.
pub open spec fn add_names(acc: Seq<Seq<char>>, names: Seq<Seq<char>>) -> Seq<Seq<char>>
    decreases names.len(),
{
    if names.len() == 0 {
        acc
    } else {
        let a = add_names(acc, names.drop_last());
        if a.contains(names.last()) {
            a
        } else {
            a.push(names.last())
        }
    }
}

/// The column names of a row.
pub open spec fn row_names(r: RowModel) -> Seq<Seq<char>> {
    r.map_values(|f: (Seq<char>, crate::value::Scalar)| f.0)
}

/// The distinct column names of a batch, in order of first appearance.
pub open spec fn distinct_columns(rs: Seq<RowModel>) -> Seq<Seq<char>>
    decreases rs.len(),
{
    if rs.len() == 0 {
        Seq::empty()
    } else {
        add_names(distinct_columns(rs.drop_last()), row_names(rs.last()))
    }
}

/// The names of `cs` joined by `, `.
pub open spec fn joined(cs: Seq<Seq<char>>) -> Seq<char>
    decreases cs.len(),
{
    if cs.len() == 0 {
        Seq::empty()
    } else if cs.len() == 1 {
        cs[0]
    } else {
        joined(cs.drop_last()) + ", "@ + cs.last()
    }
}

/// The error of a missing column: it names the field and the side, and lists
/// the side's columns.
pub open spec fn missing_column_message(field: Seq<char>, side: Seq<char>, cols: Seq<Seq<char>>) -> Seq<char> {
    "configured field '"@ + field + "' does not exist in "@ + side + ". Available fields: "@ + joined(cols)
}

/// The names of a vector of strings.
pub open spec fn names_of(v: Seq<String>) -> Seq<Seq<char>> {
    v.map_values(|s: String| s@)
}

proof fn lemma_names_present(rs: Seq<RowModel>, n: Seq<char>)
    ensures
        distinct_columns(rs).contains(n) <==> column_present(rs, n),
        distinct_columns(rs).no_duplicates(),
    decreases rs.len(),
{
    if rs.len() > 0 {
        let p = rs.drop_last();
        lemma_names_present(p, n);
        lemma_add_names(distinct_columns(p), row_names(rs.last()), n);
        let r = rs.last();
        lemma_find_field_bound(r, n);
        if column_present(rs, n) {
            let i = choose|i: int| 0 <= i < rs.len() && has_field(#[trigger] rs[i], n);
            if i < p.len() {
                assert(p[i] == rs[i]);
            } else {
                assert(row_names(r)[find_field(r, n) as int] == n);
            }
        }
        if column_present(p, n) {
            let i = choose|i: int| 0 <= i < p.len() && has_field(#[trigger] p[i], n);
            assert(p[i] == rs[i]);
        }
        if row_names(r).contains(n) {
            let j = choose|j: int| 0 <= j < row_names(r).len() && row_names(r)[j] == n;
            assert(r[j].0 == n);
            assert(has_field(rs[rs.len() - 1], n));
        }
    }
}

proof fn lemma_add_names(acc: Seq<Seq<char>>, names: Seq<Seq<char>>, n: Seq<char>)
    ensures
        add_names(acc, names).contains(n) <==> acc.contains(n) || names.contains(n),
        acc.no_duplicates() ==> add_names(acc, names).no_duplicates(),
    decreases names.len(),
{
    if names.len() > 0 {
        let p = names.drop_last();
        lemma_add_names(acc, p, n);
        lemma_add_names(acc, p, names.last());
        let a = add_names(acc, p);
        if names.contains(n) {
            let j = choose|j: int| 0 <= j < names.len() && names[j] == n;
            if j < p.len() {
                assert(p[j] == n);
            }
        }
        if p.contains(n) {
            let j = choose|j: int| 0 <= j < p.len() && p[j] == n;
            assert(names[j] == n);
        }
        if n == names.last() {
            assert(names[names.len() - 1] == n);
        }
        assert(names.contains(n) <==> (p.contains(n) || n == names.last()));
        if !a.contains(names.last()) {
            assert(a.push(names.last())[a.len() as int] == names.last());
            if a.push(names.last()).contains(n) {
                let j = choose|j: int| 0 <= j < a.push(names.last()).len() && a.push(names.last())[j] == n;
                if j < a.len() {
                    assert(a[j] == n);
                }
            }
            if a.contains(n) {
                let j = choose|j: int| 0 <= j < a.len() && a[j] == n;
                assert(a.push(names.last())[j] == n);
            }
        }
    }
}

/// The distinct column names of a batch, each once, in order of first appearance.
pub fn available_columns(rows: &Vec<Row>) -> (r: Vec<String>)
    ensures
        names_of(r@) == distinct_columns(rows_model(rows@)),
        names_of(r@).no_duplicates(),
        forall|n: Seq<char>| names_of(r@).contains(n) <==> column_present(rows_model(rows@), n),
{
    let ghost rm = rows_model(rows@);
    let mut out: Vec<String> = Vec::new();
    let mut i: usize = 0;
    assert(names_of(out@) =~= Seq::<Seq<char>>::empty());
    assert(rm.subrange(0, 0) =~= Seq::<RowModel>::empty());
    while i < rows.len()
        invariant
            i <= rows@.len(),
            rm == rows_model(rows@),
            names_of(out@) == distinct_columns(rm.subrange(0, i as int)),
        decreases rows@.len() - i,
    {
        let names = rows[i].columns();
        let ghost base = names_of(out@);
        let ghost rn = row_names(rm[i as int]);
        assert(rm[i as int] == rows@[i as int]@);
        let mut j: usize = 0;
        assert(rn.subrange(0, 0) =~= Seq::<Seq<char>>::empty());
        while j < names.len()
            invariant
                i < rows@.len(),
                j <= names@.len(),
                rm == rows_model(rows@),
                rn == row_names(rm[i as int]),
                names@.len() == rn.len(),
                forall|t: int| 0 <= t < names@.len() ==> (#[trigger] names@[t])@ == rn[t],
                names_of(out@) == add_names(base, rn.subrange(0, j as int)),
            decreases names@.len() - j,
        {
            let mut seen = false;
            let mut t: usize = 0;
            while t < out.len()
                invariant
                    t <= out@.len(),
                    j < names@.len(),
                    seen == exists|u: int| 0 <= u < t && (#[trigger] out@[u])@ == names@[j as int]@,
                decreases out@.len() - t,
            {
                if out[t] == names[j] {
                    seen = true;
                }
                t = t + 1;
            }
            let ghost pre = rn.subrange(0, j + 1);
            assert(pre.drop_last() =~= rn.subrange(0, j as int));
            assert(pre.last() == rn[j as int]);
            let ghost cur = names_of(out@);
            assert(seen == cur.contains(rn[j as int])) by {
                if seen {
                    let u = choose|u: int| 0 <= u < out@.len() && (#[trigger] out@[u])@ == names@[j as int]@;
                    assert(cur[u] == rn[j as int]);
                }
                if cur.contains(rn[j as int]) {
                    let u = choose|u: int| 0 <= u < cur.len() && cur[u] == rn[j as int];
                    assert(out@[u]@ == cur[u]);
                }
            }
            if !seen {
                out.push(names[j].clone());
                assert(names_of(out@) =~= cur.push(rn[j as int]));
            }
            j = j + 1;
        }
        assert(rn.subrange(0, j as int) =~= rn);
        let ghost rpre = rm.subrange(0, i + 1);
        assert(rpre.drop_last() =~= rm.subrange(0, i as int));
        i = i + 1;
    }
    assert(rm.subrange(0, i as int) =~= rm);
    proof {
        lemma_names_present(rm, Seq::empty());
        assert forall|n: Seq<char>| names_of(out@).contains(n) <==> column_present(rm, n) by {
            lemma_names_present(rm, n);
        }
    }
    out
}

fn joined_exec(cols: &Vec<String>) -> (r: Vec<char>)
    ensures
        r@ == joined(names_of(cols@)),
{
    let ghost ns = names_of(cols@);
    let mut out: Vec<char> = Vec::new();
    let mut k: usize = 0;
    assert(ns.subrange(0, 0) =~= Seq::<Seq<char>>::empty());
    while k < cols.len()
        invariant
            k <= cols@.len(),
            ns == names_of(cols@),
            out@ == joined(ns.subrange(0, k as int)),
        decreases cols@.len() - k,
    {
        let ghost pre = ns.subrange(0, k + 1);
        assert(pre.drop_last() =~= ns.subrange(0, k as int));
        if k > 0 {
            push_str(&mut out, ", ");
        }
        push_str(&mut out, cols[k].as_str());
        proof {
            if k == 0 {
                assert(out@ =~= pre[0]);
            } else {
                assert(pre.last() == cols@[k as int]@);
            }
        }
        k = k + 1;
    }
    assert(ns.subrange(0, k as int) =~= ns);
    out
}

/// Checks that column `field` occurs in `rows`; the error names the field and
/// the side, and lists the columns there are.
pub fn require_column(rows: &Vec<Row>, field: &str, side: &str) -> (r: Result<(), String>)
    ensures
        r is Ok <==> column_present(rows_model(rows@), field@),
        r matches Err(m) ==> m@ == missing_column_message(field@, side@, distinct_columns(rows_model(rows@))),
{
    let ghost rm = rows_model(rows@);
    let mut i: usize = 0;
    while i < rows.len()
        invariant
            i <= rows@.len(),
            rm == rows_model(rows@),
            forall|j: int| 0 <= j < i ==> !has_field(#[trigger] rm[j], field@),
        decreases rows@.len() - i,
    {
        assert(rm[i as int] == rows@[i as int]@);
        if rows[i].has_column(field) {
            return Ok(());
        }
        i = i + 1;
    }
    let cols = available_columns(rows);
    let mut msg: Vec<char> = Vec::new();
    push_str(&mut msg, "configured field '");
    push_str(&mut msg, field);
    push_str(&mut msg, "' does not exist in ");
    push_str(&mut msg, side);
    push_str(&mut msg, ". Available fields: ");
    let j = joined_exec(&cols);
    let mut k: usize = 0;
    let ghost start = msg@;
    while k < j.len()
        invariant
            k <= j@.len(),
            msg@ == start + j@.subrange(0, k as int),
        decreases j@.len() - k,
    {
        msg.push(j[k]);
        k = k + 1;
        assert(msg@ =~= start + j@.subrange(0, k as int));
    }
    assert(j@.subrange(0, k as int) =~= j@);
    assert(msg@ =~= missing_column_message(field@, side@, distinct_columns(rm)));
    Err(string_of(&msg))
}

/// The first error of checking the windows of a re-run: a missing key column
/// of side A, of side B, then a missing configured amount column of A, of B.
pub open spec fn recheck_error(sa: Seq<RowModel>, sb: Seq<RowModel>, c: MatchColumns) -> Option<Seq<char>> {
    if !column_present(sa, c.id_a) {
        Some(missing_column_message(c.id_a, "source A"@, distinct_columns(sa)))
    } else if !column_present(sb, c.id_b) {
        Some(missing_column_message(c.id_b, "source B"@, distinct_columns(sb)))
    } else if c.amount_a.len() > 0 && !column_present(sa, c.amount_a) {
        Some(missing_column_message(c.amount_a, "source A"@, distinct_columns(sa)))
    } else if c.amount_b.len() > 0 && !column_present(sb, c.amount_b) {
        Some(missing_column_message(c.amount_b, "source B"@, distinct_columns(sb)))
    } else {
        None
    }
}

/// The outcome of a re-run over the window from `n` days before `d0` to `n`
/// days after `d1`: it fails with the first column error, else `res` holds
/// the match of the two windows.
pub open spec fn recheck_spec(
    res: Option<ReconciliationResult>,
    err: Option<Seq<char>>,
    m: Seq<BatchModel>,
    d0: CalendarDate,
    d1: CalendarDate,
    n: int,
    cfg: Seq<char>,
    src_a: Seq<char>,
    src_b: Seq<char>,
    c: MatchColumns,
) -> bool {
    exists|lo: CalendarDate, hi: CalendarDate| #[trigger] days_before(lo, d0, n) && #[trigger] days_after(hi, d1, n) && {
        let sa = window_rows(m, cfg, src_a, lo, hi);
        let sb = window_rows(m, cfg, src_b, lo, hi);
        let e = recheck_error(sa, sb, c);
        &&& (res is Some <==> e is None)
        &&& (res matches Some(x) ==> is_match_of(x, sa, sb, c))
        &&& (err matches Some(msg) ==> e == Some(msg))
    }
}

/// Re-runs the matching of a past task from the stored batches alone, over
/// its date range widened by `extended_days` on both ends. Fails when a date
/// does not parse, a widened date is out of range, or a key column, or a
/// configured amount column, is missing from the loaded rows.
pub fn double_check(
    store: &OrderManager,
    task: &ReconciliationTask,
    config: &ChannelConfig,
    extended_days: usize,
) -> (r: Result<ReconciliationResult, String>)
    requires
        store.wf(),
    ensures
        date_of(task.date_range.start@) is None || date_of(task.date_range.end@) is None ==> r is Err,
        (date_of(task.date_range.start@), date_of(task.date_range.end@)) matches (Some(d0), Some(d1)) ==> {
            let n = extended_days as int;
            let ok = in_chrono_range(d0) && shift_exists(d0, -n) && in_chrono_range(d1) && shift_exists(d1, n);
            &&& !ok ==> r is Err
            &&& ok ==> recheck_spec(
                match r { Ok(x) => Some(x), Err(_) => None },
                match r { Ok(_) => None, Err(m) => Some(m@) },
                store.model(),
                d0,
                d1,
                n,
                task.config_id@,
                task.source_a_name@,
                task.source_b_name@,
                match_columns(
                    config.match_config.source_a_id_field@,
                    config.match_config.source_b_id_field@,
                    field_name_of_type(config.source_a_config.mappings@, "OrderAmount"@),
                    field_name_of_type(config.source_b_config.mappings@, "OrderAmount"@),
                ),
            )
        },
{
    let first = parse_date(task.date_range.start.as_str())?;
    let last = parse_date(task.date_range.end.as_str())?;
    let lo = window_start(first, extended_days)?;
    let hi = window_end(last, extended_days)?;
    let a = store.load_window(task.config_id.as_str(), task.source_a_name.as_str(), lo, hi);
    let b = store.load_window(task.config_id.as_str(), task.source_b_name.as_str(), lo, hi);
    let id_a = config.match_config.source_a_id_field.as_str();
    let id_b = config.match_config.source_b_id_field.as_str();
    let amount_a = find_field_name(&config.source_a_config.mappings, "OrderAmount");
    let amount_b = find_field_name(&config.source_b_config.mappings, "OrderAmount");
    let ghost c = match_columns(id_a@, id_b@, amount_a@, amount_b@);
    let ghost sa = window_rows(store.model(), task.config_id@, task.source_a_name@, lo, hi);
    let ghost sb = window_rows(store.model(), task.config_id@, task.source_b_name@, lo, hi);
    let ghost n = extended_days as int;
    assert(days_before(lo, first, n) && days_after(hi, last, n));
    proof {
        reveal_strlit("source A");
        reveal_strlit("source B");
    }
    match require_column(&a, id_a, "source A") {
        Err(m) => {
            assert(recheck_spec(None, Some(m@), store.model(), first, last, n, task.config_id@, task.source_a_name@, task.source_b_name@, c));
            return Err(m);
        },
        Ok(()) => {},
    }
    match require_column(&b, id_b, "source B") {
        Err(m) => {
            assert(recheck_spec(None, Some(m@), store.model(), first, last, n, task.config_id@, task.source_a_name@, task.source_b_name@, c));
            return Err(m);
        },
        Ok(()) => {},
    }
    if amount_a.unicode_len() > 0 {
        match require_column(&a, amount_a.as_str(), "source A") {
            Err(m) => {
                assert(recheck_spec(None, Some(m@), store.model(), first, last, n, task.config_id@, task.source_a_name@, task.source_b_name@, c));
                return Err(m);
            },
            Ok(()) => {},
        }
    }
    if amount_b.unicode_len() > 0 {
        match require_column(&b, amount_b.as_str(), "source B") {
            Err(m) => {
                assert(recheck_spec(None, Some(m@), store.model(), first, last, n, task.config_id@, task.source_a_name@, task.source_b_name@, c));
                return Err(m);
            },
            Ok(()) => {},
        }
    }
    let res = perform_reconciliation(&a, &b, id_a, id_b, amount_a.as_str(), amount_b.as_str());
    assert(recheck_spec(Some(res), None, store.model(), first, last, n, task.config_id@, task.source_a_name@, task.source_b_name@, c));
    Ok(res)
}

/// The stats of a result, as `build_stats` computes them.
pub open spec fn stats_of(result: ReconciliationResult) -> ReconciliationStats {
    ReconciliationStats {
        matched_count: result.matched@.len() as usize,
        only_in_source_a_count: result.only_in_a@.len() as usize,
        only_in_source_b_count: result.only_in_b@.len() as usize,
        diff_amount_count: result.diff_amount@.len() as usize,
        total_source_a: vstd::math::min(
            (result.matched@.len() + result.only_in_a@.len() + result.diff_amount@.len()) as int,
            usize::MAX as int,
        ) as usize,
        total_source_b: vstd::math::min(
            (result.matched@.len() + result.only_in_b@.len() + result.diff_amount@.len()) as int,
            usize::MAX as int,
        ) as usize,
    }
}

/// The record of a run: its names, sources and date range from the run's
/// configuration, its stats from `result`, its history flags from
/// `match_config`; id and creation time as given.
pub fn run_task(
    task_id: String,
    task_name: String,
    created_at: String,
    config_id: &str,
    config_name: &str,
    source_a_config: &FileConfig,
    source_b_config: &FileConfig,
    match_config: &MatchConfig,
    result: &ReconciliationResult,
) -> (t: ReconciliationTask)
    ensures
        t.task_id == task_id,
        t.task_name == task_name,
        t.created_at == created_at,
        t.config_id@ == config_id@,
        t.config_name@ == config_name@,
        t.source_a_name == source_a_config.source_name,
        t.source_b_name == source_b_config.source_name,
        t.task_type == source_a_config.file_type,
        t.date_range == source_a_config.date_range,
        t.source_a_file_name == source_a_config.file_name,
        t.source_b_file_name == source_b_config.file_name,
        t.stats == stats_of(*result),
        t.used_historical_source_a == match_config.use_historical_source_a,
        t.used_historical_source_b == match_config.use_historical_source_b,
{
    ReconciliationTask {
        task_id,
        task_name,
        config_id: config_id.to_owned(),
        config_name: config_name.to_owned(),
        source_a_name: source_a_config.source_name.clone(),
        source_b_name: source_b_config.source_name.clone(),
        task_type: source_a_config.file_type.clone(),
        date_range: source_a_config.date_range.duplicate(),
        created_at,
        source_a_file_name: source_a_config.file_name.clone(),
        source_b_file_name: source_b_config.file_name.clone(),
        stats: build_stats(result),
        used_historical_source_a: match_config.use_historical_source_a,
        used_historical_source_b: match_config.use_historical_source_b,
    }
}

/// The record of a re-run of `original` widened by `extended_days`: id
/// `task_<stamp>_doublecheck`, the original's name with ` (Double Check)`
/// appended, its configuration, sources, type and date range, both file
/// names `历史数据(±<extended_days>天)`, stats of `result`, and both history flags set.
pub fn recheck_task(
    original: &ReconciliationTask,
    stamp: u64,
    created_at: String,
    extended_days: usize,
    result: &ReconciliationResult,
) -> (t: ReconciliationTask)
    ensures
        t.task_id@ == "task_"@ + nat_text(stamp as nat) + "_doublecheck"@,
        t.task_name@ == original.task_name@ + " (Double Check)"@,
        t.config_id == original.config_id,
        t.config_name == original.config_name,
        t.source_a_name == original.source_a_name,
        t.source_b_name == original.source_b_name,
        t.task_type == original.task_type,
        t.date_range == original.date_range,
        t.created_at == created_at,
        t.source_a_file_name@ == "历史数据(±"@ + nat_text(extended_days as nat) + "天)"@,
        t.source_b_file_name == t.source_a_file_name,
        t.stats == stats_of(*result),
        t.used_historical_source_a,
        t.used_historical_source_b,
{
    let mut id = chars_of("task_");
    let digits = nat_text_exec(stamp as u128);
    let mut k: usize = 0;
    let ghost s0 = id@;
    while k < digits.len()
        invariant
            k <= digits@.len(),
            id@ == s0 + digits@.subrange(0, k as int),
        decreases digits@.len() - k,
    {
        id.push(digits[k]);
        k = k + 1;
        assert(id@ =~= s0 + digits@.subrange(0, k as int));
    }
    assert(digits@.subrange(0, k as int) =~= digits@);
    push_str(&mut id, "_doublecheck");
    let mut name = chars_of(original.task_name.as_str());
    push_str(&mut name, " (Double Check)");
    let mut label = chars_of("历史数据(±");
    let days = nat_text_exec(extended_days as u128);
    let mut j: usize = 0;
    let ghost l0 = label@;
    while j < days.len()
        invariant
            j <= days@.len(),
            label@ == l0 + days@.subrange(0, j as int),
        decreases days@.len() - j,
    {
        label.push(days[j]);
        j = j + 1;
        assert(label@ =~= l0 + days@.subrange(0, j as int));
    }
    assert(days@.subrange(0, j as int) =~= days@);
    push_str(&mut label, "天)");
    let file_label = string_of(&label);
    ReconciliationTask {
        task_id: string_of(&id),
        task_name: string_of(&name),
        config_id: original.config_id.clone(),
        config_name: original.config_name.clone(),
        source_a_name: original.source_a_name.clone(),
        source_b_name: original.source_b_name.clone(),
        task_type: original.task_type.clone(),
        date_range: original.date_range.duplicate(),
        created_at,
        source_a_file_name: file_label.clone(),
        source_b_file_name: file_label,
        stats: build_stats(result),
        used_historical_source_a: true,
        used_historical_source_b: true,
    }
}

} // verus!
