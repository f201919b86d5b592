//! The batch store: cleaned batches keyed by (configuration, source, business
//! date). Storing a batch replaces any batch under the same key; a window load
//! concatenates the batches of a date range in ascending date order.

use vstd::prelude::*;
use crate::dates::{
    CalendarDate, date_le, date_le_exec, date_of, date_shaped, iso_date_text, parse_date, plain_date,
};
use crate::dedup::{all_wf, rows_model};
pub use crate::models::DateRange;
use crate::row::{Row, RowModel, field_of, has_field};
use crate::text::{chars_of, occurs_at, occurs_at_exec, str_eq};
use crate::value::{Number, Scalar, Value, decimal_value, less_number, number_less, parse_decimal};

verus! {

/// The model of a stored batch: (configuration id, source name, business date, rows).
pub type BatchModel = (Seq<char>, Seq<char>, CalendarDate, Seq<RowModel>);

/// Relies on uuid's `Uuid::new_v4`: a fresh random identifier in its
/// hyphenated text form.
#[verifier::external_body]
fn new_file_id() -> (r: String) {
    uuid::Uuid::new_v4().to_string()
}

/// Relies on chrono's `Local::now`, written `%Y-%m-%d %H:%M:%S`: the local
/// wall-clock time of the upload.
#[verifier::external_body]
fn local_now_text() -> (r: String) {
    chrono::Local::now().format("%Y-%m-%d %H:%M:%S").to_string()
}

/// Metadata of one stored upload.
#[derive(Clone, Debug)]
pub struct OrderFile {
    pub file_id: String,
    pub file_name: String,
    pub config_id: String,
    pub config_name: String,
    pub source_name: String,
    pub upload_time: String,
    pub record_count: usize,
    pub date_range: Option<DateRange>,
}

/// A filter on stored rows: `field`, an operator among `equals`, `contains`,
/// `gt`, `lt` and `between`, and one or two operands.
#[derive(Clone, Debug)]
pub struct QueryCondition {
    pub field: String,
    pub operator: String,
    pub value: String,
    pub value2: Option<String>,
}

/// One stored batch.
#[derive(Clone, Debug)]
pub struct StoredBatch {
    pub config_id: String,
    pub source_name: String,
    pub date: CalendarDate,
    pub rows: Vec<Row>,
}

impl StoredBatch {
    pub open spec fn model(&self) -> BatchModel {
        (self.config_id@, self.source_name@, self.date, rows_model(self.rows@))
    }
}

/// One upload's metadata with its business date.
#[derive(Clone, Debug)]
pub struct StoredFile {
    pub file: OrderFile,
    pub date: CalendarDate,
}

/// The store of cleaned batches and of the metadata of their uploads.
#[derive(Clone, Debug)]
pub struct OrderManager {
    pub batches: Vec<StoredBatch>,
    pub files: Vec<StoredFile>,
}

pub open spec fn has_key(b: BatchModel, cfg: Seq<char>, src: Seq<char>, d: CalendarDate) -> bool {
    b.0 == cfg && b.1 == src && b.2 == d
}

pub open spec fn in_window(b: BatchModel, cfg: Seq<char>, src: Seq<char>, lo: CalendarDate, hi: CalendarDate) -> bool {
    b.0 == cfg && b.1 == src && date_le(lo, b.2) && date_le(b.2, hi)
}

/// The rows of the batches of `cfg` and `src` dated from `lo` to `hi`
/// inclusive, batch after batch in store order.
pub open spec fn window_rows(bs: Seq<BatchModel>, cfg: Seq<char>, src: Seq<char>, lo: CalendarDate, hi: CalendarDate) -> Seq<RowModel>
    decreases bs.len(),
{
    if bs.len() == 0 {
        Seq::empty()
    } else {
        let p = window_rows(bs.drop_last(), cfg, src, lo, hi);
        if in_window(bs.last(), cfg, src, lo, hi) {
            p + bs.last().3
        } else {
            p
        }
    }
}

/// `r` is `old` without its batch under key (`cfg`, `src`, `d`), if it had one.
pub open spec fn without_key(old: Seq<BatchModel>, r: Seq<BatchModel>, cfg: Seq<char>, src: Seq<char>, d: CalendarDate) -> bool {
    &&& forall|t: int| 0 <= t < r.len() ==> !has_key(#[trigger] r[t], cfg, src, d)
    &&& (r == old || exists|idx: int| 0 <= idx < old.len() && has_key(old[idx], cfg, src, d) && r == old.remove(idx))
}

/// `new` is `old` with batch `nb` stored: any batch under the same key is
/// dropped, and `nb` is placed after every batch dated on or before it.
pub open spec fn put_result(old: Seq<BatchModel>, new: Seq<BatchModel>, nb: BatchModel) -> bool {
    exists|r: Seq<BatchModel>, pos: int| {
        &&& without_key(old, r, nb.0, nb.1, nb.2)
        &&& 0 <= pos <= r.len()
        &&& new == r.insert(pos, nb)
        &&& forall|t: int| 0 <= t < pos ==> date_le(#[trigger] r[t].2, nb.2)
        &&& pos < r.len() ==> !date_le(r[pos].2, nb.2)
    }
}

/// Batches are in ascending date order.
pub open spec fn sorted_by_date(bs: Seq<BatchModel>) -> bool {
    forall|i: int, j: int| 0 <= i < j < bs.len() ==> date_le(#[trigger] bs[i].2, #[trigger] bs[j].2)
}

/// No two batches share a key.
pub open spec fn keys_unique(bs: Seq<BatchModel>) -> bool {
    forall|i: int, j: int| 0 <= i < j < bs.len() ==> !has_key(#[trigger] bs[i], bs[j].0, bs[j].1, (#[trigger] bs[j]).2)
}

impl OrderManager {
    pub open spec fn model(&self) -> Seq<BatchModel> {
        self.batches@.map_values(|b: StoredBatch| b.model())
    }

    pub open spec fn wf(&self) -> bool {
        &&& forall|i: int| 0 <= i < self.batches@.len() ==> (#[trigger] self.batches@[i]).date.valid()
            && all_wf(self.batches@[i].rows@)
        &&& sorted_by_date(self.model())
        &&& keys_unique(self.model())
    }

    /// An empty store.
    pub fn new() -> (r: OrderManager)
        ensures
            r.wf(),
            r.model() == Seq::<BatchModel>::empty(),
            r.files@.len() == 0,
    {
        let r = OrderManager { batches: Vec::new(), files: Vec::new() };
        assert(r.model() =~= Seq::<BatchModel>::empty());
        r
    }

    fn key_position(&self, config_id: &str, source_name: &str, date: CalendarDate) -> (r: usize)
        ensures
            r <= self.batches@.len(),
            r < self.batches@.len() ==> has_key(self.model()[r as int], config_id@, source_name@, date),
            forall|t: int| 0 <= t < r ==> !has_key(#[trigger] self.model()[t], config_id@, source_name@, date),
    {
        let mut i: usize = 0;
        while i < self.batches.len()
            invariant
                i <= self.batches@.len(),
                forall|t: int| 0 <= t < i ==> !has_key(#[trigger] self.model()[t], config_id@, source_name@, date),
            decreases self.batches@.len() - i,
        {
            let b = &self.batches[i];
            assert(self.model()[i as int] == b.model());
            if str_eq(b.config_id.as_str(), config_id) && str_eq(b.source_name.as_str(), source_name)
                && b.date == date {
                return i;
            }
            i = i + 1;
        }
        i
    }

    fn remove_at(&mut self, k: usize)
        requires
            old(self).wf(),
            k < old(self).batches@.len(),
        ensures
            final(self).wf(),
            final(self).files == old(self).files,
            final(self).model() == old(self).model().remove(k as int),
    {
        let ghost m0 = self.model();
        let ghost b0 = self.batches@;
        self.batches.remove(k);
        assert(self.model() =~= m0.remove(k as int));
        let ghost r = self.model();
        assert forall|i: int, j: int| 0 <= i < j < r.len() implies date_le(#[trigger] r[i].2, #[trigger] r[j].2) by {
            let oi = if i < k { i } else { i + 1 };
            let oj = if j < k { j } else { j + 1 };
            assert(r[i] == m0[oi] && r[j] == m0[oj]);
        }
        assert forall|i: int, j: int| 0 <= i < j < r.len() implies !has_key(#[trigger] r[i], r[j].0, r[j].1, (#[trigger] r[j]).2) by {
            let oi = if i < k { i } else { i + 1 };
            let oj = if j < k { j } else { j + 1 };
            assert(r[i] == m0[oi] && r[j] == m0[oj]);
        }
        assert forall|i: int| 0 <= i < self.batches@.len() implies (#[trigger] self.batches@[i]).date.valid()
            && all_wf(self.batches@[i].rows@) by {
            if i < k {
                assert(self.batches@[i] == b0[i]);
            } else {
                assert(self.batches@[i] == b0[i + 1]);
            }
        }
    }

    /// Stores `rows` as the batch of (`config_id`, `source_name`, `date`),
    /// replacing, not merging with, any batch stored under that key.
    pub fn put_batch(&mut self, config_id: &str, source_name: &str, date: CalendarDate, rows: Vec<Row>)
        requires
            old(self).wf(),
            date.valid(),
            all_wf(rows@),
        ensures
            final(self).wf(),
            final(self).files == old(self).files,
            put_result(old(self).model(), final(self).model(), (config_id@, source_name@, date, rows_model(rows@))),
    {
        let ghost m0 = self.model();
        let ghost nb = (config_id@, source_name@, date, rows_model(rows@));
        let k = self.key_position(config_id, source_name, date);
        if k < self.batches.len() {
            self.remove_at(k);
        }
        let ghost r = self.model();
        assert(without_key(m0, r, nb.0, nb.1, nb.2)) by {
            assert forall|t: int| 0 <= t < r.len() implies !has_key(#[trigger] r[t], nb.0, nb.1, nb.2) by {
                if k < m0.len() {
                    if t >= k {
                        assert(r[t] == m0[t + 1]);
                        assert(!has_key(m0[k as int], m0[t + 1].0, m0[t + 1].1, m0[t + 1].2));
                    } else {
                        assert(r[t] == m0[t]);
                    }
                }
            }
        }
        let mut pos: usize = 0;
        while pos < self.batches.len() && date_le_exec(self.batches[pos].date, date)
            invariant
                pos <= self.batches@.len(),
                r == self.model(),
                forall|t: int| 0 <= t < pos ==> date_le(#[trigger] r[t].2, date),
            decreases self.batches@.len() - pos,
        {
            assert(r[pos as int] == self.batches@[pos as int].model());
            pos = pos + 1;
        }
        proof {
            if pos < r.len() {
                assert(r[pos as int] == self.batches@[pos as int].model());
            }
        }
        let ghost old_batches = self.batches@;
        let b = StoredBatch { config_id: config_id.to_owned(), source_name: source_name.to_owned(), date, rows };
        assert(b.model() == nb);
        self.batches.insert(pos, b);
        assert(self.model() =~= r.insert(pos as int, nb));
        let ghost n = self.model();
        assert(sorted_by_date(n)) by {
            assert forall|i: int, j: int| 0 <= i < j < n.len() implies date_le(#[trigger] n[i].2, #[trigger] n[j].2) by {
                if j < pos {
                    assert(n[i] == r[i] && n[j] == r[j]);
                } else if j == pos {
                    assert(n[i] == r[i]);
                } else if i == pos {
                    assert(n[j] == r[j - 1]);
                    assert(!date_le(r[pos as int].2, date));
                    assert(date_le(r[pos as int].2, r[j - 1].2) || j - 1 == pos);
                } else if i < pos {
                    assert(n[i] == r[i] && n[j] == r[j - 1]);
                } else {
                    assert(n[i] == r[i - 1] && n[j] == r[j - 1]);
                }
            }
        }
        assert(keys_unique(n)) by {
            assert forall|i: int, j: int| 0 <= i < j < n.len() implies !has_key(#[trigger] n[i], n[j].0, n[j].1, (#[trigger] n[j]).2) by {
                if j < pos {
                    assert(n[i] == r[i] && n[j] == r[j]);
                } else if j == pos {
                    assert(n[i] == r[i]);
                } else if i == pos {
                    assert(n[j] == r[j - 1]);
                } else if i < pos {
                    assert(n[i] == r[i] && n[j] == r[j - 1]);
                } else {
                    assert(n[i] == r[i - 1] && n[j] == r[j - 1]);
                }
            }
        }
        assert forall|i: int| 0 <= i < self.batches@.len() implies (#[trigger] self.batches@[i]).date.valid()
            && all_wf(self.batches@[i].rows@) by {
            if i < pos {
                assert(self.batches@[i] == old_batches[i]);
            } else if i > pos {
                assert(self.batches@[i] == old_batches[i - 1]);
            }
        }
    }

    /// The rows of the batches of `config_id` and `source_name` dated from
    /// `start` to `end` inclusive, in ascending date order, without any
    /// deduplication across dates.
    pub fn load_window(&self, config_id: &str, source_name: &str, start: CalendarDate, end: CalendarDate) -> (r: Vec<Row>)
        requires
            self.wf(),
        ensures
            all_wf(r@),
            rows_model(r@) == window_rows(self.model(), config_id@, source_name@, start, end),
    {
        let ghost m = self.model();
        let mut out: Vec<Row> = Vec::new();
        let mut i: usize = 0;
        assert(m.subrange(0, 0) =~= Seq::<BatchModel>::empty());
        while i < self.batches.len()
            invariant
                self.wf(),
                m == self.model(),
                i <= self.batches@.len(),
                all_wf(out@),
                rows_model(out@) == window_rows(m.subrange(0, i as int), config_id@, source_name@, start, end),
            decreases self.batches@.len() - i,
        {
            let b = &self.batches[i];
            assert(m[i as int] == b.model());
            let ghost pre = m.subrange(0, i + 1);
            assert(pre.drop_last() =~= m.subrange(0, i as int));
            if str_eq(b.config_id.as_str(), config_id) && str_eq(b.source_name.as_str(), source_name)
                && date_le_exec(start, b.date) && date_le_exec(b.date, end) {
                let ghost before = rows_model(out@);
                let mut j: usize = 0;
                assert(all_wf(b.rows@));
                while j < b.rows.len()
                    invariant
                        j <= b.rows@.len(),
                        all_wf(b.rows@),
                        all_wf(out@),
                        rows_model(out@) == before + rows_model(b.rows@).subrange(0, j as int),
                    decreases b.rows@.len() - j,
                {
                    let ghost prev = rows_model(out@);
                    let d = b.rows[j].duplicate();
                    out.push(d);
                    assert(rows_model(out@) =~= prev.push(b.rows@[j as int]@));
                    assert(rows_model(b.rows@).subrange(0, j + 1) =~= rows_model(b.rows@).subrange(0, j as int).push(b.rows@[j as int]@));
                    j = j + 1;
                    assert(rows_model(out@) =~= before + rows_model(b.rows@).subrange(0, j as int));
                }
                assert(rows_model(b.rows@).subrange(0, j as int) =~= rows_model(b.rows@));
            }
            i = i + 1;
        }
        assert(m.subrange(0, i as int) =~= m);
        out
    }

    /// Stores `records` as the batch of (`config_id`, `source_name`, `date`),
    /// replacing any earlier batch under that key, and records the upload's
    /// metadata, with `upload_date` as its date range.
    pub fn save_order_data_on(
        &mut self,
        config_id: &str,
        config_name: &str,
        source_name: &str,
        file_name: &str,
        upload_date: &str,
        date: CalendarDate,
        records: Vec<Row>,
    ) -> (f: OrderFile)
        requires
            old(self).wf(),
            date.valid(),
            all_wf(records@),
        ensures
            final(self).wf(),
            f.config_id@ == config_id@,
            f.config_name@ == config_name@,
            f.source_name@ == source_name@,
            f.file_name@ == file_name@,
            f.record_count == records@.len(),
            f.date_range matches Some(dr) && dr.start@ == upload_date@ && dr.end@ == upload_date@,
            put_result(old(self).model(), final(self).model(), (config_id@, source_name@, date, rows_model(records@))),
            final(self).files@ == old(self).files@.push(StoredFile { file: f, date }),
    {
        let count = records.len();
        let file = OrderFile {
            file_id: new_file_id(),
            file_name: file_name.to_owned(),
            config_id: config_id.to_owned(),
            config_name: config_name.to_owned(),
            source_name: source_name.to_owned(),
            upload_time: local_now_text(),
            record_count: count,
            date_range: Some(DateRange { start: upload_date.to_owned(), end: upload_date.to_owned() }),
        };
        self.put_batch(config_id, source_name, date, records);
        let f2 = file.duplicate();
        self.files.push(StoredFile { file: f2, date });
        file
    }

    /// Parses `upload_date` and stores `records` under it; see
    /// `save_order_data_on`. A date that does not parse changes nothing.
    pub fn save_order_data(
        &mut self,
        config_id: &str,
        config_name: &str,
        source_name: &str,
        file_name: &str,
        upload_date: &str,
        records: Vec<Row>,
    ) -> (r: Result<OrderFile, String>)
        requires
            old(self).wf(),
            all_wf(records@),
        ensures
            final(self).wf(),
            r is Ok <==> date_of(upload_date@) is Some,
            r is Err ==> final(self).model() == old(self).model() && final(self).files == old(self).files,
            r matches Ok(f) ==> {
                let d = date_of(upload_date@)->0;
                &&& f.config_id@ == config_id@
                &&& f.config_name@ == config_name@
                &&& f.source_name@ == source_name@
                &&& f.file_name@ == file_name@
                &&& f.record_count == records@.len()
                &&& f.date_range matches Some(dr) && dr.start@ == upload_date@ && dr.end@ == upload_date@
                &&& put_result(old(self).model(), final(self).model(), (config_id@, source_name@, d, rows_model(records@)))
                &&& final(self).files@ == old(self).files@.push(StoredFile { file: f, date: d })
            },
            forall|d: CalendarDate| plain_date(d) && #[trigger] iso_date_text(d) == upload_date@ ==> date_of(upload_date@) == Some(d),
    {
        let date = match parse_date(upload_date) {
            Ok(d) => d,
            Err(e) => return Err(e),
        };
        Ok(self.save_order_data_on(config_id, config_name, source_name, file_name, upload_date, date, records))
    }

    /// A copy of the store.
    pub fn duplicate(&self) -> (r: OrderManager)
        requires
            self.wf(),
        ensures
            r.wf(),
            r.model() == self.model(),
            r.files@ == self.files@,
    {
        let mut batches: Vec<StoredBatch> = Vec::new();
        let mut i: usize = 0;
        while i < self.batches.len()
            invariant
                self.wf(),
                i <= self.batches@.len(),
                batches@.len() == i,
                forall|j: int| 0 <= j < i ==> (#[trigger] batches@[j]).model() == self.batches@[j].model()
                    && batches@[j].date == self.batches@[j].date && all_wf(batches@[j].rows@),
            decreases self.batches@.len() - i,
        {
            let b = &self.batches[i];
            assert(all_wf(b.rows@));
            batches.push(StoredBatch {
                config_id: b.config_id.clone(),
                source_name: b.source_name.clone(),
                date: b.date,
                rows: crate::pipeline::duplicate_rows(&b.rows),
            });
            i = i + 1;
        }
        let mut files: Vec<StoredFile> = Vec::new();
        let mut k: usize = 0;
        while k < self.files.len()
            invariant
                k <= self.files@.len(),
                files@ == self.files@.subrange(0, k as int),
            decreases self.files@.len() - k,
        {
            let f = &self.files[k];
            files.push(StoredFile { file: f.file.duplicate(), date: f.date });
            k = k + 1;
            assert(files@ =~= self.files@.subrange(0, k as int));
        }
        assert(self.files@.subrange(0, k as int) =~= self.files@);
        let r = OrderManager { batches, files };
        assert(r.model() =~= self.model());
        r
    }

    /// Parses both dates and loads the window between them; see `load_window`.
    pub fn load_historical_data(&self, config_id: &str, source_name: &str, start_date: &str, end_date: &str) -> (r: Result<Vec<Row>, String>)
        requires
            self.wf(),
        ensures
            r is Ok <==> date_of(start_date@) is Some && date_of(end_date@) is Some,
            r matches Ok(rows) ==> all_wf(rows@) && rows_model(rows@) == window_rows(
                self.model(),
                config_id@,
                source_name@,
                date_of(start_date@)->0,
                date_of(end_date@)->0,
            ),
            forall|lo: CalendarDate, hi: CalendarDate| plain_date(lo) && plain_date(hi) && #[trigger] iso_date_text(lo)
                == start_date@ && #[trigger] iso_date_text(hi) == end_date@ ==> (r matches Ok(rows) && rows_model(rows@)
                == window_rows(self.model(), config_id@, source_name@, lo, hi)),
    {
        let lo = parse_date(start_date)?;
        let hi = parse_date(end_date)?;
        Ok(self.load_window(config_id, source_name, lo, hi))
    }

    /// Removes every batch dated strictly before `before`, and the metadata of
    /// uploads dated before it; returns the number of batches removed.
    pub fn cleanup_before(&mut self, before: CalendarDate) -> (r: usize)
        requires
            old(self).wf(),
        ensures
            final(self).wf(),
            final(self).model() == kept_from(old(self).model(), before),
            final(self).files@ == kept_files(old(self).files@, before),
            r == old(self).model().len() - final(self).model().len(),
    {
        let ghost orig = self.model();
        let ghost orig_files = self.files@;
        let n0 = self.batches.len();
        let mut i: usize = 0;
        let ghost mut consumed: int = 0;
        assert(orig.subrange(0, 0) =~= Seq::<BatchModel>::empty());
        assert(orig.subrange(0, orig.len() as int) =~= orig);
        while i < self.batches.len()
            invariant
                self.wf(),
                n0 == orig.len(),
                self.files@ == orig_files,
                0 <= consumed <= orig.len(),
                i <= self.batches@.len(),
                kept_from(orig.subrange(0, consumed), before).len() == i,
                self.model() == kept_from(orig.subrange(0, consumed), before) + orig.subrange(consumed, orig.len() as int),
            decreases self.batches@.len() - i,
        {
            let ghost kept = kept_from(orig.subrange(0, consumed), before);
            let ghost pre = orig.subrange(0, consumed + 1);
            assert(pre.drop_last() =~= orig.subrange(0, consumed));
            assert(self.model()[i as int] == orig[consumed]);
            assert(self.model()[i as int] == self.batches@[i as int].model());
            if date_le_exec(before, self.batches[i].date) {
                assert(kept_from(pre, before) == kept.push(orig[consumed]));
                assert(self.model() =~= kept_from(pre, before) + orig.subrange(consumed + 1, orig.len() as int));
                i = i + 1;
            } else {
                self.remove_at(i);
                assert(self.model() =~= kept_from(pre, before) + orig.subrange(consumed + 1, orig.len() as int));
            }
            proof {
                consumed = consumed + 1;
            }
        }
        assert(consumed == orig.len()) by {
            assert(self.model().len() == i + orig.len() - consumed);
        }
        assert(orig.subrange(0, consumed) =~= orig);
        assert(self.model() =~= kept_from(orig, before));
        proof {
            lemma_kept_len(orig, before);
        }
        let mut j: usize = 0;
        let ghost mut fc: int = 0;
        assert(orig_files.subrange(0, 0) =~= Seq::<StoredFile>::empty());
        assert(orig_files.subrange(0, orig_files.len() as int) =~= orig_files);
        while j < self.files.len()
            invariant
                self.wf(),
                self.model() == kept_from(orig, before),
                self.batches@.len() <= n0,
                0 <= fc <= orig_files.len(),
                j <= self.files@.len(),
                kept_files(orig_files.subrange(0, fc), before).len() == j,
                self.files@ == kept_files(orig_files.subrange(0, fc), before) + orig_files.subrange(fc, orig_files.len() as int),
            decreases self.files@.len() - j,
        {
            let ghost pre = orig_files.subrange(0, fc + 1);
            assert(pre.drop_last() =~= orig_files.subrange(0, fc));
            assert(self.files@[j as int] == orig_files[fc]);
            if date_le_exec(before, self.files[j].date) {
                assert(self.files@ =~= kept_files(pre, before) + orig_files.subrange(fc + 1, orig_files.len() as int));
                j = j + 1;
            } else {
                self.files.remove(j);
                assert(self.files@ =~= kept_files(pre, before) + orig_files.subrange(fc + 1, orig_files.len() as int));
            }
            proof {
                fc = fc + 1;
            }
        }
        assert(fc == orig_files.len()) by {
            assert(self.files@.len() == j + orig_files.len() - fc);
        }
        assert(orig_files.subrange(0, fc) =~= orig_files);
        assert(self.files@ =~= kept_files(orig_files, before));
        proof {
            lemma_kept_len(orig, before);
        }
        n0 - self.batches.len()
    }

    /// Parses `before_date` and removes what is dated before it; see
    /// `cleanup_before`. A malformed date changes nothing.
    pub fn cleanup_orders_before_date(&mut self, before_date: &str) -> (r: Result<usize, String>)
        requires
            old(self).wf(),
        ensures
            final(self).wf(),
            r is Ok <==> date_of(before_date@) is Some,
            r is Err ==> final(self).model() == old(self).model() && final(self).files == old(self).files,
            r matches Ok(n) ==> {
                let d = date_of(before_date@)->0;
                &&& final(self).model() == kept_from(old(self).model(), d)
                &&& final(self).files@ == kept_files(old(self).files@, d)
                &&& n == old(self).model().len() - final(self).model().len()
            },
            forall|d: CalendarDate| date_shaped(d) && !d.valid() && #[trigger] iso_date_text(d) == before_date@ ==> r is Err,
            r is Ok ==> before_date@.contains('-'),
            forall|d: CalendarDate| plain_date(d) && #[trigger] iso_date_text(d) == before_date@ ==> (r is Ok
                && final(self).model() == kept_from(old(self).model(), d) && final(self).files@ == kept_files(old(self).files@, d)),
    {
        let d = parse_date(before_date)?;
        Ok(self.cleanup_before(d))
    }

    /// Removes the upload with id `file_id`: its metadata and the batch stored
    /// under its configuration, source and business date. An unknown id changes
    /// nothing.
    pub fn delete_order_file(&mut self, file_id: &str)
        requires
            old(self).wf(),
        ensures
            final(self).wf(),
            (forall|i: int| 0 <= i < old(self).files@.len() ==> (#[trigger] old(self).files@[i]).file.file_id@ != file_id@)
                ==> final(self).model() == old(self).model() && final(self).files == old(self).files,
            forall|i: int| 0 <= i < old(self).files@.len() && (#[trigger] old(self).files@[i]).file.file_id@ == file_id@
                && (forall|j: int| 0 <= j < i ==> (#[trigger] old(self).files@[j]).file.file_id@ != file_id@) ==> {
                    let f = old(self).files@[i];
                    &&& final(self).files@ == old(self).files@.remove(i)
                    &&& without_key(old(self).model(), final(self).model(), f.file.config_id@, f.file.source_name@, f.date)
                },
    {
        let mut i: usize = 0;
        while i < self.files.len() && !str_eq(self.files[i].file.file_id.as_str(), file_id)
            invariant
                i <= self.files@.len(),
                forall|j: int| 0 <= j < i ==> (#[trigger] self.files@[j]).file.file_id@ != file_id@,
            decreases self.files@.len() - i,
        {
            i = i + 1;
        }
        if i == self.files.len() {
            return;
        }
        let ghost m0 = self.model();
        let date = self.files[i].date;
        let cfg = self.files[i].file.config_id.clone();
        let src = self.files[i].file.source_name.clone();
        let k = self.key_position(cfg.as_str(), src.as_str(), date);
        if k < self.batches.len() {
            self.remove_at(k);
            proof {
                let r = self.model();
                assert forall|t: int| 0 <= t < r.len() implies !has_key(#[trigger] r[t], cfg@, src@, date) by {
                    if t >= k {
                        assert(r[t] == m0[t + 1]);
                        assert(!has_key(m0[k as int], m0[t + 1].0, m0[t + 1].1, m0[t + 1].2));
                    } else {
                        assert(r[t] == m0[t]);
                    }
                }
            }
        }
        self.files.remove(i);
    }

    /// Removes every batch and all upload metadata; returns how many uploads
    /// were recorded.
    pub fn clear_all_orders(&mut self) -> (r: usize)
        ensures
            final(self).wf(),
            final(self).model().len() == 0,
            final(self).files@.len() == 0,
            r == old(self).files@.len(),
    {
        let n = self.files.len();
        self.batches = Vec::new();
        self.files = Vec::new();
        assert(self.model() =~= Seq::<BatchModel>::empty());
        n
    }

    /// The metadata of every upload, newest first.
    pub fn list_order_files(&self) -> (r: Vec<OrderFile>)
        ensures
            r@.len() == self.files@.len(),
            forall|i: int| 0 <= i < r@.len() ==> #[trigger] r@[i] == self.files@[self.files@.len() - 1 - i].file,
    {
        let mut out: Vec<OrderFile> = Vec::new();
        let mut i: usize = self.files.len();
        while i > 0
            invariant
                i <= self.files@.len(),
                out@.len() == self.files@.len() - i,
                forall|j: int| 0 <= j < out@.len() ==> #[trigger] out@[j] == self.files@[self.files@.len() - 1 - j].file,
            decreases i,
        {
            i = i - 1;
            out.push(self.files[i].file.duplicate());
        }
        out
    }

    /// The metadata of the uploads of configuration `config_id`, newest first.
    pub fn get_files_by_config(&self, config_id: &str) -> (r: Vec<OrderFile>)
        ensures
            r@ == files_of_config(self.files@, config_id@),
    {
        let mut out: Vec<OrderFile> = Vec::new();
        let mut i: usize = self.files.len();
        assert(self.files@.subrange(i as int, self.files@.len() as int) =~= Seq::<StoredFile>::empty());
        while i > 0
            invariant
                i <= self.files@.len(),
                out@ == files_of_config(self.files@.subrange(i as int, self.files@.len() as int), config_id@),
            decreases i,
        {
            i = i - 1;
            let ghost s = self.files@.subrange(i as int, self.files@.len() as int);
            assert(s[0] == self.files@[i as int]);
            assert(s.subrange(1, s.len() as int) =~= self.files@.subrange(i + 1, self.files@.len() as int));
            if str_eq(self.files[i].file.config_id.as_str(), config_id) {
                out.push(self.files[i].file.duplicate());
            }
        }
        assert(self.files@.subrange(0, self.files@.len() as int) =~= self.files@);
        out
    }
}

impl OrderFile {
    /// A copy of this metadata record.
    pub fn duplicate(&self) -> (r: OrderFile)
        ensures
            r == *self,
    {
        OrderFile {
            file_id: self.file_id.clone(),
            file_name: self.file_name.clone(),
            config_id: self.config_id.clone(),
            config_name: self.config_name.clone(),
            source_name: self.source_name.clone(),
            upload_time: self.upload_time.clone(),
            record_count: self.record_count,
            date_range: match &self.date_range {
                Some(d) => Some(DateRange { start: d.start.clone(), end: d.end.clone() }),
                None => None,
            },
        }
    }
}

/// The batches of `bs` dated on or after `cutoff`, in order.
pub open spec fn kept_from(bs: Seq<BatchModel>, cutoff: CalendarDate) -> Seq<BatchModel>
    decreases bs.len(),
{
    if bs.len() == 0 {
        Seq::empty()
    } else {
        let p = kept_from(bs.drop_last(), cutoff);
        if date_le(cutoff, bs.last().2) {
            p.push(bs.last())
        } else {
            p
        }
    }
}

/// The uploads of `fs` dated on or after `cutoff`, in order.
pub open spec fn kept_files(fs: Seq<StoredFile>, cutoff: CalendarDate) -> Seq<StoredFile>
    decreases fs.len(),
{
    if fs.len() == 0 {
        Seq::empty()
    } else {
        let p = kept_files(fs.drop_last(), cutoff);
        if date_le(cutoff, fs.last().date) {
            p.push(fs.last())
        } else {
            p
        }
    }
}

/// The metadata of the uploads of `fs` made under configuration `cfg`, last
/// upload first.
pub open spec fn files_of_config(fs: Seq<StoredFile>, cfg: Seq<char>) -> Seq<OrderFile>
    decreases fs.len(),
{
    if fs.len() == 0 {
        Seq::empty()
    } else {
        let rest = files_of_config(fs.subrange(1, fs.len() as int), cfg);
        if fs[0].file.config_id@ == cfg {
            rest.push(fs[0].file)
        } else {
            rest
        }
    }
}

proof fn lemma_kept_len(bs: Seq<BatchModel>, cutoff: CalendarDate)
    ensures
        kept_from(bs, cutoff).len() <= bs.len(),
    decreases bs.len(),
{
    if bs.len() > 0 {
        lemma_kept_len(bs.drop_last(), cutoff);
    }
}

/// Whether `pat` occurs somewhere in `t`.
pub open spec fn contains_text(t: Seq<char>, pat: Seq<char>) -> bool {
    exists|i: int| occurs_at(t, pat, i)
}

/// The text a value offers to text conditions: its text, or nothing.
pub open spec fn text_or_empty(v: Scalar) -> Seq<char> {
    match v {
        Scalar::Str(t) => t,
        _ => Seq::empty(),
    }
}

/// The number a value offers to numeric conditions: only a number has one.
pub open spec fn number_or_none(v: Scalar) -> Option<(int, int)> {
    match v {
        Scalar::Num(n, d) => Some((n, d)),
        _ => None,
    }
}

/// Whether row `r` passes condition `c`. A row without the field fails; an
/// unknown operator passes every row that has the field.
pub open spec fn condition_holds(r: RowModel, c: QueryCondition) -> bool {
    let op = c.operator@;
    let v = field_of(r, c.field@);
    if !has_field(r, c.field@) {
        false
    } else if op == "equals"@ {
        text_or_empty(v) == c.value@
    } else if op == "contains"@ {
        contains_text(text_or_empty(v), c.value@)
    } else if op == "gt"@ {
        match (number_or_none(v), decimal_value(c.value@)) {
            (Some(x), Some(y)) => less_number(y, x),
            _ => false,
        }
    } else if op == "lt"@ {
        match (number_or_none(v), decimal_value(c.value@)) {
            (Some(x), Some(y)) => less_number(x, y),
            _ => false,
        }
    } else if op == "between"@ {
        match (number_or_none(v), decimal_value(c.value@), c.value2) {
            (Some(x), Some(y), Some(t)) => match decimal_value(t@) {
                Some(z) => !less_number(x, y) && !less_number(z, x),
                None => false,
            },
            _ => false,
        }
    } else {
        true
    }
}

/// Whether row `r` passes every condition of `cs`.
pub open spec fn all_conditions_hold(r: RowModel, cs: Seq<QueryCondition>) -> bool {
    forall|k: int| 0 <= k < cs.len() ==> condition_holds(r, #[trigger] cs[k])
}

/// Whether batch `b` is selected by the optional configuration and source filters.
pub open spec fn batch_selected(b: BatchModel, cfg: Option<Seq<char>>, src: Option<Seq<char>>) -> bool {
    (cfg matches Some(c) ==> b.0 == c) && (src matches Some(s) ==> b.1 == s)
}

/// The rows of the selected batches that pass every condition, in store order.
pub open spec fn query_rows(bs: Seq<BatchModel>, cfg: Option<Seq<char>>, src: Option<Seq<char>>, cs: Seq<QueryCondition>) -> Seq<RowModel>
    decreases bs.len(),
{
    if bs.len() == 0 {
        Seq::empty()
    } else {
        let p = query_rows(bs.drop_last(), cfg, src, cs);
        if batch_selected(bs.last(), cfg, src) {
            p + bs.last().3.filter(|r: RowModel| all_conditions_hold(r, cs))
        } else {
            p
        }
    }
}

fn contains_exec(t: &Vec<char>, pat: &Vec<char>) -> (r: bool)
    ensures
        r == contains_text(t@, pat@),
{
    if pat.len() > t.len() {
        return false;
    }
    let n = t.len() - pat.len();
    let mut i: usize = 0;
    loop
        invariant
            pat@.len() <= t@.len(),
            n == t@.len() - pat@.len(),
            i <= n,
            forall|j: int| 0 <= j < i ==> !occurs_at(t@, pat@, j),
        decreases n - i,
    {
        if occurs_at_exec(t, pat, i) {
            return true;
        }
        if i == n {
            return false;
        }
        i = i + 1;
    }
}

fn chars_equal(a: &Vec<char>, b: &Vec<char>) -> (r: bool)
    ensures
        r == (a@ == b@),
{
    if a.len() != b.len() {
        return false;
    }
    let mut k: usize = 0;
    while k < a.len()
        invariant
            a@.len() == b@.len(),
            k <= a@.len(),
            forall|j: int| 0 <= j < k ==> a@[j] == b@[j],
        decreases a@.len() - k,
    {
        if a[k] != b[k] {
            assert(a@[k as int] != b@[k as int]);
            return false;
        }
        k = k + 1;
    }
    assert(a@ =~= b@);
    true
}

fn condition_holds_exec(row: &Row, c: &QueryCondition) -> (r: bool)
    requires
        row.wf(),
    ensures
        r == condition_holds(row@, *c),
{
    if !row.has_column(c.field.as_str()) {
        return false;
    }
    let v = row.get(c.field.as_str());
    let op = c.operator.as_str();
    let text: Vec<char> = match &v {
        Value::Text(t) => chars_of(t.as_str()),
        _ => Vec::new(),
    };
    assert(text@ == text_or_empty(v@));
    let num: Option<Number> = match &v {
        Value::Number(n) => Some(*n),
        _ => None,
    };
    if str_eq(op, "equals") {
        let param = chars_of(c.value.as_str());
        chars_equal(&text, &param)
    } else if str_eq(op, "contains") {
        contains_exec(&text, &chars_of(c.value.as_str()))
    } else if str_eq(op, "gt") {
        match (num, parse_decimal(&chars_of(c.value.as_str()))) {
            (Some(x), Some(y)) => number_less(y, x),
            _ => false,
        }
    } else if str_eq(op, "lt") {
        match (num, parse_decimal(&chars_of(c.value.as_str()))) {
            (Some(x), Some(y)) => number_less(x, y),
            _ => false,
        }
    } else if str_eq(op, "between") {
        match (num, parse_decimal(&chars_of(c.value.as_str())), &c.value2) {
            (Some(x), Some(y), Some(t)) => match parse_decimal(&chars_of(t.as_str())) {
                Some(z) => !number_less(x, y) && !number_less(z, x),
                None => false,
            },
            _ => false,
        }
    } else {
        true
    }
}

impl OrderManager {
    /// The stored rows of the batches selected by the optional configuration
    /// and source filters that pass every condition, in store order, cut to
    /// `limit` rows when one is given.
    pub fn query_orders(
        &self,
        config_id: Option<&str>,
        source_name: Option<&str>,
        conditions: &Vec<QueryCondition>,
        limit: Option<usize>,
    ) -> (r: Vec<Row>)
        requires
            self.wf(),
        ensures
            all_wf(r@),
            ({
                let all = query_rows(
                    self.model(),
                    match config_id { Some(c) => Some(c@), None => None },
                    match source_name { Some(s) => Some(s@), None => None },
                    conditions@,
                );
                rows_model(r@) == match limit {
                    Some(n) => if n < all.len() { all.subrange(0, n as int) } else { all },
                    None => all,
                }
            }),
    {
        let ghost cfg = match config_id { Some(c) => Some(c@), None => None::<Seq<char>> };
        let ghost src = match source_name { Some(s) => Some(s@), None => None::<Seq<char>> };
        let ghost m = self.model();
        let mut out: Vec<Row> = Vec::new();
        let mut i: usize = 0;
        assert(m.subrange(0, 0) =~= Seq::<BatchModel>::empty());
        while i < self.batches.len()
            invariant
                self.wf(),
                m == self.model(),
                i <= self.batches@.len(),
                all_wf(out@),
                cfg == match config_id { Some(c) => Some(c@), None => None::<Seq<char>> },
                src == match source_name { Some(s) => Some(s@), None => None::<Seq<char>> },
                rows_model(out@) == query_rows(m.subrange(0, i as int), cfg, src, conditions@),
            decreases self.batches@.len() - i,
        {
            let b = &self.batches[i];
            assert(m[i as int] == b.model());
            let ghost pre = m.subrange(0, i + 1);
            assert(pre.drop_last() =~= m.subrange(0, i as int));
            let cfg_ok = match config_id {
                Some(c) => str_eq(b.config_id.as_str(), c),
                None => true,
            };
            let src_ok = match source_name {
                Some(s) => str_eq(b.source_name.as_str(), s),
                None => true,
            };
            if cfg_ok && src_ok {
                let ghost before = rows_model(out@);
                let ghost brows = rows_model(b.rows@);
                let mut j: usize = 0;
                assert(all_wf(b.rows@));
                assert(brows.subrange(0, 0).filter(|r: RowModel| all_conditions_hold(r, conditions@)) =~= Seq::<RowModel>::empty());
                assert(before + Seq::<RowModel>::empty() =~= before);
                while j < b.rows.len()
                    invariant
                        j <= b.rows@.len(),
                        brows == rows_model(b.rows@),
                        all_wf(b.rows@),
                        all_wf(out@),
                        rows_model(out@) == before + brows.subrange(0, j as int).filter(|r: RowModel| all_conditions_hold(r, conditions@)),
                    decreases b.rows@.len() - j,
                {
                    let mut ok = true;
                    let mut k: usize = 0;
                    while k < conditions.len()
                        invariant
                            j < b.rows@.len(),
                            all_wf(b.rows@),
                            k <= conditions@.len(),
                            ok == forall|t: int| 0 <= t < k ==> condition_holds(b.rows@[j as int]@, #[trigger] conditions@[t]),
                        decreases conditions@.len() - k,
                    {
                        if !condition_holds_exec(&b.rows[j], &conditions[k]) {
                            ok = false;
                        }
                        k = k + 1;
                    }
                    let ghost sub = brows.subrange(0, j + 1);
                    assert(sub.drop_last() =~= brows.subrange(0, j as int));
                    assert(sub.last() == b.rows@[j as int]@);
                    proof {
                        sub.filter_lemma(|r: RowModel| all_conditions_hold(r, conditions@));
                        reveal(Seq::filter);
                    }
                    if ok {
                        let ghost prev = rows_model(out@);
                        out.push(b.rows[j].duplicate());
                        assert(rows_model(out@) =~= prev.push(b.rows@[j as int]@));
                    }
                    j = j + 1;
                }
                assert(brows.subrange(0, j as int) =~= brows);
            }
            i = i + 1;
        }
        assert(m.subrange(0, i as int) =~= m);
        match limit {
            Some(n) => {
                if n < out.len() {
                    let ghost full = rows_model(out@);
                    out.truncate(n);
                    assert(rows_model(out@) =~= full.subrange(0, n as int));
                }
            },
            None => {},
        }
        out
    }
}

} // verus!
