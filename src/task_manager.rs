//! The list of recorded reconciliation tasks.

use vstd::prelude::*;
use crate::models::{DateRange, ReconciliationTask};
use crate::text::str_eq;

verus! {

impl DateRange {
    /// A copy of this range.
    pub fn duplicate(&self) -> (r: DateRange)
        ensures
            r == *self,
    {
        DateRange { start: self.start.clone(), end: self.end.clone() }
    }
}

impl ReconciliationTask {
    /// A copy of the record.
    pub fn duplicate(&self) -> (r: ReconciliationTask)
        ensures
            r == *self,
    {
        ReconciliationTask {
            task_id: self.task_id.clone(),
            task_name: self.task_name.clone(),
            config_id: self.config_id.clone(),
            config_name: self.config_name.clone(),
            source_a_name: self.source_a_name.clone(),
            source_b_name: self.source_b_name.clone(),
            task_type: self.task_type.clone(),
            date_range: self.date_range.duplicate(),
            created_at: self.created_at.clone(),
            source_a_file_name: self.source_a_file_name.clone(),
            source_b_file_name: self.source_b_file_name.clone(),
            stats: self.stats,
            used_historical_source_a: self.used_historical_source_a,
            used_historical_source_b: self.used_historical_source_b,
        }
    }
}

/// The tasks of `ts` recorded under configuration `cfg`, in order.
pub open spec fn tasks_of_config(ts: Seq<ReconciliationTask>, cfg: Seq<char>) -> Seq<ReconciliationTask>
    decreases ts.len(),
{
    if ts.len() == 0 {
        Seq::empty()
    } else {
        let p = tasks_of_config(ts.drop_last(), cfg);
        if ts.last().config_id@ == cfg {
            p.push(ts.last())
        } else {
            p
        }
    }
}

/// The tasks of `ts` whose id is not `id`, in order.
pub open spec fn tasks_without(ts: Seq<ReconciliationTask>, id: Seq<char>) -> Seq<ReconciliationTask>
    decreases ts.len(),
{
    if ts.len() == 0 {
        Seq::empty()
    } else {
        let p = tasks_without(ts.drop_last(), id);
        if ts.last().task_id@ != id {
            p.push(ts.last())
        } else {
            p
        }
    }
}

/// Index of the first task of `ts` with id `id`, or `ts.len()`.
pub open spec fn task_index(ts: Seq<ReconciliationTask>, id: Seq<char>) -> int
    decreases ts.len(),
{
    if ts.len() == 0 {
        0
    } else if ts[0].task_id@ == id {
        0
    } else {
        1 + task_index(ts.subrange(1, ts.len() as int), id)
    }
}

/// The recorded tasks.
pub struct TaskManager {
    pub tasks: Vec<ReconciliationTask>,
}

impl TaskManager {
    /// A manager holding `tasks`.
    pub fn new(tasks: Vec<ReconciliationTask>) -> (r: TaskManager)
        ensures
            r.tasks == tasks,
    {
        TaskManager { tasks }
    }

    fn position(&self, task_id: &str) -> (r: usize)
        ensures
            r as int == task_index(self.tasks@, task_id@),
            r <= self.tasks@.len(),
    {
        let mut i: usize = 0;
        assert(self.tasks@.subrange(0, self.tasks@.len() as int) =~= self.tasks@);
        while i < self.tasks.len()
            invariant
                i <= self.tasks@.len(),
                task_index(self.tasks@, task_id@) == i + task_index(
                    self.tasks@.subrange(i as int, self.tasks@.len() as int),
                    task_id@,
                ),
            decreases self.tasks@.len() - i,
        {
            let ghost rest = self.tasks@.subrange(i as int, self.tasks@.len() as int);
            assert(rest[0] == self.tasks@[i as int]);
            assert(rest.subrange(1, rest.len() as int) =~= self.tasks@.subrange(i + 1, self.tasks@.len() as int));
            if str_eq(self.tasks[i].task_id.as_str(), task_id) {
                return i;
            }
            i = i + 1;
        }
        i
    }

    /// Records `task`, replacing the first task with the same id, or appending
    /// it when there is none.
    pub fn save_task(&mut self, task: ReconciliationTask)
        ensures
            ({
                let k = task_index(old(self).tasks@, task.task_id@);
                final(self).tasks@ == if k < old(self).tasks@.len() {
                    old(self).tasks@.update(k, task)
                } else {
                    old(self).tasks@.push(task)
                }
            }),
    {
        let k = self.position(task.task_id.as_str());
        if k < self.tasks.len() {
            self.tasks.set(k, task);
        } else {
            self.tasks.push(task);
        }
    }

    /// Removes every task with id `task_id`.
    pub fn delete_task(&mut self, task_id: &str)
        ensures
            final(self).tasks@ == tasks_without(old(self).tasks@, task_id@),
    {
        let ghost orig = self.tasks@;
        let mut out: Vec<ReconciliationTask> = Vec::new();
        let mut i: usize = 0;
        assert(orig.subrange(0, 0) =~= Seq::<ReconciliationTask>::empty());
        while i < self.tasks.len()
            invariant
                self.tasks@ == orig,
                i <= orig.len(),
                out@ == tasks_without(orig.subrange(0, i as int), task_id@),
            decreases orig.len() - i,
        {
            let ghost pre = orig.subrange(0, i + 1);
            assert(pre.drop_last() =~= orig.subrange(0, i as int));
            if !str_eq(self.tasks[i].task_id.as_str(), task_id) {
                out.push(self.tasks[i].duplicate());
            }
            i = i + 1;
        }
        assert(orig.subrange(0, i as int) =~= orig);
        self.tasks = out;
    }

    /// The tasks recorded under configuration `config_id`, in order.
    pub fn get_tasks_by_config(&self, config_id: &str) -> (r: Vec<ReconciliationTask>)
        ensures
            r@ == tasks_of_config(self.tasks@, config_id@),
    {
        let mut out: Vec<ReconciliationTask> = Vec::new();
        let mut i: usize = 0;
        assert(self.tasks@.subrange(0, 0) =~= Seq::<ReconciliationTask>::empty());
        while i < self.tasks.len()
            invariant
                i <= self.tasks@.len(),
                out@ == tasks_of_config(self.tasks@.subrange(0, i as int), config_id@),
            decreases self.tasks@.len() - i,
        {
            let ghost pre = self.tasks@.subrange(0, i + 1);
            assert(pre.drop_last() =~= self.tasks@.subrange(0, i as int));
            if str_eq(self.tasks[i].config_id.as_str(), config_id) {
                out.push(self.tasks[i].duplicate());
            }
            i = i + 1;
        }
        assert(self.tasks@.subrange(0, i as int) =~= self.tasks@);
        out
    }

    /// The first task with id `task_id`, if any.
    pub fn find_task(&self, task_id: &str) -> (r: Option<ReconciliationTask>)
        ensures
            ({
                let k = task_index(self.tasks@, task_id@);
                r == if k < self.tasks@.len() { Some(self.tasks@[k]) } else { None::<ReconciliationTask> }
            }),
    {
        let k = self.position(task_id);
        if k < self.tasks.len() {
            Some(self.tasks[k].duplicate())
        } else {
            None
        }
    }
}

} // verus!
