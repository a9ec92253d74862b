//! Helpers of the run views.

use vstd::prelude::*;
use crate::db::TaskRunRow;
use crate::model::flow::FlowDefinition;
use crate::text::str_eq;

verus! {

/// A task run status after which the task never changes again.
pub open spec fn terminal_task_status(status: Seq<char>) -> bool {
    ||| status == "success"@
    ||| status == "failed"@
    ||| status == "canceled"@
    ||| status == "skipped"@
}

/// Whether a task run in `status` is finished for good.
pub fn is_terminal_task(status: &str) -> (b: bool)
    ensures
        b == terminal_task_status(status@),
{
    str_eq(status, "success") || str_eq(status, "failed") || str_eq(status, "canceled")
        || str_eq(status, "skipped")
}

/// An empty query value means "no filter".
pub fn non_empty(v: Option<String>) -> (r: Option<String>)
    ensures
        match v {
            Some(s) => if s@.len() > 0 { r == Some(s) } else { r is None },
            None => r is None,
        },
{
    match v {
        Some(s) => if s.as_str().is_empty() {
            None
        } else {
            Some(s)
        },
        None => None,
    }
}


/// How many of the task runs are finished for good.
pub open spec fn done_count(rows: Seq<TaskRunRow>) -> nat
    decreases rows.len(),
{
    if rows.len() == 0 {
        0
    } else {
        done_count(rows.drop_last()) + if terminal_task_status(rows.last().status@) { 1nat } else { 0nat }
    }
}

/// The number of a run's task runs in a terminal state, for its summary.
pub fn tasks_done(rows: &Vec<TaskRunRow>) -> (n: u64)
    ensures
        n == done_count(rows@),
{
    let mut n: u64 = 0;
    let mut i: usize = 0;
    while i < rows.len()
        invariant
            i <= rows@.len(),
            n == done_count(rows@.take(i as int)),
            n <= i,
        decreases rows@.len() - i,
    {
        proof {
            assert(rows@.take(i + 1).drop_last() =~= rows@.take(i as int));
            assert(rows@.take(i + 1).last() == rows@[i as int]);
        }
        if is_terminal_task(rows[i].status.as_str()) {
            n = n + 1;
        }
        i = i + 1;
    }
    proof {
        assert(rows@.take(rows@.len() as int) =~= rows@);
    }
    n
}

/// The number of top-level tasks of the definition a run executed, for
/// its summary; 0 when that definition is gone or unreadable.
pub fn tasks_total(def: Option<&FlowDefinition>) -> (n: u64)
    ensures
        n == match def {
            Some(d) => d.tasks@.len() as int,
            None => 0int,
        },
{
    match def {
        Some(d) => d.tasks.len() as u64,
        None => 0,
    }
}


/// The page of a run listing: 1 when not given, and at least 1.
pub open spec fn page_of(page: Option<u32>) -> u32 {
    match page {
        Some(p) => if p < 1 { 1 } else { p },
        None => 1,
    }
}

/// The page size of a run listing: 25 when not given, at most 200.
pub open spec fn per_of(per: Option<u32>) -> u32 {
    match per {
        Some(n) => if n > 200 { 200 } else { n },
        None => 25,
    }
}

/// The page and page size a run listing asks for.
pub fn page_window(page: Option<u32>, per: Option<u32>) -> (r: (u32, u32))
    ensures
        r == (page_of(page), per_of(per)),
{
    let p = match page {
        Some(p) => if p < 1 { 1 } else { p },
        None => 1,
    };
    let n = match per {
        Some(n) => if n > 200 { 200 } else { n },
        None => 25,
    };
    (p, n)
}

/// How many runs come before a page: the pages before it, full.
pub fn page_offset(page: u32, per: u32) -> (o: u64)
    ensures
        page >= 1 ==> o == (page - 1) * per,
        page == 0 ==> o == 0,
{
    let before: u64 = if page >= 1 { (page - 1) as u64 } else { 0 };
    proof {
        assert(before * (per as u64) <= 0xffff_ffffu64 * 0xffff_ffffu64) by (nonlinear_arith)
            requires
                before <= 0xffff_ffffu64,
                per <= 0xffff_ffffu32,
        ;
    }
    before * (per as u64)
}

} // verus!
