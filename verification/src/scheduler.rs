//! Scheduling: which fire times of a cron trigger are due, and which of
//! them a pass of the scheduler launches. Instants are whole seconds since
//! the Unix epoch, UTC.
//!
//! The due occurrences of a schedule are the fire times of its cron in the
//! window `[next_fire_at ..= now]`, found newest first. The newest is a
//! live fire when it came due within [`LIVE_WINDOW_SECS`]; a live fire
//! launches under every catch-up policy. Older ones are backlog: `none`
//! skips it, `latest` fires the newest due occurrence once, `all` fires
//! every due occurrence ascending, the most recent [`CATCHUP_CAP`] of them.
//! A paused flow launches nothing but still moves `next_fire_at` past now.

use vstd::prelude::*;
use crate::model::{Catchup, FlowDefinition, TriggerDef};
use crate::db::ScheduleRow;
use crate::expr::render::{parse_rfc3339, rfc3339_instant};
use crate::model::validate::{contains_name, names};
use crate::json::{key_less, key_lt};
use crate::text::{push_str, str_eq};

verus! {

/// Maximum number of runs a single `catchup: all` firing may launch.
pub const CATCHUP_CAP: usize = 100;

/// How recently (in seconds) an occurrence must have come due to count as
/// a live fire rather than backlog.
pub const LIVE_WINDOW_SECS: i64 = 10;

// ---------------------------------------------------------------------------
// Outside calls: croner and chrono-tz
// ---------------------------------------------------------------------------

/// What `croner` reports for a cron expression under the strict 5-field
/// grammar (no seconds, no years): `None` when it parses, else the text of
/// its error.
pub uninterp spec fn cron_problem(cron: Seq<char>) -> Option<Seq<char>>;

/// Whether `chrono_tz` knows an IANA timezone name.
pub uninterp spec fn known_timezone(name: Seq<char>) -> bool;

/// The fire time `croner` finds searching forward from `from` (whole
/// seconds, UTC) for a cron evaluated in a timezone; `from` itself counts
/// when `inclusive`. `None` when the search gives up.
pub uninterp spec fn next_fire(cron: Seq<char>, timezone: Seq<char>, from: int, inclusive: bool) -> Option<int>;

/// The fire time `croner` finds searching backward from `from`.
pub uninterp spec fn previous_fire(cron: Seq<char>, timezone: Seq<char>, from: int, inclusive: bool) -> Option<int>;

/// Whether `croner` says the instant `at`, seen in the timezone, matches
/// the cron (`false` when it reports an error).
pub uninterp spec fn fire_matches(cron: Seq<char>, timezone: Seq<char>, at: int) -> bool;

/// Parses a cron expression with `croner`'s `CronParser` configured for
/// strict 5-field expressions (seconds and years disallowed); the error's
/// text when it does not parse. Named, not stated.
#[verifier::external_body]
pub(crate) fn cron_error(cron: &str) -> (r: Option<String>)
    ensures
        match r {
            Some(e) => cron_problem(cron@) == Some(e@),
            None => cron_problem(cron@) is None,
        },
{
    croner::parser::CronParser::builder()
        .seconds(croner::parser::Seconds::Disallowed)
        .year(croner::parser::Year::Disallowed)
        .build()
        .parse(cron)
        .err()
        .map(|e| e.to_string())
}

/// Whether `str::parse::<chrono_tz::Tz>` accepts a timezone name. Named,
/// not stated.
#[verifier::external_body]
pub(crate) fn timezone_known(name: &str) -> (b: bool)
    ensures
        b == known_timezone(name@),
{
    name.parse::<chrono_tz::Tz>().is_ok()
}

/// `croner::Cron::find_next_occurrence` on the strictly parsed cron, from
/// the instant `from` seen in the timezone, read back as UTC seconds. The
/// cron and timezone are parsed here from their text; the caller has
/// checked that both parse. Named, not stated.
#[verifier::external_body]
fn find_next(cron: &str, timezone: &str, from: i64, inclusive: bool) -> (r: Option<i64>)
    requires
        cron_problem(cron@) is None,
        known_timezone(timezone@),
    ensures
        r matches Some(t) ==> next_fire(cron@, timezone@, from as int, inclusive) == Some(t as int),
        r is None ==> next_fire(cron@, timezone@, from as int, inclusive) is None,
{
    let cron = croner::parser::CronParser::builder()
        .seconds(croner::parser::Seconds::Disallowed)
        .year(croner::parser::Year::Disallowed)
        .build()
        .parse(cron)
        .ok()?;
    let tz: chrono_tz::Tz = timezone.parse().ok()?;
    let start = chrono::DateTime::from_timestamp(from, 0)?.with_timezone(&tz);
    cron.find_next_occurrence(&start, inclusive).ok().map(|t| t.timestamp())
}

/// `croner::Cron::find_previous_occurrence`, as [`find_next`] does the
/// forward search. Named, not stated.
#[verifier::external_body]
fn find_previous(cron: &str, timezone: &str, from: i64, inclusive: bool) -> (r: Option<i64>)
    requires
        cron_problem(cron@) is None,
        known_timezone(timezone@),
    ensures
        r matches Some(t) ==> previous_fire(cron@, timezone@, from as int, inclusive) == Some(t as int),
        r is None ==> previous_fire(cron@, timezone@, from as int, inclusive) is None,
{
    let cron = croner::parser::CronParser::builder()
        .seconds(croner::parser::Seconds::Disallowed)
        .year(croner::parser::Year::Disallowed)
        .build()
        .parse(cron)
        .ok()?;
    let tz: chrono_tz::Tz = timezone.parse().ok()?;
    let start = chrono::DateTime::from_timestamp(from, 0)?.with_timezone(&tz);
    cron.find_previous_occurrence(&start, inclusive).ok().map(|t| t.timestamp())
}

/// `croner::Cron::is_time_matching` for the instant `at` seen in the
/// timezone; an error, or an instant chrono cannot hold, reads as `false`.
/// Named, not stated.
#[verifier::external_body]
fn time_matches(cron: &str, timezone: &str, at: i64) -> (b: bool)
    requires
        cron_problem(cron@) is None,
        known_timezone(timezone@),
    ensures
        b == fire_matches(cron@, timezone@, at as int),
{
    let Ok(cron) = croner::parser::CronParser::builder()
        .seconds(croner::parser::Seconds::Disallowed)
        .year(croner::parser::Year::Disallowed)
        .build()
        .parse(cron) else { return false };
    let Ok(tz) = timezone.parse::<chrono_tz::Tz>() else { return false };
    let Some(t) = chrono::DateTime::from_timestamp(at, 0) else { return false };
    cron.is_time_matching(&t.with_timezone(&tz)).unwrap_or(false)
}

// ---------------------------------------------------------------------------
// Launching runs and reading the time
// ---------------------------------------------------------------------------

/// Launches queued runs; the engine implements it, so the scheduler does
/// not depend on the engine.
pub trait RunLauncher {
    /// Called after the scheduler inserts a queued run row.
    fn launch(&self, run_id: i64);
}

/// The system wall clock.
#[derive(Debug, Clone, Copy)]
pub struct SystemClock;

impl SystemClock {
    /// The current instant: whole seconds since the Unix epoch (UTC) and
    /// the nanoseconds past them, from `chrono::Utc::now`. Nothing is
    /// promised of it.
    #[verifier::external_body]
    pub fn now_utc(&self) -> (i64, u32) {
        let now = chrono::Utc::now();
        (now.timestamp(), now.timestamp_subsec_nanos())
    }
}

// ---------------------------------------------------------------------------
// Errors
// ---------------------------------------------------------------------------

/// Errors surfaced by scheduler operations.
#[derive(Debug, Clone, PartialEq, Eq)]
pub enum SchedulerError {
    /// Database failure, with its message.
    Db(String),
    /// A trigger's cron expression failed to parse with the strict parser.
    BadCron { flow_id: String, trigger_id: String, message: String },
    /// A trigger's timezone is not a known IANA timezone name.
    BadTimezone { flow_id: String, trigger_id: String, timezone: String },
    /// A flow's stored definition failed to deserialize.
    BadDefinition { flow_id: String, message: String },
    /// No flow with the given id exists.
    UnknownFlow(String),
    /// The flow exists but its definition has no trigger with this id.
    UnknownTrigger { flow_id: String, trigger_id: String },
}

/// A scheduler error with its texts as sequences of characters.
pub enum SchedulerErrorView {
    Db(Seq<char>),
    BadCron { flow_id: Seq<char>, trigger_id: Seq<char>, message: Seq<char> },
    BadTimezone { flow_id: Seq<char>, trigger_id: Seq<char>, timezone: Seq<char> },
    BadDefinition { flow_id: Seq<char>, message: Seq<char> },
    UnknownFlow(Seq<char>),
    UnknownTrigger { flow_id: Seq<char>, trigger_id: Seq<char> },
}

impl View for SchedulerError {
    type V = SchedulerErrorView;

    open spec fn view(&self) -> SchedulerErrorView {
        match self {
            SchedulerError::Db(m) => SchedulerErrorView::Db(m@),
            SchedulerError::BadCron { flow_id, trigger_id, message } =>
                SchedulerErrorView::BadCron { flow_id: flow_id@, trigger_id: trigger_id@, message: message@ },
            SchedulerError::BadTimezone { flow_id, trigger_id, timezone } =>
                SchedulerErrorView::BadTimezone { flow_id: flow_id@, trigger_id: trigger_id@, timezone: timezone@ },
            SchedulerError::BadDefinition { flow_id, message } =>
                SchedulerErrorView::BadDefinition { flow_id: flow_id@, message: message@ },
            SchedulerError::UnknownFlow(id) => SchedulerErrorView::UnknownFlow(id@),
            SchedulerError::UnknownTrigger { flow_id, trigger_id } =>
                SchedulerErrorView::UnknownTrigger { flow_id: flow_id@, trigger_id: trigger_id@ },
        }
    }
}

/// The message of a scheduler error.
pub open spec fn scheduler_error_text(e: SchedulerErrorView) -> Seq<char> {
    match e {
        SchedulerErrorView::Db(m) => "scheduler database error: "@ + m,
        SchedulerErrorView::BadCron { flow_id, trigger_id, message } =>
            "invalid cron for flow `"@ + flow_id + "` trigger `"@ + trigger_id + "`: "@ + message,
        SchedulerErrorView::BadTimezone { flow_id, trigger_id, timezone } =>
            "unknown timezone `"@ + timezone + "` for flow `"@ + flow_id + "` trigger `"@ + trigger_id + "`"@,
        SchedulerErrorView::BadDefinition { flow_id, message } =>
            "invalid definition for flow `"@ + flow_id + "`: "@ + message,
        SchedulerErrorView::UnknownFlow(id) => "unknown flow `"@ + id + "`"@,
        SchedulerErrorView::UnknownTrigger { flow_id, trigger_id } =>
            "flow `"@ + flow_id + "` has no trigger `"@ + trigger_id + "`"@,
    }
}

impl SchedulerError {
    /// The error's message.
    pub fn to_string(&self) -> (s: String)
        ensures
            s@ == scheduler_error_text(self@),
    {
        let mut s = String::new();
        match self {
            SchedulerError::Db(m) => {
                push_str(&mut s, "scheduler database error: ");
                push_str(&mut s, m.as_str());
            },
            SchedulerError::BadCron { flow_id, trigger_id, message } => {
                push_str(&mut s, "invalid cron for flow `");
                push_str(&mut s, flow_id.as_str());
                push_str(&mut s, "` trigger `");
                push_str(&mut s, trigger_id.as_str());
                push_str(&mut s, "`: ");
                push_str(&mut s, message.as_str());
            },
            SchedulerError::BadTimezone { flow_id, trigger_id, timezone } => {
                push_str(&mut s, "unknown timezone `");
                push_str(&mut s, timezone.as_str());
                push_str(&mut s, "` for flow `");
                push_str(&mut s, flow_id.as_str());
                push_str(&mut s, "` trigger `");
                push_str(&mut s, trigger_id.as_str());
                push_str(&mut s, "`");
            },
            SchedulerError::BadDefinition { flow_id, message } => {
                push_str(&mut s, "invalid definition for flow `");
                push_str(&mut s, flow_id.as_str());
                push_str(&mut s, "`: ");
                push_str(&mut s, message.as_str());
            },
            SchedulerError::UnknownFlow(id) => {
                push_str(&mut s, "unknown flow `");
                push_str(&mut s, id.as_str());
                push_str(&mut s, "`");
            },
            SchedulerError::UnknownTrigger { flow_id, trigger_id } => {
                push_str(&mut s, "flow `");
                push_str(&mut s, flow_id.as_str());
                push_str(&mut s, "` has no trigger `");
                push_str(&mut s, trigger_id.as_str());
                push_str(&mut s, "`");
            },
        }
        s
    }
}

// ---------------------------------------------------------------------------
// A trigger's cron and timezone
// ---------------------------------------------------------------------------

/// A trigger's cron expression and timezone, both known to parse.
#[derive(Debug, Clone)]
pub struct CronSpec {
    pub cron: String,
    pub timezone: String,
}

impl CronSpec {
    /// Both the cron and the timezone parse.
    pub open spec fn wf(&self) -> bool {
        cron_problem(self.cron@) is None && known_timezone(self.timezone@)
    }

    /// The next fire time from `from` (itself included when `inclusive`).
    pub fn next_after(&self, from: i64, inclusive: bool) -> (r: Option<i64>)
        requires
            self.wf(),
        ensures
            r matches Some(t) ==> next_fire(self.cron@, self.timezone@, from as int, inclusive) == Some(t as int),
            r is None ==> next_fire(self.cron@, self.timezone@, from as int, inclusive) is None,
    {
        find_next(self.cron.as_str(), self.timezone.as_str(), from, inclusive)
    }

    /// The previous fire time from `from` (itself included when `inclusive`).
    pub fn previous_before(&self, from: i64, inclusive: bool) -> (r: Option<i64>)
        requires
            self.wf(),
        ensures
            r matches Some(t) ==> previous_fire(self.cron@, self.timezone@, from as int, inclusive) == Some(t as int),
            r is None ==> previous_fire(self.cron@, self.timezone@, from as int, inclusive) is None,
    {
        find_previous(self.cron.as_str(), self.timezone.as_str(), from, inclusive)
    }

    /// Whether `at` is a fire time.
    pub fn matches(&self, at: i64) -> (b: bool)
        requires
            self.wf(),
        ensures
            b == fire_matches(self.cron@, self.timezone@, at as int),
    {
        time_matches(self.cron.as_str(), self.timezone.as_str(), at)
    }
}

/// What parsing a trigger's cron and timezone gives: the first of the two
/// that fails, as the scheduler reports it.
pub open spec fn trigger_problem(flow_id: Seq<char>, trigger: TriggerDef) -> Option<SchedulerErrorView> {
    match cron_problem(trigger.cron@) {
        Some(m) => Some(SchedulerErrorView::BadCron { flow_id, trigger_id: trigger.id@, message: m }),
        None => if known_timezone(trigger.timezone@) {
            None
        } else {
            Some(SchedulerErrorView::BadTimezone { flow_id, trigger_id: trigger.id@, timezone: trigger.timezone@ })
        },
    }
}

/// Parses a trigger's cron and timezone, with scheduler-flavoured errors.
pub fn parse_trigger(flow_id: &str, trigger: &TriggerDef) -> (r: Result<CronSpec, SchedulerError>)
    ensures
        match r {
            Ok(c) => trigger_problem(flow_id@, *trigger) is None && c.wf()
                && c.cron@ == trigger.cron@ && c.timezone@ == trigger.timezone@,
            Err(e) => trigger_problem(flow_id@, *trigger) == Some(e@),
        },
{
    if let Some(message) = cron_error(trigger.cron.as_str()) {
        return Err(SchedulerError::BadCron {
            flow_id: flow_id.to_string(),
            trigger_id: trigger.id.clone(),
            message,
        });
    }
    if !timezone_known(trigger.timezone.as_str()) {
        return Err(SchedulerError::BadTimezone {
            flow_id: flow_id.to_string(),
            trigger_id: trigger.id.clone(),
            timezone: trigger.timezone.clone(),
        });
    }
    Ok(CronSpec { cron: trigger.cron.clone(), timezone: trigger.timezone.clone() })
}

// ---------------------------------------------------------------------------
// Due occurrences and the catch-up policy
// ---------------------------------------------------------------------------

/// The fire times at or after `due`, searching backward from `cursor`
/// (itself included when `inclusive`), newest first, at most `limit` of
/// them; the search stops at the first fire time before `due` or when
/// croner gives up.
pub open spec fn due_from(cron: Seq<char>, timezone: Seq<char>, due: int, cursor: int, inclusive: bool, limit: nat) -> Seq<int>
    decreases limit,
{
    if limit == 0 {
        seq![]
    } else {
        match previous_fire(cron, timezone, cursor, inclusive) {
            None => seq![],
            Some(o) => if o < due {
                seq![]
            } else {
                seq![o] + due_from(cron, timezone, due, o, false, (limit - 1) as nat)
            },
        }
    }
}

/// The due occurrences of a schedule in `[due ..= now]`, newest first, at
/// most `limit` of them.
pub open spec fn due_occurrences(cron: Seq<char>, timezone: Seq<char>, due: int, now: int, limit: nat) -> Seq<int> {
    due_from(cron, timezone, due, now, true, limit)
}

/// A sequence of instants as integers.
pub open spec fn instants(v: Seq<i64>) -> Seq<int> {
    v.map_values(|x: i64| x as int)
}

/// Whether an occurrence came due within the live window before `now`.
pub open spec fn is_live(occurrence: int, now: int) -> bool {
    now - occurrence <= LIVE_WINDOW_SECS
}

/// The scheduled instants one firing launches, ascending.
pub open spec fn planned_launches(cron: Seq<char>, timezone: Seq<char>, catchup: Catchup, due: int, now: int) -> Seq<int> {
    match catchup {
        Catchup::Skip => {
            let newest = due_occurrences(cron, timezone, due, now, 1);
            if newest.len() > 0 && is_live(newest[0], now) { seq![newest[0]] } else { seq![] }
        },
        Catchup::Latest => {
            let newest = due_occurrences(cron, timezone, due, now, 1);
            if newest.len() > 0 { seq![newest[0]] } else { seq![] }
        },
        Catchup::All => {
            let all = due_occurrences(cron, timezone, due, now, (CATCHUP_CAP + 1) as nat);
            all.take(if all.len() > CATCHUP_CAP { CATCHUP_CAP as int } else { all.len() as int }).reverse()
        },
    }
}

/// The due occurrences in `[due ..= now]`, newest first, at most `limit`.
fn due_desc(c: &CronSpec, due: i64, now: i64, limit: usize) -> (r: Vec<i64>)
    requires
        c.wf(),
    ensures
        instants(r@) == due_occurrences(c.cron@, c.timezone@, due as int, now as int, limit as nat),
{
    let mut found: Vec<i64> = Vec::new();
    let mut cursor: i64 = now;
    let mut inclusive = true;
    let mut done = false;
    while !done && found.len() < limit
        invariant
            c.wf(),
            found.len() <= limit,
            instants(found@) + (if done { seq![] } else {
                due_from(c.cron@, c.timezone@, due as int, cursor as int, inclusive, (limit - found.len()) as nat)
            }) == due_occurrences(c.cron@, c.timezone@, due as int, now as int, limit as nat),
        decreases limit - found.len(), (if done { 0int } else { 1int }),
    {
        let ghost before = found@;
        let ghost rest = due_from(c.cron@, c.timezone@, due as int, cursor as int, inclusive, (limit - found.len()) as nat);
        match c.previous_before(cursor, inclusive) {
            None => {
                done = true;
            },
            Some(occ) => {
                if occ < due {
                    done = true;
                } else {
                    found.push(occ);
                    proof {
                        assert(instants(found@) == instants(before).push(occ as int));
                        assert(rest == seq![occ as int] + due_from(c.cron@, c.timezone@, due as int, occ as int, false, (limit - found.len()) as nat));
                        assert(instants(found@) + due_from(c.cron@, c.timezone@, due as int, occ as int, false, (limit - found.len()) as nat)
                            =~= instants(before) + rest);
                    }
                    cursor = occ;
                    inclusive = false;
                }
            },
        }
    }
    proof {
        if !done {
            assert(found.len() == limit);
        }
        assert(instants(found@) + seq![] =~= instants(found@));
    }
    found
}

/// Whether an occurrence came due within the live window before `now`.
fn live(occurrence: i64, now: i64) -> (b: bool)
    ensures
        b == is_live(occurrence as int, now as int),
{
    (now as i128) - (occurrence as i128) <= LIVE_WINDOW_SECS as i128
}

/// The scheduled instants one firing of a trigger launches, ascending.
pub fn launches(c: &CronSpec, catchup: Catchup, due: i64, now: i64) -> (r: Vec<i64>)
    requires
        c.wf(),
    ensures
        instants(r@) == planned_launches(c.cron@, c.timezone@, catchup, due as int, now as int),
{
    match catchup {
        Catchup::Skip => {
            let newest = due_desc(c, due, now, 1);
            let mut r: Vec<i64> = Vec::new();
            if newest.len() > 0 && live(newest[0], now) {
                r.push(newest[0]);
            }
            proof {
                if newest.len() > 0 { assert(instants(newest@)[0] == newest@[0] as int); }
                assert(instants(r@) =~= planned_launches(c.cron@, c.timezone@, catchup, due as int, now as int));
            }
            r
        },
        Catchup::Latest => {
            let newest = due_desc(c, due, now, 1);
            let mut r: Vec<i64> = Vec::new();
            if newest.len() > 0 {
                r.push(newest[0]);
            }
            proof {
                if newest.len() > 0 { assert(instants(newest@)[0] == newest@[0] as int); }
                assert(instants(r@) =~= planned_launches(c.cron@, c.timezone@, catchup, due as int, now as int));
            }
            r
        },
        Catchup::All => {
            let all = due_desc(c, due, now, CATCHUP_CAP + 1);
            let n: usize = if all.len() > CATCHUP_CAP { CATCHUP_CAP } else { all.len() };
            let mut r: Vec<i64> = Vec::new();
            let mut i: usize = n;
            while i > 0
                invariant
                    i <= n <= all.len(),
                    r.len() == n - i,
                    forall|k: int| 0 <= k < r.len() ==> r@[k] == all@[n - 1 - k],
                decreases i,
            {
                i = i - 1;
                r.push(all[i]);
            }
            proof {
                let want = planned_launches(c.cron@, c.timezone@, catchup, due as int, now as int);
                let occ = due_occurrences(c.cron@, c.timezone@, due as int, now as int, (CATCHUP_CAP + 1) as nat);
                assert(instants(all@) == occ);
                assert(want == occ.take(n as int).reverse());
                assert forall|k: int| 0 <= k < r.len() implies instants(r@)[k] == want[k] by {
                    assert(instants(all@)[n - 1 - k] == all@[n - 1 - k] as int);
                }
                assert(instants(r@) =~= want);
            }
            r
        },
    }
}

// ---------------------------------------------------------------------------
// Firing one due schedule
// ---------------------------------------------------------------------------

/// An optional instant read as an optional integer.
pub open spec fn instant_opt(t: Option<i64>) -> Option<int> {
    match t {
        Some(x) => Some(x as int),
        None => None,
    }
}

/// The position of the first trigger with the given id.
pub open spec fn first_trigger(ts: Seq<TriggerDef>, id: Seq<char>) -> Option<int> {
    if exists|i: int| 0 <= i < ts.len() && #[trigger] ts[i].id@ == id {
        Some(choose|i: int| 0 <= i < ts.len() && #[trigger] ts[i].id@ == id
            && forall|j: int| 0 <= j < i ==> ts[j].id@ != id)
    } else {
        None
    }
}

/// Finds the first trigger with the given id.
pub fn find_trigger(ts: &Vec<TriggerDef>, id: &str) -> (r: Option<usize>)
    ensures
        instant_index(r) == first_trigger(ts@, id@),
        r matches Some(i) ==> i < ts.len() && ts@[i as int].id@ == id@,
{
    let mut i: usize = 0;
    while i < ts.len()
        invariant
            i <= ts.len(),
            forall|j: int| 0 <= j < i ==> ts@[j].id@ != id@,
        decreases ts.len() - i,
    {
        if str_eq(ts[i].id.as_str(), id) {
            proof {
                let k = choose|k: int| 0 <= k < ts@.len() && #[trigger] ts@[k].id@ == id@
                    && forall|j: int| 0 <= j < k ==> ts@[j].id@ != id@;
                assert(0 <= k < ts@.len() && ts@[k].id@ == id@ && forall|j: int| 0 <= j < k ==> ts@[j].id@ != id@);
                if k < i {
                    assert(ts@[k].id@ != id@);
                }
                if i < k {
                    assert(ts@[i as int].id@ != id@);
                }
            }
            return Some(i);
        }
        i = i + 1;
    }
    None
}

/// An optional index read as an optional integer.
pub open spec fn instant_index(i: Option<usize>) -> Option<int> {
    match i {
        Some(x) => Some(x as int),
        None => None,
    }
}

/// What one pass of the scheduler does with a due schedule row.
#[derive(Debug)]
pub enum FirePlan {
    /// The trigger is gone from the definition: reconcile the flow and fire
    /// nothing.
    Stale,
    /// The flow is paused: move `next_fire_at` to `next` without firing and
    /// leave `last_fired_at` alone.
    Advance { next: Option<i64> },
    /// Launch one run per instant of `launch` (ascending), then record the
    /// firing at now with `next_fire_at` set to `next`.
    Fire { launch: Vec<i64>, next: Option<i64> },
}

/// Decides what firing the schedule row of `trigger_id` does, given the
/// flow's definition, whether the flow is paused, the row's `next_fire_at`
/// (`due`) and now, in whole seconds.
pub fn plan_fire(
    flow_id: &str,
    def: &FlowDefinition,
    trigger_id: &str,
    paused: bool,
    due: i64,
    now: i64,
) -> (r: Result<FirePlan, SchedulerError>)
    ensures
        match first_trigger(def.triggers@, trigger_id@) {
            None => r matches Ok(FirePlan::Stale),
            Some(i) => {
                let t = def.triggers@[i];
                match trigger_problem(flow_id@, t) {
                    Some(e) => r matches Err(x) && x@ == e,
                    None => {
                        let next = next_fire(t.cron@, t.timezone@, now as int, false);
                        match r {
                            Ok(FirePlan::Advance { next: n }) => paused && instant_opt(n) == next,
                            Ok(FirePlan::Fire { launch, next: n }) => !paused && instant_opt(n) == next
                                && instants(launch@) == planned_launches(t.cron@, t.timezone@, t.catchup, due as int, now as int),
                            _ => false,
                        }
                    },
                }
            },
        },
{
    let Some(i) = find_trigger(&def.triggers, trigger_id) else {
        return Ok(FirePlan::Stale);
    };
    let trigger = &def.triggers[i];
    let c = match parse_trigger(flow_id, trigger) {
        Ok(c) => c,
        Err(e) => return Err(e),
    };
    let next = c.next_after(now, false);
    if paused {
        return Ok(FirePlan::Advance { next });
    }
    let launch = launches(&c, trigger.catchup, due, now);
    Ok(FirePlan::Fire { launch, next })
}

// ---------------------------------------------------------------------------
// Which schedule rows are due
// ---------------------------------------------------------------------------

/// When a schedule row is due at the instant `(now_secs, now_nanos)`: it is
/// enabled, its `next_fire_at` parses and is not after now. The result is
/// the whole second of `next_fire_at`.
pub open spec fn row_due(row: ScheduleRow, now_secs: int, now_nanos: int) -> Option<int> {
    if !row.enabled {
        None
    } else {
        match row.next_fire_at {
            None => None,
            Some(text) => match rfc3339_instant(text@) {
                Err(_) => None,
                Ok((secs, nanos)) => if secs > now_secs || (secs == now_secs && nanos > now_nanos) {
                    None
                } else {
                    Some(secs)
                },
            },
        }
    }
}

/// The due rows, in order, each with its position and due second.
pub open spec fn due_list(rows: Seq<ScheduleRow>, now_secs: int, now_nanos: int) -> Seq<(int, int)>
    decreases rows.len(),
{
    if rows.len() == 0 {
        seq![]
    } else {
        let before = due_list(rows.drop_last(), now_secs, now_nanos);
        match row_due(rows.last(), now_secs, now_nanos) {
            Some(d) => before.push((rows.len() - 1, d)),
            None => before,
        }
    }
}

/// A sequence of positions and instants as integer pairs.
pub open spec fn due_pairs(v: Seq<(usize, i64)>) -> Seq<(int, int)> {
    v.map_values(|p: (usize, i64)| (p.0 as int, p.1 as int))
}

/// The schedule rows one scheduler pass fires at now, in order, each with
/// its position in `rows` and its due instant in whole seconds.
pub fn due_rows(rows: &Vec<ScheduleRow>, now_secs: i64, now_nanos: u32) -> (r: Vec<(usize, i64)>)
    ensures
        due_pairs(r@) == due_list(rows@, now_secs as int, now_nanos as int),
{
    let mut r: Vec<(usize, i64)> = Vec::new();
    let mut i: usize = 0;
    while i < rows.len()
        invariant
            i <= rows.len(),
            due_pairs(r@) == due_list(rows@.take(i as int), now_secs as int, now_nanos as int),
        decreases rows.len() - i,
    {
        let row = &rows[i];
        proof {
            assert(rows@.take(i + 1).drop_last() =~= rows@.take(i as int));
            assert(rows@.take(i + 1).last() == rows@[i as int]);
        }
        if row.enabled {
            if let Some(text) = &row.next_fire_at {
                if let Ok((secs, nanos)) = parse_rfc3339(text.as_str()) {
                    if !(secs > now_secs || (secs == now_secs && nanos > now_nanos)) {
                        let ghost before = r@;
                        r.push((i, secs));
                        proof {
                            assert(due_pairs(r@) =~= due_pairs(before).push((i as int, secs as int)));
                        }
                    }
                }
            }
        }
        i = i + 1;
    }
    proof {
        assert(rows@.take(rows.len() as int) =~= rows@);
    }
    r
}

/// The schedule rows due at the clock's current instant, in order, each
/// with its position and due second.
pub fn due_now(rows: &Vec<ScheduleRow>, clock: &SystemClock) -> (r: (Vec<(usize, i64)>, i64))
    ensures
        exists|secs: int, nanos: int| #[trigger] due_list(rows@, secs, nanos) == due_pairs(r.0@) && secs == r.1,
{
    let (secs, nanos) = clock.now_utc();
    let due = due_rows(rows, secs, nanos);
    assert(due_list(rows@, secs as int, nanos as int) == due_pairs(due@));
    (due, secs)
}

// ---------------------------------------------------------------------------
// Reconciling schedule rows with a definition
// ---------------------------------------------------------------------------

/// A trigger of the definition with its parsed cron and the next fire time
/// strictly after now.
#[derive(Debug, Clone)]
pub struct ReconcileTarget {
    pub trigger_id: String,
    pub spec: CronSpec,
    pub next: Option<i64>,
}

/// The targets match the definition's triggers one for one, each with its
/// next fire time after `now`.
pub open spec fn targets_match(ts: Seq<TriggerDef>, targets: Seq<ReconcileTarget>, now: int) -> bool {
    &&& targets.len() == ts.len()
    &&& forall|i: int| 0 <= i < ts.len() ==> {
        let t = #[trigger] targets[i];
        &&& t.trigger_id@ == ts[i].id@
        &&& t.spec.cron@ == ts[i].cron@
        &&& t.spec.timezone@ == ts[i].timezone@
        &&& t.spec.wf()
        &&& instant_opt(t.next) == next_fire(ts[i].cron@, ts[i].timezone@, now, false)
    }
}

/// Parses every trigger of a definition and finds its next fire time
/// strictly after now; the first trigger that does not parse is the error.
pub fn reconcile_targets(flow_id: &str, def: &FlowDefinition, now: i64) -> (r: Result<Vec<ReconcileTarget>, SchedulerError>)
    ensures
        match r {
            Ok(v) => targets_match(def.triggers@, v@, now as int)
                && forall|i: int| 0 <= i < def.triggers@.len() ==> trigger_problem(flow_id@, #[trigger] def.triggers@[i]) is None,
            Err(e) => exists|i: int| 0 <= i < def.triggers@.len()
                && trigger_problem(flow_id@, #[trigger] def.triggers@[i]) == Some(e@)
                && forall|j: int| 0 <= j < i ==> trigger_problem(flow_id@, def.triggers@[j]) is None,
        },
{
    let mut v: Vec<ReconcileTarget> = Vec::new();
    let mut i: usize = 0;
    while i < def.triggers.len()
        invariant
            i <= def.triggers@.len(),
            targets_match(def.triggers@.take(i as int), v@, now as int),
            forall|j: int| 0 <= j < i ==> trigger_problem(flow_id@, #[trigger] def.triggers@[j]) is None,
        decreases def.triggers@.len() - i,
    {
        let t = &def.triggers[i];
        let spec = match parse_trigger(flow_id, t) {
            Ok(c) => c,
            Err(e) => {
                assert(def.triggers@[i as int] == *t);
                return Err(e);
            },
        };
        let next = spec.next_after(now, false);
        let ghost before = v@;
        v.push(ReconcileTarget { trigger_id: t.id.clone(), spec, next });
        proof {
            assert forall|k: int| 0 <= k < i + 1 implies {
                let x = #[trigger] v@[k];
                &&& x.trigger_id@ == def.triggers@.take(i + 1)[k].id@
                &&& x.spec.cron@ == def.triggers@.take(i + 1)[k].cron@
                &&& x.spec.timezone@ == def.triggers@.take(i + 1)[k].timezone@
                &&& x.spec.wf()
                &&& instant_opt(x.next) == next_fire(def.triggers@.take(i + 1)[k].cron@, def.triggers@.take(i + 1)[k].timezone@, now as int, false)
            } by {
                if k < i {
                    assert(v@[k] == before[k]);
                    assert(def.triggers@.take(i as int)[k] == def.triggers@.take(i + 1)[k]);
                }
            }
        }
        i = i + 1;
    }
    proof {
        assert(def.triggers@.take(i as int) =~= def.triggers@);
    }
    Ok(v)
}

/// Whether a stored `next_fire_at` is still a fire time of the cron.
pub open spec fn stored_valid(cron: Seq<char>, timezone: Seq<char>, stored: Option<String>) -> bool {
    match stored {
        None => false,
        Some(text) => match rfc3339_instant(text@) {
            Ok((secs, _nanos)) => fire_matches(cron, timezone, secs),
            Err(_) => false,
        },
    }
}

/// What reconciling writes to one surviving schedule row.
#[derive(Debug, Clone, PartialEq, Eq)]
pub struct RowUpdate {
    /// The new `enabled` flag, when it changes.
    pub enabled: Option<bool>,
    /// The new `next_fire_at`, when it is rewritten.
    pub next: Option<Option<i64>>,
}

/// The update of a row whose trigger is `t`: `enabled` follows the
/// definition; a row that existed before reconciling and is re-enabled, or
/// whose stored fire time no longer matches the cron, gets the next fire
/// time after now; a fresh row keeps the one it was inserted with.
pub open spec fn planned_update(t: TriggerDef, row: ScheduleRow, pre_existing: bool, computed: Option<int>) -> (Option<bool>, Option<Option<int>>) {
    let enabled = if row.enabled != t.enabled { Some(t.enabled) } else { None };
    let next = if !pre_existing {
        None
    } else if !row.enabled && t.enabled {
        Some(computed)
    } else if stored_valid(t.cron@, t.timezone@, row.next_fire_at) {
        None
    } else {
        Some(computed)
    };
    (enabled, next)
}

/// The update of a row as integers.
pub open spec fn update_view(u: RowUpdate) -> (Option<bool>, Option<Option<int>>) {
    (u.enabled, match u.next {
        Some(n) => Some(instant_opt(n)),
        None => None,
    })
}

/// Decides what reconciling writes to one schedule row of the flow, after
/// the rows of removed triggers are gone and fresh rows are inserted;
/// `pre_existing` lists the trigger ids that had a row before. `None` when
/// the row's trigger is not in the definition.
pub fn row_update(def: &FlowDefinition, targets: &Vec<ReconcileTarget>, pre_existing: &Vec<String>, row: &ScheduleRow, now: i64) -> (r: Option<RowUpdate>)
    requires
        targets_match(def.triggers@, targets@, now as int),
    ensures
        match first_trigger(def.triggers@, row.trigger_id@) {
            None => r is None,
            Some(i) => r matches Some(u) && update_view(u) == planned_update(def.triggers@[i], *row,
                names(pre_existing@).contains(row.trigger_id@), next_fire(def.triggers@[i].cron@, def.triggers@[i].timezone@, now as int, false)),
        },
{
    let i = match find_trigger(&def.triggers, row.trigger_id.as_str()) {
        Some(i) => i,
        None => return None,
    };
    let trigger = &def.triggers[i];
    let target = &targets[i];
    assert(targets@[i as int] == *target);
    let enabled = if row.enabled != trigger.enabled { Some(trigger.enabled) } else { None };
    let next = if !contains_name(pre_existing, row.trigger_id.as_str()) {
        None
    } else if !row.enabled && trigger.enabled {
        Some(target.next)
    } else {
        let valid = match &row.next_fire_at {
            None => false,
            Some(text) => match parse_rfc3339(text.as_str()) {
                Ok((secs, _nanos)) => target.spec.matches(secs),
                Err(_) => false,
            },
        };
        if valid { None } else { Some(target.next) }
    };
    Some(RowUpdate { enabled, next })
}

// ---------------------------------------------------------------------------
// Laws
// ---------------------------------------------------------------------------

/// The search finds at most `limit` fire times, none of them before `due`.
proof fn lemma_due_from_bounded(cron: Seq<char>, timezone: Seq<char>, due: int, cursor: int, inclusive: bool, limit: nat)
    ensures
        due_from(cron, timezone, due, cursor, inclusive, limit).len() <= limit,
        forall|k: int| 0 <= k < due_from(cron, timezone, due, cursor, inclusive, limit).len()
            ==> #[trigger] due_from(cron, timezone, due, cursor, inclusive, limit)[k] >= due,
    decreases limit,
{
    if limit > 0 {
        if let Some(o) = previous_fire(cron, timezone, cursor, inclusive) {
            if o >= due {
                lemma_due_from_bounded(cron, timezone, due, o, false, (limit - 1) as nat);
                let rest = due_from(cron, timezone, due, o, false, (limit - 1) as nat);
                assert forall|k: int| 0 <= k < due_from(cron, timezone, due, cursor, inclusive, limit).len()
                    implies #[trigger] due_from(cron, timezone, due, cursor, inclusive, limit)[k] >= due by {
                    if k > 0 {
                        assert(due_from(cron, timezone, due, cursor, inclusive, limit)[k] == rest[k - 1]);
                    }
                }
            }
        }
    }
}

/// One firing launches at most [`CATCHUP_CAP`] runs, at most one unless
/// the policy is `all`, and never one scheduled before the row's
/// `next_fire_at`.
pub proof fn lemma_launches_bounded(cron: Seq<char>, timezone: Seq<char>, catchup: Catchup, due: int, now: int)
    ensures
        planned_launches(cron, timezone, catchup, due, now).len() <= CATCHUP_CAP,
        catchup != Catchup::All ==> planned_launches(cron, timezone, catchup, due, now).len() <= 1,
        forall|k: int| 0 <= k < planned_launches(cron, timezone, catchup, due, now).len()
            ==> #[trigger] planned_launches(cron, timezone, catchup, due, now)[k] >= due,
{
    lemma_due_from_bounded(cron, timezone, due, now, true, 1);
    lemma_due_from_bounded(cron, timezone, due, now, true, (CATCHUP_CAP + 1) as nat);
    let all = due_occurrences(cron, timezone, due, now, (CATCHUP_CAP + 1) as nat);
    let n: int = if all.len() > CATCHUP_CAP { CATCHUP_CAP as int } else { all.len() as int };
    if catchup == Catchup::All {
        assert forall|k: int| 0 <= k < planned_launches(cron, timezone, catchup, due, now).len()
            implies #[trigger] planned_launches(cron, timezone, catchup, due, now)[k] >= due by {
            assert(planned_launches(cron, timezone, catchup, due, now)[k] == all[n - 1 - k]);
        }
    }
}

/// The newest due occurrence does not depend on how many are sought.
proof fn lemma_newest_due(cron: Seq<char>, timezone: Seq<char>, due: int, now: int, limit: nat)
    requires
        limit >= 1,
    ensures
        due_occurrences(cron, timezone, due, now, limit).len() > 0 <==> due_occurrences(cron, timezone, due, now, 1).len() > 0,
        due_occurrences(cron, timezone, due, now, 1).len() > 0 ==>
            due_occurrences(cron, timezone, due, now, limit)[0] == due_occurrences(cron, timezone, due, now, 1)[0],
{
    lemma_due_from_bounded(cron, timezone, due, now, true, 1);
}

/// A live fire launches under every catch-up policy: when the newest due
/// occurrence came due within the live window, the firing launches it, as
/// its last (newest) run.
pub proof fn lemma_live_fire_launches(cron: Seq<char>, timezone: Seq<char>, catchup: Catchup, due: int, now: int)
    requires
        due_occurrences(cron, timezone, due, now, 1).len() > 0,
        is_live(due_occurrences(cron, timezone, due, now, 1)[0], now),
    ensures
        planned_launches(cron, timezone, catchup, due, now).len() > 0,
        planned_launches(cron, timezone, catchup, due, now).last() == due_occurrences(cron, timezone, due, now, 1)[0],
{
    lemma_newest_due(cron, timezone, due, now, (CATCHUP_CAP + 1) as nat);
    lemma_due_from_bounded(cron, timezone, due, now, true, (CATCHUP_CAP + 1) as nat);
}


/// Whether a schedule row counts for the dashboard's next fire: enabled, of
/// a flow that is not paused, with a next fire time.
pub open spec fn upcoming(r: ScheduleRow) -> bool {
    r.enabled && !r.flow_paused && r.next_fire_at is Some
}

/// The soonest upcoming fire among rows, as (flow id, time): the earliest
/// time text (RFC 3339 UTC texts of one precision sort as their instants),
/// the first such row on a tie.
pub open spec fn soonest(rows: Seq<ScheduleRow>) -> Option<(Seq<char>, Seq<char>)>
    decreases rows.len(),
{
    if rows.len() == 0 {
        None
    } else {
        let best = soonest(rows.drop_last());
        let r = rows.last();
        if upcoming(r) {
            match best {
                Some(b) => if key_lt(r.next_fire_at->0@, b.1) {
                    Some((r.flow_id@, r.next_fire_at->0@))
                } else {
                    best
                },
                None => Some((r.flow_id@, r.next_fire_at->0@)),
            }
        } else {
            best
        }
    }
}

/// The dashboard's next scheduled fire: flow id and time.
pub fn next_scheduled(rows: &Vec<ScheduleRow>) -> (r: Option<(String, String)>)
    ensures
        match r {
            Some((f, at)) => soonest(rows@) == Some((f@, at@)),
            None => soonest(rows@) is None,
        },
{
    let mut best: Option<(String, String)> = None;
    let mut i: usize = 0;
    while i < rows.len()
        invariant
            i <= rows@.len(),
            match best {
                Some((f, at)) => soonest(rows@.take(i as int)) == Some((f@, at@)),
                None => soonest(rows@.take(i as int)) is None,
            },
        decreases rows@.len() - i,
    {
        proof {
            assert(rows@.take(i + 1).drop_last() =~= rows@.take(i as int));
            assert(rows@.take(i + 1).last() == rows@[i as int]);
        }
        let row = &rows[i];
        if row.enabled && !row.flow_paused {
            if let Some(at) = &row.next_fire_at {
                let replace = match &best {
                    Some((_, b)) => key_less(at.as_str(), b.as_str()),
                    None => true,
                };
                if replace {
                    best = Some((row.flow_id.clone(), at.clone()));
                }
            }
        }
        i = i + 1;
    }
    proof {
        assert(rows@.take(rows@.len() as int) =~= rows@);
    }
    best
}

} // verus!
