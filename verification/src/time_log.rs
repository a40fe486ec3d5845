//! The time-log state machine: at most one pending session, plus closed
//! entries filed under the calendar day on which they ended, kept in day
//! order. Entries are append-only; the log is mutated only by `start_log`
//! and `stop_pending`.

use vstd::prelude::*;
use vstd::string::StringExecFns;

use crate::calendar::{minutes_between, Date, Duration, Timestamp};
use crate::TrackieError;

verus! {

/// The single in-progress, not-yet-closed tracking interval.
#[derive(Debug)]
pub struct PendingLog {
    pub project_name: String,
    pub start: Timestamp,
}

impl PendingLog {
    pub open spec fn valid(self) -> bool {
        &&& self.project_name@.len() > 0
        &&& self.start.valid()
    }

    /// How long this session has been running as of `now`.
    pub fn get_pending_duration(&self, now: &Timestamp) -> (r: Duration)
        requires
            self.start.valid(),
            now.valid(),
            self.start.instant() <= now.instant(),
        ensures
            r.minutes == now.instant() - self.start.instant(),
    {
        minutes_between(&self.start, now)
    }
}

impl Clone for PendingLog {
    fn clone(&self) -> (r: Self)
        ensures
            r == *self,
    {
        PendingLog { project_name: self.project_name.clone(), start: self.start }
    }
}

/// An immutable record of a completed tracking interval.
#[derive(Debug)]
pub struct LogEntry {
    pub project_name: String,
    pub start: Timestamp,
    pub end: Timestamp,
}

impl LogEntry {
    pub open spec fn valid(self) -> bool {
        &&& self.project_name@.len() > 0
        &&& self.start.valid()
        &&& self.end.valid()
        &&& self.start.instant() <= self.end.instant()
    }

    /// The elapsed whole minutes from start to end.
    pub open spec fn spec_minutes(self) -> int {
        self.end.instant() - self.start.instant()
    }

    fn from_time_log(log: &PendingLog, end: Timestamp) -> (r: LogEntry)
        ensures
            r == (LogEntry { project_name: log.project_name, start: log.start, end }),
    {
        LogEntry { project_name: log.project_name.clone(), start: log.start, end }
    }

    pub fn to_duration(&self) -> (r: Duration)
        requires
            self.valid(),
        ensures
            r.minutes == self.spec_minutes(),
    {
        minutes_between(&self.start, &self.end)
    }
}

impl Clone for LogEntry {
    fn clone(&self) -> (r: Self)
        ensures
            r == *self,
    {
        LogEntry { project_name: self.project_name.clone(), start: self.start, end: self.end }
    }
}

/// The closed entries of one calendar day, in the order they were closed.
#[derive(Debug)]
pub struct DayLog {
    pub date: Date,
    pub entries: Vec<LogEntry>,
}

impl DayLog {
    pub open spec fn wf(self) -> bool {
        &&& self.date.valid()
        &&& self.entries@.len() > 0
        &&& forall|k: int|
            0 <= k < self.entries@.len() ==> (#[trigger] self.entries@[k]).valid()
                && self.entries@[k].end.date == self.date
    }
}

/// Days in strictly ascending calendar order.
pub open spec fn days_sorted(days: Seq<DayLog>) -> bool {
    forall|i: int, j: int|
        0 <= i < j < days.len() ==> (#[trigger] days[i]).date.lt(#[trigger] days[j].date)
}

/// The entries filed under `d`: those of the first day log carrying `d`.
pub open spec fn lookup_entries(days: Seq<DayLog>, d: Date) -> Seq<LogEntry>
    decreases days.len(),
{
    if days.len() == 0 {
        Seq::empty()
    } else if days[0].date == d {
        days[0].entries@
    } else {
        lookup_entries(days.skip(1), d)
    }
}

/// The aggregate root: the one optional pending session and the closed
/// entries keyed by the day they ended on.
#[derive(Debug)]
pub struct TimeLog {
    pub pending: Option<PendingLog>,
    /// The day logs, ascending by date; mutate only through the methods.
    pub days: Vec<DayLog>,
}

impl TimeLog {
    /// The stored day logs, ascending by date.
    pub open spec fn days_seq(self) -> Seq<DayLog> {
        self.days@
    }

    /// The entries filed under day `d`, in insertion order.
    pub open spec fn day_entries(self, d: Date) -> Seq<LogEntry> {
        lookup_entries(self.days_seq(), d)
    }

    pub open spec fn wf(self) -> bool {
        &&& match self.pending {
            Some(p) => p.valid(),
            None => true,
        }
        &&& days_sorted(self.days_seq())
        &&& forall|i: int| 0 <= i < self.days_seq().len() ==> (#[trigger] self.days_seq()[i]).wf()
    }

    /// `later` holds everything `self` holds, with entries only appended.
    pub open spec fn grows_to(self, later: TimeLog) -> bool {
        forall|d: Date| (#[trigger] self.day_entries(d)).is_prefix_of(later.day_entries(d))
    }

    pub fn new() -> (r: TimeLog)
        ensures
            r.wf(),
            r.pending is None,
            r.days_seq() == Seq::<DayLog>::empty(),
            forall|d: Date| r.day_entries(d) == Seq::<LogEntry>::empty(),
    {
        TimeLog { pending: None, days: Vec::new() }
    }

    /// A log with the given history and nothing pending.
    pub fn new_testing_only(days: Vec<DayLog>) -> (r: TimeLog)
        requires
            days_sorted(days@),
            forall|i: int| 0 <= i < days@.len() ==> (#[trigger] days@[i]).wf(),
        ensures
            r.wf(),
            r.pending is None,
            r.days_seq() == days@,
    {
        TimeLog { pending: None, days }
    }

    /// Begins tracking `project_name` as of `now`. A session already pending
    /// is closed first, exactly as `stop_pending` would close it, and a
    /// warning naming its project is handed back.
    pub fn start_log(&mut self, project_name: &str, now: Timestamp) -> (warn: Option<String>)
        requires
            old(self).wf(),
            now.valid(),
            project_name@.len() > 0,
            old(self).pending matches Some(p) ==> p.start.instant() <= now.instant(),
        ensures
            final(self).wf(),
            final(self).pending matches Some(q) && q.project_name@ == project_name@ && q.start
                == now,
            old(self).grows_to(*final(self)),
            match old(self).pending {
                None => {
                    &&& warn is None
                    &&& final(self).days_seq() == old(self).days_seq()
                },
                Some(p) => {
                    &&& warn matches Some(w) && w@ == "Stopping time-tracking for "@
                        + p.project_name@
                    &&& final(self).day_entries(now.date) == old(self).day_entries(
                        now.date,
                    ).push(LogEntry { project_name: p.project_name, start: p.start, end: now })
                    &&& forall|d: Date|
                        d != now.date ==> final(self).day_entries(d) == old(self).day_entries(d)
                },
            },
    {
        let mut warn: Option<String> = None;
        if self.pending.is_some() {
            let name = match &self.pending {
                Some(p) => p.project_name.clone(),
                None => String::new(),
            };
            let mut w = String::from_str("Stopping time-tracking for ");
            w.append(name.as_str());
            warn = Some(w);
            let stopped = self.stop_pending(now);
            proof {
                assert(stopped is Ok);
            }
        }
        self.pending = Some(
            PendingLog { project_name: project_name.to_owned(), start: now },
        );
        proof {
            lemma_grows_refl(*self);
            if old(self).pending is Some {
                assert(old(self).grows_to(*self)) by {
                    assert forall|d: Date|
                        (#[trigger] old(self).day_entries(d)).is_prefix_of(
                            self.day_entries(d),
                        ) by {
                        if d == now.date {
                            assert(old(self).day_entries(d).is_prefix_of(
                                old(self).day_entries(d).push(
                                    LogEntry {
                                        project_name: old(self).pending->Some_0.project_name,
                                        start: old(self).pending->Some_0.start,
                                        end: now,
                                    },
                                ),
                            ));
                        }
                    }
                }
            }
        }
        warn
    }

    /// Closes the pending session as of `now`, files the closed entry under
    /// the day it ended — a session crossing midnight is filed whole under
    /// its end day — and returns the closed session's data. Fails, and
    /// changes nothing, when no session is pending.
    pub fn stop_pending(&mut self, now: Timestamp) -> (r: Result<PendingLog, TrackieError>)
        requires
            old(self).wf(),
            now.valid(),
            old(self).pending matches Some(p) ==> p.start.instant() <= now.instant(),
        ensures
            final(self).wf(),
            old(self).grows_to(*final(self)),
            match old(self).pending {
                None => {
                    &&& r matches Err(e) && e.msg_view() == "No time is currently tracked."@
                        && e.is_error_view()
                    &&& *final(self) == *old(self)
                },
                Some(p) => {
                    &&& r matches Ok(q) && q == p
                    &&& final(self).pending is None
                    &&& final(self).day_entries(now.date) == old(self).day_entries(
                        now.date,
                    ).push(LogEntry { project_name: p.project_name, start: p.start, end: now })
                    &&& forall|d: Date|
                        d != now.date ==> final(self).day_entries(d) == old(self).day_entries(d)
                },
            },
    {
        let stopped: PendingLog;
        match &self.pending {
            None => {
                proof {
                    lemma_grows_refl(*self);
                }
                return Err(TrackieError::new("No time is currently tracked."));
            },
            Some(p) => {
                stopped = p.clone();
            },
        }
        let entry = LogEntry::from_time_log(&stopped, now);
        self.file_entry(entry);
        self.pending = None;
        proof {
            assert forall|d: Date|
                (#[trigger] old(self).day_entries(d)).is_prefix_of(self.day_entries(d)) by {
                if d == now.date {
                    assert(old(self).day_entries(d).is_prefix_of(
                        old(self).day_entries(d).push(
                            LogEntry {
                                project_name: stopped.project_name,
                                start: stopped.start,
                                end: now,
                            },
                        ),
                    ));
                }
            }
        }
        Ok(stopped)
    }

    /// Appends `e` to the day log of the day it ended on, creating that day
    /// log at its place in date order if it is not there yet.
    fn file_entry(&mut self, e: LogEntry)
        requires
            old(self).wf(),
            e.valid(),
        ensures
            final(self).wf(),
            final(self).pending == old(self).pending,
            final(self).day_entries(e.end.date) == old(self).day_entries(e.end.date).push(e),
            forall|d: Date|
                d != e.end.date ==> final(self).day_entries(d) == old(self).day_entries(d),
    {
        let key = e.end.date;
        let ghost days0 = self.days@;
        let mut i: usize = 0;
        while i < self.days.len() && self.days[i].date.before(&key)
            invariant
                self.days@ == days0,
                i <= days0.len(),
                forall|j: int| 0 <= j < i ==> (#[trigger] days0[j]).date.lt(key),
            decreases days0.len() - i,
        {
            i = i + 1;
        }
        // here every day before `i` is earlier than `key`, and the day at `i`
        // (if any) is not
        proof {
            assert(i == days0.len() || !days0[i as int].date.lt(key));
            assert forall|j: int| 0 <= j < i implies (#[trigger] days0[j]).date != key by {
                if days0[j].date == key {
                    assert(days0[j].date.lt(days0[j].date));
                }
            }
        }
        if i < self.days.len() && self.days[i].date == key {
            let mut dl = self.days.remove(i);
            dl.entries.push(e);
            let ghost dl_new = dl;
            self.days.insert(i, dl);
            proof {
                assert(self.days@ =~= days0.update(i as int, dl_new));
                lemma_lookup_at(days0, key, i as int);
                lemma_lookup_update(days0, i as int, dl_new, key);
                assert(self.day_entries(key) =~= old(self).day_entries(key).push(e));
                assert forall|d: Date|
                    d != key implies #[trigger] self.day_entries(d) == old(self).day_entries(
                    d,
                ) by {
                    lemma_lookup_update(days0, i as int, dl_new, d);
                }
            }
        } else {
            let mut entries: Vec<LogEntry> = Vec::new();
            entries.push(e);
            let dl = DayLog { date: key, entries };
            let ghost dl_new = dl;
            self.days.insert(i, dl);
            proof {
                assert(self.days@ =~= days0.insert(i as int, dl_new));
                assert forall|j: int| 0 <= j < days0.len() implies (#[trigger] days0[j]).date
                    != key by {
                    if j >= i {
                        assert(i < days0.len());
                        assert(!days0[i as int].date.lt(key));
                        if days0[j].date == key && j > i {
                            assert(days0[i as int].date.lt(days0[j].date));
                        }
                    }
                }
                lemma_lookup_insert(days0, i as int, dl_new, key);
                assert(dl_new.entries@ =~= old(self).day_entries(key).push(e)) by {
                    lemma_lookup_absent(days0, key);
                }
                assert forall|d: Date|
                    d != key implies #[trigger] self.day_entries(d) == old(self).day_entries(
                    d,
                ) by {
                    lemma_lookup_insert(days0, i as int, dl_new, d);
                }
                assert(days_sorted(self.days@)) by {
                    assert forall|a: int, b: int|
                        0 <= a < b < self.days@.len() implies (#[trigger] self.days@[a]).date.lt(
                        #[trigger] self.days@[b].date,
                    ) by {
                        if a < i && b == i {
                        } else if a == i && b > i {
                            assert(!days0[i as int].date.lt(key));
                            assert(self.days@[b] == days0[b - 1]);
                            if b - 1 > i {
                                assert(days0[i as int].date.lt(days0[b - 1].date));
                            }
                        }
                    }
                }
            }
        }
    }

    /// The (possibly empty) entries filed under `date`, in insertion order.
    pub fn for_day(&self, date: &Date) -> (r: &[LogEntry])
        ensures
            r@ == self.day_entries(*date),
    {
        let mut i: usize = 0;
        while i < self.days.len()
            invariant
                i <= self.days@.len(),
                forall|j: int| 0 <= j < i ==> (#[trigger] self.days@[j]).date != *date,
            decreases self.days@.len() - i,
        {
            if self.days[i].date == *date {
                proof {
                    lemma_lookup_at(self.days@, *date, i as int);
                }
                return self.days[i].entries.as_slice();
            }
            i = i + 1;
        }
        proof {
            lemma_lookup_absent(self.days@, *date);
            assert(Seq::<LogEntry>::empty() =~= self.day_entries(*date));
        }
        &[]
    }

    /// The most recently closed entry: the last entry of the latest day,
    /// or none when no entry was ever closed.
    pub fn get_latest_entry(&self) -> (r: Option<&LogEntry>)
        requires
            self.wf(),
        ensures
            match r {
                None => self.days_seq().len() == 0,
                Some(e) => self.days_seq().len() > 0 && *e == self.days_seq().last().entries@.last(),
            },
    {
        if self.days.len() == 0 {
            return None;
        }
        let dl = &self.days[self.days.len() - 1];
        Some(&dl.entries[dl.entries.len() - 1])
    }
}

/// Entries are append-only across any sequence of operations: each mutation
/// only grows the log, and growth composes.
pub proof fn lemma_grows_to_trans(a: TimeLog, b: TimeLog, c: TimeLog)
    requires
        a.grows_to(b),
        b.grows_to(c),
    ensures
        a.grows_to(c),
{
    assert forall|d: Date| (#[trigger] a.day_entries(d)).is_prefix_of(c.day_entries(d)) by {
        let x = a.day_entries(d);
        let y = b.day_entries(d);
        let z = c.day_entries(d);
        assert(x.is_prefix_of(y));
        assert(y.is_prefix_of(z));
        assert forall|i: int| 0 <= i < x.len() implies x[i] == z.subrange(0, x.len() as int)[i] by {
            assert(x[i] == y.subrange(0, x.len() as int)[i]);
            assert(y[i] == z.subrange(0, y.len() as int)[i]);
        }
        assert(x =~= z.subrange(0, x.len() as int));
    }
}

impl Default for TimeLog {
    /// A fresh, empty log.
    fn default() -> (r: TimeLog)
        ensures
            r.wf(),
            r.pending is None,
            r.days_seq() == Seq::<DayLog>::empty(),
    {
        TimeLog::new()
    }
}

/// Every entry filed under `d` in a well-formed log is itself well formed and
/// ended on `d`.
pub proof fn lemma_day_entries_wf(log: TimeLog, d: Date)
    requires
        log.wf(),
    ensures
        forall|k: int|
            0 <= k < log.day_entries(d).len() ==> (#[trigger] log.day_entries(d)[k]).valid()
                && log.day_entries(d)[k].end.date == d,
{
    lemma_lookup_wf(log.days_seq(), d);
}

proof fn lemma_lookup_wf(days: Seq<DayLog>, d: Date)
    requires
        forall|i: int| 0 <= i < days.len() ==> (#[trigger] days[i]).wf(),
    ensures
        forall|k: int|
            0 <= k < lookup_entries(days, d).len() ==> (#[trigger] lookup_entries(days, d)[k]).valid()
                && lookup_entries(days, d)[k].end.date == d,
    decreases days.len(),
{
    if days.len() == 0 {
    } else if days[0].date == d {
        assert(lookup_entries(days, d) == days[0].entries@);
        assert(days[0].wf());
    } else {
        assert forall|i: int| 0 <= i < days.skip(1).len() implies (#[trigger] days.skip(1)[i]).wf() by {
            assert(days.skip(1)[i] == days[i + 1]);
        }
        lemma_lookup_wf(days.skip(1), d);
        assert(lookup_entries(days, d) == lookup_entries(days.skip(1), d));
    }
}

proof fn lemma_grows_refl(log: TimeLog)
    ensures
        log.grows_to(log),
{
    assert forall|d: Date| (#[trigger] log.day_entries(d)).is_prefix_of(log.day_entries(d)) by {
        assert(log.day_entries(d).is_prefix_of(log.day_entries(d)));
    }
}

/// When no stored day carries `d`, nothing is filed under it.
proof fn lemma_lookup_absent(days: Seq<DayLog>, d: Date)
    requires
        forall|j: int| 0 <= j < days.len() ==> (#[trigger] days[j]).date != d,
    ensures
        lookup_entries(days, d) == Seq::<LogEntry>::empty(),
    decreases days.len(),
{
    if days.len() > 0 {
        lemma_lookup_absent(days.skip(1), d);
    }
}

/// The first day log carrying `d` supplies the entries filed under `d`.
proof fn lemma_lookup_at(days: Seq<DayLog>, d: Date, i: int)
    requires
        0 <= i < days.len(),
        days[i].date == d,
        forall|j: int| 0 <= j < i ==> (#[trigger] days[j]).date != d,
    ensures
        lookup_entries(days, d) == days[i].entries@,
    decreases i,
{
    if i > 0 {
        lemma_lookup_at(days.skip(1), d, i - 1);
    }
}

/// Replacing the one day log that carries a date only changes that date's
/// entries.
proof fn lemma_lookup_update(days: Seq<DayLog>, i: int, dl: DayLog, d: Date)
    requires
        0 <= i < days.len(),
        dl.date == days[i].date,
        forall|a: int, b: int|
            0 <= a < b < days.len() ==> (#[trigger] days[a]).date != (#[trigger] days[b]).date,
    ensures
        lookup_entries(days.update(i, dl), d) == if d == days[i].date {
            dl.entries@
        } else {
            lookup_entries(days, d)
        },
    decreases i,
{
    let updated = days.update(i, dl);
    if i == 0 {
        if d != days[0].date {
            assert(updated.skip(1) =~= days.skip(1));
        }
    } else {
        assert(updated[0] == days[0]);
        assert(updated.skip(1) =~= days.skip(1).update(i - 1, dl));
        lemma_lookup_update(days.skip(1), i - 1, dl, d);
        if days[0].date == d {
            assert(days[0].date != days[i].date);
        }
    }
}

/// Inserting a day log under a fresh date only changes that date's entries.
proof fn lemma_lookup_insert(days: Seq<DayLog>, i: int, dl: DayLog, d: Date)
    requires
        0 <= i <= days.len(),
        forall|j: int| 0 <= j < days.len() ==> (#[trigger] days[j]).date != dl.date,
    ensures
        lookup_entries(days.insert(i, dl), d) == if d == dl.date {
            dl.entries@
        } else {
            lookup_entries(days, d)
        },
    decreases i,
{
    let inserted = days.insert(i, dl);
    if i == 0 {
        if d != dl.date {
            assert(inserted.skip(1) =~= days);
        }
    } else {
        assert(inserted[0] == days[0]);
        assert(inserted.skip(1) =~= days.skip(1).insert(i - 1, dl));
        lemma_lookup_insert(days.skip(1), i - 1, dl, d);
        if days[0].date == d && d == dl.date {
            assert(days[0].date != dl.date);
        }
    }
}

} // verus!
