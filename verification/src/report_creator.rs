//! The report aggregator: a pure, read-only transform of the time log's
//! closed entries into per-day reports (one row per project, sorted by
//! project name, durations summed) and per-range reports (one day report per
//! calendar day of the window, ascending).

use vstd::prelude::*;
use vstd::string::StrSliceExecFns;

use crate::calendar::{add_days, day_index, next_date, sub_days, Date, Duration};
use crate::time_log::{LogEntry, TimeLog};

verus! {

/// One project's summed time within one day.
pub struct ProjectReport {
    pub project: String,
    pub duration: Duration,
}

/// One day's per-project rows, sorted by project name, with their sum.
pub struct DayReport {
    pub date: Date,
    pub total_duration: Duration,
    pub projects: Vec<ProjectReport>,
}

/// A calendar window, both bounds inclusive.
#[derive(Clone, Copy, PartialEq, Eq, Structural, Debug)]
pub struct DateRange {
    pub start: Date,
    pub end: Date,
}

/// The day reports of a window, ascending by date, with their sum.
pub struct DateRangeReport {
    pub range: DateRange,
    pub total_duration: Duration,
    pub days: Vec<DayReport>,
}

/// Strict lexicographic order on text, by character code.
pub open spec fn lex_lt(a: Seq<char>, b: Seq<char>) -> bool
    decreases a.len(),
{
    if b.len() == 0 {
        false
    } else if a.len() == 0 {
        true
    } else if a[0] != b[0] {
        (a[0] as u32) < (b[0] as u32)
    } else {
        lex_lt(a.skip(1), b.skip(1))
    }
}

/// The minutes of the entries carrying `name`.
pub open spec fn sum_for(entries: Seq<LogEntry>, name: Seq<char>) -> int
    decreases entries.len(),
{
    if entries.len() == 0 {
        0
    } else {
        sum_for(entries.drop_last(), name) + if entries.last().project_name@ == name {
            entries.last().spec_minutes()
        } else {
            0
        }
    }
}

/// The minutes of all entries.
pub open spec fn total_minutes(entries: Seq<LogEntry>) -> int
    decreases entries.len(),
{
    if entries.len() == 0 {
        0
    } else {
        total_minutes(entries.drop_last()) + entries.last().spec_minutes()
    }
}

/// The minutes of all project rows.
pub open spec fn sum_projects(ps: Seq<ProjectReport>) -> int
    decreases ps.len(),
{
    if ps.len() == 0 {
        0
    } else {
        sum_projects(ps.drop_last()) + ps.last().duration.minutes
    }
}

/// The minutes of all day reports.
pub open spec fn sum_days(ds: Seq<DayReport>) -> int
    decreases ds.len(),
{
    if ds.len() == 0 {
        0
    } else {
        sum_days(ds.drop_last()) + ds.last().total_duration.minutes
    }
}

pub open spec fn has_name(entries: Seq<LogEntry>, name: Seq<char>) -> bool {
    exists|k: int| 0 <= k < entries.len() && (#[trigger] entries[k]).project_name@ == name
}

pub open spec fn projects_sorted(ps: Seq<ProjectReport>) -> bool {
    forall|i: int, j: int|
        0 <= i < j < ps.len() ==> lex_lt(
            (#[trigger] ps[i]).project@,
            (#[trigger] ps[j]).project@,
        )
}

/// Some row carries `name`.
pub open spec fn name_present(ps: Seq<ProjectReport>, name: Seq<char>) -> bool {
    exists|i: int| 0 <= i < ps.len() && (#[trigger] ps[i]).project@ == name
}

/// What the day report of `entries` says: one row per project name occurring
/// in `entries`, sorted strictly ascending by name, each row's duration the
/// sum over its project's entries, and the total the sum of the rows — which
/// is also the sum over all entries.
pub open spec fn day_report_matches(entries: Seq<LogEntry>, date: Date, r: DayReport) -> bool {
    &&& r.date == date
    &&& projects_sorted(r.projects@)
    &&& forall|i: int|
        0 <= i < r.projects@.len() ==> has_name(entries, (#[trigger] r.projects@[i]).project@)
            && r.projects@[i].duration.minutes == sum_for(entries, r.projects@[i].project@)
    &&& forall|k: int|
        0 <= k < entries.len() ==> name_present(r.projects@, (#[trigger] entries[k]).project_name@)
    &&& r.total_duration.minutes == sum_projects(r.projects@)
    &&& r.total_duration.minutes == total_minutes(entries)
}

/// What rendering needs of a day report: a real date and nonnegative times.
pub open spec fn day_report_renderable(d: DayReport) -> bool {
    &&& d.date.valid()
    &&& d.total_duration.minutes >= 0
    &&& forall|i: int|
        0 <= i < d.projects@.len() ==> (#[trigger] d.projects@[i]).duration.minutes >= 0
}

pub proof fn lemma_lex_irrefl(a: Seq<char>)
    ensures
        !lex_lt(a, a),
    decreases a.len(),
{
    if a.len() > 0 {
        lemma_lex_irrefl(a.skip(1));
    }
}

/// Distinct characters stay distinct as character codes.
proof fn lemma_char_cast_inj(x: char, y: char)
    requires
        x != y,
    ensures
        x as u32 != y as u32,
{
}

pub proof fn lemma_lex_total(a: Seq<char>, b: Seq<char>)
    requires
        !lex_lt(a, b),
        a != b,
    ensures
        lex_lt(b, a),
    decreases a.len() + b.len(),
{
    if b.len() == 0 {
        assert(a.len() > 0) by {
            if a.len() == 0 {
                assert(a =~= b);
            }
        }
    } else if a.len() == 0 {
    } else if a[0] != b[0] {
        lemma_char_cast_inj(a[0], b[0]);
    } else {
        if a.skip(1) == b.skip(1) {
            assert(a.skip(1).len() == a.len() - 1);
            assert(b.skip(1).len() == b.len() - 1);
            assert forall|i: int| 0 <= i < a.len() implies a[i] == b[i] by {
                if i > 0 {
                    assert(a[i] == a.skip(1)[i - 1]);
                    assert(b[i] == b.skip(1)[i - 1]);
                }
            }
            assert(a =~= b);
        } else {
            assert(!lex_lt(a.skip(1), b.skip(1)));
            lemma_lex_total(a.skip(1), b.skip(1));
            assert(lex_lt(b, a) == lex_lt(b.skip(1), a.skip(1)));
        }
    }
}

pub proof fn lemma_lex_trans(a: Seq<char>, b: Seq<char>, c: Seq<char>)
    requires
        lex_lt(a, b),
        lex_lt(b, c),
    ensures
        lex_lt(a, c),
    decreases a.len() + b.len() + c.len(),
{
    if c.len() == 0 {
    } else if a.len() == 0 {
    } else if b.len() == 0 {
    } else if a[0] == b[0] && b[0] == c[0] {
        lemma_lex_trans(a.skip(1), b.skip(1), c.skip(1));
    }
}

/// Matching prefixes do not decide the order.
proof fn lemma_lex_skip(a: Seq<char>, b: Seq<char>, i: int)
    requires
        0 <= i <= a.len(),
        i <= b.len(),
        forall|j: int| 0 <= j < i ==> a[j] == b[j],
    ensures
        lex_lt(a, b) == lex_lt(a.skip(i), b.skip(i)),
    decreases i,
{
    if i > 0 {
        lemma_lex_skip(a.skip(1), b.skip(1), i - 1);
        assert(a.skip(1).skip(i - 1) =~= a.skip(i));
        assert(b.skip(1).skip(i - 1) =~= b.skip(i));
        assert forall|j: int| 0 <= j < i - 1 implies a.skip(1)[j] == b.skip(1)[j] by {
            assert(a[j + 1] == b[j + 1]);
        }
    } else {
        assert(a.skip(0) =~= a);
        assert(b.skip(0) =~= b);
    }
}

/// `true` when `a` comes strictly before `b`, by character code.
pub fn str_lt(a: &str, b: &str) -> (r: bool)
    ensures
        r == lex_lt(a@, b@),
{
    let alen = a.unicode_len();
    let blen = b.unicode_len();
    let mut i: usize = 0;
    while i < alen && i < blen
        invariant
            alen == a@.len(),
            blen == b@.len(),
            i <= alen,
            i <= blen,
            forall|j: int| 0 <= j < i ==> a@[j] == b@[j],
        decreases alen - i,
    {
        let ca = a.get_char(i);
        let cb = b.get_char(i);
        if ca != cb {
            proof {
                lemma_lex_skip(a@, b@, i as int);
                assert(a@.skip(i as int)[0] == ca);
                assert(b@.skip(i as int)[0] == cb);
            }
            return (ca as u32) < (cb as u32);
        }
        i = i + 1;
    }
    proof {
        lemma_lex_skip(a@, b@, i as int);
    }
    i < blen
}

proof fn lemma_sum_for_nonneg(entries: Seq<LogEntry>, name: Seq<char>)
    requires
        forall|k: int| 0 <= k < entries.len() ==> (#[trigger] entries[k]).valid(),
    ensures
        sum_for(entries, name) >= 0,
    decreases entries.len(),
{
    if entries.len() > 0 {
        lemma_sum_for_nonneg(entries.drop_last(), name);
    }
}

proof fn lemma_total_nonneg(entries: Seq<LogEntry>)
    requires
        forall|k: int| 0 <= k < entries.len() ==> (#[trigger] entries[k]).valid(),
    ensures
        total_minutes(entries) >= 0,
    decreases entries.len(),
{
    if entries.len() > 0 {
        lemma_total_nonneg(entries.drop_last());
    }
}

proof fn lemma_sum_for_le_total(entries: Seq<LogEntry>, name: Seq<char>)
    requires
        forall|k: int| 0 <= k < entries.len() ==> (#[trigger] entries[k]).valid(),
    ensures
        sum_for(entries, name) <= total_minutes(entries),
    decreases entries.len(),
{
    if entries.len() > 0 {
        lemma_sum_for_le_total(entries.drop_last(), name);
    }
}

/// A prefix never holds more minutes than the whole.
proof fn lemma_total_prefix(entries: Seq<LogEntry>, k: int)
    requires
        0 <= k <= entries.len(),
        forall|j: int| 0 <= j < entries.len() ==> (#[trigger] entries[j]).valid(),
    ensures
        total_minutes(entries.subrange(0, k)) <= total_minutes(entries),
    decreases entries.len(),
{
    if k == entries.len() {
        assert(entries.subrange(0, k) =~= entries);
    } else if entries.len() > 0 {
        assert(entries.drop_last().subrange(0, k) =~= entries.subrange(0, k));
        lemma_total_prefix(entries.drop_last(), k);
    }
}

proof fn lemma_sum_projects_zero(ps: Seq<ProjectReport>)
    requires
        forall|i: int| 0 <= i < ps.len() ==> (#[trigger] ps[i]).duration.minutes == 0,
    ensures
        sum_projects(ps) == 0,
    decreases ps.len(),
{
    if ps.len() > 0 {
        lemma_sum_projects_zero(ps.drop_last());
    }
}

proof fn lemma_sum_projects_update(ps: Seq<ProjectReport>, i: int, x: ProjectReport)
    requires
        0 <= i < ps.len(),
    ensures
        sum_projects(ps.update(i, x)) == sum_projects(ps) - ps[i].duration.minutes
            + x.duration.minutes,
    decreases ps.len(),
{
    let updated = ps.update(i, x);
    if i == ps.len() - 1 {
        assert(updated.drop_last() =~= ps.drop_last());
    } else {
        assert(updated.drop_last() =~= ps.drop_last().update(i, x));
        lemma_sum_projects_update(ps.drop_last(), i, x);
    }
}

/// Rows with distinct names, each summing its own project's entries, with
/// every entry's project present, together hold exactly all the minutes.
proof fn lemma_group_partition(entries: Seq<LogEntry>, groups: Seq<ProjectReport>)
    requires
        forall|k: int| 0 <= k < entries.len() ==> (#[trigger] entries[k]).valid(),
        forall|i: int, j: int|
            0 <= i < j < groups.len() ==> (#[trigger] groups[i]).project@ != (
            #[trigger] groups[j]).project@,
        forall|i: int|
            0 <= i < groups.len() ==> (#[trigger] groups[i]).duration.minutes == sum_for(
                entries,
                groups[i].project@,
            ),
        forall|k: int|
            0 <= k < entries.len() ==> name_present(
                groups,
                (#[trigger] entries[k]).project_name@,
            ),
    ensures
        sum_projects(groups) == total_minutes(entries),
    decreases entries.len(),
{
    if entries.len() == 0 {
        lemma_sum_projects_zero(groups);
    } else {
        let front = entries.drop_last();
        let e = entries.last();
        let i = choose|i: int|
            0 <= i < groups.len() && (#[trigger] groups[i]).project@ == e.project_name@;
        assert(sum_for(entries, groups[i].project@) == sum_for(front, groups[i].project@)
            + e.spec_minutes());
        lemma_sum_for_nonneg(front, groups[i].project@);
        let reduced = ProjectReport {
            project: groups[i].project,
            duration: Duration {
                minutes: ((groups[i].duration.minutes - e.spec_minutes()) as i64),
            },
        };
        let groups2 = groups.update(i, reduced);
        assert(reduced.duration.minutes == sum_for(front, groups[i].project@));
        assert forall|j: int|
            0 <= j < groups2.len() implies (#[trigger] groups2[j]).duration.minutes == sum_for(
            front,
            groups2[j].project@,
        ) by {
            if j == i {
                assert(sum_for(entries, groups[i].project@) == sum_for(front, groups[i].project@)
                    + e.spec_minutes());
            } else {
                assert(groups[j].project@ != groups[i].project@);
                assert(sum_for(entries, groups[j].project@) == sum_for(front, groups[j].project@));
            }
        }
        assert forall|k: int|
            0 <= k < front.len() implies name_present(
            groups2,
            (#[trigger] front[k]).project_name@,
        ) by {
            assert(front[k] == entries[k]);
            assert(name_present(groups, entries[k].project_name@));
            let w = choose|w: int|
                0 <= w < groups.len() && (#[trigger] groups[w]).project@
                    == entries[k].project_name@;
            assert(groups2[w].project@ == entries[k].project_name@);
        }
        lemma_group_partition(front, groups2);
        lemma_sum_projects_update(groups, i, reduced);
    }
}

/// The report aggregator; it only reads the log it is given.
pub struct ReportCreator<'a> {
    time_log: &'a TimeLog,
}

impl<'a> ReportCreator<'a> {
    /// The log reported on.
    pub closed spec fn log(self) -> TimeLog {
        *self.time_log
    }

    pub fn new(time_log: &TimeLog) -> (r: ReportCreator)
        ensures
            r.log() == *time_log,
    {
        ReportCreator { time_log }
    }

    /// The report of one day: entries grouped by project name, each group's
    /// minutes summed, one row per group sorted by name, and the day's total.
    /// A day without entries gives an empty report with a zero total.
    #[verifier::loop_isolation(false)]
    #[verifier::rlimit(100)]
    pub fn report_day(&self, date: Date) -> (r: DayReport)
        requires
            self.log().wf(),
            date.valid(),
            total_minutes(self.log().day_entries(date)) <= i64::MAX,
        ensures
            day_report_matches(self.log().day_entries(date), date, r),
            day_report_renderable(r),
            self.log().day_entries(date).len() == 0 ==> r.projects@.len() == 0
                && r.total_duration.minutes == 0,
    {
        let entries: &[LogEntry] = self.time_log.for_day(&date);
        let ghost all = self.log().day_entries(date);
        proof {
            crate::time_log::lemma_day_entries_wf(self.log(), date);
        }
        let mut projects: Vec<ProjectReport> = Vec::new();
        let mut k: usize = 0;
        while k < entries.len()
            invariant
                k <= all.len(),
                projects_sorted(projects@),
                forall|i: int|
                    0 <= i < projects@.len() ==> has_name(
                        all.subrange(0, k as int),
                        (#[trigger] projects@[i]).project@,
                    ) && projects@[i].duration.minutes == sum_for(
                        all.subrange(0, k as int),
                        projects@[i].project@,
                    ),
                forall|j: int|
                    0 <= j < k ==> name_present(projects@, (#[trigger] all[j]).project_name@),
            decreases all.len() - k,
        {
            let e = &entries[k];
            let ghost pre = all.subrange(0, k as int);
            let ghost post = all.subrange(0, k as int + 1);
            proof {
                assert(post.drop_last() =~= pre);
                assert(post.last() == all[k as int]);
            }
            let mut p: usize = 0;
            while p < projects.len() && str_lt(projects[p].project.as_str(), e.project_name.as_str())
                invariant
                    p <= projects@.len(),
                    forall|q: int|
                        0 <= q < p ==> lex_lt((#[trigger] projects@[q]).project@, e.project_name@),
                decreases projects@.len() - p,
            {
                p = p + 1;
            }
            let dur = e.to_duration();
            if p < projects.len() && projects[p].project == e.project_name {
                proof {
                    lemma_sum_for_nonneg(pre, e.project_name@);
                    lemma_sum_for_le_total(post, e.project_name@);
                    lemma_total_prefix(all, k as int + 1);
                    lemma_total_nonneg(pre);
                }
                let ghost ps0 = projects@;
                let row = projects.remove(p);
                let summed = ProjectReport {
                    project: row.project,
                    duration: Duration { minutes: row.duration.minutes + dur.minutes },
                };
                projects.insert(p, summed);
                proof {
                    assert(projects@ =~= ps0.update(p as int, summed));
                    assert forall|i: int|
                        0 <= i < projects@.len() implies has_name(
                        post,
                        (#[trigger] projects@[i]).project@,
                    ) && projects@[i].duration.minutes == sum_for(
                        post,
                        projects@[i].project@,
                    ) by {
                        if i == p {
                            assert(post[k as int].project_name@ == projects@[i].project@);
                        } else {
                            assert(projects@[i] == ps0[i]);
                            if projects@[i].project@ == e.project_name@ {
                                if i < p {
                                    lemma_lex_irrefl(e.project_name@);
                                } else {
                                    assert(lex_lt(ps0[p as int].project@, ps0[i].project@));
                                    lemma_lex_irrefl(e.project_name@);
                                }
                            }
                        }
                    }
                    assert forall|j: int|
                        0 <= j < k + 1 implies name_present(
                        projects@,
                        (#[trigger] all[j]).project_name@,
                    ) by {
                        if j < k {
                            let w = choose|w: int|
                                0 <= w < ps0.len() && (#[trigger] ps0[w]).project@
                                    == all[j].project_name@;
                            if w == p {
                                assert(projects@[p as int].project@ == all[j].project_name@);
                            } else {
                                assert(projects@[w].project@ == all[j].project_name@);
                            }
                        } else {
                            assert(projects@[p as int].project@ == all[j].project_name@);
                        }
                    }
                }
            } else {
                proof {
                    lemma_sum_for_nonneg(pre, e.project_name@);
                    if p < projects@.len() {
                        lemma_lex_total(projects@[p as int].project@, e.project_name@);
                    }
                }
                let row = ProjectReport { project: e.project_name.clone(), duration: dur };
                let ghost ps0 = projects@;
                projects.insert(p, row);
                proof {
                    assert(projects@ =~= ps0.insert(p as int, row));
                    assert(!has_name(pre, e.project_name@)) by {
                        if has_name(pre, e.project_name@) {
                            let j = choose|j: int|
                                0 <= j < pre.len() && (#[trigger] pre[j]).project_name@
                                    == e.project_name@;
                            assert(name_present(ps0, all[j].project_name@));
                            let w = choose|w: int|
                                0 <= w < ps0.len() && (#[trigger] ps0[w]).project@
                                    == e.project_name@;
                            if w < p {
                                lemma_lex_irrefl(e.project_name@);
                            } else if w == p {
                            } else {
                                lemma_lex_trans(
                                    e.project_name@,
                                    ps0[p as int].project@,
                                    ps0[w].project@,
                                );
                                lemma_lex_irrefl(e.project_name@);
                            }
                        }
                    }
                    assert(sum_for(pre, e.project_name@) == 0) by {
                        lemma_sum_for_absent(pre, e.project_name@);
                    }
                    assert(projects_sorted(projects@)) by {
                        assert forall|x: int, y: int|
                            0 <= x < y < projects@.len() implies lex_lt(
                            (#[trigger] projects@[x]).project@,
                            (#[trigger] projects@[y]).project@,
                        ) by {
                            if x < p && y == p {
                            } else if x == p && y > p {
                                assert(projects@[y] == ps0[y - 1]);
                                if y - 1 > p {
                                    lemma_lex_trans(
                                        e.project_name@,
                                        ps0[p as int].project@,
                                        ps0[y - 1].project@,
                                    );
                                }
                            } else if x < p && y > p {
                                assert(projects@[x] == ps0[x]);
                                assert(projects@[y] == ps0[y - 1]);
                            }
                        }
                    }
                    assert forall|i: int|
                        0 <= i < projects@.len() implies has_name(
                        post,
                        (#[trigger] projects@[i]).project@,
                    ) && projects@[i].duration.minutes == sum_for(
                        post,
                        projects@[i].project@,
                    ) by {
                        if i == p {
                            assert(post[k as int].project_name@ == e.project_name@);
                        } else {
                            let io = if i < p { i } else { i - 1 };
                            assert(projects@[i] == ps0[io]);
                            if ps0[io].project@ == e.project_name@ {
                                if io < p {
                                    lemma_lex_irrefl(e.project_name@);
                                } else {
                                    lemma_lex_trans(
                                        e.project_name@,
                                        ps0[p as int].project@,
                                        ps0[io].project@,
                                    );
                                    lemma_lex_irrefl(e.project_name@);
                                }
                            }
                        }
                    }
                    assert forall|j: int|
                        0 <= j < k + 1 implies name_present(
                        projects@,
                        (#[trigger] all[j]).project_name@,
                    ) by {
                        if j < k {
                            let w = choose|w: int|
                                0 <= w < ps0.len() && (#[trigger] ps0[w]).project@
                                    == all[j].project_name@;
                            if w < p {
                                assert(projects@[w].project@ == all[j].project_name@);
                            } else {
                                assert(projects@[w + 1].project@ == all[j].project_name@);
                            }
                        } else {
                            assert(projects@[p as int].project@ == all[j].project_name@);
                        }
                    }
                }
            }
            k = k + 1;
        }
        proof {
            assert(all.subrange(0, all.len() as int) =~= all);
        }
        // the day's total: the minutes of all its entries
        let mut total: i64 = 0;
        let mut t: usize = 0;
        while t < entries.len()
            invariant
                t <= all.len(),
                total == total_minutes(all.subrange(0, t as int)),
            decreases all.len() - t,
        {
            let ghost pre = all.subrange(0, t as int);
            let ghost post = all.subrange(0, t as int + 1);
            proof {
                assert(post.drop_last() =~= pre);
                assert(post.last() == all[t as int]);
                lemma_total_nonneg(pre);
                lemma_total_prefix(all, t as int + 1);
            }
            let dur = entries[t].to_duration();
            total = total + dur.minutes;
            t = t + 1;
        }
        proof {
            assert(all.subrange(0, all.len() as int) =~= all);
            assert forall|i: int, j: int|
                0 <= i < j < projects@.len() implies (#[trigger] projects@[i]).project@ != (
            #[trigger] projects@[j]).project@ by {
                if projects@[i].project@ == projects@[j].project@ {
                    lemma_lex_irrefl(projects@[i].project@);
                }
            }
            lemma_group_partition(all, projects@);
            lemma_total_nonneg(all);
            assert forall|i: int|
                0 <= i < projects@.len() implies (#[trigger] projects@[i]).duration.minutes
                >= 0 by {
                lemma_sum_for_nonneg(all, projects@[i].project@);
            }
        }
        DayReport { date, total_duration: Duration { minutes: total }, projects }
    }
}

/// The `n` calendar days from `start` on, ascending.
pub open spec fn window(start: Date, n: nat) -> Seq<Date> {
    Seq::new(n, |i: int| add_days(start, i as nat))
}

/// The days of the window whose reports the range report keeps: every day
/// when empty days are included, otherwise the days with at least one entry.
pub open spec fn included_dates(log: TimeLog, start: Date, n: nat, include_empty: bool) -> Seq<
    Date,
>
    decreases n,
{
    if n == 0 {
        Seq::empty()
    } else {
        let prev = included_dates(log, start, (n - 1) as nat, include_empty);
        let d = add_days(start, (n - 1) as nat);
        if include_empty || log.day_entries(d).len() > 0 {
            prev.push(d)
        } else {
            prev
        }
    }
}

/// All minutes filed under the given dates.
pub open spec fn range_total(log: TimeLog, dates: Seq<Date>) -> int
    decreases dates.len(),
{
    if dates.len() == 0 {
        0
    } else {
        range_total(log, dates.drop_last()) + total_minutes(log.day_entries(dates.last()))
    }
}

/// The first day of the window that `report_days` covers: `days - 1` days
/// before the end date, or — for an empty window — the day after it.
pub open spec fn range_start(date: Date, days: nat) -> Date {
    if days == 0 {
        next_date(date)
    } else {
        sub_days(date, (days - 1) as nat)
    }
}

/// One matching day report per date, in the dates' order.
pub open spec fn day_reports_match(log: TimeLog, dates: Seq<Date>, reports: Seq<DayReport>) -> bool {
    &&& reports.len() == dates.len()
    &&& forall|i: int|
        0 <= i < dates.len() ==> (#[trigger] reports[i]).date == dates[i] && day_report_matches(
            log.day_entries(dates[i]),
            dates[i],
            reports[i],
        )
}

/// What the range report over the `days` days ending at `date` says: the
/// window bounds, one matching day report per included day ascending, and the
/// total as the sum of the kept day reports — which is also every minute
/// filed under the window, kept or not.
pub open spec fn range_report_matches(
    log: TimeLog,
    date: Date,
    days: nat,
    include_empty: bool,
    r: DateRangeReport,
) -> bool {
    &&& r.range == (DateRange { start: range_start(date, days), end: date })
    &&& day_reports_match(
        log,
        included_dates(log, range_start(date, days), days, include_empty),
        r.days@,
    )
    &&& r.total_duration.minutes == sum_days(r.days@)
    &&& r.total_duration.minutes == range_total(log, window(range_start(date, days), days))
}

/// One more window day adds exactly that day's minutes.
proof fn lemma_window_unfold(log: TimeLog, start: Date, n: nat)
    requires
        n >= 1,
    ensures
        range_total(log, window(start, n)) == range_total(log, window(start, (n - 1) as nat))
            + total_minutes(log.day_entries(add_days(start, (n - 1) as nat))),
{
    assert(window(start, n).drop_last() =~= window(start, (n - 1) as nat));
    assert(window(start, n).last() == add_days(start, (n - 1) as nat));
}

proof fn lemma_range_total_nonneg(log: TimeLog, dates: Seq<Date>)
    requires
        log.wf(),
    ensures
        range_total(log, dates) >= 0,
    decreases dates.len(),
{
    if dates.len() > 0 {
        lemma_range_total_nonneg(log, dates.drop_last());
        crate::time_log::lemma_day_entries_wf(log, dates.last());
        lemma_total_nonneg(log.day_entries(dates.last()));
    }
}

/// A window holds at least the minutes of any shorter window from the same
/// first day.
proof fn lemma_window_monotone(log: TimeLog, start: Date, k: nat, n: nat)
    requires
        log.wf(),
        k <= n,
    ensures
        range_total(log, window(start, k)) <= range_total(log, window(start, n)),
    decreases n - k,
{
    if k < n {
        lemma_window_unfold(log, start, n);
        crate::time_log::lemma_day_entries_wf(log, add_days(start, (n - 1) as nat));
        lemma_total_nonneg(log.day_entries(add_days(start, (n - 1) as nat)));
        lemma_window_monotone(log, start, k, (n - 1) as nat);
    }
}

impl<'a> ReportCreator<'a> {
    /// The report over the `days` calendar days ending at `date`, both bounds
    /// inclusive: one day report per day, ascending; a day without entries is
    /// kept only when `include_empty_days` asks for it. Zero days give an
    /// empty report with a zero total.
    #[verifier::loop_isolation(false)]
    #[verifier::rlimit(100)]
    pub fn report_days(&self, date: Date, days: u32, include_empty_days: bool) -> (r:
        DateRangeReport)
        requires
            self.log().wf(),
            date.valid(),
            days >= 1 ==> days - 1 <= day_index(date),
            days == 0 ==> date != (Date { year: 9999, month: 12, day: 31 }),
            range_total(
                self.log(),
                window(range_start(date, days as nat), days as nat),
            ) <= i64::MAX,
        ensures
            range_report_matches(self.log(), date, days as nat, include_empty_days, r),
            r.total_duration.minutes >= 0,
            forall|i: int|
                0 <= i < r.days@.len() ==> day_report_renderable(#[trigger] r.days@[i]),
    {
        let ghost log = self.log();
        let start: Date = if days == 0 {
            date.succ()
        } else {
            date.back_days(days - 1)
        };
        let ghost full = range_total(log, window(start, days as nat));
        let mut reports: Vec<DayReport> = Vec::new();
        let mut total: i64 = 0;
        let mut k: u32 = 0;
        let mut curr: Date = start;
        while k < days
            invariant
                k <= days,
                k < days ==> curr == add_days(start, k as nat) && curr.valid() && day_index(curr)
                    == day_index(start) + k,
                day_reports_match(
                    log,
                    included_dates(log, start, k as nat, include_empty_days),
                    reports@,
                ),
                total == range_total(log, window(start, k as nat)),
                total == sum_days(reports@),
                0 <= total,
                forall|i: int|
                    0 <= i < reports@.len() ==> day_report_renderable(#[trigger] reports@[i]),
            decreases days - k,
        {
            proof {
                lemma_window_unfold(log, start, k as nat + 1);
                lemma_window_monotone(log, start, k as nat + 1, days as nat);
                lemma_range_total_nonneg(log, window(start, k as nat));
                crate::time_log::lemma_day_entries_wf(log, curr);
                lemma_total_nonneg(log.day_entries(curr));
            }
            let ghost inc_pre = included_dates(log, start, k as nat, include_empty_days);
            let ghost inc_post = included_dates(log, start, k as nat + 1, include_empty_days);
            let day_list = self.time_log.for_day(&curr);
            if day_list.len() > 0 || include_empty_days {
                let rep = self.report_day(curr);
                proof {
                    assert(inc_post == inc_pre.push(curr));
                    assert(reports@.push(rep).drop_last() =~= reports@);
                }
                total = total + rep.total_duration.minutes;
                reports.push(rep);
            } else {
                proof {
                    assert(inc_post == inc_pre);
                    assert(log.day_entries(curr).len() == 0);
                }
            }
            k = k + 1;
            if k < days {
                proof {
                    if curr == (Date { year: 9999, month: 12, day: 31 }) {
                        crate::calendar::lemma_max_date_index();
                        assert(day_index(curr) < day_index(date));
                    }
                    crate::calendar::lemma_day_index_next(curr);
                }
                let next = curr.succ();
                curr = next;
            }
        }
        proof {
            if days == 0 {
                assert(range_total(log, window(start, 0)) == 0);
            }
        }
        DateRangeReport {
            range: DateRange { start, end: date },
            total_duration: Duration { minutes: total },
            days: reports,
        }
    }
}

/// A name no entry carries sums to nothing.
proof fn lemma_sum_for_absent(entries: Seq<LogEntry>, name: Seq<char>)
    requires
        !has_name(entries, name),
    ensures
        sum_for(entries, name) == 0,
    decreases entries.len(),
{
    if entries.len() > 0 {
        assert(!has_name(entries.drop_last(), name)) by {
            if has_name(entries.drop_last(), name) {
                let j = choose|j: int|
                    0 <= j < entries.drop_last().len() && (#[trigger] entries.drop_last()[j]).project_name@
                        == name;
                assert(entries[j].project_name@ == name);
            }
        }
        lemma_sum_for_absent(entries.drop_last(), name);
        assert(entries[entries.len() - 1].project_name@ != name);
    }
}

} // verus!
