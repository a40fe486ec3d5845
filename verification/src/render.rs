//! Rendering of range reports: an indented text view (one line per day, one
//! indented line per project) and a structured view (the report tree as one
//! document, durations as integer minutes, dates in ISO form).

use vstd::prelude::*;
use vstd::string::StrSliceExecFns;
use vstd::string::StringExecFns;

use crate::calendar::{day_index, Date};
use crate::json_text::{iso_date, json_string, push_char, push_iso_date, push_json_string};
use crate::numtext::{dec_digits, push_decimal};
use crate::pretty_string::{pretty_duration, PrettyString};
use crate::report_creator::{day_report_renderable, DateRangeReport, DayReport, ProjectReport};

verus! {

/// `n` spaces.
pub open spec fn spaces(n: nat) -> Seq<char>
    decreases n,
{
    if n == 0 {
        Seq::empty()
    } else {
        spaces((n - 1) as nat).push(' ')
    }
}

/// `s`, space-padded on the right to at least `w` characters.
pub open spec fn pad_right(s: Seq<char>, w: nat) -> Seq<char> {
    if s.len() >= w {
        s
    } else {
        s + spaces((w - s.len()) as nat)
    }
}

/// The English weekday abbreviation; day 0 of the calendar (0001-01-01) was a
/// Monday.
pub open spec fn weekday_abbrev(w: int) -> Seq<char> {
    if w == 0 { "Mon"@ }
    else if w == 1 { "Tue"@ }
    else if w == 2 { "Wed"@ }
    else if w == 3 { "Thu"@ }
    else if w == 4 { "Fri"@ }
    else if w == 5 { "Sat"@ }
    else { "Sun"@ }
}

/// A day's heading: marker, abbreviated weekday, ISO date, padding, and the
/// day's total in brackets.
pub open spec fn day_line(d: DayReport) -> Seq<char> {
    seq!['\u{276f}', ' '] + weekday_abbrev(day_index(d.date) % 7) + seq!['.', ' '] + iso_date(
        d.date,
    ) + spaces(25) + seq!['['] + pretty_duration(d.total_duration.minutes as int) + seq![
        ']',
        '\n',
    ]
}

/// A project's indented row: marker, padded name, its time in brackets.
pub open spec fn project_line(p: ProjectReport) -> Seq<char> {
    spaces(4) + seq!['\u{276f}', ' '] + pad_right(p.project@, 35) + seq![' ', '[']
        + pretty_duration(p.duration.minutes as int) + seq![']', '\n']
}

pub open spec fn render_projects(ps: Seq<ProjectReport>) -> Seq<char>
    decreases ps.len(),
{
    if ps.len() == 0 {
        Seq::empty()
    } else {
        render_projects(ps.drop_last()) + project_line(ps.last())
    }
}

pub open spec fn day_block(d: DayReport) -> Seq<char> {
    day_line(d) + render_projects(d.projects@)
}

/// The whole text view: each day's heading followed by its project rows.
pub open spec fn render_days(ds: Seq<DayReport>) -> Seq<char>
    decreases ds.len(),
{
    if ds.len() == 0 {
        Seq::empty()
    } else {
        render_days(ds.drop_last()) + day_block(ds.last())
    }
}

fn push_spaces(s: &mut String, n: u64)
    ensures
        final(s)@ == old(s)@ + spaces(n as nat),
    decreases n,
{
    if n > 0 {
        push_spaces(s, n - 1);
        s.append(" ");
        proof {
            reveal_strlit(" ");
            assert(s@ =~= old(s)@ + spaces(n as nat));
        }
    } else {
        proof {
            assert(s@ =~= old(s)@ + spaces(0));
        }
    }
}

fn push_pad_right(s: &mut String, t: &str, w: u64)
    ensures
        final(s)@ == old(s)@ + pad_right(t@, w as nat),
{
    s.append(t);
    let len = t.unicode_len();
    if (len as u64) < w {
        push_spaces(s, w - len as u64);
        proof {
            assert(s@ =~= old(s)@ + pad_right(t@, w as nat));
        }
    }
}

fn push_weekday(s: &mut String, d: &Date)
    requires
        d.valid(),
    ensures
        final(s)@ == old(s)@ + weekday_abbrev(day_index(*d) % 7),
{
    let w = d.index() % 7;
    if w == 0 { s.append("Mon"); }
    else if w == 1 { s.append("Tue"); }
    else if w == 2 { s.append("Wed"); }
    else if w == 3 { s.append("Thu"); }
    else if w == 4 { s.append("Fri"); }
    else if w == 5 { s.append("Sat"); }
    else { s.append("Sun"); }
}

fn push_day_line(s: &mut String, d: &DayReport)
    requires
        d.date.valid(),
        d.total_duration.minutes >= 0,
    ensures
        final(s)@ == old(s)@ + day_line(*d),
{
    push_char(s, '\u{276f}');
    push_char(s, ' ');
    push_weekday(s, &d.date);
    push_char(s, '.');
    push_char(s, ' ');
    push_iso_date(s, &d.date);
    push_spaces(s, 25);
    push_char(s, '[');
    let pretty = d.total_duration.to_pretty_string();
    s.append(pretty.as_str());
    push_char(s, ']');
    push_char(s, '\n');
    proof {
        assert(s@ =~= old(s)@ + day_line(*d));
    }
}

fn push_project_line(s: &mut String, p: &ProjectReport)
    requires
        p.duration.minutes >= 0,
    ensures
        final(s)@ == old(s)@ + project_line(*p),
{
    push_spaces(s, 4);
    push_char(s, '\u{276f}');
    push_char(s, ' ');
    push_pad_right(s, p.project.as_str(), 35);
    push_char(s, ' ');
    push_char(s, '[');
    let pretty = p.duration.to_pretty_string();
    s.append(pretty.as_str());
    push_char(s, ']');
    push_char(s, '\n');
    proof {
        assert(s@ =~= old(s)@ + project_line(*p));
    }
}

impl DateRangeReport {
    /// The text view of the report: day and project lines, nothing else.
    #[verifier::loop_isolation(false)]
    pub fn to_pretty_text(&self) -> (r: String)
        requires
            forall|i: int|
                0 <= i < self.days@.len() ==> day_report_renderable(#[trigger] self.days@[i]),
        ensures
            r@ == render_days(self.days@),
    {
        let mut s = String::new();
        let mut i: usize = 0;
        while i < self.days.len()
            invariant
                i <= self.days@.len(),
                s@ == render_days(self.days@.subrange(0, i as int)),
            decreases self.days@.len() - i,
        {
            let ghost pre = self.days@.subrange(0, i as int);
            let ghost post = self.days@.subrange(0, i as int + 1);
            proof {
                assert(post.drop_last() =~= pre);
                assert(post.last() == self.days@[i as int]);
            }
            let d = &self.days[i];
            push_day_line(&mut s, d);
            let mut p: usize = 0;
            while p < d.projects.len()
                invariant
                    p <= d.projects@.len(),
                    s@ == render_days(pre) + day_line(*d) + render_projects(
                        d.projects@.subrange(0, p as int),
                    ),
                decreases d.projects@.len() - p,
            {
                let ghost ppre = d.projects@.subrange(0, p as int);
                let ghost ppost = d.projects@.subrange(0, p as int + 1);
                proof {
                    assert(ppost.drop_last() =~= ppre);
                    assert(ppost.last() == d.projects@[p as int]);
                }
                push_project_line(&mut s, &d.projects[p]);
                proof {
                    assert(s@ =~= render_days(pre) + day_line(*d) + render_projects(ppost));
                }
                p = p + 1;
            }
            proof {
                assert(d.projects@.subrange(0, d.projects@.len() as int) =~= d.projects@);
                assert(s@ =~= render_days(post));
            }
            i = i + 1;
        }
        proof {
            assert(self.days@.subrange(0, self.days@.len() as int) =~= self.days@);
        }
        s
    }
}

// ---------------------------------------------------------------------------
// The structured view.
// ---------------------------------------------------------------------------

pub open spec fn json_project(p: ProjectReport) -> Seq<char> {
    "{\"project\":"@ + json_string(p.project@) + ",\"duration\":"@ + dec_digits(
        p.duration.minutes as nat,
    ) + "}"@
}

pub open spec fn json_projects(ps: Seq<ProjectReport>) -> Seq<char>
    decreases ps.len(),
{
    if ps.len() == 0 {
        Seq::empty()
    } else if ps.len() == 1 {
        json_project(ps[0])
    } else {
        json_project(ps[0]) + seq![','] + json_projects(ps.skip(1))
    }
}

pub open spec fn json_day(d: DayReport) -> Seq<char> {
    "{\"date\":\""@ + iso_date(d.date) + "\",\"total\":"@ + dec_digits(
        d.total_duration.minutes as nat,
    ) + ",\"projects\":["@ + json_projects(d.projects@) + "]}"@
}

pub open spec fn json_days(ds: Seq<DayReport>) -> Seq<char>
    decreases ds.len(),
{
    if ds.len() == 0 {
        Seq::empty()
    } else if ds.len() == 1 {
        json_day(ds[0])
    } else {
        json_day(ds[0]) + seq![','] + json_days(ds.skip(1))
    }
}

/// The structured view of a whole range report: the window's bounds, the
/// total in minutes, and the day reports in order.
pub open spec fn json_range_report(r: DateRangeReport) -> Seq<char> {
    "{\"range\":{\"start\":\""@ + iso_date(r.range.start) + "\",\"end\":\""@ + iso_date(
        r.range.end,
    ) + "\"},\"total\":"@ + dec_digits(r.total_duration.minutes as nat) + ",\"days\":["@
        + json_days(r.days@) + "]}"@
}

fn push_json_project(s: &mut String, p: &ProjectReport)
    requires
        p.duration.minutes >= 0,
    ensures
        final(s)@ == old(s)@ + json_project(*p),
{
    s.append("{\"project\":");
    push_json_string(s, p.project.as_str());
    s.append(",\"duration\":");
    push_decimal(s, p.duration.minutes as u64);
    s.append("}");
    proof {
        assert(s@ =~= old(s)@ + json_project(*p));
    }
}

fn push_json_projects(s: &mut String, ps: &Vec<ProjectReport>, i: usize)
    requires
        i <= ps@.len(),
        forall|k: int| 0 <= k < ps@.len() ==> (#[trigger] ps@[k]).duration.minutes >= 0,
    ensures
        final(s)@ == old(s)@ + json_projects(ps@.skip(i as int)),
    decreases ps@.len() - i,
{
    if i < ps.len() {
        push_json_project(s, &ps[i]);
        if i + 1 < ps.len() {
            push_char(s, ',');
            push_json_projects(s, ps, i + 1);
        }
        proof {
            let tail = ps@.skip(i as int);
            assert(tail[0] == ps@[i as int]);
            assert(tail.skip(1) =~= ps@.skip(i as int + 1));
            assert(s@ =~= old(s)@ + json_projects(ps@.skip(i as int)));
        }
    } else {
        proof {
            assert(ps@.skip(i as int) =~= Seq::<ProjectReport>::empty());
        }
    }
}

fn push_json_day(s: &mut String, d: &DayReport)
    requires
        day_report_renderable(*d),
    ensures
        final(s)@ == old(s)@ + json_day(*d),
{
    s.append("{\"date\":\"");
    push_iso_date(s, &d.date);
    s.append("\",\"total\":");
    push_decimal(s, d.total_duration.minutes as u64);
    s.append(",\"projects\":[");
    push_json_projects(s, &d.projects, 0);
    s.append("]}");
    proof {
        assert(d.projects@.skip(0) =~= d.projects@);
        assert(s@ =~= old(s)@ + json_day(*d));
    }
}

fn push_json_days(s: &mut String, ds: &Vec<DayReport>, i: usize)
    requires
        i <= ds@.len(),
        forall|k: int| 0 <= k < ds@.len() ==> day_report_renderable(#[trigger] ds@[k]),
    ensures
        final(s)@ == old(s)@ + json_days(ds@.skip(i as int)),
    decreases ds@.len() - i,
{
    if i < ds.len() {
        push_json_day(s, &ds[i]);
        if i + 1 < ds.len() {
            push_char(s, ',');
            push_json_days(s, ds, i + 1);
        }
        proof {
            let tail = ds@.skip(i as int);
            assert(tail[0] == ds@[i as int]);
            assert(tail.skip(1) =~= ds@.skip(i as int + 1));
            assert(s@ =~= old(s)@ + json_days(ds@.skip(i as int)));
        }
    } else {
        proof {
            assert(ds@.skip(i as int) =~= Seq::<DayReport>::empty());
        }
    }
}

impl DateRangeReport {
    /// The structured view of the report, as one document.
    pub fn to_json(&self) -> (r: String)
        requires
            self.total_duration.minutes >= 0,
            forall|i: int|
                0 <= i < self.days@.len() ==> day_report_renderable(#[trigger] self.days@[i]),
        ensures
            r@ == json_range_report(*self),
    {
        let mut s = String::new();
        s.append("{\"range\":{\"start\":\"");
        push_iso_date(&mut s, &self.range.start);
        s.append("\",\"end\":\"");
        push_iso_date(&mut s, &self.range.end);
        s.append("\"},\"total\":");
        push_decimal(&mut s, self.total_duration.minutes as u64);
        s.append(",\"days\":[");
        push_json_days(&mut s, &self.days, 0);
        s.append("]}");
        proof {
            assert(self.days@.skip(0) =~= self.days@);
            assert(s@ =~= json_range_report(*self));
        }
        s
    }
}

} // verus!
