//! A personal time-tracking library: a time-log state machine that keeps at
//! most one pending session plus a day-keyed history of closed entries, a
//! report aggregator that groups and sums those entries per project and per
//! day over a date range, renderers for the reports, and a snapshot codec.
//! All timestamps are injected by the caller, so the core is deterministic.

pub mod calendar;
pub mod cli;
pub mod codec;
pub mod json_text;
pub mod numtext;
pub mod persistence;
pub mod pretty_string;
pub mod render;
pub mod report_creator;
pub mod time_log;

use vstd::prelude::*;
use vstd::string::StrSliceExecFns;
use vstd::string::StringExecFns;

use crate::calendar::{day_index, Date, Timestamp};
use crate::cli::{Opts, Subcommand, DEFAULT_EMPTY_STATUS_MSG, DEFAULT_STATUS_FORMAT};
use crate::json_text::iso_date;
use crate::numtext::pad_digits;
use crate::pretty_string::{pretty_duration, PrettyString};
use crate::render::{json_range_report, render_days};
use crate::report_creator::{range_report_matches, range_start, range_total, window, ReportCreator};
use crate::time_log::TimeLog;

verus! {

/// The user-facing error of the library: a message plus a flag that tells the
/// presentation layer whether the message is a genuine error (standard error)
/// or an expected "nothing to show" state (standard output).
#[derive(Debug)]
pub struct TrackieError {
    msg: String,
    pub print_as_error: bool,
}

impl TrackieError {
    /// The message, as contracts speak of it.
    pub closed spec fn msg_view(&self) -> Seq<char> {
        self.msg@
    }

    /// Whether the message is meant for standard error, as contracts speak of it.
    pub closed spec fn is_error_view(&self) -> bool {
        self.print_as_error
    }

    pub fn new(msg: &str) -> (e: TrackieError)
        ensures
            e.msg_view() == msg@,
            e.is_error_view(),
    {
        TrackieError { msg: msg.to_owned(), print_as_error: true }
    }

    /// The message carried by this error.
    pub fn message(&self) -> (m: &str)
        ensures
            m@ == self.msg_view(),
    {
        self.msg.as_str()
    }
}

/// `s` with every occurrence of `pat` replaced by `sub`, leftmost first,
/// without overlap.
pub open spec fn replace_seq(s: Seq<char>, pat: Seq<char>, sub: Seq<char>) -> Seq<char>
    decreases s.len(),
{
    if pat.len() == 0 || s.len() < pat.len() {
        s
    } else if s.subrange(0, pat.len() as int) == pat {
        sub + replace_seq(s.skip(pat.len() as int), pat, sub)
    } else {
        seq![s[0]] + replace_seq(s.skip(1), pat, sub)
    }
}

/// Whether the text at `i` begins with `pat`.
fn matches_at(s: &str, i: usize, pat: &str) -> (r: bool)
    requires
        i <= s@.len(),
    ensures
        r == (s@.len() - i >= pat@.len() && s@.skip(i as int).subrange(0, pat@.len() as int)
            == pat@),
{
    let n = pat.unicode_len();
    let slen = s.unicode_len();
    if n > slen - i {
        return false;
    }
    let mut k: usize = 0;
    while k < n
        invariant
            i + n <= slen,
            slen == s@.len(),
            n == pat@.len(),
            k <= n,
            forall|q: int| 0 <= q < k ==> s@[i + q] == pat@[q],
        decreases n - k,
    {
        if s.get_char(i + k) != pat.get_char(k) {
            proof {
                if s@.skip(i as int).subrange(0, pat@.len() as int) == pat@ {
                    assert(s@.skip(i as int).subrange(0, pat@.len() as int)[k as int]
                        == pat@[k as int]);
                    assert(s@.skip(i as int)[k as int] == s@[i + k]);
                }
            }
            return false;
        }
        k = k + 1;
    }
    proof {
        assert(s@.skip(i as int).subrange(0, pat@.len() as int) =~= pat@);
    }
    true
}

/// `s` with every occurrence of `pat` replaced by `sub`.
#[verifier::loop_isolation(false)]
pub fn replace_all(s: &str, pat: &str, sub: &str) -> (r: String)
    ensures
        r@ == replace_seq(s@, pat@, sub@),
{
    let slen = s.unicode_len();
    let plen = pat.unicode_len();
    if plen == 0 {
        return s.to_owned();
    }
    let mut out = String::new();
    let mut cur: usize = 0;
    proof {
        assert(s@.skip(0) =~= s@);
        assert(out@ + replace_seq(s@, pat@, sub@) =~= replace_seq(s@, pat@, sub@));
    }
    while cur < slen
        invariant
            cur <= slen,
            replace_seq(s@, pat@, sub@) == out@ + replace_seq(s@.skip(cur as int), pat@, sub@),
        decreases slen - cur,
    {
        let ghost rem = s@.skip(cur as int);
        if matches_at(s, cur, pat) {
            proof {
                assert(rem.skip(pat@.len() as int) =~= s@.skip(cur as int + plen as int));
                assert(replace_seq(rem, pat@, sub@) == sub@ + replace_seq(
                    s@.skip(cur as int + plen as int),
                    pat@,
                    sub@,
                ));
            }
            out.append(sub);
            cur = cur + plen;
            proof {
                assert(replace_seq(s@, pat@, sub@) == out@ + replace_seq(
                    s@.skip(cur as int),
                    pat@,
                    sub@,
                ));
            }
        } else {
            proof {
                assert(rem[0] == s@[cur as int]);
                assert(rem.skip(1) =~= s@.skip(cur as int + 1));
                if rem.len() >= pat@.len() {
                    assert(replace_seq(rem, pat@, sub@) == seq![rem[0]] + replace_seq(
                        rem.skip(1),
                        pat@,
                        sub@,
                    ));
                } else {
                    // too little text is left for another occurrence: what
                    // remains is kept as it is, one character at a time
                    assert(replace_seq(rem, pat@, sub@) == rem);
                    assert(replace_seq(rem.skip(1), pat@, sub@) == rem.skip(1));
                    assert(rem =~= seq![rem[0]] + rem.skip(1));
                }
            }
            crate::json_text::push_char(&mut out, s.get_char(cur));
            cur = cur + 1;
            proof {
                assert(replace_seq(s@, pat@, sub@) == out@ + replace_seq(
                    s@.skip(cur as int),
                    pat@,
                    sub@,
                ));
            }
        }
    }
    proof {
        assert(s@.skip(slen as int).len() == 0);
        assert(replace_seq(s@.skip(slen as int), pat@, sub@) == s@.skip(slen as int));
        assert(out@ =~= replace_seq(s@, pat@, sub@));
    }
    out
}

/// The `HH:MM` text of a minute of the day.
pub open spec fn hm_text(minute: int) -> Seq<char> {
    pad_digits((minute / 60) as nat, 2) + seq![':'] + pad_digits((minute % 60) as nat, 2)
}

fn push_hm(s: &mut String, minute: u16)
    ensures
        final(s)@ == old(s)@ + hm_text(minute as int),
{
    crate::numtext::push_padded(s, (minute / 60) as u64, 2);
    crate::json_text::push_char(s, ':');
    crate::numtext::push_padded(s, (minute % 60) as u64, 2);
    proof {
        assert(s@ =~= old(s)@ + hm_text(minute as int));
    }
}

/// The status line: the format text with `%p` replaced by the project, `%d`
/// by the start date, `%t` by the start time, and `%D` by the elapsed time,
/// in that order.
pub open spec fn status_text(
    fmt: Seq<char>,
    name: Seq<char>,
    start: Timestamp,
    dur_minutes: int,
) -> Seq<char> {
    replace_seq(
        replace_seq(
            replace_seq(replace_seq(fmt, "%p"@, name), "%d"@, iso_date(start.date)),
            "%t"@,
            hm_text(start.minute as int),
        ),
        "%D"@,
        pretty_duration(dur_minutes),
    )
}

/// What one command run hands back: the log to keep, whether it changed, and
/// the lines to show the user.
#[derive(Debug)]
pub struct RunOutput {
    pub log: TimeLog,
    pub modified: bool,
    pub lines: Vec<String>,
}

/// Runs one command against the log as of `now` and hands back the new log,
/// whether it must be persisted, and the output lines. Failures carry the
/// user-facing message; expected empty states (status with nothing tracked)
/// are marked as not being errors.
#[verifier::rlimit(100)]
#[verifier::spinoff_prover]
pub fn run_app(o: Opts, log: TimeLog, now: Timestamp) -> (r: Result<RunOutput, TrackieError>)
    requires
        log.wf(),
        now.valid(),
        log.pending matches Some(p) ==> p.start.instant() <= now.instant(),
        o.sub_cmd matches Subcommand::Start(t) ==> t.project_name@.len() > 0,
        o.sub_cmd matches Subcommand::Report(rc) ==> {
            &&& rc.days >= 1 ==> rc.days - 1 <= day_index(now.date)
            &&& rc.days == 0 ==> now.date != (Date { year: 9999, month: 12, day: 31 })
            &&& range_total(
                log,
                window(range_start(now.date, rc.days as nat), rc.days as nat),
            ) <= i64::MAX
        },
    ensures
        match r {
            Ok(out) => {
                &&& out.log.wf()
                &&& log.grows_to(out.log)
                &&& match o.sub_cmd {
                    Subcommand::Start(t) => {
                        &&& out.modified
                        &&& out.log.pending matches Some(q) && q.project_name@
                            == t.project_name@ && q.start == now
                        &&& match log.pending {
                            None => out.lines@.len() == 1 && out.lines@[0]@
                                == "Tracking time for project "@ + t.project_name@
                                && out.log.days_seq() == log.days_seq(),
                            Some(p) => out.lines@.len() == 2 && out.lines@[0]@
                                == "WARN: Stopping time-tracking for "@ + p.project_name@
                                && out.lines@[1]@ == "Tracking time for project "@
                                + t.project_name@ && out.log.day_entries(now.date)
                                == log.day_entries(now.date).push(
                                crate::time_log::LogEntry {
                                    project_name: p.project_name,
                                    start: p.start,
                                    end: now,
                                },
                            ) && forall|d: Date|
                                d != now.date ==> out.log.day_entries(d) == log.day_entries(d),
                        }
                    },
                    Subcommand::Stop(_) => {
                        &&& out.modified
                        &&& log.pending matches Some(p)
                        &&& out.log.pending is None
                        &&& out.log.day_entries(now.date) == log.day_entries(now.date).push(
                            crate::time_log::LogEntry {
                                project_name: log.pending->Some_0.project_name,
                                start: log.pending->Some_0.start,
                                end: now,
                            },
                        )
                        &&& forall|d: Date|
                            d != now.date ==> out.log.day_entries(d) == log.day_entries(d)
                        &&& out.lines@.len() == 1
                        &&& out.lines@[0]@ == "Tracked "@ + pretty_duration(
                            now.instant() - log.pending->Some_0.start.instant(),
                        ) + " on project "@ + log.pending->Some_0.project_name@
                    },
                    Subcommand::Report(rc) => {
                        &&& !out.modified
                        &&& out.log == log
                        &&& out.lines@.len() == 1
                        &&& exists|rep: crate::report_creator::DateRangeReport|
                            #[trigger] range_report_matches(
                                log,
                                now.date,
                                rc.days as nat,
                                rc.include_empty_days,
                                rep,
                            ) && out.lines@[0]@ == if rc.json {
                                json_range_report(rep)
                            } else {
                                render_days(rep.days@)
                            }
                    },
                    Subcommand::Status(sc) => {
                        &&& !out.modified
                        &&& out.log == log
                        &&& log.pending matches Some(p)
                        &&& out.lines@.len() == 1
                        &&& out.lines@[0]@ == status_text(
                            match sc.format {
                                Some(f) => f@,
                                None => DEFAULT_STATUS_FORMAT@,
                            },
                            p.project_name@,
                            p.start,
                            now.instant() - p.start.instant(),
                        )
                    },
                    Subcommand::Resume(_) => {
                        &&& out.modified
                        &&& log.pending is None
                        &&& log.days_seq().len() > 0
                        &&& out.log.pending matches Some(q) && q.project_name@
                            == log.days_seq().last().entries@.last().project_name@ && q.start
                            == now
                        &&& out.log.days_seq() == log.days_seq()
                        &&& out.lines@.len() == 1
                        &&& out.lines@[0]@ == "Tracking time for project "@
                            + log.days_seq().last().entries@.last().project_name@
                    },
                }
            },
            Err(e) => match o.sub_cmd {
                Subcommand::Start(_) | Subcommand::Report(_) => false,
                Subcommand::Stop(_) => log.pending is None && e.msg_view()
                    == "No time is currently tracked."@ && e.is_error_view(),
                Subcommand::Status(sc) => log.pending is None && !e.is_error_view()
                    && e.msg_view() == (match sc.fallback {
                    Some(f) => f@,
                    None => DEFAULT_EMPTY_STATUS_MSG@,
                }),
                Subcommand::Resume(_) => {
                    ||| (log.pending matches Some(p) && e.msg_view()
                        == "Already tracking time for project "@ + p.project_name@
                        && e.is_error_view())
                    ||| (log.pending is None && log.days_seq().len() == 0 && e.msg_view()
                        == "Unable to find latest time log. Maybe no time was ever tracked?"@
                        && e.is_error_view())
                },
            },
        },
{
    let mut l = log;
    match o.sub_cmd {
        Subcommand::Start(t) => {
            let mut lines: Vec<String> = Vec::new();
            let warn = l.start_log(t.project_name.as_str(), now);
            match warn {
                Some(w) => {
                    let mut first = String::from_str("WARN: ");
                    first.append(w.as_str());
                    proof {
                        reveal_strlit("WARN: ");
                        reveal_strlit("Stopping time-tracking for ");
                        reveal_strlit("WARN: Stopping time-tracking for ");
                        assert(first@ =~= "WARN: Stopping time-tracking for "@
                            + log.pending->Some_0.project_name@);
                    }
                    lines.push(first);
                },
                None => {},
            }
            let mut msg = String::from_str("Tracking time for project ");
            msg.append(t.project_name.as_str());
            lines.push(msg);
            Ok(RunOutput { log: l, modified: true, lines })
        },
        Subcommand::Stop(_) => {
            match l.stop_pending(now) {
                Err(e) => Err(e),
                Ok(stopped) => {
                    let dur = stopped.get_pending_duration(&now);
                    let mut msg = String::from_str("Tracked ");
                    let pretty = dur.to_pretty_string();
                    msg.append(pretty.as_str());
                    msg.append(" on project ");
                    msg.append(stopped.project_name.as_str());
                    let mut lines: Vec<String> = Vec::new();
                    lines.push(msg);
                    proof {
                        assert(lines@[0]@ =~= "Tracked "@ + pretty_duration(
                            now.instant() - log.pending->Some_0.start.instant(),
                        ) + " on project "@ + log.pending->Some_0.project_name@);
                    }
                    Ok(RunOutput { log: l, modified: true, lines })
                },
            }
        },
        Subcommand::Report(rc) => {
            let creator = ReportCreator::new(&l);
            let rep = creator.report_days(now.date, rc.days, rc.include_empty_days);
            let line = if rc.json {
                rep.to_json()
            } else {
                rep.to_pretty_text()
            };
            let mut lines: Vec<String> = Vec::new();
            lines.push(line);
            proof {
                assert(range_report_matches(
                    log,
                    now.date,
                    rc.days as nat,
                    rc.include_empty_days,
                    rep,
                ) && lines@[0]@ == if rc.json {
                    json_range_report(rep)
                } else {
                    render_days(rep.days@)
                });
            }
            Ok(RunOutput { log: l, modified: false, lines })
        },
        Subcommand::Status(sc) => {
            match &l.pending {
                None => {
                    let msg = match sc.fallback {
                        Some(f) => f,
                        None => String::from_str(DEFAULT_EMPTY_STATUS_MSG),
                    };
                    Err(TrackieError { msg, print_as_error: false })
                },
                Some(p) => {
                    let fmt = match &sc.format {
                        Some(f) => f.clone(),
                        None => String::from_str(DEFAULT_STATUS_FORMAT),
                    };
                    let mut date_text = String::new();
                    crate::json_text::push_iso_date(&mut date_text, &p.start.date);
                    let mut time_text = String::new();
                    push_hm(&mut time_text, p.start.minute);
                    let dur = p.get_pending_duration(&now);
                    let dur_text = dur.to_pretty_string();
                    let step1 = replace_all(fmt.as_str(), "%p", p.project_name.as_str());
                    let step2 = replace_all(step1.as_str(), "%d", date_text.as_str());
                    let step3 = replace_all(step2.as_str(), "%t", time_text.as_str());
                    let step4 = replace_all(step3.as_str(), "%D", dur_text.as_str());
                    let mut lines: Vec<String> = Vec::new();
                    lines.push(step4);
                    proof {
                        assert(date_text@ =~= iso_date(l.pending->Some_0.start.date));
                        assert(time_text@ =~= hm_text(l.pending->Some_0.start.minute as int));
                    }
                    Ok(RunOutput { log: l, modified: false, lines })
                },
            }
        },
        Subcommand::Resume(_) => {
            if l.pending.is_some() {
                let name = match &l.pending {
                    Some(p) => p.project_name.clone(),
                    None => String::new(),
                };
                let mut msg = String::from_str("Already tracking time for project ");
                msg.append(name.as_str());
                return Err(TrackieError { msg, print_as_error: true });
            }
            let name: String = match l.get_latest_entry() {
                None => {
                    return Err(
                        TrackieError::new(
                            "Unable to find latest time log. Maybe no time was ever tracked?",
                        ),
                    );
                },
                Some(e) => e.project_name.clone(),
            };
            let warn = l.start_log(name.as_str(), now);
            proof {
                assert(warn is None);
            }
            let mut msg = String::from_str("Tracking time for project ");
            msg.append(name.as_str());
            let mut lines: Vec<String> = Vec::new();
            lines.push(msg);
            Ok(RunOutput { log: l, modified: true, lines })
        },
    }
}

} // verus!
