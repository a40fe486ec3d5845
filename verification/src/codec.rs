//! The persisted snapshot of a time log, and its codec. The format is owned
//! by this library: one document holding the optional pending session and the
//! closed entries keyed by ISO calendar date, with timestamps written as ISO
//! date-times carrying their UTC offset. Reading back a written snapshot
//! gives the log back unchanged.

use vstd::prelude::*;
use vstd::string::StrSliceExecFns;
use vstd::string::StringExecFns;

use crate::calendar::{days_in_month, days_in_month_exec, Date, Timestamp};
use crate::json_text::{
    esc, iso_date, json_string, parse_string_body, push_iso_date, push_json_string,
};
use crate::numtext::{pad_digits, val_of_digits};
use crate::time_log::{DayLog, LogEntry, PendingLog, TimeLog};
use crate::TrackieError;

verus! {

// ---------------------------------------------------------------------------
// The snapshot's content, as plain mathematical values. The codec's reading
// side is stated over these views, since a parser stated in specification
// code cannot build executable strings.
// ---------------------------------------------------------------------------

pub struct PendingView {
    pub name: Seq<char>,
    pub start: Timestamp,
}

pub struct EntryView {
    pub name: Seq<char>,
    pub start: Timestamp,
    pub end: Timestamp,
}

pub struct DayView {
    pub date: Date,
    pub entries: Seq<EntryView>,
}

pub struct LogView {
    pub pending: Option<PendingView>,
    pub days: Seq<DayView>,
}

pub open spec fn entry_view(e: LogEntry) -> EntryView {
    EntryView { name: e.project_name@, start: e.start, end: e.end }
}

pub open spec fn entries_view(es: Seq<LogEntry>) -> Seq<EntryView> {
    es.map_values(|e: LogEntry| entry_view(e))
}

pub open spec fn day_view(dl: DayLog) -> DayView {
    DayView { date: dl.date, entries: entries_view(dl.entries@) }
}

pub open spec fn days_view(ds: Seq<DayLog>) -> Seq<DayView> {
    ds.map_values(|dl: DayLog| day_view(dl))
}

/// Everything observable about a log: the pending session and the entries,
/// day by day, in order.
pub open spec fn view_of(log: TimeLog) -> LogView {
    LogView {
        pending: match log.pending {
            None => None,
            Some(p) => Some(PendingView { name: p.project_name@, start: p.start }),
        },
        days: days_view(log.days_seq()),
    }
}

// ---------------------------------------------------------------------------
// Writing
// ---------------------------------------------------------------------------

/// An ISO date-time with offset, to the minute: `YYYY-MM-DDTHH:MM+HH:MM`.
#[verifier::opaque]
pub open spec fn ser_ts(t: Timestamp) -> Seq<char> {
    let off = if t.offset_min >= 0 { t.offset_min as int } else { -t.offset_min as int };
    iso_date(t.date) + seq!['T'] + pad_digits((t.minute / 60) as nat, 2) + seq![':'] + pad_digits(
        (t.minute % 60) as nat,
        2,
    ) + seq![if t.offset_min >= 0 { '+' } else { '-' }] + pad_digits((off / 60) as nat, 2)
        + seq![':'] + pad_digits((off % 60) as nat, 2)
}

#[verifier::opaque]
pub open spec fn ser_entry(e: LogEntry) -> Seq<char> {
    "{\"project_name\":"@ + json_string(e.project_name@) + ",\"start\":\""@ + ser_ts(e.start)
        + "\",\"end\":\""@ + ser_ts(e.end) + "\"}"@
}

/// One or more entries, comma-separated.
#[verifier::opaque]
pub open spec fn ser_entries(es: Seq<LogEntry>) -> Seq<char>
    decreases es.len(),
{
    if es.len() == 0 {
        Seq::empty()
    } else if es.len() == 1 {
        ser_entry(es[0])
    } else {
        ser_entry(es[0]) + seq![','] + ser_entries(es.skip(1))
    }
}

#[verifier::opaque]
pub open spec fn ser_day(dl: DayLog) -> Seq<char> {
    seq!['"'] + iso_date(dl.date) + "\":["@ + ser_entries(dl.entries@) + seq![']']
}

/// Zero or more days, comma-separated.
#[verifier::opaque]
pub open spec fn ser_days(ds: Seq<DayLog>) -> Seq<char>
    decreases ds.len(),
{
    if ds.len() == 0 {
        Seq::empty()
    } else if ds.len() == 1 {
        ser_day(ds[0])
    } else {
        ser_day(ds[0]) + seq![','] + ser_days(ds.skip(1))
    }
}

#[verifier::opaque]
pub open spec fn ser_pending(p: Option<PendingLog>) -> Seq<char> {
    match p {
        None => "null"@,
        Some(pl) => "{\"project_name\":"@ + json_string(pl.project_name@) + ",\"start\":\""@
            + ser_ts(pl.start) + "\"}"@,
    }
}

/// The whole snapshot document.
#[verifier::opaque]
pub open spec fn ser_log(log: TimeLog) -> Seq<char> {
    "{\"pending\":"@ + ser_pending(log.pending) + ",\"entries\":{"@ + ser_days(log.days_seq())
        + "}}"@
}

// ---------------------------------------------------------------------------
// Reading. The parsers take the text still to be read and give back what they
// read and how many characters they consumed. They accept exactly what the
// writing side produces, and check every well-formedness condition, so that a
// log built from what they read is well formed.
// ---------------------------------------------------------------------------

/// `s` begins with `lit`.
pub open spec fn match_lit(s: Seq<char>, lit: Seq<char>) -> bool {
    s.len() >= lit.len() && s.subrange(0, lit.len() as int) == lit
}

/// The value of the first `w` characters, if they are digits.
pub open spec fn parse_digits(s: Seq<char>, w: nat) -> Option<nat> {
    if s.len() >= w {
        val_of_digits(s.subrange(0, w as int))
    } else {
        None
    }
}

/// Reads `YYYY-MM-DD` as a valid calendar date.
#[verifier::opaque]
pub open spec fn parse_date(s: Seq<char>) -> Option<(Date, nat)> {
    if s.len() >= 10 && s[4] == '-' && s[7] == '-' {
        match (parse_digits(s, 4), parse_digits(s.skip(5), 2), parse_digits(s.skip(8), 2)) {
            (Some(y), Some(m), Some(d)) => {
                if 1 <= y <= 9999 && 1 <= m <= 12 && 1 <= d && d as int <= days_in_month(
                    y as int,
                    m as int,
                ) {
                    Some((Date { year: y as u32, month: m as u8, day: d as u8 }, 10nat))
                } else {
                    None
                }
            },
            _ => None,
        }
    } else {
        None
    }
}

/// Reads `YYYY-MM-DDTHH:MM+HH:MM` as a valid timestamp.
#[verifier::opaque]
pub open spec fn parse_ts(s: Seq<char>) -> Option<(Timestamp, nat)> {
    match parse_date(s) {
        None => None,
        Some((date, _)) => {
            if s.len() >= 22 && s[10] == 'T' && s[13] == ':' && (s[16] == '+' || s[16] == '-')
                && s[19] == ':' {
                match (
                    parse_digits(s.skip(11), 2),
                    parse_digits(s.skip(14), 2),
                    parse_digits(s.skip(17), 2),
                    parse_digits(s.skip(20), 2),
                ) {
                    (Some(hh), Some(mm), Some(oh), Some(om)) => {
                        if hh < 24 && mm < 60 && oh < 24 && om < 60 {
                            let off = (oh * 60 + om) as int;
                            Some(
                                (
                                    Timestamp {
                                        date,
                                        minute: ((hh * 60 + mm) as u16),
                                        offset_min: ((if s[16] == '+' {
                                            off
                                        } else {
                                            -off
                                        }) as i16),
                                    },
                                    22nat,
                                ),
                            )
                        } else {
                            None
                        }
                    },
                    _ => None,
                }
            } else {
                None
            }
        },
    }
}

/// Reads a quoted, escaped string value.
pub open spec fn parse_json_string(s: Seq<char>) -> Option<(Seq<char>, nat)> {
    if s.len() >= 1 && s[0] == '"' {
        match parse_string_body(s.skip(1)) {
            Some((t, n)) => Some((t, (n + 1) as nat)),
            None => None,
        }
    } else {
        None
    }
}

pub open spec fn lit_record_head() -> Seq<char> {
    "{\"project_name\":"@
}

pub open spec fn lit_start_key() -> Seq<char> {
    ",\"start\":\""@
}

pub open spec fn lit_end_key() -> Seq<char> {
    "\",\"end\":\""@
}

pub open spec fn lit_record_tail() -> Seq<char> {
    "\"}"@
}

/// Reads one closed entry, with its conditions: a nonempty name, valid
/// timestamps, the start not after the end.
#[verifier::opaque]
pub open spec fn parse_entry(s: Seq<char>) -> Option<(EntryView, nat)> {
    if !match_lit(s, lit_record_head()) {
        None
    } else {
        let i0 = lit_record_head().len();
        match parse_json_string(s.skip(i0 as int)) {
            None => None,
            Some((name, n1)) => {
                let i1 = i0 + n1;
                if !match_lit(s.skip(i1 as int), lit_start_key()) {
                    None
                } else {
                    let i2 = i1 + lit_start_key().len();
                    match parse_ts(s.skip(i2 as int)) {
                        None => None,
                        Some((start, n2)) => {
                            let i3 = i2 + n2;
                            if !match_lit(s.skip(i3 as int), lit_end_key()) {
                                None
                            } else {
                                let i4 = i3 + lit_end_key().len();
                                match parse_ts(s.skip(i4 as int)) {
                                    None => None,
                                    Some((end, n3)) => {
                                        let i5 = i4 + n3;
                                        if match_lit(s.skip(i5 as int), lit_record_tail())
                                            && name.len() > 0 && start.instant()
                                            <= end.instant() {
                                            Some(
                                                (
                                                    EntryView { name, start, end },
                                                    (i5 + lit_record_tail().len()) as nat,
                                                ),
                                            )
                                        } else {
                                            None
                                        }
                                    },
                                }
                            }
                        },
                    }
                }
            },
        }
    }
}

/// Reads one or more comma-separated entries.
#[verifier::opaque]
pub open spec fn parse_entries(s: Seq<char>) -> Option<(Seq<EntryView>, nat)>
    decreases s.len(),
{
    match parse_entry(s) {
        None => None,
        Some((e, n)) => {
            if n == 0 || n > s.len() {
                None
            } else if n < s.len() && s[n as int] == ',' {
                match parse_entries(s.skip(n as int + 1)) {
                    None => None,
                    Some((es, m)) => Some((seq![e] + es, (n + 1 + m) as nat)),
                }
            } else {
                Some((seq![e], n))
            }
        },
    }
}

pub open spec fn lit_day_mid() -> Seq<char> {
    "\":["@
}

/// Reads one day: its quoted date, then its entries, each of which must have
/// ended on that day.
#[verifier::opaque]
pub open spec fn parse_day(s: Seq<char>) -> Option<(DayView, nat)> {
    if !(s.len() >= 1 && s[0] == '"') {
        None
    } else {
        match parse_date(s.skip(1)) {
            None => None,
            Some((date, _)) => {
                if !match_lit(s.skip(11), lit_day_mid()) {
                    None
                } else {
                    let i = 11 + lit_day_mid().len();
                    match parse_entries(s.skip(i as int)) {
                        None => None,
                        Some((es, n)) => {
                            let j = i + n;
                            if j < s.len() && s[j as int] == ']' && (forall|k: int|
                                0 <= k < es.len() ==> (#[trigger] es[k]).end.date == date) {
                                Some((DayView { date, entries: es }, (j + 1) as nat))
                            } else {
                                None
                            }
                        },
                    }
                }
            },
        }
    }
}

/// Reads zero or more comma-separated days; a following `}` ends the list.
#[verifier::opaque]
pub open spec fn parse_days(s: Seq<char>) -> Option<(Seq<DayView>, nat)>
    decreases s.len(),
{
    if s.len() >= 1 && s[0] == '}' {
        Some((Seq::empty(), 0nat))
    } else {
        match parse_day(s) {
            None => None,
            Some((d, n)) => {
                if n == 0 || n > s.len() {
                    None
                } else if n < s.len() && s[n as int] == ',' {
                    match parse_days(s.skip(n as int + 1)) {
                        None => None,
                        Some((ds, m)) => {
                            if ds.len() == 0 {
                                None
                            } else {
                                Some((seq![d] + ds, (n + 1 + m) as nat))
                            }
                        },
                    }
                } else {
                    Some((seq![d], n))
                }
            },
        }
    }
}

pub open spec fn lit_null() -> Seq<char> {
    "null"@
}

/// Reads the pending session: `null`, or a record with a nonempty name and a
/// valid start.
#[verifier::opaque]
pub open spec fn parse_pending(s: Seq<char>) -> Option<(Option<PendingView>, nat)> {
    if match_lit(s, lit_null()) {
        Some((None, lit_null().len()))
    } else if match_lit(s, lit_record_head()) {
        let i0 = lit_record_head().len();
        match parse_json_string(s.skip(i0 as int)) {
            None => None,
            Some((name, n1)) => {
                let i1 = i0 + n1;
                if !match_lit(s.skip(i1 as int), lit_start_key()) {
                    None
                } else {
                    let i2 = i1 + lit_start_key().len();
                    match parse_ts(s.skip(i2 as int)) {
                        None => None,
                        Some((start, n2)) => {
                            let i3 = i2 + n2;
                            if match_lit(s.skip(i3 as int), lit_record_tail()) && name.len()
                                > 0 {
                                Some(
                                    (
                                        Some(PendingView { name, start }),
                                        (i3 + lit_record_tail().len()) as nat,
                                    ),
                                )
                            } else {
                                None
                            }
                        },
                    }
                }
            },
        }
    } else {
        None
    }
}

pub open spec fn lit_log_head() -> Seq<char> {
    "{\"pending\":"@
}

pub open spec fn lit_log_mid() -> Seq<char> {
    ",\"entries\":{"@
}

pub open spec fn lit_log_tail() -> Seq<char> {
    "}}"@
}

/// Days in strictly ascending calendar order, on the views.
pub open spec fn view_days_sorted(ds: Seq<DayView>) -> bool {
    forall|i: int, j: int|
        0 <= i < j < ds.len() ==> (#[trigger] ds[i]).date.lt(#[trigger] ds[j].date)
}

/// Reads a whole snapshot document; the text must hold nothing else, and the
/// days must come in ascending order.
#[verifier::opaque]
pub open spec fn parse_log(s: Seq<char>) -> Option<LogView> {
    if !match_lit(s, lit_log_head()) {
        None
    } else {
        let h = lit_log_head().len();
        match parse_pending(s.skip(h as int)) {
            None => None,
            Some((p, n1)) => {
                let i = h + n1;
                if !match_lit(s.skip(i as int), lit_log_mid()) {
                    None
                } else {
                    let j = i + lit_log_mid().len();
                    match parse_days(s.skip(j as int)) {
                        None => None,
                        Some((ds, n2)) => {
                            let k = j + n2;
                            if match_lit(s.skip(k as int), lit_log_tail()) && k
                                + lit_log_tail().len() == s.len() && view_days_sorted(ds) {
                                Some(LogView { pending: p, days: ds })
                            } else {
                                None
                            }
                        },
                    }
                }
            },
        }
    }
}

// ---------------------------------------------------------------------------
// Reading back what was written gives the same values.
// ---------------------------------------------------------------------------

/// Splitting a concatenation at the seam.
proof fn lemma_chop(s: Seq<char>, a: Seq<char>, b: Seq<char>)
    requires
        s == a + b,
    ensures
        match_lit(s, a),
        s.skip(a.len() as int) == b,
        s.len() == a.len() + b.len(),
{
    assert(s.subrange(0, a.len() as int) =~= a);
    assert(s.skip(a.len() as int) =~= b);
}

/// A fixed-width window of digits reads back as its value.
proof fn lemma_parse_digits(v: nat, w: nat, rest: Seq<char>)
    requires
        v < crate::numtext::pow10(w),
    ensures
        parse_digits(pad_digits(v, w) + rest, w) == Some(v),
{
    crate::numtext::lemma_pad_digits_len(v, w);
    assert((pad_digits(v, w) + rest).subrange(0, w as int) =~= pad_digits(v, w));
    crate::numtext::lemma_pad_digits_round_trip(v, w);
}

proof fn lemma_pow10_small()
    ensures
        crate::numtext::pow10(2) == 100,
        crate::numtext::pow10(4) == 10000,
{
    reveal_with_fuel(crate::numtext::pow10, 5);
}

/// An ISO date reads back as the date it was written from.
proof fn lemma_parse_date(d: Date, rest: Seq<char>)
    requires
        d.valid(),
    ensures
        parse_date(iso_date(d) + rest) == Some((d, 10nat)),
{
    reveal(parse_date);
    let s = iso_date(d) + rest;
    lemma_pow10_small();
    crate::numtext::lemma_pad_digits_len(d.year as nat, 4);
    crate::numtext::lemma_pad_digits_len(d.month as nat, 2);
    crate::numtext::lemma_pad_digits_len(d.day as nat, 2);
    assert(iso_date(d).len() == 10);
    assert(s[4] == '-');
    assert(s[7] == '-');
    assert(s.subrange(0, 4) =~= pad_digits(d.year as nat, 4));
    crate::numtext::lemma_pad_digits_round_trip(d.year as nat, 4);
    assert(s.skip(5).subrange(0, 2) =~= pad_digits(d.month as nat, 2));
    crate::numtext::lemma_pad_digits_round_trip(d.month as nat, 2);
    assert(s.skip(8).subrange(0, 2) =~= pad_digits(d.day as nat, 2));
    crate::numtext::lemma_pad_digits_round_trip(d.day as nat, 2);
    assert(parse_digits(s, 4) == Some(d.year as nat));
    assert(parse_digits(s.skip(5), 2) == Some(d.month as nat));
    assert(parse_digits(s.skip(8), 2) == Some(d.day as nat));
}

proof fn lemma_ser_ts_len(t: Timestamp)
    ensures
        ser_ts(t).len() == 22,
{
    reveal(ser_ts);
    crate::numtext::lemma_pad_digits_len(t.date.year as nat, 4);
    crate::numtext::lemma_pad_digits_len(t.date.month as nat, 2);
    crate::numtext::lemma_pad_digits_len(t.date.day as nat, 2);
    crate::numtext::lemma_pad_digits_len((t.minute / 60) as nat, 2);
    crate::numtext::lemma_pad_digits_len((t.minute % 60) as nat, 2);
    let off = if t.offset_min >= 0 { t.offset_min as int } else { -t.offset_min as int };
    crate::numtext::lemma_pad_digits_len((off / 60) as nat, 2);
    crate::numtext::lemma_pad_digits_len((off % 60) as nat, 2);
}

/// A written timestamp reads back as itself.
proof fn lemma_parse_ts(t: Timestamp, rest: Seq<char>)
    requires
        t.valid(),
    ensures
        parse_ts(ser_ts(t) + rest) == Some((t, 22nat)),
{
    reveal(parse_ts);
    reveal(ser_ts);
    let s = ser_ts(t) + rest;
    let off = if t.offset_min >= 0 { t.offset_min as int } else { -t.offset_min as int };
    let hh = (t.minute / 60) as nat;
    let mm = (t.minute % 60) as nat;
    let oh = (off / 60) as nat;
    let om = (off % 60) as nat;
    let sign = if t.offset_min >= 0 { '+' } else { '-' };
    let tail = seq!['T'] + pad_digits(hh, 2) + seq![':'] + pad_digits(mm, 2) + seq![sign]
        + pad_digits(oh, 2) + seq![':'] + pad_digits(om, 2) + rest;
    lemma_pow10_small();
    crate::numtext::lemma_pad_digits_len(t.date.year as nat, 4);
    crate::numtext::lemma_pad_digits_len(t.date.month as nat, 2);
    crate::numtext::lemma_pad_digits_len(t.date.day as nat, 2);
    crate::numtext::lemma_pad_digits_len(hh, 2);
    crate::numtext::lemma_pad_digits_len(mm, 2);
    crate::numtext::lemma_pad_digits_len(oh, 2);
    crate::numtext::lemma_pad_digits_len(om, 2);
    assert(iso_date(t.date).len() == 10);
    assert(s =~= iso_date(t.date) + tail);
    lemma_parse_date(t.date, tail);
    assert(parse_date(s) == Some((t.date, 10nat)));
    assert(s[10] == 'T');
    assert(s[13] == ':');
    assert(s[16] == sign);
    assert(s[19] == ':');
    assert(s.skip(11).subrange(0, 2) =~= pad_digits(hh, 2));
    assert(s.skip(14).subrange(0, 2) =~= pad_digits(mm, 2));
    assert(s.skip(17).subrange(0, 2) =~= pad_digits(oh, 2));
    assert(s.skip(20).subrange(0, 2) =~= pad_digits(om, 2));
    crate::numtext::lemma_pad_digits_round_trip(hh, 2);
    crate::numtext::lemma_pad_digits_round_trip(mm, 2);
    crate::numtext::lemma_pad_digits_round_trip(oh, 2);
    crate::numtext::lemma_pad_digits_round_trip(om, 2);
    assert(parse_digits(s.skip(11), 2) == Some(hh));
    assert(parse_digits(s.skip(14), 2) == Some(mm));
    assert(parse_digits(s.skip(17), 2) == Some(oh));
    assert(parse_digits(s.skip(20), 2) == Some(om));
    assert(hh * 60 + mm == t.minute) by {
        vstd::arithmetic::div_mod::lemma_fundamental_div_mod(t.minute as int, 60);
    }
    assert(oh * 60 + om == off) by {
        vstd::arithmetic::div_mod::lemma_fundamental_div_mod(off, 60);
    }
    assert(hh < 24 && mm < 60 && oh < 24 && om < 60) by {
        vstd::arithmetic::div_mod::lemma_mod_bound(t.minute as int, 60);
        vstd::arithmetic::div_mod::lemma_mod_bound(off, 60);
    }
}

/// A written string value reads back as itself.
proof fn lemma_parse_json_string(t: Seq<char>, rest: Seq<char>)
    ensures
        parse_json_string(json_string(t) + rest) == Some((t, (esc(t).len() + 2) as nat)),
        json_string(t).len() == esc(t).len() + 2,
{
    let s = json_string(t) + rest;
    assert(s[0] == '"');
    assert(s.skip(1) =~= esc(t) + seq!['"'] + rest);
    crate::json_text::lemma_esc_round_trip(t, rest);
}

/// Skipping twice is skipping once by the sum.
proof fn lemma_skip_skip(s: Seq<char>, i: int, j: int)
    requires
        0 <= i,
        0 <= j,
        i + j <= s.len(),
    ensures
        s.skip(i).skip(j) == s.skip(i + j),
{
    assert(s.skip(i).skip(j) =~= s.skip(i + j));
}

/// A record's common head — `{"project_name":` name `,"start":"` timestamp —
/// reads back field by field.
#[verifier::rlimit(100)]
#[verifier::spinoff_prover]
proof fn lemma_record_prefix(s: Seq<char>, name: Seq<char>, start: Timestamp, tail: Seq<char>)
    requires
        start.valid(),
        s == lit_record_head() + json_string(name) + lit_start_key() + ser_ts(start) + tail,
    ensures
        match_lit(s, lit_record_head()),
        parse_json_string(s.skip(lit_record_head().len() as int)) == Some(
            (name, (esc(name).len() + 2) as nat),
        ),
        match_lit(
            s.skip((lit_record_head().len() + esc(name).len() + 2) as int),
            lit_start_key(),
        ),
        parse_ts(
            s.skip(
                (lit_record_head().len() + esc(name).len() + 2 + lit_start_key().len()) as int,
            ),
        ) == Some((start, 22nat)),
        s.skip(
            (lit_record_head().len() + esc(name).len() + 2 + lit_start_key().len() + 22) as int,
        ) == tail,
        s.len() == lit_record_head().len() + esc(name).len() + 2 + lit_start_key().len() + 22
            + tail.len(),
{
    let j = json_string(name);
    let r2 = lit_start_key() + ser_ts(start) + tail;
    let r3 = ser_ts(start) + tail;
    let i0 = lit_record_head().len() as int;
    lemma_parse_json_string(name, r2);
    lemma_ser_ts_len(start);
    assert(s =~= lit_record_head() + (j + r2));
    lemma_chop(s, lit_record_head(), j + r2);
    assert(s.skip(i0) == j + r2);
    lemma_chop(j + r2, j, r2);
    lemma_skip_skip(s, i0, j.len() as int);
    let i1 = i0 + j.len() as int;
    assert(s.skip(i1) == r2);
    assert(r2 =~= lit_start_key() + r3);
    lemma_chop(r2, lit_start_key(), r3);
    lemma_skip_skip(s, i1, lit_start_key().len() as int);
    let i2 = i1 + lit_start_key().len() as int;
    assert(s.skip(i2) == r3);
    lemma_parse_ts(start, tail);
    assert(r3 =~= ser_ts(start) + tail);
    lemma_chop(r3, ser_ts(start), tail);
    lemma_skip_skip(s, i2, 22);
    assert(s.skip(i2 + 22) == tail);
}

/// A written entry reads back as its view.
#[verifier::rlimit(100)]
#[verifier::spinoff_prover]
proof fn lemma_parse_entry(e: LogEntry, rest: Seq<char>)
    requires
        e.valid(),
    ensures
        parse_entry(ser_entry(e) + rest) == Some((entry_view(e), ser_entry(e).len() as nat)),
        ser_entry(e).len() > 0,
{
    reveal(parse_entry);
    reveal(ser_entry);
    let s = ser_entry(e) + rest;
    let name = e.project_name@;
    let t4 = lit_end_key() + ser_ts(e.end) + lit_record_tail() + rest;
    let r5 = ser_ts(e.end) + lit_record_tail() + rest;
    let r6 = lit_record_tail() + rest;
    assert(s =~= lit_record_head() + json_string(name) + lit_start_key() + ser_ts(e.start)
        + t4);
    lemma_record_prefix(s, name, e.start, t4);
    let i3 = (lit_record_head().len() + esc(name).len() + 2 + lit_start_key().len() + 22) as int;
    assert(s.skip(i3) == t4);
    assert(t4 =~= lit_end_key() + r5);
    lemma_chop(t4, lit_end_key(), r5);
    lemma_skip_skip(s, i3, lit_end_key().len() as int);
    let i4 = i3 + lit_end_key().len() as int;
    assert(s.skip(i4) == r5);
    lemma_parse_ts(e.end, r6);
    assert(r5 =~= ser_ts(e.end) + r6);
    assert(parse_ts(s.skip(i4)) == Some((e.end, 22nat)));
    lemma_ser_ts_len(e.end);
    lemma_chop(r5, ser_ts(e.end), r6);
    lemma_skip_skip(s, i4, 22);
    let i5 = i4 + 22;
    assert(s.skip(i5) == r6);
    lemma_chop(r6, lit_record_tail(), rest);
    assert(match_lit(s.skip(i5), lit_record_tail()));
    reveal_strlit("{\"project_name\":");
    reveal_strlit("\"}");
    assert(ser_entry(e).len() == i5 + lit_record_tail().len());
    assert(parse_entry(s) == Some((entry_view(e), ser_entry(e).len() as nat)));
}

/// A written entry list reads back as its views.
#[verifier::rlimit(100)]
#[verifier::spinoff_prover]
proof fn lemma_parse_entries(es: Seq<LogEntry>, rest: Seq<char>)
    requires
        es.len() >= 1,
        forall|k: int| 0 <= k < es.len() ==> (#[trigger] es[k]).valid(),
        rest.len() >= 1,
        rest[0] == ']',
    ensures
        parse_entries(ser_entries(es) + rest) == Some(
            (entries_view(es), ser_entries(es).len() as nat),
        ),
    decreases es.len(),
{
    reveal(parse_entries);
    reveal(ser_entries);
    let s = ser_entries(es) + rest;
    if es.len() == 1 {
        assert(ser_entries(es) == ser_entry(es[0]));
        lemma_parse_entry(es[0], rest);
        let n = ser_entry(es[0]).len() as int;
        lemma_chop(s, ser_entry(es[0]), rest);
        assert(s[n] == rest[0]);
        assert(entries_view(es) =~= seq![entry_view(es[0])]);
    } else {
        let head = ser_entry(es[0]);
        let tail = ser_entries(es.skip(1));
        let r1 = seq![','] + tail + rest;
        assert(ser_entries(es) == head + seq![','] + tail);
        assert(s =~= head + r1);
        lemma_parse_entry(es[0], r1);
        assert(parse_entry(s) == Some((entry_view(es[0]), head.len() as nat)));
        let n = head.len() as int;
        lemma_chop(s, head, r1);
        assert(s[n] == ',');
        lemma_skip_skip(s, n, 1);
        assert(r1.skip(1) =~= tail + rest);
        assert(s.skip(n + 1) == tail + rest);
        assert forall|k: int| 0 <= k < es.skip(1).len() implies (#[trigger] es.skip(1)[k]).valid() by {
            assert(es.skip(1)[k] == es[k + 1]);
        }
        lemma_parse_entries(es.skip(1), rest);
        assert(seq![entry_view(es[0])] + entries_view(es.skip(1)) =~= entries_view(es)) by {
            assert forall|k: int| 0 <= k < es.len() - 1 implies entries_view(es.skip(1))[k]
                == entries_view(es)[k + 1] by {
                assert(es.skip(1)[k] == es[k + 1]);
            }
        }
        assert(parse_entries(s) == Some((entries_view(es), ser_entries(es).len() as nat)));
    }
}

/// A written day reads back as its view.
#[verifier::rlimit(100)]
#[verifier::spinoff_prover]
proof fn lemma_parse_day(dl: DayLog, rest: Seq<char>)
    requires
        dl.wf(),
        rest.len() >= 1,
        rest[0] == ',' || rest[0] == '}',
    ensures
        parse_day(ser_day(dl) + rest) == Some((day_view(dl), ser_day(dl).len() as nat)),
        ser_day(dl).len() > 0,
        (ser_day(dl) + rest)[0] == '"',
{
    reveal(parse_day);
    reveal(ser_day);
    let s = ser_day(dl) + rest;
    let close = seq![']'] + rest;
    let r1 = iso_date(dl.date) + lit_day_mid() + ser_entries(dl.entries@) + close;
    let r2 = lit_day_mid() + ser_entries(dl.entries@) + close;
    let r3 = ser_entries(dl.entries@) + close;
    assert(s =~= seq!['"'] + r1);
    lemma_chop(s, seq!['"'], r1);
    assert(s[0] == '"');
    assert(s.skip(1) == r1);
    assert(r1 =~= iso_date(dl.date) + r2);
    lemma_parse_date(dl.date, r2);
    assert(parse_date(s.skip(1)) == Some((dl.date, 10nat)));
    lemma_chop(r1, iso_date(dl.date), r2);
    crate::numtext::lemma_pad_digits_len(dl.date.year as nat, 4);
    crate::numtext::lemma_pad_digits_len(dl.date.month as nat, 2);
    crate::numtext::lemma_pad_digits_len(dl.date.day as nat, 2);
    assert(iso_date(dl.date).len() == 10);
    lemma_skip_skip(s, 1, 10);
    assert(s.skip(11) == r2);
    assert(r2 =~= lit_day_mid() + r3);
    lemma_chop(r2, lit_day_mid(), r3);
    lemma_skip_skip(s, 11, lit_day_mid().len() as int);
    let i = 11 + lit_day_mid().len() as int;
    assert(s.skip(i) == r3);
    lemma_parse_entries(dl.entries@, close);
    assert(parse_entries(s.skip(i)) == Some(
        (entries_view(dl.entries@), ser_entries(dl.entries@).len() as nat),
    ));
    let n = ser_entries(dl.entries@).len() as int;
    let j = i + n;
    lemma_chop(r3, ser_entries(dl.entries@), close);
    lemma_skip_skip(s, i, n);
    assert(s.skip(j) == close);
    assert(s[j] == ']');
    assert forall|k: int|
        0 <= k < entries_view(dl.entries@).len() implies (#[trigger] entries_view(
        dl.entries@,
    )[k]).end.date == dl.date by {
        assert(entries_view(dl.entries@)[k] == entry_view(dl.entries@[k]));
    }
    assert(ser_day(dl).len() == j + 1);
    assert(day_view(dl).entries == entries_view(dl.entries@));
    assert(parse_day(s) == Some((day_view(dl), ser_day(dl).len() as nat)));
}

/// A written day list reads back as its views.
#[verifier::rlimit(100)]
#[verifier::spinoff_prover]
proof fn lemma_parse_days(ds: Seq<DayLog>, rest: Seq<char>)
    requires
        forall|k: int| 0 <= k < ds.len() ==> (#[trigger] ds[k]).wf(),
        rest.len() >= 1,
        rest[0] == '}',
    ensures
        parse_days(ser_days(ds) + rest) == Some((days_view(ds), ser_days(ds).len() as nat)),
    decreases ds.len(),
{
    reveal(parse_days);
    reveal(ser_days);
    let s = ser_days(ds) + rest;
    if ds.len() == 0 {
        assert(ser_days(ds) =~= Seq::<char>::empty());
        assert(s =~= rest);
        assert(days_view(ds) =~= Seq::<DayView>::empty());
    } else if ds.len() == 1 {
        assert(ser_days(ds) == ser_day(ds[0]));
        lemma_parse_day(ds[0], rest);
        assert(s[0] == '"');
        let n = ser_day(ds[0]).len() as int;
        lemma_chop(s, ser_day(ds[0]), rest);
        assert(s[n] == rest[0]);
        assert(days_view(ds) =~= seq![day_view(ds[0])]);
    } else {
        let head = ser_day(ds[0]);
        let tail = ser_days(ds.skip(1));
        let r1 = seq![','] + tail + rest;
        assert(ser_days(ds) == head + seq![','] + tail);
        assert(s =~= head + r1);
        lemma_parse_day(ds[0], r1);
        assert(s[0] == '"');
        assert(parse_day(s) == Some((day_view(ds[0]), head.len() as nat)));
        let n = head.len() as int;
        lemma_chop(s, head, r1);
        assert(s[n] == ',');
        lemma_skip_skip(s, n, 1);
        assert(r1.skip(1) =~= tail + rest);
        assert(s.skip(n + 1) == tail + rest);
        assert forall|k: int| 0 <= k < ds.skip(1).len() implies (#[trigger] ds.skip(1)[k]).wf() by {
            assert(ds.skip(1)[k] == ds[k + 1]);
        }
        lemma_parse_days(ds.skip(1), rest);
        assert(days_view(ds.skip(1)).len() == ds.len() - 1);
        assert(seq![day_view(ds[0])] + days_view(ds.skip(1)) =~= days_view(ds)) by {
            assert forall|k: int| 0 <= k < ds.len() - 1 implies days_view(ds.skip(1))[k]
                == days_view(ds)[k + 1] by {
                assert(ds.skip(1)[k] == ds[k + 1]);
            }
        }
        assert(parse_days(s) == Some((days_view(ds), ser_days(ds).len() as nat)));
    }
}

/// The pending session's view.
pub open spec fn pending_view(p: Option<PendingLog>) -> Option<PendingView> {
    match p {
        None => None,
        Some(pl) => Some(PendingView { name: pl.project_name@, start: pl.start }),
    }
}

/// A written pending session reads back as its view.
#[verifier::rlimit(100)]
#[verifier::spinoff_prover]
proof fn lemma_parse_pending(p: Option<PendingLog>, rest: Seq<char>)
    requires
        p matches Some(pl) ==> pl.valid(),
    ensures
        parse_pending(ser_pending(p) + rest) == Some(
            (pending_view(p), ser_pending(p).len() as nat),
        ),
{
    reveal(parse_pending);
    reveal(ser_pending);
    reveal_strlit("null");
    reveal_strlit("{\"project_name\":");
    let s = ser_pending(p) + rest;
    match p {
        None => {
            lemma_chop(s, lit_null(), rest);
        },
        Some(pl) => {
            let name = pl.project_name@;
            let tail = lit_record_tail() + rest;
            assert(s =~= lit_record_head() + json_string(name) + lit_start_key() + ser_ts(
                pl.start,
            ) + tail);
            lemma_record_prefix(s, name, pl.start, tail);
            assert(!match_lit(s, lit_null())) by {
                if match_lit(s, lit_null()) {
                    assert(s.subrange(0, 4)[0] == s[0]);
                    assert(s[0] == 'n');
                    assert(s.subrange(0, lit_record_head().len() as int)[0] == s[0]);
                    assert(s[0] == '{');
                }
            }
            let i3 = (lit_record_head().len() + esc(name).len() + 2 + lit_start_key().len()
                + 22) as int;
            assert(s.skip(i3) == tail);
            lemma_chop(tail, lit_record_tail(), rest);
            assert(match_lit(s.skip(i3), lit_record_tail()));
            assert(ser_pending(p).len() == i3 + lit_record_tail().len());
            assert(parse_pending(s) == Some((pending_view(p), ser_pending(p).len() as nat)));
        },
    }
}

/// Reading back a written snapshot gives the log's whole observable state:
/// the same pending session and the same entries, day for day, in order.
#[verifier::rlimit(100)]
#[verifier::spinoff_prover]
pub proof fn lemma_snapshot_round_trip(log: TimeLog)
    requires
        log.wf(),
    ensures
        parse_log(ser_log(log)) == Some(view_of(log)),
{
    reveal(parse_log);
    reveal(ser_log);
    reveal(ser_pending);
    reveal(ser_days);
    reveal_strlit("}}");
    let s = ser_log(log);
    let p = ser_pending(log.pending);
    let d = ser_days(log.days_seq());
    let r1 = p + lit_log_mid() + d + lit_log_tail();
    let r2 = lit_log_mid() + d + lit_log_tail();
    let r3 = d + lit_log_tail();
    assert(s =~= lit_log_head() + r1);
    lemma_chop(s, lit_log_head(), r1);
    let h = lit_log_head().len() as int;
    assert(s.skip(h) == r1);
    assert(r1 =~= p + r2);
    lemma_parse_pending(log.pending, r2);
    assert(parse_pending(s.skip(h)) == Some((pending_view(log.pending), p.len() as nat)));
    lemma_chop(r1, p, r2);
    lemma_skip_skip(s, h, p.len() as int);
    let i = h + p.len() as int;
    assert(s.skip(i) == r2);
    assert(r2 =~= lit_log_mid() + r3);
    lemma_chop(r2, lit_log_mid(), r3);
    lemma_skip_skip(s, i, lit_log_mid().len() as int);
    let j = i + lit_log_mid().len() as int;
    assert(s.skip(j) == r3);
    assert(lit_log_tail()[0] == '}');
    lemma_parse_days(log.days_seq(), lit_log_tail());
    assert(r3 == ser_days(log.days_seq()) + lit_log_tail());
    assert(parse_days(s.skip(j)) == Some(
        (days_view(log.days_seq()), ser_days(log.days_seq()).len() as nat),
    ));
    lemma_chop(r3, d, lit_log_tail());
    lemma_skip_skip(s, j, d.len() as int);
    let k = j + d.len() as int;
    assert(s.skip(k) == lit_log_tail());
    assert(match_lit(s.skip(k), lit_log_tail())) by {
        assert(lit_log_tail().subrange(0, 2) =~= lit_log_tail());
    }
    assert(k + lit_log_tail().len() == s.len());
    assert(view_days_sorted(days_view(log.days_seq()))) by {
        assert forall|a: int, b: int|
            0 <= a < b < days_view(log.days_seq()).len() implies (#[trigger] days_view(
            log.days_seq(),
        )[a]).date.lt(#[trigger] days_view(log.days_seq())[b].date) by {
            assert(days_view(log.days_seq())[a] == day_view(log.days_seq()[a]));
            assert(days_view(log.days_seq())[b] == day_view(log.days_seq()[b]));
        }
    }
    assert(view_of(log).days == days_view(log.days_seq()));
    assert(view_of(log).pending == pending_view(log.pending));
    assert(parse_log(s) == Some(view_of(log)));
}

/// Appends `YYYY-MM-DDTHH:MM+HH:MM` for `t`.
fn push_ts(s: &mut String, t: &Timestamp)
    requires
        t.valid(),
    ensures
        final(s)@ == old(s)@ + ser_ts(*t),
{
    proof {
        reveal(ser_ts);
    }
    push_iso_date(s, &t.date);
    crate::json_text::push_char(s, 'T');
    crate::numtext::push_padded(s, (t.minute / 60) as u64, 2);
    crate::json_text::push_char(s, ':');
    crate::numtext::push_padded(s, (t.minute % 60) as u64, 2);
    let off: u64;
    if t.offset_min >= 0 {
        crate::json_text::push_char(s, '+');
        off = t.offset_min as u64;
    } else {
        crate::json_text::push_char(s, '-');
        off = (-(t.offset_min as i64)) as u64;
    }
    crate::numtext::push_padded(s, off / 60, 2);
    crate::json_text::push_char(s, ':');
    crate::numtext::push_padded(s, off % 60, 2);
    proof {
        assert(s@ =~= old(s)@ + ser_ts(*t));
    }
}

fn push_entry(s: &mut String, e: &LogEntry)
    requires
        e.valid(),
    ensures
        final(s)@ == old(s)@ + ser_entry(*e),
{
    proof {
        reveal(ser_entry);
    }
    s.append("{\"project_name\":");
    push_json_string(s, e.project_name.as_str());
    s.append(",\"start\":\"");
    push_ts(s, &e.start);
    s.append("\",\"end\":\"");
    push_ts(s, &e.end);
    s.append("\"}");
    proof {
        assert(s@ =~= old(s)@ + ser_entry(*e));
    }
}

fn push_entries(s: &mut String, es: &Vec<LogEntry>, i: usize)
    requires
        i <= es@.len(),
        forall|k: int| 0 <= k < es@.len() ==> (#[trigger] es@[k]).valid(),
    ensures
        final(s)@ == old(s)@ + ser_entries(es@.skip(i as int)),
    decreases es@.len() - i,
{
    proof {
        reveal(ser_entries);
    }
    if i < es.len() {
        push_entry(s, &es[i]);
        if i + 1 < es.len() {
            crate::json_text::push_char(s, ',');
            push_entries(s, es, i + 1);
        }
        proof {
            let tail = es@.skip(i as int);
            assert(tail[0] == es@[i as int]);
            assert(tail.skip(1) =~= es@.skip(i as int + 1));
            assert(s@ =~= old(s)@ + ser_entries(es@.skip(i as int)));
        }
    } else {
        proof {
            assert(es@.skip(i as int) =~= Seq::<LogEntry>::empty());
        }
    }
}

fn push_day(s: &mut String, dl: &DayLog)
    requires
        dl.wf(),
    ensures
        final(s)@ == old(s)@ + ser_day(*dl),
{
    proof {
        reveal(ser_day);
    }
    crate::json_text::push_char(s, '"');
    push_iso_date(s, &dl.date);
    s.append("\":[");
    push_entries(s, &dl.entries, 0);
    crate::json_text::push_char(s, ']');
    proof {
        assert(dl.entries@.skip(0) =~= dl.entries@);
        assert(s@ =~= old(s)@ + ser_day(*dl));
    }
}

fn push_days(s: &mut String, ds: &Vec<DayLog>, i: usize)
    requires
        i <= ds@.len(),
        forall|k: int| 0 <= k < ds@.len() ==> (#[trigger] ds@[k]).wf(),
    ensures
        final(s)@ == old(s)@ + ser_days(ds@.skip(i as int)),
    decreases ds@.len() - i,
{
    proof {
        reveal(ser_days);
    }
    if i < ds.len() {
        push_day(s, &ds[i]);
        if i + 1 < ds.len() {
            crate::json_text::push_char(s, ',');
            push_days(s, ds, i + 1);
        }
        proof {
            let tail = ds@.skip(i as int);
            assert(tail[0] == ds@[i as int]);
            assert(tail.skip(1) =~= ds@.skip(i as int + 1));
            assert(s@ =~= old(s)@ + ser_days(ds@.skip(i as int)));
        }
    } else {
        proof {
            assert(ds@.skip(i as int) =~= Seq::<DayLog>::empty());
        }
    }
}

impl TimeLog {
    /// The snapshot text of this log.
    #[verifier::rlimit(100)]
    #[verifier::spinoff_prover]
    pub fn to_json(&self) -> (r: String)
        requires
            self.wf(),
        ensures
            r@ == ser_log(*self),
    {
        proof {
            reveal(ser_log);
            reveal(ser_pending);
        }
        let mut s = String::new();
        s.append("{\"pending\":");
        match &self.pending {
            None => {
                s.append("null");
            },
            Some(p) => {
                s.append("{\"project_name\":");
                push_json_string(&mut s, p.project_name.as_str());
                s.append(",\"start\":\"");
                push_ts(&mut s, &p.start);
                s.append("\"}");
            },
        }
        s.append(",\"entries\":{");
        push_days(&mut s, &self.days, 0);
        s.append("}}");
        proof {
            assert(self.days@.skip(0) =~= self.days@);
            assert(s@ =~= ser_log(*self));
        }
        s
    }
}

// ---------------------------------------------------------------------------
// The reading side, executable. Each function mirrors its parser exactly.
// ---------------------------------------------------------------------------

/// Advances past `lit` when the text at `i` begins with it.
fn expect_lit(s: &str, i: usize, lit: &str) -> (r: Option<usize>)
    requires
        i <= s@.len(),
    ensures
        match r {
            Some(j) => match_lit(s@.skip(i as int), lit@) && j == i + lit@.len() && j
                <= s@.len(),
            None => !match_lit(s@.skip(i as int), lit@),
        },
{
    let n = lit.unicode_len();
    let slen = s.unicode_len();
    if n > slen - i {
        proof {
            assert(s@.skip(i as int).len() < lit@.len());
        }
        return None;
    }
    let mut k: usize = 0;
    while k < n
        invariant
            i + n <= slen,
            slen == s@.len(),
            n == lit@.len(),
            k <= n,
            forall|q: int| 0 <= q < k ==> s@[i + q] == lit@[q],
        decreases n - k,
    {
        if s.get_char(i + k) != lit.get_char(k) {
            proof {
                assert(!match_lit(s@.skip(i as int), lit@)) by {
                    if match_lit(s@.skip(i as int), lit@) {
                        assert(s@.skip(i as int).subrange(0, lit@.len() as int)[k as int]
                            == lit@[k as int]);
                        assert(s@.skip(i as int)[k as int] == s@[i + k]);
                    }
                }
            }
            return None;
        }
        k = k + 1;
    }
    proof {
        assert(s@.skip(i as int).subrange(0, lit@.len() as int) =~= lit@);
    }
    Some(i + n)
}

/// Reads `w` digit characters at `i` as a number.
fn read_digits(s: &str, i: usize, w: usize) -> (r: Option<u64>)
    requires
        i <= s@.len(),
        w <= 9,
    ensures
        match r {
            Some(v) => parse_digits(s@.skip(i as int), w as nat) == Some(v as nat),
            None => parse_digits(s@.skip(i as int), w as nat) is None,
        },
{
    let slen = s.unicode_len();
    if w > slen - i {
        proof {
            assert(s@.skip(i as int).len() < w);
        }
        return None;
    }
    let ghost win = s@.skip(i as int).subrange(0, w as int);
    let mut acc: u64 = 0;
    let mut k: usize = 0;
    while k < w
        invariant
            i + w <= slen,
            slen == s@.len(),
            w <= 9,
            k <= w,
            win == s@.skip(i as int).subrange(0, w as int),
            win.len() == w,
            val_of_digits(win.subrange(0, k as int)) == Some(acc as nat),
        decreases w - k,
    {
        let c = s.get_char(i + k);
        proof {
            assert(win[k as int] == s@.skip(i as int)[k as int]);
            assert(win[k as int] == s@[i + k]);
        }
        match crate::numtext::digit_value(c) {
            None => {
                proof {
                    crate::numtext::lemma_val_digits_none(win, k as int);
                }
                return None;
            },
            Some(d) => {
                proof {
                    crate::numtext::lemma_val_digits_bound(win.subrange(0, k as int));
                    crate::numtext::lemma_pow10_mono(k as nat, 8);
                    reveal_with_fuel(crate::numtext::pow10, 10);
                    assert(acc < 100000000);
                    assert(win.subrange(0, k as int + 1).drop_last() =~= win.subrange(
                        0,
                        k as int,
                    ));
                    assert(win.subrange(0, k as int + 1).last() == win[k as int]);
                }
                acc = acc * 10 + d;
            },
        }
        k = k + 1;
    }
    proof {
        assert(win.subrange(0, w as int) =~= win);
    }
    Some(acc)
}

/// Reads `YYYY-MM-DD` at `i`.
fn p_date(s: &str, i: usize) -> (r: Option<(Date, usize)>)
    requires
        i <= s@.len(),
    ensures
        match r {
            Some((d, j)) => parse_date(s@.skip(i as int)) == Some((d, 10nat)) && j == i + 10
                && j <= s@.len() && d.valid(),
            None => parse_date(s@.skip(i as int)) is None,
        },
{
    proof {
        reveal(parse_date);
    }
    let slen = s.unicode_len();
    if 10 > slen - i {
        proof {
            assert(s@.skip(i as int).len() < 10);
        }
        return None;
    }
    proof {
        assert(s@.skip(i as int)[4] == s@[i + 4]);
        assert(s@.skip(i as int)[7] == s@[i + 7]);
        lemma_skip_skip(s@, i as int, 5);
        lemma_skip_skip(s@, i as int, 8);
    }
    if s.get_char(i + 4) != '-' || s.get_char(i + 7) != '-' {
        return None;
    }
    let y = match read_digits(s, i, 4) {
        None => {
            return None;
        },
        Some(v) => v,
    };
    let m = match read_digits(s, i + 5, 2) {
        None => {
            return None;
        },
        Some(v) => v,
    };
    let d = match read_digits(s, i + 8, 2) {
        None => {
            return None;
        },
        Some(v) => v,
    };
    if y < 1 || y > 9999 || m < 1 || m > 12 || d < 1 {
        return None;
    }
    let dim = days_in_month_exec(y as u32, m as u8);
    if d > dim as u64 {
        return None;
    }
    Some((Date { year: y as u32, month: m as u8, day: d as u8 }, i + 10))
}

/// Reads `YYYY-MM-DDTHH:MM+HH:MM` at `i`.
fn p_ts(s: &str, i: usize) -> (r: Option<(Timestamp, usize)>)
    requires
        i <= s@.len(),
    ensures
        match r {
            Some((t, j)) => parse_ts(s@.skip(i as int)) == Some((t, 22nat)) && j == i + 22
                && j <= s@.len() && t.valid(),
            None => parse_ts(s@.skip(i as int)) is None,
        },
{
    proof {
        reveal(parse_ts);
    }
    let date = match p_date(s, i) {
        None => {
            return None;
        },
        Some((d, _)) => d,
    };
    let slen = s.unicode_len();
    if 22 > slen - i {
        proof {
            assert(s@.skip(i as int).len() < 22);
        }
        return None;
    }
    proof {
        assert(s@.skip(i as int)[10] == s@[i + 10]);
        assert(s@.skip(i as int)[13] == s@[i + 13]);
        assert(s@.skip(i as int)[16] == s@[i + 16]);
        assert(s@.skip(i as int)[19] == s@[i + 19]);
        lemma_skip_skip(s@, i as int, 11);
        lemma_skip_skip(s@, i as int, 14);
        lemma_skip_skip(s@, i as int, 17);
        lemma_skip_skip(s@, i as int, 20);
    }
    let sign = s.get_char(i + 16);
    if s.get_char(i + 10) != 'T' || s.get_char(i + 13) != ':' || (sign != '+' && sign != '-')
        || s.get_char(i + 19) != ':' {
        return None;
    }
    let hh = match read_digits(s, i + 11, 2) {
        None => {
            return None;
        },
        Some(v) => v,
    };
    let mm = match read_digits(s, i + 14, 2) {
        None => {
            return None;
        },
        Some(v) => v,
    };
    let oh = match read_digits(s, i + 17, 2) {
        None => {
            return None;
        },
        Some(v) => v,
    };
    let om = match read_digits(s, i + 20, 2) {
        None => {
            return None;
        },
        Some(v) => v,
    };
    if !(hh < 24 && mm < 60 && oh < 24 && om < 60) {
        return None;
    }
    let off_abs: u16 = (oh * 60 + om) as u16;
    let offset: i16 = if sign == '+' {
        off_abs as i16
    } else {
        -(off_abs as i16)
    };
    Some(
        (
            Timestamp { date, minute: (hh * 60 + mm) as u16, offset_min: offset },
            i + 22,
        ),
    )
}

/// Reads a quoted, escaped string value at `i`.
fn p_json_string(s: &str, i: usize) -> (r: Option<(String, usize)>)
    requires
        i <= s@.len(),
    ensures
        match r {
            Some((t, j)) => parse_json_string(s@.skip(i as int)) == Some(
                (t@, (j - i) as nat),
            ) && i < j <= s@.len(),
            None => parse_json_string(s@.skip(i as int)) is None,
        },
{
    let slen = s.unicode_len();
    if i >= slen {
        return None;
    }
    proof {
        assert(s@.skip(i as int)[0] == s@[i as int]);
    }
    if s.get_char(i) != '"' {
        return None;
    }
    let i0 = i + 1;
    let mut cur: usize = i0;
    let mut acc: Vec<char> = Vec::new();
    loop
        invariant
            i0 <= cur <= slen,
            slen == s@.len(),
            s@.skip(i as int)[0] == '"',
            i + 1 == i0,
            parse_string_body(s@.skip(i0 as int)) == (match parse_string_body(
                s@.skip(cur as int),
            ) {
                Some((t, n)) => Some::<(Seq<char>, nat)>(
                    (acc@ + t, ((cur - i0) as nat + n) as nat),
                ),
                None => None::<(Seq<char>, nat)>,
            }),
        decreases slen - cur,
    {
        if cur >= slen {
            proof {
                assert(s@.skip(cur as int).len() == 0);
                lemma_skip_skip(s@, i as int, 1);
            }
            return None;
        }
        proof {
            assert(s@.skip(cur as int)[0] == s@[cur as int]);
        }
        let c = s.get_char(cur);
        if c == '"' {
            let body = crate::json_text::chars_to_string(&acc);
            proof {
                assert(acc@ + Seq::<char>::empty() =~= acc@);
                lemma_skip_skip(s@, i as int, 1);
            }
            return Some((body, cur + 1));
        } else if c == '\\' {
            if cur + 1 >= slen {
                proof {
                    assert(s@.skip(cur as int).len() < 2);
                    lemma_skip_skip(s@, i as int, 1);
                }
                return None;
            }
            proof {
                assert(s@.skip(cur as int)[1] == s@[cur as int + 1]);
            }
            let c2 = s.get_char(cur + 1);
            if c2 == '"' || c2 == '\\' {
                proof {
                    lemma_skip_skip(s@, cur as int, 2);
                    lemma_string_body_shift2(s@, cur as int, i0 as int, acc@);
                }
                acc.push(c2);
                cur = cur + 2;
            } else {
                proof {
                    lemma_skip_skip(s@, i as int, 1);
                }
                return None;
            }
        } else {
            proof {
                lemma_skip_skip(s@, cur as int, 1);
                lemma_string_body_shift1(s@, cur as int, i0 as int, acc@);
            }
            acc.push(c);
            cur = cur + 1;
        }
    }
}

/// Stepping the string-body read over a plain character.
proof fn lemma_string_body_shift1(s: Seq<char>, cur: int, i0: int, acc: Seq<char>)
    requires
        0 <= i0 <= cur < s.len(),
        s[cur] != '"',
        s[cur] != '\\',
        parse_string_body(s.skip(i0)) == (match parse_string_body(s.skip(cur)) {
            Some((t, n)) => Some::<(Seq<char>, nat)>((acc + t, ((cur - i0) as nat + n) as nat)),
            None => None::<(Seq<char>, nat)>,
        }),
    ensures
        parse_string_body(s.skip(i0)) == (match parse_string_body(s.skip(cur + 1)) {
            Some((t, n)) => Some::<(Seq<char>, nat)>(
                (acc.push(s[cur]) + t, ((cur + 1 - i0) as nat + n) as nat),
            ),
            None => None::<(Seq<char>, nat)>,
        }),
{
    assert(s.skip(cur)[0] == s[cur]);
    assert(s.skip(cur).skip(1) =~= s.skip(cur + 1));
    match parse_string_body(s.skip(cur + 1)) {
        Some((t, n)) => {
            assert(parse_string_body(s.skip(cur)) == Some::<(Seq<char>, nat)>(
                (seq![s[cur]] + t, (n + 1) as nat),
            ));
            assert(acc + (seq![s[cur]] + t) =~= acc.push(s[cur]) + t);
        },
        None => {
            assert(parse_string_body(s.skip(cur)) is None);
        },
    }
}

/// Stepping the string-body read over an escape pair.
proof fn lemma_string_body_shift2(s: Seq<char>, cur: int, i0: int, acc: Seq<char>)
    requires
        0 <= i0 <= cur,
        cur + 1 < s.len(),
        s[cur] == '\\',
        s[cur + 1] == '"' || s[cur + 1] == '\\',
        parse_string_body(s.skip(i0)) == (match parse_string_body(s.skip(cur)) {
            Some((t, n)) => Some::<(Seq<char>, nat)>((acc + t, ((cur - i0) as nat + n) as nat)),
            None => None::<(Seq<char>, nat)>,
        }),
    ensures
        parse_string_body(s.skip(i0)) == (match parse_string_body(s.skip(cur + 2)) {
            Some((t, n)) => Some::<(Seq<char>, nat)>(
                (acc.push(s[cur + 1]) + t, ((cur + 2 - i0) as nat + n) as nat),
            ),
            None => None::<(Seq<char>, nat)>,
        }),
{
    assert(s.skip(cur)[0] == s[cur]);
    assert(s.skip(cur)[1] == s[cur + 1]);
    assert(s.skip(cur).len() >= 2);
    assert(s.skip(cur).skip(2) =~= s.skip(cur + 2));
    match parse_string_body(s.skip(cur + 2)) {
        Some((t, n)) => {
            assert(parse_string_body(s.skip(cur)) == Some::<(Seq<char>, nat)>(
                (seq![s[cur + 1]] + t, (n + 2) as nat),
            ));
            assert(acc + (seq![s[cur + 1]] + t) =~= acc.push(s[cur + 1]) + t);
        },
        None => {
            assert(parse_string_body(s.skip(cur)) is None);
        },
    }
}

/// One more entry extends the views by one.
proof fn lemma_entries_view_push(es: Seq<LogEntry>, e: LogEntry)
    ensures
        entries_view(es.push(e)) == entries_view(es) + seq![entry_view(e)],
{
    assert(entries_view(es.push(e)) =~= entries_view(es) + seq![entry_view(e)]);
}

/// One more day extends the views by one.
proof fn lemma_days_view_push(ds: Seq<DayLog>, d: DayLog)
    ensures
        days_view(ds.push(d)) == days_view(ds) + seq![day_view(d)],
{
    assert(days_view(ds.push(d)) =~= days_view(ds) + seq![day_view(d)]);
}

/// Reads one closed entry at `i`.
#[verifier::rlimit(100)]
#[verifier::spinoff_prover]
fn p_entry(s: &str, i: usize) -> (r: Option<(LogEntry, usize)>)
    requires
        i <= s@.len(),
    ensures
        match r {
            Some((e, j)) => parse_entry(s@.skip(i as int)) == Some(
                (entry_view(e), (j - i) as nat),
            ) && i < j <= s@.len() && e.valid(),
            None => parse_entry(s@.skip(i as int)) is None,
        },
{
    proof {
        reveal(parse_entry);
    }
    let j0 = match expect_lit(s, i, "{\"project_name\":") {
        None => {
            return None;
        },
        Some(j) => j,
    };
    proof {
        lemma_skip_skip(s@, i as int, (j0 - i) as int);
    }
    let (name, j1) = match p_json_string(s, j0) {
        None => {
            return None;
        },
        Some(x) => x,
    };
    proof {
        lemma_skip_skip(s@, i as int, (j1 - i) as int);
    }
    let j2 = match expect_lit(s, j1, ",\"start\":\"") {
        None => {
            return None;
        },
        Some(j) => j,
    };
    proof {
        lemma_skip_skip(s@, i as int, (j2 - i) as int);
    }
    let (start, j3) = match p_ts(s, j2) {
        None => {
            return None;
        },
        Some(x) => x,
    };
    proof {
        lemma_skip_skip(s@, i as int, (j3 - i) as int);
    }
    let j4 = match expect_lit(s, j3, "\",\"end\":\"") {
        None => {
            return None;
        },
        Some(j) => j,
    };
    proof {
        lemma_skip_skip(s@, i as int, (j4 - i) as int);
    }
    let (end, j5) = match p_ts(s, j4) {
        None => {
            return None;
        },
        Some(x) => x,
    };
    proof {
        lemma_skip_skip(s@, i as int, (j5 - i) as int);
    }
    let j6 = match expect_lit(s, j5, "\"}") {
        None => {
            return None;
        },
        Some(j) => j,
    };
    if name.as_str().is_empty() {
        return None;
    }
    if !crate::calendar::instant_le(&start, &end) {
        return None;
    }
    Some((LogEntry { project_name: name, start, end }, j6))
}

/// Reads one or more comma-separated entries at `i`.
#[verifier::rlimit(100)]
fn p_entries(s: &str, i: usize) -> (r: Option<(Vec<LogEntry>, usize)>)
    requires
        i <= s@.len(),
    ensures
        match r {
            Some((es, j)) => parse_entries(s@.skip(i as int)) == Some(
                (entries_view(es@), (j - i) as nat),
            ) && i < j <= s@.len() && es@.len() >= 1 && forall|k: int|
                0 <= k < es@.len() ==> (#[trigger] es@[k]).valid(),
            None => parse_entries(s@.skip(i as int)) is None,
        },
{
    proof {
        reveal(parse_entries);
    }
    let slen = s.unicode_len();
    let mut acc: Vec<LogEntry> = Vec::new();
    let mut cur: usize = i;
    loop
        invariant
            i <= cur <= slen,
            slen == s@.len(),
            forall|k: int| 0 <= k < acc@.len() ==> (#[trigger] acc@[k]).valid(),
            parse_entries(s@.skip(i as int)) == (match parse_entries(s@.skip(cur as int)) {
                Some((vs, n)) => Some::<(Seq<EntryView>, nat)>(
                    (entries_view(acc@) + vs, ((cur - i) as nat + n) as nat),
                ),
                None => None::<(Seq<EntryView>, nat)>,
            }),
        decreases slen - cur,
    {
        let (e, j) = match p_entry(s, cur) {
            None => {
                proof {
                    reveal(parse_entries);
                }
                return None;
            },
            Some(x) => x,
        };
        let ghost ev = entry_view(e);
        proof {
            reveal(parse_entries);
            assert(s@.skip(cur as int).len() == slen - cur);
        }
        if j < slen && s.get_char(j) == ',' {
            proof {
                assert(s@.skip(cur as int)[(j - cur) as int] == s@[j as int]);
                lemma_skip_skip(s@, cur as int, (j - cur) as int + 1);
                lemma_entries_view_push(acc@, e);
                match parse_entries(s@.skip(j as int + 1)) {
                    Some((vs2, m)) => {
                        assert(entries_view(acc@) + (seq![ev] + vs2) =~= entries_view(
                            acc@.push(e),
                        ) + vs2);
                    },
                    None => {},
                }
            }
            acc.push(e);
            cur = j + 1;
        } else {
            proof {
                if j < slen {
                    assert(s@.skip(cur as int)[(j - cur) as int] == s@[j as int]);
                }
                lemma_entries_view_push(acc@, e);
                assert(entries_view(acc@) + seq![ev] =~= entries_view(acc@.push(e)));
            }
            acc.push(e);
            return Some((acc, j));
        }
    }
}

/// Reads one day at `i`.
#[verifier::rlimit(100)]
#[verifier::spinoff_prover]
#[verifier::loop_isolation(false)]
fn p_day(s: &str, i: usize) -> (r: Option<(DayLog, usize)>)
    requires
        i <= s@.len(),
    ensures
        match r {
            Some((dl, j)) => parse_day(s@.skip(i as int)) == Some(
                (day_view(dl), (j - i) as nat),
            ) && i < j <= s@.len() && dl.wf(),
            None => parse_day(s@.skip(i as int)) is None,
        },
{
    proof {
        reveal(parse_day);
    }
    let slen = s.unicode_len();
    if i >= slen {
        proof {
            assert(s@.skip(i as int).len() == 0);
        }
        return None;
    }
    proof {
        assert(s@.skip(i as int)[0] == s@[i as int]);
        lemma_skip_skip(s@, i as int, 1);
    }
    if s.get_char(i) != '"' {
        return None;
    }
    let date = match p_date(s, i + 1) {
        None => {
            return None;
        },
        Some((d, _)) => d,
    };
    proof {
        lemma_skip_skip(s@, i as int, 11);
    }
    let j0 = match expect_lit(s, i + 11, "\":[") {
        None => {
            return None;
        },
        Some(j) => j,
    };
    proof {
        lemma_skip_skip(s@, i as int, (j0 - i) as int);
    }
    let (es, j1) = match p_entries(s, j0) {
        None => {
            return None;
        },
        Some(x) => x,
    };
    proof {
        assert(s@.skip(i as int).len() == slen - i);
        if j1 < slen {
            assert(s@.skip(i as int)[(j1 - i) as int] == s@[j1 as int]);
        }
    }
    if j1 >= slen || s.get_char(j1) != ']' {
        return None;
    }
    let mut k: usize = 0;
    while k < es.len()
        invariant
            k <= es@.len(),
            forall|q: int| 0 <= q < k ==> (#[trigger] es@[q]).end.date == date,
        decreases es@.len() - k,
    {
        if !(es[k].end.date == date) {
            proof {
                assert(entries_view(es@)[k as int] == entry_view(es@[k as int]));
            }
            return None;
        }
        k = k + 1;
    }
    proof {
        assert forall|q: int|
            0 <= q < entries_view(es@).len() implies (#[trigger] entries_view(es@)[q]).end.date
            == date by {
            assert(entries_view(es@)[q] == entry_view(es@[q]));
        }
    }
    let dl = DayLog { date, entries: es };
    Some((dl, j1 + 1))
}

/// Reads zero or more comma-separated days at `i`; `}` ends the list.
#[verifier::rlimit(100)]
fn p_days(s: &str, i: usize) -> (r: Option<(Vec<DayLog>, usize)>)
    requires
        i <= s@.len(),
    ensures
        match r {
            Some((ds, j)) => parse_days(s@.skip(i as int)) == Some(
                (days_view(ds@), (j - i) as nat),
            ) && i <= j <= s@.len() && forall|k: int|
                0 <= k < ds@.len() ==> (#[trigger] ds@[k]).wf(),
            None => parse_days(s@.skip(i as int)) is None,
        },
{
    proof {
        reveal(parse_days);
    }
    let slen = s.unicode_len();
    if i < slen && s.get_char(i) == '}' {
        proof {
            assert(s@.skip(i as int)[0] == s@[i as int]);
        }
        let out: Vec<DayLog> = Vec::new();
        proof {
            assert(days_view(out@) =~= Seq::<DayView>::empty());
        }
        return Some((out, i));
    }
    let mut acc: Vec<DayLog> = Vec::new();
    let mut cur: usize = i;
    loop
        invariant
            i <= cur <= slen,
            slen == s@.len(),
            cur >= slen || s@[cur as int] != '}',
            forall|k: int| 0 <= k < acc@.len() ==> (#[trigger] acc@[k]).wf(),
            parse_days(s@.skip(i as int)) == (match parse_days(s@.skip(cur as int)) {
                Some((vs, n)) => if vs.len() == 0 {
                    None::<(Seq<DayView>, nat)>
                } else {
                    Some::<(Seq<DayView>, nat)>(
                        (days_view(acc@) + vs, ((cur - i) as nat + n) as nat),
                    )
                },
                None => None::<(Seq<DayView>, nat)>,
            }),
        decreases slen - cur,
    {
        proof {
            reveal(parse_days);
            if cur < slen {
                assert(s@.skip(cur as int)[0] == s@[cur as int]);
            } else {
                assert(s@.skip(cur as int).len() == 0);
            }
        }
        let (d, j) = match p_day(s, cur) {
            None => {
                return None;
            },
            Some(x) => x,
        };
        let ghost dv = day_view(d);
        proof {
            assert(s@.skip(cur as int).len() == slen - cur);
        }
        if j < slen && s.get_char(j) == ',' {
            proof {
                assert(s@.skip(cur as int)[(j - cur) as int] == s@[j as int]);
                lemma_skip_skip(s@, cur as int, (j - cur) as int + 1);
                lemma_days_view_push(acc@, d);
                match parse_days(s@.skip(j as int + 1)) {
                    Some((vs2, m)) => {
                        assert(days_view(acc@) + (seq![dv] + vs2) =~= days_view(acc@.push(d))
                            + vs2);
                    },
                    None => {},
                }
            }
            acc.push(d);
            cur = j + 1;
            proof {
                if cur < slen {
                    assert(s@.skip((j + 1) as int)[0] == s@[(j + 1) as int]);
                }
            }
            if cur < slen && s.get_char(cur) == '}' {
                return None;
            }
            if cur >= slen {
                proof {
                    assert(s@.skip(cur as int).len() == 0);
                }
                return None;
            }
        } else {
            proof {
                if j < slen {
                    assert(s@.skip(cur as int)[(j - cur) as int] == s@[j as int]);
                }
                lemma_days_view_push(acc@, d);
                assert(days_view(acc@) + seq![dv] =~= days_view(acc@.push(d)));
            }
            acc.push(d);
            return Some((acc, j));
        }
    }
}

/// Reads the pending session at `i`.
#[verifier::rlimit(100)]
#[verifier::spinoff_prover]
fn p_pending(s: &str, i: usize) -> (r: Option<(Option<PendingLog>, usize)>)
    requires
        i <= s@.len(),
    ensures
        match r {
            Some((p, j)) => parse_pending(s@.skip(i as int)) == Some(
                (pending_view(p), (j - i) as nat),
            ) && i <= j <= s@.len() && (p matches Some(pl) ==> pl.valid()),
            None => parse_pending(s@.skip(i as int)) is None,
        },
{
    proof {
        reveal(parse_pending);
    }
    match expect_lit(s, i, "null") {
        Some(j) => {
            return Some((None, j));
        },
        None => {},
    }
    let j0 = match expect_lit(s, i, "{\"project_name\":") {
        None => {
            return None;
        },
        Some(j) => j,
    };
    proof {
        lemma_skip_skip(s@, i as int, (j0 - i) as int);
    }
    let (name, j1) = match p_json_string(s, j0) {
        None => {
            return None;
        },
        Some(x) => x,
    };
    proof {
        lemma_skip_skip(s@, i as int, (j1 - i) as int);
    }
    let j2 = match expect_lit(s, j1, ",\"start\":\"") {
        None => {
            return None;
        },
        Some(j) => j,
    };
    proof {
        lemma_skip_skip(s@, i as int, (j2 - i) as int);
    }
    let (start, j3) = match p_ts(s, j2) {
        None => {
            return None;
        },
        Some(x) => x,
    };
    proof {
        lemma_skip_skip(s@, i as int, (j3 - i) as int);
    }
    let j4 = match expect_lit(s, j3, "\"}") {
        None => {
            return None;
        },
        Some(j) => j,
    };
    if name.as_str().is_empty() {
        return None;
    }
    Some((Some(PendingLog { project_name: name, start }), j4))
}

/// All days later in the list come after the earlier ones.
proof fn lemma_lt_chain(days: Seq<DayLog>, a: int, b: int)
    requires
        forall|k: int| 1 <= k < days.len() ==> (#[trigger] days[k - 1]).date.lt(days[k].date),
        0 <= a < b < days.len(),
    ensures
        days[a].date.lt(days[b].date),
    decreases b - a,
{
    if a + 1 == b {
        assert(days[b - 1].date.lt(days[b].date));
    } else {
        lemma_lt_chain(days, a, b - 1);
        assert(days[b - 1].date.lt(days[b].date));
        crate::calendar::lemma_date_lt_trans(days[a].date, days[b - 1].date, days[b].date);
    }
}

impl TimeLog {
    /// Reads a snapshot text back into a log. Succeeds exactly on the texts
    /// the snapshot reader accepts: a whole well-formed snapshot document
    /// with its days ascending, and nothing else in the text.
    #[verifier::rlimit(100)]
    #[verifier::spinoff_prover]
    #[verifier::loop_isolation(false)]
    pub fn from_json(content: &str) -> (r: Result<TimeLog, TrackieError>)
        ensures
            match r {
                Ok(log) => parse_log(content@) == Some(view_of(log)) && log.wf(),
                Err(e) => parse_log(content@) is None && e.msg_view()
                    == "Malformed time-log snapshot."@ && e.is_error_view(),
            },
    {
        proof {
            reveal(parse_log);
            assert(content@.skip(0) =~= content@);
        }
        let slen = content.unicode_len();
        let j0 = match expect_lit(content, 0, "{\"pending\":") {
            None => {
                return Err(TrackieError::new("Malformed time-log snapshot."));
            },
            Some(j) => j,
        };
        let (pending, j1) = match p_pending(content, j0) {
            None => {
                return Err(TrackieError::new("Malformed time-log snapshot."));
            },
            Some(x) => x,
        };
        let j2 = match expect_lit(content, j1, ",\"entries\":{") {
            None => {
                return Err(TrackieError::new("Malformed time-log snapshot."));
            },
            Some(j) => j,
        };
        let (days, j3) = match p_days(content, j2) {
            None => {
                return Err(TrackieError::new("Malformed time-log snapshot."));
            },
            Some(x) => x,
        };
        let j4 = match expect_lit(content, j3, "}}") {
            None => {
                return Err(TrackieError::new("Malformed time-log snapshot."));
            },
            Some(j) => j,
        };
        if j4 != slen {
            return Err(TrackieError::new("Malformed time-log snapshot."));
        }
        let mut k: usize = 1;
        while k < days.len()
            invariant
                1 <= k,
                k <= days@.len() || days@.len() < 1,
                forall|q: int| 1 <= q < k ==> (#[trigger] days@[q - 1]).date.lt(days@[q].date),
            decreases days@.len() - k,
        {
            if !days[k - 1].date.before(&days[k].date) {
                proof {
                    let dv = days_view(days@);
                    assert(dv.len() == days@.len());
                    assert(dv[k - 1] == day_view(days@[k - 1]));
                    assert(dv[k as int] == day_view(days@[k as int]));
                    if view_days_sorted(dv) {
                        assert(dv[k - 1].date.lt(dv[k as int].date));
                    }
                    assert(!view_days_sorted(dv));
                }
                return Err(TrackieError::new("Malformed time-log snapshot."));
            }
            k = k + 1;
        }
        proof {
            assert forall|a: int, b: int|
                0 <= a < b < days_view(days@).len() implies (#[trigger] days_view(days@)[a]).date.lt(
                #[trigger] days_view(days@)[b].date,
            ) by {
                lemma_lt_chain(days@, a, b);
                assert(days_view(days@)[a] == day_view(days@[a]));
                assert(days_view(days@)[b] == day_view(days@[b]));
            }
            assert(view_days_sorted(days_view(days@)));
            assert forall|a: int, b: int|
                0 <= a < b < days@.len() implies (#[trigger] days@[a]).date.lt(
                #[trigger] days@[b].date,
            ) by {
                lemma_lt_chain(days@, a, b);
            }
        }
        let log = TimeLog { pending, days };
        proof {
            assert(log.wf());
            assert(view_of(log).pending == pending_view(log.pending));
            assert(view_of(log).days == days_view(log.days@));
        }
        Ok(log)
    }
}

} // verus!
