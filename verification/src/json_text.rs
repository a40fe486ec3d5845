//! The text form of the documents this library owns: escaped strings and the
//! pieces both the snapshot codec and the structured report rendering share.
//!
//! A string value is written between double quotes; inside it, `"` and `\`
//! are each preceded by a backslash and every other character stands for
//! itself.

use vstd::prelude::*;
use vstd::string::StrSliceExecFns;
use vstd::string::StringExecFns;

verus! {

/// The escaped form of one character.
pub open spec fn esc_char(c: char) -> Seq<char> {
    if c == '"' || c == '\\' {
        seq!['\\', c]
    } else {
        seq![c]
    }
}

/// The escaped form of a text: each character escaped, in order.
pub open spec fn esc(s: Seq<char>) -> Seq<char>
    decreases s.len(),
{
    if s.len() == 0 {
        Seq::empty()
    } else {
        esc_char(s[0]) + esc(s.skip(1))
    }
}

/// A quoted, escaped string value.
pub open spec fn json_string(s: Seq<char>) -> Seq<char> {
    seq!['"'] + esc(s) + seq!['"']
}

/// Reads an escaped string body up to and including its closing quote.
/// Returns the unescaped text and how many characters were consumed.
pub open spec fn parse_string_body(s: Seq<char>) -> Option<(Seq<char>, nat)>
    decreases s.len(),
{
    if s.len() == 0 {
        None
    } else if s[0] == '"' {
        Some((Seq::empty(), 1nat))
    } else if s[0] == '\\' {
        if s.len() >= 2 && (s[1] == '"' || s[1] == '\\') {
            match parse_string_body(s.skip(2)) {
                Some((t, n)) => Some((seq![s[1]] + t, n + 2)),
                None => None,
            }
        } else {
            None
        }
    } else {
        match parse_string_body(s.skip(1)) {
            Some((t, n)) => Some((seq![s[0]] + t, n + 1)),
            None => None,
        }
    }
}

/// Whatever a string body read consumed, it consumed no more than there was.
pub proof fn lemma_parse_string_consumed(s: Seq<char>)
    ensures
        match parse_string_body(s) {
            Some((t, n)) => 1 <= n <= s.len(),
            None => true,
        },
    decreases s.len(),
{
    if s.len() == 0 {
    } else if s[0] == '"' {
    } else if s[0] == '\\' {
        if s.len() >= 2 && (s[1] == '"' || s[1] == '\\') {
            lemma_parse_string_consumed(s.skip(2));
        }
    } else {
        lemma_parse_string_consumed(s.skip(1));
    }
}

/// Reading back an escaped text with its closing quote gives the text.
pub proof fn lemma_esc_round_trip(t: Seq<char>, rest: Seq<char>)
    ensures
        parse_string_body(esc(t) + seq!['"'] + rest) == Some::<(Seq<char>, nat)>(
            (t, (esc(t).len() + 1) as nat),
        ),
    decreases t.len(),
{
    let s = esc(t) + seq!['"'] + rest;
    if t.len() == 0 {
        assert(esc(t) =~= Seq::<char>::empty());
        assert(s[0] == '"');
        assert(t =~= Seq::<char>::empty());
    } else {
        let c = t[0];
        lemma_esc_round_trip(t.skip(1), rest);
        let inner = esc(t.skip(1)) + seq!['"'] + rest;
        if c == '"' || c == '\\' {
            assert(s[0] == '\\');
            assert(s[1] == c);
            assert(s.skip(2) =~= inner);
            assert(seq![s[1]] + t.skip(1) =~= t);
            assert(esc(t).len() == 2 + esc(t.skip(1)).len());
        } else {
            assert(s[0] == c);
            assert(c != '"' && c != '\\');
            assert(s.skip(1) =~= inner);
            assert(seq![s[0]] + t.skip(1) =~= t);
            assert(esc(t).len() == 1 + esc(t.skip(1)).len());
        }
    }
}

/// Appends the quoted, escaped form of `t`.
#[verifier::loop_isolation(false)]
pub fn push_json_string(s: &mut String, t: &str)
    ensures
        final(s)@ == old(s)@ + json_string(t@),
{
    let len = t.unicode_len();
    s.append("\"");
    proof {
        reveal_strlit("\"");
        reveal_strlit("\\");
    }
    let mut i: usize = 0;
    while i < len
        invariant
            len == t@.len(),
            i <= len,
            s@ == old(s)@ + seq!['"'] + esc(t@.subrange(0, i as int)),
        decreases len - i,
    {
        let c = t.get_char(i);
        let ghost pre = t@.subrange(0, i as int);
        let ghost post = t@.subrange(0, i as int + 1);
        proof {
            lemma_esc_push(pre, c);
            assert(post =~= pre.push(c));
        }
        if c == '"' {
            s.append("\\");
            s.append("\"");
        } else if c == '\\' {
            s.append("\\");
            s.append("\\");
        } else {
            push_char(s, c);
        }
        proof {
            assert(s@ =~= old(s)@ + seq!['"'] + esc(post));
        }
        i = i + 1;
    }
    s.append("\"");
    proof {
        assert(t@.subrange(0, t@.len() as int) =~= t@);
        assert(s@ =~= old(s)@ + json_string(t@));
    }
}

/// Escaping one more character appends its escaped form.
pub proof fn lemma_esc_push(s: Seq<char>, c: char)
    ensures
        esc(s.push(c)) == esc(s) + esc_char(c),
    decreases s.len(),
{
    if s.len() == 0 {
        assert(s.push(c)[0] == c);
        assert(s.push(c).skip(1) =~= Seq::<char>::empty());
        assert(esc(s.push(c)) == esc_char(c) + esc(Seq::<char>::empty()));
        assert(esc(Seq::<char>::empty()) == Seq::<char>::empty());
        assert(esc(s) == Seq::<char>::empty());
        assert(esc(s.push(c)) =~= esc(s) + esc_char(c));
    } else {
        assert(s.push(c)[0] == s[0]);
        assert(s.push(c).skip(1) =~= s.skip(1).push(c));
        assert(esc(s.push(c)) == esc_char(s[0]) + esc(s.skip(1).push(c)));
        lemma_esc_push(s.skip(1), c);
        assert(esc(s.push(c)) == esc_char(s[0]) + (esc(s.skip(1)) + esc_char(c)));
        assert(esc(s) == esc_char(s[0]) + esc(s.skip(1)));
        assert(esc(s.push(c)) =~= esc(s) + esc_char(c));
    }
}

/// The ISO calendar-date text of a date: four-digit year, two-digit month and
/// day, dash-separated.
pub open spec fn iso_date(d: crate::calendar::Date) -> Seq<char> {
    crate::numtext::pad_digits(d.year as nat, 4) + seq!['-'] + crate::numtext::pad_digits(
        d.month as nat,
        2,
    ) + seq!['-'] + crate::numtext::pad_digits(d.day as nat, 2)
}

/// Appends the ISO calendar-date text of `d`.
pub fn push_iso_date(s: &mut String, d: &crate::calendar::Date)
    ensures
        final(s)@ == old(s)@ + iso_date(*d),
{
    crate::numtext::push_padded(s, d.year as u64, 4);
    push_char(s, '-');
    crate::numtext::push_padded(s, d.month as u64, 2);
    push_char(s, '-');
    crate::numtext::push_padded(s, d.day as u64, 2);
    proof {
        assert(s@ =~= old(s)@ + iso_date(*d));
    }
}

/// Relies on `<String as FromIterator<char>>::from_iter` (through
/// `Iterator::collect`): the string holds exactly the given characters, in
/// order.
#[verifier::external_body]
pub fn chars_to_string(v: &Vec<char>) -> (r: String)
    ensures
        r@ == v@,
{
    v.iter().collect()
}

/// Appends one character.
pub fn push_char(s: &mut String, c: char)
    ensures
        final(s)@ == old(s)@ + seq![c],
{
    let mut v: Vec<char> = Vec::new();
    v.push(c);
    let one = chars_to_string(&v);
    s.append(one.as_str());
    proof {
        assert(s@ =~= old(s)@ + seq![c]);
    }
}

} // verus!
