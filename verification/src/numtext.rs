//! Rendering and reading of decimal numbers as text, with the facts that make
//! the snapshot codec's round trip go through.

use vstd::prelude::*;
use vstd::string::StringExecFns;

verus! {

pub open spec fn digit_char(d: int) -> char {
    if d == 0 { '0' }
    else if d == 1 { '1' }
    else if d == 2 { '2' }
    else if d == 3 { '3' }
    else if d == 4 { '4' }
    else if d == 5 { '5' }
    else if d == 6 { '6' }
    else if d == 7 { '7' }
    else if d == 8 { '8' }
    else if d == 9 { '9' }
    else { ' ' }
}

/// The value of a decimal digit, or none for any other character.
pub open spec fn digit_of(c: char) -> Option<int> {
    if c == '0' { Some(0int) }
    else if c == '1' { Some(1int) }
    else if c == '2' { Some(2int) }
    else if c == '3' { Some(3int) }
    else if c == '4' { Some(4int) }
    else if c == '5' { Some(5int) }
    else if c == '6' { Some(6int) }
    else if c == '7' { Some(7int) }
    else if c == '8' { Some(8int) }
    else if c == '9' { Some(9int) }
    else { None }
}

pub open spec fn pow10(e: nat) -> nat
    decreases e,
{
    if e == 0 { 1 } else { 10 * pow10((e - 1) as nat) }
}

/// The ordinary decimal rendering of `n`, without leading zeros.
pub open spec fn dec_digits(n: nat) -> Seq<char>
    decreases n,
{
    if n < 10 {
        seq![digit_char(n as int)]
    } else {
        dec_digits(n / 10) + seq![digit_char((n % 10) as int)]
    }
}

/// Exactly `width` digit characters: the value of `n` modulo `10^width`,
/// zero-padded.
pub open spec fn pad_digits(n: nat, width: nat) -> Seq<char>
    decreases width,
{
    if width == 0 {
        Seq::empty()
    } else {
        pad_digits(n / 10, (width - 1) as nat) + seq![digit_char((n % 10) as int)]
    }
}

/// The rendering that a two-digit minimum width gives: zero-padded below 10,
/// plain decimal above.
pub open spec fn min_width_2(n: nat) -> Seq<char> {
    if n < 100 {
        pad_digits(n, 2)
    } else {
        dec_digits(n)
    }
}

/// The number that a run of digit characters denotes, if all are digits.
pub open spec fn val_of_digits(s: Seq<char>) -> Option<nat>
    decreases s.len(),
{
    if s.len() == 0 {
        Some(0nat)
    } else {
        match (val_of_digits(s.drop_last()), digit_of(s.last())) {
            (Some(v), Some(d)) => Some((v * 10 + d) as nat),
            _ => None,
        }
    }
}

pub proof fn lemma_pad_digits_len(n: nat, width: nat)
    ensures
        pad_digits(n, width).len() == width,
    decreases width,
{
    if width > 0 {
        lemma_pad_digits_len(n / 10, (width - 1) as nat);
    }
}

/// Reading back a zero-padded rendering gives the value back.
pub proof fn lemma_pad_digits_round_trip(n: nat, width: nat)
    requires
        n < pow10(width),
    ensures
        val_of_digits(pad_digits(n, width)) == Some(n),
    decreases width,
{
    if width == 0 {
        assert(pad_digits(n, 0) =~= Seq::<char>::empty());
    } else {
        let head = pad_digits(n / 10, (width - 1) as nat);
        let s = pad_digits(n, width);
        lemma_pad_digits_len(n / 10, (width - 1) as nat);
        assert(n / 10 < pow10((width - 1) as nat)) by {
            vstd::arithmetic::div_mod::lemma_multiply_divide_lt(
                n as int,
                10,
                pow10((width - 1) as nat) as int,
            );
        }
        lemma_pad_digits_round_trip(n / 10, (width - 1) as nat);
        assert(s.drop_last() =~= head);
        assert(s.last() == digit_char((n % 10) as int));
        assert(digit_of(digit_char((n % 10) as int)) == Some((n % 10) as int));
        vstd::arithmetic::div_mod::lemma_fundamental_div_mod(n as int, 10);
    }
}

pub proof fn lemma_pow10_pos(e: nat)
    ensures
        pow10(e) >= 1,
    decreases e,
{
    if e > 0 {
        lemma_pow10_pos((e - 1) as nat);
    }
}

pub proof fn lemma_pow10_mono(a: nat, b: nat)
    requires
        a <= b,
    ensures
        pow10(a) <= pow10(b),
    decreases b - a,
{
    if a < b {
        lemma_pow10_mono(a, (b - 1) as nat);
        lemma_pow10_pos((b - 1) as nat);
    }
}

/// A run of digits denotes less than ten to its length.
pub proof fn lemma_val_digits_bound(s: Seq<char>)
    ensures
        match val_of_digits(s) {
            Some(v) => v < pow10(s.len()),
            None => true,
        },
    decreases s.len(),
{
    if s.len() > 0 {
        lemma_val_digits_bound(s.drop_last());
    }
}

/// One non-digit spoils the whole run.
pub proof fn lemma_val_digits_none(s: Seq<char>, k: int)
    requires
        0 <= k < s.len(),
        digit_of(s[k]) is None,
    ensures
        val_of_digits(s) is None,
    decreases s.len(),
{
    if k < s.len() - 1 {
        assert(s.drop_last()[k] == s[k]);
        lemma_val_digits_none(s.drop_last(), k);
    }
}

/// Appends one decimal digit.
pub fn push_digit(s: &mut String, d: u64)
    requires
        d < 10,
    ensures
        final(s)@ == old(s)@ + seq![digit_char(d as int)],
{
    proof {
        reveal_strlit("0");
        reveal_strlit("1");
        reveal_strlit("2");
        reveal_strlit("3");
        reveal_strlit("4");
        reveal_strlit("5");
        reveal_strlit("6");
        reveal_strlit("7");
        reveal_strlit("8");
        reveal_strlit("9");
    }
    if d == 0 { s.append("0"); }
    else if d == 1 { s.append("1"); }
    else if d == 2 { s.append("2"); }
    else if d == 3 { s.append("3"); }
    else if d == 4 { s.append("4"); }
    else if d == 5 { s.append("5"); }
    else if d == 6 { s.append("6"); }
    else if d == 7 { s.append("7"); }
    else if d == 8 { s.append("8"); }
    else { s.append("9"); }
    proof {
        assert(s@ =~= old(s)@ + seq![digit_char(d as int)]);
    }
}

/// Appends the plain decimal rendering of `n`.
pub fn push_decimal(s: &mut String, n: u64)
    ensures
        final(s)@ == old(s)@ + dec_digits(n as nat),
    decreases n,
{
    if n < 10 {
        push_digit(s, n);
    } else {
        push_decimal(s, n / 10);
        push_digit(s, n % 10);
        proof {
            assert(s@ =~= old(s)@ + dec_digits(n as nat));
        }
    }
}

/// Appends exactly `width` digits: `n` modulo `10^width`, zero-padded.
pub fn push_padded(s: &mut String, n: u64, width: u64)
    ensures
        final(s)@ == old(s)@ + pad_digits(n as nat, width as nat),
    decreases width,
{
    if width > 0 {
        push_padded(s, n / 10, width - 1);
        push_digit(s, n % 10);
        proof {
            assert(s@ =~= old(s)@ + pad_digits(n as nat, width as nat));
        }
    } else {
        proof {
            assert(s@ =~= old(s)@ + pad_digits(n as nat, 0));
        }
    }
}

/// Appends the rendering of `n` at a two-digit minimum width.
pub fn push_min_width_2(s: &mut String, n: u64)
    ensures
        final(s)@ == old(s)@ + min_width_2(n as nat),
{
    if n < 100 {
        push_padded(s, n, 2);
    } else {
        push_decimal(s, n);
    }
}

/// The value of one digit character, if it is one.
pub fn digit_value(c: char) -> (r: Option<u64>)
    ensures
        match r {
            Some(v) => digit_of(c) == Some(v as int),
            None => digit_of(c) is None,
        },
{
    if c == '0' { Some(0) }
    else if c == '1' { Some(1) }
    else if c == '2' { Some(2) }
    else if c == '3' { Some(3) }
    else if c == '4' { Some(4) }
    else if c == '5' { Some(5) }
    else if c == '6' { Some(6) }
    else if c == '7' { Some(7) }
    else if c == '8' { Some(8) }
    else if c == '9' { Some(9) }
    else { None }
}

} // verus!
