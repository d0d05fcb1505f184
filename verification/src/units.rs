//! Human-readable byte sizes, as the file listing shows them: a plain
//! count below one kibibyte, otherwise one decimal digit in the largest
//! binary unit up to terabytes.

use vstd::prelude::*;
use vstd::arithmetic::div_mod::{
    lemma_div_is_ordered, lemma_div_nonincreasing, lemma_fundamental_div_mod_converse,
};

verus! {

/// The decimal digit character for `d`.
pub open spec fn spec_digit(d: nat) -> char {
    if d == 0 {
        '0'
    } else if d == 1 {
        '1'
    } else if d == 2 {
        '2'
    } else if d == 3 {
        '3'
    } else if d == 4 {
        '4'
    } else if d == 5 {
        '5'
    } else if d == 6 {
        '6'
    } else if d == 7 {
        '7'
    } else if d == 8 {
        '8'
    } else {
        '9'
    }
}

/// The decimal digits of `n`, most significant first.
pub open spec fn dec_str(n: nat) -> Seq<char>
    decreases n,
{
    if n < 10 {
        seq![spec_digit(n)]
    } else {
        dec_str(n / 10).push(spec_digit(n % 10))
    }
}

/// The divisor of the unit a byte count displays in: one of the binary
/// unit sizes from kibibytes up to tebibytes.  Meaningful for counts of at
/// least 1024.
pub open spec fn unit_div(bytes: u64) -> u64 {
    if bytes < 1048576 {
        1024
    } else if bytes < 1073741824 {
        1048576
    } else if bytes < 1099511627776 {
        1073741824
    } else {
        1099511627776
    }
}

/// The letter of the unit a byte count displays in.
pub open spec fn unit_char(bytes: u64) -> char {
    if bytes < 1048576 {
        'K'
    } else if bytes < 1073741824 {
        'M'
    } else if bytes < 1099511627776 {
        'G'
    } else {
        'T'
    }
}

/// What [`format_size`] returns: the exact count with `" B"` below one
/// kibibyte, otherwise the count in its unit, rounded to one decimal
/// digit, half away from zero.
pub open spec fn spec_format_size(bytes: u64) -> Seq<char> {
    if bytes < 1024 {
        dec_str(bytes as nat).push(' ').push('B')
    } else {
        let div = unit_div(bytes) as int;
        let whole = bytes as int / div;
        let rem = bytes as int % div;
        let tt = (rem * 10 + div / 2) / div;
        let w2 = if tt == 10 {
            whole + 1
        } else {
            whole
        };
        let tenth = if tt == 10 {
            0
        } else {
            tt
        };
        dec_str(w2 as nat).push('.').push(spec_digit(tenth as nat)).push(' ').push(
            unit_char(bytes),
        ).push('B')
    }
}

/// Relies on String::push: it appends exactly the one character.
#[verifier::external_body]
fn push_char(s: &mut String, c: char)
    ensures
        final(s)@ == old(s)@.push(c),
{
    s.push(c);
}

/// The decimal digit character for `d`.
fn digit_char(d: u64) -> (c: char)
    requires
        d < 10,
    ensures
        c == spec_digit(d as nat),
{
    match d {
        0 => '0',
        1 => '1',
        2 => '2',
        3 => '3',
        4 => '4',
        5 => '5',
        6 => '6',
        7 => '7',
        8 => '8',
        _ => '9',
    }
}

/// Writes `n` in decimal.
pub fn u64_to_string(n: u64) -> (r: String)
    ensures
        r@ == dec_str(n as nat),
    decreases n,
{
    if n < 10 {
        let mut s = String::new();
        push_char(&mut s, digit_char(n));
        proof {
            assert(s@ =~= dec_str(n as nat));
        }
        s
    } else {
        let mut s = u64_to_string(n / 10);
        push_char(&mut s, digit_char(n % 10));
        s
    }
}

/// Renders a byte count for display, as [`spec_format_size`] gives it.
pub fn format_size(bytes: u64) -> (r: String)
    ensures
        r@ == spec_format_size(bytes),
{
    if bytes < 1024 {
        let mut s = u64_to_string(bytes);
        push_char(&mut s, ' ');
        push_char(&mut s, 'B');
        return s;
    }
    let div: u64;
    let unit: char;
    if bytes < 1048576 {
        div = 1024;
        unit = 'K';
    } else if bytes < 1073741824 {
        div = 1048576;
        unit = 'M';
    } else if bytes < 1099511627776 {
        div = 1073741824;
        unit = 'G';
    } else {
        div = 1099511627776;
        unit = 'T';
    }
    let whole = bytes / div;
    let rem = bytes % div;
    let tt = (rem * 10 + div / 2) / div;
    proof {
        lemma_div_nonincreasing(div as int, 2);
        assert(rem * 10 + div / 2 <= 11 * (div as int) - 1);
        lemma_div_is_ordered(rem as int * 10 + div as int / 2, 11 * (div as int) - 1, div as int);
        lemma_fundamental_div_mod_converse(11 * (div as int) - 1, div as int, 10, div as int - 1);
        assert(tt <= 10);
        lemma_div_is_ordered(bytes as int, u64::MAX as int, div as int);
        vstd::arithmetic::div_mod::lemma_div_is_ordered_by_denominator(
            u64::MAX as int,
            1024,
            div as int,
        );
        lemma_fundamental_div_mod_converse(u64::MAX as int, 1024, 18014398509481983, 1023);
        assert(whole < u64::MAX);
    }
    let w2: u64;
    let tenth: u64;
    if tt == 10 {
        w2 = whole + 1;
        tenth = 0;
    } else {
        w2 = whole;
        tenth = tt;
    }
    let mut s = u64_to_string(w2);
    push_char(&mut s, '.');
    push_char(&mut s, digit_char(tenth));
    push_char(&mut s, ' ');
    push_char(&mut s, unit);
    push_char(&mut s, 'B');
    s
}

} // verus!
