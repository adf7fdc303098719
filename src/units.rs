//! Sizes and durations written out for people.
use vstd::prelude::*;

use crate::text::{push_str, string_of};

verus! {

pub const KB: u64 = 1024;

pub const MB: u64 = 1048576;

pub const GB: u64 = 1073741824;

/// The character of a decimal digit.
pub open spec fn digit_char(d: nat) -> char {
    seq!['0', '1', '2', '3', '4', '5', '6', '7', '8', '9'][d as int]
}

/// `n` in decimal, without leading zeros.
pub open spec fn decimal_text(n: nat) -> Seq<char>
    decreases n,
{
    if n < 10 {
        seq![digit_char(n)]
    } else {
        decimal_text(n / 10).push(digit_char(n % 10))
    }
}

/// Appends `n` in decimal.
pub fn push_decimal(out: &mut Vec<char>, n: u128)
    ensures
        final(out)@ == old(out)@ + decimal_text(n as nat),
    decreases n,
{
    let digits: [char; 10] = ['0', '1', '2', '3', '4', '5', '6', '7', '8', '9'];
    assert(digits@ == seq!['0', '1', '2', '3', '4', '5', '6', '7', '8', '9']);
    if n >= 10 {
        push_decimal(out, n / 10);
    }
    out.push(digits[(n % 10) as usize]);
    assert(out@ =~= old(out)@ + decimal_text(n as nat));
}

/// `bytes / unit` in tenths, rounded to nearest with ties to even.
pub open spec fn tenths(bytes: nat, unit: nat) -> nat
    recommends
        unit > 0,
{
    let q = (bytes * 10) / unit;
    let r = (bytes * 10) % unit;
    if 2 * r > unit || (2 * r == unit && q % 2 == 1) {
        q + 1
    } else {
        q
    }
}

/// `bytes / unit` with one decimal.
pub open spec fn one_decimal(bytes: nat, unit: nat) -> Seq<char> {
    let t = tenths(bytes, unit);
    decimal_text(t / 10) + seq!['.'] + decimal_text(t % 10)
}

/// A size in the largest unit that it reaches, with one decimal, or in bytes.
pub open spec fn size_text(bytes: nat) -> Seq<char> {
    if bytes >= GB {
        one_decimal(bytes, GB as nat) + " GB"@
    } else if bytes >= MB {
        one_decimal(bytes, MB as nat) + " MB"@
    } else if bytes >= KB {
        one_decimal(bytes, KB as nat) + " KB"@
    } else {
        decimal_text(bytes) + " B"@
    }
}

fn push_one_decimal(out: &mut Vec<char>, bytes: u64, unit: u64)
    requires
        unit > 0,
    ensures
        final(out)@ == old(out)@ + one_decimal(bytes as nat, unit as nat),
{
    let x: u128 = bytes as u128 * 10;
    let q: u128 = x / unit as u128;
    let r: u128 = x % unit as u128;
    let t: u128 = if 2 * r > unit as u128 || (2 * r == unit as u128 && q % 2 == 1) {
        q + 1
    } else {
        q
    };
    assert(t == tenths(bytes as nat, unit as nat));
    let ghost start = out@;
    push_decimal(out, t / 10);
    out.push('.');
    push_decimal(out, t % 10);
    assert(out@ =~= start + one_decimal(bytes as nat, unit as nat));
}

/// A size in the largest unit that it reaches (KB, MB or GB of 1024), with one decimal, or in
/// bytes.
pub fn format_size(bytes: u64) -> (r: String)
    ensures
        r@ == size_text(bytes as nat),
{
    let mut out: Vec<char> = Vec::new();
    if bytes >= GB {
        push_one_decimal(&mut out, bytes, GB);
        push_str(&mut out, " GB");
    } else if bytes >= MB {
        push_one_decimal(&mut out, bytes, MB);
        push_str(&mut out, " MB");
    } else if bytes >= KB {
        push_one_decimal(&mut out, bytes, KB);
        push_str(&mut out, " KB");
    } else {
        push_decimal(&mut out, bytes as u128);
        push_str(&mut out, " B");
    }
    string_of(out.as_slice())
}

/// `n` in decimal with at least two digits.
pub open spec fn two_digits(n: nat) -> Seq<char> {
    if n < 10 {
        seq!['0'] + decimal_text(n)
    } else {
        decimal_text(n)
    }
}

/// A duration as `h:mm:ss`, or `m:ss` under an hour.
pub open spec fn duration_text(secs: nat) -> Seq<char> {
    let h = secs / 3600;
    let m = (secs % 3600) / 60;
    let s = secs % 60;
    if h > 0 {
        decimal_text(h) + seq![':'] + two_digits(m) + seq![':'] + two_digits(s)
    } else {
        decimal_text(m) + seq![':'] + two_digits(s)
    }
}

pub fn push_two_digits(out: &mut Vec<char>, n: u64)
    ensures
        final(out)@ == old(out)@ + two_digits(n as nat),
{
    let ghost start = out@;
    if n < 10 {
        out.push('0');
    }
    push_decimal(out, n as u128);
    assert(out@ =~= start + two_digits(n as nat));
}

/// A duration in whole seconds as `h:mm:ss`, or `m:ss` under an hour.
pub fn format_duration(total_secs: u64) -> (r: String)
    ensures
        r@ == duration_text(total_secs as nat),
{
    let hours = total_secs / 3600;
    let mins = (total_secs % 3600) / 60;
    let secs = total_secs % 60;
    let mut out: Vec<char> = Vec::new();
    if hours > 0 {
        push_decimal(&mut out, hours as u128);
        out.push(':');
        push_two_digits(&mut out, mins);
        out.push(':');
        push_two_digits(&mut out, secs);
    } else {
        push_decimal(&mut out, mins as u128);
        out.push(':');
        push_two_digits(&mut out, secs);
    }
    assert(out@ =~= duration_text(total_secs as nat));
    string_of(out.as_slice())
}

} // verus!
