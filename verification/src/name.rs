//! The names under which the values of the rules are bound.

use vstd::prelude::*;
use crate::chars::push_char;

verus! {

/// The character that writes the digit `d`.
pub open spec fn digit(d: nat) -> char {
    seq!['0', '1', '2', '3', '4', '5', '6', '7', '8', '9'][d as int]
}

/// `n` written in base ten, without leading zeros.
pub open spec fn decimal(n: nat) -> Seq<char>
    decreases n,
{
    if n < 10 {
        seq![digit(n)]
    } else {
        decimal(n / 10).push(digit(n % 10))
    }
}

/// The name of the value of the rule at position `rule`: the position in
/// base ten between `__value` and `__`.
pub open spec fn value_name_text(rule: nat) -> Seq<char> {
    seq!['_', '_', 'v', 'a', 'l', 'u', 'e'] + decimal(rule) + seq!['_', '_']
}

fn digit_char(d: usize) -> (c: char)
    requires
        d < 10,
    ensures
        c == digit(d as nat),
{
    match d {
        0 => '0',
        1 => '1',
        2 => '2',
        3 => '3',
        4 => '4',
        5 => '5',
        6 => '6',
        7 => '7',
        8 => '8',
        _ => '9',
    }
}

fn push_decimal(n: usize, out: &mut String)
    ensures
        final(out)@ == old(out)@ + decimal(n as nat),
    decreases n,
{
    if n >= 10 {
        push_decimal(n / 10, out);
    }
    push_char(out, digit_char(n % 10));
    assert(final(out)@ =~= old(out)@ + decimal(n as nat));
}

/// The name under which the value of the rule at position `rule` is bound,
/// once, before the formatted text is put together.
pub fn value_name(rule: usize) -> (out: String)
    ensures
        out@ == value_name_text(rule as nat),
{
    let mut out = String::new();
    push_char(&mut out, '_');
    push_char(&mut out, '_');
    push_char(&mut out, 'v');
    push_char(&mut out, 'a');
    push_char(&mut out, 'l');
    push_char(&mut out, 'u');
    push_char(&mut out, 'e');
    push_decimal(rule, &mut out);
    push_char(&mut out, '_');
    push_char(&mut out, '_');
    assert(out@ =~= value_name_text(rule as nat));
    out
}

/// The number that a digit's character writes.
pub open spec fn digit_value(c: char) -> nat {
    if c == '1' {
        1
    } else if c == '2' {
        2
    } else if c == '3' {
        3
    } else if c == '4' {
        4
    } else if c == '5' {
        5
    } else if c == '6' {
        6
    } else if c == '7' {
        7
    } else if c == '8' {
        8
    } else if c == '9' {
        9
    } else {
        0
    }
}

/// The number that a sequence of digits writes in base ten.
pub open spec fn decimal_value(digits: Seq<char>) -> nat
    decreases digits.len(),
{
    if digits.len() == 0 {
        0
    } else {
        decimal_value(digits.drop_last()) * 10 + digit_value(digits.last())
    }
}

/// A number written in base ten reads back as itself.
pub proof fn lemma_decimal_reads_back(n: nat)
    ensures
        decimal_value(decimal(n)) == n,
        decimal(n).len() > 0,
    decreases n,
{
    if n < 10 {
        let one = seq![digit(n)];
        assert(one.drop_last() =~= Seq::<char>::empty());
        assert(decimal_value(one.drop_last()) == 0);
        assert(one.last() == digit(n));
        assert(digit_value(digit(n)) == n);
    } else {
        lemma_decimal_reads_back(n / 10);
        let all = decimal(n / 10).push(digit(n % 10));
        assert(all.drop_last() =~= decimal(n / 10));
        assert(all.last() == digit(n % 10));
        assert(digit_value(digit(n % 10)) == n % 10);
    }
}

/// Two rules at different positions have values with different names, so
/// that no binding hides another.
pub proof fn value_names_are_distinct(first: nat, second: nat)
    requires
        value_name_text(first) == value_name_text(second),
    ensures
        first == second,
{
    let a = value_name_text(first);
    let b = value_name_text(second);
    lemma_decimal_reads_back(first);
    lemma_decimal_reads_back(second);
    assert(a.len() == decimal(first).len() + 9);
    assert(b.len() == decimal(second).len() + 9);
    assert(a.subrange(7, a.len() - 2) =~= decimal(first));
    assert(b.subrange(7, b.len() - 2) =~= decimal(second));
}

} // verus!
