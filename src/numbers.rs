//! Human-readable rendering of counts.
use vstd::prelude::*;

verus! {

/// The decimal digit character for `d` (below ten).
pub open spec fn digit_char(d: int) -> char {
    ((48 + d) as u8) as char
}

/// The decimal digits of `n`, most significant first, without leading zeros.
pub open spec fn decimal(n: nat) -> Seq<char>
    decreases n,
{
    if n < 10 {
        seq![digit_char(n as int)]
    } else {
        decimal(n / 10).push(digit_char((n % 10) as int))
    }
}

/// Three digits of `m` (below a thousand), zero-padded.
pub open spec fn three_digits(m: nat) -> Seq<char> {
    seq![digit_char((m / 100) as int), digit_char(((m / 10) % 10) as int), digit_char((m % 10) as int)]
}

/// The decimal digits of `n` with a comma between each group of three,
/// counted from the right.
pub open spec fn with_thousands(n: nat) -> Seq<char>
    decreases n,
{
    if n < 1000 {
        decimal(n)
    } else {
        with_thousands(n / 1000) + seq![','] + three_digits(n % 1000)
    }
}

/// Relies on `String::push` (std): appends one character.
#[verifier::external_body]
fn push_char(s: &mut String, c: char)
    ensures
        final(s)@ == old(s)@.push(c),
{
    s.push(c);
}

fn digit(d: usize) -> (r: char)
    requires
        d < 10,
    ensures
        r == digit_char(d as int),
{
    ((48 + d) as u8) as char
}

fn push_small(s: &mut String, n: usize)
    requires
        n < 1000,
    ensures
        final(s)@ == old(s)@ + decimal(n as nat),
{
    if n >= 100 {
        push_char(s, digit(n / 100));
        push_char(s, digit((n / 10) % 10));
        push_char(s, digit(n % 10));
        assert(decimal((n / 10) as nat) == decimal((n / 100) as nat).push(digit_char(((n / 10) % 10) as int)));
        assert(decimal((n / 100) as nat) == seq![digit_char((n / 100) as int)]);
        assert(final(s)@ =~= old(s)@ + decimal(n as nat));
    } else if n >= 10 {
        push_char(s, digit(n / 10));
        push_char(s, digit(n % 10));
        assert(decimal((n / 10) as nat) == seq![digit_char((n / 10) as int)]);
        assert(final(s)@ =~= old(s)@ + decimal(n as nat));
    } else {
        push_char(s, digit(n));
        assert(final(s)@ =~= old(s)@ + decimal(n as nat));
    }
}

fn push_with_thousands(s: &mut String, n: usize)
    ensures
        final(s)@ == old(s)@ + with_thousands(n as nat),
    decreases n,
{
    if n < 1000 {
        push_small(s, n);
    } else {
        push_with_thousands(s, n / 1000);
        push_char(s, ',');
        let m = n % 1000;
        push_char(s, digit(m / 100));
        push_char(s, digit((m / 10) % 10));
        push_char(s, digit(m % 10));
        assert(final(s)@ =~= old(s)@ + with_thousands(n as nat));
    }
}

/// Writes a count with thousands separators (`1234567` as `1,234,567`).
pub fn pretty_print_int(i: &usize) -> (r: String)
    ensures
        r@ == with_thousands(*i as nat),
{
    let mut s = String::new();
    push_with_thousands(&mut s, *i);
    assert(s@ =~= with_thousands(*i as nat));
    s
}

} // verus!
