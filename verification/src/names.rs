//! Names of generated blocks.

use vstd::prelude::*;
use vstd::string::StringExecFns;

verus! {

/// The decimal digit `d`.
pub open spec fn digit(d: int) -> Seq<char> {
    if d == 0 {
        "0"@
    } else if d == 1 {
        "1"@
    } else if d == 2 {
        "2"@
    } else if d == 3 {
        "3"@
    } else if d == 4 {
        "4"@
    } else if d == 5 {
        "5"@
    } else if d == 6 {
        "6"@
    } else if d == 7 {
        "7"@
    } else if d == 8 {
        "8"@
    } else {
        "9"@
    }
}

/// The decimal digits of `n`.
pub open spec fn digits(n: nat) -> Seq<char>
    decreases n,
{
    if n < 10 {
        digit(n as int)
    } else {
        digits(n / 10) + digit((n % 10) as int)
    }
}

/// `k` in decimal, with a minus sign where it is negative.
pub open spec fn decimal(k: int) -> Seq<char> {
    if k < 0 {
        "-"@ + digits((-k) as nat)
    } else {
        digits(k as nat)
    }
}

fn push_digit(s: &mut String, d: u64)
    requires
        d < 10,
    ensures
        final(s)@ == old(s)@ + digit(d as int),
{
    if d == 0 {
        s.append("0");
    } else if d == 1 {
        s.append("1");
    } else if d == 2 {
        s.append("2");
    } else if d == 3 {
        s.append("3");
    } else if d == 4 {
        s.append("4");
    } else if d == 5 {
        s.append("5");
    } else if d == 6 {
        s.append("6");
    } else if d == 7 {
        s.append("7");
    } else if d == 8 {
        s.append("8");
    } else {
        s.append("9");
    }
}

fn push_digits(s: &mut String, n: u64)
    ensures
        final(s)@ == old(s)@ + digits(n as nat),
    decreases n,
{
    if n < 10 {
        push_digit(s, n);
    } else {
        let ghost start = s@;
        push_digits(s, n / 10);
        push_digit(s, n % 10);
        assert(s@ =~= start + digits(n as nat));
    }
}

/// `prefix` followed by `k` in decimal.
pub fn numbered(prefix: &str, k: i32) -> (r: String)
    ensures
        r@ == prefix@ + decimal(k as int),
{
    let mut s = prefix.to_owned();
    if k < 0 {
        s.append("-");
        let n: u64 = (-(k as i64)) as u64;
        push_digits(&mut s, n);
        assert(s@ =~= prefix@ + ("-"@ + digits(n as nat)));
    } else {
        push_digits(&mut s, k as u64);
    }
    s
}

/// Three names in a row.
pub fn concat3(a: &str, b: &str, c: &str) -> (r: String)
    ensures
        r@ == a@ + b@ + c@,
{
    let mut s = a.to_owned();
    s.append(b);
    s.append(c);
    s
}

} // verus!
