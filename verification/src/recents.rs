//! Text shown on the recents start screen.

use vstd::prelude::*;

use crate::persistence::unix_now;
use crate::text::from_chars;

verus! {

/// The decimal digit for `d < 10`.
pub open spec fn digit_char(d: int) -> char {
    ((d + 48) as u32) as char
}

/// The decimal representation of `n`, without leading zeros.
pub open spec fn decimal(n: nat) -> Seq<char>
    decreases n,
{
    if n < 10 {
        seq![digit_char(n as int)]
    } else {
        decimal(n / 10) + seq![digit_char((n % 10) as int)]
    }
}

fn digit(d: u64) -> (r: char)
    requires
        d < 10,
    ensures
        r == digit_char(d as int),
{
    let b = (d as u8) + 48;
    b as char
}

/// `n` written in decimal (`u64::to_string`).
pub fn decimal_string(n: u64) -> (r: String)
    ensures
        r@ == decimal(n as nat),
{
    let mut rev: Vec<char> = Vec::new();
    let mut m = n;
    let ghost mut done: Seq<char> = Seq::empty();
    while m >= 10
        invariant
            decimal(n as nat) == decimal(m as nat) + done,
            rev@ == done.reverse(),
        decreases m,
    {
        let d = digit(m % 10);
        proof {
            assert(decimal(m as nat) == decimal((m / 10) as nat) + seq![d]);
            assert(decimal(n as nat) =~= decimal((m / 10) as nat) + (seq![d] + done));
            assert((seq![d] + done).reverse() =~= done.reverse().push(d));
            done = seq![d] + done;
        }
        rev.push(d);
        m = m / 10;
    }
    let d = digit(m);
    rev.push(d);
    proof {
        assert((seq![d] + done).reverse() =~= done.reverse().push(d));
        done = seq![d] + done;
        assert(decimal(n as nat) == done);
    }
    let mut out: Vec<char> = Vec::new();
    let mut i = rev.len();
    while i > 0
        invariant
            i <= rev.len(),
            rev@ == done.reverse(),
            out@ == rev@.subrange(i as int, rev.len() as int).reverse(),
        decreases i,
    {
        i = i - 1;
        out.push(rev[i]);
        assert(rev@.subrange(i as int, rev.len() as int).reverse() =~= rev@.subrange(
            i + 1,
            rev.len() as int,
        ).reverse().push(rev@[i as int]));
    }
    assert(rev@.subrange(0, rev.len() as int) =~= rev@);
    assert(done.reverse().reverse() =~= done);
    from_chars(out.as_slice())
}

/// How long ago `unix_seconds` was at time `now`, as the start screen
/// shows it: a dash for no time or a time in the future, then "just now",
/// whole minutes, hours or days, and "long ago" from thirty days on.
pub open spec fn relative_spec(unix_seconds: u64, now: u64) -> Seq<char> {
    if unix_seconds == 0 || unix_seconds > now {
        seq!['\u{2014}']
    } else {
        let diff = (now - unix_seconds) as nat;
        if diff < 60 {
            seq!['j', 'u', 's', 't', ' ', 'n', 'o', 'w']
        } else if diff < 3600 {
            decimal(diff / 60) + seq!['m', ' ', 'a', 'g', 'o']
        } else if diff < 86_400 {
            decimal(diff / 3600) + seq!['h', ' ', 'a', 'g', 'o']
        } else if diff < 86_400 * 30 {
            decimal(diff / 86_400) + seq!['d', ' ', 'a', 'g', 'o']
        } else {
            seq!['l', 'o', 'n', 'g', ' ', 'a', 'g', 'o']
        }
    }
}

/// How long ago `unix_seconds` was at time `now`.
pub fn format_relative_at(unix_seconds: u64, now: u64) -> (r: String)
    ensures
        r@ == relative_spec(unix_seconds, now),
{
    if unix_seconds == 0 || unix_seconds > now {
        return from_chars(&['\u{2014}']);
    }
    let diff = now - unix_seconds;
    if diff < 60 {
        from_chars(&['j', 'u', 's', 't', ' ', 'n', 'o', 'w'])
    } else if diff < 3600 {
        with_unit(decimal_string(diff / 60), 'm')
    } else if diff < 86_400 {
        with_unit(decimal_string(diff / 3600), 'h')
    } else if diff < 86_400 * 30 {
        with_unit(decimal_string(diff / 86_400), 'd')
    } else {
        from_chars(&['l', 'o', 'n', 'g', ' ', 'a', 'g', 'o'])
    }
}

fn with_unit(count: String, unit: char) -> (r: String)
    ensures
        r@ == count@ + seq![unit, ' ', 'a', 'g', 'o'],
{
    let mut v = crate::text::to_chars(count.as_str());
    v.push(unit);
    v.push(' ');
    v.push('a');
    v.push('g');
    v.push('o');
    assert(v@ =~= count@ + seq![unit, ' ', 'a', 'g', 'o']);
    from_chars(v.as_slice())
}

/// How long ago `unix_seconds` was, by the system clock.
pub fn format_relative(unix_seconds: u64) -> (r: String)
    ensures
        exists|now: u64| r@ == relative_spec(unix_seconds, now),
{
    let now = unix_now();
    format_relative_at(unix_seconds, now)
}

} // verus!
