//! Fixed-width text for dates, times and decimal numbers.
use vstd::prelude::*;

verus! {

/// A calendar date as stored in a directory entry.
#[derive(Debug, Clone, Copy, PartialEq, Eq, Structural)]
pub struct Date {
    pub year: u16,
    pub month: u16,
    pub day: u16,
}

/// A time of day with millisecond precision.
#[derive(Debug, Clone, Copy, PartialEq, Eq, Structural)]
pub struct Time {
    pub hour: u16,
    pub min: u16,
    pub sec: u16,
    pub millis: u16,
}

/// A date together with a time of day.
#[derive(Debug, Clone, Copy, PartialEq, Eq, Structural)]
pub struct DateTime {
    pub date: Date,
    pub time: Time,
}

/// The character of a decimal digit.
pub open spec fn digit_char(d: nat) -> char
    recommends
        d < 10,
{
    seq!['0', '1', '2', '3', '4', '5', '6', '7', '8', '9'][d as int]
}

/// The decimal digits of `n`, most significant first, with no leading zero.
pub open spec fn dec_digits(n: nat) -> Seq<char>
    decreases n,
{
    if n < 10 {
        seq![digit_char(n)]
    } else {
        dec_digits(n / 10).push(digit_char(n % 10))
    }
}

/// `n` in decimal, with zeros in front up to `width` characters; a longer
/// number is kept whole.
pub open spec fn zero_pad(n: nat, width: nat) -> Seq<char> {
    let d = dec_digits(n);
    let fill: nat = if d.len() < width {
        (width - d.len()) as nat
    } else {
        0
    };
    Seq::new(fill, |i: int| '0') + d
}

/// `YYYY-MM-DD`.
pub open spec fn date_text(d: Date) -> Seq<char> {
    zero_pad(d.year as nat, 4) + seq!['-'] + zero_pad(d.month as nat, 2) + seq!['-'] + zero_pad(
        d.day as nat,
        2,
    )
}

/// `HH:MM:SS.mmm`.
pub open spec fn time_text(t: Time) -> Seq<char> {
    zero_pad(t.hour as nat, 2) + seq![':'] + zero_pad(t.min as nat, 2) + seq![':'] + zero_pad(
        t.sec as nat,
        2,
    ) + seq!['.'] + zero_pad(t.millis as nat, 3)
}

/// The date, one space, and the time.
pub open spec fn datetime_text(dt: DateTime) -> Seq<char> {
    date_text(dt.date) + seq![' '] + time_text(dt.time)
}

fn digit_str(d: u64) -> (r: &'static str)
    requires
        d < 10,
    ensures
        r@ == seq![digit_char(d as nat)],
{
    let digits = "0123456789";
    proof {
        reveal_strlit("0123456789");
    }
    let r = digits.substring_char(d as usize, d as usize + 1);
    assert(r@ =~= seq![digit_char(d as nat)]);
    r
}

/// Appends the decimal digits of `n`.
pub fn append_decimal(out: &mut String, n: u64)
    ensures
        final(out)@ == old(out)@ + dec_digits(n as nat),
    decreases n,
{
    if n >= 10 {
        append_decimal(out, n / 10);
    }
    out.append(digit_str(n % 10));
    proof {
        if n >= 10 {
            assert(old(out)@ + dec_digits(n as nat) =~= old(out)@ + dec_digits((n / 10) as nat)
                + seq![digit_char((n % 10) as nat)]);
        } else {
            assert(old(out)@ + dec_digits(n as nat) =~= old(out)@ + seq![digit_char(n as nat)]);
        }
    }
}

/// The number of decimal digits of `n`.
pub fn decimal_len(n: u64) -> (r: u64)
    ensures
        r == dec_digits(n as nat).len(),
    decreases n,
{
    if n < 10 {
        1
    } else {
        let k = decimal_len(n / 10);
        proof {
            lemma_dec_digits_len_bound((n / 10) as nat);
        }
        k + 1
    }
}

proof fn lemma_dec_digits_len_bound(n: nat)
    ensures
        dec_digits(n).len() >= 1,
        dec_digits(n).len() <= n + 1,
    decreases n,
{
    if n >= 10 {
        lemma_dec_digits_len_bound(n / 10);
    }
}

/// Appends `n` in decimal with zeros in front up to `width` characters.
pub fn append_padded(out: &mut String, n: u64, width: u64)
    ensures
        final(out)@ == old(out)@ + zero_pad(n as nat, width as nat),
{
    let len = decimal_len(n);
    let mut k: u64 = len;
    while k < width
        invariant
            len <= k,
            len == dec_digits(n as nat).len(),
            k <= width || k == len,
            out@ == old(out)@ + Seq::new((k - len) as nat, |i: int| '0'),
        decreases width - k,
    {
        out.append("0");
        proof {
            reveal_strlit("0");
            assert(out@ =~= old(out)@ + Seq::new((k + 1 - len) as nat, |i: int| '0'));
        }
        k += 1;
    }
    append_decimal(out, n);
    proof {
        assert(out@ =~= old(out)@ + zero_pad(n as nat, width as nat));
    }
}

/// Appends `YYYY-MM-DD`.
pub fn append_date(out: &mut String, d: Date)
    ensures
        final(out)@ == old(out)@ + date_text(d),
{
    proof {
        reveal_strlit("-");
    }
    append_padded(out, d.year as u64, 4);
    out.append("-");
    append_padded(out, d.month as u64, 2);
    out.append("-");
    append_padded(out, d.day as u64, 2);
    assert(out@ =~= old(out)@ + date_text(d));
}

/// Appends `HH:MM:SS.mmm`.
pub fn append_time(out: &mut String, t: Time)
    ensures
        final(out)@ == old(out)@ + time_text(t),
{
    proof {
        reveal_strlit(":");
        reveal_strlit(".");
    }
    append_padded(out, t.hour as u64, 2);
    out.append(":");
    append_padded(out, t.min as u64, 2);
    out.append(":");
    append_padded(out, t.sec as u64, 2);
    out.append(".");
    append_padded(out, t.millis as u64, 3);
    assert(out@ =~= old(out)@ + time_text(t));
}

/// Appends the date, one space and the time.
pub fn append_datetime(out: &mut String, dt: DateTime)
    ensures
        final(out)@ == old(out)@ + datetime_text(dt),
{
    append_date(out, dt.date);
    out.append(" ");
    proof {
        reveal_strlit(" ");
    }
    append_time(out, dt.time);
    assert(out@ =~= old(out)@ + datetime_text(dt));
}

/// A date as `YYYY-MM-DD`, e.g. `2021-03-07`.
pub fn format_date(d: Date) -> (r: String)
    ensures
        r@ == date_text(d),
{
    let mut out = String::new();
    append_date(&mut out, d);
    assert(out@ =~= date_text(d));
    out
}

/// A time as `HH:MM:SS.mmm`, e.g. `09:05:00.120`.
pub fn format_time(t: Time) -> (r: String)
    ensures
        r@ == time_text(t),
{
    let mut out = String::new();
    append_time(&mut out, t);
    assert(out@ =~= time_text(t));
    out
}

/// A timestamp as `YYYY-MM-DD HH:MM:SS.mmm`.
pub fn format_datetime(dt: DateTime) -> (r: String)
    ensures
        r@ == datetime_text(dt),
{
    let mut out = String::new();
    append_datetime(&mut out, dt);
    assert(out@ =~= datetime_text(dt));
    out
}

} // verus!
