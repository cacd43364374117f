//! Time of day as a count of seconds since midnight, with the fixed
//! `HH:MM:SS` text form used by the schedule encoding.

use vstd::prelude::*;
use crate::digits::{digit_char, digit_val, is_digit, digit_to_char, char_to_digit};

verus! {

/// A time of day, stored as whole seconds since midnight.
#[derive(Clone, Copy, PartialEq, Eq, Structural, Debug)]
pub struct TimeOfDay {
    pub secs: u32,
}

/// A day holds `24 * 60 * 60` seconds; a valid time lies strictly below it.
pub const SECS_PER_DAY: u32 = 86400;

impl TimeOfDay {
    /// Whether the time lies within one day.
    pub open spec fn valid(self) -> bool {
        self.secs < 86400
    }

    /// The hour of day.
    pub open spec fn spec_hour(self) -> nat {
        self.secs as nat / 3600
    }

    /// The minute of the hour.
    pub open spec fn spec_minute(self) -> nat {
        (self.secs as nat / 60) % 60
    }

    /// The second of the minute.
    pub open spec fn spec_second(self) -> nat {
        self.secs as nat % 60
    }

    /// Builds a time from hour, minute and second; `None` exactly when a
    /// component is out of range.
    pub fn from_hms(hour: u32, minute: u32, second: u32) -> (r: Option<TimeOfDay>)
        ensures
            r is Some <==> hour < 24 && minute < 60 && second < 60,
            r is Some ==> r->0.secs == hour * 3600 + minute * 60 + second && r->0.valid(),
    {
        if hour < 24 && minute < 60 && second < 60 {
            Some(TimeOfDay { secs: hour * 3600 + minute * 60 + second })
        } else {
            None
        }
    }
}

/// The fixed `HH:MM:SS` rendering of a time, two digits per component.
pub open spec fn time_chars(t: TimeOfDay) -> Seq<char> {
    let h = t.spec_hour();
    let m = t.spec_minute();
    let s = t.spec_second();
    seq![
        digit_char(h / 10),
        digit_char(h % 10),
        ':',
        digit_char(m / 10),
        digit_char(m % 10),
        ':',
        digit_char(s / 10),
        digit_char(s % 10),
    ]
}

/// Whether `s` is an `HH:MM:SS` rendering of a valid time: eight characters,
/// digits in the component positions, colons between them, components in
/// range.
pub open spec fn time_parsable(s: Seq<char>) -> bool {
    &&& s.len() == 8
    &&& is_digit(s[0]) && is_digit(s[1]) && is_digit(s[3]) && is_digit(s[4]) && is_digit(s[6])
        && is_digit(s[7])
    &&& s[2] == ':' && s[5] == ':'
    &&& digit_val(s[0]) * 10 + digit_val(s[1]) < 24
    &&& digit_val(s[3]) * 10 + digit_val(s[4]) < 60
    &&& digit_val(s[6]) * 10 + digit_val(s[7]) < 60
}

/// The time an `HH:MM:SS` rendering denotes.
pub open spec fn parsed_time(s: Seq<char>) -> TimeOfDay {
    TimeOfDay {
        secs: ((digit_val(s[0]) * 10 + digit_val(s[1])) * 3600 + (digit_val(s[3]) * 10 + digit_val(
            s[4],
        )) * 60 + digit_val(s[6]) * 10 + digit_val(s[7])) as u32,
    }
}

/// Rendering a valid time and reading the text back gives the time again.
pub proof fn lemma_time_round_trip(t: TimeOfDay)
    requires
        t.valid(),
    ensures
        time_parsable(time_chars(t)),
        parsed_time(time_chars(t)) == t,
{
    let n = t.secs as int;
    let h = t.spec_hour();
    let m = t.spec_minute();
    let s = t.spec_second();
    assert(h < 24) by {
        vstd::arithmetic::div_mod::lemma_multiply_divide_lt(n, 3600, 24);
    }
    assert(n / 60 == 60 * (n / 60 / 60) + (n / 60) % 60) by {
        vstd::arithmetic::div_mod::lemma_fundamental_div_mod(n / 60, 60);
    }
    assert(n / 60 / 60 == n / 3600) by {
        vstd::arithmetic::div_mod::lemma_div_denominator(n, 60, 60);
    }
    assert(n == 60 * (n / 60) + n % 60) by {
        vstd::arithmetic::div_mod::lemma_fundamental_div_mod(n, 60);
    }
    assert(n == 3600 * h + 60 * m + s);
    assert(h == h / 10 * 10 + h % 10) by {
        vstd::arithmetic::div_mod::lemma_fundamental_div_mod(h as int, 10);
    }
    assert(m == m / 10 * 10 + m % 10) by {
        vstd::arithmetic::div_mod::lemma_fundamental_div_mod(m as int, 10);
    }
    assert(s == s / 10 * 10 + s % 10) by {
        vstd::arithmetic::div_mod::lemma_fundamental_div_mod(s as int, 10);
    }
}

/// The text of a time holds digits and colons only, never `,` or `-`.
pub proof fn lemma_time_chars_shape(t: TimeOfDay)
    ensures
        time_chars(t).len() == 8,
        forall|i: int|
            0 <= i < 8 ==> (is_digit(#[trigger] time_chars(t)[i]) || time_chars(t)[i] == ':'),
{
}

/// Renders a valid time as `HH:MM:SS`.
pub fn time_to_chars(t: &TimeOfDay) -> (v: Vec<char>)
    requires
        t.valid(),
    ensures
        v@ == time_chars(*t),
{
    let h = t.secs / 3600;
    let m = (t.secs / 60) % 60;
    let s = t.secs % 60;
    assert(h < 24) by {
        vstd::arithmetic::div_mod::lemma_multiply_divide_lt(t.secs as int, 3600, 24);
    }
    let mut v: Vec<char> = Vec::new();
    v.push(digit_to_char((h / 10) as usize));
    v.push(digit_to_char((h % 10) as usize));
    v.push(':');
    v.push(digit_to_char((m / 10) as usize));
    v.push(digit_to_char((m % 10) as usize));
    v.push(':');
    v.push(digit_to_char((s / 10) as usize));
    v.push(digit_to_char((s % 10) as usize));
    proof {
        assert(v@ =~= time_chars(*t));
    }
    v
}

/// Reads the eight characters of `s` beginning at `from` as `HH:MM:SS`.
/// Returns `Some` exactly when they form a valid rendering.
pub fn parse_time_range(s: &Vec<char>, from: usize, to: usize) -> (r: Option<TimeOfDay>)
    requires
        from <= to <= s@.len(),
    ensures
        r is Some <==> time_parsable(s@.subrange(from as int, to as int)),
        r is Some ==> r->0 == parsed_time(s@.subrange(from as int, to as int)) && r->0.valid(),
{
    let ghost piece = s@.subrange(from as int, to as int);
    if to - from != 8 {
        return None;
    }
    if s[from + 2] != ':' || s[from + 5] != ':' {
        return None;
    }
    let d0 = char_to_digit(s[from]);
    let d1 = char_to_digit(s[from + 1]);
    let d3 = char_to_digit(s[from + 3]);
    let d4 = char_to_digit(s[from + 4]);
    let d6 = char_to_digit(s[from + 6]);
    let d7 = char_to_digit(s[from + 7]);
    match (d0, d1, d3, d4, d6, d7) {
        (Some(a), Some(b), Some(c), Some(d), Some(e), Some(f)) => {
            let hour = a * 10 + b;
            let minute = c * 10 + d;
            let second = e * 10 + f;
            if hour < 24 && minute < 60 && second < 60 {
                let t = TimeOfDay {
                    secs: (hour * 3600 + minute * 60 + second) as u32,
                };
                assert(t == parsed_time(piece));
                Some(t)
            } else {
                None
            }
        },
        _ => None,
    }
}

} // verus!
