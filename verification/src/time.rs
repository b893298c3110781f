//! Timestamps as plain values.
//!
//! The store never reads the process clock itself: callers pass a
//! `Timestamp` in. A timestamp carries the instant in seconds and the
//! calendar date of that instant, as the caller's time source reports them;
//! the only thing the store ever derives from a timestamp is its
//! `YYYY-MM-DD` date string.

use vstd::prelude::*;

verus! {

/// An instant: seconds since the epoch together with its calendar date.
#[derive(Clone, Copy, PartialEq, Eq, Structural, Debug)]
pub struct Timestamp {
    /// Seconds since the epoch, as the time source reports them.
    pub secs: i64,
    /// Calendar year of the instant, at most 9999 so dates print as four digits.
    pub year: u16,
    /// Calendar month, 1 to 12.
    pub month: u8,
    /// Calendar day of month, 1 to 31.
    pub day: u8,
}

/// The character for a single decimal digit.
pub open spec fn digit_char(d: int) -> char {
    ((48 + d) as u8) as char
}

/// The ten characters `YYYY-MM-DD` of a timestamp's date.
pub open spec fn spec_date_string(ts: Timestamp) -> Seq<char> {
    seq![
        digit_char(ts.year as int / 1000),
        digit_char((ts.year as int / 100) % 10),
        digit_char((ts.year as int / 10) % 10),
        digit_char(ts.year as int % 10),
        '-',
        digit_char(ts.month as int / 10),
        digit_char(ts.month as int % 10),
        '-',
        digit_char(ts.day as int / 10),
        digit_char(ts.day as int % 10),
    ]
}

impl Timestamp {
    /// A date the store can format: four-digit year, valid month and day.
    pub open spec fn wf(self) -> bool {
        &&& self.year <= 9999
        &&& 1 <= self.month <= 12
        &&& 1 <= self.day <= 31
    }

    /// Builds a timestamp from an instant and its calendar date.
    pub fn new(secs: i64, year: u16, month: u8, day: u8) -> (r: Timestamp)
        requires
            year <= 9999,
            1 <= month <= 12,
            1 <= day <= 31,
        ensures
            r == (Timestamp { secs, year, month, day }),
            r.wf(),
    {
        Timestamp { secs, year, month, day }
    }

    /// The date of this instant as `YYYY-MM-DD`.
    pub fn date_string(&self) -> (r: String)
        requires
            self.wf(),
        ensures
            r@ == spec_date_string(*self),
    {
        let mut s = String::new();
        push_digit(&mut s, self.year / 1000);
        push_digit(&mut s, (self.year / 100) % 10);
        push_digit(&mut s, (self.year / 10) % 10);
        push_digit(&mut s, self.year % 10);
        push_dash(&mut s);
        push_digit(&mut s, self.month as u16 / 10);
        push_digit(&mut s, self.month as u16 % 10);
        push_dash(&mut s);
        push_digit(&mut s, self.day as u16 / 10);
        push_digit(&mut s, self.day as u16 % 10);
        proof {
            assert(s@ =~= spec_date_string(*self));
        }
        s
    }
}

/// Appends one decimal digit character.
fn push_digit(s: &mut String, d: u16)
    requires
        d < 10,
    ensures
        final(s)@ == old(s)@ + seq![digit_char(d as int)],
{
    let digits = "0123456789";
    proof {
        reveal_strlit("0123456789");
    }
    let t = digits.substring_char(d as usize, d as usize + 1);
    s.append(t);
    proof {
        assert(t@ =~= seq![digit_char(d as int)]);
    }
}

/// Appends the date separator.
fn push_dash(s: &mut String)
    ensures
        final(s)@ == old(s)@ + seq!['-'],
{
    let dash = "-";
    proof {
        reveal_strlit("-");
    }
    s.append(dash);
    proof {
        assert(dash@ =~= seq!['-']);
    }
}

} // verus!
