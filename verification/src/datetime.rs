//! Calendar values used by the registry core: creation/update stamps and
//! the day-precision ordering keys of beta and nightly toolchains.
//!
//! The collaborating datastore hands timestamps over as plain calendar
//! fields; this module holds them, orders them, parses the `YYYY-MM-DD`
//! shape found in toolchain descriptors, and renders the canonical
//! `YYYY-MM-DDTHH:MM:SSZ` form used throughout the public views.
use crate::strutil;
use vstd::prelude::*;
use vstd::string::StrSliceExecFns;
use vstd::string::StringExecFns;

verus! {

/// A calendar day.
#[derive(Clone, Copy, PartialEq, Eq, Structural, Debug)]
pub struct Date {
    pub year: u64,
    pub month: u64,
    pub day: u64,
}

/// A calendar day plus a time of day, the registry's timestamp value.
#[derive(Clone, Copy, PartialEq, Eq, Structural, Debug)]
pub struct DateTime {
    pub date: Date,
    pub hour: u64,
    pub minute: u64,
    pub second: u64,
}

impl Date {
    /// Fields form a plausible day: four-digit year, month and day in
    /// calendar range.
    pub open spec fn wf(self) -> bool {
        self.year < 10000 && 1 <= self.month <= 12 && 1 <= self.day <= 31
    }

    /// Strict lexicographic order on (year, month, day).
    pub open spec fn spec_lt(self, other: Date) -> bool {
        self.year < other.year || (self.year == other.year && (self.month < other.month || (
        self.month == other.month && self.day < other.day)))
    }

    /// Comparison in (year, month, day) order.
    pub fn lt(&self, other: &Date) -> (r: bool)
        ensures
            r == self.spec_lt(*other),
    {
        self.year < other.year || (self.year == other.year && (self.month < other.month || (
        self.month == other.month && self.day < other.day)))
    }

    /// Midnight of this day, the instant a day-precision key denotes.
    pub fn midnight(&self) -> (t: DateTime)
        ensures
            t.date == *self,
            t.hour == 0 && t.minute == 0 && t.second == 0,
    {
        DateTime { date: *self, hour: 0, minute: 0, second: 0 }
    }
}

impl DateTime {
    /// Fields form a plausible timestamp.
    pub open spec fn wf(self) -> bool {
        self.date.wf() && self.hour < 24 && self.minute < 60 && self.second < 60
    }

    /// Check the fields at run time.
    pub fn is_plausible(&self) -> (r: bool)
        ensures
            r == self.wf(),
    {
        self.date.year < 10000 && 1 <= self.date.month && self.date.month <= 12 && 1
            <= self.date.day && self.date.day <= 31 && self.hour < 24 && self.minute < 60
            && self.second < 60
    }
}

/// A character standing for a decimal digit.
pub open spec fn is_digit(c: char) -> bool {
    '0' <= c && c <= '9'
}

/// The value of a digit character.
pub open spec fn digit_val(c: char) -> int {
    c as int - '0' as int
}

/// Whether every character of `s` is a decimal digit.
pub open spec fn all_digits(s: Seq<char>) -> bool {
    forall|i: int| 0 <= i < s.len() ==> is_digit(#[trigger] s[i])
}

/// Decimal value of a digit sequence, most significant digit first.
pub open spec fn seq_num(s: Seq<char>) -> int
    decreases s.len(),
{
    if s.len() == 0 {
        0
    } else {
        seq_num(s.drop_last()) * 10 + digit_val(s.last())
    }
}

/// Whether `s` has the exact shape `YYYY-MM-DD` with the month and day in
/// calendar range.
pub open spec fn ymd_wf(s: Seq<char>) -> bool {
    &&& s.len() == 10
    &&& all_digits(s.subrange(0, 4))
    &&& s[4] == '-'
    &&& all_digits(s.subrange(5, 7))
    &&& s[7] == '-'
    &&& all_digits(s.subrange(8, 10))
    &&& 1 <= seq_num(s.subrange(5, 7)) <= 12
    &&& 1 <= seq_num(s.subrange(8, 10)) <= 31
}

/// The day denoted by a well-shaped `YYYY-MM-DD` string.
pub open spec fn ymd_date(s: Seq<char>) -> Date {
    Date {
        year: seq_num(s.subrange(0, 4)) as u64,
        month: seq_num(s.subrange(5, 7)) as u64,
        day: seq_num(s.subrange(8, 10)) as u64,
    }
}

fn digit_of(c: char) -> (r: Option<u64>)
    ensures
        r is Some <==> is_digit(c),
        r matches Some(d) ==> d == digit_val(c) && d <= 9,
{
    if '0' <= c && c <= '9' {
        Some((c as u32 - '0' as u32) as u64)
    } else {
        None
    }
}

proof fn lemma_seq_num_2(s: Seq<char>)
    requires
        s.len() == 2,
    ensures
        seq_num(s) == digit_val(s[0]) * 10 + digit_val(s[1]),
{
    assert(s.drop_last() =~= seq![s[0]]);
    assert(seq![s[0]].drop_last() =~= Seq::<char>::empty());
    assert(seq_num(Seq::<char>::empty()) == 0);
    assert(seq_num(seq![s[0]]) == digit_val(s[0]));
    assert(seq_num(s) == seq_num(s.drop_last()) * 10 + digit_val(s.last()));
}

proof fn lemma_seq_num_4(s: Seq<char>)
    requires
        s.len() == 4,
    ensures
        seq_num(s) == ((digit_val(s[0]) * 10 + digit_val(s[1])) * 10 + digit_val(s[2])) * 10
            + digit_val(s[3]),
{
    lemma_seq_num_2(s.drop_last().drop_last());
    assert(s.drop_last().drop_last() =~= s.subrange(0, 2));
    assert(s.subrange(0, 2)[0] == s[0] && s.subrange(0, 2)[1] == s[1]);
    assert(seq_num(s.drop_last()) == seq_num(s.drop_last().drop_last()) * 10 + digit_val(
        s.drop_last().last(),
    ));
    assert(s.drop_last().last() == s[2] && s.last() == s[3]);
    assert(seq_num(s) == seq_num(s.drop_last()) * 10 + digit_val(s.last()));
}

/// Powers of ten for digit-count bounds.
pub open spec fn tens(i: int) -> int {
    if i <= 0 {
        1
    } else if i == 1 {
        10
    } else if i == 2 {
        100
    } else if i == 3 {
        1000
    } else {
        10000
    }
}

/// Parse a `YYYY-MM-DD` day, rejecting anything of another shape and any
/// month or day outside calendar range.
pub fn parse_ymd(s: &str) -> (r: Option<Date>)
    ensures
        r is Some <==> ymd_wf(s@),
        r matches Some(d) ==> d == ymd_date(s@) && d.wf(),
{
    let n = s.unicode_len();
    if n != 10 {
        return None;
    }
    let c4 = s.get_char(4);
    let c7 = s.get_char(7);
    if c4 != '-' || c7 != '-' {
        return None;
    }
    let mut year: u64 = 0;
    let mut i: usize = 0;
    while i < 4
        invariant
            i <= 4,
            s@.len() == 10,
            forall|j: int| 0 <= j < i ==> is_digit(#[trigger] s@[j]),
            year == seq_num(s@.subrange(0, i as int)),
            year < tens(i as int),
        decreases 4 - i,
    {
        match digit_of(s.get_char(i)) {
            Some(d) => {
                proof {
                    assert(s@.subrange(0, i + 1).drop_last() =~= s@.subrange(0, i as int));
                }
                year = year * 10 + d;
                i = i + 1;
            },
            None => {
                assert(!all_digits(s@.subrange(0, 4))) by {
                    assert(s@.subrange(0, 4)[i as int] == s@[i as int]);
                }
                return None;
            },
        }
    }
    proof {
        assert(s@.subrange(0, 4) =~= s@.subrange(0, 4 as int));
        assert(all_digits(s@.subrange(0, 4))) by {
            assert(forall|j: int| 0 <= j < 4 ==> s@.subrange(0, 4)[j] == s@[j]);
        }
    }
    let m0 = digit_of(s.get_char(5));
    let m1 = digit_of(s.get_char(6));
    let d0 = digit_of(s.get_char(8));
    let d1 = digit_of(s.get_char(9));
    match (m0, m1, d0, d1) {
        (Some(m0), Some(m1), Some(d0), Some(d1)) => {
            let month = m0 * 10 + m1;
            let day = d0 * 10 + d1;
            proof {
                lemma_seq_num_2(s@.subrange(5, 7));
                lemma_seq_num_2(s@.subrange(8, 10));
                assert(s@.subrange(5, 7)[0] == s@[5] && s@.subrange(5, 7)[1] == s@[6]);
                assert(s@.subrange(8, 10)[0] == s@[8] && s@.subrange(8, 10)[1] == s@[9]);
                assert(all_digits(s@.subrange(5, 7)));
                assert(all_digits(s@.subrange(8, 10)));
            }
            if month < 1 || month > 12 || day < 1 || day > 31 {
                return None;
            }
            proof {
                assert(ymd_wf(s@));
                lemma_seq_num_4(s@.subrange(0, 4));
                assert(s@.subrange(0, 4)[0] == s@[0] && s@.subrange(0, 4)[1] == s@[1]
                    && s@.subrange(0, 4)[2] == s@[2] && s@.subrange(0, 4)[3] == s@[3]);
            }
            Some(Date { year, month, day })
        },
        _ => {
            proof {
                if ymd_wf(s@) {
                    assert(s@.subrange(5, 7)[0] == s@[5]);
                    assert(s@.subrange(5, 7)[1] == s@[6]);
                    assert(s@.subrange(8, 10)[0] == s@[8]);
                    assert(s@.subrange(8, 10)[1] == s@[9]);
                }
            }
            None
        },
    }
}

/// Canonical rendering of a timestamp, `YYYY-MM-DDTHH:MM:SSZ`.
pub open spec fn time_repr(t: DateTime) -> Seq<char> {
    strutil::padded_dec4(t.date.year as int) + seq!['-'] + strutil::padded_dec2(t.date.month as int)
        + seq!['-'] + strutil::padded_dec2(t.date.day as int) + seq!['T'] + strutil::padded_dec2(
        t.hour as int,
    ) + seq![':'] + strutil::padded_dec2(t.minute as int) + seq![':'] + strutil::padded_dec2(
        t.second as int,
    ) + seq!['Z']
}

/// Render a timestamp as `YYYY-MM-DDTHH:MM:SSZ`, the form the public
/// views use for every time value.
pub fn encode_time(t: &DateTime) -> (s: String)
    requires
        t.wf(),
    ensures
        s@ == time_repr(*t),
{
    let mut s = strutil::pad4(t.date.year);
    s.append("-");
    s.append(strutil::pad2(t.date.month).as_str());
    s.append("-");
    s.append(strutil::pad2(t.date.day).as_str());
    s.append("T");
    s.append(strutil::pad2(t.hour).as_str());
    s.append(":");
    s.append(strutil::pad2(t.minute).as_str());
    s.append(":");
    s.append(strutil::pad2(t.second).as_str());
    s.append("Z");
    proof {
        reveal_strlit("-");
        reveal_strlit("T");
        reveal_strlit(":");
        reveal_strlit("Z");
        assert(s@ =~= time_repr(*t));
    }
    s
}

/// A well-shaped `YYYY-MM-DD` string denotes a plausible day.
pub proof fn lemma_ymd_date_wf(s: Seq<char>)
    requires
        ymd_wf(s),
    ensures
        ymd_date(s).wf(),
{
    lemma_seq_num_4(s.subrange(0, 4));
    assert(all_digits(s.subrange(0, 4)));
    assert(is_digit(s.subrange(0, 4)[0]) && is_digit(s.subrange(0, 4)[1]) && is_digit(
        s.subrange(0, 4)[2],
    ) && is_digit(s.subrange(0, 4)[3]));
}

} // verus!

