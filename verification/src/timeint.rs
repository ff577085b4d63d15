//! A small grammar for `HH:MM-HH:MM` time windows, unrelated to the address
//! grammar: a time of day is one or more digits for the hour, a colon, and
//! one or more digits for the minute; a window is two times joined by `-`.
//! A parse succeeds only when the hour is below 24 and the minute below 60.

use vstd::prelude::*;

use crate::text::{
    digits_val, digitp, is_digit_char, lemma_digits_val_prefix_le, lemma_run_len_bounds, run_len,
    skip_digits, str_to_chars, string_of_range,
};

verus! {

/// A time of day, to minute precision.
#[derive(Debug, PartialEq, Eq, Clone, Copy)]
pub struct TimeOfDay {
    pub hour: u32,
    pub minute: u32,
}

impl TimeOfDay {
    /// A valid time of day lies within the 24-hour clock.
    pub open spec fn is_valid(self) -> bool {
        self.hour < 24 && self.minute < 60
    }

    pub fn new(hour: u32, minute: u32) -> (t: TimeOfDay)
        requires
            hour < 24,
            minute < 60,
        ensures
            t.hour == hour,
            t.minute == minute,
            t.is_valid(),
    {
        TimeOfDay { hour, minute }
    }
}

/// A window between two times of day.  Nothing constrains `from` relative to
/// `to`.
#[derive(Debug, PartialEq, Eq, Clone, Copy)]
pub struct TimeRange {
    pub from: TimeOfDay,
    pub to: TimeOfDay,
}

/// A parse failure of the time grammar: the whole unconsumed input.
#[derive(Debug, PartialEq, Eq, Clone)]
pub struct TimeParseError {
    pub remaining: String,
}

// ===== the grammar, as specification functions =====

/// One or more digits read as a `u32`; a value beyond `u32::MAX` is a
/// failure.
pub open spec fn spec_digits_u32(s: Seq<char>) -> Option<(int, u32)> {
    let d = run_len(s, digitp());
    if d == 0 {
        None
    } else if digits_val(s.subrange(0, d)) > u32::MAX {
        None
    } else {
        Some((d, digits_val(s.subrange(0, d)) as u32))
    }
}

/// `HH:MM`, where the hour and minute must form a valid time of day.
pub open spec fn spec_time(s: Seq<char>) -> Option<(int, TimeOfDay)> {
    match spec_digits_u32(s) {
        None => None,
        Some((d1, hv)) => {
            let rest = s.skip(d1);
            if rest.len() > 0 && rest[0] == ':' {
                match spec_digits_u32(rest.skip(1)) {
                    None => None,
                    Some((d2, mv)) => {
                        if hv < 24 && mv < 60 {
                            Some((d1 + 1 + d2, TimeOfDay { hour: hv, minute: mv }))
                        } else {
                            None
                        }
                    },
                }
            } else {
                None
            }
        },
    }
}

/// `HH:MM-HH:MM`.
pub open spec fn spec_interval(s: Seq<char>) -> Option<(int, TimeRange)> {
    match spec_time(s) {
        None => None,
        Some((n1, from)) => {
            let rest = s.skip(n1);
            if rest.len() > 0 && rest[0] == '-' {
                match spec_time(rest.skip(1)) {
                    None => None,
                    Some((n2, to)) => Some((n1 + 1 + n2, TimeRange { from, to })),
                }
            } else {
                None
            }
        },
    }
}

// ===== executable parsers =====

/// Value of the digits between `from` and `to` as a `u32`, or `None` when it
/// exceeds `u32::MAX`.
fn digits_to_u32(s: &Vec<char>, from: usize, to: usize) -> (r: Option<u32>)
    requires
        from <= to <= s.len(),
        forall|i: int| from <= i < to ==> is_digit_char(#[trigger] s@[i]),
    ensures
        ({
            let dv = digits_val(s@.subrange(from as int, to as int));
            match r {
                Some(v) => v == dv,
                None => dv > u32::MAX,
            }
        }),
{
    let ghost full = s@.subrange(from as int, to as int);
    proof {
        assert forall|k: int| 0 <= k < full.len() implies is_digit_char(#[trigger] full[k]) by {
            assert(full[k] == s@[from + k]);
        }
    }
    let mut acc: u32 = 0;
    let mut i: usize = from;
    while i < to
        invariant
            from <= i <= to <= s.len(),
            forall|k: int| from <= k < to ==> is_digit_char(#[trigger] s@[k]),
            forall|k: int| 0 <= k < full.len() ==> is_digit_char(#[trigger] full[k]),
            full == s@.subrange(from as int, to as int),
            acc == digits_val(s@.subrange(from as int, i as int)),
        decreases to - i,
    {
        let u: u32 = s[i] as u32;
        let d: u32 = u - 48;
        proof {
            assert(s@.subrange(from as int, i + 1 as int).drop_last() =~= s@.subrange(
                from as int,
                i as int,
            ));
            assert(full.subrange(0, i + 1 - from as int) =~= s@.subrange(from as int, i + 1 as int));
            assert(full.subrange(0, full.len() as int) =~= full);
        }
        let step: Option<u32> = match acc.checked_mul(10) {
            Some(m) => m.checked_add(d),
            None => None,
        };
        match step {
            Some(v) => {
                acc = v;
            },
            None => {
                proof {
                    assert(digits_val(s@.subrange(from as int, i + 1 as int)) == acc * 10 + d);
                    lemma_digits_val_prefix_le(full, i + 1 - from as int, full.len() as int);
                }
                return None;
            },
        }
        i = i + 1;
    }
    proof {
        assert(s@.subrange(from as int, to as int) =~= s@.subrange(from as int, i as int));
    }
    Some(acc)
}

fn scan_digits_u32(s: &Vec<char>, pos: usize) -> (r: Option<(usize, u32)>)
    requires
        pos <= s.len(),
    ensures
        ({
            let sp = spec_digits_u32(s@.skip(pos as int));
            match r {
                None => sp is None,
                Some(pr) => pos < pr.0 <= s.len() && sp == Some(((pr.0 - pos) as int, pr.1)),
            }
        }),
{
    let ghost t = s@.skip(pos as int);
    let d_end: usize = skip_digits(s, pos);
    if d_end == pos {
        return None;
    }
    proof {
        assert forall|i: int| pos <= i < d_end implies is_digit_char(#[trigger] s@[i]) by {
            lemma_run_len_bounds(t, digitp());
            assert(t[i - pos] == s@[i]);
        }
        assert(t.subrange(0, d_end - pos) =~= s@.subrange(pos as int, d_end as int));
    }
    match digits_to_u32(s, pos, d_end) {
        Some(v) => Some((d_end, v)),
        None => None,
    }
}

fn scan_time(s: &Vec<char>, pos: usize) -> (r: Option<(usize, TimeOfDay)>)
    requires
        pos <= s.len(),
    ensures
        ({
            let sp = spec_time(s@.skip(pos as int));
            match r {
                None => sp is None,
                Some(pr) => pos < pr.0 <= s.len() && sp == Some(((pr.0 - pos) as int, pr.1)),
            }
        }),
{
    let ghost t = s@.skip(pos as int);
    match scan_digits_u32(s, pos) {
        None => None,
        Some((p1, hv)) => {
            proof {
                assert(t.skip(p1 - pos) =~= s@.skip(p1 as int));
            }
            if p1 < s.len() && s[p1] == ':' {
                proof {
                    assert(s@.skip(p1 as int).skip(1) =~= s@.skip(p1 + 1));
                }
                match scan_digits_u32(s, p1 + 1) {
                    None => None,
                    Some((p2, mv)) => {
                        if hv < 24 && mv < 60 {
                            Some((p2, TimeOfDay { hour: hv, minute: mv }))
                        } else {
                            None
                        }
                    },
                }
            } else {
                None
            }
        },
    }
}

fn scan_interval(s: &Vec<char>, pos: usize) -> (r: Option<(usize, TimeRange)>)
    requires
        pos <= s.len(),
    ensures
        ({
            let sp = spec_interval(s@.skip(pos as int));
            match r {
                None => sp is None,
                Some(pr) => pos < pr.0 <= s.len() && sp == Some(((pr.0 - pos) as int, pr.1)),
            }
        }),
{
    let ghost t = s@.skip(pos as int);
    match scan_time(s, pos) {
        None => None,
        Some((p1, from)) => {
            proof {
                assert(t.skip(p1 - pos) =~= s@.skip(p1 as int));
            }
            if p1 < s.len() && s[p1] == '-' {
                proof {
                    assert(s@.skip(p1 as int).skip(1) =~= s@.skip(p1 + 1));
                }
                match scan_time(s, p1 + 1) {
                    None => None,
                    Some((p2, to)) => Some((p2, TimeRange { from, to })),
                }
            } else {
                None
            }
        },
    }
}

// ===== the public parsers =====

/// Parses one or more digits as a `u32`.
pub fn digit_parse(input: &str) -> (r: Result<(String, u32), TimeParseError>)
    ensures
        ({
            let sp = spec_digits_u32(input@);
            match r {
                Ok(pr) => match sp {
                    Some(q) => pr.1 == q.1 && pr.0@ == input@.skip(q.0),
                    None => false,
                },
                Err(e) => sp is None && e.remaining@ == input@,
            }
        }),
{
    let chars: Vec<char> = str_to_chars(input);
    proof {
        assert(chars@.skip(0) =~= input@);
    }
    match scan_digits_u32(&chars, 0) {
        Some((p, v)) => {
            let rest: String = string_of_range(&chars, p, chars.len());
            proof {
                assert(chars@.subrange(p as int, chars@.len() as int) =~= input@.skip(p as int));
            }
            Ok((rest, v))
        },
        None => Err(TimeParseError { remaining: input.to_owned() }),
    }
}

/// Parses `HH:MM` into a valid time of day.
pub fn parse_time(input: &str) -> (r: Result<(String, TimeOfDay), TimeParseError>)
    ensures
        ({
            let sp = spec_time(input@);
            match r {
                Ok(pr) => match sp {
                    Some(q) => pr.1 == q.1 && pr.1.is_valid() && pr.0@ == input@.skip(q.0),
                    None => false,
                },
                Err(e) => sp is None && e.remaining@ == input@,
            }
        }),
{
    let chars: Vec<char> = str_to_chars(input);
    proof {
        assert(chars@.skip(0) =~= input@);
    }
    match scan_time(&chars, 0) {
        Some((p, t)) => {
            let rest: String = string_of_range(&chars, p, chars.len());
            proof {
                assert(chars@.subrange(p as int, chars@.len() as int) =~= input@.skip(p as int));
            }
            Ok((rest, t))
        },
        None => Err(TimeParseError { remaining: input.to_owned() }),
    }
}

/// Parses `HH:MM-HH:MM` into a time window.
pub fn parse_interval(input: &str) -> (r: Result<(String, TimeRange), TimeParseError>)
    ensures
        ({
            let sp = spec_interval(input@);
            match r {
                Ok(pr) => match sp {
                    Some(q) => pr.1 == q.1 && pr.0@ == input@.skip(q.0),
                    None => false,
                },
                Err(e) => sp is None && e.remaining@ == input@,
            }
        }),
{
    let chars: Vec<char> = str_to_chars(input);
    proof {
        assert(chars@.skip(0) =~= input@);
    }
    match scan_interval(&chars, 0) {
        Some((p, t)) => {
            let rest: String = string_of_range(&chars, p, chars.len());
            proof {
                assert(chars@.subrange(p as int, chars@.len() as int) =~= input@.skip(p as int));
            }
            Ok((rest, t))
        },
        None => Err(TimeParseError { remaining: input.to_owned() }),
    }
}

impl TimeRange {
    pub fn new(from: TimeOfDay, to: TimeOfDay) -> (r: TimeRange)
        ensures
            r.from == from,
            r.to == to,
    {
        TimeRange { from, to }
    }

    /// Parses a window, ignoring anything after it.
    pub fn parse(input: &str) -> (r: Result<TimeRange, TimeParseError>)
        ensures
            ({
                let sp = spec_interval(input@);
                match r {
                    Ok(t) => match sp {
                        Some(q) => t == q.1,
                        None => false,
                    },
                    Err(e) => sp is None && e.remaining@ == input@,
                }
            }),
    {
        match parse_interval(input) {
            Ok((_, t)) => Ok(t),
            Err(e) => Err(e),
        }
    }
}

} // verus!
