//! The settings of a run, as given on the command line.

use vstd::prelude::*;
use vstd::string::StringExecFns;
use crate::numeral::{all_digits, decimal, digit, is_digit, lemma_decimal_grows};
use crate::text::chars_of;

verus! {

/// The settings of a run.
#[derive(Debug)]
pub struct Args {
    pub is_dry_run: bool,
    pub keep_count: usize,
    pub keep_count_snapshot: usize,
    pub show_version: bool,
}

/// How many canonical versions a bucket keeps where nothing else is asked for, as it
/// is written on a command line.
pub const DEFAULT_KEEP: &'static str = "3";

/// How many snapshots a bucket keeps where nothing else is asked for, as it is written
/// on a command line.
pub const DEFAULT_KEEP_SNAPSHOT: &'static str = "1";

/// The digits of a count as it is written: those behind a leading plus sign, if
/// there is one.
pub open spec fn digits_of(s: Seq<char>) -> Seq<char> {
    if s.len() > 0 && s[0] == '+' {
        s.skip(1)
    } else {
        s
    }
}

/// The count that `s` writes: digits, at least one, with or without a plus sign before
/// them, worth no more than `usize::MAX`.
pub open spec fn count_of(s: Seq<char>) -> Option<usize> {
    let d = digits_of(s);
    if d.len() > 0 && all_digits(d) && decimal(d) <= usize::MAX {
        Some(decimal(d) as usize)
    } else {
        None
    }
}

/// The value of what [`try_parse_int`] returns for the text `s` of the setting
/// `var_name`.
pub open spec fn int_outcome(s: Seq<char>, var_name: Seq<char>) -> Result<usize, Seq<char>> {
    match count_of(s) {
        Some(n) => Ok(n),
        None => Err(var_name + " should be integer."@),
    }
}

/// The value of a count or a message.
pub open spec fn outcome_view(r: Result<usize, String>) -> Result<usize, Seq<char>> {
    match r {
        Ok(n) => Ok(n),
        Err(message) => Err(message@),
    }
}

/// The message for a setting whose text writes no count.
fn not_a_count(var_name: &str) -> (r: String)
    ensures
        r@ == var_name@ + " should be integer."@,
{
    String::from_str(var_name).concat(" should be integer.")
}

/// Reads the count that the text `s` writes for the setting `var_name`. The text must
/// write a count: for one that may not, there is [`try_parse_int`].
pub fn parse_int(s: &str, var_name: &str) -> (r: usize)
    requires
        count_of(s@) is Some,
    ensures
        count_of(s@) == Some(r),
{
    let read = try_parse_int(s, var_name);
    read.unwrap()
}

/// Reads the count that the text `s` writes for the setting `var_name`, or tells that
/// it writes none.
pub fn try_parse_int(s: &str, var_name: &str) -> (r: Result<usize, String>)
    ensures
        outcome_view(r) == int_outcome(s@, var_name@),
{
    let t = chars_of(s);
    let from: usize = if t.len() > 0 && t[0] == '+' {
        1
    } else {
        0
    };
    let ghost d = digits_of(s@);
    assert(d =~= t@.skip(from as int));
    if t.len() == from {
        return Err(not_a_count(var_name));
    }
    let mut n: usize = 0;
    let mut i: usize = from;
    while i < t.len()
        invariant
            from <= i <= t.len(),
            d == t@.skip(from as int),
            d == digits_of(s@),
            all_digits(d.take(i - from)),
            n == decimal(d.take(i - from)),
        decreases t.len() - i,
    {
        let c = t[i];
        proof {
            assert(d[i - from] == c);
            assert(d.take(i + 1 - from).drop_last() =~= d.take(i - from));
            assert(d.take(i + 1 - from).last() == c);
            lemma_decimal_grows(d, i + 1 - from);
        }
        if !digit(c) {
            return Err(not_a_count(var_name));
        }
        let v: usize = (c as u32 - '0' as u32) as usize;
        if n > (usize::MAX - v) / 10 {
            proof {
                assert(decimal(d.take(i + 1 - from)) == n * 10 + v);
                assert(n * 10 + v > usize::MAX) by (nonlinear_arith)
                    requires
                        n > (usize::MAX - v) / 10,
                        0 <= v <= 9,
                ;
            }
            return Err(not_a_count(var_name));
        }
        assert(n * 10 + v <= usize::MAX) by (nonlinear_arith)
            requires
                n <= (usize::MAX - v) / 10,
                0 <= v <= 9,
        ;
        proof {
            let a = d.take(i - from);
            let b = d.take(i + 1 - from);
            assert forall|j: int| 0 <= j < b.len() implies is_digit(#[trigger] b[j]) by {
                if j < a.len() {
                    assert(a[j] == b[j]);
                }
            }
        }
        n = n * 10 + v;
        i = i + 1;
    }
    proof {
        assert(d.take(i - from) =~= d);
    }
    Ok(n)
}

/// The settings that the two flags and the two counts, as they were written, come to:
/// the first count that is none is told, the count of canonical versions before that
/// of snapshots.
pub open spec fn settings(
    is_dry_run: bool,
    keep: Seq<char>,
    keep_snapshot: Seq<char>,
    show_version: bool,
) -> Result<Args, Seq<char>> {
    match int_outcome(keep, "keep count"@) {
        Err(message) => Err(message),
        Ok(keep_count) => match int_outcome(keep_snapshot, "keep count snapshot"@) {
            Err(message) => Err(message),
            Ok(keep_count_snapshot) => Ok(
                Args { is_dry_run, keep_count, keep_count_snapshot, show_version },
            ),
        },
    }
}

/// The value of settings or a message.
pub open spec fn settings_view(r: Result<Args, String>) -> Result<Args, Seq<char>> {
    match r {
        Ok(args) => Ok(args),
        Err(message) => Err(message@),
    }
}

impl Args {
    /// The settings of a run, given the two flags and the two counts as they were
    /// written: the count of canonical versions to keep first, then that of
    /// snapshots.
    pub fn from_values(is_dry_run: bool, keep: &str, keep_snapshot: &str, show_version: bool) -> (r:
        Result<Args, String>)
        ensures
            settings_view(r) == settings(is_dry_run, keep@, keep_snapshot@, show_version),
    {
        let keep_count = match try_parse_int(keep, "keep count") {
            Ok(n) => n,
            Err(message) => {
                return Err(message);
            },
        };
        let keep_count_snapshot = match try_parse_int(keep_snapshot, "keep count snapshot") {
            Ok(n) => n,
            Err(message) => {
                return Err(message);
            },
        };
        Ok(Args { is_dry_run, keep_count, keep_count_snapshot, show_version })
    }
}

} // verus!
