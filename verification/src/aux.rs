//! File names of notes, and the dates written in their front matter.

use vstd::prelude::*;

use chrono::Datelike;

use crate::paths::{
    file_name_of, file_stem_of, join_of, last_segment_len, path_file_name, path_file_stem,
};
use crate::text::{
    chars_of, char_is_decimal_digit, is_ascii_digit, is_decimal_digit, digit_value,
};

verus! {

/// What `format!("{:?}", Path::new(p))` writes for the path `p`: the path
/// between double quotes, with its special characters escaped.
pub uninterp spec fn spec_path_debug(p: Seq<char>) -> Seq<char>;

/// The `Debug` text of `Path::new(p)`.  Its result is named, not stated:
/// the escaping rules of `Debug` are not written out here.
#[verifier::external_body]
fn path_debug(p: &str) -> (r: String)
    ensures
        r@ == spec_path_debug(p@),
{
    format!("{:?}", std::path::Path::new(p))
}

/// The error that `file_stem` gives for a path without a final normal
/// component.
pub open spec fn no_file_stem_error(p: Seq<char>) -> Seq<char> {
    "NO file stam found for "@ + spec_path_debug(p)
}

/// The error that `file_name` gives for a path without a final normal
/// component.
pub open spec fn no_file_name_error(p: Seq<char>) -> Seq<char> {
    "NO file name found for "@ + spec_path_debug(p)
}

/// The stem of the final component of `p` (its name without the last
/// extension).
pub fn file_stem(p: &str) -> (r: Result<String, String>)
    ensures
        match file_stem_of(p@) {
            Some(stem) => r matches Ok(s) && s@ == stem,
            None => r matches Err(e) && e@ == no_file_stem_error(p@),
        },
{
    match path_file_stem(p) {
        Some(s) => Ok(s),
        None => {
            let mut e = String::from_str("NO file stam found for ");
            let d = path_debug(p);
            e.append(d.as_str());
            Err(e)
        },
    }
}

/// The final component of `p`.
pub fn file_name(p: &str) -> (r: Result<String, String>)
    ensures
        match file_name_of(p@) {
            Some(name) => r matches Ok(s) && s@ == name,
            None => r matches Err(e) && e@ == no_file_name_error(p@),
        },
{
    match path_file_name(p) {
        Some(s) => Ok(s),
        None => {
            let mut e = String::from_str("NO file name found for ");
            let d = path_debug(p);
            e.append(d.as_str());
            Err(e)
        },
    }
}

/// Whether the final component of `p` is a hidden file name, one that
/// starts with `.`.
pub open spec fn is_dot_file_spec(p: Seq<char>) -> bool {
    match file_name_of(p) {
        Some(name) => name.len() > 0 && name[0] == '.',
        None => false,
    }
}

/// Whether a path is hidden depends on its final component alone: two
/// paths with the same file name are both hidden or both not.
pub proof fn law_dot_file_by_name(p: Seq<char>, q: Seq<char>)
    ensures
        file_name_of(p) == file_name_of(q) ==> is_dot_file_spec(p) == is_dot_file_spec(q),
{
}

/// The characters after `pre`, when `pre` is empty or ends in `/` and the
/// name `n` holds no `/`, form the last segment.
proof fn lemma_last_segment_of_name(pre: Seq<char>, n: Seq<char>)
    requires
        pre.len() == 0 || pre.last() == '/',
        forall|i: int| 0 <= i < n.len() ==> #[trigger] n[i] != '/',
    ensures
        last_segment_len(pre + n) == n.len(),
    decreases n.len(),
{
    if n.len() == 0 {
        assert(pre + n =~= pre);
    } else {
        assert((pre + n).drop_last() =~= pre + n.drop_last());
        assert((pre + n).last() == n.last());
        lemma_last_segment_of_name(pre, n.drop_last());
    }
}

/// A plain file name `n` (no `/`, neither `.` nor `..`) joined to any
/// directory is hidden exactly when `n` starts with `.`: the directory's
/// own name plays no part, so `./notes/a.md` is no hidden file.
pub proof fn law_dot_file_plain_name(dir: Seq<char>, n: Seq<char>)
    requires
        n.len() > 0,
        forall|i: int| 0 <= i < n.len() ==> #[trigger] n[i] != '/',
        n != seq!['.'],
        n != seq!['.', '.'],
    ensures
        file_name_of(join_of(dir, n)) == Some(n),
        is_dot_file_spec(join_of(dir, n)) == (n[0] == '.'),
{
    let pre = if dir.len() == 0 || dir.last() == '/' {
        dir
    } else {
        dir + seq!['/']
    };
    assert(join_of(dir, n) == pre + n);
    lemma_last_segment_of_name(pre, n);
    let p = pre + n;
    assert(p.subrange(p.len() - n.len(), p.len() as int) =~= n);
}

/// Whether `p` names a hidden file: its final component starts with `.`.
pub fn is_dot_file(p: &str) -> (r: bool)
    ensures
        r == is_dot_file_spec(p@),
{
    match path_file_name(p) {
        Some(name) => {
            let v = chars_of(name.as_str());
            v.len() > 0 && v[0] == '.'
        },
        None => false,
    }
}

/// What `pathdiff::diff_paths(path, base)` gives: `path` relative to `base`.
pub uninterp spec fn spec_diff_paths(path: Seq<char>, base: Seq<char>) -> Option<Seq<char>>;

/// `pathdiff::diff_paths`, on string paths.  The result is named; the
/// contract states only the two cases that the crate's source settles at
/// once: an absolute path against a relative base comes back unchanged,
/// and a relative path against an absolute base has no relative form.
#[verifier::external_body]
fn diff_paths(path: &str, base: &str) -> (r: Option<String>)
    ensures
        r matches Some(s) ==> spec_diff_paths(path@, base@) == Some(s@),
        r is None ==> spec_diff_paths(path@, base@) is None,
        is_absolute(path@) && !is_absolute(base@) ==> r is Some,
        r matches Some(s) ==> (is_absolute(path@) && !is_absolute(base@) ==> s@ == path@),
        !is_absolute(path@) && is_absolute(base@) ==> r is None,
{
    pathdiff::diff_paths(path, base).map(|p| p.to_string_lossy().into_owned())
}

/// Whether a path is absolute: it starts at the root `/`.
pub open spec fn is_absolute(p: Seq<char>) -> bool {
    p.len() > 0 && p[0] == '/'
}

/// `p` relative to the working directory `cwd` where it has such a form,
/// else `p` itself.  A relative path against an absolute working directory,
/// and an absolute path against a relative one, come back unchanged.
pub fn shorten_path(p: &str, cwd: &str) -> (r: String)
    ensures
        r@ == match spec_diff_paths(p@, cwd@) {
            Some(s) => s,
            None => p@,
        },
        is_absolute(p@) != is_absolute(cwd@) ==> r@ == p@,
{
    match diff_paths(p, cwd) {
        Some(s) => s,
        None => p.to_owned(),
    }
}

/// A calendar date read from the `date` field of a front matter.
#[derive(Debug, Clone, Copy, PartialEq, Eq)]
pub struct RelaDateTime {
    pub year: i32,
    pub month: u32,
    pub day: u32,
}

/// Whether `year` is a leap year of the Gregorian calendar.
pub open spec fn is_leap_year(year: int) -> bool {
    year % 4 == 0 && (year % 100 != 0 || year % 400 == 0)
}

/// The number of days of a month of the Gregorian calendar.
pub open spec fn days_in_month(year: int, month: int) -> int {
    if month == 2 {
        if is_leap_year(year) {
            29
        } else {
            28
        }
    } else if month == 4 || month == 6 || month == 9 || month == 11 {
        30
    } else {
        31
    }
}

/// Whether `year-month-day` is a day of the (proleptic) Gregorian calendar.
pub open spec fn is_valid_date(year: int, month: int, day: int) -> bool {
    1 <= month <= 12 && 1 <= day <= days_in_month(year, month)
}

/// `chrono::NaiveDate::from_ymd_opt`, read back through `Datelike`.  The
/// contract states what chrono documents: a date of the proleptic
/// Gregorian calendar comes back with its fields unchanged, and an invalid
/// month or day gives `None` (years 0 to 9999 are all in chrono's range).
#[verifier::external_body]
fn calendar_date(year: i32, month: u32, day: u32) -> (r: Option<(i32, u32, u32)>)
    requires
        0 <= year <= 9999,
    ensures
        r is Some <==> is_valid_date(year as int, month as int, day as int),
        r matches Some(t) ==> t == (year, month, day),
{
    chrono::NaiveDate::from_ymd_opt(year, month, day).map(|d| (d.year(), d.month(), d.day()))
}

/// Whether the date pattern `\d{4}-\d{2}-\d{2}` (`\d` being a Unicode
/// decimal digit) occurs in `s` at index `i`.
pub open spec fn date_pattern_at(s: Seq<char>, i: int) -> bool {
    &&& 0 <= i
    &&& i + 10 <= s.len()
    &&& is_decimal_digit(s[i])
    &&& is_decimal_digit(s[i + 1])
    &&& is_decimal_digit(s[i + 2])
    &&& is_decimal_digit(s[i + 3])
    &&& s[i + 4] == '-'
    &&& is_decimal_digit(s[i + 5])
    &&& is_decimal_digit(s[i + 6])
    &&& s[i + 7] == '-'
    &&& is_decimal_digit(s[i + 8])
    &&& is_decimal_digit(s[i + 9])
}

/// The first index at or after `i` where the date pattern occurs in `s`:
/// the leftmost match of the pattern.
pub open spec fn first_date_from(s: Seq<char>, i: int) -> Option<int>
    decreases s.len() - i,
{
    if i < 0 || i + 10 > s.len() {
        None
    } else if date_pattern_at(s, i) {
        Some(i)
    } else {
        first_date_from(s, i + 1)
    }
}

/// The value of a string of ASCII digits.
pub open spec fn decimal_value(s: Seq<char>) -> int
    decreases s.len(),
{
    if s.len() == 0 {
        0
    } else {
        decimal_value(s.drop_last()) * 10 + digit_value(s.last())
    }
}

/// Whether all characters of `s` are ASCII digits.
pub open spec fn all_ascii_digits(s: Seq<char>) -> bool {
    forall|j: int| 0 <= j < s.len() ==> is_ascii_digit(#[trigger] s[j])
}

/// The date of the first date pattern of `s`, when its digits are ASCII.
pub open spec fn date_of_match(s: Seq<char>, i: int) -> (int, int, int) {
    (
        decimal_value(s.subrange(i, i + 4)),
        decimal_value(s.subrange(i + 5, i + 7)),
        decimal_value(s.subrange(i + 8, i + 10)),
    )
}

/// Whether the digits of the date pattern at `i` are all ASCII, so that
/// they read as numbers.
pub open spec fn match_is_ascii(s: Seq<char>, i: int) -> bool {
    all_ascii_digits(s.subrange(i, i + 4)) && all_ascii_digits(s.subrange(i + 5, i + 7))
        && all_ascii_digits(s.subrange(i + 8, i + 10))
}

/// Whether reading a date from `s` stays clear of an invalid calendar
/// date: the first date pattern of `s`, when its digits are ASCII, names a
/// day of the calendar.
pub open spec fn date_text_ok(s: Seq<char>) -> bool {
    match first_date_from(s, 0) {
        Some(i) => match_is_ascii(s, i) ==> {
            let (y, m, d) = date_of_match(s, i);
            is_valid_date(y, m, d)
        },
        None => true,
    }
}

/// The error for a text without any date.
pub open spec fn no_date_error(s: Seq<char>) -> Seq<char> {
    "No matched dt format for "@ + s
}

/// The error for a date whose digits are not ASCII digits, as the `Debug`
/// text of the integer parse error.
pub open spec fn invalid_digit_error() -> Seq<char> {
    "ParseIntError { kind: InvalidDigit }"@
}

/// The value of the ASCII digits `v[lo..hi]`, or `None` when one of them is
/// not an ASCII digit.
fn parse_digits(v: &Vec<char>, lo: usize, hi: usize) -> (r: Option<u32>)
    requires
        lo <= hi <= v@.len(),
        hi - lo <= 4,
    ensures
        r is Some <==> all_ascii_digits(v@.subrange(lo as int, hi as int)),
        r matches Some(x) ==> x == decimal_value(v@.subrange(lo as int, hi as int)) && x < pow10(
            hi - lo,
        ),
{
    let mut acc: u32 = 0;
    let mut i: usize = lo;
    while i < hi
        invariant
            lo <= i <= hi <= v@.len(),
            hi - lo <= 4,
            all_ascii_digits(v@.subrange(lo as int, i as int)),
            acc == decimal_value(v@.subrange(lo as int, i as int)),
            acc < pow10(i - lo),
        decreases hi - i,
    {
        let c = v[i];
        if !('0' <= c && c <= '9') {
            assert(!all_ascii_digits(v@.subrange(lo as int, hi as int))) by {
                assert(v@.subrange(lo as int, hi as int)[i - lo] == c);
            }
            return None;
        }
        proof {
            lemma_pow10_small((i - lo) as int);
        }
        let ghost prev = v@.subrange(lo as int, i as int);
        assert(v@.subrange(lo as int, i + 1).drop_last() =~= prev);
        acc = acc * 10 + ((c as u32) - ('0' as u32));
        i = i + 1;
        assert(all_ascii_digits(v@.subrange(lo as int, i as int))) by {
            assert forall|j: int| 0 <= j < i - lo implies is_ascii_digit(
                #[trigger] v@.subrange(lo as int, i as int)[j],
            ) by {
                if j < i - 1 - lo {
                    assert(v@.subrange(lo as int, i as int)[j] == prev[j]);
                }
            }
        }
    }
    Some(acc)
}

/// The powers of ten below the fourth.
proof fn lemma_pow10_small(k: int)
    requires
        0 <= k <= 3,
    ensures
        pow10(k) <= 1000,
        pow10(k + 1) == 10 * pow10(k),
{
    reveal_with_fuel(pow10, 5);
}

/// Ten to the power `k`, for the few digits a date field holds.
pub open spec fn pow10(k: int) -> int
    decreases k,
{
    if k <= 0 {
        1
    } else {
        10 * pow10(k - 1)
    }
}

/// Whether the date pattern occurs at `i` in `v`.
fn date_pattern_at_exec(v: &Vec<char>, i: usize) -> (r: bool)
    requires
        i + 10 <= v.len(),
    ensures
        r == date_pattern_at(v@, i as int),
{
    char_is_decimal_digit(v[i]) && char_is_decimal_digit(v[i + 1]) && char_is_decimal_digit(
        v[i + 2],
    ) && char_is_decimal_digit(v[i + 3]) && v[i + 4] == '-' && char_is_decimal_digit(v[i + 5])
        && char_is_decimal_digit(v[i + 6]) && v[i + 7] == '-' && char_is_decimal_digit(v[i + 8])
        && char_is_decimal_digit(v[i + 9])
}

/// The index of the leftmost date pattern of `v`.
fn find_date(v: &Vec<char>) -> (r: Option<usize>)
    ensures
        match r {
            Some(i) => first_date_from(v@, 0) == Some(i as int) && i + 10 <= v.len()
                && date_pattern_at(v@, i as int),
            None => first_date_from(v@, 0) is None,
        },
{
    let n = v.len();
    let mut i: usize = 0;
    while i < n && n - i >= 10
        invariant
            i <= n == v@.len(),
            first_date_from(v@, 0) == first_date_from(v@, i as int),
        decreases n - i,
    {
        if date_pattern_at_exec(v, i) {
            proof {
                lemma_first_date_is_match(v@, 0);
            }
            return Some(i);
        }
        i = i + 1;
    }
    None
}

impl RelaDateTime {
    /// Reads the first date `YYYY-MM-DD` of `s` (the leftmost match of
    /// `\d{4}-\d{2}-\d{2}`).  Fails when `s` holds no such pattern, or when
    /// the digits of the first one are not ASCII digits.
    pub fn from_str(s: &str) -> (r: Result<RelaDateTime, String>)
        requires
            date_text_ok(s@),
        ensures
            match first_date_from(s@, 0) {
                None => r matches Err(e) && e@ == no_date_error(s@),
                Some(i) => if match_is_ascii(s@, i) {
                    r matches Ok(d) && date_of_match(s@, i) == (
                        d.year as int,
                        d.month as int,
                        d.day as int,
                    )
                } else {
                    r matches Err(e) && e@ == invalid_digit_error()
                },
            },
            r matches Ok(d) ==> d.wf(),
    {
        let v = chars_of(s);
        match find_date(&v) {
            None => {
                let mut e = String::from_str("No matched dt format for ");
                e.append(s);
                Err(e)
            },
            Some(i) => {
                let y = parse_digits(&v, i, i + 4);
                let m = parse_digits(&v, i + 5, i + 7);
                let d = parse_digits(&v, i + 8, i + 10);
                match (y, m, d) {
                    (Some(y), Some(m), Some(d)) => {
                        proof {
                            reveal_with_fuel(pow10, 5);
                        }
                        assert(y < 10000);
                        match calendar_date(y as i32, m, d) {
                            Some((yy, mm, dd)) => Ok(RelaDateTime { year: yy, month: mm, day: dd }),
                            None => {
                                proof {
                                    assert(false);
                                }
                                Err(String::new())
                            },
                        }
                    },
                    _ => Err(String::from_str("ParseIntError { kind: InvalidDigit }")),
                }
            },
        }
    }

    /// Whether the date is a day of the calendar, with a year of four
    /// digits.
    pub fn is_wf(&self) -> (r: bool)
        ensures
            r == self.wf(),
    {
        if !(0 <= self.year && self.year <= 9999 && 1 <= self.month && self.month <= 12) {
            return false;
        }
        let m = self.month;
        let leap = self.year % 4 == 0 && (self.year % 100 != 0 || self.year % 400 == 0);
        let days: u32 = if m == 2 {
            if leap {
                29
            } else {
                28
            }
        } else if m == 4 || m == 6 || m == 9 || m == 11 {
            30
        } else {
            31
        };
        1 <= self.day && self.day <= days
    }

    /// The date is a day of the calendar, with a year of four digits.
    pub open spec fn wf(&self) -> bool {
        0 <= self.year <= 9999 && is_valid_date(self.year as int, self.month as int, self.day as int)
    }
}

/// `first_date_from` gives an index where the date pattern occurs.
proof fn lemma_first_date_is_match(s: Seq<char>, i: int)
    requires
        0 <= i,
    ensures
        first_date_from(s, i) matches Some(j) ==> i <= j && date_pattern_at(s, j),
    decreases s.len() - i,
{
    if i + 10 <= s.len() && !date_pattern_at(s, i) {
        lemma_first_date_is_match(s, i + 1);
    }
}

/// Whether reading a date from `s` stays clear of an invalid calendar
/// date; see `RelaDateTime::from_str`, which requires it.
pub fn date_text_is_ok(s: &str) -> (r: bool)
    ensures
        r == date_text_ok(s@),
{
    let v = chars_of(s);
    match find_date(&v) {
        None => true,
        Some(i) => {
            let y = parse_digits(&v, i, i + 4);
            let m = parse_digits(&v, i + 5, i + 7);
            let d = parse_digits(&v, i + 8, i + 10);
            match (y, m, d) {
                (Some(y), Some(m), Some(d)) => {
                    proof {
                        reveal_with_fuel(pow10, 5);
                    }
                    calendar_date(y as i32, m, d).is_some()
                },
                _ => true,
            }
        },
    }
}

} // verus!
