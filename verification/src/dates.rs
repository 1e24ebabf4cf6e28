//! Calendar arithmetic on plain values: leap years, day numbers since the
//! epoch, `YYYY-MM-DD` parsing, day lookups and minute-precision formatting.

use vstd::prelude::*;

use crate::listing::arranged;
use crate::store::{lemma_filter_push, visible, Db};
use crate::text::{chars_of, string_from_chars};
use crate::types::{lemma_vec_deep_view_push, Bookmark, BookmarkView};

verus! {

/// Whether the year is a leap year.
pub open spec fn is_leap(y: int) -> bool {
    y % 4 == 0 && (y % 100 != 0 || y % 400 == 0)
}

/// The number of days in the year.
pub open spec fn days_in_year(y: int) -> int {
    if is_leap(y) {
        366
    } else {
        365
    }
}

/// The number of days in the month (1 through 12).
pub open spec fn days_in_month(y: int, m: int) -> int {
    if m == 2 {
        if is_leap(y) {
            29
        } else {
            28
        }
    } else if m == 4 || m == 6 || m == 9 || m == 11 {
        30
    } else {
        31
    }
}

/// Days from the epoch to the first day of the year.
pub open spec fn days_before_year(y: int) -> int
    decreases y - 1970,
{
    if y <= 1970 {
        0
    } else {
        days_before_year(y - 1) + days_in_year(y - 1)
    }
}

/// Days from the first of the year to the first of the month.
pub open spec fn days_before_month(y: int, m: int) -> int
    decreases m,
{
    if m <= 1 {
        0
    } else {
        days_before_month(y, m - 1) + days_in_month(y, m - 1)
    }
}

/// The day number of a civil date: days since 1970-01-01.
pub open spec fn day_number(y: int, m: int, d: int) -> int {
    days_before_year(y) + days_before_month(y, m) + (d - 1)
}

/// A civil date the engine accepts.
pub open spec fn valid_date(y: int, m: int, d: int) -> bool {
    1970 <= y <= 9999 && 1 <= m <= 12 && 1 <= d <= days_in_month(y, m)
}

/// The numeric value of a decimal digit, or -1.
pub open spec fn digit_val(c: char) -> int {
    match c {
        '0' => 0,
        '1' => 1,
        '2' => 2,
        '3' => 3,
        '4' => 4,
        '5' => 5,
        '6' => 6,
        '7' => 7,
        '8' => 8,
        '9' => 9,
        _ => -1,
    }
}

/// The digit character for a value 0 through 9.
pub open spec fn digit_char(n: int) -> char {
    if n == 0 {
        '0'
    } else if n == 1 {
        '1'
    } else if n == 2 {
        '2'
    } else if n == 3 {
        '3'
    } else if n == 4 {
        '4'
    } else if n == 5 {
        '5'
    } else if n == 6 {
        '6'
    } else if n == 7 {
        '7'
    } else if n == 8 {
        '8'
    } else {
        '9'
    }
}

/// The civil date a `YYYY-MM-DD` string denotes, when it does.
pub open spec fn date_of_str(s: Seq<char>) -> Option<(int, int, int)> {
    if s.len() == 10 && s[4] == '-' && s[7] == '-' && digit_val(s[0]) >= 0 && digit_val(s[1]) >= 0
        && digit_val(s[2]) >= 0 && digit_val(s[3]) >= 0 && digit_val(s[5]) >= 0 && digit_val(s[6])
        >= 0 && digit_val(s[8]) >= 0 && digit_val(s[9]) >= 0 {
        let y = digit_val(s[0]) * 1000 + digit_val(s[1]) * 100 + digit_val(s[2]) * 10 + digit_val(
            s[3],
        );
        let m = digit_val(s[5]) * 10 + digit_val(s[6]);
        let d = digit_val(s[8]) * 10 + digit_val(s[9]);
        if valid_date(y, m, d) {
            Some((y, m, d))
        } else {
            None
        }
    } else {
        None
    }
}

/// Whether the bookmark's creation instant falls on the given local day.
pub open spec fn on_day(b: BookmarkView, off: int, y: int, m: int, d: int) -> bool {
    day_number(y, m, d) * 86400 <= b.creation_time + off < (day_number(y, m, d) + 1) * 86400
}

/// Days from the epoch to the first of a year stay under 366 per year.
pub proof fn lemma_days_before_year_bound(y: int)
    requires
        y >= 1970,
    ensures
        0 <= days_before_year(y) <= 366 * (y - 1970),
    decreases y - 1970,
{
    if y > 1970 {
        lemma_days_before_year_bound(y - 1);
    }
}

/// Days from the first of a year to the first of a month stay under 31 per
/// month.
pub proof fn lemma_days_before_month_bound(y: int, m: int)
    requires
        1 <= m <= 13,
    ensures
        0 <= days_before_month(y, m) <= 31 * (m - 1),
    decreases m,
{
    if m > 1 {
        lemma_days_before_month_bound(y, m - 1);
    }
}

/// The numeric value of a digit character, or -1.
pub fn digit_val_exec(c: char) -> (r: i64)
    ensures
        r == digit_val(c),
{
    match c {
        '0' => 0,
        '1' => 1,
        '2' => 2,
        '3' => 3,
        '4' => 4,
        '5' => 5,
        '6' => 6,
        '7' => 7,
        '8' => 8,
        '9' => 9,
        _ => -1,
    }
}

/// The digit character for a value 0 through 9.
pub fn digit_char_exec(n: i64) -> (r: char)
    requires
        0 <= n <= 9,
    ensures
        r == digit_char(n as int),
{
    if n == 0 {
        '0'
    } else if n == 1 {
        '1'
    } else if n == 2 {
        '2'
    } else if n == 3 {
        '3'
    } else if n == 4 {
        '4'
    } else if n == 5 {
        '5'
    } else if n == 6 {
        '6'
    } else if n == 7 {
        '7'
    } else if n == 8 {
        '8'
    } else {
        '9'
    }
}

/// The number of days in the year, computed.
pub fn days_in_year_exec(y: i64) -> (r: i64)
    requires
        y >= 1,
    ensures
        r == days_in_year(y as int),
{
    if y % 4 == 0 && (y % 100 != 0 || y % 400 == 0) {
        366
    } else {
        365
    }
}

/// The number of days in the month, computed.
pub fn days_in_month_exec(y: i64, m: i64) -> (r: i64)
    requires
        y >= 1,
    ensures
        r == days_in_month(y as int, m as int),
{
    if m == 2 {
        if y % 4 == 0 && (y % 100 != 0 || y % 400 == 0) {
            29
        } else {
            28
        }
    } else if m == 4 || m == 6 || m == 9 || m == 11 {
        30
    } else {
        31
    }
}

/// The day number of a valid civil date, computed.
pub fn day_number_exec(y: i64, m: i64, d: i64) -> (r: i64)
    requires
        valid_date(y as int, m as int, d as int),
    ensures
        r == day_number(y as int, m as int, d as int),
        0 <= r <= 3000000,
{
    let mut acc: i64 = 0;
    let mut y2: i64 = 1970;
    while y2 < y
        invariant
            1970 <= y2 <= y <= 9999,
            acc == days_before_year(y2 as int),
            0 <= acc <= 366 * (y2 - 1970),
        decreases y - y2,
    {
        acc = acc + days_in_year_exec(y2);
        y2 = y2 + 1;
    }
    let mut m2: i64 = 1;
    let ghost base = acc;
    while m2 < m
        invariant
            1970 <= y <= 9999,
            1 <= m2 <= m <= 12,
            base == days_before_year(y as int),
            acc == base + days_before_month(y as int, m2 as int),
            base <= acc <= base + 31 * (m2 - 1),
            0 <= base <= 366 * 8029,
        decreases m - m2,
    {
        acc = acc + days_in_month_exec(y, m2);
        m2 = m2 + 1;
    }
    proof {
        lemma_days_before_year_bound(y as int);
        lemma_days_before_month_bound(y as int, m as int);
    }
    acc + (d - 1)
}

/// The civil date a `YYYY-MM-DD` string denotes, when it does.
pub fn parse_date(s: &str) -> (r: Option<(i64, i64, i64)>)
    ensures
        match r {
            Some(t) => date_of_str(s@) == Some((t.0 as int, t.1 as int, t.2 as int)),
            None => date_of_str(s@) is None,
        },
{
    let cs = chars_of(s);
    if cs.len() != 10 {
        return None;
    }
    if !(cs[4] == '-' && cs[7] == '-') {
        return None;
    }
    let d0 = digit_val_exec(cs[0]);
    let d1 = digit_val_exec(cs[1]);
    let d2 = digit_val_exec(cs[2]);
    let d3 = digit_val_exec(cs[3]);
    let d5 = digit_val_exec(cs[5]);
    let d6 = digit_val_exec(cs[6]);
    let d8 = digit_val_exec(cs[8]);
    let d9 = digit_val_exec(cs[9]);
    if d0 < 0 || d1 < 0 || d2 < 0 || d3 < 0 || d5 < 0 || d6 < 0 || d8 < 0 || d9 < 0 {
        return None;
    }
    let y = d0 * 1000 + d1 * 100 + d2 * 10 + d3;
    let m = d5 * 10 + d6;
    let d = d8 * 10 + d9;
    if 1970 <= y && m >= 1 && m <= 12 && d >= 1 && d <= days_in_month_exec(y, m) {
        Some((y, m, d))
    } else {
        None
    }
}

impl Db {
    /// The visible bookmarks created on the given local calendar day
    /// (`YYYY-MM-DD`), newest first. A string that is not a valid date
    /// matches nothing.
    pub fn get_bookmarks_by_date(&self, date: &str) -> (r: Vec<Bookmark>)
        requires
            self.wf(),
        ensures
            match date_of_str(date@) {
                Some(ymd) => arranged(
                    self@.rows.filter(
                        |b: BookmarkView| visible(b) && on_day(
                            b,
                            self@.local_offset,
                            ymd.0,
                            ymd.1,
                            ymd.2,
                        ),
                    ),
                    r.deep_view(),
                    false,
                ),
                None => r.deep_view() == Seq::<BookmarkView>::empty(),
            },
    {
        let parsed = parse_date(date);
        let (y, m, d) = match parsed {
            Some(t) => t,
            None => {
                let empty: Vec<Bookmark> = Vec::new();
                proof {
                    assert(empty.deep_view() =~= Seq::<BookmarkView>::empty());
                }
                return empty;
            },
        };
        let dn = day_number_exec(y, m, d);
        let off = self.local_offset();
        let lo = dn * 86400 - off;
        let ghost gy = y as int;
        let ghost gm = m as int;
        let ghost gd = d as int;
        let n = self.len();
        let mut out: Vec<Bookmark> = Vec::new();
        let mut i: usize = 0;
        proof {
            assert(out.deep_view() =~= Seq::<BookmarkView>::empty());
            assert(self@.rows.subrange(0, 0).filter(
                |b: BookmarkView| visible(b) && on_day(b, self@.local_offset, gy, gm, gd),
            ) =~= Seq::<BookmarkView>::empty());
        }
        while i < n
            invariant
                self.wf(),
                i <= n,
                n == self@.rows.len(),
                lo == day_number(gy, gm, gd) * 86400 - self@.local_offset,
                0 <= day_number(gy, gm, gd) * 86400 <= 3000000 * 86400,
                out.deep_view() == self@.rows.subrange(0, i as int).filter(
                    |b: BookmarkView| visible(b) && on_day(b, self@.local_offset, gy, gm, gd),
                ),
            decreases n - i,
        {
            let ghost pre = self@.rows.subrange(0, i as int);
            let row = self.bookmark_at(i);
            proof {
                assert(row@.row_wf());
            }
            let ct = row.creation_time;
            let keep = !crate::store::has_private_tag(row) && lo <= ct && ct - lo < 86400;
            proof {
                assert((lo <= ct && ct - lo < 86400) == on_day(
                    row@,
                    self@.local_offset,
                    gy,
                    gm,
                    gd,
                ));
            }
            if keep {
                let ghost out0 = out;
                let b = self.bookmark_at(i).duplicate();
                let ghost bg = b;
                out.push(b);
                proof {
                    lemma_vec_deep_view_push(out0, out, bg);
                }
            }
            i = i + 1;
            proof {
                lemma_filter_push(
                    pre,
                    self@.rows[i - 1],
                    |b: BookmarkView| visible(b) && on_day(b, self@.local_offset, gy, gm, gd),
                );
                assert(self@.rows.subrange(0, i as int) =~= pre.push(self@.rows[i - 1]));
            }
        }
        proof {
            assert(self@.rows.subrange(0, n as int) =~= self@.rows);
        }
        crate::listing::sort_listing(out, false)
    }
}

} // verus!
