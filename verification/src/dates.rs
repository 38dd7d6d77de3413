use vstd::prelude::*;
use vstd::string::*;

use crate::text::{digit_char, digit_val, is_digit};

verus! {

/// A calendar date, the ordering key for published articles.
#[derive(Clone, Copy, Debug, PartialEq, Eq, Structural)]
pub struct Date {
    pub year: u16,
    pub month: u8,
    pub day: u8,
}

/// Leap years of the proleptic Gregorian calendar.
pub open spec fn is_leap_year(y: int) -> bool {
    y % 4 == 0 && (y % 100 != 0 || y % 400 == 0)
}

/// Number of days of month `m` in year `y`.
pub open spec fn days_in_month(y: int, m: int) -> int {
    if m == 2 {
        if is_leap_year(y) {
            29
        } else {
            28
        }
    } else if m == 4 || m == 6 || m == 9 || m == 11 {
        30
    } else {
        31
    }
}

impl Date {
    /// The date denotes an existing day of the calendar.
    pub open spec fn calendar_valid(self) -> bool {
        &&& 1 <= self.month <= 12
        &&& 1 <= self.day
        &&& self.day as int <= days_in_month(self.year as int, self.month as int)
        &&& self.year <= 9999
    }

    /// A single integer that orders dates chronologically: strictly
    /// monotone in the lexicographic order of (year, month, day)
    /// as long as month < 16 and day < 32.
    pub open spec fn key(self) -> int {
        (self.year * 16 + self.month) * 32 + self.day
    }

    /// The ordering key, as a machine integer.
    pub fn key_val(&self) -> (r: u32)
        ensures
            r as int == self.key(),
    {
        (self.year as u32 * 16 + self.month as u32) * 32 + self.day as u32
    }

    /// Chronological comparison: `self` is on or after `other`.
    pub fn on_or_after(&self, other: &Date) -> (r: bool)
        ensures
            r == (self.key() >= other.key()),
    {
        let a: u32 = (self.year as u32 * 16 + self.month as u32) * 32 + self.day as u32;
        let b: u32 = (other.year as u32 * 16 + other.month as u32) * 32 + other.day as u32;
        a >= b
    }
}

pub fn leap_year(y: u16) -> (r: bool)
    ensures
        r == is_leap_year(y as int),
{
    y % 4 == 0 && (y % 100 != 0 || y % 400 == 0)
}

pub fn month_days(y: u16, m: u8) -> (r: u8)
    ensures
        r as int == days_in_month(y as int, m as int),
{
    if m == 2 {
        if leap_year(y) {
            29
        } else {
            28
        }
    } else if m == 4 || m == 6 || m == 9 || m == 11 {
        30
    } else {
        31
    }
}

/// Value of a run of decimal digits, most significant first.
pub open spec fn num_val(s: Seq<char>) -> int
    decreases s.len(),
{
    if s.len() == 0 {
        0
    } else {
        num_val(s.drop_last()) * 10 + digit_val(s.last())
    }
}

pub open spec fn all_digits(s: Seq<char>) -> bool {
    forall|i: int| 0 <= i < s.len() ==> is_digit(#[trigger] s[i])
}

pub open spec fn pow10(n: nat) -> int
    decreases n,
{
    if n == 0 {
        1
    } else {
        10 * pow10((n - 1) as nat)
    }
}

pub proof fn lemma_num_val_bound(s: Seq<char>)
    requires
        all_digits(s),
    ensures
        0 <= num_val(s) < pow10(s.len()),
    decreases s.len(),
{
    if s.len() == 0 {
    } else {
        assert(all_digits(s.drop_last()));
        lemma_num_val_bound(s.drop_last());
    }
}

/// Value of the characters from `from` to `to`, all decimal digits.
pub fn parse_num(s: &str, from: usize, to: usize) -> (r: u32)
    requires
        from <= to <= s@.len(),
        to - from <= 4,
        all_digits(s@.subrange(from as int, to as int)),
    ensures
        r == num_val(s@.subrange(from as int, to as int)),
        r < pow10((to - from) as nat),
{
    let mut r: u32 = 0;
    let mut i: usize = from;
    proof {
        assert(s@.subrange(from as int, from as int) =~= Seq::<char>::empty());
    }
    while i < to
        invariant
            from <= i <= to <= s@.len(),
            to - from <= 4,
            all_digits(s@.subrange(from as int, to as int)),
            r == num_val(s@.subrange(from as int, i as int)),
            r < pow10((i - from) as nat),
        decreases to - i,
    {
        let c = s.get_char(i);
        proof {
            assert(s@.subrange(from as int, to as int)[i - from] == s@[i as int]);
            assert(is_digit(c));
            let pre = s@.subrange(from as int, i as int + 1);
            assert(pre.drop_last() =~= s@.subrange(from as int, i as int));
            assert(pre.last() == c);
            assert(pow10((i + 1 - from) as nat) == 10 * pow10((i - from) as nat));
            assert(pow10(0) == 1);
            assert(pow10(1) == 10);
            assert(pow10(2) == 100);
            assert(pow10(3) == 1000);
            assert(pow10(4) == 10000);
            assert(pow10((i - from) as nat) <= 1000) by {
                let k = (i - from) as nat;
                assert(pow10(0) == 1);
                assert(pow10(1) == 10);
                assert(pow10(2) == 100);
                assert(pow10(3) == 1000);
                if k == 0 {
                    assert(pow10(k) == pow10(0));
                } else if k == 1 {
                    assert(pow10(k) == pow10(1));
                } else if k == 2 {
                    assert(pow10(k) == pow10(2));
                } else {
                    assert(k == 3);
                    assert(pow10(k) == pow10(3));
                }
            }
        }
        r = r * 10 + (c as u32 - 48);
        i += 1;
    }
    proof {
        lemma_num_val_bound(s@.subrange(from as int, to as int));
    }
    r
}

/// The string has the shape day '.' month '.' year, with a day group of
/// `dl` digits (1 or 2), a month group of `ml` digits (1 or 2), and a
/// year group of exactly 4 digits.
pub open spec fn dmy_shape(s: Seq<char>, dl: int, ml: int) -> bool {
    &&& 1 <= dl <= 2
    &&& 1 <= ml <= 2
    &&& s.len() == dl + ml + 6
    &&& s[dl] == '.'
    &&& s[dl + ml + 1] == '.'
    &&& all_digits(s.subrange(0, dl))
    &&& all_digits(s.subrange(dl + 1, dl + 1 + ml))
    &&& all_digits(s.subrange(dl + ml + 2, s.len() as int))
}

/// The date encoded by a string of shape (dl, ml).
pub open spec fn date_of_parts(s: Seq<char>, dl: int, ml: int) -> Date {
    Date {
        year: num_val(s.subrange(dl + ml + 2, s.len() as int)) as u16,
        month: num_val(s.subrange(dl + 1, dl + 1 + ml)) as u8,
        day: num_val(s.subrange(0, dl)) as u8,
    }
}

/// `d` is the calendar date that the day.month.year string `s` denotes.
pub open spec fn parses_to(s: Seq<char>, d: Date) -> bool {
    &&& exists|dl: int, ml: int| dmy_shape(s, dl, ml) && d == date_of_parts(s, dl, ml)
    &&& d.calendar_valid()
}

/// A string has at most one day.month.year shape.
pub proof fn lemma_shape_unique(s: Seq<char>, dl1: int, ml1: int, dl2: int, ml2: int)
    requires
        dmy_shape(s, dl1, ml1),
        dmy_shape(s, dl2, ml2),
    ensures
        dl1 == dl2,
        ml1 == ml2,
{
    if dl1 < dl2 {
        assert(is_digit(s.subrange(0, dl2)[dl1]));
        assert(false);
    }
    if dl2 < dl1 {
        assert(is_digit(s.subrange(0, dl1)[dl2]));
        assert(false);
    }
    if ml1 < ml2 {
        assert(is_digit(s.subrange(dl2 + 1, dl2 + 1 + ml2)[ml1]));
        assert(false);
    }
    if ml2 < ml1 {
        assert(is_digit(s.subrange(dl1 + 1, dl1 + 1 + ml1)[ml2]));
        assert(false);
    }
}

// ---------------------------------------------------------------------------
// Turning a day-bucket timestamp back into a calendar date, for reports.
// ---------------------------------------------------------------------------

pub open spec fn days_in_year(y: int) -> int {
    if is_leap_year(y) {
        366
    } else {
        365
    }
}

/// Walks whole years forward from `y` while `k` days remain.
pub open spec fn split_year(y: int, k: int) -> (int, int)
    decreases k,
{
    if 0 <= k && k >= days_in_year(y) {
        split_year(y + 1, k - days_in_year(y))
    } else {
        (y, k)
    }
}

/// Walks whole months of year `y` forward from `m` while `k` days
/// remain; yields the month and the one-based day.
pub open spec fn split_month(y: int, m: int, k: int) -> (int, int)
    decreases 12 - m,
{
    if m < 12 && k >= days_in_month(y, m) {
        split_month(y, m + 1, k - days_in_month(y, m))
    } else {
        (m, k + 1)
    }
}

pub open spec fn digit_char_of(d: int) -> char {
    ((48 + d) as u8) as char
}

/// The decimal digits of a non-negative number.
pub open spec fn dec_digits(n: int) -> Seq<char>
    decreases n,
{
    if n < 0 {
        Seq::empty()
    } else if n < 10 {
        seq![digit_char_of(n)]
    } else {
        dec_digits(n / 10).push(digit_char_of(n % 10))
    }
}

pub open spec fn zeros(n: int) -> Seq<char> {
    if n <= 0 {
        Seq::empty()
    } else {
        Seq::new(n as nat, |i: int| '0')
    }
}

/// The decimal digits, zero-padded on the left to width `w`.
pub open spec fn zpadded(n: int, w: int) -> Seq<char> {
    let d = dec_digits(n);
    if d.len() >= w {
        d
    } else {
        zeros(w - d.len()) + d
    }
}

/// Number of whole days from the epoch to the last day the report
/// formats as a date.
pub open spec fn max_report_day() -> int {
    2932896
}

/// The day-bucket timestamp `d`, written as year-month-day; out-of-range
/// moments are named as unformattable.
pub open spec fn date_string_of(d: int) -> Seq<char> {
    if 0 <= d && d / 86400 <= max_report_day() {
        let k = d / 86400;
        let yk = split_year(1970, k);
        let md = split_month(yk.0, 1, yk.1);
        zpadded(yk.0, 4) + seq!['-'] + zpadded(md.0, 2) + seq!['-'] + zpadded(md.1, 2)
    } else {
        "date format failed"@
    }
}

fn leap_year32(y: u32) -> (r: bool)
    ensures
        r == is_leap_year(y as int),
{
    y % 4 == 0 && (y % 100 != 0 || y % 400 == 0)
}

fn year_days32(y: u32) -> (r: u32)
    ensures
        r as int == days_in_year(y as int),
{
    if leap_year32(y) {
        366
    } else {
        365
    }
}

fn month_days32(y: u32, m: u32) -> (r: u32)
    ensures
        r as int == days_in_month(y as int, m as int),
{
    if m == 2 {
        if leap_year32(y) {
            29
        } else {
            28
        }
    } else if m == 4 || m == 6 || m == 9 || m == 11 {
        30
    } else {
        31
    }
}

fn digit_char_exec(d: u64) -> (r: char)
    requires
        d < 10,
    ensures
        r == digit_char_of(d as int),
{
    ((48 + d) as u8) as char
}

/// The decimal digits of `n`.
pub fn dec_u64(n: u64) -> (r: Vec<char>)
    ensures
        r@ == dec_digits(n as int),
    decreases n,
{
    if n < 10 {
        let mut v: Vec<char> = Vec::new();
        v.push(digit_char_exec(n));
        proof {
            assert(v@ =~= seq![digit_char_of(n as int)]);
        }
        v
    } else {
        let mut v = dec_u64(n / 10);
        v.push(digit_char_exec(n % 10));
        v
    }
}

/// The decimal digits of `n`, zero-padded on the left to width `w`.
pub fn zpad_u32(n: u32, w: usize) -> (r: Vec<char>)
    ensures
        r@ == zpadded(n as int, w as int),
{
    let d = dec_u64(n as u64);
    let mut v: Vec<char> = Vec::new();
    if d.len() < w {
        let missing = w - d.len();
        let mut z: usize = 0;
        while z < missing
            invariant
                z <= missing,
                missing == w - dec_digits(n as int).len(),
                dec_digits(n as int).len() < w,
                v@ == zeros(z as int),
            decreases missing - z,
        {
            v.push('0');
            proof {
                assert(v@ =~= zeros(z as int + 1));
            }
            z += 1;
        }
    }
    let ghost zpart = v@;
    let mut j: usize = 0;
    while j < d.len()
        invariant
            j <= d@.len(),
            d@ == dec_digits(n as int),
            v@ == zpart + d@.subrange(0, j as int),
        decreases d@.len() - j,
    {
        v.push(d[j]);
        proof {
            assert(v@ =~= zpart + d@.subrange(0, j as int + 1));
        }
        j += 1;
    }
    proof {
        assert(d@.subrange(0, d@.len() as int) =~= d@);
        if dec_digits(n as int).len() >= w {
            assert(zpart =~= Seq::<char>::empty());
            assert(v@ =~= zpadded(n as int, w as int));
        } else {
            assert(v@ =~= zpadded(n as int, w as int));
        }
    }
    v
}

/// Writes a day-bucket timestamp as a year-month-day date.
pub fn date_string(d: i64) -> (r: String)
    ensures
        r@ == date_string_of(d as int),
{
    if d < 0 || d / 86400 > 2932896 {
        return "date format failed".to_owned();
    }
    let k0 = (d / 86400) as u64;
    let mut y: u32 = 1970;
    let mut k: u64 = k0;
    while k >= year_days32(y) as u64
        invariant
            1970 <= y,
            k <= k0,
            k0 <= 2932896,
            365 * (y - 1970) <= k0 - k,
            split_year(1970, k0 as int) == split_year(y as int, k as int),
        decreases k,
    {
        k = k - year_days32(y) as u64;
        y = y + 1;
    }
    proof {
        assert(split_year(y as int, k as int) == (y as int, k as int));
    }
    let mut m: u32 = 1;
    while m < 12 && k >= month_days32(y, m) as u64
        invariant
            1 <= m <= 12,
            k < days_in_year(y as int),
            split_month(y as int, 1, split_year(1970, k0 as int).1) == split_month(
                y as int,
                m as int,
                k as int,
            ),
        decreases 12 - m,
    {
        k = k - month_days32(y, m) as u64;
        m = m + 1;
    }
    proof {
        assert(split_month(y as int, m as int, k as int) == (m as int, k as int + 1));
    }
    let dd = (k + 1) as u32;
    let ypart = crate::text::string_of_chars(&zpad_u32(y, 4));
    let mpart = crate::text::string_of_chars(&zpad_u32(m, 2));
    let dpart = crate::text::string_of_chars(&zpad_u32(dd, 2));
    let mut out = ypart;
    out.append("-");
    out.append(mpart.as_str());
    out.append("-");
    out.append(dpart.as_str());
    proof {
        reveal_strlit("-");
        assert(seq!['-'] =~= "-"@);
        assert(out@ =~= date_string_of(d as int));
    }
    out
}

/// A string denotes at most one calendar date.
pub proof fn lemma_parses_to_unique(s: Seq<char>, d1: Date, d2: Date)
    requires
        parses_to(s, d1),
        parses_to(s, d2),
    ensures
        d1 == d2,
{
    let (dl1, ml1) = choose|dl: int, ml: int| dmy_shape(s, dl, ml) && d1 == date_of_parts(s, dl, ml);
    let (dl2, ml2) = choose|dl: int, ml: int| dmy_shape(s, dl, ml) && d2 == date_of_parts(s, dl, ml);
    lemma_shape_unique(s, dl1, ml1, dl2, ml2);
}

/// Parses a day.month.year string into the calendar date it denotes,
/// or nothing when the string has no such shape or the date does not
/// exist in the calendar.
pub fn parse_date(s: &str) -> (r: Option<Date>)
    ensures
        match r {
            Some(d) => parses_to(s@, d),
            None => forall|d: Date| !parses_to(s@, d),
        },
{
    let n = s.unicode_len();
    if n < 8 || n > 10 {
        return None;
    }
    // day group
    if !digit_char(s.get_char(0)) {
        proof {
            assert forall|dl: int, ml: int| !dmy_shape(s@, dl, ml) by {
                if dmy_shape(s@, dl, ml) {
                    assert(is_digit(s@.subrange(0, dl)[0]));
                }
            }
        }
        return None;
    }
    let dl: usize;
    if s.get_char(1) == '.' {
        dl = 1;
    } else if digit_char(s.get_char(1)) && s.get_char(2) == '.' {
        dl = 2;
    } else {
        proof {
            assert forall|dl: int, ml: int| !dmy_shape(s@, dl, ml) by {
                if dmy_shape(s@, dl, ml) {
                    if dl == 2 {
                        assert(is_digit(s@.subrange(0, dl)[1]));
                    }
                }
            }
        }
        return None;
    }
    proof {
        assert forall|dla: int, mla: int| dmy_shape(s@, dla, mla) implies dla == dl by {
            if dla != dl {
                if dla < dl as int {
                    assert(is_digit(s@.subrange(0, dl as int)[dla]));
                } else {
                    assert(is_digit(s@.subrange(0, dla)[dl as int]));
                }
            }
        }
    }
    // month group
    let mb = dl + 1;
    if !digit_char(s.get_char(mb)) {
        proof {
            assert forall|dla: int, mla: int| !dmy_shape(s@, dla, mla) by {
                if dmy_shape(s@, dla, mla) {
                    assert(is_digit(s@.subrange(dla + 1, dla + 1 + mla)[0]));
                }
            }
        }
        return None;
    }
    let ml: usize;
    if mb + 1 < n && s.get_char(mb + 1) == '.' {
        ml = 1;
    } else if mb + 2 < n && digit_char(s.get_char(mb + 1)) && s.get_char(mb + 2) == '.' {
        ml = 2;
    } else {
        proof {
            assert forall|dla: int, mla: int| !dmy_shape(s@, dla, mla) by {
                if dmy_shape(s@, dla, mla) {
                    if mla == 2 {
                        assert(is_digit(s@.subrange(dla + 1, dla + 1 + mla)[1]));
                    }
                }
            }
        }
        return None;
    }
    proof {
        assert forall|dla: int, mla: int| dmy_shape(s@, dla, mla) implies dla == dl && mla == ml by {
            if dla < dl as int {
                assert(is_digit(s@.subrange(0, dl as int)[dla]));
            }
            if (dl as int) < dla {
                assert(is_digit(s@.subrange(0, dla)[dl as int]));
            }
            if mla < ml as int {
                assert(is_digit(s@.subrange(dla + 1, dla + 1 + mla)[0]));
                assert(s@[dla + 1 + mla] == '.');
                assert(is_digit(s@.subrange(dl as int + 1, dl as int + 1 + ml as int)[mla]));
            }
            if (ml as int) < mla {
                assert(is_digit(s@.subrange(dla + 1, dla + 1 + mla)[ml as int]));
            }
        }
    }
    // year group: exactly four digits to the end
    let yb = mb + ml + 1;
    if n != yb + 4 {
        return None;
    }
    let mut j: usize = yb;
    while j < n
        invariant
            yb <= j <= n,
            n == s@.len(),
            n == yb + 4,
            yb == dl + ml + 2,
            forall|dla: int, mla: int| dmy_shape(s@, dla, mla) ==> dla == dl && mla == ml,
            forall|k: int| yb <= k < j ==> is_digit(#[trigger] s@[k]),
        decreases n - j,
    {
        if !digit_char(s.get_char(j)) {
            proof {
                assert forall|dla: int, mla: int| !dmy_shape(s@, dla, mla) by {
                    if dmy_shape(s@, dla, mla) {
                        assert(s@.subrange(dla + mla + 2, s@.len() as int)[j - (dla + mla + 2)]
                            == s@[j as int]);
                        assert(is_digit(s@[j as int]));
                    }
                }
            }
            return None;
        }
        j += 1;
    }
    proof {
        assert(all_digits(s@.subrange(0, dl as int))) by {
            assert(forall|k: int|
                0 <= k < dl ==> s@.subrange(0, dl as int)[k] == #[trigger] s@[k]);
        }
        assert(all_digits(s@.subrange(dl as int + 1, dl as int + 1 + ml as int))) by {
            assert(forall|k: int|
                0 <= k < ml ==> s@.subrange(dl as int + 1, dl as int + 1 + ml as int)[k]
                    == #[trigger] s@[dl + 1 + k]);
        }
        assert(all_digits(s@.subrange(yb as int, n as int))) by {
            assert(forall|k: int|
                0 <= k < 4 ==> s@.subrange(yb as int, n as int)[k] == #[trigger] s@[yb + k]);
        }
        assert(dmy_shape(s@, dl as int, ml as int));
    }
    let day32 = parse_num(s, 0, dl);
    let month32 = parse_num(s, mb, mb + ml);
    let year32 = parse_num(s, yb, n);
    proof {
        assert(pow10(0) == 1);
        assert(pow10(1) == 10);
        assert(pow10(2) == 100);
        assert(pow10(3) == 1000);
        assert(pow10(4) == 10000);
    }
    let d = Date { year: year32 as u16, month: month32 as u8, day: day32 as u8 };
    proof {
        assert(d == date_of_parts(s@, dl as int, ml as int));
    }
    // calendar validity
    if d.month < 1 || d.month > 12 || d.day < 1 || d.day > month_days(d.year, d.month) {
        proof {
            assert forall|dd: Date| !parses_to(s@, dd) by {
                if parses_to(s@, dd) {
                    let (dla, mla) = choose|dla: int, mla: int|
                        dmy_shape(s@, dla, mla) && dd == date_of_parts(s@, dla, mla);
                    lemma_shape_unique(s@, dla, mla, dl as int, ml as int);
                    assert(dd == d);
                }
            }
        }
        return None;
    }
    Some(d)
}

} // verus!
