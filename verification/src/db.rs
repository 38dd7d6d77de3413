use vstd::prelude::*;
use vstd::string::*;

use crate::dates::{date_string, date_string_of, dec_digits};
use crate::text::{push_char, str_eq};

verus! {

// ---------------------------------------------------------------------------
// The visit counter.
//
// Visits are counted per page and per UTC calendar day.  The table holds
// at most one row per (page, day); an increment creates the row with one
// visit or adds one to it.  The persisted form lives in a relation with
// a uniqueness constraint over (page, day); the statements below are the
// contract with that store, and the table here is the meaning of what
// they do.
// ---------------------------------------------------------------------------

/// One counter row: a page, a day bucket (UTC midnight, epoch seconds),
/// and how many visits were counted.
#[derive(Debug)]
pub struct Stats {
    pub page: String,
    pub clicks: i64,
    pub date: i64,
}

pub struct StatsView {
    pub page: Seq<char>,
    pub clicks: int,
    pub date: int,
}

impl View for Stats {
    type V = StatsView;

    open spec fn view(&self) -> StatsView {
        StatsView { page: self.page@, clicks: self.clicks as int, date: self.date as int }
    }
}

pub open spec fn stats_view(s: Seq<Stats>) -> Seq<StatsView> {
    s.map_values(|r: Stats| r@)
}

impl Stats {
    /// One report line: the page and the day padded to fixed widths,
    /// then the count.  Counter rows never carry a negative count.
    pub fn display_line(&self) -> (r: String)
        requires
            0 <= self.clicks,
        ensures
            r@ == padded(self.page@, 35) + ":"@ + padded(date_string_of(self.date as int), 12)
                + " count:["@ + dec_digits(self.clicks as int) + "]"@,
    {
        let mut out = pad(self.page.as_str(), 35);
        out.append(":");
        let date_part = pad(date_string(self.date).as_str(), 12);
        out.append(date_part.as_str());
        out.append(" count:[");
        let digits = crate::text::string_of_chars(&crate::dates::dec_u64(self.clicks as u64));
        out.append(digits.as_str());
        out.append("]");
        proof {
            assert(out@ =~= padded(self.page@, 35) + ":"@ + padded(
                date_string_of(self.date as int),
                12,
            ) + " count:["@ + dec_digits(self.clicks as int) + "]"@);
        }
        out
    }
}

/// The UTC midnight that starts the day `now` lies in.
pub open spec fn spec_day_bucket(now: int) -> int {
    now - (now % 86400)
}

/// The day bucket of a moment at or after the epoch, as epoch seconds
/// of its UTC midnight.
pub fn day_bucket(now: i64) -> (r: i64)
    requires
        0 <= now,
    ensures
        r == spec_day_bucket(now as int),
        r % 86400 == 0,
        r <= now < r + 86400,
{
    now - (now % 86400)
}

/// First index of the row for (page, date), or -1.
pub open spec fn row_idx(rows: Seq<StatsView>, page: Seq<char>, date: int) -> int
    decreases rows.len(),
{
    if rows.len() == 0 {
        -1
    } else if rows[0].page == page && rows[0].date == date {
        0
    } else {
        let r = row_idx(rows.drop_first(), page, date);
        if r == -1 {
            -1
        } else {
            r + 1
        }
    }
}

pub proof fn lemma_row_idx(rows: Seq<StatsView>, page: Seq<char>, date: int)
    ensures
        row_idx(rows, page, date) == -1 ==> forall|k: int|
            0 <= k < rows.len() ==> !((#[trigger] rows[k]).page == page && rows[k].date == date),
        row_idx(rows, page, date) != -1 ==> {
            &&& 0 <= row_idx(rows, page, date) < rows.len()
            &&& rows[row_idx(rows, page, date)].page == page
            &&& rows[row_idx(rows, page, date)].date == date
            &&& forall|k: int|
                0 <= k < row_idx(rows, page, date) ==> !((#[trigger] rows[k]).page == page
                    && rows[k].date == date)
        },
    decreases rows.len(),
{
    if rows.len() > 0 && !(rows[0].page == page && rows[0].date == date) {
        lemma_row_idx(rows.drop_first(), page, date);
        assert forall|k: int| 1 <= k < rows.len() implies (#[trigger] rows[k])
            == rows.drop_first()[k - 1] by {}
    }
}

/// One increment of the counter: a new row with one visit, or one more
/// visit on the existing row (the count saturates at the machine limit).
pub open spec fn upsert(rows: Seq<StatsView>, page: Seq<char>, date: int) -> Seq<StatsView> {
    let i = row_idx(rows, page, date);
    if i == -1 {
        rows.push(StatsView { page, clicks: 1, date })
    } else {
        let c: int = if rows[i].clicks < i64::MAX {
            rows[i].clicks + 1
        } else {
            rows[i].clicks
        };
        rows.update(i, StatsView { page, clicks: c, date })
    }
}

/// At most one row per (page, day), each with at least one visit.
pub open spec fn counter_wf(rows: Seq<StatsView>) -> bool {
    &&& forall|i: int, j: int|
        0 <= i < j < rows.len() ==> !((#[trigger] rows[i]).page == (#[trigger] rows[j]).page
            && rows[i].date == rows[j].date)
    &&& forall|i: int| 0 <= i < rows.len() ==> 1 <= (#[trigger] rows[i]).clicks <= i64::MAX
}

/// An increment keeps the table well formed.
pub proof fn lemma_upsert_wf(rows: Seq<StatsView>, page: Seq<char>, date: int)
    requires
        counter_wf(rows),
    ensures
        counter_wf(upsert(rows, page, date)),
{
    let i = row_idx(rows, page, date);
    lemma_row_idx(rows, page, date);
    let out = upsert(rows, page, date);
    if i == -1 {
        assert forall|a: int, b: int| 0 <= a < b < out.len() implies !((#[trigger] out[a]).page
            == (#[trigger] out[b]).page && out[a].date == out[b].date) by {
            if b < rows.len() {
                assert(out[a] == rows[a]);
                assert(out[b] == rows[b]);
            } else {
                assert(out[a] == rows[a]);
                assert(out[b] == StatsView { page, clicks: 1, date });
            }
        }
    } else {
        assert forall|a: int, b: int| 0 <= a < b < out.len() implies !((#[trigger] out[a]).page
            == (#[trigger] out[b]).page && out[a].date == out[b].date) by {
            if a != i {
                assert(out[a] == rows[a]);
            }
            if b != i {
                assert(out[b] == rows[b]);
            }
            assert(rows[i].page == page && rows[i].date == date);
        }
    }
}

/// The in-memory visit counter table.
pub struct CounterTable(pub Vec<Stats>);

impl View for CounterTable {
    type V = Seq<StatsView>;

    open spec fn view(&self) -> Seq<StatsView> {
        stats_view(self.0@)
    }
}

impl CounterTable {
    /// An empty counter.
    pub fn new() -> (r: CounterTable)
        ensures
            r@ == Seq::<StatsView>::empty(),
            counter_wf(r@),
    {
        let t = CounterTable(Vec::new());
        proof {
            assert(t@ =~= Seq::<StatsView>::empty());
        }
        t
    }

    /// Records one visit of `page` at the moment `now_secs`.
    pub fn inc(&mut self, page: &str, now_secs: i64)
        requires
            0 <= now_secs,
        ensures
            final(self)@ == upsert(old(self)@, page@, spec_day_bucket(now_secs as int)),
    {
        let day = day_bucket(now_secs);
        let ghost rows = self@;
        let mut i: usize = 0;
        while i < self.0.len()
            invariant
                i <= self.0@.len(),
                self.0@ == old(self).0@,
                rows == stats_view(self.0@),
                rows.len() == self.0@.len(),
                day == spec_day_bucket(now_secs as int),
                forall|k: int|
                    0 <= k < i ==> !((#[trigger] rows[k]).page == page@ && rows[k].date
                        == day as int),
            decreases self.0@.len() - i,
        {
            proof {
                assert(rows[i as int] == self.0@[i as int]@);
            }
            if str_eq(self.0[i].page.as_str(), page) && self.0[i].date == day {
                proof {
                    lemma_row_idx(rows, page@, day as int);
                    assert(row_idx(rows, page@, day as int) == i as int);
                }
                let ghost before = self.0@;
                let mut row = self.0.remove(i);
                if row.clicks < i64::MAX {
                    row.clicks = row.clicks + 1;
                }
                self.0.insert(i, row);
                proof {
                    let c: int = if rows[i as int].clicks < i64::MAX {
                        rows[i as int].clicks + 1
                    } else {
                        rows[i as int].clicks
                    };
                    let nv = StatsView { page: page@, clicks: c, date: day as int };
                    assert(row@ == nv) by {
                        assert(rows[i as int].page == page@);
                    }
                    vstd::seq_lib::lemma_update_is_remove_insert(before, i as int, row);
                    assert(self.0@ =~= before.update(i as int, row));
                    assert(stats_view(self.0@) =~= rows.update(i as int, nv)) by {
                        assert forall|k: int| 0 <= k < self.0@.len() implies stats_view(
                            self.0@,
                        )[k] == rows.update(i as int, nv)[k] by {
                            assert(stats_view(self.0@)[k] == self.0@[k]@);
                            assert(rows[k] == before[k]@);
                            if k != i as int {
                                assert(self.0@[k] == before[k]);
                            }
                        }
                    }
                }
                return ;
            }
            i += 1;
        }
        proof {
            lemma_row_idx(rows, page@, day as int);
            assert(row_idx(rows, page@, day as int) == -1);
        }
        let row = Stats { page: page.to_owned(), clicks: 1, date: day };
        self.0.push(row);
        proof {
            let nv = StatsView { page: page@, clicks: 1, date: day as int };
            assert(stats_view(self.0@) =~= rows.push(nv)) by {
                assert(self.0@ =~= old(self).0@.push(row));
                assert forall|k: int| 0 <= k < self.0@.len() implies stats_view(self.0@)[k]
                    == rows.push(nv)[k] by {
                    assert(stats_view(self.0@)[k] == self.0@[k]@);
                    if k < rows.len() {
                        assert(self.0@[k] == old(self).0@[k]);
                        assert(rows[k] == old(self).0@[k]@);
                    }
                }
            }
        }
    }

    /// Records one visit of `page` now.  What "now" is depends on the
    /// clock; whatever moment the clock yields, the table afterwards is
    /// the old one with that moment's visit counted, and a clock before
    /// the epoch leaves the table unchanged.
    pub fn increment(&mut self, page: &str)
        ensures
            final(self)@ == old(self)@ || exists|now: int|
                0 <= now && final(self)@ == upsert(
                    old(self)@,
                    page@,
                    #[trigger] spec_day_bucket(now),
                ),
    {
        let now = now_unix_seconds();
        if now >= 0 {
            self.inc(page, now);
            proof {
                assert(self@ == upsert(old(self)@, page@, spec_day_bucket(now as int)));
            }
        }
    }
}

/// Relies on time::OffsetDateTime::now_utc and unix_timestamp: the
/// current UTC time as whole seconds since the epoch.
#[verifier::external_body]
fn now_unix_seconds() -> (r: i64) {
    time::OffsetDateTime::now_utc().unix_timestamp()
}

// ---------------------------------------------------------------------------
// Laws of the counter.
// ---------------------------------------------------------------------------

/// The counter after `n` increments of one page on one day.
pub open spec fn upsert_n(rows: Seq<StatsView>, page: Seq<char>, date: int, n: nat) -> Seq<
    StatsView,
>
    decreases n,
{
    if n == 0 {
        rows
    } else {
        upsert(upsert_n(rows, page, date, (n - 1) as nat), page, date)
    }
}

/// Counting a page `n` times within one day yields exactly one row, and
/// it carries `n` visits.
pub proof fn lemma_increment_same_day(page: Seq<char>, date: int, n: nat)
    requires
        1 <= n <= i64::MAX,
    ensures
        upsert_n(Seq::<StatsView>::empty(), page, date, n) == seq![
            StatsView { page, clicks: n as int, date },
        ],
    decreases n,
{
    let rows = Seq::<StatsView>::empty();
    if n == 1 {
        assert(upsert_n(rows, page, date, 0) == rows);
        assert(upsert_n(rows, page, date, 1) == upsert(rows, page, date));
        assert(row_idx(rows, page, date) == -1);
        assert(upsert(rows, page, date) =~= seq![StatsView { page, clicks: 1, date }]);
    } else {
        lemma_increment_same_day(page, date, (n - 1) as nat);
        let prev = seq![StatsView { page, clicks: n - 1, date }];
        assert(upsert_n(rows, page, date, n) == upsert(upsert_n(rows, page, date, (n - 1) as nat), page, date));
        assert(row_idx(prev, page, date) == 0);
        assert(upsert(prev, page, date) =~= seq![StatsView { page, clicks: n as int, date }]);
    }
}

/// Counting a page on two different days yields two rows, one visit each.
pub proof fn lemma_increment_two_days(page: Seq<char>, d1: int, d2: int)
    requires
        d1 != d2,
    ensures
        upsert(upsert(Seq::<StatsView>::empty(), page, d1), page, d2) == seq![
            StatsView { page, clicks: 1, date: d1 },
            StatsView { page, clicks: 1, date: d2 },
        ],
{
    let rows = Seq::<StatsView>::empty();
    assert(row_idx(rows, page, d1) == -1);
    let one = upsert(rows, page, d1);
    assert(one =~= seq![StatsView { page, clicks: 1, date: d1 }]);
    assert(row_idx(one, page, d2) == -1) by {
        assert(one[0].date == d1);
        assert(row_idx(one.drop_first(), page, d2) == -1) by {
            assert(one.drop_first().len() == 0);
        }
    }
    assert(upsert(one, page, d2) =~= seq![
        StatsView { page, clicks: 1, date: d1 },
        StatsView { page, clicks: 1, date: d2 },
    ]);
}

// ---------------------------------------------------------------------------
// The report: the most recent buckets first, capped.
// ---------------------------------------------------------------------------

/// Report order: `a` comes no later than `b` (day descending, position
/// ascending among equal days).
pub open spec fn report_le(a: (int, StatsView), b: (int, StatsView)) -> bool {
    a.1.date > b.1.date || (a.1.date == b.1.date && a.0 <= b.0)
}

pub open spec fn report_sorted(s: Seq<(int, StatsView)>) -> bool {
    forall|i: int, j: int| 0 <= i < j < s.len() ==> report_le(#[trigger] s[i], #[trigger] s[j])
}

pub open spec fn insert_report(s: Seq<(int, StatsView)>, x: (int, StatsView)) -> Seq<
    (int, StatsView),
>
    decreases s.len(),
{
    if s.len() == 0 {
        seq![x]
    } else if report_le(s[0], x) {
        seq![s[0]] + insert_report(s.drop_first(), x)
    } else {
        seq![x] + s
    }
}

pub open spec fn sort_report(s: Seq<(int, StatsView)>) -> Seq<(int, StatsView)>
    decreases s.len(),
{
    if s.len() == 0 {
        Seq::empty()
    } else {
        insert_report(sort_report(s.drop_last()), s.last())
    }
}

pub open spec fn enum_rows(s: Seq<StatsView>) -> Seq<(int, StatsView)> {
    Seq::new(s.len(), |i: int| (i, s[i]))
}

/// The report of a counter table: its rows by day descending, at most
/// `limit` of them.
pub open spec fn spec_stats_report(rows: Seq<StatsView>, limit: int) -> Seq<StatsView> {
    let s = sort_report(enum_rows(rows)).map_values(|p: (int, StatsView)| p.1);
    if limit < s.len() {
        s.subrange(0, limit)
    } else {
        s
    }
}

pub proof fn lemma_insert_report_at(s: Seq<(int, StatsView)>, x: (int, StatsView), p: int)
    requires
        0 <= p <= s.len(),
        forall|k: int| 0 <= k < p ==> report_le(#[trigger] s[k], x),
        p < s.len() ==> !report_le(s[p], x),
    ensures
        insert_report(s, x) == s.subrange(0, p) + seq![x] + s.subrange(p, s.len() as int),
    decreases p,
{
    if p == 0 {
        if s.len() == 0 {
            assert(insert_report(s, x) =~= s.subrange(0, 0) + seq![x] + s.subrange(0, 0));
        } else {
            assert(!report_le(s[0], x));
            assert(insert_report(s, x) =~= s.subrange(0, 0) + seq![x] + s.subrange(
                0,
                s.len() as int,
            ));
        }
    } else {
        assert(report_le(s[0], x));
        let df = s.drop_first();
        assert forall|k: int| 0 <= k < p - 1 implies report_le(#[trigger] df[k], x) by {
            assert(df[k] == s[k + 1]);
        }
        assert(p - 1 < df.len() ==> !report_le(df[p - 1], x)) by {
            if p - 1 < df.len() {
                assert(df[p - 1] == s[p as int]);
            }
        }
        lemma_insert_report_at(df, x, p - 1);
        assert(insert_report(s, x) == seq![s[0]] + insert_report(df, x));
        assert(insert_report(s, x) =~= s.subrange(0, p) + seq![x] + s.subrange(
            p,
            s.len() as int,
        )) by {
            assert(insert_report(df, x) == df.subrange(0, p - 1) + seq![x] + df.subrange(
                p - 1,
                df.len() as int,
            ));
            assert forall|k: int| 0 <= k < df.len() implies df[k] == s[k + 1] by {}
        }
    }
}

pub proof fn lemma_insert_report_contains(
    s: Seq<(int, StatsView)>,
    x: (int, StatsView),
    y: (int, StatsView),
)
    requires
        insert_report(s, x).contains(y),
    ensures
        s.contains(y) || y == x,
    decreases s.len(),
{
    let t = insert_report(s, x);
    let i = choose|i: int| 0 <= i < t.len() && t[i] == y;
    if s.len() == 0 {
        assert(t[0] == x);
    } else if report_le(s[0], x) {
        let df = s.drop_first();
        if i == 0 {
            assert(s[0] == y);
            assert(s.contains(y));
        } else {
            assert(insert_report(df, x)[i - 1] == y);
            assert(insert_report(df, x).contains(y));
            lemma_insert_report_contains(df, x, y);
            if df.contains(y) {
                let j = choose|j: int| 0 <= j < df.len() && df[j] == y;
                assert(s[j + 1] == y);
                assert(s.contains(y));
            }
        }
    } else {
        if i > 0 {
            assert(s[i - 1] == y);
            assert(s.contains(y));
        }
    }
}

pub proof fn lemma_insert_report_sorted(s: Seq<(int, StatsView)>, x: (int, StatsView))
    requires
        report_sorted(s),
    ensures
        report_sorted(insert_report(s, x)),
    decreases s.len(),
{
    if s.len() == 0 {
    } else if report_le(s[0], x) {
        let df = s.drop_first();
        assert forall|i: int, j: int| 0 <= i < j < df.len() implies report_le(
            #[trigger] df[i],
            #[trigger] df[j],
        ) by {
            assert(df[i] == s[i + 1]);
            assert(df[j] == s[j + 1]);
        }
        lemma_insert_report_sorted(df, x);
        let t = insert_report(df, x);
        let r = insert_report(s, x);
        assert(r == seq![s[0]] + t);
        assert forall|i: int, j: int| 0 <= i < j < r.len() implies report_le(
            #[trigger] r[i],
            #[trigger] r[j],
        ) by {
            if i == 0 {
                assert(r[0] == s[0]);
                assert(r[j] == t[j - 1]);
                assert(t.contains(t[j - 1]));
                lemma_insert_report_contains(df, x, t[j - 1]);
                if df.contains(t[j - 1]) {
                    let k = choose|k: int| 0 <= k < df.len() && df[k] == t[j - 1];
                    assert(df[k] == s[k + 1]);
                    assert(report_le(s[0], s[k + 1]));
                } else {
                    assert(t[j - 1] == x);
                }
            } else {
                assert(r[i] == t[i - 1]);
                assert(r[j] == t[j - 1]);
            }
        }
    } else {
        let r = insert_report(s, x);
        assert(r == seq![x] + s);
        assert(report_le(x, s[0]));
        assert forall|i: int, j: int| 0 <= i < j < r.len() implies report_le(
            #[trigger] r[i],
            #[trigger] r[j],
        ) by {
            if i == 0 {
                assert(r[j] == s[j - 1]);
                if j - 1 > 0 {
                    assert(report_le(s[0], s[j - 1]));
                }
            } else {
                assert(r[i] == s[i - 1]);
                assert(r[j] == s[j - 1]);
            }
        }
    }
}

/// The report arrangement is sorted by day descending.
pub proof fn lemma_sort_report_sorted(s: Seq<(int, StatsView)>)
    ensures
        report_sorted(sort_report(s)),
    decreases s.len(),
{
    if s.len() > 0 {
        lemma_sort_report_sorted(s.drop_last());
        lemma_insert_report_sorted(sort_report(s.drop_last()), s.last());
    }
}

pub open spec fn rpairs_view(s: Seq<(usize, Stats)>) -> Seq<(int, StatsView)> {
    s.map_values(|p: (usize, Stats)| (p.0 as int, p.1@))
}

fn report_before(a: &(usize, Stats), b: &(usize, Stats)) -> (r: bool)
    ensures
        r == report_le((a.0 as int, a.1@), (b.0 as int, b.1@)),
{
    a.1.date > b.1.date || (a.1.date == b.1.date && a.0 <= b.0)
}

impl CounterTable {
    /// The most recent day buckets, by day descending, at most `limit`
    /// rows.
    pub fn stats(&self, limit: usize) -> (r: Vec<Stats>)
        ensures
            stats_view(r@) == spec_stats_report(self@, limit as int),
            r@.len() <= limit,
            forall|i: int, j: int|
                0 <= i < j < r@.len() ==> (#[trigger] r@[i])@.date >= (#[trigger] r@[j])@.date,
    {
        let ghost rows = self@;
        let ghost erows = enum_rows(rows);
        // arrange indexed copies of the rows in report order
        let mut out: Vec<(usize, Stats)> = Vec::new();
        let mut t: usize = 0;
        proof {
            assert(rpairs_view(out@) =~= sort_report(erows.subrange(0, 0)));
        }
        while t < self.0.len()
            invariant
                t <= self.0@.len(),
                rows == stats_view(self.0@),
                rows.len() == self.0@.len(),
                erows == enum_rows(rows),
                erows.len() == rows.len(),
                rpairs_view(out@) == sort_report(erows.subrange(0, t as int)),
            decreases self.0@.len() - t,
        {
            let row = &self.0[t];
            let x = (t, Stats { page: row.page.clone(), clicks: row.clicks, date: row.date });
            let ghost xv = (x.0 as int, x.1@);
            proof {
                assert(rows[t as int] == self.0@[t as int]@);
                assert(xv == erows[t as int]);
            }
            let mut p: usize = 0;
            while p < out.len() && report_before(&out[p], &x)
                invariant
                    p <= out@.len(),
                    t <= self.0@.len(),
                    erows == enum_rows(rows),
                    xv == (x.0 as int, x.1@),
                    rpairs_view(out@) == sort_report(erows.subrange(0, t as int)),
                    forall|k: int| 0 <= k < p ==> report_le(#[trigger] rpairs_view(out@)[k], xv),
                decreases out@.len() - p,
            {
                proof {
                    assert(rpairs_view(out@)[p as int] == (
                        out@[p as int].0 as int,
                        out@[p as int].1@,
                    ));
                }
                p += 1;
            }
            proof {
                if p < out.len() {
                    assert(rpairs_view(out@)[p as int] == (
                        out@[p as int].0 as int,
                        out@[p as int].1@,
                    ));
                }
                lemma_insert_report_at(rpairs_view(out@), xv, p as int);
            }
            let ghost out_prev = out@;
            out.insert(p, x);
            proof {
                assert(rpairs_view(out@) =~= insert_report(rpairs_view(out_prev), xv)) by {
                    assert(insert_report(rpairs_view(out_prev), xv) == rpairs_view(
                        out_prev,
                    ).subrange(0, p as int) + seq![xv] + rpairs_view(out_prev).subrange(
                        p as int,
                        rpairs_view(out_prev).len() as int,
                    ));
                    assert(out@ == out_prev.insert(p as int, x));
                    assert forall|k: int| 0 <= k < out@.len() implies rpairs_view(out@)[k]
                        == insert_report(rpairs_view(out_prev), xv)[k] by {
                        if k < p {
                            assert(out@[k] == out_prev[k]);
                        } else if k == p {
                            assert(out@[k] == x);
                        } else {
                            assert(out@[k] == out_prev[k - 1]);
                        }
                    }
                }
                assert(erows.subrange(0, t as int + 1).drop_last() =~= erows.subrange(
                    0,
                    t as int,
                ));
                assert(erows.subrange(0, t as int + 1).last() == xv);
            }
            t += 1;
        }
        proof {
            assert(erows.subrange(0, t as int) =~= erows);
        }
        // keep the first `limit` rows, stripped of their positions
        let ghost full = sort_report(erows).map_values(|p: (int, StatsView)| p.1);
        let mut r: Vec<Stats> = Vec::new();
        let mut k: usize = 0;
        let mut out = out;
        proof {
            assert(stats_view(r@) =~= full.subrange(0, 0));
            assert(rpairs_view(out@) =~= sort_report(erows).subrange(
                0,
                sort_report(erows).len() as int,
            ));
        }
        while k < limit && out.len() > 0
            invariant
                k <= limit,
                k <= full.len(),
                full == sort_report(erows).map_values(|p: (int, StatsView)| p.1),
                full.len() == sort_report(erows).len(),
                rpairs_view(out@) == sort_report(erows).subrange(
                    k as int,
                    sort_report(erows).len() as int,
                ),
                stats_view(r@) == full.subrange(0, k as int),
                r@.len() == k,
            decreases out@.len(),
        {
            let ghost out_prev = out@;
            let pair = out.remove(0);
            let (_, row) = pair;
            proof {
                let so = sort_report(erows);
                assert(rpairs_view(out_prev).len() == out_prev.len());
                assert(k < so.len());
                assert(so.subrange(k as int, so.len() as int)[0] == so[k as int]);
                assert(rpairs_view(out_prev)[0] == (pair.0 as int, pair.1@));
                assert(row@ == so[k as int].1);
                assert(full[k as int] == so[k as int].1);
                assert(rpairs_view(out@) =~= so.subrange(k as int + 1, so.len() as int)) by {
                    assert forall|k2: int| 0 <= k2 < out@.len() implies rpairs_view(out@)[k2]
                        == so[k as int + 1 + k2] by {
                        assert(out@[k2] == out_prev[k2 + 1]);
                        assert(rpairs_view(out_prev)[k2 + 1] == so.subrange(
                            k as int,
                            so.len() as int,
                        )[k2 + 1]);
                    }
                }
            }
            let ghost r_prev = r@;
            r.push(row);
            proof {
                assert(stats_view(r@) =~= full.subrange(0, k as int + 1)) by {
                    assert forall|k2: int| 0 <= k2 < r@.len() implies stats_view(r@)[k2]
                        == full[k2] by {
                        if k2 < r_prev.len() {
                            assert(r@[k2] == r_prev[k2]);
                            assert(stats_view(r_prev)[k2] == full.subrange(0, k as int)[k2]);
                        } else {
                            assert(r@[k2] == row);
                        }
                    }
                }
            }
            k += 1;
        }
        proof {
            let so = sort_report(erows);
            if k == limit {
                if (limit as int) < full.len() {
                    assert(stats_view(r@) == spec_stats_report(rows, limit as int));
                } else {
                    assert(rpairs_view(out@).len() == 0);
                    assert(full.subrange(0, k as int) =~= full);
                }
            } else {
                assert(out@.len() == 0);
                assert(so.subrange(k as int, so.len() as int).len() == 0);
                assert(k == full.len());
                assert(full.subrange(0, k as int) =~= full);
                assert(!((limit as int) < full.len()));
            }
            lemma_sort_report_sorted(erows);
            assert forall|i: int, j: int| 0 <= i < j < r@.len() implies (#[trigger] r@[i])@.date
                >= (#[trigger] r@[j])@.date by {
                assert(stats_view(r@)[i] == r@[i]@);
                assert(stats_view(r@)[j] == r@[j]@);
                assert(stats_view(r@)[i] == full[i]);
                assert(stats_view(r@)[j] == full[j]);
                assert(full[i] == so[i].1);
                assert(full[j] == so[j].1);
                assert(report_le(so[i], so[j]));
            }
        }
        r
    }
}

// ---------------------------------------------------------------------------
// The persisted schema and statements.
// ---------------------------------------------------------------------------

/// The relation the counter persists to: one row per (page, day).
pub fn schema_sql() -> (r: String)
    ensures
        r@
            == "CREATE TABLE IF NOT EXISTS clicks (id INTEGER PRIMARY KEY AUTOINCREMENT, page TEXT NOT NULL, count INTEGER DEFAULT 0, date INTEGER DEFAULT 0, UNIQUE(page, date));"@,
{
    "CREATE TABLE IF NOT EXISTS clicks (id INTEGER PRIMARY KEY AUTOINCREMENT, page TEXT NOT NULL, count INTEGER DEFAULT 0, date INTEGER DEFAULT 0, UNIQUE(page, date));".to_owned()
}

/// The persisted form of one increment: insert one visit, or add one on
/// the (page, day) conflict.
pub fn upsert_sql() -> (r: String)
    ensures
        r@
            == "INSERT INTO clicks (page, count, date) VALUES (?1, 1, ?2) ON CONFLICT(page, date) DO UPDATE SET count = count + 1;"@,
{
    "INSERT INTO clicks (page, count, date) VALUES (?1, 1, ?2) ON CONFLICT(page, date) DO UPDATE SET count = count + 1;".to_owned()
}

/// The report query: the most recent buckets first, at most sixty.
pub fn select_sql() -> (r: String)
    ensures
        r@ == "SELECT * FROM clicks ORDER BY date DESC LIMIT 60;"@,
{
    "SELECT * FROM clicks ORDER BY date DESC LIMIT 60;".to_owned()
}

// ---------------------------------------------------------------------------
// Report formatting.
// ---------------------------------------------------------------------------

/// `n` spaces.
pub open spec fn spaces(n: int) -> Seq<char> {
    if n <= 0 {
        Seq::empty()
    } else {
        Seq::new(n as nat, |i: int| ' ')
    }
}

/// A text padded with spaces to at least `n` characters.
pub open spec fn padded(s: Seq<char>, n: int) -> Seq<char> {
    s + spaces(n - s.len())
}

/// Pads the input with spaces on the right to at least `min_length`
/// characters.
pub fn pad(input: &str, min_length: usize) -> (r: String)
    ensures
        r@ == padded(input@, min_length as int),
{
    let mut out = input.to_owned();
    let mut len = input.unicode_len();
    proof {
        assert(out@ =~= input@ + spaces(len - input@.len()));
    }
    while len < min_length
        invariant
            len >= input@.len(),
            if input@.len() >= min_length {
                len == input@.len()
            } else {
                len <= min_length
            },
            out@ == input@ + spaces(len - input@.len()),
            out@.len() == len,
        decreases min_length - len,
    {
        push_char(&mut out, ' ');
        len = len + 1;
        proof {
            assert(out@ =~= input@ + spaces(len - input@.len()));
        }
    }
    proof {
        if input@.len() >= min_length {
            assert(out@ =~= padded(input@, min_length as int));
        } else {
            assert(out@ =~= padded(input@, min_length as int));
        }
    }
    out
}

} // verus!
