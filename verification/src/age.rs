//! How old files are: bytes by age, bytes by month, and large files that were
//! left alone. Which ages part the buckets, and what counts as large and as left
//! alone, is the caller's to say.
use crate::order;
use crate::rollup;
use crate::seqs;
use crate::shares;
use crate::tree::{Node, Tree};
use vstd::prelude::*;

verus! {

/// What parts old from new.
#[derive(Clone, Debug)]
pub struct AgeScale {
    /// The ages in seconds at which the second and each further bucket begins.
    pub limits: [i64; 5],
    /// Labels of the buckets, newest first.
    pub labels: [String; 6],
    /// Least bytes on disk of a large file.
    pub big_bytes: u64,
    /// Least age in seconds of a file that was left alone.
    pub big_age: i64,
}

/// Bytes per age bucket.
#[derive(Debug)]
pub struct AgeTotals {
    /// Bytes in each bucket, newest first.
    pub bytes: [u64; 6],
    /// Total bytes considered.
    pub total: u64,
}

/// The bytes of one year, by month.
#[derive(Clone, Copy, Debug)]
pub struct YearRow {
    pub year: i64,
    pub months: [u64; 12],
}

/// Bytes by year and month of the last change.
#[derive(Clone, Debug)]
pub struct MonthHeatmap {
    /// The years in which something last changed, in order.
    pub years: Vec<YearRow>,
}

/// A large file that was left alone.
#[derive(Clone, Copy, Debug)]
pub struct AgedFile {
    pub id: u32,
    pub logical: u64,
    pub on_disk: u64,
    pub modified: i64,
}

// ---------------------------------------------------------------------------
// Files
// ---------------------------------------------------------------------------

/// A file that was not removed.
pub open spec fn live_file(t: Tree) -> spec_fn(u32) -> bool {
    |id: u32| !t.at(id as int).dir && !t.at(id as int).removed
}

/// The live files below a node.
pub open spec fn files_below(t: Tree, node: u32) -> Seq<u32> {
    t.preorder(node as int).filter(live_file(t))
}

/// The live files below a node.
fn list_files(tree: &Tree, node: u32) -> (r: Vec<u32>)
    requires
        tree.wf(),
    ensures
        r@ == files_below(*tree, node),
        forall|i: int| 0 <= i < r@.len() ==> tree.has(#[trigger] r@[i] as int),
{
    let ids = tree.walk(node);
    let ghost p = live_file(*tree);
    let mut out: Vec<u32> = Vec::new();
    let mut i: usize = 0;
    proof {
        tree.walk_is_the_subtree(node);
        assert forall|k: int| 0 <= k < ids@.len() implies tree.has(#[trigger] ids@[k] as int) by {
            assert(ids@.contains(ids@[k]));
            tree.under_is_later(ids@[k] as int, node as int);
        }
        seqs::filter_nothing::<u32>(p);
        assert(ids@.take(0) =~= Seq::empty());
    }
    while i < ids.len()
        invariant
            tree.wf(),
            i <= ids.len(),
            forall|k: int| 0 <= k < ids@.len() ==> tree.has(#[trigger] ids@[k] as int),
            p == live_file(*tree),
            out@ == ids@.take(i as int).filter(p),
            forall|k: int| 0 <= k < out@.len() ==> tree.has(#[trigger] out@[k] as int),
        decreases ids.len() - i,
    {
        proof {
            seqs::filter_step(ids@, i as int, p);
            assert(tree.has(ids@[i as int] as int));
        }
        let n = tree.arena[ids[i] as usize];
        if !n.dir && !n.removed {
            out.push(ids[i]);
        }
        i += 1;
    }
    assert(ids@.take(i as int) =~= ids@);
    out
}

// ---------------------------------------------------------------------------
// Buckets
// ---------------------------------------------------------------------------

/// The bucket of an age: the first whose successor begins later.
pub open spec fn bucket_of(age: int, limits: Seq<i64>) -> int {
    if age < limits[0] {
        0
    } else if age < limits[1] {
        1
    } else if age < limits[2] {
        2
    } else if age < limits[3] {
        3
    } else if age < limits[4] {
        4
    } else {
        5
    }
}

/// Bytes on disk of the files in a bucket.
pub open spec fn bucket_bytes(
    t: Tree,
    ids: Seq<u32>,
    now: int,
    limits: Seq<i64>,
    b: int,
) -> int
    decreases ids.len(),
{
    if ids.len() == 0 {
        0
    } else {
        let n = t.at(ids.last() as int);
        bucket_bytes(t, ids.drop_last(), now, limits, b) + (if bucket_of(
            now - n.modified,
            limits,
        ) == b {
            n.on_disk as int
        } else {
            0
        })
    }
}

/// Bytes on disk of all the files.
pub open spec fn all_bytes(t: Tree, ids: Seq<u32>) -> int
    decreases ids.len(),
{
    if ids.len() == 0 {
        0
    } else {
        all_bytes(t, ids.drop_last()) + t.at(ids.last() as int).on_disk
    }
}

proof fn bytes_are_nat(t: Tree, ids: Seq<u32>, now: int, limits: Seq<i64>, b: int)
    ensures
        bucket_bytes(t, ids, now, limits, b) >= 0,
        all_bytes(t, ids) >= 0,
    decreases ids.len(),
{
    if ids.len() > 0 {
        bytes_are_nat(t, ids.drop_last(), now, limits, b);
    }
}

/// Every byte has an age: the buckets together hold what all the files hold.
pub proof fn every_byte_has_an_age(t: Tree, ids: Seq<u32>, now: int, limits: Seq<i64>)
    ensures
        bucket_bytes(t, ids, now, limits, 0) + bucket_bytes(t, ids, now, limits, 1)
            + bucket_bytes(t, ids, now, limits, 2) + bucket_bytes(t, ids, now, limits, 3)
            + bucket_bytes(t, ids, now, limits, 4) + bucket_bytes(t, ids, now, limits, 5)
            == all_bytes(t, ids),
    decreases ids.len(),
{
    if ids.len() > 0 {
        every_byte_has_an_age(t, ids.drop_last(), now, limits);
    }
}

/// The bucket of an age.
fn find_bucket(age: i128, limits: &[i64; 5]) -> (r: usize)
    ensures
        r == bucket_of(age as int, limits@),
        r < 6,
        forall|q: int| 0 <= q < r ==> (#[trigger] limits@[q]) <= age,
        r < 5 ==> age < limits@[r as int],
{
    if age < limits[0] as i128 {
        0
    } else if age < limits[1] as i128 {
        1
    } else if age < limits[2] as i128 {
        2
    } else if age < limits[3] as i128 {
        3
    } else if age < limits[4] as i128 {
        4
    } else {
        5
    }
}

/// Bytes on disk of the live files below a node, by age.
pub fn bucket_totals(tree: &Tree, node: u32, now: i64, limits: &[i64; 5]) -> (r: AgeTotals)
    requires
        tree.wf(),
    ensures
        forall|b: int|
            0 <= b < 6 ==> #[trigger] r.bytes@[b] == rollup::capped(
                bucket_bytes(*tree, files_below(*tree, node), now as int, limits@, b),
            ),
        r.total == rollup::capped(all_bytes(*tree, files_below(*tree, node))),
{
    let ids = list_files(tree, node);
    let mut bytes: [u64; 6] = [0; 6];
    let mut total: u64 = 0;
    let mut i: usize = 0;
    while i < ids.len()
        invariant
            i <= ids.len(),
            forall|k: int| 0 <= k < ids@.len() ==> tree.has(#[trigger] ids@[k] as int),
            forall|b: int|
                0 <= b < 6 ==> #[trigger] bytes@[b] == rollup::capped(
                    bucket_bytes(*tree, ids@.take(i as int), now as int, limits@, b),
                ),
            total == rollup::capped(all_bytes(*tree, ids@.take(i as int))),
        decreases ids.len() - i,
    {
        assert(tree.has(ids@[i as int] as int));
        let n = tree.arena[ids[i] as usize];
        let b: usize = find_bucket(now as i128 - n.modified as i128, limits);
        let ghost before = bytes@;
        proof {
            assert(ids@.take(i + 1).drop_last() =~= ids@.take(i as int));
            assert(ids@.take(i + 1).last() == ids@[i as int]);
            bytes_are_nat(*tree, ids@.take(i as int), now as int, limits@, b as int);
        }
        bytes[b] = bytes[b].saturating_add(n.on_disk);
        total = total.saturating_add(n.on_disk);
        proof {
            assert forall|c: int| 0 <= c < 6 implies #[trigger] bytes@[c] == rollup::capped(
                bucket_bytes(*tree, ids@.take(i + 1), now as int, limits@, c),
            ) by {
                assert(before[c] == rollup::capped(
                    bucket_bytes(*tree, ids@.take(i as int), now as int, limits@, c),
                ));
            }
        }
        i += 1;
    }
    assert(ids@.take(i as int) =~= ids@);
    AgeTotals { bytes, total }
}

// ---------------------------------------------------------------------------
// The calendar
// ---------------------------------------------------------------------------

/// A year with 366 days.
pub open spec fn is_leap(y: int) -> bool {
    y % 4 == 0 && (y % 100 != 0 || y % 400 == 0)
}

/// Days of a year.
pub open spec fn days_in_year(y: int) -> int {
    if is_leap(y) {
        366
    } else {
        365
    }
}

/// Days from the beginning of 1970 to that of a year.
pub open spec fn year_start(y: int) -> int {
    365 * (y - 1970) + (y - 1) / 4 - (y - 1) / 100 + (y - 1) / 400 - 477
}

/// Days of a year before its month `m`, counted from 0.
pub open spec fn month_start(y: int, m: int) -> int {
    let leap: int = if is_leap(y) && m >= 2 {
        1
    } else {
        0
    };
    let plain: int = if m == 0 {
        0
    } else if m == 1 {
        31
    } else if m == 2 {
        59
    } else if m == 3 {
        90
    } else if m == 4 {
        120
    } else if m == 5 {
        151
    } else if m == 6 {
        181
    } else if m == 7 {
        212
    } else if m == 8 {
        243
    } else if m == 9 {
        273
    } else if m == 10 {
        304
    } else if m == 11 {
        334
    } else {
        365
    };
    plain + leap
}

/// A year ends where the next begins, and 1970 begins at day 0.
pub proof fn years_follow(y: int)
    ensures
        year_start(1970) == 0,
        year_start(y + 1) == year_start(y) + days_in_year(y),
        month_start(y, 12) == days_in_year(y),
{
}

proof fn years_grow(a: int, b: int)
    requires
        a < b,
    ensures
        year_start(a + 1) <= year_start(b),
    decreases b - a,
{
    if a + 1 < b {
        years_grow(a + 1, b);
        years_follow(a + 1);
    }
}

/// A time (in Unix seconds, positive where known) lies in a year.
pub open spec fn in_year(at: int, y: int) -> bool {
    at > 0 && year_start(y) <= at / 86400 < year_start(y + 1)
}

/// A time lies in a month of a year.
pub open spec fn in_month(at: int, y: int, m: int) -> bool {
    at > 0 && year_start(y) + month_start(y, m) <= at / 86400 < year_start(y) + month_start(
        y,
        m + 1,
    )
}

/// No time lies in two years, or in two months.
pub proof fn a_time_has_one_month(at: int, y1: int, m1: int, y2: int, m2: int)
    requires
        0 <= m1 < 12,
        0 <= m2 < 12,
    ensures
        in_year(at, y1) && in_year(at, y2) ==> y1 == y2,
        in_month(at, y1, m1) ==> in_year(at, y1),
        in_month(at, y1, m1) && in_month(at, y2, m2) ==> y1 == y2 && m1 == m2,
{
    years_follow(y1);
    years_follow(y2);
    if y1 < y2 {
        years_grow(y1, y2);
    } else if y2 < y1 {
        years_grow(y2, y1);
    }
}

/// The calendar repeats every 400 years.
proof fn eras_repeat(era: int)
    ensures
        year_start(1970 + era * 400) == era * 146097,
{
    let y = 1969int;
    assert((y + 400 * era) / 4 == y / 4 + 100 * era);
    assert((y + 400 * era) / 100 == y / 100 + 4 * era);
    assert((y + 400 * era) / 400 == y / 400 + era);
}

/// The year in which a time lies, and its first day.
fn year_of(at: i64) -> (r: (i64, i64))
    requires
        at > 0,
    ensures
        in_year(at as int, r.0 as int),
        r.1 == year_start(r.0 as int),
        1970 <= r.0 <= 300_000_000_000,
{
    let day: i64 = at / 86400;
    // The calendar repeats every 400 years.
    let era: i64 = day / 146097;
    let mut year: i64 = 1970 + era * 400;
    let mut start: i64 = era * 146097;
    let ghost first = year as int;
    proof {
        eras_repeat(era as int);
        eras_repeat(era + 1);
    }
    loop
        invariant
            first == 1970 + era * 400,
            0 <= era <= 730_692_561,
            first <= year < first + 400,
            start == year_start(year as int),
            start <= day,
            day < year_start(first + 400),
            0 <= day <= 106_751_991_167_300,
        ensures
            1970 <= year <= 300_000_000_000,
            start == year_start(year as int),
            start <= day < year_start(year + 1),
        decreases first + 400 - year,
    {
        proof {
            years_follow(year as int);
        }
        let leap = year % 4 == 0 && (year % 100 != 0 || year % 400 == 0);
        let days: i64 = if leap {
            366
        } else {
            365
        };
        if day < start + days {
            break;
        }
        start = start + days;
        year = year + 1;
    }
    (year, start)
}

/// Whether a year has 366 days.
fn leaps(y: i64) -> (r: bool)
    requires
        y >= 0,
    ensures
        r == is_leap(y as int),
{
    y % 4 == 0 && (y % 100 != 0 || y % 400 == 0)
}

/// The year and the month (from 0) in which a time lies.
pub fn month_of(at: i64) -> (r: (i64, usize))
    requires
        at > 0,
    ensures
        in_month(at as int, r.0 as int, r.1 as int),
        in_year(at as int, r.0 as int),
        r.0 >= 1970,
        r.1 < 12,
{
    let (year, start): (i64, i64) = year_of(at);
    proof {
        years_follow(year as int);
    }
    let mut day: i64 = at / 86400 - start;
    if day < 31 {
        return (year, 0);
    }
    if leaps(year) {
        if day < 60 {
            return (year, 1);
        }
        day = day - 1;
    }
    let m: usize = if day < 59 {
        1
    } else if day < 90 {
        2
    } else if day < 120 {
        3
    } else if day < 151 {
        4
    } else if day < 181 {
        5
    } else if day < 212 {
        6
    } else if day < 243 {
        7
    } else if day < 273 {
        8
    } else if day < 304 {
        9
    } else if day < 334 {
        10
    } else {
        11
    };
    (year, m)
}

// ---------------------------------------------------------------------------
// The heat map
// ---------------------------------------------------------------------------

/// Bytes on disk of the files that last changed in a month.
pub open spec fn month_bytes(t: Tree, ids: Seq<u32>, y: int, m: int) -> int
    decreases ids.len(),
{
    if ids.len() == 0 {
        0
    } else {
        let n = t.at(ids.last() as int);
        month_bytes(t, ids.drop_last(), y, m) + (if in_month(n.modified as int, y, m) {
            n.on_disk as int
        } else {
            0
        })
    }
}

proof fn month_bytes_hold(t: Tree, ids: Seq<u32>, y: int, m: int)
    requires
        0 <= m < 12,
    ensures
        month_bytes(t, ids, y, m) >= 0,
        (forall|i: int|
            0 <= i < ids.len() ==> !in_year(t.at(#[trigger] ids[i] as int).modified as int, y))
            ==> month_bytes(t, ids, y, m) == 0,
    decreases ids.len(),
{
    if ids.len() > 0 {
        let front = ids.drop_last();
        month_bytes_hold(t, front, y, m);
        a_time_has_one_month(t.at(ids.last() as int).modified as int, y, m, y, m);
        if forall|i: int|
            0 <= i < ids.len() ==> !in_year(t.at(#[trigger] ids[i] as int).modified as int, y) {
            assert(!in_year(t.at(ids[ids.len() - 1] as int).modified as int, y));
            assert forall|i: int| 0 <= i < front.len() implies !in_year(
                t.at(#[trigger] front[i] as int).modified as int,
                y,
            ) by {
                assert(front[i] == ids[i]);
            }
        }
    }
}

/// The rows hold the bytes of the files by year and month: one row for each year
/// in which a file last changed, in order.
pub open spec fn maps(rows: Seq<YearRow>, t: Tree, ids: Seq<u32>) -> bool {
    &&& forall|i: int, j: int|
        0 <= i < j < rows.len() ==> (#[trigger] rows[i]).year < (#[trigger] rows[j]).year
    &&& forall|i: int, m: int|
        0 <= i < rows.len() && 0 <= m < 12 ==> #[trigger] rows[i].months@[m] == rollup::capped(
            month_bytes(t, ids, rows[i].year as int, m),
        )
    &&& forall|i: int| 0 <= i < rows.len() ==> has_year(t, ids, (#[trigger] rows[i]).year as int)
    &&& forall|k: int, y: int|
        0 <= k < ids.len() && #[trigger] in_year(t.at(ids[k] as int).modified as int, y)
            ==> exists|i: int| 0 <= i < rows.len() && (#[trigger] rows[i]).year == y
}

/// Some file last changed in the year.
pub open spec fn has_year(t: Tree, ids: Seq<u32>, y: int) -> bool {
    exists|k: int|
        0 <= k < ids.len() && in_year(t.at(#[trigger] ids[k] as int).modified as int, y)
}

/// Where the row of a year stands or would stand.
fn row_place(rows: &Vec<YearRow>, year: i64) -> (r: usize)
    requires
        forall|i: int, j: int|
            0 <= i < j < rows@.len() ==> (#[trigger] rows@[i]).year < (#[trigger] rows@[j]).year,
    ensures
        r <= rows@.len(),
        forall|i: int| 0 <= i < r ==> (#[trigger] rows@[i]).year < year,
        forall|i: int| r <= i < rows@.len() ==> (#[trigger] rows@[i]).year >= year,
{
    let mut k: usize = rows.len();
    while k > 0 && rows[k - 1].year >= year
        invariant
            k <= rows.len(),
            forall|i: int| k <= i < rows@.len() ==> (#[trigger] rows@[i]).year >= year,
        decreases k,
    {
        k -= 1;
    }
    k
}

/// One more file whose time is known: `m` is its month in the row of its year.
proof fn maps_one_more(
    before: Seq<YearRow>,
    after: Seq<YearRow>,
    t: Tree,
    ids: Seq<u32>,
    n: int,
    k: int,
    m: int,
    new: bool,
)
    requires
        0 <= n < ids.len(),
        maps(before, t, ids.take(n)),
        0 <= k < after.len(),
        0 <= m < 12,
        in_month(t.at(ids[n] as int).modified as int, after[k].year as int, m),
        in_year(t.at(ids[n] as int).modified as int, after[k].year as int),
        forall|i: int| 0 <= i < k ==> (#[trigger] after[i]).year < after[k].year,
        forall|i: int| k < i < after.len() ==> (#[trigger] after[i]).year > after[k].year,
        new ==> after.len() == before.len() + 1 && after == before.insert(k, after[k]),
        !new ==> after == before.update(k, after[k]) && k < before.len() && before[k].year
            == after[k].year,
        forall|c: int|
            0 <= c < 12 ==> #[trigger] after[k].months@[c] == rollup::capped(
                (if new {
                    0
                } else {
                    before[k].months@[c] as int
                }) + (if c == m {
                    t.at(ids[n] as int).on_disk as int
                } else {
                    0
                }),
            ),
    ensures
        maps(after, t, ids.take(n + 1)),
{
    let seen = ids.take(n);
    let more = ids.take(n + 1);
    let at = t.at(ids[n] as int).modified as int;
    let y = after[k].year as int;
    assert(more.drop_last() =~= seen);
    assert(more.last() == ids[n]);
    assert(more[n] == ids[n]);
    assert forall|i: int, j: int| 0 <= i < j < after.len() implies (#[trigger] after[i]).year < (
    #[trigger] after[j]).year by {
        if i != k && j != k {
            let a = if new && i > k {
                i - 1
            } else {
                i
            };
            let b = if new && j > k {
                j - 1
            } else {
                j
            };
            assert(after[i] == before[a] && after[j] == before[b]);
            assert(before[a].year < before[b].year);
        }
    }
    assert forall|i: int, c: int| 0 <= i < after.len() && 0 <= c < 12 implies
        #[trigger] after[i].months@[c] == rollup::capped(
        month_bytes(t, more, after[i].year as int, c),
    ) by {
        month_bytes_hold(t, seen, after[i].year as int, c);
        a_time_has_one_month(at, y, m, after[i].year as int, c);
        if i == k {
            if new {
                assert forall|q: int| 0 <= q < seen.len() implies !in_year(
                    t.at(#[trigger] seen[q] as int).modified as int,
                    y,
                ) by {
                    if in_year(t.at(seen[q] as int).modified as int, y) {
                        let r = choose|r: int|
                            0 <= r < before.len() && (#[trigger] before[r]).year == y;
                        assert(after[if r < k {
                            r
                        } else {
                            r + 1
                        }] == before[r]);
                    }
                }
            } else {
                assert(before[k].months@[c] == rollup::capped(month_bytes(t, seen, y, c)));
            }
        } else {
            let a = if new && i > k {
                i - 1
            } else {
                i
            };
            assert(after[i] == before[a]);
            assert(before[a].months@[c] == rollup::capped(
                month_bytes(t, seen, before[a].year as int, c),
            ));
        }
    }
    assert forall|i: int| 0 <= i < after.len() implies has_year(
        t,
        more,
        (#[trigger] after[i]).year as int,
    ) by {
        if i == k {
            assert(in_year(t.at(more[n] as int).modified as int, y));
        } else {
            let a = if new && i > k {
                i - 1
            } else {
                i
            };
            assert(after[i] == before[a]);
            assert(has_year(t, seen, before[a].year as int));
            let q = choose|q: int|
                0 <= q < seen.len() && in_year(
                    t.at(#[trigger] seen[q] as int).modified as int,
                    before[a].year as int,
                );
            assert(more[q] == seen[q]);
        }
    }
    assert forall|q: int, z: int|
        0 <= q < more.len() && #[trigger] in_year(
            t.at(more[q] as int).modified as int,
            z,
        ) implies exists|i: int| 0 <= i < after.len() && (#[trigger] after[i]).year == z by {
        if q == n {
            a_time_has_one_month(at, y, m, z, m);
            assert(after[k].year == z);
        } else {
            assert(more[q] == seen[q]);
            assert(in_year(t.at(seen[q] as int).modified as int, z));
            let r = choose|r: int| 0 <= r < before.len() && (#[trigger] before[r]).year == z;
            if new {
                assert(after[if r < k {
                    r
                } else {
                    r + 1
                }] == before[r]);
            } else if r != k {
                assert(after[r] == before[r]);
            }
        }
    }
}

/// A file without a time changes nothing.
proof fn maps_skip(rows: Seq<YearRow>, t: Tree, ids: Seq<u32>, n: int)
    requires
        0 <= n < ids.len(),
        maps(rows, t, ids.take(n)),
        t.at(ids[n] as int).modified <= 0,
    ensures
        maps(rows, t, ids.take(n + 1)),
{
    let seen = ids.take(n);
    let more = ids.take(n + 1);
    assert(more.drop_last() =~= seen);
    assert(more.last() == ids[n]);
    assert forall|i: int| 0 <= i < rows.len() implies has_year(
        t,
        more,
        (#[trigger] rows[i]).year as int,
    ) by {
        let q = choose|q: int|
            0 <= q < seen.len() && in_year(
                t.at(#[trigger] seen[q] as int).modified as int,
                rows[i].year as int,
            );
        assert(more[q] == seen[q]);
    }
    assert forall|q: int, z: int|
        0 <= q < more.len() && #[trigger] in_year(
            t.at(more[q] as int).modified as int,
            z,
        ) implies exists|i: int| 0 <= i < rows.len() && (#[trigger] rows[i]).year == z by {
        if q < n {
            assert(more[q] == seen[q]);
            assert(in_year(t.at(seen[q] as int).modified as int, z));
        }
    }
}

/// Bytes on disk of the live files below a node, by year and month of their last
/// change; files whose time is not known are left out.
pub fn month_heatmap(tree: &Tree, node: u32) -> (r: MonthHeatmap)
    requires
        tree.wf(),
    ensures
        maps(r.years@, *tree, files_below(*tree, node)),
{
    let ids = list_files(tree, node);
    let mut rows: Vec<YearRow> = Vec::new();
    let mut i: usize = 0;
    while i < ids.len()
        invariant
            i <= ids.len(),
            forall|k: int| 0 <= k < ids@.len() ==> tree.has(#[trigger] ids@[k] as int),
            maps(rows@, *tree, ids@.take(i as int)),
        decreases ids.len() - i,
    {
        assert(tree.has(ids@[i as int] as int));
        let n = tree.arena[ids[i] as usize];
        if n.modified <= 0 {
            proof {
                maps_skip(rows@, *tree, ids@, i as int);
            }
        } else {
            let (year, m): (i64, usize) = month_of(n.modified);
            let k: usize = row_place(&rows, year);
            let ghost before = rows@;
            if k < rows.len() && rows[k].year == year {
                let mut row: YearRow = rows[k];
                row.months[m] = row.months[m].saturating_add(n.on_disk);
                rows.set(k, row);
                proof {
                    assert forall|q: int| k < q < rows@.len() implies (#[trigger] rows@[q]).year
                        > year by {
                        assert(before[k as int].year < before[q].year);
                    }
                    maps_one_more(
                        before,
                        rows@,
                        *tree,
                        ids@,
                        i as int,
                        k as int,
                        m as int,
                        false,
                    );
                }
            } else {
                let mut months: [u64; 12] = [0; 12];
                months[m] = n.on_disk;
                let row = YearRow { year, months };
                rows.insert(k, row);
                proof {
                    assert(rows@ == before.insert(k as int, row));
                    assert forall|q: int| 0 <= q < k implies (#[trigger] rows@[q]).year < year by {
                        assert(rows@[q] == before[q]);
                    }
                    assert forall|q: int| k < q < rows@.len() implies (#[trigger] rows@[q]).year
                        > year by {
                        assert(rows@[q] == before[q - 1]);
                        if q - 1 > k {
                            assert(before[k as int].year < before[q - 1].year);
                        }
                    }
                    maps_one_more(
                        before,
                        rows@,
                        *tree,
                        ids@,
                        i as int,
                        k as int,
                        m as int,
                        true,
                    );
                }
            }
        }
        i += 1;
    }
    assert(ids@.take(i as int) =~= ids@);
    MonthHeatmap { years: rows }
}

// ---------------------------------------------------------------------------
// Large files that were left alone
// ---------------------------------------------------------------------------

/// A live file of at least so many bytes that did not change for so long.
pub open spec fn untouched(t: Tree, now: int, bytes: u64, age: int) -> spec_fn(u32) -> bool {
    |id: u32|
        {
            let n = t.at(id as int);
            live_file(t)(id) && n.on_disk >= bytes && now - n.modified >= age
        }
}

/// The large files below a node that were left alone, the largest first.
pub open spec fn left_alone(
    t: Tree,
    node: u32,
    now: int,
    bytes: u64,
    age: int,
    cap: int,
) -> Seq<(u64, u32)> {
    shares::first_n(
        order::ranking(t.sized(t.preorder(node as int).filter(untouched(t, now, bytes, age)))),
        cap,
    )
}

impl AgedFile {
    /// The file of a node.
    pub open spec fn tells(&self, t: Tree, id: u32) -> bool {
        &&& self.id == id
        &&& self.logical == t.at(id as int).logical
        &&& self.on_disk == t.at(id as int).on_disk
        &&& self.modified == t.at(id as int).modified
    }
}

/// The large files below a node that were left alone, the largest first, at most
/// `cap` of them.
pub fn big_untouched(
    tree: &Tree,
    node: u32,
    now: i64,
    bytes: u64,
    age: i64,
    cap: usize,
) -> (r: Vec<AgedFile>)
    requires
        tree.wf(),
    ensures
        r@.len() == left_alone(*tree, node, now as int, bytes, age as int, cap as int).len(),
        forall|i: int|
            0 <= i < r@.len() ==> (#[trigger] r@[i]).tells(
                *tree,
                left_alone(*tree, node, now as int, bytes, age as int, cap as int)[i].1,
            ),
{
    let ids = tree.walk(node);
    let ghost p = untouched(*tree, now as int, bytes, age as int);
    let mut found: Vec<(u64, u32)> = Vec::new();
    let mut i: usize = 0;
    proof {
        tree.walk_is_the_subtree(node);
        assert forall|k: int| 0 <= k < ids@.len() implies tree.has(#[trigger] ids@[k] as int) by {
            assert(ids@.contains(ids@[k]));
            tree.under_is_later(ids@[k] as int, node as int);
        }
        seqs::filter_nothing::<u32>(p);
        assert(ids@.take(0) =~= Seq::empty());
        assert(found@ =~= tree.sized(Seq::empty()));
    }
    while i < ids.len()
        invariant
            i <= ids.len(),
            forall|k: int| 0 <= k < ids@.len() ==> tree.has(#[trigger] ids@[k] as int),
            p == untouched(*tree, now as int, bytes, age as int),
            found@ == tree.sized(ids@.take(i as int).filter(p)),
            forall|k: int| 0 <= k < found@.len() ==> tree.has((#[trigger] found@[k]).1 as int),
        decreases ids.len() - i,
    {
        let id: u32 = ids[i];
        proof {
            seqs::filter_step(ids@, i as int, p);
            assert(tree.has(ids@[i as int] as int));
        }
        let n = tree.arena[id as usize];
        let ghost before = ids@.take(i as int).filter(p);
        if !n.dir && !n.removed && n.on_disk >= bytes && now as i128 - n.modified as i128
            >= age as i128 {
            found.push((n.on_disk, id));
            assert(tree.sized(before.push(id)) =~= tree.sized(before).push((n.on_disk, id)));
        }
        i += 1;
    }
    assert(ids@.take(i as int) =~= ids@);
    let ranking = order::rank(found.as_slice());
    proof {
        order::ranking_is_ranked(found@);
        assert forall|k: int| 0 <= k < ranking@.len() implies tree.has(
            (#[trigger] ranking@[k]).1 as int,
        ) by {
            assert(ranking@.contains(ranking@[k]));
            let j = found@.index_of(ranking@[k]);
            assert(found@[j] == ranking@[k]);
        }
    }
    let ghost want = left_alone(*tree, node, now as int, bytes, age as int, cap as int);
    let mut out: Vec<AgedFile> = Vec::new();
    let mut k: usize = 0;
    while k < ranking.len() && k < cap
        invariant
            k <= ranking.len(),
            k <= cap,
            want == shares::first_n(ranking@, cap as int),
            forall|q: int| 0 <= q < ranking@.len() ==> tree.has((#[trigger] ranking@[q]).1 as int),
            out@.len() == k,
            forall|q: int| 0 <= q < k ==> (#[trigger] out@[q]).tells(*tree, want[q].1),
        decreases ranking.len() - k,
    {
        let id: u32 = ranking[k].1;
        assert(tree.has(ranking@[k as int].1 as int));
        assert(want[k as int] == ranking@[k as int]);
        let n = tree.arena[id as usize];
        out.push(AgedFile { id, logical: n.logical, on_disk: n.on_disk, modified: n.modified });
        k += 1;
    }
    out
}

// ---------------------------------------------------------------------------
// Laws
// ---------------------------------------------------------------------------

/// Bytes on disk of the nodes of a list that pass a test.
pub open spec fn bytes_where(t: Tree, ids: Seq<u32>, p: spec_fn(Node) -> bool) -> int
    decreases ids.len(),
{
    if ids.len() == 0 {
        0
    } else {
        let n = t.at(ids.last() as int);
        bytes_where(t, ids.drop_last(), p) + (if p(n) {
            n.on_disk as int
        } else {
            0
        })
    }
}

proof fn buckets_are_tests(
    t: Tree,
    walk: Seq<u32>,
    now: int,
    limits: Seq<i64>,
    b: int,
    p: spec_fn(Node) -> bool,
)
    requires
        limits.len() == 5,
        0 <= b < 6,
        forall|n: Node| #[trigger]
            p(n) <==> (!n.dir && !n.removed && (b < 5 ==> now - n.modified < limits[b]) && forall|
                q: int,
            |
                0 <= q < b ==> (#[trigger] limits[q]) <= now - n.modified),
    ensures
        bucket_bytes(t, walk.filter(live_file(t)), now, limits, b) == bytes_where(t, walk, p),
    decreases walk.len(),
{
    reveal(Seq::filter);
    if walk.len() > 0 {
        let less = walk.drop_last();
        buckets_are_tests(t, less, now, limits, b, p);
        let n = t.at(walk.last() as int);
        let age = now - n.modified;
        if live_file(t)(walk.last()) {
            assert(walk.filter(live_file(t)).drop_last() =~= less.filter(live_file(t)));
            if p(n) {
                assert(b > 0 ==> limits[b - 1] <= age);
                assert(0 < b ==> limits[0] <= age);
                assert(1 < b ==> limits[1] <= age);
                assert(2 < b ==> limits[2] <= age);
                assert(3 < b ==> limits[3] <= age);
                assert(4 < b ==> limits[4] <= age);
            }
            assert(bucket_of(age, limits) == b <==> p(n));
        }
    }
}

proof fn all_is_a_test(t: Tree, walk: Seq<u32>, p: spec_fn(Node) -> bool)
    requires
        forall|n: Node| #[trigger] p(n) <==> !n.dir && !n.removed,
    ensures
        all_bytes(t, walk.filter(live_file(t))) == bytes_where(t, walk, p),
    decreases walk.len(),
{
    reveal(Seq::filter);
    if walk.len() > 0 {
        let less = walk.drop_last();
        all_is_a_test(t, less, p);
        let n = t.at(walk.last() as int);
        assert(p(n) <==> !n.dir && !n.removed);
        if live_file(t)(walk.last()) {
            assert(walk.filter(live_file(t)).drop_last() =~= less.filter(live_file(t)));
        }
    }
}

proof fn months_are_tests(t: Tree, walk: Seq<u32>, y: int, m: int, p: spec_fn(Node) -> bool)
    requires
        forall|n: Node| #[trigger]
            p(n) <==> !n.dir && !n.removed && n.modified > 0 && year_start(y) + month_start(y, m)
                <= n.modified as int / 86400 < year_start(y) + month_start(y, m + 1),
    ensures
        month_bytes(t, walk.filter(live_file(t)), y, m) == bytes_where(t, walk, p),
    decreases walk.len(),
{
    reveal(Seq::filter);
    if walk.len() > 0 {
        let less = walk.drop_last();
        months_are_tests(t, less, y, m, p);
        let n = t.at(walk.last() as int);
        assert(p(n) || !p(n));
        if live_file(t)(walk.last()) {
            assert(walk.filter(live_file(t)).drop_last() =~= less.filter(live_file(t)));
        }
    }
}

/// A live file is counted in the bucket behind all the limits that its age has
/// reached and before the first that it has not; every live file is in the
/// total. Sums stop at the largest number.
pub proof fn a_file_lies_in_the_bucket_of_its_age(
    tree: &Tree,
    node: u32,
    now: i64,
    limits: &[i64; 5],
    r: AgeTotals,
    b: int,
)
    requires
        tree.wf(),
        call_ensures(bucket_totals, (tree, node, now, limits), r),
        0 <= b < 6,
    ensures
        ({
            let sum = bytes_where(
                *tree,
                tree.preorder(node as int),
                |n: Node|
                    !n.dir && !n.removed && (b < 5 ==> now - n.modified < limits@[b]) && forall|q: int|
                        0 <= q < b ==> (#[trigger] limits@[q]) <= now - n.modified,
            );
            &&& sum <= u64::MAX ==> r.bytes@[b] == sum
            &&& sum > u64::MAX ==> r.bytes@[b] == u64::MAX
        }),
        ({
            let sum = bytes_where(
                *tree,
                tree.preorder(node as int),
                |n: Node| !n.dir && !n.removed,
            );
            &&& sum <= u64::MAX ==> r.total == sum
            &&& sum > u64::MAX ==> r.total == u64::MAX
        }),
{
    let p = |n: Node|
        !n.dir && !n.removed && (b < 5 ==> now - n.modified < limits@[b]) && forall|q: int|
            0 <= q < b ==> (#[trigger] limits@[q]) <= now - n.modified;
    buckets_are_tests(*tree, tree.preorder(node as int), now as int, limits@, b, p);
    all_is_a_test(*tree, tree.preorder(node as int), |n: Node| !n.dir && !n.removed);
    assert(r.bytes@[b] == rollup::capped(
        bucket_bytes(*tree, files_below(*tree, node), now as int, limits@, b),
    ));
}

/// Of two files the older one is in no newer bucket: the bucket that holds an
/// age grows with it.
pub proof fn older_files_lie_in_later_buckets(
    limits: Seq<i64>,
    young: int,
    old: int,
    a: int,
    b: int,
)
    requires
        limits.len() == 5,
        young <= old,
        a == bucket_of(young, limits),
        b == bucket_of(old, limits),
    ensures
        0 <= a <= b <= 5,
{
}

/// The calendar: 1970 begins at day 0, a year divisible by 4 has 366 days unless
/// it is divisible by 100 and not by 400, every other one 365, and the months
/// have their lengths.
#[verifier::rlimit(50)]
pub proof fn the_calendar_holds(y: int)
    ensures
        year_start(1970) == 0,
        y % 4 == 0 && (y % 100 != 0 || y % 400 == 0) ==> year_start(y + 1) == year_start(y) + 366
            && month_start(y, 2) == 60,
        !(y % 4 == 0 && (y % 100 != 0 || y % 400 == 0)) ==> year_start(y + 1) == year_start(y) + 365
            && month_start(y, 2) == 59,
        month_start(y, 0) == 0,
        month_start(y, 1) == 31,
        month_start(y, 3) == month_start(y, 2) + 31,
        month_start(y, 4) == month_start(y, 3) + 30,
        month_start(y, 5) == month_start(y, 4) + 31,
        month_start(y, 6) == month_start(y, 5) + 30,
        month_start(y, 7) == month_start(y, 6) + 31,
        month_start(y, 8) == month_start(y, 7) + 31,
        month_start(y, 9) == month_start(y, 8) + 30,
        month_start(y, 10) == month_start(y, 9) + 31,
        month_start(y, 11) == month_start(y, 10) + 30,
        month_start(y, 12) == month_start(y, 11) + 31,
        year_start(y) + month_start(y, 12) == year_start(y + 1),
{
    years_follow(y);
    months_follow(y);
    assert(year_start(1970) == 0);
}

/// The months of a year follow each other.
proof fn months_follow(y: int)
    ensures
        month_start(y, 0) == 0,
        month_start(y, 1) == 31,
        month_start(y, 2) == (if is_leap(y) {
            60int
        } else {
            59int
        }),
        month_start(y, 3) == month_start(y, 2) + 31,
        month_start(y, 4) == month_start(y, 3) + 30,
        month_start(y, 5) == month_start(y, 4) + 31,
        month_start(y, 6) == month_start(y, 5) + 30,
        month_start(y, 7) == month_start(y, 6) + 31,
        month_start(y, 8) == month_start(y, 7) + 31,
        month_start(y, 9) == month_start(y, 8) + 30,
        month_start(y, 10) == month_start(y, 9) + 31,
        month_start(y, 11) == month_start(y, 10) + 30,
        month_start(y, 12) == month_start(y, 11) + 31,
{
    let leap = is_leap(y);
    assert(leap || !leap);
}

/// Some live file below a node last changed between two days, the first of them
/// counted in.
pub open spec fn changed_between(t: Tree, node: u32, from: int, to: int) -> bool {
    exists|x: u32| #[trigger]
        t.under(x as int, node as int) && !t.at(x as int).dir && !t.at(x as int).removed && t.at(
            x as int,
        ).modified > 0 && from <= t.at(x as int).modified as int / 86400 < to
}

/// A live file whose time is known is counted in the month of its day; there is
/// a row exactly for each year with such a file, and the years ascend.
pub proof fn a_file_is_mapped_to_its_month(
    tree: &Tree,
    node: u32,
    r: MonthHeatmap,
)
    requires
        tree.wf(),
        call_ensures(month_heatmap, (tree, node), r),
    ensures
        forall|i: int, j: int|
            0 <= i < j < r.years@.len() ==> (#[trigger] r.years@[i]).year < (
            #[trigger] r.years@[j]).year,
        forall|i: int, m: int|
            0 <= i < r.years@.len() && 0 <= m < 12 ==> {
                let y = r.years@[i].year as int;
                let sum = bytes_where(
                    *tree,
                    tree.preorder(node as int),
                    |n: Node|
                        !n.dir && !n.removed && n.modified > 0 && year_start(y) + month_start(y, m)
                            <= n.modified as int / 86400 < year_start(y) + month_start(y, m + 1),
                );
                &&& sum <= u64::MAX ==> #[trigger] r.years@[i].months@[m] == sum
                &&& sum > u64::MAX ==> r.years@[i].months@[m] == u64::MAX
            },
        forall|x: u32, y: int| #[trigger]
            tree.under(x as int, node as int) && !tree.arena@[x as int].dir
                && !tree.arena@[x as int].removed && tree.arena@[x as int].modified > 0
                && #[trigger] year_start(y) <= tree.arena@[x as int].modified as int / 86400
                < year_start(y + 1) ==> exists|i: int|
                0 <= i < r.years@.len() && (#[trigger] r.years@[i]).year == y,
        forall|i: int|
            0 <= i < r.years@.len() ==> changed_between(
                *tree,
                node,
                year_start((#[trigger] r.years@[i]).year as int),
                year_start(r.years@[i].year + 1),
            ),
{
    let t = *tree;
    let walk = t.preorder(node as int);
    let ids = files_below(t, node);
    t.walk_is_the_subtree(node);
    seqs::filter_members(walk, live_file(t));
    assert forall|i: int, m: int| 0 <= i < r.years@.len() && 0 <= m < 12 implies {
        let y = r.years@[i].year as int;
        let sum = bytes_where(
            *tree,
            tree.preorder(node as int),
            |n: Node|
                !n.dir && !n.removed && n.modified > 0 && year_start(y) + month_start(y, m)
                    <= n.modified as int / 86400 < year_start(y) + month_start(y, m + 1),
        );
        &&& sum <= u64::MAX ==> #[trigger] r.years@[i].months@[m] == sum
        &&& sum > u64::MAX ==> r.years@[i].months@[m] == u64::MAX
    } by {
        let y = r.years@[i].year as int;
        let p = |n: Node|
            !n.dir && !n.removed && n.modified > 0 && year_start(y) + month_start(y, m)
                <= n.modified as int / 86400 < year_start(y) + month_start(y, m + 1);
        months_are_tests(t, walk, y, m, p);
        assert(r.years@[i].months@[m] == rollup::capped(month_bytes(t, ids, y, m)));
    }
    assert forall|x: u32, y: int| #[trigger]
        tree.under(x as int, node as int) && !tree.arena@[x as int].dir
            && !tree.arena@[x as int].removed && tree.arena@[x as int].modified > 0
            && #[trigger] year_start(y) <= tree.arena@[x as int].modified as int / 86400
            < year_start(y + 1) implies exists|i: int|
        0 <= i < r.years@.len() && (#[trigger] r.years@[i]).year == y by {
        assert(walk.contains(x));
        assert(live_file(t)(x));
        assert(ids.contains(x));
        let k = ids.index_of(x);
        assert(in_year(t.at(ids[k] as int).modified as int, y));
    }
    assert forall|i: int| 0 <= i < r.years@.len() implies changed_between(
        *tree,
        node,
        year_start((#[trigger] r.years@[i]).year as int),
        year_start(r.years@[i].year + 1),
    ) by {
        let y = r.years@[i].year as int;
        assert(has_year(t, ids, y));
        let k = choose|k: int|
            0 <= k < ids.len() && in_year(t.at(#[trigger] ids[k] as int).modified as int, y);
        assert(ids.contains(ids[k]));
        assert(live_file(t)(ids[k]));
        assert(tree.under(ids[k] as int, node as int));
    }
}

/// The large files that were left alone are live files at any depth of at least
/// so many bytes on disk and at least so old, largest first and equal ones by
/// their ids; what is missing stands behind as many rows as were asked for, none
/// of them smaller.
pub proof fn large_old_files_are_listed(
    tree: &Tree,
    node: u32,
    now: i64,
    bytes: u64,
    age: i64,
    cap: usize,
    r: Vec<AgedFile>,
)
    requires
        tree.wf(),
        call_ensures(big_untouched, (tree, node, now, bytes, age, cap), r),
    ensures
        r@.len() <= cap,
        forall|i: int|
            0 <= i < r@.len() ==> {
                let n = tree.arena@[(#[trigger] r@[i]).id as int];
                &&& tree.under(r@[i].id as int, node as int)
                &&& !n.dir
                &&& !n.removed
                &&& n.on_disk >= bytes
                &&& now - n.modified >= age
                &&& r@[i].on_disk == n.on_disk
                &&& r@[i].logical == n.logical
                &&& r@[i].modified == n.modified
            },
        forall|i: int, j: int|
            0 <= i < j < r@.len() ==> (#[trigger] r@[i]).on_disk > (#[trigger] r@[j]).on_disk || (
            r@[i].on_disk == r@[j].on_disk && r@[i].id < r@[j].id),
        forall|x: u32| #[trigger]
            tree.under(x as int, node as int) && !tree.arena@[x as int].dir
                && !tree.arena@[x as int].removed && tree.arena@[x as int].on_disk >= bytes && now
                - tree.arena@[x as int].modified >= age ==> {
                ||| exists|i: int| 0 <= i < r@.len() && (#[trigger] r@[i]).id == x
                ||| r@.len() == cap && forall|i: int|
                    0 <= i < cap ==> (#[trigger] r@[i]).on_disk >= tree.arena@[x as int].on_disk
            },
{
    let t = *tree;
    let p = untouched(t, now as int, bytes, age as int);
    rollup::ranked_below(t, node, p);
    let rank = order::ranking(t.sized(t.preorder(node as int).filter(p)));
    let want = left_alone(t, node, now as int, bytes, age as int, cap as int);
    assert forall|i: int| 0 <= i < r@.len() implies {
        &&& (#[trigger] r@[i]).tells(t, rank[i].1)
        &&& t.under(rank[i].1 as int, node as int)
        &&& p(rank[i].1)
        &&& rank[i].0 == r@[i].on_disk
        &&& rank[i].1 == r@[i].id
    } by {
        assert(want[i] == rank[i]);
    }
    assert forall|i: int, j: int| 0 <= i < j < r@.len() implies (#[trigger] r@[i]).on_disk > (
    #[trigger] r@[j]).on_disk || (r@[i].on_disk == r@[j].on_disk && r@[i].id < r@[j].id) by {
        assert(order::before(rank[i], rank[j]));
        assert(rank[i] != rank[j]);
    }
    assert forall|x: u32| #[trigger]
        tree.under(x as int, node as int) && !tree.arena@[x as int].dir
            && !tree.arena@[x as int].removed && tree.arena@[x as int].on_disk >= bytes && now
            - tree.arena@[x as int].modified >= age implies {
        ||| exists|i: int| 0 <= i < r@.len() && (#[trigger] r@[i]).id == x
        ||| r@.len() == cap && forall|i: int|
            0 <= i < cap ==> (#[trigger] r@[i]).on_disk >= tree.arena@[x as int].on_disk
    } by {
        assert(p(x));
        let e = (t.at(x as int).on_disk, x);
        assert(rank.contains(e));
        let k = rank.index_of(e);
        assert(rank[k] == e);
        if k < cap {
            assert(r@[k].id == x);
        } else {
            assert forall|i: int| 0 <= i < cap implies (#[trigger] r@[i]).on_disk
                >= tree.arena@[x as int].on_disk by {
                assert(order::before(rank[i], rank[k]));
            }
        }
    }
}

} // verus!
