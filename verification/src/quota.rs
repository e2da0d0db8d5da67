//! The quota enforcer: out of a directory listing it selects the rotation
//! files, orders them chronologically, and decides which oldest files must
//! go for the rest to fit the configured byte budget.
//!
//! The enforcer works on plain listings — pairs of file name bytes and file
//! size — handed in by the caller; deleting the files it marks is the
//! caller's part.
use vstd::prelude::*;
use crate::datetime::{is_datestamp, ds_year, ds_month, ds_day, check_date};

verus! {

/// One rotation file: its name, the day it covers encoded as
/// `year * 10000 + month * 100 + day`, and its size in bytes.
pub struct LogFileRecord {
    pub name: Vec<u8>,
    pub day_key: u32,
    pub size: u64,
}

/// `.log` as bytes.
pub open spec fn log_suffix() -> Seq<u8> {
    seq![46u8, 108u8, 111u8, 103u8]
}

/// Whether a file name is a rotation-file name: a ten-byte datestamp naming
/// a valid calendar date, followed by `.log`.
pub open spec fn is_rotation_name(s: Seq<u8>) -> bool {
    s.len() == 14 && is_datestamp(s.subrange(0, 10)) && s.subrange(10, 14) == log_suffix()
}

/// The day key encoded in a rotation-file name.
pub open spec fn rotation_day_key(s: Seq<u8>) -> int {
    let d = s.subrange(0, 10);
    ds_year(d) * 10000 + ds_month(d) * 100 + ds_day(d)
}

/// A record is sound when its day key is the one its name carries.
pub open spec fn record_wf(r: LogFileRecord) -> bool {
    is_rotation_name(r.name@) && r.day_key == rotation_day_key(r.name@)
}

/// The (name, size) views of a directory listing.
pub open spec fn entry_views(s: Seq<(Vec<u8>, u64)>) -> Seq<(Seq<u8>, u64)> {
    s.map(|i: int, e: (Vec<u8>, u64)| (e.0@, e.1))
}

/// The (name, size) views of a record list.
pub open spec fn record_views(s: Seq<LogFileRecord>) -> Seq<(Seq<u8>, u64)> {
    s.map(|i: int, r: LogFileRecord| (r.name@, r.size))
}

pub open spec fn is_rotation_entry(e: (Seq<u8>, u64)) -> bool {
    is_rotation_name(e.0)
}

/// Records ordered old to new.
pub open spec fn sorted_by_day(s: Seq<LogFileRecord>) -> bool {
    forall|i: int, j: int| 0 <= i < j < s.len() ==> (#[trigger] s[i]).day_key <= (
    #[trigger] s[j]).day_key
}

/// The summed sizes of `sizes[a..b]`.
pub open spec fn range_sum(sizes: Seq<u64>, a: int, b: int) -> int
    decreases b - a,
{
    if a < 0 || a >= b || b > sizes.len() {
        0
    } else {
        sizes[a] + range_sum(sizes, a + 1, b)
    }
}

/// The summed sizes of the files from position `k` on: what survives when
/// everything older is deleted.
pub open spec fn suffix_sum(sizes: Seq<u64>, k: int) -> int {
    range_sum(sizes, k, sizes.len() as int)
}

pub proof fn lemma_range_sum_nonneg(sizes: Seq<u64>, a: int, b: int)
    ensures
        range_sum(sizes, a, b) >= 0,
    decreases b - a,
{
    if !(a < 0 || a >= b || b > sizes.len()) {
        lemma_range_sum_nonneg(sizes, a + 1, b);
    }
}

/// A sum over a range splits at any point inside it.
pub proof fn lemma_range_sum_split(sizes: Seq<u64>, a: int, b: int, c: int)
    requires
        0 <= a <= b <= c <= sizes.len(),
    ensures
        range_sum(sizes, a, c) == range_sum(sizes, a, b) + range_sum(sizes, b, c),
    decreases b - a,
{
    if a < b {
        lemma_range_sum_split(sizes, a + 1, b, c);
    }
}

/// Whether the 14 bytes of a name make a rotation-file name.
pub fn is_rotation_file_name(name: &Vec<u8>) -> (r: bool)
    ensures
        r == is_rotation_name(name@),
{
    if name.len() != 14 {
        return false;
    }
    let stamp = &name.as_slice()[0..10];
    if !check_date(stamp) {
        return false;
    }
    let ok = name[10] == 46 && name[11] == 108 && name[12] == 111 && name[13] == 103;
    proof {
        if ok {
            assert(name@.subrange(10, 14) =~= log_suffix());
        } else {
            assert(name@.subrange(10, 14) != log_suffix()) by {
                if name@.subrange(10, 14) == log_suffix() {
                    assert(name@.subrange(10, 14)[0] == 46u8);
                    assert(name@.subrange(10, 14)[1] == 108u8);
                    assert(name@.subrange(10, 14)[2] == 111u8);
                    assert(name@.subrange(10, 14)[3] == 103u8);
                }
            }
        }
    }
    ok
}

/// The day key a rotation-file name carries.
fn day_key_of(name: &Vec<u8>) -> (k: u32)
    requires
        is_rotation_name(name@),
    ensures
        k == rotation_day_key(name@),
{
    let y: u32 = (name[0] - 48) as u32 * 1000 + (name[1] - 48) as u32 * 100 + (name[2] - 48)
        as u32 * 10 + (name[3] - 48) as u32;
    let m: u32 = (name[5] - 48) as u32 * 10 + (name[6] - 48) as u32;
    let d: u32 = (name[8] - 48) as u32 * 10 + (name[9] - 48) as u32;
    proof {
        let s = name@.subrange(0, 10);
        assert(s[0] == name@[0] && s[1] == name@[1] && s[2] == name@[2] && s[3] == name@[3]);
        assert(s[5] == name@[5] && s[6] == name@[6]);
        assert(s[8] == name@[8] && s[9] == name@[9]);
        assert(48 <= s[0] <= 57 && 48 <= s[1] <= 57 && 48 <= s[2] <= 57 && 48 <= s[3] <= 57);
        assert(48 <= s[5] <= 57 && 48 <= s[6] <= 57 && 48 <= s[8] <= 57 && 48 <= s[9] <= 57);
    }
    y * 10000 + m * 100 + d
}

/// Lists the rotation files of a directory listing, ordered old to new.
///
/// The result holds exactly the entries whose name is a rotation-file name,
/// each with its day key, sorted by day (equivalently, by name).
pub fn get_sorted_files_from_dir(entries: &Vec<(Vec<u8>, u64)>) -> (files: Vec<LogFileRecord>)
    ensures
        forall|i: int| 0 <= i < files@.len() ==> record_wf(#[trigger] files@[i]),
        sorted_by_day(files@),
        record_views(files@).to_multiset() == entry_views(entries@).filter(
            |e: (Seq<u8>, u64)| is_rotation_entry(e),
        ).to_multiset(),
{
    broadcast use vstd::seq_lib::group_to_multiset_ensures;

    let mut files: Vec<LogFileRecord> = Vec::new();
    let mut i: usize = 0;
    while i < entries.len()
        invariant
            0 <= i <= entries@.len(),
            forall|j: int| 0 <= j < files@.len() ==> record_wf(#[trigger] files@[j]),
            sorted_by_day(files@),
            record_views(files@).to_multiset() == entry_views(entries@.take(i as int)).filter(
                |e: (Seq<u8>, u64)| is_rotation_entry(e),
            ).to_multiset(),
        decreases entries@.len() - i,
    {
        let ghost prefix = entry_views(entries@.take(i as int)).filter(
            |e: (Seq<u8>, u64)| is_rotation_entry(e),
        );
        let ghost e = (entries@[i as int].0@, entries@[i as int].1);
        proof {
            reveal(Seq::filter);
            let pv = entry_views(entries@.take(i as int + 1));
            assert(pv =~= entry_views(entries@.take(i as int)).push(e));
            assert(pv.drop_last() =~= entry_views(entries@.take(i as int)));
            assert(pv.last() == e);
            assert(pv.filter(|e: (Seq<u8>, u64)| is_rotation_entry(e)) == if is_rotation_entry(e) {
                prefix.push(e)
            } else {
                prefix
            });
        }
        let name = entries[i].0.clone();
        let size = entries[i].1;
        proof {
            assert(name@ == entries@[i as int].0@);
        }
        if is_rotation_file_name(&name) {
            let key = day_key_of(&name);
            let rec = LogFileRecord { name, day_key: key, size };
            let mut p: usize = 0;
            while p < files.len()
                invariant
                    0 <= p <= files@.len(),
                    forall|j: int| 0 <= j < p ==> (#[trigger] files@[j]).day_key <= key,
                ensures
                    0 <= p <= files@.len(),
                    forall|j: int| 0 <= j < p ==> (#[trigger] files@[j]).day_key <= key,
                    p < files@.len() ==> files@[p as int].day_key > key,
                decreases files@.len() - p,
            {
                if files[p].day_key > key {
                    break ;
                }
                p = p + 1;
            }
            let ghost before = files@;
            files.insert(p, rec);
            proof {
                assert(files@ == before.insert(p as int, rec));
                lemma_insert_sorted(before, p as int, rec);
                lemma_insert_multiset_pairs(before, p as int, rec);
                assert((rec.name@, rec.size) == e);
                prefix.to_multiset_ensures();
                assert(prefix.push(e).to_multiset() == prefix.to_multiset().insert(e));
                assert(record_views(files@).to_multiset() == prefix.to_multiset().insert(e));
                assert forall|j: int| 0 <= j < files@.len() implies record_wf(
                    #[trigger] files@[j],
                ) by {
                    lemma_insert_cases(before, p as int, rec, j);
                }
            }
        } else {
            proof {
                assert(!is_rotation_entry(e));
            }
        }
        i = i + 1;
    }
    proof {
        assert(entries@.take(entries@.len() as int) =~= entries@);
    }
    files
}

/// Each position of an inserted-into sequence holds either the new element
/// or one of the old ones.
proof fn lemma_insert_cases(s: Seq<LogFileRecord>, p: int, r: LogFileRecord, j: int)
    requires
        0 <= p <= s.len(),
        0 <= j < s.len() + 1,
    ensures
        s.insert(p, r)[j] == if j < p {
            s[j]
        } else if j == p {
            r
        } else {
            s[j - 1]
        },
{
    s.insert_ensures(p, r);
}

/// Inserting at the position an in-order scan found keeps the list sorted.
proof fn lemma_insert_sorted(s: Seq<LogFileRecord>, p: int, r: LogFileRecord)
    requires
        0 <= p <= s.len(),
        sorted_by_day(s),
        forall|j: int| 0 <= j < p ==> (#[trigger] s[j]).day_key <= r.day_key,
        p < s.len() ==> s[p].day_key > r.day_key,
    ensures
        sorted_by_day(s.insert(p, r)),
{
    let t = s.insert(p, r);
    s.insert_ensures(p, r);
    assert forall|i: int, j: int| 0 <= i < j < t.len() implies (#[trigger] t[i]).day_key <= (
    #[trigger] t[j]).day_key by {
        lemma_insert_cases(s, p, r, i);
        lemma_insert_cases(s, p, r, j);
    }
}

/// Inserting a record anywhere adds exactly its (name, size) pair to the
/// list's multiset of pairs.
proof fn lemma_insert_multiset_pairs(s: Seq<LogFileRecord>, p: int, r: LogFileRecord)
    requires
        0 <= p <= s.len(),
    ensures
        record_views(s.insert(p, r)).to_multiset() == record_views(s).to_multiset().insert(
            (r.name@, r.size),
        ),
{
    broadcast use vstd::seq_lib::group_to_multiset_ensures;

    let a = s.subrange(0, p);
    let b = s.subrange(p, s.len() as int);
    assert(s.insert(p, r) == a.push(r) + b);
    assert(record_views(a.push(r) + b) =~= record_views(a).push((r.name@, r.size))
        + record_views(b));
    assert(record_views(s) =~= record_views(a) + record_views(b));
    vstd::seq_lib::lemma_multiset_commutative(
        record_views(a).push((r.name@, r.size)),
        record_views(b),
    );
    vstd::seq_lib::lemma_multiset_commutative(record_views(a), record_views(b));
    assert(record_views(a).push((r.name@, r.size)).to_multiset() =~= record_views(
        a,
    ).to_multiset().insert((r.name@, r.size)));
    assert(record_views(s.insert(p, r)).to_multiset() =~= record_views(s).to_multiset().insert(
        (r.name@, r.size),
    ));
}

/// The sizes of a record list.
pub open spec fn sizes_of(files: Seq<LogFileRecord>) -> Seq<u64> {
    files.map(|i: int, r: LogFileRecord| r.size)
}

/// Walks the files old to new and decides how many of the oldest must be
/// deleted: the returned position is the start of the newest suffix that
/// fits the budget, and no older start would fit.
pub fn plan_evictions(files: &Vec<LogFileRecord>, max_dir_size: u64) -> (k: usize)
    ensures
        k <= files@.len(),
        suffix_sum(sizes_of(files@), k as int) <= max_dir_size,
        forall|j: int| 0 <= j < k ==> suffix_sum(sizes_of(files@), j) > max_dir_size,
{
    let ghost sizes = sizes_of(files@);
    let n = files.len();
    let mut total: u128 = 0;
    let mut start: usize = 0;
    let mut i: usize = 0;
    while i < n
        invariant
            0 <= start <= i <= n,
            n == files@.len(),
            sizes == sizes_of(files@),
            sizes.len() == n,
            total == range_sum(sizes, start as int, i as int),
            total <= max_dir_size,
            forall|j: int| 0 <= j < start ==> range_sum(sizes, j, i as int) > max_dir_size,
        decreases n - i,
    {
        proof {
            lemma_range_sum_bound(sizes, start as int, i as int + 1);
            assert(range_sum(sizes, i as int + 1, i as int + 1) == 0);
            assert(range_sum(sizes, i as int, i as int + 1) == sizes[i as int]);
            lemma_range_sum_split(sizes, start as int, i as int, i as int + 1);
            assert forall|j: int| 0 <= j < start implies #[trigger] range_sum(sizes, j, i as int
                + 1) > max_dir_size by {
                lemma_range_sum_split(sizes, j, i as int, i as int + 1);
                lemma_range_sum_nonneg(sizes, i as int, i as int + 1);
            }
        }
        total = total + files[i].size as u128;
        i = i + 1;
        while total > max_dir_size as u128 && start < i
            invariant
                0 <= start <= i <= n,
                n == files@.len(),
                sizes == sizes_of(files@),
                sizes.len() == n,
                total == range_sum(sizes, start as int, i as int),
                forall|j: int| 0 <= j < start ==> range_sum(sizes, j, i as int) > max_dir_size,
            decreases i - start,
        {
            proof {
                assert(range_sum(sizes, start as int, i as int) == sizes[start as int]
                    + range_sum(sizes, start as int + 1, i as int));
                lemma_range_sum_nonneg(sizes, start as int + 1, i as int);
            }
            total = total - files[start].size as u128;
            start = start + 1;
        }
        proof {
            if start == i {
                assert(range_sum(sizes, i as int, i as int) == 0);
            }
        }
    }
    proof {
        assert(i == n);
    }
    start
}

/// A range's sum never exceeds the length times the largest size, so a
/// 128-bit accumulator cannot overflow.
proof fn lemma_range_sum_bound(sizes: Seq<u64>, a: int, b: int)
    ensures
        range_sum(sizes, a, b) <= (if b - a >= 0 {
            (b - a) * (u64::MAX as int)
        } else {
            0
        }),
    decreases b - a,
{
    if a < 0 || a >= b || b > sizes.len() {
        if b - a >= 1 {
            assert((b - a) * (u64::MAX as int) >= 0) by (nonlinear_arith)
                requires
                    b - a >= 1,
            ;
        }
    } else {
        lemma_range_sum_bound(sizes, a + 1, b);
        assert((b - a) * (u64::MAX as int) == (b - a - 1) * (u64::MAX as int) + u64::MAX as int)
            by (nonlinear_arith);
    }
}

/// Selects the rotation files of a listing, orders them old to new, and
/// marks how many of the oldest must be deleted to fit the budget.
///
/// The files from the returned position on are the newest suffix whose
/// summed size fits `max_dir_size`; every longer suffix overshoots it.
pub fn check_size(entries: &Vec<(Vec<u8>, u64)>, max_dir_size: u64) -> (res: (
    Vec<LogFileRecord>,
    usize,
))
    ensures
        forall|i: int| 0 <= i < res.0@.len() ==> record_wf(#[trigger] res.0@[i]),
        sorted_by_day(res.0@),
        record_views(res.0@).to_multiset() == entry_views(entries@).filter(
            |e: (Seq<u8>, u64)| is_rotation_entry(e),
        ).to_multiset(),
        res.1 <= res.0@.len(),
        suffix_sum(sizes_of(res.0@), res.1 as int) <= max_dir_size,
        forall|j: int| 0 <= j < res.1 ==> suffix_sum(sizes_of(res.0@), j) > max_dir_size,
{
    let files = get_sorted_files_from_dir(entries);
    let k = plan_evictions(&files, max_dir_size);
    (files, k)
}

/// A second enforcement pass over what the first left deletes nothing: the
/// surviving suffix already fits the budget, so its own cutoff is zero.
pub proof fn lemma_enforce_idempotent(sizes: Seq<u64>, max_dir_size: u64, k: int, k2: int)
    requires
        0 <= k <= sizes.len(),
        suffix_sum(sizes, k) <= max_dir_size,
        0 <= k2 <= sizes.skip(k).len(),
        suffix_sum(sizes.skip(k), k2) <= max_dir_size,
        forall|j: int| 0 <= j < k2 ==> suffix_sum(sizes.skip(k), j) > max_dir_size,
    ensures
        k2 == 0,
{
    if k2 > 0 {
        assert(suffix_sum(sizes.skip(k), 0) > max_dir_size);
        lemma_range_sum_skip(sizes, k);
    }
}

/// After the enforcement pass of a write, the directory holds at most the
/// budget, so once the line is appended the directory exceeds the budget by
/// no more than that one line's length.
pub proof fn lemma_bounded_overshoot(sizes: Seq<u64>, max_dir_size: u64, k: int, line_len: int)
    requires
        0 <= k <= sizes.len(),
        suffix_sum(sizes, k) <= max_dir_size,
        0 <= line_len,
    ensures
        suffix_sum(sizes, k) + line_len <= max_dir_size + line_len,
{
}

/// At most one rotation file exists per calendar day: two rotation-file
/// names carrying the same day key are the same name.
pub proof fn lemma_one_file_per_day(a: Seq<u8>, b: Seq<u8>)
    requires
        is_rotation_name(a),
        is_rotation_name(b),
        rotation_day_key(a) == rotation_day_key(b),
    ensures
        a == b,
{
    let da = a.subrange(0, 10);
    let db = b.subrange(0, 10);
    assert(ds_year(da) == ds_year(db) && ds_month(da) == ds_month(db) && ds_day(da) == ds_day(
        db,
    )) by {
        assert(1 <= ds_month(da) <= 12 && 1 <= ds_month(db) <= 12);
        assert(1 <= ds_day(da) <= 31 && 1 <= ds_day(db) <= 31);
    }
    assert forall|i: int| 0 <= i < 10 implies da[i] == db[i] by {
        assert(crate::datetime::is_digit(da[0]) && crate::datetime::is_digit(da[1])
            && crate::datetime::is_digit(da[2]) && crate::datetime::is_digit(da[3]));
        assert(crate::datetime::is_digit(da[5]) && crate::datetime::is_digit(da[6]));
        assert(crate::datetime::is_digit(da[8]) && crate::datetime::is_digit(da[9]));
        assert(crate::datetime::is_digit(db[0]) && crate::datetime::is_digit(db[1])
            && crate::datetime::is_digit(db[2]) && crate::datetime::is_digit(db[3]));
        assert(crate::datetime::is_digit(db[5]) && crate::datetime::is_digit(db[6]));
        assert(crate::datetime::is_digit(db[8]) && crate::datetime::is_digit(db[9]));
    }
    assert forall|i: int| 0 <= i < 14 implies a[i] == b[i] by {
        if i < 10 {
            assert(a[i] == da[i] && b[i] == db[i]);
        } else {
            assert(a.subrange(10, 14)[i - 10] == log_suffix()[i - 10]);
            assert(b.subrange(10, 14)[i - 10] == log_suffix()[i - 10]);
        }
    }
    assert(a =~= b);
}

/// A suffix sum is the same whether taken in the whole list or in the
/// suffix seen as a list of its own.
proof fn lemma_range_sum_skip(sizes: Seq<u64>, k: int)
    requires
        0 <= k <= sizes.len(),
    ensures
        suffix_sum(sizes.skip(k), 0) == suffix_sum(sizes, k),
{
    lemma_range_sum_shift(sizes, k, k);
}

proof fn lemma_range_sum_shift(sizes: Seq<u64>, k: int, a: int)
    requires
        0 <= k <= a <= sizes.len(),
    ensures
        range_sum(sizes.skip(k), a - k, sizes.len() - k) == range_sum(
            sizes,
            a,
            sizes.len() as int,
        ),
    decreases sizes.len() - a,
{
    if a < sizes.len() {
        lemma_range_sum_shift(sizes, k, a + 1);
        assert(sizes.skip(k)[a - k] == sizes[a]);
    }
}

} // verus!
