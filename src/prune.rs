//! Retention pruning: which snapshots of a group a keep policy retains.
//!
//! Snapshots are walked newest first. Each bucket (last, hourly, daily,
//! weekly, monthly, yearly) with a limit keeps a snapshot whose bucket key it
//! has not seen yet, while it has kept fewer than its limit. Keys are taken in
//! UTC; weeks start on Monday. Protected snapshots are always kept and use no
//! quota.

use vstd::prelude::*;

use crate::backup_info::{sorted_by_time, BackupInfo};
use crate::time::{civil_from_days, civil_from_days_exec};

verus! {

/// How many snapshots each bucket keeps; `None` leaves a bucket unused.
#[derive(Clone, Copy, Debug, PartialEq, Eq, Structural)]
pub struct PruneOptions {
    pub keep_last: Option<u64>,
    pub keep_hourly: Option<u64>,
    pub keep_daily: Option<u64>,
    pub keep_weekly: Option<u64>,
    pub keep_monthly: Option<u64>,
    pub keep_yearly: Option<u64>,
}

/// The decision for one snapshot.
#[derive(Clone, Copy, Debug, PartialEq, Eq, Structural)]
pub enum PruneMark {
    Keep,
    Protected,
    Remove,
}

/// Errors of the pruner.
#[derive(Clone, Copy, Debug, PartialEq, Eq, Structural)]
pub enum PruneError {
    /// No bucket has a limit: keeping nothing is not allowed.
    EmptyPolicy,
}

/// Number of buckets.
pub const BUCKETS: usize = 6;

impl PruneOptions {
    /// The limit of bucket `b`, in the order last, hourly, daily, weekly, monthly, yearly.
    pub open spec fn limit(&self, b: int) -> Option<u64> {
        if b == 0 {
            self.keep_last
        } else if b == 1 {
            self.keep_hourly
        } else if b == 2 {
            self.keep_daily
        } else if b == 3 {
            self.keep_weekly
        } else if b == 4 {
            self.keep_monthly
        } else {
            self.keep_yearly
        }
    }

    pub open spec fn empty_policy(&self) -> bool {
        forall|b: int| 0 <= b < BUCKETS ==> (#[trigger] self.limit(b)) is None
    }

    fn limit_exec(&self, b: usize) -> (r: Option<u64>)
        requires
            b < BUCKETS,
        ensures
            r == self.limit(b as int),
    {
        if b == 0 {
            self.keep_last
        } else if b == 1 {
            self.keep_hourly
        } else if b == 2 {
            self.keep_daily
        } else if b == 3 {
            self.keep_weekly
        } else if b == 4 {
            self.keep_monthly
        } else {
            self.keep_yearly
        }
    }

    /// Whether no bucket has a limit.
    pub fn is_empty_policy(&self) -> (r: bool)
        ensures
            r == self.empty_policy(),
    {
        let r = self.keep_last.is_none() && self.keep_hourly.is_none() && self.keep_daily.is_none()
            && self.keep_weekly.is_none() && self.keep_monthly.is_none()
            && self.keep_yearly.is_none();
        proof {
            if !r {
                if self.keep_last.is_some() {
                    assert(self.limit(0) is Some);
                } else if self.keep_hourly.is_some() {
                    assert(self.limit(1) is Some);
                } else if self.keep_daily.is_some() {
                    assert(self.limit(2) is Some);
                } else if self.keep_weekly.is_some() {
                    assert(self.limit(3) is Some);
                } else if self.keep_monthly.is_some() {
                    assert(self.limit(4) is Some);
                } else {
                    assert(self.limit(5) is Some);
                }
            }
        }
        r
    }
}

/// The key of a snapshot at position `pos` (newest first) taken at `t` in bucket `b`.
pub open spec fn bucket_key(b: int, pos: int, t: int) -> int {
    if b == 0 {
        pos
    } else if b == 1 {
        t / 3600
    } else if b == 2 {
        t / 86400
    } else if b == 3 {
        (t / 86400 + 3) / 7
    } else if b == 4 {
        civil_from_days(t / 86400).0 * 12 + civil_from_days(t / 86400).1
    } else {
        civil_from_days(t / 86400).0
    }
}

/// Whether a bucket that has seen `seen` takes a snapshot with `key`.
pub open spec fn bucket_takes(seen: Seq<int>, key: int, protected: bool, limit: u64) -> bool {
    !protected && !seen.contains(key) && seen.len() < limit
}

/// The keys bucket `b` has recorded after the first `n` snapshots.
pub open spec fn bucket_seen(
    times: Seq<int>,
    prot: Seq<bool>,
    b: int,
    limit: u64,
    n: nat,
) -> Seq<int>
    decreases n,
{
    if n == 0 {
        Seq::empty()
    } else {
        let seen = bucket_seen(times, prot, b, limit, (n - 1) as nat);
        let i = n - 1;
        let key = bucket_key(b, i, times[i]);
        if bucket_takes(seen, key, prot[i], limit) {
            seen.push(key)
        } else {
            seen
        }
    }
}

/// Whether bucket `b` keeps snapshot `i`.
pub open spec fn kept_by(times: Seq<int>, prot: Seq<bool>, opts: PruneOptions, b: int, i: int) -> bool {
    match opts.limit(b) {
        None => false,
        Some(limit) => bucket_takes(
            bucket_seen(times, prot, b, limit, i as nat),
            bucket_key(b, i, times[i]),
            prot[i],
            limit,
        ),
    }
}

/// The mark of snapshot `i` of a newest-first list with the given times and protection flags.
pub open spec fn prune_mark(times: Seq<int>, prot: Seq<bool>, opts: PruneOptions, i: int) -> PruneMark {
    if prot[i] {
        PruneMark::Protected
    } else if exists|b: int| 0 <= b < BUCKETS && #[trigger] kept_by(times, prot, opts, b, i) {
        PruneMark::Keep
    } else {
        PruneMark::Remove
    }
}

pub open spec fn times_of(s: Seq<BackupInfo>) -> Seq<int> {
    Seq::new(s.len(), |i: int| s[i].backup_dir.time() as int)
}

pub open spec fn protection_of(s: Seq<BackupInfo>) -> Seq<bool> {
    Seq::new(s.len(), |i: int| s[i].protected)
}

fn key_exec(b: usize, pos: usize, t: i64) -> (r: i64)
    requires
        b < BUCKETS,
        t >= 0,
        pos <= i64::MAX,
    ensures
        r as int == bucket_key(b as int, pos as int, t as int),
{
    if b == 0 {
        pos as i64
    } else if b == 1 {
        t / 3600
    } else if b == 2 {
        t / 86400
    } else if b == 3 {
        (t / 86400 + 3) / 7
    } else {
        let (y, m, _d) = civil_from_days_exec((t / 86400) as u64);
        assert(y <= 0x1000_0000_0000) by {
            assert(civil_from_days((t / 86400) as int).0 <= 0x1000_0000_0000);
        }
        if b == 4 {
            (y * 12 + m) as i64
        } else {
            y as i64
        }
    }
}

fn contains_key(seen: &Vec<i64>, key: i64) -> (r: bool)
    ensures
        r == seen@.map_values(|k: i64| k as int).contains(key as int),
{
    let mut i: usize = 0;
    while i < seen.len()
        invariant
            i <= seen@.len(),
            forall|j: int| 0 <= j < i ==> seen@[j] != key,
        decreases seen@.len() - i,
    {
        if seen[i] == key {
            assert(seen@.map_values(|k: i64| k as int)[i as int] == key as int);
            return true;
        }
        i = i + 1;
    }
    proof {
        let s = seen@.map_values(|k: i64| k as int);
        if s.contains(key as int) {
            let j = choose|j: int| 0 <= j < s.len() && #[trigger] s[j] == key as int;
            assert(seen@[j] == key);
        }
    }
    false
}

/// Marks the snapshots of a newest-first list.
pub fn prune_marks(list: &Vec<BackupInfo>, opts: &PruneOptions) -> (r: Vec<PruneMark>)
    requires
        list@.len() <= i64::MAX,
    ensures
        r@.len() == list@.len(),
        forall|i: int|
            0 <= i < list@.len() ==> r@[i] == prune_mark(
                times_of(list@),
                protection_of(list@),
                *opts,
                i,
            ),
{
    let n = list.len();
    let ghost times = times_of(list@);
    let ghost prot = protection_of(list@);
    let mut keep: Vec<bool> = Vec::new();
    let mut i: usize = 0;
    while i < n
        invariant
            i <= n == list@.len(),
            keep@.len() == i,
            forall|j: int| 0 <= j < i ==> !keep@[j],
        decreases n - i,
    {
        keep.push(false);
        i = i + 1;
    }
    let mut b: usize = 0;
    while b < BUCKETS
        invariant
            b <= BUCKETS,
            n == list@.len(),
            n <= i64::MAX,
            keep@.len() == n,
            times == times_of(list@),
            prot == protection_of(list@),
            forall|j: int|
                0 <= j < n ==> (keep@[j] <==> exists|c: int|
                    0 <= c < b && #[trigger] kept_by(times, prot, *opts, c, j)),
        decreases BUCKETS - b,
    {
        match opts.limit_exec(b) {
            None => {
                proof {
                    assert forall|j: int| 0 <= j < n implies (keep@[j] <==> exists|c: int|
                        0 <= c < b + 1 && #[trigger] kept_by(times, prot, *opts, c, j)) by {
                        if keep@[j] {
                            let c = choose|c: int| 0 <= c < b && #[trigger] kept_by(times, prot, *opts, c, j);
                            assert(0 <= c < b + 1 && kept_by(times, prot, *opts, c, j));
                        }
                        if exists|c: int| 0 <= c < b + 1 && #[trigger] kept_by(times, prot, *opts, c, j) {
                            let c = choose|c: int| 0 <= c < b + 1 && #[trigger] kept_by(times, prot, *opts, c, j);
                            assert(c != b);
                        }
                    }
                }
            },
            Some(limit) => {
                let mut seen: Vec<i64> = Vec::new();
                let mut i: usize = 0;
                while i < n
                    invariant
                        i <= n == list@.len(),
                        n <= i64::MAX,
                        b < BUCKETS,
                        keep@.len() == n,
                        times == times_of(list@),
                        prot == protection_of(list@),
                        opts.limit(b as int) == Some(limit),
                        seen@.map_values(|k: i64| k as int) == bucket_seen(times, prot, b as int, limit, i as nat),
                        forall|j: int|
                            0 <= j < i ==> (keep@[j] <==> exists|c: int|
                                0 <= c < b + 1 && #[trigger] kept_by(times, prot, *opts, c, j)),
                        forall|j: int|
                            i <= j < n ==> (keep@[j] <==> exists|c: int|
                                0 <= c < b && #[trigger] kept_by(times, prot, *opts, c, j)),
                    decreases n - i,
                {
                    let t = list[i].backup_dir.backup_time();
                    let key = key_exec(b, i, t);
                    let ghost seen_before = seen@.map_values(|k: i64| k as int);
                    let takes = !list[i].protected && !contains_key(&seen, key) && (seen.len() as u64)
                        < limit;
                    assert(takes == bucket_takes(seen_before, key as int, prot[i as int], limit));
                    assert(key as int == bucket_key(b as int, i as int, times[i as int]));
                    assert(takes == kept_by(times, prot, *opts, b as int, i as int));
                    if takes {
                        keep.set(i, true);
                        seen.push(key);
                        assert(seen@.map_values(|k: i64| k as int) =~= seen_before.push(key as int));
                    }
                    proof {
                        let j = i as int;
                        if keep@[j] && !takes {
                            let c = choose|c: int| 0 <= c < b && #[trigger] kept_by(times, prot, *opts, c, j);
                            assert(0 <= c < b + 1 && kept_by(times, prot, *opts, c, j));
                        }
                        if !keep@[j] {
                            if exists|c: int| 0 <= c < b + 1 && #[trigger] kept_by(times, prot, *opts, c, j) {
                                let c = choose|c: int| 0 <= c < b + 1 && #[trigger] kept_by(times, prot, *opts, c, j);
                                assert(c != b);
                            }
                        }
                    }
                    i = i + 1;
                }
            },
        }
        b = b + 1;
    }
    let mut marks: Vec<PruneMark> = Vec::new();
    let mut i: usize = 0;
    while i < n
        invariant
            i <= n == list@.len(),
            keep@.len() == n,
            times == times_of(list@),
            prot == protection_of(list@),
            marks@.len() == i,
            forall|j: int|
                0 <= j < n ==> (keep@[j] <==> exists|c: int|
                    0 <= c < BUCKETS && #[trigger] kept_by(times, prot, *opts, c, j)),
            forall|j: int| 0 <= j < i ==> marks@[j] == prune_mark(times, prot, *opts, j),
        decreases n - i,
    {
        let m = if list[i].protected {
            PruneMark::Protected
        } else if keep[i] {
            PruneMark::Keep
        } else {
            PruneMark::Remove
        };
        marks.push(m);
        i = i + 1;
    }
    marks
}

/// The snapshots of a result list, without their marks.
pub open spec fn infos_of(v: Seq<(BackupInfo, PruneMark)>) -> Seq<BackupInfo> {
    v.map_values(|p: (BackupInfo, PruneMark)| p.0)
}

/// Sorts the snapshots of a group newest first and marks each one.
pub fn compute_prune_info(list: Vec<BackupInfo>, options: &PruneOptions) -> (r: Result<
    Vec<(BackupInfo, PruneMark)>,
    PruneError,
>)
    requires
        list@.len() <= i64::MAX,
    ensures
        r is Err <==> options.empty_policy(),
        r is Err ==> r == Err::<Vec<(BackupInfo, PruneMark)>, PruneError>(PruneError::EmptyPolicy),
        r is Ok ==> {
            let v = r->Ok_0@;
            let infos = infos_of(v);
            &&& infos.to_multiset() == list@.to_multiset()
            &&& sorted_by_time(infos, false)
            &&& forall|i: int|
                0 <= i < v.len() ==> (#[trigger] v[i]).1 == prune_mark(
                    times_of(infos),
                    protection_of(infos),
                    *options,
                    i,
                )
        },
{
    if options.is_empty_policy() {
        return Err(PruneError::EmptyPolicy);
    }
    let mut list = list;
    let ghost before = list@;
    BackupInfo::sort_list(&mut list, false);
    proof {
        vstd::seq_lib::to_multiset_len(before);
        vstd::seq_lib::to_multiset_len(list@);
    }
    let marks = prune_marks(&list, options);
    let ghost sorted = list@;
    let n = list.len();
    let mut result: Vec<(BackupInfo, PruneMark)> = Vec::new();
    let mut i: usize = 0;
    while i < n
        invariant
            i <= n == sorted.len() == marks@.len(),
            list@ == sorted.subrange(i as int, n as int),
            result@.len() == i,
            infos_of(result@) == sorted.subrange(0, i as int),
            forall|j: int| 0 <= j < i ==> (#[trigger] result@[j]).1 == marks@[j],
        decreases n - i,
    {
        let x = list.remove(0);
        result.push((x, marks[i]));
        i = i + 1;
        assert(list@ =~= sorted.subrange(i as int, n as int));
        assert(infos_of(result@) =~= sorted.subrange(0, i as int));
    }
    assert(infos_of(result@) =~= sorted);
    Ok(result)
}

/// The marks are a function of the snapshots' times, their protection flags
/// and the policy: the same newest-first list and policy give the same marks,
/// whatever the time of day.
pub proof fn lemma_prune_deterministic(
    a: Seq<BackupInfo>,
    b: Seq<BackupInfo>,
    opts: PruneOptions,
)
    requires
        times_of(a) == times_of(b),
        protection_of(a) == protection_of(b),
    ensures
        forall|i: int|
            0 <= i < a.len() ==> #[trigger] prune_mark(times_of(a), protection_of(a), opts, i)
                == prune_mark(times_of(b), protection_of(b), opts, i),
{
}

/// Positions of a newest-first result list that a prune run deletes, oldest
/// first: those marked for removal. A dry run deletes nothing.
pub fn prune_removals(result: &Vec<(BackupInfo, PruneMark)>, dry_run: bool) -> (r: Vec<usize>)
    ensures
        dry_run ==> r@.len() == 0,
        forall|k: int| 0 <= k < r@.len() ==> (#[trigger] r@[k]) < result@.len() && result@[r@[k] as int].1 == PruneMark::Remove,
        forall|k: int, l: int| 0 <= k < l < r@.len() ==> r@[k] > r@[l],
        !dry_run ==> forall|i: int| 0 <= i < result@.len() && (#[trigger] result@[i]).1 == PruneMark::Remove ==> r@.contains(i as usize),
{
    let mut r: Vec<usize> = Vec::new();
    if dry_run {
        return r;
    }
    let mut i: usize = result.len();
    while i > 0
        invariant
            i <= result@.len(),
            forall|k: int| 0 <= k < r@.len() ==> (#[trigger] r@[k]) >= i && r@[k] < result@.len() && result@[r@[k] as int].1 == PruneMark::Remove,
            forall|k: int, l: int| 0 <= k < l < r@.len() ==> r@[k] > r@[l],
            forall|j: int| i <= j < result@.len() && (#[trigger] result@[j]).1 == PruneMark::Remove ==> r@.contains(j as usize),
        decreases i,
    {
        i = i - 1;
        if result[i].1 == PruneMark::Remove {
            let ghost before = r@;
            r.push(i);
            proof {
                assert forall|j: int| i <= j < result@.len() && (#[trigger] result@[j]).1 == PruneMark::Remove implies r@.contains(j as usize) by {
                    if j > i {
                        let k = choose|k: int| 0 <= k < before.len() && before[k] == j as usize;
                        assert(r@[k] == j as usize);
                    } else {
                        assert(r@[before.len() as int] == i);
                    }
                }
            }
        }
    }
    r
}

/// Time and protection flag of each snapshot of a list.
pub open spec fn time_protection_of(s: Seq<BackupInfo>) -> Seq<(int, bool)> {
    Seq::new(s.len(), |i: int| (s[i].backup_dir.time() as int, s[i].protected))
}

/// Strictly newest first: no two snapshots share a time.
pub open spec fn strictly_newest_first(s: Seq<(int, bool)>) -> bool {
    forall|i: int, j: int| 0 <= i < j < s.len() ==> s[i].0 > s[j].0
}

proof fn lemma_strictly_sorted_unique(a: Seq<(int, bool)>, b: Seq<(int, bool)>)
    requires
        strictly_newest_first(a),
        strictly_newest_first(b),
        a.to_multiset() == b.to_multiset(),
    ensures
        a == b,
    decreases a.len(),
{
    broadcast use vstd::seq_lib::group_to_multiset_ensures;

    assert(a.len() == a.to_multiset().len());
    assert(b.len() == b.to_multiset().len());
    if a.len() == 0 {
        assert(b.len() == 0);
        assert(a =~= b);
    } else {
        assert(b.len() == a.len());
        assert(a.to_multiset().count(a[0]) > 0) by {
            assert(a.contains(a[0]));
        }
        assert(b.contains(a[0]));
        let k = choose|k: int| 0 <= k < b.len() && b[k] == a[0];
        assert(b.contains(b[0]));
        assert(b.to_multiset().count(b[0]) > 0);
        assert(a.to_multiset().count(b[0]) > 0);
        assert(a.contains(b[0]));
        let l = choose|l: int| 0 <= l < a.len() && a[l] == b[0];
        assert(a[0].0 >= b[0].0) by {
            if l > 0 {
                assert(a[0].0 > a[l].0);
            }
        }
        assert(b[0].0 >= a[0].0) by {
            if k > 0 {
                assert(b[0].0 > b[k].0);
            }
        }
        assert(k == 0) by {
            if k > 0 {
                assert(b[0].0 > b[k].0);
            }
        }
        assert(a.remove(0) =~= a.drop_first());
        assert(b.remove(0) =~= b.drop_first());
        vstd::seq_lib::to_multiset_remove(a, 0);
        vstd::seq_lib::to_multiset_remove(b, 0);
        lemma_strictly_sorted_unique(a.drop_first(), b.drop_first());
        assert(a =~= b) by {
            assert forall|i: int| 0 <= i < a.len() implies a[i] == b[i] by {
                if i > 0 {
                    assert(a[i] == a.drop_first()[i - 1]);
                    assert(b[i] == b.drop_first()[i - 1]);
                }
            }
        }
    }
}

/// Whatever order the snapshots of a group come in, the marks are the same:
/// two newest-first lists of the same snapshots (by time and protection
/// flag), with no two snapshots at one time, are marked alike.
pub proof fn lemma_prune_marks_order_free(
    a: Seq<BackupInfo>,
    b: Seq<BackupInfo>,
    opts: PruneOptions,
)
    requires
        strictly_newest_first(time_protection_of(a)),
        strictly_newest_first(time_protection_of(b)),
        time_protection_of(a).to_multiset() == time_protection_of(b).to_multiset(),
    ensures
        a.len() == b.len(),
        forall|i: int|
            0 <= i < a.len() ==> #[trigger] prune_mark(times_of(a), protection_of(a), opts, i)
                == prune_mark(times_of(b), protection_of(b), opts, i),
{
    lemma_strictly_sorted_unique(time_protection_of(a), time_protection_of(b));
    let ta = time_protection_of(a);
    let tb = time_protection_of(b);
    assert(a.len() == ta.len() && b.len() == tb.len());
    assert(times_of(a) =~= times_of(b)) by {
        assert forall|i: int| 0 <= i < a.len() implies times_of(a)[i] == times_of(b)[i] by {
            assert(ta[i] == tb[i]);
        }
    }
    assert(protection_of(a) =~= protection_of(b)) by {
        assert forall|i: int| 0 <= i < a.len() implies protection_of(a)[i] == protection_of(b)[i] by {
            assert(ta[i] == tb[i]);
        }
    }
}

} // verus!
