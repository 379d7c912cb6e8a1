//! Replaying the metric journal: which entries a flush applies to a metric.
//!
//! A flush applies, in journal order, each entry of a metric that is newer
//! than the metric's last update as it was before the flush; every applied
//! entry moves the last update to its own time.

use vstd::prelude::*;

verus! {

/// Whether the entry at `time` is applied to a metric last updated at `last`.
pub open spec fn entry_applies(time: u64, last: u64) -> bool {
    time > last
}

/// The last update of a metric after a flush of the entry times `times`.
pub open spec fn last_update_after(times: Seq<u64>, last: u64) -> u64
    decreases times.len(),
{
    if times.len() == 0 {
        last
    } else {
        let before = last_update_after(times.drop_last(), last);
        if entry_applies(times.last(), last) {
            times.last()
        } else {
            before
        }
    }
}

pub open spec fn non_decreasing(times: Seq<u64>) -> bool {
    forall|i: int, j: int| 0 <= i < j < times.len() ==> times[i] <= times[j]
}

/// Which of the journal entries (by time, in journal order) a flush applies to
/// a metric last updated at `last_update`, and the metric's last update after
/// the flush.
pub fn select_journal_entries(times: &Vec<u64>, last_update: u64) -> (r: (Vec<bool>, u64))
    ensures
        r.0@.len() == times@.len(),
        forall|i: int| 0 <= i < times@.len() ==> r.0@[i] == entry_applies(#[trigger] times@[i], last_update),
        r.1 == last_update_after(times@, last_update),
{
    let mut applied: Vec<bool> = Vec::new();
    let mut last = last_update;
    let mut i: usize = 0;
    while i < times.len()
        invariant
            i <= times@.len(),
            applied@.len() == i,
            forall|k: int| 0 <= k < i ==> applied@[k] == entry_applies(#[trigger] times@[k], last_update),
            last == last_update_after(times@.subrange(0, i as int), last_update),
        decreases times@.len() - i,
    {
        let t = times[i];
        let applies = t > last_update;
        applied.push(applies);
        if applies {
            last = t;
        }
        proof {
            let p = times@.subrange(0, i + 1);
            assert(p.drop_last() =~= times@.subrange(0, i as int));
            assert(p.last() == t);
        }
        i = i + 1;
    }
    assert(times@.subrange(0, i as int) =~= times@);
    (applied, last)
}

proof fn lemma_last_update_bound(times: Seq<u64>, last: u64)
    requires
        non_decreasing(times),
        times.len() > 0,
    ensures
        last_update_after(times, last) >= last,
        entry_applies(times.last(), last) ==> last_update_after(times, last) == times.last(),
        !entry_applies(times.last(), last) ==> last_update_after(times, last) == last,
    decreases times.len(),
{
    let init = times.drop_last();
    if times.len() > 1 {
        assert forall|i: int, j: int| 0 <= i < j < init.len() implies init[i] <= init[j] by {
            assert(init[i] == times[i] && init[j] == times[j]);
        }
        lemma_last_update_bound(init, last);
        assert(init.last() == times[times.len() - 2]);
        assert(init.last() <= times.last());
    } else {
        assert(init.len() == 0);
        assert(last_update_after(init, last) == last);
    }
}

/// Replaying a journal whose entries are in time order a second time, on the
/// state the first replay left, applies nothing: the metric stays as it is.
pub proof fn lemma_journal_replay_idempotent(times: Seq<u64>, last: u64)
    requires
        non_decreasing(times),
    ensures
        forall|i: int|
            0 <= i < times.len() ==> !entry_applies(
                #[trigger] times[i],
                last_update_after(times, last),
            ),
        last_update_after(times, last_update_after(times, last)) == last_update_after(times, last),
{
    if times.len() > 0 {
        lemma_last_update_bound(times, last);
        let l = last_update_after(times, last);
        assert forall|i: int| 0 <= i < times.len() implies !entry_applies(#[trigger] times[i], l) by {
            if entry_applies(times.last(), last) {
                assert(times[i] <= times[times.len() - 1]);
            } else {
                assert(times[i] <= times[times.len() - 1]);
            }
        }
        lemma_nothing_applies_keeps_last(times, l);
    }
}

proof fn lemma_nothing_applies_keeps_last(times: Seq<u64>, last: u64)
    requires
        forall|i: int| 0 <= i < times.len() ==> !entry_applies(#[trigger] times[i], last),
    ensures
        last_update_after(times, last) == last,
    decreases times.len(),
{
    if times.len() > 0 {
        let init = times.drop_last();
        assert forall|i: int| 0 <= i < init.len() implies !entry_applies(#[trigger] init[i], last) by {
            assert(init[i] == times[i]);
        }
        lemma_nothing_applies_keeps_last(init, last);
        assert(!entry_applies(times[times.len() - 1], last));
    }
}

} // verus!
