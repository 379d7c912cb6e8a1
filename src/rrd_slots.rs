//! Slot arithmetic of the round-robin metric archives: which slot a time
//! falls into, which slots an update clears, and which slots an extract
//! reports. The slot values themselves are kept outside the library.

use vstd::prelude::*;

verus! {

/// Slots per archive.
pub const RRD_DATA_ENTRIES: u64 = 70;

/// Largest resolution (seconds per slot) handled.
pub const MAX_RESOLUTION: u64 = 1_000_000;

/// Largest epoch handled.
pub const MAX_EPOCH: u64 = 0x1000_0000_0000_0000;

/// Slot of time `t` in an archive of resolution `reso`.
pub open spec fn slot_index(t: int, reso: int) -> int {
    (t / reso) % 70
}

/// `t - d`, or 0 where that is negative.
pub open spec fn sat_sub(t: int, d: int) -> int {
    if t >= d {
        t - d
    } else {
        0
    }
}

/// One reported slot of an extract: its time, its index, and whether the
/// stored window covers it.
pub open spec fn extract_slot(epoch: int, last_update: int, reso: int, i: int) -> (int, int, bool) {
    let start = sat_sub(reso * (epoch / reso), reso * 70);
    let rrd_end = reso * (last_update / reso);
    let rrd_start = sat_sub(rrd_end, reso * 70);
    let t = start + i * reso;
    (t, slot_index(t, reso), rrd_start <= t && t <= rrd_end)
}

/// Whether an update at `epoch` clears the slot visited as `i`-th from the
/// last update: its time fell out of the window that ends at `epoch`.
pub open spec fn clears(last: int, epoch: int, reso: int, i: int) -> bool {
    last + i * reso < sat_sub(epoch, reso * 70)
}

/// Whether slot `x` is one that an update at `epoch` clears.
pub open spec fn cleared_slot(last: int, epoch: int, reso: int, x: int) -> bool {
    exists|i: int| 0 <= i < RRD_DATA_ENTRIES && #[trigger] clears(last, epoch, reso, i) && x == slot_index(last + i * reso, reso)
}

proof fn lemma_floor_mul(x: int, reso: int)
    requires
        x >= 0,
        reso > 0,
    ensures
        0 <= reso * (x / reso) <= x,
{
    assert(reso * (x / reso) <= x && 0 <= reso * (x / reso)) by (nonlinear_arith)
        requires
            x >= 0,
            reso > 0,
    ;
}

/// Slot of time `t` in an archive of resolution `reso`.
pub fn slot_of(t: u64, reso: u64) -> (r: usize)
    requires
        reso > 0,
    ensures
        r as int == slot_index(t as int, reso as int),
        r < RRD_DATA_ENTRIES,
{
    ((t / reso) % RRD_DATA_ENTRIES) as usize
}

/// The slots an extract at `epoch` reports from an archive of resolution
/// `reso` last updated at `last_update`, oldest first.
pub fn extract_plan(epoch: u64, last_update: u64, reso: u64) -> (r: Vec<(u64, usize, bool)>)
    requires
        0 < reso <= MAX_RESOLUTION,
        epoch <= MAX_EPOCH,
        last_update <= MAX_EPOCH,
    ensures
        r@.len() == RRD_DATA_ENTRIES,
        forall|i: int|
            0 <= i < RRD_DATA_ENTRIES ==> {
                let s = extract_slot(epoch as int, last_update as int, reso as int, i);
                &&& (#[trigger] r@[i]).0 as int == s.0
                &&& r@[i].1 as int == s.1
                &&& r@[i].2 == s.2
            },
{
    proof {
        lemma_floor_mul(epoch as int, reso as int);
        lemma_floor_mul(last_update as int, reso as int);
    }
    let end = reso * (epoch / reso);
    let span = reso * RRD_DATA_ENTRIES;
    let start = if end >= span {
        end - span
    } else {
        0
    };
    let rrd_end = reso * (last_update / reso);
    let rrd_start = if rrd_end >= span {
        rrd_end - span
    } else {
        0
    };
    let mut r: Vec<(u64, usize, bool)> = Vec::new();
    let mut t = start;
    let mut i: u64 = 0;
    while i < RRD_DATA_ENTRIES
        invariant
            0 < reso <= MAX_RESOLUTION,
            i <= RRD_DATA_ENTRIES,
            start <= MAX_EPOCH,
            t as int == start + i * reso,
            r@.len() == i,
            start as int == sat_sub(reso * (epoch / reso), reso * 70),
            rrd_end as int == reso * (last_update / reso),
            rrd_start as int == sat_sub(rrd_end as int, reso * 70),
            forall|k: int|
                0 <= k < i ==> {
                    let s = extract_slot(epoch as int, last_update as int, reso as int, k);
                    &&& (#[trigger] r@[k]).0 as int == s.0
                    &&& r@[k].1 as int == s.1
                    &&& r@[k].2 == s.2
                },
        decreases RRD_DATA_ENTRIES - i,
    {
        proof {
            assert(i * reso <= 70 * MAX_RESOLUTION) by (nonlinear_arith)
                requires
                    i <= 70,
                    reso <= MAX_RESOLUTION,
            ;
        }
        let index = ((t / reso) % RRD_DATA_ENTRIES) as usize;
        r.push((t, index, rrd_start <= t && t <= rrd_end));
        proof {
            assert(start + (i + 1) * reso == start + i * reso + reso) by (nonlinear_arith);
        }
        t = t + reso;
        i = i + 1;
    }
    r
}

/// The slots an update at `epoch` clears in an archive of resolution `reso`
/// last updated at `last`, in the order visited from the slot of `last`.
pub fn stale_slots(last: u64, epoch: u64, reso: u64) -> (r: Vec<usize>)
    requires
        0 < reso <= MAX_RESOLUTION,
        epoch <= MAX_EPOCH,
        last <= MAX_EPOCH,
    ensures
        r@.len() <= RRD_DATA_ENTRIES,
        forall|k: int| 0 <= k < r@.len() ==> (#[trigger] r@[k]) < RRD_DATA_ENTRIES,
        forall|i: int|
            0 <= i < RRD_DATA_ENTRIES && #[trigger] clears(last as int, epoch as int, reso as int, i)
                ==> r@.contains(slot_index(last + i * reso, reso as int) as usize),
        forall|k: int|
            0 <= k < r@.len() ==> cleared_slot(last as int, epoch as int, reso as int, #[trigger] r@[k] as int),
{
    let span = reso * RRD_DATA_ENTRIES;
    let min_time = if epoch >= span {
        epoch - span
    } else {
        0
    };
    let mut r: Vec<usize> = Vec::new();
    let ghost mut visits: Seq<int> = Seq::empty();
    let mut t = last;
    let mut i: u64 = 0;
    while i < RRD_DATA_ENTRIES
        invariant
            0 < reso <= MAX_RESOLUTION,
            i <= RRD_DATA_ENTRIES,
            last <= MAX_EPOCH,
            t as int == last + i * reso,
            min_time as int == sat_sub(epoch as int, reso * 70),
            r@.len() <= i,
            visits.len() == r@.len(),
            forall|k: int| 0 <= k < r@.len() ==> (#[trigger] r@[k]) < RRD_DATA_ENTRIES,
            forall|j: int|
                0 <= j < i && #[trigger] clears(last as int, epoch as int, reso as int, j) ==> r@.contains(
                    slot_index(last + j * reso, reso as int) as usize,
                ),
            forall|k: int|
                0 <= k < r@.len() ==> 0 <= #[trigger] visits[k] < i && clears(
                    last as int,
                    epoch as int,
                    reso as int,
                    visits[k],
                ) && r@[k] as int == slot_index(last + visits[k] * reso, reso as int),
        decreases RRD_DATA_ENTRIES - i,
    {
        proof {
            assert(i * reso <= 70 * MAX_RESOLUTION) by (nonlinear_arith)
                requires
                    i <= 70,
                    reso <= MAX_RESOLUTION,
            ;
        }
        if t < min_time {
            let ghost before = r@;
            let index = ((t / reso) % RRD_DATA_ENTRIES) as usize;
            r.push(index);
            proof {
                visits = visits.push(i as int);
                assert(clears(last as int, epoch as int, reso as int, i as int));
                assert forall|j: int|
                    0 <= j < i + 1 && #[trigger] clears(last as int, epoch as int, reso as int, j) implies r@.contains(
                        slot_index(last + j * reso, reso as int) as usize,
                    ) by {
                    if j < i {
                        let k = choose|k: int| 0 <= k < before.len() && before[k] == slot_index(last + j * reso, reso as int) as usize;
                        assert(r@[k] == before[k]);
                    } else {
                        assert(r@[before.len() as int] == slot_index(last + j * reso, reso as int) as usize);
                    }
                }
                assert forall|k: int| 0 <= k < r@.len() implies 0 <= #[trigger] visits[k] < i + 1 && clears(
                    last as int,
                    epoch as int,
                    reso as int,
                    visits[k],
                ) && r@[k] as int == slot_index(last + visits[k] * reso, reso as int) by {
                    if k < before.len() {
                        assert(r@[k] == before[k]);
                    }
                }
            }
        } else {
            proof {
                assert(!clears(last as int, epoch as int, reso as int, i as int));
            }
        }
        proof {
            assert(last + (i + 1) * reso == last + i * reso + reso) by (nonlinear_arith);
        }
        t = t + reso;
        i = i + 1;
    }
    proof {
        assert forall|k: int| 0 <= k < r@.len() implies cleared_slot(last as int, epoch as int, reso as int, #[trigger] r@[k] as int) by {
            let j = visits[k];
            assert(clears(last as int, epoch as int, reso as int, j));
            assert(0 <= j < RRD_DATA_ENTRIES);
            assert(r@[k] as int == slot_index(last + j * reso, reso as int));
        }
    }
    r
}

} // verus!
