//! What the scheduler's ledgers count, and how one change moves the counts.

use crate::checkpoint::{given_up, kept, outlives_cut, CheckpointEntry, LineageId, ReuseSource};
use crate::request::Request;
use crate::types::{LaneId, PrefixId, RequestId, RequestState, N_DECODE_LANES};
use vstd::prelude::*;

verus! {

/// The sum of `f` over the first `n` requests.
pub open spec fn tally(reqs: Seq<Request>, f: spec_fn(Request) -> int, n: int) -> int
    decreases n,
{
    if n <= 0 {
        0
    } else {
        tally(reqs, f, n - 1) + f(reqs[n - 1])
    }
}

/// What a request charges the KV pool of its own.
pub open spec fn page_charge() -> spec_fn(Request) -> int {
    |r: Request| if r.resident { r.resources.kv_pages as int } else { 0 }
}

/// What a request charges the device's sequence slots.
pub open spec fn slot_charge() -> spec_fn(Request) -> int {
    |r: Request| if r.resident { 1int } else { 0 }
}

/// What a request charges the decode lanes.
pub open spec fn lane_charge() -> spec_fn(Request) -> int {
    |r: Request| if r.lane is Some { 1int } else { 0 }
}

/// Whether a request stands on the prefix `p`.
pub open spec fn stands_on(p: PrefixId) -> spec_fn(Request) -> int {
    |r: Request| if r.prefix_entry == Some(p) { 1int } else { 0 }
}

/// Whether a request is in flight.
pub open spec fn flight_charge() -> spec_fn(Request) -> int {
    |r: Request| if r.state != RequestState::Done { 1int } else { 0 }
}

/// KV pages resident requests hold of their own.
pub open spec fn charged(reqs: Seq<Request>) -> int {
    tally(reqs, page_charge(), reqs.len() as int)
}

/// Requests whose sequence is on the device.
pub open spec fn residents(reqs: Seq<Request>) -> int {
    tally(reqs, slot_charge(), reqs.len() as int)
}

/// Requests that hold a lane.
pub open spec fn laned(reqs: Seq<Request>) -> int {
    tally(reqs, lane_charge(), reqs.len() as int)
}

/// Requests that stand on the prefix `p`.
pub open spec fn standing(reqs: Seq<Request>, p: PrefixId) -> int {
    tally(reqs, stands_on(p), reqs.len() as int)
}

/// Requests in flight.
pub open spec fn flying(reqs: Seq<Request>) -> int {
    tally(reqs, flight_charge(), reqs.len() as int)
}

pub proof fn tally_update(
    reqs: Seq<Request>,
    f: spec_fn(Request) -> int,
    i: int,
    with: Request,
    n: int,
)
    requires
        0 <= i < reqs.len(),
        0 <= n <= reqs.len(),
    ensures
        tally(reqs.update(i, with), f, n) == tally(reqs, f, n) + (if i < n {
            f(with) - f(reqs[i])
        } else {
            0
        }),
    decreases n,
{
    if n > 0 {
        tally_update(reqs, f, i, with, n - 1);
    }
}

pub proof fn tally_same(a: Seq<Request>, b: Seq<Request>, f: spec_fn(Request) -> int, n: int)
    requires
        0 <= n <= a.len(),
        n <= b.len(),
        forall|i: int| 0 <= i < n ==> f(#[trigger] a[i]) == f(b[i]),
    ensures
        tally(a, f, n) == tally(b, f, n),
    decreases n,
{
    if n > 0 {
        tally_same(a, b, f, n - 1);
        assert(f(a[n - 1]) == f(b[n - 1]));
    }
}

pub proof fn tally_bounds(reqs: Seq<Request>, f: spec_fn(Request) -> int, i: int, n: int)
    requires
        0 <= n <= reqs.len(),
        forall|r: Request| #[trigger] f(r) >= 0,
    ensures
        tally(reqs, f, n) >= 0,
        0 <= i < n ==> tally(reqs, f, n) >= f(reqs[i]),
    decreases n,
{
    if n > 0 {
        tally_bounds(reqs, f, i, n - 1);
        assert(f(reqs[n - 1]) >= 0);
        if i == n - 1 {
            tally_bounds(reqs, f, -1, n - 1);
        }
    }
}

/// How replacing one request moves every count.
pub proof fn counts_move(reqs: Seq<Request>, i: int, with: Request)
    requires
        0 <= i < reqs.len(),
    ensures
        charged(reqs.update(i, with)) == charged(reqs) + page_charge()(with) - page_charge()(reqs[i]),
        residents(reqs.update(i, with)) == residents(reqs) + slot_charge()(with) - slot_charge()(
            reqs[i],
        ),
        laned(reqs.update(i, with)) == laned(reqs) + lane_charge()(with) - lane_charge()(reqs[i]),
        flying(reqs.update(i, with)) == flying(reqs) + flight_charge()(with) - flight_charge()(
            reqs[i],
        ),
        forall|p: PrefixId| #[trigger]
            standing(reqs.update(i, with), p) == standing(reqs, p) + stands_on(p)(with) - stands_on(
                p,
            )(reqs[i]),
        charged(reqs) >= page_charge()(reqs[i]),
        residents(reqs) >= slot_charge()(reqs[i]),
        charged(reqs) >= 0,
        residents(reqs) >= 0,
{
    let n = reqs.len() as int;
    tally_update(reqs, page_charge(), i, with, n);
    tally_update(reqs, slot_charge(), i, with, n);
    tally_update(reqs, lane_charge(), i, with, n);
    tally_update(reqs, flight_charge(), i, with, n);
    assert forall|p: PrefixId| #[trigger]
        standing(reqs.update(i, with), p) == standing(reqs, p) + stands_on(p)(with) - stands_on(p)(
            reqs[i],
        ) by {
        tally_update(reqs, stands_on(p), i, with, n);
    }
    tally_bounds(reqs, page_charge(), i, n);
    tally_bounds(reqs, slot_charge(), i, n);
}

/// How a new request moves every count.
pub proof fn counts_grow(reqs: Seq<Request>, with: Request)
    ensures
        charged(reqs.push(with)) == charged(reqs) + page_charge()(with),
        residents(reqs.push(with)) == residents(reqs) + slot_charge()(with),
        laned(reqs.push(with)) == laned(reqs) + lane_charge()(with),
        flying(reqs.push(with)) == flying(reqs) + flight_charge()(with),
        forall|p: PrefixId| #[trigger]
            standing(reqs.push(with), p) == standing(reqs, p) + stands_on(p)(with),
{
    let n = reqs.len() as int;
    let after = reqs.push(with);
    assert forall|i: int| 0 <= i < n implies #[trigger] after[i] == reqs[i] by {}
    tally_same(after, reqs, page_charge(), n);
    tally_same(after, reqs, slot_charge(), n);
    tally_same(after, reqs, lane_charge(), n);
    tally_same(after, reqs, flight_charge(), n);
    assert forall|p: PrefixId| #[trigger]
        standing(reqs.push(with), p) == standing(reqs, p) + stands_on(p)(with) by {
        tally_same(after, reqs, stands_on(p), n);
    }
}

/// Nothing stands on a prefix fewer times than a request that stands on it.
pub proof fn standing_is_seen(reqs: Seq<Request>, p: PrefixId, i: int)
    requires
        0 <= i < reqs.len(),
        reqs[i].prefix_entry == Some(p),
    ensures
        standing(reqs, p) >= 1,
{
    tally_bounds(reqs, stands_on(p), i, reqs.len() as int);
}

pub proof fn standing_is_a_count(reqs: Seq<Request>, p: PrefixId)
    ensures
        standing(reqs, p) >= 0,
{
    tally_bounds(reqs, stands_on(p), -1, reqs.len() as int);
}

/// Device checkpoints of the first `n` that stand on `p`.
pub open spec fn images_on(entries: Seq<CheckpointEntry>, p: PrefixId, n: int) -> int
    decreases n,
{
    if n <= 0 {
        0
    } else {
        images_on(entries, p, n - 1) + image_on(entries[n - 1], p)
    }
}

/// Whether a checkpoint is on the device and stands on `p`.
pub open spec fn image_on(e: CheckpointEntry, p: PrefixId) -> int {
    if e.tier == ReuseSource::Device && e.prefix == p {
        1
    } else {
        0
    }
}

/// Device checkpoints that stand on `p`.
pub open spec fn holding(entries: Seq<CheckpointEntry>, p: PrefixId) -> int {
    images_on(entries, p, entries.len() as int)
}

/// Device checkpoints among the first `n`.
pub open spec fn on_device(entries: Seq<CheckpointEntry>, n: int) -> int
    decreases n,
{
    if n <= 0 {
        0
    } else {
        on_device(entries, n - 1) + (if entries[n - 1].tier == ReuseSource::Device {
            1int
        } else {
            0
        })
    }
}

/// Device checkpoints.
pub open spec fn device_images(entries: Seq<CheckpointEntry>) -> int {
    on_device(entries, entries.len() as int)
}

pub proof fn images_same(a: Seq<CheckpointEntry>, b: Seq<CheckpointEntry>, p: PrefixId, n: int)
    requires
        0 <= n <= a.len(),
        n <= b.len(),
        forall|i: int|
            0 <= i < n ==> (#[trigger] a[i]).tier == b[i].tier && a[i].prefix == b[i].prefix,
    ensures
        images_on(a, p, n) == images_on(b, p, n),
        on_device(a, n) == on_device(b, n),
    decreases n,
{
    if n > 0 {
        images_same(a, b, p, n - 1);
        assert(a[n - 1].tier == b[n - 1].tier);
    }
}

pub proof fn images_without(a: Seq<CheckpointEntry>, at: int, p: PrefixId, n: int)
    requires
        0 <= at < n <= a.len(),
    ensures
        images_on(a, p, n) == images_on(a.remove(at), p, n - 1) + image_on(a[at], p),
        on_device(a, n) == on_device(a.remove(at), n - 1) + (if a[at].tier == ReuseSource::Device {
            1int
        } else {
            0
        }),
    decreases n,
{
    if at < n - 1 {
        images_without(a, at, p, n - 1);
        assert(a.remove(at)[n - 2] == a[n - 1]);
    } else {
        images_same(a, a.remove(at), p, n - 1);
    }
}

pub proof fn images_updated(
    a: Seq<CheckpointEntry>,
    at: int,
    with: CheckpointEntry,
    p: PrefixId,
    n: int,
)
    requires
        0 <= at < a.len(),
        0 <= n <= a.len(),
    ensures
        images_on(a.update(at, with), p, n) == images_on(a, p, n) + (if at < n {
            image_on(with, p) - image_on(a[at], p)
        } else {
            0
        }),
        on_device(a.update(at, with), n) == on_device(a, n) + (if at < n {
            (if with.tier == ReuseSource::Device {
                1int
            } else {
                0
            }) - (if a[at].tier == ReuseSource::Device {
                1int
            } else {
                0
            })
        } else {
            0
        }),
    decreases n,
{
    if n > 0 {
        images_updated(a, at, with, p, n - 1);
    }
}

pub proof fn images_are_counts(a: Seq<CheckpointEntry>, p: PrefixId, i: int, n: int)
    requires
        0 <= n <= a.len(),
    ensures
        0 <= images_on(a, p, n) <= n,
        0 <= on_device(a, n) <= n,
        0 <= i < n ==> images_on(a, p, n) >= image_on(a[i], p),
    decreases n,
{
    if n > 0 {
        images_are_counts(a, p, i, n - 1);
        if i == n - 1 {
            images_are_counts(a, p, -1, n - 1);
        }
    }
}

/// A lineage's cut splits the device checkpoints between what it keeps and
/// what it gives up.
pub proof fn a_cut_splits_the_images(
    all: Seq<CheckpointEntry>,
    lineage: LineageId,
    p: PrefixId,
    n: int,
)
    requires
        0 <= n <= all.len(),
    ensures
        images_on(all, p, n) == holding(kept(all, lineage, n), p) + holding(
            given_up(all, lineage, n),
            p,
        ),
        on_device(all, n) == device_images(kept(all, lineage, n)) + device_images(
            given_up(all, lineage, n),
        ),
    decreases n,
{
    if n > 0 {
        a_cut_splits_the_images(all, lineage, p, n - 1);
        let k = kept(all, lineage, n - 1);
        let g = given_up(all, lineage, n - 1);
        if outlives_cut(all, lineage, n - 1) {
            images_same(k.push(all[n - 1]), k, p, k.len() as int);
        } else {
            images_same(g.push(all[n - 1]), g, p, g.len() as int);
        }
    }
}

/// How often `p` is among the first `n` of `owed`.
pub open spec fn owed_on(owed: Seq<PrefixId>, p: PrefixId, n: int) -> int
    decreases n,
{
    if n <= 0 {
        0
    } else {
        owed_on(owed, p, n - 1) + (if owed[n - 1] == p { 1int } else { 0 })
    }
}

/// How often `p` is owed.
pub open spec fn debt(owed: Seq<PrefixId>, p: PrefixId) -> int {
    owed_on(owed, p, owed.len() as int)
}

pub proof fn debt_grows(owed: Seq<PrefixId>, more: PrefixId, p: PrefixId)
    ensures
        debt(owed.push(more), p) == debt(owed, p) + (if more == p { 1int } else { 0 }),
        debt(Seq::empty(), p) == 0,
        debt(owed, p) >= 0,
{
    owed_same(owed.push(more), owed, p, owed.len() as int);
    owed_is_a_count(owed, p, owed.len() as int);
}

proof fn owed_same(a: Seq<PrefixId>, b: Seq<PrefixId>, p: PrefixId, n: int)
    requires
        0 <= n <= a.len(),
        n <= b.len(),
        forall|i: int| 0 <= i < n ==> a[i] == b[i],
    ensures
        owed_on(a, p, n) == owed_on(b, p, n),
    decreases n,
{
    if n > 0 {
        owed_same(a, b, p, n - 1);
    }
}

proof fn owed_is_a_count(owed: Seq<PrefixId>, p: PrefixId, n: int)
    requires
        0 <= n <= owed.len(),
    ensures
        owed_on(owed, p, n) >= 0,
    decreases n,
{
    if n > 0 {
        owed_is_a_count(owed, p, n - 1);
    }
}

/// The prefixes the device checkpoints among the first `n` stand on.
pub open spec fn image_prefixes(entries: Seq<CheckpointEntry>, n: int) -> Seq<PrefixId>
    decreases n,
{
    if n <= 0 {
        Seq::empty()
    } else if entries[n - 1].tier == ReuseSource::Device {
        image_prefixes(entries, n - 1).push(entries[n - 1].prefix)
    } else {
        image_prefixes(entries, n - 1)
    }
}

/// What is owed for checkpoints taken out of the ledger is what they held.
pub proof fn images_are_owed(entries: Seq<CheckpointEntry>, p: PrefixId, n: int)
    requires
        0 <= n <= entries.len(),
    ensures
        debt(image_prefixes(entries, n), p) == images_on(entries, p, n),
    decreases n,
{
    if n > 0 {
        images_are_owed(entries, p, n - 1);
        debt_grows(image_prefixes(entries, n - 1), entries[n - 1].prefix, p);
    } else {
        debt_grows(Seq::empty(), 0, p);
    }
}

/// The lanes add up: free lanes and held lanes are distinct, in range, and
/// together all of them.
pub open spec fn lanes_add_up(reqs: Seq<Request>, free: Seq<LaneId>) -> bool {
    &&& laned(reqs) + free.len() == N_DECODE_LANES
    &&& forall|a: int| 0 <= a < free.len() ==> #[trigger] free[a] < N_DECODE_LANES
    &&& forall|a: int, b: int|
        0 <= a < b < free.len() ==> #[trigger] free[a] != #[trigger] free[b]
    &&& forall|i: int|
        0 <= i < reqs.len() ==> ((#[trigger] reqs[i]).lane matches Some(lane) ==> lane
            < N_DECODE_LANES && !free.contains(lane))
    &&& forall|i: int, j: int|
        0 <= i < j < reqs.len() && (#[trigger] reqs[i]).lane is Some && (
        #[trigger] reqs[j]).lane is Some ==> reqs[i].lane != reqs[j].lane
}

/// Ids ascend in submission order.
pub open spec fn requests_ascend(reqs: Seq<Request>, bound: RequestId) -> bool {
    &&& forall|i: int| 0 <= i < reqs.len() ==> (#[trigger] reqs[i]).id < bound
    &&& forall|i: int, j: int|
        0 <= i < j < reqs.len() ==> (#[trigger] reqs[i]).id < (#[trigger] reqs[j]).id
}

/// Nothing is in flight exactly where every request is done.
pub proof fn nothing_flies_once_all_are_done(reqs: Seq<Request>)
    ensures
        flying(reqs) == 0 <==> forall|i: int|
            0 <= i < reqs.len() ==> (#[trigger] reqs[i]).state == RequestState::Done,
        flying(reqs) >= 0,
{
    flights_are_counted(reqs, reqs.len() as int);
}

proof fn flights_are_counted(reqs: Seq<Request>, n: int)
    requires
        0 <= n <= reqs.len(),
    ensures
        tally(reqs, flight_charge(), n) >= 0,
        tally(reqs, flight_charge(), n) == 0 <==> forall|i: int|
            0 <= i < n ==> (#[trigger] reqs[i]).state == RequestState::Done,
    decreases n,
{
    if n > 0 {
        flights_are_counted(reqs, n - 1);
    }
}

} // verus!
