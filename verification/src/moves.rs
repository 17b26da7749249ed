//! How the invariant carries over when one request changes.

use crate::concrete::{
    hosted, is_known, loosely_hosted, request_ok, resumes, resumes_at, snapshotted,
    ConcreteScheduler,
};
use crate::host::{HostEntry, ResumePhase};
use crate::ledger::{
    counts_move, debt, holding, lanes_add_up, page_charge, requests_ascend, slot_charge, standing,
    stands_on,
};
use crate::request::Request;
use crate::scheduler::{Clock, Compute};
use crate::types::{LaneId, PrefixId, RequestState, N_DECODE_LANES};
use vstd::prelude::*;

verus! {

/// Lanes add up after a request changed but for its lane.
pub proof fn lanes_kept(reqs: Seq<Request>, free: Seq<LaneId>, i: int, with: Request)
    requires
        lanes_add_up(reqs, free),
        0 <= i < reqs.len(),
        with.lane == reqs[i].lane,
    ensures
        lanes_add_up(reqs.update(i, with), free),
{
    counts_move(reqs, i, with);
    let after = reqs.update(i, with);
    assert forall|j: int| 0 <= j < after.len() implies (#[trigger] after[j]).lane == reqs[j].lane by {}
}

/// Lanes add up after a request gave its lane back.
pub proof fn lane_returned(reqs: Seq<Request>, free: Seq<LaneId>, i: int, with: Request)
    requires
        lanes_add_up(reqs, free),
        0 <= i < reqs.len(),
        reqs[i].lane is Some,
        with.lane is None,
    ensures
        lanes_add_up(reqs.update(i, with), free.push(reqs[i].lane->Some_0)),
{
    counts_move(reqs, i, with);
    let lane = reqs[i].lane->Some_0;
    let after = reqs.update(i, with);
    let now = free.push(lane);
    assert(!free.contains(lane));
    assert forall|a: int, b: int| 0 <= a < b < now.len() implies #[trigger] now[a]
        != #[trigger] now[b] by {
        if b == free.len() {
            assert(free.contains(free[a]));
        }
    }
    assert forall|j: int| 0 <= j < after.len() implies ((#[trigger] after[j]).lane matches Some(l)
        ==> l < N_DECODE_LANES && !now.contains(l)) by {
        if j != i {
            assert(after[j] == reqs[j]);
            if let Some(l) = after[j].lane {
                if now.contains(l) {
                    let k = choose|k: int| 0 <= k < now.len() && now[k] == l;
                    if k < free.len() {
                        assert(free[k] == l);
                        assert(free.contains(l));
                    } else if j < i {
                        assert(reqs[j].lane != reqs[i].lane);
                    } else {
                        assert(reqs[i].lane != reqs[j].lane);
                    }
                }
            }
        }
    }
}

/// Lanes add up after a request was dealt the last free lane.
pub proof fn lane_dealt(reqs: Seq<Request>, free: Seq<LaneId>, i: int, with: Request)
    requires
        lanes_add_up(reqs, free),
        0 <= i < reqs.len(),
        free.len() > 0,
        reqs[i].lane is None,
        with.lane == Some(free.last()),
    ensures
        lanes_add_up(reqs.update(i, with), free.drop_last()),
{
    counts_move(reqs, i, with);
    let lane = free.last();
    let after = reqs.update(i, with);
    let now = free.drop_last();
    assert forall|a: int| 0 <= a < now.len() implies #[trigger] now[a] == free[a] by {}
    assert(free.contains(lane)) by {
        assert(free[free.len() - 1] == lane);
    }
    assert forall|j: int| 0 <= j < after.len() implies ((#[trigger] after[j]).lane matches Some(l)
        ==> l < N_DECODE_LANES && !now.contains(l)) by {
        if let Some(l) = after[j].lane {
            if now.contains(l) {
                let k = choose|k: int| 0 <= k < now.len() && now[k] == l;
                assert(free[k] == l);
                assert(free.contains(l));
                if j == i {
                    assert(free[k] != free[free.len() - 1]);
                } else {
                    assert(after[j] == reqs[j]);
                }
            }
        }
    }
    assert forall|a: int, b: int|
        0 <= a < b < after.len() && (#[trigger] after[a]).lane is Some && (
        #[trigger] after[b]).lane is Some implies after[a].lane != after[b].lane by {
        if a != i {
            assert(after[a] == reqs[a]);
        }
        if b != i {
            assert(after[b] == reqs[b]);
        }
    }
}

/// The tier still holds exactly the suspended requests after a request that is
/// not suspended changed into another that is not.
pub proof fn hosted_kept(reqs: Seq<Request>, live: Seq<HostEntry>, i: int, with: Request)
    requires
        hosted(reqs, live),
        0 <= i < reqs.len(),
        reqs[i].state != RequestState::Evicted,
        with.state != RequestState::Evicted,
    ensures
        hosted(reqs.update(i, with), live),
{
    let after = reqs.update(i, with);
    assert forall|k: int| 0 <= k < live.len() implies resumes(after, #[trigger] live[k]) by {
        assert(resumes(reqs, live[k]));
        let j = choose|j: int| #[trigger] resumes_at(reqs, live[k], j);
        assert(resumes_at(after, live[k], j));
    }
    assert forall|j: int|
        0 <= j < after.len() && (#[trigger] after[j]).state == RequestState::Evicted implies snapshotted(
        live,
        after[j].id,
    ) by {
        assert(after[j] == reqs[j]);
    }
}

/// The tier still holds exactly the suspended requests after a suspended
/// request changed in nothing a resume reads.
pub proof fn hosted_kept_suspended(reqs: Seq<Request>, live: Seq<HostEntry>, i: int, with: Request)
    requires
        hosted(reqs, live),
        0 <= i < reqs.len(),
        with.id == reqs[i].id,
        with.state == reqs[i].state,
        with.resources.kv_pages == reqs[i].resources.kv_pages,
        with.prefill_progress == reqs[i].prefill_progress,
        with.tokens == reqs[i].tokens,
        with.remaining_work == reqs[i].remaining_work,
        with.gdn == reqs[i].gdn,
        with.class == reqs[i].class,
        with.input == reqs[i].input,
    ensures
        hosted(reqs.update(i, with), live),
{
    let after = reqs.update(i, with);
    assert forall|k: int| 0 <= k < live.len() implies resumes(after, #[trigger] live[k]) by {
        assert(resumes(reqs, live[k]));
        let j = choose|j: int| #[trigger] resumes_at(reqs, live[k], j);
        assert(resumes_at(after, live[k], j));
    }
    assert forall|j: int|
        0 <= j < after.len() && (#[trigger] after[j]).state == RequestState::Evicted implies snapshotted(
        live,
        after[j].id,
    ) by {
        assert(reqs[j].state == RequestState::Evicted);
        assert(after[j].id == reqs[j].id);
    }
}

/// A request and its snapshot leave the suspended together.
pub proof fn hosted_leave(
    reqs: Seq<Request>,
    live: Seq<HostEntry>,
    bound: u64,
    i: int,
    with: Request,
    at: int,
)
    requires
        loosely_hosted(reqs, live),
        requests_ascend(reqs, bound),
        0 <= i < reqs.len(),
        with.state != RequestState::Evicted,
        with.id == reqs[i].id,
        0 <= at < live.len(),
        live[at].request == reqs[i].id,
        forall|a: int, b: int|
            0 <= a < b < live.len() ==> (#[trigger] live[a]).request != (#[trigger] live[b]).request,
    ensures
        loosely_hosted(reqs.update(i, with), live.remove(at)),
        hosted(reqs, live) ==> hosted(reqs.update(i, with), live.remove(at)),
{
    let after = reqs.update(i, with);
    let rest = live.remove(at);
    assert forall|k: int| 0 <= k < rest.len() implies {
        let was = if k < at { k } else { k + 1 };
        &&& #[trigger] rest[k] == live[was]
        &&& resumes(reqs, live[was]) ==> resumes(after, rest[k])
        &&& !is_known(reqs, live[was].request) ==> !is_known(after, rest[k].request)
    } by {
        let was = if k < at { k } else { k + 1 };
        assert(rest[k] == live[was]);
        if resumes(reqs, live[was]) {
            let j = choose|j: int| #[trigger] resumes_at(reqs, live[was], j);
            if was < at {
                assert(live[was].request != live[at].request);
            } else {
                assert(live[at].request != live[was].request);
            }
            assert(j != i);
            assert(resumes_at(after, rest[k], j));
        }
        if is_known(after, rest[k].request) {
            let j = choose|j: int|
                0 <= j < after.len() && (#[trigger] after[j]).id == rest[k].request;
            assert(reqs[j].id == rest[k].request);
        }
    }
    assert forall|k: int| 0 <= k < rest.len() implies resumes(after, #[trigger] rest[k])
        || !is_known(after, rest[k].request) by {
        let was = if k < at { k } else { k + 1 };
        assert(rest[k] == live[was]);
        assert(resumes(reqs, live[was]) || !is_known(reqs, live[was].request));
    }
    if hosted(reqs, live) {
        assert forall|k: int| 0 <= k < rest.len() implies resumes(after, #[trigger] rest[k]) by {
            let was = if k < at { k } else { k + 1 };
            assert(rest[k] == live[was]);
            assert(resumes(reqs, live[was]));
        }
    }
    assert forall|j: int|
        0 <= j < after.len() && (#[trigger] after[j]).state == RequestState::Evicted implies snapshotted(
        rest,
        after[j].id,
    ) by {
        assert(after[j] == reqs[j] && j != i);
        let k = choose|k: int| 0 <= k < live.len() && (#[trigger] live[k]).request == reqs[j].id;
        if j < i {
            assert(reqs[j].id < reqs[i].id);
        } else {
            assert(reqs[i].id < reqs[j].id);
        }
        assert(k != at);
        if k < at {
            assert(rest[k] == live[k]);
        } else {
            assert(rest[k - 1] == live[k]);
        }
    }
}

/// A snapshot with no request behind it leaves.
pub proof fn a_stranger_leaves(reqs: Seq<Request>, live: Seq<HostEntry>, at: int)
    requires
        loosely_hosted(reqs, live),
        0 <= at < live.len(),
        !is_known(reqs, live[at].request),
    ensures
        loosely_hosted(reqs, live.remove(at)),
        !hosted(reqs, live),
{
    let rest = live.remove(at);
    assert forall|k: int| 0 <= k < rest.len() implies resumes(reqs, #[trigger] rest[k])
        || !is_known(reqs, rest[k].request) by {
        assert(rest[k] == live[if k < at { k } else { k + 1 }]);
    }
    assert forall|j: int|
        0 <= j < reqs.len() && (#[trigger] reqs[j]).state == RequestState::Evicted implies snapshotted(
        rest,
        reqs[j].id,
    ) by {
        let k = choose|k: int| 0 <= k < live.len() && (#[trigger] live[k]).request == reqs[j].id;
        assert(k != at);
        if k < at {
            assert(rest[k] == live[k]);
        } else {
            assert(rest[k - 1] == live[k]);
        }
    }
    if hosted(reqs, live) {
        assert(resumes(reqs, live[at]));
        let j = choose|j: int| #[trigger] resumes_at(reqs, live[at], j);
        assert(reqs[j].id == live[at].request);
    }
}

/// A request that is not suspended moves on, and its id stays.
pub proof fn loosely_kept(reqs: Seq<Request>, live: Seq<HostEntry>, i: int, with: Request)
    requires
        loosely_hosted(reqs, live),
        0 <= i < reqs.len(),
        reqs[i].state != RequestState::Evicted,
        with.state != RequestState::Evicted,
        with.id == reqs[i].id,
    ensures
        loosely_hosted(reqs.update(i, with), live),
{
    let after = reqs.update(i, with);
    assert forall|k: int| 0 <= k < live.len() implies resumes(after, #[trigger] live[k])
        || !is_known(after, live[k].request) by {
        if resumes(reqs, live[k]) {
            let j = choose|j: int| #[trigger] resumes_at(reqs, live[k], j);
            assert(j != i);
            assert(resumes_at(after, live[k], j));
        } else if is_known(after, live[k].request) {
            let j = choose|j: int|
                0 <= j < after.len() && (#[trigger] after[j]).id == live[k].request;
            assert(reqs[j].id == live[k].request);
        }
    }
    assert forall|j: int|
        0 <= j < after.len() && (#[trigger] after[j]).state == RequestState::Evicted implies snapshotted(
        live,
        after[j].id,
    ) by {
        assert(after[j] == reqs[j]);
    }
}

/// A request and its snapshot join the suspended together.
pub proof fn hosted_join(
    reqs: Seq<Request>,
    live: Seq<HostEntry>,
    i: int,
    with: Request,
    entry: HostEntry,
)
    requires
        hosted(reqs, live),
        0 <= i < reqs.len(),
        reqs[i].state != RequestState::Evicted,
        with.state == RequestState::Evicted,
        with.id == reqs[i].id,
        entry.request == with.id,
        entry.pages == with.resources.kv_pages,
        entry.prefill_progress == with.prefill_progress,
        entry.tokens == with.tokens,
        entry.remaining_work == with.remaining_work,
        entry.gdn@ == with.gdn@,
        entry.owner == with.class,
        entry.resume_phase == ResumePhase::Running ==> with.prefilled(),
    ensures
        hosted(reqs.update(i, with), live.push(entry)),
{
    let after = reqs.update(i, with);
    let now = live.push(entry);
    assert forall|k: int| 0 <= k < now.len() implies resumes(after, #[trigger] now[k]) by {
        if k < live.len() {
            assert(now[k] == live[k]);
            assert(resumes(reqs, live[k]));
            let j = choose|j: int| #[trigger] resumes_at(reqs, live[k], j);
            assert(resumes_at(after, now[k], j));
        } else {
            assert(resumes_at(after, now[k], i));
        }
    }
    assert forall|j: int|
        0 <= j < after.len() && (#[trigger] after[j]).state == RequestState::Evicted implies snapshotted(
        now,
        after[j].id,
    ) by {
        if j == i {
            assert(now[live.len() as int].request == after[j].id);
        } else {
            assert(after[j] == reqs[j]);
            let k = choose|k: int| 0 <= k < live.len() && (#[trigger] live[k]).request == reqs[j].id;
            assert(now[k].request == after[j].id);
        }
    }
}

impl<C: Compute, K: Clock> ConcreteScheduler<C, K> {
    /// The books balance after one request changed, where the lanes still add
    /// up, the charges moved by what the request's own did, and what it no
    /// longer stands on is owed.
    pub proof fn one_request_moved(
        self,
        before: Self,
        i: int,
        owed: Seq<PrefixId>,
        still_owed: Seq<PrefixId>,
    )
        requires
            before.books(owed),
            0 <= i < before.requests@.len(),
            self.requests@ == before.requests@.update(i, self.requests@[i]),
            self.requests@[i].id == before.requests@[i].id,
            request_ok(self.requests@[i], self.config, self.prefix.entries@),
            self.config == before.config,
            self.capacity == before.capacity,
            self.next_id == before.next_id,
            self.prefix == before.prefix,
            self.checkpoints == before.checkpoints,
            self.retained.wf(),
            self.host.wf(),
            self.tail_pages == before.tail_pages,
            self.terms_ok(),
            lanes_add_up(self.requests@, self.free_lanes@),
            self.kv_used_pages == before.kv_used_pages + page_charge()(self.requests@[i])
                - page_charge()(before.requests@[i]),
            self.kv_used_pages <= self.capacity.kv_pages,
            self.resident_slots_used == before.resident_slots_used + slot_charge()(self.requests@[i])
                - slot_charge()(before.requests@[i]),
            self.resident_slots_used <= self.config.resident_slot_capacity,
            forall|p: PrefixId| #[trigger]
                debt(still_owed, p) == debt(owed, p) + stands_on(p)(before.requests@[i]) - stands_on(
                    p,
                )(self.requests@[i]),
        ensures
            self.books(still_owed),
    {
        let with = self.requests@[i];
        counts_move(before.requests@, i, with);
        assert forall|p: PrefixId| #[trigger]
            self.prefix.refs(p) == standing(self.requests@, p) + holding(
                self.checkpoints.entries@,
                p,
            ) + debt(still_owed, p) by {
            assert(before.prefix.refs(p) == standing(before.requests@, p) + holding(
                before.checkpoints.entries@,
                p,
            ) + debt(owed, p));
            assert(standing(self.requests@, p) == standing(before.requests@, p) + stands_on(p)(with)
                - stands_on(p)(before.requests@[i]));
            assert(debt(still_owed, p) == debt(owed, p) + stands_on(p)(before.requests@[i])
                - stands_on(p)(with));
        }
        assert forall|j: int| 0 <= j < self.requests@.len() implies request_ok(
            #[trigger] self.requests@[j],
            self.config,
            self.prefix.entries@,
        ) by {
            if j != i {
                assert(self.requests@[j] == before.requests@[j]);
            }
        }
        assert forall|a: int, b: int| 0 <= a < b < self.requests@.len() implies (
        #[trigger] self.requests@[a]).id < (#[trigger] self.requests@[b]).id by {
            assert(self.requests@[a].id == before.requests@[a].id);
            assert(self.requests@[b].id == before.requests@[b].id);
        }
    }
}

} // verus!
