//! The admission policy: which request gets which lane.
//!
//! - **Protection**: when a queued head is blocked by the active set, the
//!   active incumbents are frozen and the earliest-completion prefix whose
//!   release makes the head feasible is selected as its **donors**. Donors
//!   are never evicted while the protection is open.
//! - **Backfill class**: a candidate admitted while a protection is open is
//!   `Persistent` (it fits the head's future capacity) or `Temporal` (its own
//!   work fits the frontier distance and the temporal credit).
//! - **Temporal credit**: the last donor's remaining work, spent by each
//!   temporal backfill.
//! - **Frontier distance**: the work left to the last still-active donor.
//!
//! Everything here is a policy over plain values; the scheduler drives it.
//! One quantum of work is one decode token.

use crate::order::{is_service_order, precedes, service_order};
use crate::types::{BackfillClass, LaneId, RequestClass, RequestId};
use vstd::prelude::*;

verus! {

/// A component-wise amount of the three resource pools.
pub struct Demand {
    pub lanes: int,
    pub kv_pages: int,
    pub backend_pages: int,
}

impl Demand {
    pub open spec fn nothing() -> Demand {
        Demand { lanes: 0, kv_pages: 0, backend_pages: 0 }
    }

    pub open spec fn plus(self, other: Demand) -> Demand {
        Demand {
            lanes: self.lanes + other.lanes,
            kv_pages: self.kv_pages + other.kv_pages,
            backend_pages: self.backend_pages + other.backend_pages,
        }
    }

    pub open spec fn minus(self, other: Demand) -> Demand {
        Demand {
            lanes: self.lanes - other.lanes,
            kv_pages: self.kv_pages - other.kv_pages,
            backend_pages: self.backend_pages - other.backend_pages,
        }
    }

    /// Independent pools: every component stays within its own capacity.
    pub open spec fn within(self, capacity: Demand) -> bool {
        &&& self.lanes <= capacity.lanes
        &&& self.kv_pages <= capacity.kv_pages
        &&& self.backend_pages <= capacity.backend_pages
    }

    /// Every component can be counted in a `u32`.
    pub open spec fn countable(self) -> bool {
        &&& 0 <= self.lanes <= u32::MAX
        &&& 0 <= self.kv_pages <= u32::MAX
        &&& 0 <= self.backend_pages <= u32::MAX
    }
}

/// The resources a request reserves while it holds a lane.
#[derive(Debug, Clone, Copy, PartialEq, Eq, Structural)]
pub struct AdmissionResources {
    /// Decode lanes held.
    pub lanes: u32,
    /// KV pages reserved in the main pool, for the whole token budget.
    pub kv_pages: u32,
    /// KV pages reserved in the speculative-backend pool.
    pub backend_pages: u32,
}

impl AdmissionResources {
    pub open spec fn demand(self) -> Demand {
        Demand {
            lanes: self.lanes as int,
            kv_pages: self.kv_pages as int,
            backend_pages: self.backend_pages as int,
        }
    }

    /// Component-wise sum.
    pub fn add(&self, other: &AdmissionResources) -> (sum: AdmissionResources)
        requires
            self.demand().plus(other.demand()).countable(),
        ensures
            sum.demand() == self.demand().plus(other.demand()),
            sum.lanes == self.lanes + other.lanes,
            sum.kv_pages == self.kv_pages + other.kv_pages,
            sum.backend_pages == self.backend_pages + other.backend_pages,
    {
        AdmissionResources {
            lanes: self.lanes + other.lanes,
            kv_pages: self.kv_pages + other.kv_pages,
            backend_pages: self.backend_pages + other.backend_pages,
        }
    }

    /// Component-wise subtraction, `None` when a component would fall below
    /// zero.
    pub fn sub(&self, other: &AdmissionResources) -> (rest: Option<AdmissionResources>)
        ensures
            rest is Some <==> other.demand().within(self.demand()),
            rest matches Some(r) ==> r.demand() == self.demand().minus(other.demand()),
            rest is Some <==> other.lanes <= self.lanes && other.kv_pages <= self.kv_pages
                && other.backend_pages <= self.backend_pages,
            rest matches Some(r) ==> r.lanes + other.lanes == self.lanes && r.kv_pages
                + other.kv_pages == self.kv_pages && r.backend_pages + other.backend_pages
                == self.backend_pages,
    {
        if other.lanes <= self.lanes && other.kv_pages <= self.kv_pages && other.backend_pages
            <= self.backend_pages {
            Some(
                AdmissionResources {
                    lanes: self.lanes - other.lanes,
                    kv_pages: self.kv_pages - other.kv_pages,
                    backend_pages: self.backend_pages - other.backend_pages,
                },
            )
        } else {
            None
        }
    }

    /// Whether this use fits `capacity` component-wise.
    pub fn fits(&self, capacity: &AdmissionResources) -> (fits: bool)
        ensures
            fits == self.demand().within(capacity.demand()),
            fits <==> self.lanes <= capacity.lanes && self.kv_pages <= capacity.kv_pages
                && self.backend_pages <= capacity.backend_pages,
    {
        self.lanes <= capacity.lanes && self.kv_pages <= capacity.kv_pages && self.backend_pages
            <= capacity.backend_pages
    }
}

impl Default for AdmissionResources {
    fn default() -> (resources: AdmissionResources)
        ensures
            resources.demand() == Demand::nothing(),
    {
        AdmissionResources { lanes: 0, kv_pages: 0, backend_pages: 0 }
    }
}

/// Whether `used` fits `capacity`, component-wise.
#[must_use]
pub fn admission_resources_fit(used: &AdmissionResources, capacity: &AdmissionResources) -> (fits: bool)
    ensures
        fits == used.demand().within(capacity.demand()),
{
    used.fits(capacity)
}

/// One active (lane-holding) request, frozen for the protection arithmetic.
#[derive(Debug, Clone, Copy, PartialEq, Eq, Structural)]
pub struct ActiveAdmissionSnapshot {
    pub request_id: RequestId,
    pub resources: AdmissionResources,
    /// The work left to this request's completion.
    pub remaining_work_quanta: u64,
    /// The protection epoch it was admitted under as a backfill, 0 for none.
    pub backfill_epoch: u64,
    pub backfill_class: BackfillClass,
}

/// A protection's phase.
#[derive(Debug, Clone, Copy, PartialEq, Eq, Structural)]
pub enum ProtectionPhase {
    /// Backfills may still be admitted.
    Open,
    /// The head fits once the temporal borrowers are gone: no new backfills.
    Drain,
}

/// A frozen protection.
#[derive(Debug)]
pub struct AdmissionProtection {
    pub epoch_id: u64,
    /// The blocked head this protection exists to let in.
    pub head_request_id: RequestId,
    pub head_resources: AdmissionResources,
    /// Every active request at creation.
    pub incumbent_ids: Vec<RequestId>,
    /// The donors, in completion order; a subset of the incumbents.
    pub donor_ids: Vec<RequestId>,
    /// What temporal backfills may still spend.
    pub temporal_credit: u64,
    pub phase: ProtectionPhase,
}

/// Whether `id` occurs in `ids`.
pub fn names(ids: &Vec<RequestId>, id: RequestId) -> (found: bool)
    ensures
        found == ids@.contains(id),
{
    let mut i: usize = 0;
    while i < ids.len()
        invariant
            i <= ids.len(),
            forall|j: int| 0 <= j < i ==> ids@[j] != id,
        decreases ids.len() - i,
    {
        if ids[i] == id {
            assert(ids@[i as int] == id);
            return true;
        }
        i = i + 1;
    }
    false
}

impl AdmissionProtection {
    pub open spec fn incumbent(self, id: RequestId) -> bool {
        self.incumbent_ids@.contains(id)
    }

    pub open spec fn donor(self, id: RequestId) -> bool {
        self.donor_ids@.contains(id)
    }

    /// Whether `id` is a frozen incumbent.
    pub fn is_incumbent(&self, id: RequestId) -> (found: bool)
        ensures
            found == self.incumbent(id),
    {
        names(&self.incumbent_ids, id)
    }

    /// Whether `id` is a frozen donor.
    pub fn is_donor(&self, id: RequestId) -> (found: bool)
        ensures
            found == self.donor(id),
    {
        names(&self.donor_ids, id)
    }
}

/// Why no protection was frozen.
#[derive(Debug, Clone, Copy, PartialEq, Eq, Structural)]
pub enum AdmissionError {
    /// An empty active set, a head with no lane, epoch 0, or a head that alone
    /// exceeds the capacity.
    InvalidFrontier,
    /// The head fits alongside the incumbents.
    NotBlocked,
    /// An active snapshot has no work left.
    InvalidSnapshot,
    /// No donor prefix releases the head.
    NoReleasingFrontier,
}

impl AdmissionError {
    pub open spec fn text(self) -> Seq<char> {
        match self {
            AdmissionError::InvalidFrontier => "invalid protected-admission frontier"@,
            AdmissionError::NotBlocked => "protected head is not blocked by the frozen incumbents"@,
            AdmissionError::InvalidSnapshot => "protected incumbent has an invalid progress state"@,
            AdmissionError::NoReleasingFrontier =>
                "exclusive-feasible head has no releasing incumbent frontier"@,
        }
    }

    /// The error in words.
    pub fn message(&self) -> (text: String)
        ensures
            text@ == self.text(),
            *self == AdmissionError::InvalidFrontier ==> text@
                == "invalid protected-admission frontier"@,
            *self == AdmissionError::NotBlocked ==> text@
                == "protected head is not blocked by the frozen incumbents"@,
            *self == AdmissionError::InvalidSnapshot ==> text@
                == "protected incumbent has an invalid progress state"@,
            *self == AdmissionError::NoReleasingFrontier ==> text@
                == "exclusive-feasible head has no releasing incumbent frontier"@,
    {
        match self {
            AdmissionError::InvalidFrontier => "invalid protected-admission frontier".to_owned(),
            AdmissionError::NotBlocked =>
                "protected head is not blocked by the frozen incumbents".to_owned(),
            AdmissionError::InvalidSnapshot =>
                "protected incumbent has an invalid progress state".to_owned(),
            AdmissionError::NoReleasingFrontier =>
                "exclusive-feasible head has no releasing incumbent frontier".to_owned(),
        }
    }
}

/// What the active requests that `counted` picks hold together.
pub open spec fn held_by(
    active: Seq<ActiveAdmissionSnapshot>,
    counted: spec_fn(ActiveAdmissionSnapshot) -> bool,
) -> Demand
    decreases active.len(),
{
    if active.len() == 0 {
        Demand::nothing()
    } else {
        let rest = held_by(active.drop_last(), counted);
        if counted(active.last()) {
            rest.plus(active.last().resources.demand())
        } else {
            rest
        }
    }
}

/// What the whole active set holds.
pub open spec fn held(active: Seq<ActiveAdmissionSnapshot>) -> Demand {
    held_by(active, |s: ActiveAdmissionSnapshot| true)
}

/// What the requests at the first `k` positions of `order` hold together.
pub open spec fn released(
    active: Seq<ActiveAdmissionSnapshot>,
    order: Seq<usize>,
    k: int,
) -> Demand
    decreases k,
{
    if k <= 0 {
        Demand::nothing()
    } else {
        released(active, order, k - 1).plus(active[order[k - 1] as int].resources.demand())
    }
}

/// What the head and the survivors hold once the first `k` of `order` are
/// released.
pub open spec fn survivors(
    head: AdmissionResources,
    active: Seq<ActiveAdmissionSnapshot>,
    order: Seq<usize>,
    k: int,
) -> Demand {
    head.demand().plus(held(active)).minus(released(active, order, k))
}

/// The completion order of the active set: remaining work, then request id.
pub open spec fn completion_keys(active: Seq<ActiveAdmissionSnapshot>) -> Seq<(u64, u64)> {
    Seq::new(active.len(), |i: int| (active[i].remaining_work_quanta, active[i].request_id))
}

/// The frontier is one a protection can be frozen on at all.
pub open spec fn valid_frontier(
    epoch_id: u64,
    head: AdmissionResources,
    active: Seq<ActiveAdmissionSnapshot>,
    capacity: AdmissionResources,
) -> bool {
    &&& epoch_id != 0
    &&& head.lanes != 0
    &&& active.len() > 0
    &&& head.demand().within(capacity.demand())
}

/// Every active request still has work to do.
pub open spec fn all_in_progress(active: Seq<ActiveAdmissionSnapshot>) -> bool {
    forall|i: int| 0 <= i < active.len() ==> (#[trigger] active[i]).remaining_work_quanta != 0
}

/// `p` freezes its donors along `order`: they are the shortest prefix of it
/// whose release lets the head in, and the last of them gives the credit.
pub open spec fn donors_along(
    p: AdmissionProtection,
    head: AdmissionResources,
    active: Seq<ActiveAdmissionSnapshot>,
    capacity: AdmissionResources,
    order: Seq<usize>,
) -> bool {
    let k = p.donor_ids@.len() as int;
    &&& 1 <= k <= order.len()
    &&& forall|a: int|
        0 <= a < k ==> #[trigger] p.donor_ids@[a] == active[order[a] as int].request_id
    &&& p.temporal_credit == active[order[k - 1] as int].remaining_work_quanta
    &&& survivors(head, active, order, k).within(capacity.demand())
    &&& forall|j: int|
        0 <= j < k ==> !(#[trigger] survivors(head, active, order, j)).within(capacity.demand())
}

/// `p` is the protection frozen for `head_request_id` over `active`.
pub open spec fn is_protection_of(
    p: AdmissionProtection,
    epoch_id: u64,
    head_request_id: RequestId,
    head: AdmissionResources,
    active: Seq<ActiveAdmissionSnapshot>,
    capacity: AdmissionResources,
) -> bool {
    &&& p.epoch_id == epoch_id
    &&& p.head_request_id == head_request_id
    &&& p.head_resources == head
    &&& p.phase == ProtectionPhase::Open
    &&& p.incumbent_ids@ == active.map_values(|s: ActiveAdmissionSnapshot| s.request_id)
    &&& exists|order: Seq<usize>|
        is_service_order(completion_keys(active), order) && #[trigger] donors_along(
            p,
            head,
            active,
            capacity,
            order,
        )
}

/// Where the head and everyone active hold lanes alone, the lanes of the
/// capacity alone decide whose release lets the head in.
pub proof fn lanes_alone_decide(
    p: AdmissionProtection,
    epoch_id: u64,
    head_request_id: RequestId,
    head: AdmissionResources,
    active: Seq<ActiveAdmissionSnapshot>,
    a: AdmissionResources,
    b: AdmissionResources,
)
    requires
        is_protection_of(p, epoch_id, head_request_id, head, active, a),
        a.lanes == b.lanes,
        head.kv_pages == 0,
        head.backend_pages == 0,
        forall|i: int|
            0 <= i < active.len() ==> (#[trigger] active[i]).resources.kv_pages == 0
                && active[i].resources.backend_pages == 0,
    ensures
        is_protection_of(p, epoch_id, head_request_id, head, active, b),
{
    let order = choose|order: Seq<usize>|
        is_service_order(completion_keys(active), order) && #[trigger] donors_along(
            p,
            head,
            active,
            a,
            order,
        );
    assert forall|k: int| 0 <= k <= order.len() implies (#[trigger] survivors(
        head,
        active,
        order,
        k,
    )).within(a.demand()) == survivors(head, active, order, k).within(b.demand()) by {
        nothing_but_lanes_held(active);
        nothing_but_lanes_released(active, order, k);
    }
    assert(donors_along(p, head, active, b, order));
}

proof fn nothing_but_lanes_held(active: Seq<ActiveAdmissionSnapshot>)
    requires
        forall|i: int|
            0 <= i < active.len() ==> (#[trigger] active[i]).resources.kv_pages == 0
                && active[i].resources.backend_pages == 0,
    ensures
        held(active).kv_pages == 0,
        held(active).backend_pages == 0,
    decreases active.len(),
{
    if active.len() > 0 {
        assert forall|i: int| 0 <= i < active.drop_last().len() implies (
        #[trigger] active.drop_last()[i]).resources.kv_pages == 0
            && active.drop_last()[i].resources.backend_pages == 0 by {
            assert(active.drop_last()[i] == active[i]);
        }
        nothing_but_lanes_held(active.drop_last());
        assert(active[active.len() - 1].resources.kv_pages == 0);
    }
}

proof fn nothing_but_lanes_released(
    active: Seq<ActiveAdmissionSnapshot>,
    order: Seq<usize>,
    k: int,
)
    requires
        is_service_order(completion_keys(active), order),
        0 <= k <= order.len(),
        forall|i: int|
            0 <= i < active.len() ==> (#[trigger] active[i]).resources.kv_pages == 0
                && active[i].resources.backend_pages == 0,
    ensures
        released(active, order, k).kv_pages == 0,
        released(active, order, k).backend_pages == 0,
    decreases k,
{
    if k > 0 {
        nothing_but_lanes_released(active, order, k - 1);
        assert(0 <= order[k - 1] < completion_keys(active).len());
        assert(active[order[k - 1] as int].resources.kv_pages == 0);
    }
}

/// The sums the selection forms can be counted: the head with any run of
/// in-progress requests before the first finished one.
pub open spec fn frontier_countable(
    head: AdmissionResources,
    active: Seq<ActiveAdmissionSnapshot>,
) -> bool {
    forall|k: int|
        0 <= k <= active.len() && all_in_progress(active.take(k)) ==> #[trigger] head.demand().plus(
            held(active.take(k)),
        ).countable()
}

/// Freeze the active requests and select the earliest-completion prefix whose
/// release makes the head feasible.
pub fn make_admission_protection(
    epoch_id: u64,
    head_request_id: RequestId,
    head_resources: AdmissionResources,
    active: &[ActiveAdmissionSnapshot],
    capacity: &AdmissionResources,
) -> (result: Result<AdmissionProtection, AdmissionError>)
    requires
        valid_frontier(epoch_id, head_resources, active@, *capacity) ==> frontier_countable(
            head_resources,
            active@,
        ),
    ensures
        (result matches Err(e) && e == AdmissionError::InvalidFrontier) <==> !valid_frontier(
            epoch_id,
            head_resources,
            active@,
            *capacity,
        ),
        (result matches Err(e) && e == AdmissionError::InvalidSnapshot) <==> (valid_frontier(
            epoch_id,
            head_resources,
            active@,
            *capacity,
        ) && !all_in_progress(active@)),
        (result matches Err(e) && e == AdmissionError::NotBlocked) <==> (valid_frontier(
            epoch_id,
            head_resources,
            active@,
            *capacity,
        ) && all_in_progress(active@) && head_resources.demand().plus(held(active@)).within(
            capacity.demand(),
        )),
        !(result matches Err(e) && e == AdmissionError::NoReleasingFrontier),
        (result matches Err(e) && e == AdmissionError::InvalidFrontier) <==> epoch_id == 0
            || head_resources.lanes == 0 || active@.len() == 0 || head_resources.lanes
            > capacity.lanes || head_resources.kv_pages > capacity.kv_pages
            || head_resources.backend_pages > capacity.backend_pages,
        (result matches Err(e) && e == AdmissionError::NotBlocked) ==> head_resources.lanes + held(
            active@,
        ).lanes <= capacity.lanes && head_resources.kv_pages + held(active@).kv_pages
            <= capacity.kv_pages && head_resources.backend_pages + held(active@).backend_pages
            <= capacity.backend_pages,
        result is Ok ==> head_resources.lanes + held(active@).lanes > capacity.lanes
            || head_resources.kv_pages + held(active@).kv_pages > capacity.kv_pages
            || head_resources.backend_pages + held(active@).backend_pages > capacity.backend_pages,
        result matches Ok(p) ==> p.epoch_id == epoch_id && p.head_request_id == head_request_id
            && p.head_resources == head_resources && p.phase == ProtectionPhase::Open
            && p.incumbent_ids@.len() == active@.len() && forall|i: int|
            0 <= i < active@.len() ==> #[trigger] p.incumbent_ids@[i] == active@[i].request_id,
        result matches Ok(p) ==> is_protection_of(
            p,
            epoch_id,
            head_request_id,
            head_resources,
            active@,
            *capacity,
        ),
{
    if epoch_id == 0 || head_resources.lanes == 0 || active.len() == 0 {
        return Err(AdmissionError::InvalidFrontier);
    }
    if !admission_resources_fit(&head_resources, capacity) {
        return Err(AdmissionError::InvalidFrontier);
    }
    let mut incumbent_ids: Vec<RequestId> = Vec::new();
    let mut keys: Vec<(u64, u64)> = Vec::new();
    let mut remaining = head_resources;
    let mut i: usize = 0;
    while i < active.len()
        invariant
            i <= active.len(),
            valid_frontier(epoch_id, head_resources, active@, *capacity),
            frontier_countable(head_resources, active@),
            all_in_progress(active@.take(i as int)),
            incumbent_ids@ =~= active@.take(i as int).map_values(
                |s: ActiveAdmissionSnapshot| s.request_id,
            ),
            keys.len() == i,
            forall|j: int| 0 <= j < i ==> keys@[j] == (
                active@[j].remaining_work_quanta,
                active@[j].request_id,
            ),
            remaining.demand() == head_resources.demand().plus(held(active@.take(i as int))),
        decreases active.len() - i,
    {
        if active[i].remaining_work_quanta == 0 {
            assert(active@[i as int].remaining_work_quanta == 0);
            return Err(AdmissionError::InvalidSnapshot);
        }
        proof {
            let next = active@.take(i + 1);
            assert(next.drop_last() =~= active@.take(i as int));
            assert(next.last() == active@[i as int]);
            assert forall|j: int| 0 <= j < next.len() implies (#[trigger] next[j]).remaining_work_quanta
                != 0 by {
                if j < i {
                    assert(active@.take(i as int)[j].remaining_work_quanta != 0);
                }
            }
            assert(head_resources.demand().plus(held(next)).countable());
        }
        incumbent_ids.push(active[i].request_id);
        keys.push((active[i].remaining_work_quanta, active[i].request_id));
        remaining = remaining.add(&active[i].resources);
        i = i + 1;
    }
    assert(active@.take(active.len() as int) =~= active@);
    if remaining.fits(capacity) {
        return Err(AdmissionError::NotBlocked);
    }
    let order = service_order(&keys);
    proof {
        assert(keys@ =~= completion_keys(active@));
        releasing_everyone_leaves_the_head(active@, order@);
    }
    let mut donor_ids: Vec<RequestId> = Vec::new();
    let mut n: usize = 0;
    while n < order.len()
        invariant
            n <= order.len(),
            order.len() == active.len(),
            keys@ == completion_keys(active@),
            is_service_order(keys@, order@),
            released(active@, order@, order@.len() as int) == held(active@),
            incumbent_ids@ == active@.map_values(|s: ActiveAdmissionSnapshot| s.request_id),
            valid_frontier(epoch_id, head_resources, active@, *capacity),
            all_in_progress(active@),
            !head_resources.demand().plus(held(active@)).within(capacity.demand()),
            donor_ids.len() == n,
            forall|a: int|
                0 <= a < n ==> #[trigger] donor_ids@[a] == active@[order@[a] as int].request_id,
            remaining.demand() == survivors(head_resources, active@, order@, n as int),
            forall|j: int|
                0 <= j <= n ==> !(#[trigger] survivors(head_resources, active@, order@, j)).within(
                    capacity.demand(),
                ),
        decreases order.len() - n,
    {
        let donor = &active[order[n]];
        proof {
            later_releases_hold_more(active@, order@, n + 1, order@.len() as int);
        }
        remaining = match remaining.sub(&donor.resources) {
            Some(rest) => rest,
            None => {
                assert(false);
                return Err(AdmissionError::InvalidSnapshot);
            },
        };
        donor_ids.push(donor.request_id);
        if remaining.fits(capacity) {
            let protection = AdmissionProtection {
                epoch_id,
                head_request_id,
                head_resources,
                incumbent_ids,
                donor_ids,
                temporal_credit: donor.remaining_work_quanta,
                phase: ProtectionPhase::Open,
            };
            assert(donors_along(protection, head_resources, active@, *capacity, order@));
            return Ok(protection);
        }
        n = n + 1;
    }
    assert(survivors(head_resources, active@, order@, n as int) == head_resources.demand());
    assert(false);
    Err(AdmissionError::NoReleasingFrontier)
}

/// A longer release never gives back less.
proof fn later_releases_hold_more(
    active: Seq<ActiveAdmissionSnapshot>,
    order: Seq<usize>,
    j: int,
    k: int,
)
    requires
        0 <= j <= k <= order.len(),
    ensures
        released(active, order, j).within(released(active, order, k)),
    decreases k - j,
{
    if j < k {
        later_releases_hold_more(active, order, j, k - 1);
    }
}

/// Releasing everyone along a completion order releases exactly what the
/// active set holds.
pub proof fn releasing_everyone_leaves_the_head(
    active: Seq<ActiveAdmissionSnapshot>,
    order: Seq<usize>,
)
    requires
        is_service_order(completion_keys(active), order),
        active.len() <= usize::MAX,
    ensures
        released(active, order, order.len() as int) == held(active),
{
    let keys = completion_keys(active);
    assert forall|a: int, b: int| 0 <= a < b < order.len() implies order[a] != order[b] by {
        assert(precedes(keys, order[a] as int, order[b] as int));
    }
    assert forall|x: int| 0 <= x < active.len() implies #[trigger] order.contains(x as usize) by {
        assert(0 <= x < keys.len());
    }
    permuted_total(active, order);
}

/// A list that names every position once holds what the positions hold.
proof fn permuted_total(active: Seq<ActiveAdmissionSnapshot>, order: Seq<usize>)
    requires
        order.len() == active.len(),
        active.len() <= usize::MAX,
        forall|a: int| 0 <= a < order.len() ==> 0 <= #[trigger] order[a] < active.len(),
        forall|a: int, b: int| 0 <= a < b < order.len() ==> #[trigger] order[a] != #[trigger] order[b],
        forall|x: int| 0 <= x < active.len() ==> #[trigger] order.contains(x as usize),
    ensures
        released(active, order, order.len() as int) == held(active),
    decreases active.len(),
{
    if active.len() > 0 {
        let n = active.len() - 1;
        assert(order.contains(n as usize));
        let p = choose|p: int| 0 <= p < order.len() && order[p] == n as usize;
        let shorter = order.remove(p);
        let rest = active.drop_last();
        released_without(active, order, p, order.len() as int);
        assert forall|x: int| 0 <= x < rest.len() implies #[trigger] shorter.contains(x as usize) by {
            assert(order.contains(x as usize));
            let q = choose|q: int| 0 <= q < order.len() && order[q] == x as usize;
            if q < p {
                assert(shorter[q] == order[q]);
            } else {
                assert(shorter[q - 1] == order[q]);
            }
        }
        assert forall|a: int| 0 <= a < shorter.len() implies 0 <= #[trigger] shorter[a] < rest.len() by {
            if a < p {
                assert(shorter[a] == order[a]);
            } else {
                assert(shorter[a] == order[a + 1]);
            }
        }
        permuted_total(rest, shorter);
        released_in_part(active, rest, shorter, shorter.len() as int);
    }
}

proof fn released_without(
    active: Seq<ActiveAdmissionSnapshot>,
    order: Seq<usize>,
    p: int,
    k: int,
)
    requires
        0 <= p < k <= order.len(),
    ensures
        released(active, order, k) == released(active, order.remove(p), k - 1).plus(
            active[order[p] as int].resources.demand(),
        ),
    decreases k,
{
    if p < k - 1 {
        released_without(active, order, p, k - 1);
        assert(order.remove(p)[k - 2] == order[k - 1]);
    } else {
        released_same_prefix(active, order, order.remove(p), k - 1);
    }
}

proof fn released_same_prefix(
    active: Seq<ActiveAdmissionSnapshot>,
    a: Seq<usize>,
    b: Seq<usize>,
    k: int,
)
    requires
        0 <= k <= a.len(),
        k <= b.len(),
        forall|i: int| 0 <= i < k ==> a[i] == b[i],
    ensures
        released(active, a, k) == released(active, b, k),
    decreases k,
{
    if k > 0 {
        released_same_prefix(active, a, b, k - 1);
    }
}

proof fn released_in_part(
    active: Seq<ActiveAdmissionSnapshot>,
    rest: Seq<ActiveAdmissionSnapshot>,
    order: Seq<usize>,
    k: int,
)
    requires
        active.len() > 0,
        rest == active.drop_last(),
        0 <= k <= order.len(),
        forall|a: int| 0 <= a < order.len() ==> 0 <= #[trigger] order[a] < rest.len(),
    ensures
        released(active, order, k) == released(rest, order, k),
    decreases k,
{
    if k > 0 {
        released_in_part(active, rest, order, k - 1);
        assert(active[order[k - 1] as int] == rest[order[k - 1] as int]);
    }
}

/// A subset of the active set never holds more than another it is part of.
pub proof fn fewer_hold_less(
    active: Seq<ActiveAdmissionSnapshot>,
    few: spec_fn(ActiveAdmissionSnapshot) -> bool,
    many: spec_fn(ActiveAdmissionSnapshot) -> bool,
)
    requires
        forall|s: ActiveAdmissionSnapshot| #[trigger] few(s) ==> many(s),
    ensures
        Demand::nothing().within(held_by(active, few)),
        held_by(active, few).within(held_by(active, many)),
    decreases active.len(),
{
    if active.len() > 0 {
        fewer_hold_less(active.drop_last(), few, many);
        assert(few(active.last()) ==> many(active.last()));
    }
}

/// A part of the active set never holds less than a shorter run of it.
proof fn runs_hold_less(
    active: Seq<ActiveAdmissionSnapshot>,
    counted: spec_fn(ActiveAdmissionSnapshot) -> bool,
    k: int,
)
    requires
        0 <= k <= active.len(),
    ensures
        held_by(active.take(k), counted).within(held_by(active, counted)),
    decreases active.len() - k,
{
    if k < active.len() {
        runs_hold_less(active, counted, k + 1);
        assert(active.take(k + 1).drop_last() =~= active.take(k));
    } else {
        assert(active.take(k) =~= active);
    }
}

/// Who keeps holding resources once the protected head is in: the incumbents
/// that are not donors, and the persistent backfills of this epoch.
pub open spec fn stays_beside_the_head(p: AdmissionProtection) -> spec_fn(
    ActiveAdmissionSnapshot,
) -> bool {
    |s: ActiveAdmissionSnapshot|
        if p.incumbent(s.request_id) {
            !p.donor(s.request_id)
        } else {
            s.backfill_epoch == p.epoch_id && s.backfill_class == BackfillClass::Persistent
        }
}

/// Everyone but the temporal borrowers of this epoch.
pub open spec fn not_a_borrower(p: AdmissionProtection) -> spec_fn(ActiveAdmissionSnapshot) -> bool {
    |s: ActiveAdmissionSnapshot|
        p.incumbent(s.request_id) || s.backfill_epoch != p.epoch_id || s.backfill_class
            != BackfillClass::Temporal
}

/// What a protected head and everything that stays beside it hold.
pub open spec fn protected_future(
    p: AdmissionProtection,
    active: Seq<ActiveAdmissionSnapshot>,
) -> Demand {
    p.head_resources.demand().plus(held_by(active, stays_beside_the_head(p)))
}

/// Whether a persistent backfill keeps the protected future within capacity:
/// the head, every still-active non-donor incumbent, every persistent backfill
/// of this epoch and the candidate fit together.
#[must_use]
pub fn persistent_backfill_is_safe(
    protection: &AdmissionProtection,
    active: &[ActiveAdmissionSnapshot],
    candidate: &AdmissionResources,
    capacity: &AdmissionResources,
) -> (safe: bool)
    requires
        protected_future(*protection, active@).plus(candidate.demand()).countable(),
    ensures
        safe == protected_future(*protection, active@).plus(candidate.demand()).within(
            capacity.demand(),
        ),
{
    let ghost counted = stays_beside_the_head(*protection);
    let mut future = protection.head_resources;
    let mut i: usize = 0;
    while i < active.len()
        invariant
            i <= active.len(),
            counted == stays_beside_the_head(*protection),
            protected_future(*protection, active@).plus(candidate.demand()).countable(),
            future.demand() == protection.head_resources.demand().plus(
                held_by(active@.take(i as int), counted),
            ),
        decreases active.len() - i,
    {
        let request = &active[i];
        proof {
            let next = active@.take(i + 1);
            assert(next.drop_last() =~= active@.take(i as int));
            runs_hold_less(active@, counted, i + 1);
            fewer_hold_less(active@.take(i as int), counted, counted);
        }
        if protection.is_incumbent(request.request_id) {
            if !protection.is_donor(request.request_id) {
                future = future.add(&request.resources);
            }
        } else if request.backfill_epoch == protection.epoch_id && request.backfill_class
            == BackfillClass::Persistent {
            future = future.add(&request.resources);
        }
        i = i + 1;
    }
    assert(active@.take(active.len() as int) =~= active@);
    future = future.add(candidate);
    admission_resources_fit(&future, capacity)
}

/// The largest remaining work among still-active donors, 0 when none is left.
pub open spec fn donor_distance(
    p: AdmissionProtection,
    active: Seq<ActiveAdmissionSnapshot>,
) -> u64
    decreases active.len(),
{
    if active.len() == 0 {
        0
    } else {
        let rest = donor_distance(p, active.drop_last());
        let s = active.last();
        if p.donor(s.request_id) && s.remaining_work_quanta > rest {
            s.remaining_work_quanta
        } else {
            rest
        }
    }
}

/// The work left to the last still-active frozen donor.
#[must_use]
pub fn protection_frontier_distance(
    protection: &AdmissionProtection,
    active: &[ActiveAdmissionSnapshot],
) -> (distance: u64)
    ensures
        distance == donor_distance(*protection, active@),
        forall|i: int|
            0 <= i < active@.len() && protection.donor_ids@.contains(
                (#[trigger] active@[i]).request_id,
            ) ==> active@[i].remaining_work_quanta <= distance,
{
    proof {
        the_distance_is_the_last_donors_work(*protection, active@);
    }
    let mut distance: u64 = 0;
    let mut i: usize = 0;
    while i < active.len()
        invariant
            i <= active.len(),
            distance == donor_distance(*protection, active@.take(i as int)),
        decreases active.len() - i,
    {
        assert(active@.take(i + 1).drop_last() =~= active@.take(i as int));
        if protection.is_donor(active[i].request_id) && active[i].remaining_work_quanta > distance {
            distance = active[i].remaining_work_quanta;
        }
        i = i + 1;
    }
    assert(active@.take(active.len() as int) =~= active@);
    distance
}

/// Whether the protected head would fit if the temporal borrowers of this
/// epoch were absent.
#[must_use]
pub fn protected_head_safe_without_temporal(
    protection: &AdmissionProtection,
    active: &[ActiveAdmissionSnapshot],
    capacity: &AdmissionResources,
) -> (safe: bool)
    requires
        protection.head_resources.demand().plus(
            held_by(active@, not_a_borrower(*protection)),
        ).countable(),
    ensures
        safe == protection.head_resources.demand().plus(
            held_by(active@, not_a_borrower(*protection)),
        ).within(capacity.demand()),
{
    let ghost counted = not_a_borrower(*protection);
    let mut used = protection.head_resources;
    let mut i: usize = 0;
    while i < active.len()
        invariant
            i <= active.len(),
            counted == not_a_borrower(*protection),
            protection.head_resources.demand().plus(held_by(active@, counted)).countable(),
            used.demand() == protection.head_resources.demand().plus(
                held_by(active@.take(i as int), counted),
            ),
        decreases active.len() - i,
    {
        let request = &active[i];
        proof {
            let next = active@.take(i + 1);
            assert(next.drop_last() =~= active@.take(i as int));
            runs_hold_less(active@, counted, i + 1);
            fewer_hold_less(active@.take(i as int), counted, counted);
        }
        if protection.is_incumbent(request.request_id) || request.backfill_epoch
            != protection.epoch_id || request.backfill_class != BackfillClass::Temporal {
            used = used.add(&request.resources);
        }
        i = i + 1;
    }
    assert(active@.take(active.len() as int) =~= active@);
    admission_resources_fit(&used, capacity)
}

/// One lane's retained (evictable) state.
#[derive(Debug, Clone, Copy, PartialEq, Eq, Structural)]
pub struct RetainedLaneCandidate {
    pub lane: LaneId,
    /// The class owning the state: Agent goes before Interactive.
    pub owner: RequestClass,
    /// The last-used tick.
    pub use_tick: u64,
    /// Reserved for an earlier-queued Interactive request: never a victim.
    pub reserved_for_earlier_interactive: bool,
}

impl RetainedLaneCandidate {
    /// Strictly lower value among unreserved lanes: Agent before Interactive,
    /// then the least recently used, then the lower lane.
    pub open spec fn worth_less_than(self, other: RetainedLaneCandidate) -> bool {
        if self.owner != other.owner {
            self.owner == RequestClass::Agent
        } else if self.use_tick != other.use_tick {
            self.use_tick < other.use_tick
        } else {
            self.lane < other.lane
        }
    }

    /// The order victims are preferred in, reserved lanes last.
    pub open spec fn better_victim_than(self, other: RetainedLaneCandidate) -> bool {
        if self.reserved_for_earlier_interactive != other.reserved_for_earlier_interactive {
            !self.reserved_for_earlier_interactive
        } else {
            !self.reserved_for_earlier_interactive && self.worth_less_than(other)
        }
    }
}

/// Whether `candidate` is a better victim than `incumbent`.
#[must_use]
pub fn retained_lane_is_better_victim(
    candidate: &RetainedLaneCandidate,
    incumbent: &RetainedLaneCandidate,
) -> (better: bool)
    ensures
        better == candidate.better_victim_than(*incumbent),
{
    if candidate.reserved_for_earlier_interactive != incumbent.reserved_for_earlier_interactive {
        return !candidate.reserved_for_earlier_interactive;
    }
    if candidate.reserved_for_earlier_interactive {
        return false;
    }
    if candidate.owner != incumbent.owner {
        return candidate.owner == RequestClass::Agent;
    }
    if candidate.use_tick != incumbent.use_tick {
        return candidate.use_tick < incumbent.use_tick;
    }
    candidate.lane < incumbent.lane
}

/// `at` is the first unreserved candidate that no unreserved one is worth
/// less than.
pub open spec fn is_lane_victim(candidates: Seq<RetainedLaneCandidate>, at: int) -> bool {
    &&& 0 <= at < candidates.len()
    &&& !candidates[at].reserved_for_earlier_interactive
    &&& forall|j: int|
        0 <= j < candidates.len() && !(
        #[trigger] candidates[j]).reserved_for_earlier_interactive ==> !candidates[j].worth_less_than(
            candidates[at],
        )
    &&& forall|j: int|
        0 <= j < at && !(#[trigger] candidates[j]).reserved_for_earlier_interactive
            ==> candidates[at].worth_less_than(candidates[j])
}

/// The lowest-value unreserved retained lane; `None` when every lane is
/// reserved.
pub fn choose_retained_lane_victim(candidates: &[RetainedLaneCandidate]) -> (victim: Option<LaneId>)
    ensures
        victim is None <==> forall|j: int|
            0 <= j < candidates@.len() ==> (
            #[trigger] candidates@[j]).reserved_for_earlier_interactive,
        victim matches Some(lane) ==> exists|at: int| #[trigger]
            is_lane_victim(candidates@, at) && candidates@[at].lane == lane,
{
    let mut selected: Option<usize> = None;
    let mut i: usize = 0;
    while i < candidates.len()
        invariant
            i <= candidates.len(),
            selected is None ==> forall|j: int|
                0 <= j < i ==> (#[trigger] candidates@[j]).reserved_for_earlier_interactive,
            selected matches Some(at) ==> is_lane_victim(candidates@.take(i as int), at as int) && at
                < i,
        decreases candidates.len() - i,
    {
        let ghost before = candidates@.take(i as int);
        let ghost now = candidates@.take(i + 1);
        let candidate = &candidates[i];
        if !candidate.reserved_for_earlier_interactive {
            match selected {
                None => {
                    selected = Some(i);
                },
                Some(at) => {
                    assert(before[at as int] == candidates@[at as int]);
                    if retained_lane_is_better_victim(candidate, &candidates[at]) {
                        assert forall|j: int|
                            0 <= j < i && !(
                            #[trigger] now[j]).reserved_for_earlier_interactive implies now[i as int].worth_less_than(
                            now[j],
                        ) by {
                            assert(now[j] == before[j]);
                        }
                        selected = Some(i);
                    } else {
                        assert forall|j: int|
                            0 <= j < now.len() && !(
                            #[trigger] now[j]).reserved_for_earlier_interactive implies !now[j].worth_less_than(
                            now[at as int],
                        ) by {
                            if j < i {
                                assert(now[j] == before[j]);
                            }
                        }
                        assert forall|j: int|
                            0 <= j < at && !(
                            #[trigger] now[j]).reserved_for_earlier_interactive implies now[at as int].worth_less_than(
                            now[j],
                        ) by {
                            assert(now[j] == before[j]);
                        }
                    }
                },
            }
        } else {
            if let Some(at) = selected {
                assert forall|j: int|
                    0 <= j < now.len() && !(
                    #[trigger] now[j]).reserved_for_earlier_interactive implies !now[j].worth_less_than(
                    now[at as int],
                ) by {
                    assert(now[j] == before[j]);
                }
                assert forall|j: int|
                    0 <= j < at && !(
                    #[trigger] now[j]).reserved_for_earlier_interactive implies now[at as int].worth_less_than(
                    now[j],
                ) by {
                    assert(now[j] == before[j]);
                }
            }
        }
        i = i + 1;
    }
    assert(candidates@.take(candidates.len() as int) =~= candidates@);
    match selected {
        Some(at) => Some(candidates[at].lane),
        None => None,
    }
}

/// A device-resident request that holds no lane.
#[derive(Debug, Clone, Copy, PartialEq, Eq, Structural)]
pub struct ResidentCandidate {
    pub request_id: RequestId,
    pub owner: RequestClass,
}

impl ResidentCandidate {
    /// Agent before Interactive, then the oldest submitted.
    pub open spec fn worth_less_than(self, other: ResidentCandidate) -> bool {
        if self.owner != other.owner {
            self.owner == RequestClass::Agent
        } else {
            self.request_id < other.request_id
        }
    }
}

/// The lowest-value resident, lane-less request; `None` without candidates.
pub fn choose_resident_candidate_victim(candidates: &[ResidentCandidate]) -> (victim: Option<
    RequestId,
>)
    ensures
        victim is None <==> candidates@.len() == 0,
        victim matches Some(id) ==> exists|at: int|
            0 <= at < candidates@.len() && (#[trigger] candidates@[at]).request_id == id && forall|
                j: int,
            |
                0 <= j < candidates@.len() ==> !(#[trigger] candidates@[j]).worth_less_than(
                    candidates@[at],
                ),
{
    if candidates.len() == 0 {
        return None;
    }
    let mut at: usize = 0;
    let mut i: usize = 1;
    while i < candidates.len()
        invariant
            at < i <= candidates.len(),
            forall|j: int|
                0 <= j < i ==> !(#[trigger] candidates@[j]).worth_less_than(candidates@[at as int]),
        decreases candidates.len() - i,
    {
        let candidate = &candidates[i];
        let best = &candidates[at];
        if (candidate.owner != best.owner && candidate.owner == RequestClass::Agent) || (
        candidate.owner == best.owner && candidate.request_id < best.request_id) {
            at = i;
        }
        i = i + 1;
    }
    Some(candidates[at].request_id)
}

/// Every donor is a frozen incumbent.
pub proof fn donors_are_incumbents(
    p: AdmissionProtection,
    epoch_id: u64,
    head_request_id: RequestId,
    head: AdmissionResources,
    active: Seq<ActiveAdmissionSnapshot>,
    capacity: AdmissionResources,
    id: RequestId,
)
    requires
        is_protection_of(p, epoch_id, head_request_id, head, active, capacity),
        p.donor(id),
    ensures
        p.incumbent(id),
{
    let order = choose|order: Seq<usize>|
        is_service_order(completion_keys(active), order) && #[trigger] donors_along(
            p,
            head,
            active,
            capacity,
            order,
        );
    let a = choose|a: int| 0 <= a < p.donor_ids@.len() && p.donor_ids@[a] == id;
    assert(p.donor_ids@[a] == active[order[a] as int].request_id);
    assert(p.incumbent_ids@[order[a] as int] == id);
}

/// At creation the temporal credit is the frontier distance, where no two
/// active requests share an id.
pub proof fn credit_starts_at_the_frontier_distance(
    p: AdmissionProtection,
    epoch_id: u64,
    head_request_id: RequestId,
    head: AdmissionResources,
    active: Seq<ActiveAdmissionSnapshot>,
    capacity: AdmissionResources,
)
    requires
        is_protection_of(p, epoch_id, head_request_id, head, active, capacity),
        forall|i: int, j: int|
            0 <= i < j < active.len() ==> (#[trigger] active[i]).request_id != (
            #[trigger] active[j]).request_id,
    ensures
        p.temporal_credit == donor_distance(p, active),
{
    let keys = completion_keys(active);
    let order = choose|order: Seq<usize>|
        is_service_order(keys, order) && #[trigger] donors_along(p, head, active, capacity, order);
    let k = p.donor_ids@.len() as int;
    let last = order[k - 1] as int;
    assert(p.donor_ids@[k - 1] == active[last].request_id);
    assert(p.donor(active[last].request_id));
    assert forall|i: int| 0 <= i < active.len() && p.donor(#[trigger] active[i].request_id) implies
        active[i].remaining_work_quanta <= p.temporal_credit by {
        let a = choose|a: int| 0 <= a < k && p.donor_ids@[a] == active[i].request_id;
        assert(p.donor_ids@[a] == active[order[a] as int].request_id);
        assert(order[a] as int == i);
        if a < k - 1 {
            assert(precedes(keys, order[a] as int, order[k - 1] as int));
        }
    }
    distance_is_the_largest(p, active, last);
}

proof fn distance_is_the_largest(
    p: AdmissionProtection,
    active: Seq<ActiveAdmissionSnapshot>,
    at: int,
)
    requires
        0 <= at < active.len(),
        p.donor(active[at].request_id),
        forall|i: int|
            0 <= i < active.len() && p.donor(#[trigger] active[i].request_id) ==> active[i].remaining_work_quanta
                <= active[at].remaining_work_quanta,
    ensures
        donor_distance(p, active) == active[at].remaining_work_quanta,
    decreases active.len(),
{
    let rest = active.drop_last();
    if at < active.len() - 1 {
        assert forall|i: int|
            0 <= i < rest.len() && p.donor(#[trigger] rest[i].request_id) implies rest[i].remaining_work_quanta
            <= rest[at].remaining_work_quanta by {
            assert(rest[i] == active[i]);
        }
        distance_is_the_largest(p, rest, at);
        assert(p.donor(active[active.len() - 1].request_id) ==> active[active.len() - 1].remaining_work_quanta <= active[at].remaining_work_quanta);
    } else {
        assert forall|i: int|
            0 <= i < rest.len() && p.donor(#[trigger] rest[i].request_id) implies rest[i].remaining_work_quanta
            <= active[at].remaining_work_quanta by {
            assert(rest[i] == active[i]);
        }
        distance_is_bounded(p, rest, active[at].remaining_work_quanta);
    }
}

proof fn distance_is_bounded(
    p: AdmissionProtection,
    active: Seq<ActiveAdmissionSnapshot>,
    bound: u64,
)
    requires
        forall|i: int|
            0 <= i < active.len() && p.donor(#[trigger] active[i].request_id) ==> active[i].remaining_work_quanta
                <= bound,
    ensures
        donor_distance(p, active) <= bound,
    decreases active.len(),
{
    if active.len() > 0 {
        let rest = active.drop_last();
        assert forall|i: int|
            0 <= i < rest.len() && p.donor(#[trigger] rest[i].request_id) implies rest[i].remaining_work_quanta
            <= bound by {
            assert(rest[i] == active[i]);
        }
        distance_is_bounded(p, rest, bound);
        assert(p.donor(active[active.len() - 1].request_id) ==> active[active.len() - 1].remaining_work_quanta <= bound);
    }
}

/// The distance only shrinks: it cannot grow between two moments at the later
/// of which no donor has more work left than it had.
pub proof fn frontier_distance_only_shrinks(
    p: AdmissionProtection,
    earlier: Seq<ActiveAdmissionSnapshot>,
    later: Seq<ActiveAdmissionSnapshot>,
)
    requires
        forall|j: int|
            0 <= j < later.len() && p.donor((#[trigger] later[j]).request_id) ==> exists|i: int|
                0 <= i < earlier.len() && (#[trigger] earlier[i]).request_id == later[j].request_id
                    && later[j].remaining_work_quanta <= earlier[i].remaining_work_quanta,
    ensures
        donor_distance(p, later) <= donor_distance(p, earlier),
{
    assert forall|j: int| 0 <= j < later.len() && p.donor(#[trigger] later[j].request_id) implies
        later[j].remaining_work_quanta <= donor_distance(p, earlier) by {
        let i = choose|i: int|
            0 <= i < earlier.len() && (#[trigger] earlier[i]).request_id == later[j].request_id
                && later[j].remaining_work_quanta <= earlier[i].remaining_work_quanta;
        donors_are_within_the_distance(p, earlier, i);
    }
    distance_is_bounded(p, later, donor_distance(p, earlier));
}

proof fn donors_are_within_the_distance(
    p: AdmissionProtection,
    active: Seq<ActiveAdmissionSnapshot>,
    at: int,
)
    requires
        0 <= at < active.len(),
        p.donor(active[at].request_id),
    ensures
        active[at].remaining_work_quanta <= donor_distance(p, active),
    decreases active.len(),
{
    if at < active.len() - 1 {
        assert(active.drop_last()[at] == active[at]);
        donors_are_within_the_distance(p, active.drop_last(), at);
    }
}

/// A later admission never moves the frozen frontier.
pub proof fn later_admissions_do_not_move_the_frontier(
    p: AdmissionProtection,
    active: Seq<ActiveAdmissionSnapshot>,
    admitted: ActiveAdmissionSnapshot,
)
    requires
        !p.donor(admitted.request_id),
    ensures
        donor_distance(p, active.push(admitted)) == donor_distance(p, active),
{
    assert(active.push(admitted).drop_last() =~= active);
}

/// Persistent backfills accumulate: one that was safe keeps the protected
/// future within capacity after it is admitted, and what it holds counts
/// against the next.
pub proof fn persistent_backfills_accumulate(
    p: AdmissionProtection,
    active: Seq<ActiveAdmissionSnapshot>,
    admitted: ActiveAdmissionSnapshot,
    capacity: AdmissionResources,
)
    requires
        !p.incumbent(admitted.request_id),
        admitted.backfill_epoch == p.epoch_id,
        admitted.backfill_class == BackfillClass::Persistent,
        protected_future(p, active).plus(admitted.resources.demand()).within(capacity.demand()),
    ensures
        protected_future(p, active.push(admitted)) == protected_future(p, active).plus(
            admitted.resources.demand(),
        ),
        protected_future(p, active.push(admitted)).within(capacity.demand()),
{
    assert(active.push(admitted).drop_last() =~= active);
}

/// A temporal borrower never weighs on the protected future.
pub proof fn temporal_backfills_leave_the_future_alone(
    p: AdmissionProtection,
    active: Seq<ActiveAdmissionSnapshot>,
    admitted: ActiveAdmissionSnapshot,
)
    requires
        !p.incumbent(admitted.request_id),
        admitted.backfill_class == BackfillClass::Temporal,
    ensures
        protected_future(p, active.push(admitted)) == protected_future(p, active),
        admitted.backfill_epoch == p.epoch_id ==> held_by(active.push(admitted), not_a_borrower(p))
            == held_by(active, not_a_borrower(p)),
{
    assert(active.push(admitted).drop_last() =~= active);
}

/// The victim order is a strict order, total on unreserved lanes.
pub proof fn victim_order_is_strict(
    a: RetainedLaneCandidate,
    b: RetainedLaneCandidate,
    c: RetainedLaneCandidate,
)
    ensures
        !a.better_victim_than(a),
        a.better_victim_than(b) ==> !b.better_victim_than(a),
        a.better_victim_than(b) && b.better_victim_than(c) ==> a.better_victim_than(c),
        !a.reserved_for_earlier_interactive && !b.reserved_for_earlier_interactive && a.lane
            != b.lane ==> a.better_victim_than(b) || b.better_victim_than(a),
{
}

/// An Interactive lane is a victim only once no unreserved Agent lane is left.
pub proof fn agents_go_first(candidates: Seq<RetainedLaneCandidate>, at: int, agent: int)
    requires
        is_lane_victim(candidates, at),
        0 <= agent < candidates.len(),
        candidates[agent].owner == RequestClass::Agent,
        !candidates[agent].reserved_for_earlier_interactive,
    ensures
        candidates[at].owner == RequestClass::Agent,
        candidates[at].use_tick <= candidates[agent].use_tick,
{
}

/// The donors are those that complete first: no one active that is no donor has
/// less work left than a donor, nor as much and a smaller id.
pub proof fn donors_complete_first(
    p: AdmissionProtection,
    epoch_id: u64,
    head_request_id: RequestId,
    head: AdmissionResources,
    active: Seq<ActiveAdmissionSnapshot>,
    capacity: AdmissionResources,
    i: int,
    j: int,
)
    requires
        is_protection_of(p, epoch_id, head_request_id, head, active, capacity),
        active.len() <= usize::MAX,
        forall|a: int, b: int|
            0 <= a < b < active.len() ==> (#[trigger] active[a]).request_id != (
            #[trigger] active[b]).request_id,
        0 <= i < active.len(),
        0 <= j < active.len(),
        p.donor_ids@.contains(active[i].request_id),
        !p.donor_ids@.contains(active[j].request_id),
    ensures
        active[i].remaining_work_quanta < active[j].remaining_work_quanta || (
        active[i].remaining_work_quanta == active[j].remaining_work_quanta && active[i].request_id
            < active[j].request_id),
        active[i].remaining_work_quanta <= p.temporal_credit,
        p.donor_ids@.len() > 0,
{
    let keys = completion_keys(active);
    let order = choose|order: Seq<usize>|
        is_service_order(keys, order) && #[trigger] donors_along(p, head, active, capacity, order);
    let k = p.donor_ids@.len() as int;
    let a = choose|a: int| 0 <= a < k && p.donor_ids@[a] == active[i].request_id;
    assert(p.donor_ids@[a] == active[order[a] as int].request_id);
    assert(order[a] as int == i);
    assert(order.contains(j as usize));
    let b = choose|b: int| 0 <= b < order.len() && order[b] == j as usize;
    if b < k {
        assert(p.donor_ids@[b] == active[order[b] as int].request_id);
        assert(p.donor_ids@.contains(active[j].request_id));
    }
    assert(precedes(keys, order[a] as int, order[b] as int));
    if a < k - 1 {
        assert(precedes(keys, order[a] as int, order[k - 1] as int));
    }
}

/// The donors are as few as will do: with all of them released the head fits
/// beside the rest in every pool, and with the last of them still there it does
/// not fit in some pool.
pub proof fn no_fewer_donors_would_do(
    p: AdmissionProtection,
    epoch_id: u64,
    head_request_id: RequestId,
    head: AdmissionResources,
    active: Seq<ActiveAdmissionSnapshot>,
    capacity: AdmissionResources,
) -> (order: Seq<usize>)
    requires
        is_protection_of(p, epoch_id, head_request_id, head, active, capacity),
    ensures
        is_service_order(completion_keys(active), order),
        ({
            let k = p.donor_ids@.len() as int;
            let all = held(active);
            let gone = released(active, order, k);
            let spared = released(active, order, k - 1);
            &&& 1 <= k <= order.len()
            &&& forall|a: int|
                0 <= a < k ==> #[trigger] p.donor_ids@[a] == active[order[a] as int].request_id
            &&& head.lanes + all.lanes - gone.lanes <= capacity.lanes
            &&& head.kv_pages + all.kv_pages - gone.kv_pages <= capacity.kv_pages
            &&& head.backend_pages + all.backend_pages - gone.backend_pages
                <= capacity.backend_pages
            &&& head.lanes + all.lanes - spared.lanes > capacity.lanes || head.kv_pages
                + all.kv_pages - spared.kv_pages > capacity.kv_pages || head.backend_pages
                + all.backend_pages - spared.backend_pages > capacity.backend_pages
        }),
{
    let order = choose|order: Seq<usize>|
        is_service_order(completion_keys(active), order) && #[trigger] donors_along(
            p,
            head,
            active,
            capacity,
            order,
        );
    let k = p.donor_ids@.len() as int;
    assert(!survivors(head, active, order, k - 1).within(capacity.demand()));
    order
}

/// What the active set holds is the sum of what each holds, pool by pool; what a
/// run of them releases likewise.
pub proof fn holdings_add_up(
    active: Seq<ActiveAdmissionSnapshot>,
    one: ActiveAdmissionSnapshot,
    order: Seq<usize>,
    k: int,
)
    requires
        0 <= k < order.len(),
        order[k] < active.len(),
    ensures
        held(active.push(one)).lanes == held(active).lanes + one.resources.lanes,
        held(active.push(one)).kv_pages == held(active).kv_pages + one.resources.kv_pages,
        held(active.push(one)).backend_pages == held(active).backend_pages
            + one.resources.backend_pages,
        held(Seq::<ActiveAdmissionSnapshot>::empty()) == Demand::nothing(),
        released(active, order, 0) == Demand::nothing(),
        released(active, order, k + 1).lanes == released(active, order, k).lanes
            + active[order[k] as int].resources.lanes,
        released(active, order, k + 1).kv_pages == released(active, order, k).kv_pages
            + active[order[k] as int].resources.kv_pages,
        released(active, order, k + 1).backend_pages == released(active, order, k).backend_pages
            + active[order[k] as int].resources.backend_pages,
{
    assert(active.push(one).drop_last() =~= active);
}

/// A donor does not weigh on the protected future, for it will have completed;
/// an incumbent that is none does, and so does no one that came later but a
/// persistent backfill of this epoch. Beside the head as things are, everyone
/// weighs but this epoch's borrowers.
pub proof fn who_weighs_on_the_future(
    p: AdmissionProtection,
    active: Seq<ActiveAdmissionSnapshot>,
    one: ActiveAdmissionSnapshot,
)
    ensures
        ({
            let more = active.push(one);
            let added = one.resources.demand();
            let incumbent = p.incumbent_ids@.contains(one.request_id);
            let donor = p.donor_ids@.contains(one.request_id);
            let ours = one.backfill_epoch == p.epoch_id;
            &&& incumbent && donor ==> protected_future(p, more) == protected_future(p, active)
            &&& incumbent && !donor ==> protected_future(p, more) == protected_future(
                p,
                active,
            ).plus(added)
            &&& !incumbent && ours && one.backfill_class == BackfillClass::Persistent
                ==> protected_future(p, more) == protected_future(p, active).plus(added)
            &&& !incumbent && !(ours && one.backfill_class == BackfillClass::Persistent)
                ==> protected_future(p, more) == protected_future(p, active)
            &&& !incumbent && ours && one.backfill_class == BackfillClass::Temporal ==> held_by(
                more,
                not_a_borrower(p),
            ) == held_by(active, not_a_borrower(p))
            &&& incumbent || !ours || one.backfill_class != BackfillClass::Temporal ==> held_by(
                more,
                not_a_borrower(p),
            ) == held_by(active, not_a_borrower(p)).plus(added)
        }),
{
    assert(active.push(one).drop_last() =~= active);
}

/// The lane victim is unreserved, and among the unreserved of its class the
/// least recently used, and the lowest lane of those.
pub proof fn the_lane_victim_is_worth_least(
    candidates: Seq<RetainedLaneCandidate>,
    at: int,
    j: int,
)
    requires
        is_lane_victim(candidates, at),
        0 <= j < candidates.len(),
        !candidates[j].reserved_for_earlier_interactive,
    ensures
        !candidates[at].reserved_for_earlier_interactive,
        candidates[at].owner == RequestClass::Interactive ==> candidates[j].owner
            == RequestClass::Interactive,
        candidates[at].owner == candidates[j].owner ==> candidates[at].use_tick
            <= candidates[j].use_tick,
        candidates[at].owner == candidates[j].owner && candidates[at].use_tick
            == candidates[j].use_tick ==> candidates[at].lane <= candidates[j].lane,
{
}

/// Of two residents an Agent's is worth less than an Interactive one, and of one
/// class the older.
pub proof fn residents_are_strictly_ordered(a: ResidentCandidate, b: ResidentCandidate)
    ensures
        a.owner == RequestClass::Agent && b.owner == RequestClass::Interactive
            ==> a.worth_less_than(b) && !b.worth_less_than(a),
        a.owner == b.owner ==> (a.worth_less_than(b) <==> a.request_id < b.request_id),
{
}

/// The frontier distance is the most work any donor still active has left: none
/// has more, and some has as much unless none is left.
pub proof fn the_distance_is_the_last_donors_work(
    p: AdmissionProtection,
    active: Seq<ActiveAdmissionSnapshot>,
)
    ensures
        forall|i: int|
            0 <= i < active.len() && p.donor_ids@.contains((#[trigger] active[i]).request_id)
                ==> active[i].remaining_work_quanta <= donor_distance(p, active),
        donor_distance(p, active) > 0 ==> exists|i: int|
            0 <= i < active.len() && p.donor_ids@.contains((#[trigger] active[i]).request_id)
                && active[i].remaining_work_quanta == donor_distance(p, active),
    decreases active.len(),
{
    assert forall|i: int|
        0 <= i < active.len() && p.donor_ids@.contains(
            (#[trigger] active[i]).request_id,
        ) implies active[i].remaining_work_quanta <= donor_distance(p, active) by {
        donors_are_within_the_distance(p, active, i);
    }
    if active.len() > 0 {
        let rest = active.drop_last();
        the_distance_is_the_last_donors_work(p, rest);
        let s = active.last();
        if donor_distance(p, active) > 0 {
            if p.donor(s.request_id) && s.remaining_work_quanta > donor_distance(p, rest) {
                assert(active[active.len() - 1] == s);
            } else {
                let i = choose|i: int|
                    0 <= i < rest.len() && p.donor_ids@.contains((#[trigger] rest[i]).request_id)
                        && rest[i].remaining_work_quanta == donor_distance(p, rest);
                assert(active[i] == rest[i]);
            }
        }
    }
}

} // verus!
