//! The retained slots: the one bound on the images retained state keeps on
//! the device.

use crate::types::RequestId;
use vstd::prelude::*;

verus! {

/// Whose image a slot holds.
#[derive(Debug, Clone, Copy, PartialEq, Eq, Structural)]
pub enum RetainedHolder {
    /// A shared prefix, by the request that published it and its length.
    Prefix { publisher: RequestId, tokens: u32 },
    /// A prompt checkpoint, by the request that captured it.
    Checkpoint { publisher: RequestId },
}

/// Why a publish or a capture was not taken.
#[derive(Debug, Clone, Copy, PartialEq, Eq, Structural)]
pub enum RetainedSkip {
    PublishNoSlot,
    CaptureNoSlot,
    CaptureNoPage,
}

/// How many of the first `n` slots are held.
pub open spec fn held_slots(slots: Seq<Option<RetainedHolder>>, n: int) -> int
    decreases n,
{
    if n <= 0 {
        0
    } else {
        held_slots(slots, n - 1) + (if slots[n - 1] is Some { 1int } else { 0 })
    }
}

/// The first of the slots at or past `from` that holds `holder`.
pub open spec fn first_slot(
    slots: Seq<Option<RetainedHolder>>,
    holder: Option<RetainedHolder>,
    from: int,
) -> Option<int>
    decreases slots.len() - from,
{
    if from < 0 || from >= slots.len() {
        None
    } else if slots[from] == holder {
        Some(from)
    } else {
        first_slot(slots, holder, from + 1)
    }
}

/// The slots after `holder` took the first free one.
pub open spec fn taken(slots: Seq<Option<RetainedHolder>>, holder: RetainedHolder) -> Seq<
    Option<RetainedHolder>,
> {
    match first_slot(slots, None, 0) {
        Some(i) => slots.update(i, Some(holder)),
        None => slots,
    }
}

/// The slots after `holder` gave its slot back, if it held one.
pub open spec fn given_back(slots: Seq<Option<RetainedHolder>>, holder: RetainedHolder) -> Seq<
    Option<RetainedHolder>,
> {
    match first_slot(slots, Some(holder), 0) {
        Some(i) => slots.update(i, None),
        None => slots,
    }
}

proof fn held_changed(
    a: Seq<Option<RetainedHolder>>,
    i: int,
    with: Option<RetainedHolder>,
    n: int,
)
    requires
        0 <= i < a.len(),
        0 <= n <= a.len(),
    ensures
        held_slots(a.update(i, with), n) == held_slots(a, n) + (if i < n {
            (if with is Some {
                1int
            } else {
                0
            }) - (if a[i] is Some {
                1int
            } else {
                0
            })
        } else {
            0
        }),
    decreases n,
{
    if n > 0 {
        held_changed(a, i, with, n - 1);
    }
}

proof fn held_is_bounded(a: Seq<Option<RetainedHolder>>, n: int)
    requires
        0 <= n <= a.len(),
    ensures
        0 <= held_slots(a, n) <= n,
    decreases n,
{
    if n > 0 {
        held_is_bounded(a, n - 1);
    }
}

proof fn first_slot_is_first(
    slots: Seq<Option<RetainedHolder>>,
    holder: Option<RetainedHolder>,
    from: int,
)
    requires
        0 <= from <= slots.len(),
    ensures
        first_slot(slots, holder, from) matches Some(i) ==> from <= i < slots.len() && slots[i]
            == holder && forall|j: int| from <= j < i ==> #[trigger] slots[j] != holder,
        first_slot(slots, holder, from) is None ==> forall|j: int|
            from <= j < slots.len() ==> #[trigger] slots[j] != holder,
    decreases slots.len() - from,
{
    if from < slots.len() && slots[from] != holder {
        first_slot_is_first(slots, holder, from + 1);
    }
}

/// The retained slots and who holds each.
#[derive(Debug)]
pub struct RetainedSlotLedger {
    pub slots: Vec<Option<RetainedHolder>>,
}

fn same_holder(a: Option<RetainedHolder>, b: Option<RetainedHolder>) -> (same: bool)
    ensures
        same == (a == b),
{
    match (a, b) {
        (None, None) => true,
        (Some(x), Some(y)) => x == y,
        _ => false,
    }
}

impl RetainedSlotLedger {
    pub open spec fn wf(self) -> bool {
        self.slots@.len() <= u32::MAX
    }

    /// Slots held right now.
    pub open spec fn used(self) -> int {
        held_slots(self.slots@, self.slots@.len() as int)
    }

    /// A ledger of `capacity` free slots.
    pub fn new(capacity: u32) -> (ledger: RetainedSlotLedger)
        ensures
            ledger.wf(),
            ledger.slots@ == Seq::new(capacity as nat, |i: int| None::<RetainedHolder>),
            ledger.used() == 0,
    {
        let mut slots: Vec<Option<RetainedHolder>> = Vec::new();
        let mut n: u32 = 0;
        while n < capacity
            invariant
                n <= capacity,
                slots@ == Seq::new(n as nat, |i: int| None::<RetainedHolder>),
                held_slots(slots@, n as int) == 0,
            decreases capacity - n,
        {
            let ghost before = slots@;
            slots.push(None);
            proof {
                assert(slots@ =~= Seq::new((n + 1) as nat, |i: int| None::<RetainedHolder>));
                held_prefix(before, slots@, n as int);
            }
            n = n + 1;
        }
        RetainedSlotLedger { slots }
    }

    /// The slots this load has.
    pub fn capacity(&self) -> (n: u32)
        requires
            self.wf(),
        ensures
            n == self.slots@.len(),
    {
        self.slots.len() as u32
    }

    /// The slots held right now.
    pub fn in_use(&self) -> (n: u32)
        requires
            self.wf(),
        ensures
            n == self.used(),
            n <= self.slots@.len(),
    {
        let mut n: u32 = 0;
        let mut i: usize = 0;
        while i < self.slots.len()
            invariant
                self.wf(),
                i <= self.slots@.len(),
                n == held_slots(self.slots@, i as int),
                n <= i,
            decreases self.slots@.len() - i,
        {
            if self.slots[i].is_some() {
                n = n + 1;
            }
            i = i + 1;
        }
        n
    }

    fn find(&self, holder: Option<RetainedHolder>) -> (at: Option<usize>)
        ensures
            at is Some <==> first_slot(self.slots@, holder, 0) is Some,
            at matches Some(i) ==> i < self.slots@.len() && first_slot(self.slots@, holder, 0) == Some(
                i as int,
            ),
    {
        let mut i: usize = 0;
        while i < self.slots.len()
            invariant
                i <= self.slots@.len(),
                first_slot(self.slots@, holder, 0) == first_slot(self.slots@, holder, i as int),
            decreases self.slots@.len() - i,
        {
            if same_holder(self.slots[i], holder) {
                return Some(i);
            }
            i = i + 1;
        }
        None
    }

    /// The first free slot, now `holder`'s; `None` when none is free.
    pub fn take(&mut self, holder: RetainedHolder) -> (slot: Option<u32>)
        requires
            old(self).wf(),
        ensures
            final(self).wf(),
            final(self).slots@ == taken(old(self).slots@, holder),
            slot is None <==> old(self).used() == old(self).slots@.len(),
            slot is None ==> *final(self) == *old(self),
            slot matches Some(s) ==> first_slot(old(self).slots@, None, 0) == Some(s as int) && s
                < old(self).slots@.len() && final(self).used() == old(self).used() + 1,
    {
        proof {
            first_slot_is_first(self.slots@, None, 0);
        }
        match self.find(None) {
            Some(at) => {
                let ghost before = self.slots@;
                self.slots.set(at, Some(holder));
                proof {
                    held_changed(before, at as int, Some(holder), before.len() as int);
                    held_is_bounded(self.slots@, self.slots@.len() as int);
                }
                Some(at as u32)
            },
            None => {
                proof {
                    all_held(self.slots@, self.slots@.len() as int);
                }
                None
            },
        }
    }

    /// Give back the slot `holder` holds; a no-op for one that holds none.
    pub fn give_back(&mut self, holder: RetainedHolder)
        requires
            old(self).wf(),
        ensures
            final(self).wf(),
            final(self).slots@ == given_back(old(self).slots@, holder),
            final(self).slots@.len() == old(self).slots@.len(),
            final(self).used() == old(self).used() - (if first_slot(
                old(self).slots@,
                Some(holder),
                0,
            ) is Some {
                1int
            } else {
                0
            }),
    {
        if let Some(at) = self.find(Some(holder)) {
            let ghost before = self.slots@;
            proof {
                first_slot_is_first(before, Some(holder), 0);
            }
            self.slots.set(at, None);
            proof {
                held_changed(before, at as int, None, before.len() as int);
            }
        }
    }
}

proof fn held_prefix(a: Seq<Option<RetainedHolder>>, b: Seq<Option<RetainedHolder>>, n: int)
    requires
        0 <= n <= a.len(),
        n <= b.len(),
        forall|i: int| 0 <= i < n ==> a[i] == b[i],
    ensures
        held_slots(a, n) == held_slots(b, n),
    decreases n,
{
    if n > 0 {
        held_prefix(a, b, n - 1);
    }
}

proof fn all_held(slots: Seq<Option<RetainedHolder>>, n: int)
    requires
        0 <= n <= slots.len(),
        forall|j: int| 0 <= j < slots.len() ==> #[trigger] slots[j] != None::<RetainedHolder>,
    ensures
        held_slots(slots, n) == n,
    decreases n,
{
    if n > 0 {
        all_held(slots, n - 1);
        assert(slots[n - 1] != None::<RetainedHolder>);
    }
}

/// The first free slot is the holder's once it is taken.
pub proof fn took_the_first(slots: Seq<Option<RetainedHolder>>, holder: RetainedHolder)
    requires
        first_slot(slots, None, 0) is Some,
    ensures
        taken(slots, holder).len() == slots.len(),
        taken(slots, holder)[first_slot(slots, None, 0)->Some_0] == Some(holder),
{
    first_slot_is_first(slots, None, 0);
}

/// With every slot held, taking changes nothing.
pub proof fn nothing_to_take(slots: Seq<Option<RetainedHolder>>, holder: RetainedHolder)
    requires
        held_slots(slots, slots.len() as int) == slots.len(),
    ensures
        taken(slots, holder) == slots,
{
    first_slot_is_first(slots, None, 0);
    if let Some(i) = first_slot(slots, None, 0) {
        held_changed(slots, i, Some(holder), slots.len() as int);
        held_is_bounded(slots.update(i, Some(holder)), slots.len() as int);
    }
}

/// Giving back what was just taken leaves the slots as they were, for a holder
/// that held none.
pub proof fn give_back_undoes_take(slots: Seq<Option<RetainedHolder>>, holder: RetainedHolder)
    requires
        first_slot(slots, None, 0) is Some,
        first_slot(slots, Some(holder), 0) is None,
    ensures
        given_back(taken(slots, holder), holder) == slots,
{
    first_slot_is_first(slots, None, 0);
    first_slot_is_first(slots, Some(holder), 0);
    let i = first_slot(slots, None, 0)->Some_0;
    let after = taken(slots, holder);
    first_slot_is_first(after, Some(holder), 0);
    let j = first_slot(after, Some(holder), 0)->Some_0;
    assert(after[i] == Some(holder));
    if j != i {
        assert(slots[j] == Some(holder));
    }
    assert(given_back(after, holder) =~= slots);
}

/// The slots counted as held are those that hold someone, each once.
pub proof fn held_slots_are_counted_once(slots: Seq<Option<RetainedHolder>>, n: int)
    requires
        0 <= n <= slots.len(),
    ensures
        held_slots(slots, n) == slots.take(n).filter(
            |slot: Option<RetainedHolder>| slot is Some,
        ).len(),
    decreases n,
{
    reveal(Seq::filter);
    if n > 0 {
        held_slots_are_counted_once(slots, n - 1);
        assert(slots.take(n).drop_last() =~= slots.take(n - 1));
        assert(slots.take(n).last() == slots[n - 1]);
    } else {
        assert(slots.take(0) =~= Seq::empty());
    }
}

/// Taking a slot takes one that was free and leaves every other as it was; it
/// takes none only where none is free. Giving back frees one that the holder
/// held and leaves every other as it was; it frees none only where it held none.
pub proof fn a_slot_moves_alone(
    slots: Seq<Option<RetainedHolder>>,
    holder: RetainedHolder,
    i: int,
)
    requires
        0 <= i < slots.len(),
    ensures
        taken(slots, holder).len() == slots.len(),
        taken(slots, holder)[i] != slots[i] ==> slots[i] is None && taken(slots, holder)[i] == Some(
            holder,
        ) && forall|j: int|
            0 <= j < slots.len() && j != i ==> #[trigger] taken(slots, holder)[j] == slots[j],
        slots[i] is None ==> taken(slots, holder) != slots,
        given_back(slots, holder).len() == slots.len(),
        given_back(slots, holder)[i] != slots[i] ==> slots[i] == Some(holder) && given_back(
            slots,
            holder,
        )[i] is None && forall|j: int|
            0 <= j < slots.len() && j != i ==> #[trigger] given_back(slots, holder)[j] == slots[j],
        slots[i] == Some(holder) ==> given_back(slots, holder) != slots,
{
    first_slot_is_first(slots, None, 0);
    first_slot_is_first(slots, Some(holder), 0);
    if slots[i] is None {
        let k = first_slot(slots, None, 0)->Some_0;
        assert(taken(slots, holder)[k] == Some(holder));
    }
    if slots[i] == Some(holder) {
        let k = first_slot(slots, Some(holder), 0)->Some_0;
        assert(given_back(slots, holder)[k] is None);
    }
}

} // verus!
