//! Resumability of the recurrent (gated delta-net) state.
//!
//! The recurrent state of the linear-attention layers is resumable only at
//! checkpoint / frontier boundaries. The state matrices live on the device;
//! this module tracks which token positions are resumable. The host tier may
//! only snapshot a lane at a recorded boundary.

use vstd::prelude::*;

verus! {

/// What a [`GdnState`] stands for: the positions at which the state may be
/// resumed, and where it stands.
pub struct GdnView {
    pub boundaries: Set<nat>,
    pub position: nat,
}

/// The resumability tracker of one sequence's recurrent state.
#[derive(Debug)]
pub struct GdnState {
    boundaries: Vec<usize>,
    position: usize,
}

impl View for GdnState {
    type V = GdnView;

    closed spec fn view(&self) -> GdnView {
        GdnView {
            boundaries: Set::new(|p: nat| exists|i: int| 0 <= i < self.boundaries@.len() && #[trigger] self.boundaries@[i] as nat == p),
            position: self.position as nat,
        }
    }
}

impl GdnView {
    /// The start of a sequence: resumable at 0, standing there.
    pub open spec fn fresh() -> GdnView {
        GdnView { boundaries: set![0nat], position: 0 }
    }

    /// The state after a boundary was recorded at `position`; one behind the
    /// frontier changes nothing.
    pub open spec fn checkpointed(self, position: nat) -> GdnView {
        if position >= self.position {
            GdnView { boundaries: self.boundaries.insert(position), position }
        } else {
            self
        }
    }

    /// The state after it moved to `position` without a boundary; the frontier
    /// never moves back.
    pub open spec fn advanced(self, position: nat) -> GdnView {
        if position > self.position {
            GdnView { position, ..self }
        } else {
            self
        }
    }

    /// The state set back to a recorded boundary; unchanged elsewhere.
    pub open spec fn restored(self, position: nat) -> GdnView {
        if self.boundaries.contains(position) {
            GdnView { position, ..self }
        } else {
            self
        }
    }
}

impl GdnState {
    /// A fresh state: position 0 is the initial boundary.
    pub fn new() -> (state: GdnState)
        ensures
            state@ == GdnView::fresh(),
            state@.position == 0,
            forall|p: nat| #[trigger] state@.boundaries.contains(p) <==> p == 0,
    {
        let state = GdnState { boundaries: vec![0usize], position: 0 };
        proof {
            assert(state.boundaries@[0] as nat == 0);
            assert(state@.boundaries =~= set![0nat]);
        }
        state
    }

    /// Record a boundary at `position` and move there. A boundary behind the
    /// frontier is ignored.
    pub fn checkpoint(&mut self, position: usize)
        ensures
            final(self)@ == old(self)@.checkpointed(position as nat),
            position >= old(self)@.position ==> final(self)@.position == position
                && final(self)@.boundaries == old(self)@.boundaries.insert(position as nat),
            position < old(self)@.position ==> final(self)@ == old(self)@,
    {
        if position >= self.position {
            let ghost before = *self;
            self.boundaries.push(position);
            self.position = position;
            proof {
                let b = before.boundaries@;
                let a = self.boundaries@;
                assert(a == b.push(position));
                assert forall|p: nat| self@.boundaries.contains(p) <==> #[trigger] before@.boundaries.insert(position as nat).contains(p) by {
                    if before@.boundaries.contains(p) {
                        let i = choose|i: int| 0 <= i < b.len() && b[i] as nat == p;
                        assert(a[i] as nat == p);
                    }
                    if p == position as nat {
                        assert(a[b.len() as int] as nat == p);
                    }
                    if self@.boundaries.contains(p) && p != position as nat {
                        let i = choose|i: int| 0 <= i < a.len() && a[i] as nat == p;
                        assert(b[i] as nat == p);
                    }
                }
                assert(self@.boundaries =~= before@.boundaries.insert(position as nat));
            }
        }
    }

    /// Move forward without recording a boundary: the new position is not
    /// resumable. A backwards move is ignored.
    pub fn advance(&mut self, position: usize)
        ensures
            final(self)@ == old(self)@.advanced(position as nat),
            final(self)@.boundaries == old(self)@.boundaries,
            position >= old(self)@.position ==> final(self)@.position == position,
            position < old(self)@.position ==> final(self)@.position == old(self)@.position,
    {
        if position > self.position {
            self.position = position;
        }
    }

    /// Where the state stands, as a token index.
    pub fn position(&self) -> (position: usize)
        ensures
            position == self@.position,
    {
        self.position
    }

    /// Whether the state can be resumed at `position`: only at a recorded
    /// boundary.
    pub fn can_resume_at(&self, position: usize) -> (resumable: bool)
        ensures
            resumable == self@.boundaries.contains(position as nat),
    {
        let mut i: usize = 0;
        while i < self.boundaries.len()
            invariant
                i <= self.boundaries@.len(),
                forall|j: int| 0 <= j < i ==> self.boundaries@[j] != position,
            decreases self.boundaries@.len() - i,
        {
            if self.boundaries[i] == position {
                assert(self.boundaries@[i as int] as nat == position as nat);
                return true;
            }
            i = i + 1;
        }
        false
    }

    /// Whether the host tier may snapshot the state at `position`.
    pub fn is_valid_snapshot_point(&self, position: usize) -> (valid: bool)
        ensures
            valid == self@.boundaries.contains(position as nat),
    {
        self.can_resume_at(position)
    }

    /// Set the state back to `position`; refused, changing nothing, where no
    /// boundary was recorded.
    pub fn restore(&mut self, position: usize) -> (restored: bool)
        ensures
            restored == old(self)@.boundaries.contains(position as nat),
            final(self)@ == old(self)@.restored(position as nat),
            final(self)@.boundaries == old(self)@.boundaries,
            restored ==> final(self)@.position == position,
            !restored ==> final(self)@.position == old(self)@.position,
    {
        if !self.can_resume_at(position) {
            return false;
        }
        self.position = position;
        true
    }
}

impl Clone for GdnState {
    fn clone(&self) -> (copy: GdnState)
        ensures
            copy@ == self@,
    {
        let copy = GdnState { boundaries: self.boundaries.clone(), position: self.position };
        assert(copy.boundaries@ == self.boundaries@);
        copy
    }
}

impl Default for GdnState {
    /// A state with no resumable position at all.
    fn default() -> (state: GdnState)
        ensures
            state@ == (GdnView { boundaries: Set::empty(), position: 0 }),
    {
        let state = GdnState { boundaries: Vec::new(), position: 0 };
        assert(state@.boundaries =~= Set::<nat>::empty());
        state
    }
}

/// The frontier never moves back under `checkpoint` and `advance`, and no
/// recorded boundary is ever lost.
pub proof fn frontier_only_moves_forward(state: GdnView, position: nat)
    ensures
        state.checkpointed(position).position >= state.position,
        state.advanced(position).position >= state.position,
        state.boundaries.subset_of(state.checkpointed(position).boundaries),
        state.advanced(position).boundaries == state.boundaries,
{
}

/// A boundary recorded at or past the frontier can be restored to, and a
/// restore there gives back exactly the checkpointed state, however far the
/// state moved on in between.
pub proof fn restore_returns_to_a_checkpoint(state: GdnView, position: nat, moved_to: nat)
    requires
        position >= state.position,
    ensures
        state.checkpointed(position).boundaries.contains(position),
        state.checkpointed(position).advanced(moved_to).restored(position)
            == state.checkpointed(position),
{
}

/// A position the state merely advanced to is not resumable unless it was a
/// boundary before.
pub proof fn mid_prefill_is_not_resumable(state: GdnView, position: nat)
    requires
        !state.boundaries.contains(position),
    ensures
        !state.advanced(position).boundaries.contains(position),
        state.advanced(position).restored(position) == state.advanced(position),
{
}

} // verus!
