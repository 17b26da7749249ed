//! Prompt checkpoints: the ledger of cross-request state reuse.
//!
//! A **prompt checkpoint** is the whole-sequence state of a request at its
//! generation opener, retained after the request finishes so that a later
//! request whose prompt extends it resumes there. This module is the ledger:
//! which checkpoints exist, what they cost and which one a prompt matches. It
//! owns no device memory and moves no bytes.
//!
//! - **Reuse copies, never consumes.** A claim leaves the entry in place.
//! - **Retained state is free until the room is needed.** A capture that does
//!   not fit the byte budget is not taken; nothing is evicted for it.
//! - **Entries are addressed by content, never by session.** An entry matches
//!   a prompt whose content key at the entry's length is the entry's key.
//! - **A conversation keeps at most two**: its latest checkpoint and its
//!   newest turn-opening one.

use crate::gdn::GdnState;
use crate::identity::{
    BlobHeader, BlobIdentity, IdentityMismatch, MatchKey, PromptContent, PromptKeys,
};
use crate::types::{PrefixId, RequestClass, RequestId};
use vstd::prelude::*;

verus! {

/// A retained prompt checkpoint.
pub type CheckpointId = u64;

/// The chain of checkpoints one conversation left behind: a capture joins the
/// lineage of the entry its request resumed from, or opens one.
pub type LineageId = u64;

/// A sum that stays at its ceiling.
pub open spec fn sat_u32(sum: int) -> int {
    if sum > u32::MAX { u32::MAX as int } else { sum }
}

/// A count that stays at its ceiling.
pub open spec fn sat_u64(sum: int) -> int {
    if sum > u64::MAX { u64::MAX as int } else { sum }
}

/// Where reused state came from.
#[derive(Debug, Clone, Copy, PartialEq, Eq, Structural)]
pub enum ReuseSource {
    /// Still resident on the device.
    Device,
    /// Brought back from host memory.
    KvRam,
}

impl ReuseSource {
    pub open spec fn spelling(self) -> Seq<char> {
        match self {
            ReuseSource::Device => "device"@,
            ReuseSource::KvRam => "kv_ram"@,
        }
    }

    /// The request log's spelling.
    pub fn as_str(self) -> (text: &'static str)
        ensures
            text@ == self.spelling(),
            self == ReuseSource::Device ==> text@ == "device"@,
            self == ReuseSource::KvRam ==> text@ == "kv_ram"@,
    {
        match self {
            ReuseSource::Device => "device",
            ReuseSource::KvRam => "kv_ram",
        }
    }
}

/// What kind of state is retained.
#[derive(Debug, Clone, Copy, PartialEq, Eq, Structural)]
pub enum RetainedKind {
    Checkpoint,
    Prefix,
}

/// What happened to retained state.
#[derive(Debug, Clone, Copy, PartialEq, Eq, Structural)]
pub enum RetainedStateOperation {
    Hit,
    Miss,
    Spill,
    Restore,
    Discard,
}

/// One residency tier: a place, and the price of reaching it.
#[derive(Debug, Clone, Copy, PartialEq, Eq, Structural)]
pub struct ResidencyTier {
    pub source: ReuseSource,
    /// Prompt tokens a match here must reuse beyond the best match in every
    /// tier above it. 0 in the first tier, at least 1 in every tier below.
    pub restore_floor_tokens: u32,
}

/// The first position of `source` in `order` at or past `from`.
pub open spec fn rank_from(order: Seq<ResidencyTier>, source: ReuseSource, from: int) -> Option<int>
    decreases order.len() - from,
{
    if from < 0 || from >= order.len() {
        None
    } else if order[from].source == source {
        Some(from)
    } else {
        rank_from(order, source, from + 1)
    }
}

proof fn rank_is_the_first(order: Seq<ResidencyTier>, source: ReuseSource, from: int)
    requires
        0 <= from <= order.len(),
    ensures
        rank_from(order, source, from) matches Some(r) ==> from <= r < order.len()
            && order[r].source == source && forall|i: int|
            from <= i < r ==> (#[trigger] order[i]).source != source,
        rank_from(order, source, from) is None ==> forall|i: int|
            from <= i < order.len() ==> (#[trigger] order[i]).source != source,
    decreases order.len() - from,
{
    if from < order.len() && order[from].source != source {
        rank_is_the_first(order, source, from + 1);
    }
}

/// `order` can be a residency order: not empty, no tier named twice, nothing
/// to beat in the first, something to beat in every other.
pub open spec fn is_residency_order(order: Seq<ResidencyTier>) -> bool {
    &&& order.len() > 0
    &&& order[0].restore_floor_tokens == 0
    &&& forall|i: int| 0 < i < order.len() ==> (#[trigger] order[i]).restore_floor_tokens > 0
    &&& forall|i: int, j: int|
        0 <= i < j < order.len() ==> (#[trigger] order[i]).source != (#[trigger] order[j]).source
}

/// Whether a match of `tokens` in `source` is worth taking over `best`:
/// longest reuse wins inside a tier, and between two tiers the lower one has
/// to beat the upper by its restore floor, whichever is the candidate.
pub open spec fn takes_over(
    order: Seq<ResidencyTier>,
    source: ReuseSource,
    tokens: u32,
    best: Option<(ReuseSource, u32)>,
) -> bool {
    &&& tokens != 0
    &&& rank_from(order, source, 0) matches Some(rank) && (best matches Some(b) ==> (
    rank_from(order, b.0, 0) matches Some(best_rank) ==> if rank < best_rank {
        sat_u32(tokens + order[best_rank].restore_floor_tokens) > b.1
    } else if rank == best_rank {
        tokens > b.1
    } else {
        tokens >= sat_u32(b.1 + order[rank].restore_floor_tokens)
    }))
}

/// The ordered residency tiers a load retains state across, cheapest first.
#[derive(Debug)]
pub struct TierList {
    pub order: Vec<ResidencyTier>,
}

impl Default for TierList {
    fn default() -> (list: TierList)
        ensures
            list.wf(),
            list.order@ == seq![ResidencyTier { source: ReuseSource::Device, restore_floor_tokens: 0 }],
    {
        TierList::device_only()
    }
}

impl TierList {
    pub open spec fn wf(self) -> bool {
        is_residency_order(self.order@)
    }

    /// The rank of `source`, cheapest first.
    pub open spec fn rank_of(self, source: ReuseSource) -> Option<int> {
        rank_from(self.order@, source, 0)
    }

    /// Whether this load carries `source` at all.
    pub open spec fn carries(self, source: ReuseSource) -> bool {
        self.rank_of(source) is Some
    }

    /// The device alone.
    pub fn device_only() -> (list: TierList)
        ensures
            list.wf(),
            list.order@ == seq![ResidencyTier { source: ReuseSource::Device, restore_floor_tokens: 0 }],
    {
        TierList {
            order: vec![ResidencyTier { source: ReuseSource::Device, restore_floor_tokens: 0 }],
        }
    }

    /// An explicit order, cheapest tier first.
    pub fn new(tiers: Vec<ResidencyTier>) -> (list: TierList)
        requires
            is_residency_order(tiers@),
        ensures
            list.wf(),
            list.order@ == tiers@,
    {
        TierList { order: tiers }
    }

    /// The tiers, cheapest first.
    pub fn tiers(&self) -> (tiers: &[ResidencyTier])
        ensures
            tiers@ == self.order@,
    {
        self.order.as_slice()
    }

    /// The position of `source` in the order, `None` when it is not carried.
    pub fn rank(&self, source: ReuseSource) -> (rank: Option<usize>)
        ensures
            rank is Some <==> self.rank_of(source) is Some,
            rank matches Some(r) ==> self.rank_of(source) == Some(r as int) && r < self.order@.len()
                && self.order@[r as int].source == source,
    {
        let mut i: usize = 0;
        while i < self.order.len()
            invariant
                i <= self.order@.len(),
                self.rank_of(source) == rank_from(self.order@, source, i as int),
            decreases self.order@.len() - i,
        {
            if self.order[i].source == source {
                return Some(i);
            }
            i = i + 1;
        }
        None
    }

    /// The tier behind `source` in the order, if there is one.
    pub open spec fn next_below(self, source: ReuseSource) -> Option<ReuseSource> {
        match self.rank_of(source) {
            Some(r) if r + 1 < self.order@.len() => Some(self.order@[r + 1].source),
            _ => None,
        }
    }

    /// Where state released by `source` goes next, `None` to discard it.
    pub fn below(&self, source: ReuseSource) -> (next: Option<ReuseSource>)
        ensures
            next == self.next_below(source),
    {
        match self.rank(source) {
            Some(rank) => {
                if self.order.len() - rank > 1 {
                    Some(self.order[rank + 1].source)
                } else {
                    None
                }
            },
            None => None,
        }
    }

    /// Whether a match of `tokens` in `source` is worth taking over `best`.
    pub fn replaces(&self, source: ReuseSource, tokens: u32, best: Option<(ReuseSource, u32)>) -> (
    taken: bool)
        ensures
            taken == takes_over(self.order@, source, tokens, best),
    {
        if tokens == 0 {
            return false;
        }
        let rank: usize = match self.rank(source) {
            Some(rank) => rank,
            None => {
                return false;
            },
        };
        match best {
            None => true,
            Some((best_source, best_tokens)) => match self.rank(best_source) {
                None => true,
                Some(best_rank) => {
                    if rank < best_rank {
                        tokens.saturating_add(self.order[best_rank].restore_floor_tokens)
                            > best_tokens
                    } else if rank == best_rank {
                        tokens > best_tokens
                    } else {
                        tokens >= best_tokens.saturating_add(self.order[rank].restore_floor_tokens)
                    }
                },
            },
        }
    }
}

/// The choice between two tiers does not depend on which match is offered
/// first: exactly one of the two replaces the other.
pub proof fn tier_choice_is_order_independent(
    order: Seq<ResidencyTier>,
    a: ReuseSource,
    a_tokens: u32,
    b: ReuseSource,
    b_tokens: u32,
)
    requires
        is_residency_order(order),
        a != b,
        rank_from(order, a, 0) is Some,
        rank_from(order, b, 0) is Some,
        a_tokens > 0,
        b_tokens > 0,
    ensures
        takes_over(order, a, a_tokens, Some((b, b_tokens))) <==> !takes_over(
            order,
            b,
            b_tokens,
            Some((a, a_tokens)),
        ),
{
    rank_is_the_first(order, a, 0);
    rank_is_the_first(order, b, 0);
}

/// A tie goes to the tier above, for every length short of the largest `u32`.
pub proof fn a_tie_goes_up(
    order: Seq<ResidencyTier>,
    upper: ReuseSource,
    lower: ReuseSource,
    tokens: u32,
)
    requires
        is_residency_order(order),
        rank_from(order, upper, 0) matches Some(u) && rank_from(order, lower, 0) matches Some(l) && u
            < l,
        0 < tokens < u32::MAX,
    ensures
        takes_over(order, upper, tokens, Some((lower, tokens))),
        !takes_over(order, lower, tokens, Some((upper, tokens))),
{
    rank_is_the_first(order, upper, 0);
    rank_is_the_first(order, lower, 0);
}

/// A match in a tier the load does not carry never wins, and no match of
/// nothing does.
pub proof fn an_uncarried_tier_never_wins(
    order: Seq<ResidencyTier>,
    source: ReuseSource,
    tokens: u32,
    best: Option<(ReuseSource, u32)>,
)
    ensures
        rank_from(order, source, 0) is None ==> !takes_over(order, source, tokens, best),
        !takes_over(order, source, 0, best),
{
}

/// A retained prompt checkpoint.
#[derive(Debug)]
pub struct CheckpointEntry {
    pub id: CheckpointId,
    /// The request whose prefill captured it: the backend's handle on its
    /// image, never part of the key.
    pub publisher: RequestId,
    /// The content of the prompt up to the generation opener.
    pub key: MatchKey,
    /// Prompt tokens the key covers.
    pub tokens: u32,
    /// What the state was produced under.
    pub identity: BlobIdentity,
    /// The residency tier the entry is in.
    pub tier: ReuseSource,
    /// The shared prefix whose pages carry the history.
    pub prefix: PrefixId,
    /// Whole KV pages that prefix holds.
    pub pages: u32,
    /// Device bytes the entry's own image occupies.
    pub bytes: u64,
    /// The recurrent state at the opener.
    pub gdn: GdnState,
    pub lineage: LineageId,
    /// The first checkpoint after its conversation's last user message.
    pub turn_opening: bool,
    /// The tick it was last captured or claimed at.
    pub use_tick: u64,
    /// Who captured it.
    pub owner: RequestClass,
    /// The wall time it was last used at.
    pub used_at: u64,
}

impl CheckpointEntry {
    /// Equal in everything a reader can see.
    pub open spec fn same_as(self, other: CheckpointEntry) -> bool {
        &&& self.id == other.id
        &&& self.publisher == other.publisher
        &&& self.key == other.key
        &&& self.tokens == other.tokens
        &&& self.identity == other.identity
        &&& self.tier == other.tier
        &&& self.prefix == other.prefix
        &&& self.pages == other.pages
        &&& self.bytes == other.bytes
        &&& self.gdn@ == other.gdn@
        &&& self.lineage == other.lineage
        &&& self.turn_opening == other.turn_opening
        &&& self.use_tick == other.use_tick
        &&& self.owner == other.owner
        &&& self.used_at == other.used_at
    }

    /// What this entry says about itself to a tier that does not hold its
    /// history.
    pub fn header(&self) -> (header: BlobHeader)
        ensures
            header == (BlobHeader { identity: self.identity, key: self.key, tokens: self.tokens }),
    {
        BlobHeader { identity: self.identity, key: self.key, tokens: self.tokens }
    }
}

impl Clone for CheckpointEntry {
    fn clone(&self) -> (copy: CheckpointEntry)
        ensures
            copy.same_as(*self),
    {
        CheckpointEntry {
            id: self.id,
            publisher: self.publisher,
            key: self.key,
            tokens: self.tokens,
            identity: self.identity,
            tier: self.tier,
            prefix: self.prefix,
            pages: self.pages,
            bytes: self.bytes,
            gdn: self.gdn.clone(),
            lineage: self.lineage,
            turn_opening: self.turn_opening,
            use_tick: self.use_tick,
            owner: self.owner,
            used_at: self.used_at,
        }
    }
}

/// One checkpoint offered to the pool.
#[derive(Debug)]
pub struct CheckpointCapture {
    pub publisher: RequestId,
    pub key: MatchKey,
    pub tokens: u32,
    pub prefix: PrefixId,
    pub pages: u32,
    pub bytes: u64,
    pub gdn: GdnState,
    pub identity: BlobIdentity,
    pub tier: ReuseSource,
    /// The entry the capturing request resumed from.
    pub claimed: Option<CheckpointId>,
    /// Whether a user message lies between that entry's opener and this one.
    pub turn_opening: bool,
}

/// What [`CheckpointPool::retain`] did: the new entry, and the entries of its
/// lineage it displaced, oldest first, for the caller to release.
#[derive(Debug)]
#[must_use]
pub struct Retained {
    pub id: CheckpointId,
    pub superseded: Vec<CheckpointEntry>,
}

/// Why the pool would not take a checkpoint.
#[derive(Debug, Clone, Copy, PartialEq, Eq, Structural)]
pub enum RetainRefused {
    /// The byte budget cannot hold the image.
    Budget,
    /// The state was produced under an identity this load does not accept.
    Identity(IdentityMismatch),
    /// The tier named is not one this load carries.
    UnknownTier(ReuseSource),
}

impl RetainRefused {
    pub open spec fn text(self) -> Seq<char> {
        match self {
            RetainRefused::Budget => "the retained pool's byte budget is full"@,
            RetainRefused::Identity(mismatch) => mismatch.text(),
            RetainRefused::UnknownTier(ReuseSource::Device) => "this load has no device tier"@,
            RetainRefused::UnknownTier(ReuseSource::KvRam) => "this load has no kv_ram tier"@,
        }
    }

    /// The refusal in words.
    pub fn message(&self) -> (text: String)
        ensures
            text@ == self.text(),
            *self == RetainRefused::Budget ==> text@ == "the retained pool's byte budget is full"@,
            *self == RetainRefused::UnknownTier(ReuseSource::Device) ==> text@
                == "this load has no device tier"@,
            *self == RetainRefused::UnknownTier(ReuseSource::KvRam) ==> text@
                == "this load has no kv_ram tier"@,
    {
        match self {
            RetainRefused::Budget => "the retained pool's byte budget is full".to_owned(),
            RetainRefused::Identity(mismatch) => mismatch.message(),
            RetainRefused::UnknownTier(ReuseSource::Device) =>
                "this load has no device tier".to_owned(),
            RetainRefused::UnknownTier(ReuseSource::KvRam) =>
                "this load has no kv_ram tier".to_owned(),
        }
    }
}

/// What a claimant needs to be built against a checkpoint.
#[derive(Debug)]
pub struct CheckpointMatch {
    pub id: CheckpointId,
    pub publisher: RequestId,
    pub source: ReuseSource,
    pub prefix: PrefixId,
    /// Leading prompt tokens the claimant skips.
    pub tokens: u32,
    /// Whole KV pages the claimant's reservation shrinks by.
    pub pages: u32,
    pub gdn: GdnState,
}

impl CheckpointMatch {
    /// This match is of `entry`.
    pub open spec fn is_of(self, entry: CheckpointEntry) -> bool {
        &&& self.id == entry.id
        &&& self.publisher == entry.publisher
        &&& self.source == entry.tier
        &&& self.prefix == entry.prefix
        &&& self.tokens == entry.tokens
        &&& self.pages == entry.pages
        &&& self.gdn@ == entry.gdn@
    }

    fn of(entry: &CheckpointEntry) -> (m: CheckpointMatch)
        ensures
            m.is_of(*entry),
    {
        CheckpointMatch {
            id: entry.id,
            publisher: entry.publisher,
            source: entry.tier,
            prefix: entry.prefix,
            tokens: entry.tokens,
            pages: entry.pages,
            gdn: entry.gdn.clone(),
        }
    }
}

/// The pool's lifetime counters; each stays at its ceiling once there.
#[derive(Debug, Clone, Copy, PartialEq, Eq, Structural)]
pub struct CheckpointCounters {
    /// Checkpoints captured and retained.
    pub captures: u64,
    /// Captures the byte budget refused.
    pub skipped_captures: u64,
    /// Blobs refused on their identity or their tier.
    pub refused_blobs: u64,
    /// Entries discarded.
    pub discards: u64,
    /// Prompt tokens skipped through a retained checkpoint.
    pub reused_tok: u64,
}

impl Default for CheckpointCounters {
    fn default() -> (counters: CheckpointCounters)
        ensures
            counters == (CheckpointCounters {
                captures: 0,
                skipped_captures: 0,
                refused_blobs: 0,
                discards: 0,
                reused_tok: 0,
            }),
    {
        CheckpointCounters {
            captures: 0,
            skipped_captures: 0,
            refused_blobs: 0,
            discards: 0,
            reused_tok: 0,
        }
    }
}

/// Image bytes of `entries`.
pub open spec fn image_bytes(entries: Seq<CheckpointEntry>) -> int
    decreases entries.len(),
{
    if entries.len() == 0 {
        0
    } else {
        image_bytes(entries.drop_last()) + entries.last().bytes
    }
}

proof fn image_bytes_without(entries: Seq<CheckpointEntry>, i: int)
    requires
        0 <= i < entries.len(),
    ensures
        image_bytes(entries) == image_bytes(entries.remove(i)) + entries[i].bytes,
    decreases entries.len(),
{
    if i < entries.len() - 1 {
        image_bytes_without(entries.drop_last(), i);
        assert(entries.remove(i).drop_last() =~= entries.drop_last().remove(i));
        assert(entries.remove(i).last() == entries.last());
    } else {
        assert(entries.remove(i) =~= entries.drop_last());
    }
}

proof fn image_bytes_is_a_size(entries: Seq<CheckpointEntry>)
    ensures
        image_bytes(entries) >= 0,
    decreases entries.len(),
{
    if entries.len() > 0 {
        image_bytes_is_a_size(entries.drop_last());
    }
}

proof fn image_bytes_by_size(a: Seq<CheckpointEntry>, b: Seq<CheckpointEntry>)
    requires
        a.len() == b.len(),
        forall|i: int| 0 <= i < a.len() ==> (#[trigger] a[i]).bytes == b[i].bytes,
    ensures
        image_bytes(a) == image_bytes(b),
    decreases a.len(),
{
    if a.len() > 0 {
        assert forall|i: int| 0 <= i < a.drop_last().len() implies (
        #[trigger] a.drop_last()[i]).bytes == b.drop_last()[i].bytes by {
            assert(a[i].bytes == b[i].bytes);
        }
        image_bytes_by_size(a.drop_last(), b.drop_last());
        assert(a[a.len() - 1].bytes == b[a.len() - 1].bytes);
    }
}

/// Whether an entry of the lineage follows position `i`.
pub open spec fn superseded_at(entries: Seq<CheckpointEntry>, lineage: LineageId, i: int) -> bool {
    exists|j: int| i < j < entries.len() && (#[trigger] entries[j]).lineage == lineage
}

/// Whether a turn-opening entry of the lineage follows position `i`.
pub open spec fn reopened_at(entries: Seq<CheckpointEntry>, lineage: LineageId, i: int) -> bool {
    exists|j: int|
        i < j < entries.len() && (#[trigger] entries[j]).lineage == lineage
            && entries[j].turn_opening
}

/// Whether the entry at `i` outlives its lineage's cut: it is of another
/// lineage, the latest of this one, or the newest turn-opening one of it.
pub open spec fn outlives_cut(entries: Seq<CheckpointEntry>, lineage: LineageId, i: int) -> bool {
    ||| entries[i].lineage != lineage
    ||| !superseded_at(entries, lineage, i)
    ||| entries[i].turn_opening && !reopened_at(entries, lineage, i)
}

/// Of the first `n` entries, those that outlive the cut of `lineage`.
pub open spec fn kept(entries: Seq<CheckpointEntry>, lineage: LineageId, n: int) -> Seq<
    CheckpointEntry,
>
    decreases n,
{
    if n <= 0 {
        Seq::empty()
    } else if outlives_cut(entries, lineage, n - 1) {
        kept(entries, lineage, n - 1).push(entries[n - 1])
    } else {
        kept(entries, lineage, n - 1)
    }
}

/// Of the first `n` entries, those the cut of `lineage` gives up.
pub open spec fn given_up(entries: Seq<CheckpointEntry>, lineage: LineageId, n: int) -> Seq<
    CheckpointEntry,
>
    decreases n,
{
    if n <= 0 {
        Seq::empty()
    } else if outlives_cut(entries, lineage, n - 1) {
        given_up(entries, lineage, n - 1)
    } else {
        given_up(entries, lineage, n - 1).push(entries[n - 1])
    }
}

/// Whether `entries` holds an entry with id `id`.
pub open spec fn holds_id(entries: Seq<CheckpointEntry>, id: CheckpointId) -> bool {
    exists|i: int| 0 <= i < entries.len() && (#[trigger] entries[i]).id == id
}

/// Where the entry with id `id` stands.
pub open spec fn place_of(entries: Seq<CheckpointEntry>, id: CheckpointId) -> int {
    choose|i: int| 0 <= i < entries.len() && (#[trigger] entries[i]).id == id
}

/// Ids ascend in capture order.
pub open spec fn ids_ascend(entries: Seq<CheckpointEntry>, bound: CheckpointId) -> bool {
    &&& forall|i: int| 0 <= i < entries.len() ==> (#[trigger] entries[i]).id < bound
    &&& forall|i: int, j: int|
        0 <= i < j < entries.len() ==> (#[trigger] entries[i]).id < (#[trigger] entries[j]).id
}

/// A conversation keeps at most two entries: a turn-opening one and a later
/// one that opens no turn, or a single one.
pub open spec fn at_most_two_each(entries: Seq<CheckpointEntry>) -> bool {
    &&& forall|i: int, j: int|
        0 <= i < j < entries.len() && (#[trigger] entries[i]).lineage == (
        #[trigger] entries[j]).lineage ==> entries[i].turn_opening && !entries[j].turn_opening
}

/// The lineage a capture joins: that of the entry its request claimed, while
/// it is still retained.
pub open spec fn joined_lineage(
    entries: Seq<CheckpointEntry>,
    claimed: Option<CheckpointId>,
) -> Option<LineageId> {
    match claimed {
        Some(id) => if holds_id(entries, id) {
            Some(entries[place_of(entries, id)].lineage)
        } else {
            None
        },
        None => None,
    }
}

/// Whether a discard for a live request may take `entry`.
pub open spec fn discardable(
    entry: CheckpointEntry,
    tier: ReuseSource,
    prefixes: Option<&[PrefixId]>,
) -> bool {
    &&& entry.tier == tier
    &&& prefixes matches Some(allowed) ==> allowed@.contains(entry.prefix)
}

/// The entry at `at` is the least recently used of those a discard may take,
/// the older capture among equals.
pub open spec fn is_discard_victim(
    entries: Seq<CheckpointEntry>,
    tier: ReuseSource,
    prefixes: Option<&[PrefixId]>,
    at: int,
) -> bool {
    &&& 0 <= at < entries.len()
    &&& discardable(entries[at], tier, prefixes)
    &&& forall|j: int|
        0 <= j < entries.len() && discardable(#[trigger] entries[j], tier, prefixes)
            ==> entries[at].use_tick < entries[j].use_tick || (entries[at].use_tick
            == entries[j].use_tick && entries[at].id <= entries[j].id)
}

/// Every entry is an image of some size, of state this load accepts.
pub open spec fn all_of_this_load(entries: Seq<CheckpointEntry>, identity: BlobIdentity) -> bool {
    forall|i: int|
        0 <= i < entries.len() ==> (#[trigger] entries[i]).bytes > 0 && identity.verdict_on(
            entries[i].identity,
        ) is Ok
}

/// How often the ledger was asked to retain something.
pub open spec fn attempts(counters: CheckpointCounters) -> int {
    counters.captures + counters.skipped_captures + counters.refused_blobs
}

/// The ledger of retained prompt checkpoints, bounded in image bytes.
#[derive(Debug)]
pub struct CheckpointPool {
    pub capacity_bytes: u64,
    pub used_bytes: u64,
    pub identity: BlobIdentity,
    pub tiers: TierList,
    /// The retained entries, in capture order.
    pub entries: Vec<CheckpointEntry>,
    pub next_id: CheckpointId,
    pub next_lineage: LineageId,
    pub counters: CheckpointCounters,
}

impl CheckpointPool {
    /// The ledger adds up: the bytes used are the entries' own and within
    /// budget, ids ascend, every entry is in a carried tier and of this load, no
    /// conversation keeps more than two, and everything captured is held or was
    /// discarded.
    pub open spec fn wf(self) -> bool {
        &&& self.tiers.wf()
        &&& self.used_bytes == image_bytes(self.entries@)
        &&& self.used_bytes <= self.capacity_bytes
        &&& ids_ascend(self.entries@, self.next_id)
        &&& forall|i: int|
            0 <= i < self.entries@.len() ==> (#[trigger] self.entries@[i]).lineage
                < self.next_lineage
        &&& self.next_lineage <= self.next_id
        &&& forall|i: int|
            0 <= i < self.entries@.len() ==> self.tiers.carries((#[trigger] self.entries@[i]).tier)
        &&& at_most_two_each(self.entries@)
        &&& all_of_this_load(self.entries@, self.identity)
        &&& self.counters.captures == self.next_id
        &&& self.counters.captures == self.entries@.len() + self.counters.discards
    }

    /// Everything but the entries, the bytes they use and the counters.
    pub open spec fn same_terms(self, other: CheckpointPool) -> bool {
        &&& self.capacity_bytes == other.capacity_bytes
        &&& self.identity == other.identity
        &&& self.tiers == other.tiers
        &&& self.next_id == other.next_id
        &&& self.next_lineage == other.next_lineage
    }

    /// The counters after `n` more discards.
    pub open spec fn discarded(self, n: int) -> CheckpointCounters {
        CheckpointCounters { discards: sat_u64(self.counters.discards + n) as u64, ..self.counters }
    }

    /// A pool on the device alone, for state produced under no identity.
    pub fn new(capacity_bytes: u64) -> (pool: CheckpointPool)
        ensures
            pool.wf(),
            pool.entries@.len() == 0,
            pool.capacity_bytes == capacity_bytes,
            pool.identity.is_unset(),
            pool.tiers.order@ == seq![ResidencyTier { source: ReuseSource::Device, restore_floor_tokens: 0 }],
            pool.next_id == 0,
            pool.counters == (CheckpointCounters {
                captures: 0,
                skipped_captures: 0,
                refused_blobs: 0,
                discards: 0,
                reused_tok: 0,
            }),
    {
        CheckpointPool::with_identity(capacity_bytes, BlobIdentity::unset())
    }

    /// A pool on the device alone, for state produced under `identity`.
    pub fn with_identity(capacity_bytes: u64, identity: BlobIdentity) -> (pool: CheckpointPool)
        ensures
            pool.wf(),
            pool.entries@.len() == 0,
            pool.capacity_bytes == capacity_bytes,
            pool.identity == identity,
            pool.tiers.order@ == seq![ResidencyTier { source: ReuseSource::Device, restore_floor_tokens: 0 }],
            pool.next_id == 0,
            pool.counters == (CheckpointCounters {
                captures: 0,
                skipped_captures: 0,
                refused_blobs: 0,
                discards: 0,
                reused_tok: 0,
            }),
    {
        CheckpointPool::with_tiers(capacity_bytes, identity, TierList::device_only())
    }

    /// A pool for state produced under `identity`, across `tiers`.
    pub fn with_tiers(capacity_bytes: u64, identity: BlobIdentity, tiers: TierList) -> (pool:
        CheckpointPool)
        requires
            tiers.wf(),
        ensures
            pool.wf(),
            pool.entries@.len() == 0,
            pool.capacity_bytes == capacity_bytes,
            pool.identity == identity,
            pool.tiers == tiers,
            pool.next_id == 0,
            pool.counters == (CheckpointCounters {
                captures: 0,
                skipped_captures: 0,
                refused_blobs: 0,
                discards: 0,
                reused_tok: 0,
            }),
    {
        CheckpointPool {
            capacity_bytes,
            used_bytes: 0,
            identity,
            tiers,
            entries: Vec::new(),
            next_id: 0,
            next_lineage: 0,
            counters: CheckpointCounters {
                captures: 0,
                skipped_captures: 0,
                refused_blobs: 0,
                discards: 0,
                reused_tok: 0,
            },
        }
    }

    /// The pool's byte budget.
    pub fn capacity_bytes(&self) -> (bytes: u64)
        ensures
            bytes == self.capacity_bytes,
    {
        self.capacity_bytes
    }

    /// The identity state retained here was produced under.
    pub fn identity(&self) -> (identity: BlobIdentity)
        ensures
            identity == self.identity,
    {
        self.identity
    }

    /// The residency tiers this pool retains state across.
    pub fn tiers(&self) -> (tiers: &TierList)
        ensures
            *tiers == self.tiers,
    {
        &self.tiers
    }

    /// Image bytes the retained entries occupy.
    pub fn used_bytes(&self) -> (bytes: u64)
        ensures
            bytes == self.used_bytes,
            self.wf() ==> bytes == image_bytes(self.entries@),
    {
        self.used_bytes
    }

    /// Retained entries.
    pub fn entry_count(&self) -> (n: usize)
        ensures
            n == self.entries@.len(),
    {
        self.entries.len()
    }

    /// The retained entries, in capture order.
    pub fn entries(&self) -> (entries: &[CheckpointEntry])
        ensures
            entries@ == self.entries@,
    {
        self.entries.as_slice()
    }

    /// Whether a checkpoint over exactly the content `key` names is retained.
    pub fn holds(&self, key: MatchKey) -> (held: bool)
        ensures
            held == exists|i: int| 0 <= i < self.entries@.len() && (#[trigger] self.entries@[i]).key == key,
    {
        let mut i: usize = 0;
        while i < self.entries.len()
            invariant
                i <= self.entries@.len(),
                forall|j: int| 0 <= j < i ==> (#[trigger] self.entries@[j]).key != key,
            decreases self.entries@.len() - i,
        {
            if self.entries[i].key == key {
                return true;
            }
            i = i + 1;
        }
        false
    }

    /// Whether the byte budget can take one more image of `bytes`.
    pub fn admits(&self, bytes: u64) -> (admitted: bool)
        ensures
            admitted == (bytes > 0 && sat_u64(self.used_bytes + bytes) <= self.capacity_bytes),
    {
        bytes > 0 && self.used_bytes.saturating_add(bytes) <= self.capacity_bytes
    }

    /// Refuse a header whose state was not produced by this load.
    pub fn accepts(&self, header: &BlobHeader) -> (verdict: Result<(), IdentityMismatch>)
        ensures
            verdict == self.identity.verdict_on(header.identity),
    {
        self.identity.accepts(&header.identity)
    }

    /// Where the entry with id `id` stands.
    pub fn find(&self, id: CheckpointId) -> (place: Option<usize>)
        ensures
            place is Some <==> holds_id(self.entries@, id),
            place matches Some(i) ==> i < self.entries@.len() && self.entries@[i as int].id == id,
            self.wf() ==> (place matches Some(i) ==> i as int == place_of(self.entries@, id)),
    {
        let mut i: usize = 0;
        while i < self.entries.len()
            invariant
                i <= self.entries@.len(),
                forall|j: int| 0 <= j < i ==> (#[trigger] self.entries@[j]).id != id,
            decreases self.entries@.len() - i,
        {
            if self.entries[i].id == id {
                proof {
                    assert(holds_id(self.entries@, id));
                    let p = place_of(self.entries@, id);
                    assert(self.entries@[p].id == id);
                    if self.wf() && p != i {
                        if p < i {
                            assert(self.entries@[p].id < self.entries@[i as int].id);
                        } else {
                            assert(self.entries@[i as int].id < self.entries@[p].id);
                        }
                    }
                }
                return Some(i);
            }
            i = i + 1;
        }
        None
    }

    /// Take the entry at `at` out of the ledger.
    fn remove_at(&mut self, at: usize) -> (entry: CheckpointEntry)
        requires
            old(self).wf(),
            at < old(self).entries@.len(),
        ensures
            final(self).wf(),
            final(self).same_terms(*old(self)),
            entry == old(self).entries@[at as int],
            final(self).entries@ == old(self).entries@.remove(at as int),
            final(self).counters == old(self).discarded(1),
    {
        let ghost before = self.entries@;
        let entry = self.entries.remove(at);
        proof {
            image_bytes_without(before, at as int);
            image_bytes_is_a_size(self.entries@);
            let after = self.entries@;
            assert(after == before.remove(at as int));
            assert forall|i: int| 0 <= i < after.len() implies (#[trigger] after[i]) == before[if i
                < at {
                i
            } else {
                i + 1
            }] by {}
        }
        self.used_bytes = self.used_bytes.saturating_sub(entry.bytes);
        self.counters.discards = self.counters.discards.saturating_add(1);
        entry
    }

    /// Discard the entry `id`, if it is still retained.
    pub fn discard(&mut self, id: CheckpointId) -> (entry: Option<CheckpointEntry>)
        requires
            old(self).wf(),
        ensures
            final(self).wf(),
            final(self).same_terms(*old(self)),
            entry is Some <==> holds_id(old(self).entries@, id),
            entry is None ==> *final(self) == *old(self),
            entry matches Some(e) ==> {
                let at = place_of(old(self).entries@, id);
                &&& e == old(self).entries@[at]
                &&& e.id == id
                &&& final(self).entries@ == old(self).entries@.remove(at)
                &&& final(self).counters == old(self).discarded(1)
            },
    {
        match self.find(id) {
            Some(at) => Some(self.remove_at(at)),
            None => None,
        }
    }

    /// Discard the least recently used device entry.
    pub fn discard_victim(&mut self) -> (entry: Option<CheckpointEntry>)
        requires
            old(self).wf(),
        ensures
            final(self).wf(),
            final(self).same_terms(*old(self)),
            victim_was_discarded(*old(self), ReuseSource::Device, None, entry, *final(self)),
    {
        self.discard_victim_on(None)
    }

    /// Discard the least recently used device entry standing on one of
    /// `prefixes` (`None` means any).
    pub fn discard_victim_on(&mut self, prefixes: Option<&[PrefixId]>) -> (entry: Option<
        CheckpointEntry,
    >)
        requires
            old(self).wf(),
        ensures
            final(self).wf(),
            final(self).same_terms(*old(self)),
            victim_was_discarded(*old(self), ReuseSource::Device, prefixes, entry, *final(self)),
    {
        self.discard_victim_in(ReuseSource::Device, prefixes)
    }

    /// Discard the least recently used entry of one tier.
    pub fn discard_victim_in(&mut self, tier: ReuseSource, prefixes: Option<&[PrefixId]>) -> (entry:
        Option<CheckpointEntry>)
        requires
            old(self).wf(),
        ensures
            final(self).wf(),
            final(self).same_terms(*old(self)),
            victim_was_discarded(*old(self), tier, prefixes, entry, *final(self)),
    {
        let mut best: Option<usize> = None;
        let mut i: usize = 0;
        while i < self.entries.len()
            invariant
                i <= self.entries@.len(),
                self.wf(),
                *self == *old(self),
                best is None ==> forall|j: int|
                    0 <= j < i ==> !discardable(#[trigger] self.entries@[j], tier, prefixes),
                best matches Some(at) ==> at < i && is_discard_victim(
                    self.entries@.take(i as int),
                    tier,
                    prefixes,
                    at as int,
                ),
            decreases self.entries@.len() - i,
        {
            let entry = &self.entries[i];
            let allowed: bool = match prefixes {
                Some(list) => named(list, entry.prefix),
                None => true,
            };
            let ghost seen = self.entries@.take(i as int);
            let ghost next = self.entries@.take(i + 1);
            proof {
                assert forall|j: int| 0 <= j < i implies #[trigger] next[j] == seen[j] by {}
                assert(next[i as int] == self.entries@[i as int]);
            }
            if entry.tier == tier && allowed {
                match best {
                    None => {
                        best = Some(i);
                    },
                    Some(at) => {
                        assert(seen[at as int] == self.entries@[at as int]);
                        assert(self.entries@[at as int].id < self.entries@[i as int].id);
                        if entry.use_tick < self.entries[at].use_tick {
                            best = Some(i);
                        }
                    },
                }
            }
            i = i + 1;
        }
        assert(self.entries@.take(self.entries@.len() as int) =~= self.entries@);
        match best {
            Some(at) => Some(self.remove_at(at)),
            None => None,
        }
    }

    /// Retain a checkpoint: an image just captured, or a blob adopted from a
    /// tier that outlives this load.
    pub fn retain(&mut self, capture: CheckpointCapture, use_tick: u64) -> (result: Result<
        Retained,
        RetainRefused,
    >)
        requires
            old(self).wf(),
            old(self).next_id < u64::MAX,
            old(self).used_bytes + capture.bytes <= u64::MAX || old(self).capacity_bytes < u64::MAX,
        ensures
            final(self).wf(),
            result matches Ok(retained) ==> {
                let e = final(self).entries@.last();
                &&& final(self).entries@.len() > 0
                &&& retained.id == old(self).next_id && e.id == retained.id
                &&& e.publisher == capture.publisher
                &&& e.key == capture.key && e.tokens == capture.tokens
                &&& e.prefix == capture.prefix && e.pages == capture.pages
                &&& e.bytes == capture.bytes && e.tier == capture.tier
                &&& e.gdn == capture.gdn && e.identity == capture.identity
                &&& e.turn_opening == capture.turn_opening
                &&& e.use_tick == use_tick
            },
            final(self).capacity_bytes == old(self).capacity_bytes,
            final(self).identity == old(self).identity,
            final(self).tiers == old(self).tiers,
            retain_left(*old(self), capture, use_tick, result, *final(self)),
            result is Ok <==> capture.identity == old(self).identity && old(self).tiers.carries(
                capture.tier,
            ) && capture.bytes > 0 && old(self).used_bytes + capture.bytes
                <= old(self).capacity_bytes,
            // Every attempt is counted, once.
            old(self).counters.skipped_captures < u64::MAX && old(self).counters.refused_blobs
                < u64::MAX ==> attempts(final(self).counters) == attempts(old(self).counters) + 1,
    {
        if let Err(mismatch) = self.identity.accepts(&capture.identity) {
            self.counters.refused_blobs = self.counters.refused_blobs.saturating_add(1);
            return Err(RetainRefused::Identity(mismatch));
        }
        if self.tiers.rank(capture.tier).is_none() {
            self.counters.refused_blobs = self.counters.refused_blobs.saturating_add(1);
            return Err(RetainRefused::UnknownTier(capture.tier));
        }
        if !self.admits(capture.bytes) {
            self.counters.skipped_captures = self.counters.skipped_captures.saturating_add(1);
            return Err(RetainRefused::Budget);
        }
        let ghost before = *self;
        let inherited: Option<LineageId> = match capture.claimed {
            Some(claimed) => match self.find(claimed) {
                Some(at) => Some(self.entries[at].lineage),
                None => None,
            },
            None => None,
        };
        let lineage: LineageId = match inherited {
            Some(lineage) => lineage,
            None => {
                let fresh: LineageId = self.next_lineage;
                self.next_lineage = self.next_lineage + 1;
                fresh
            },
        };
        proof {
            if let Some(claimed) = capture.claimed {
                if holds_id(before.entries@, claimed) {
                    let p = place_of(before.entries@, claimed);
                    assert(before.entries@[p].lineage < before.next_lineage);
                }
            }
        }
        let id: CheckpointId = self.next_id;
        self.next_id = self.next_id + 1;
        self.used_bytes = self.used_bytes + capture.bytes;
        self.counters.captures = self.counters.captures.saturating_add(1);
        self.entries.push(
            CheckpointEntry {
                id,
                publisher: capture.publisher,
                key: capture.key,
                tokens: capture.tokens,
                identity: capture.identity,
                tier: capture.tier,
                prefix: capture.prefix,
                pages: capture.pages,
                bytes: capture.bytes,
                gdn: capture.gdn,
                lineage,
                turn_opening: capture.turn_opening,
                use_tick,
                owner: RequestClass::Interactive,
                used_at: 0,
            },
        );
        proof {
            assert(self.entries@.drop_last() =~= before.entries@);
        }
        let superseded = self.cut_lineage_back(lineage);
        Ok(Retained { id, superseded })
    }

    /// Cut `lineage` back to its latest entry and its newest turn-opening one,
    /// and return the rest, oldest first.
    fn cut_lineage_back(&mut self, lineage: LineageId) -> (superseded: Vec<CheckpointEntry>)
        requires
            old(self).tiers.wf(),
            old(self).used_bytes == image_bytes(old(self).entries@),
            old(self).used_bytes <= old(self).capacity_bytes,
            ids_ascend(old(self).entries@, old(self).next_id),
            forall|i: int|
                0 <= i < old(self).entries@.len() ==> (#[trigger] old(self).entries@[i]).lineage
                    < old(self).next_lineage,
            old(self).next_lineage <= old(self).next_id,
            forall|i: int|
                0 <= i < old(self).entries@.len() ==> old(self).tiers.carries(
                    (#[trigger] old(self).entries@[i]).tier,
                ),
            forall|i: int, j: int|
                0 <= i < j < old(self).entries@.len() && (#[trigger] old(self).entries@[i]).lineage
                    == (#[trigger] old(self).entries@[j]).lineage && old(self).entries@[i].lineage
                    != lineage ==> old(self).entries@[i].turn_opening
                    && !old(self).entries@[j].turn_opening,
            all_of_this_load(old(self).entries@, old(self).identity),
            old(self).counters.captures == old(self).next_id,
            old(self).counters.captures == old(self).entries@.len() + old(self).counters.discards,
        ensures
            final(self).wf(),
            final(self).same_terms(*old(self)),
            final(self).entries@ == kept(
                old(self).entries@,
                lineage,
                old(self).entries@.len() as int,
            ),
            superseded@ == given_up(old(self).entries@, lineage, old(self).entries@.len() as int),
            final(self).counters == old(self).discarded(superseded@.len() as int),
    {
        let ghost all = self.entries@;
        let ghost terms = *self;
        // The last of the lineage, and its last turn-opening one.
        let mut latest: Option<CheckpointId> = None;
        let mut opening: Option<CheckpointId> = None;
        let mut i: usize = 0;
        while i < self.entries.len()
            invariant
                i <= self.entries@.len(),
                *self == *old(self),
                all == self.entries@,
                ids_ascend(all, self.next_id),
                match latest {
                    Some(id) => exists|j: int| #[trigger]
                        is_last_of(all, lineage, false, i as int, j) && all[j].id == id,
                    None => forall|j: int| 0 <= j < i ==> (#[trigger] all[j]).lineage != lineage,
                },
                match opening {
                    Some(id) => exists|j: int| #[trigger]
                        is_last_of(all, lineage, true, i as int, j) && all[j].id == id,
                    None => forall|j: int|
                        0 <= j < i ==> (#[trigger] all[j]).lineage != lineage
                            || !all[j].turn_opening,
                },
            decreases self.entries@.len() - i,
        {
            let ghost was_latest = latest;
            let ghost was_opening = opening;
            if self.entries[i].lineage == lineage {
                latest = Some(self.entries[i].id);
                assert(is_last_of(all, lineage, false, i + 1, i as int));
                if self.entries[i].turn_opening {
                    opening = Some(self.entries[i].id);
                    assert(is_last_of(all, lineage, true, i + 1, i as int));
                }
            }
            proof {
                if latest == was_latest {
                    if let Some(id) = latest {
                        let j = choose|j: int| #[trigger]
                            is_last_of(all, lineage, false, i as int, j) && all[j].id == id;
                        if all[i as int].lineage != lineage {
                            assert(is_last_of(all, lineage, false, i + 1, j));
                        }
                    }
                }
                if opening == was_opening {
                    if let Some(id) = opening {
                        let j = choose|j: int| #[trigger]
                            is_last_of(all, lineage, true, i as int, j) && all[j].id == id;
                        if !(all[i as int].lineage == lineage && all[i as int].turn_opening) {
                            assert(is_last_of(all, lineage, true, i + 1, j));
                        }
                    }
                }
            }
            i = i + 1;
        }
        let mut superseded: Vec<CheckpointEntry> = Vec::new();
        let mut at: usize = 0;
        let ghost mut n: int = 0;
        proof {
            assert(all.skip(0) =~= all);
            assert(kept(all, lineage, 0) + all.skip(0) =~= all);
        }
        while at < self.entries.len()
            invariant
                0 <= n <= all.len(),
                at == kept(all, lineage, n).len(),
                self.entries@ == kept(all, lineage, n) + all.skip(n),
                superseded@ == given_up(all, lineage, n),
                self.same_terms(terms),
                self.counters == terms.discarded(superseded@.len() as int),
                self.counters.captures == self.entries@.len() + self.counters.discards,
                self.used_bytes == image_bytes(self.entries@),
                self.used_bytes <= self.capacity_bytes,
                ids_ascend(all, self.next_id),
                match latest {
                    Some(id) => exists|j: int| #[trigger]
                        is_last_of(all, lineage, false, all.len() as int, j) && all[j].id == id,
                    None => forall|j: int|
                        0 <= j < all.len() ==> (#[trigger] all[j]).lineage != lineage,
                },
                match opening {
                    Some(id) => exists|j: int| #[trigger]
                        is_last_of(all, lineage, true, all.len() as int, j) && all[j].id == id,
                    None => forall|j: int|
                        0 <= j < all.len() ==> (#[trigger] all[j]).lineage != lineage
                            || !all[j].turn_opening,
                },
            decreases self.entries@.len() - at,
        {
            let entry = &self.entries[at];
            assert(*entry == all[n]) by {
                assert((kept(all, lineage, n) + all.skip(n))[at as int] == all.skip(n)[0]);
            }
            let keep: bool = entry.lineage != lineage || is_id(latest, entry.id) || is_id(
                opening,
                entry.id,
            );
            proof {
                survival_by_id(all, lineage, latest, opening, n, self.next_id);
                assert(all.skip(n).drop_first() =~= all.skip(n + 1));
            }
            if keep {
                proof {
                    assert(kept(all, lineage, n + 1) =~= kept(all, lineage, n).push(all[n]));
                    assert(kept(all, lineage, n).push(all[n]) + all.skip(n + 1) =~= kept(all, lineage, n)
                        + all.skip(n));
                }
                at = at + 1;
            } else {
                let ghost whole = self.entries@;
                let entry = self.entries.remove(at);
                proof {
                    image_bytes_without(whole, at as int);
                    image_bytes_is_a_size(self.entries@);
                    assert(self.entries@ =~= kept(all, lineage, n) + all.skip(n + 1));
                    assert(kept(all, lineage, n + 1) == kept(all, lineage, n));
                }
                self.used_bytes = self.used_bytes.saturating_sub(entry.bytes);
                self.counters.discards = self.counters.discards.saturating_add(1);
                superseded.push(entry);
            }
            proof {
                n = n + 1;
            }
        }
        proof {
            assert(n == all.len()) by {
                assert((kept(all, lineage, n) + all.skip(n)).len() == kept(all, lineage, n).len()
                    + (all.len() - n));
            }
            assert(self.entries@ =~= kept(all, lineage, n));
            kept_is_well_formed(all, lineage, n, self.next_id);
            assert forall|i: int| 0 <= i < self.entries@.len() implies (
            #[trigger] self.entries@[i]).lineage < self.next_lineage && self.tiers.carries(
                self.entries@[i].tier,
            ) && self.entries@[i].bytes > 0 && self.identity.verdict_on(
                self.entries@[i].identity,
            ) is Ok by {
                let j = kept_source(all, lineage, n, i);
                assert(self.entries@[i] == all[j]);
            }
        }
        superseded
    }

    /// Refresh `id`'s use and count the tokens skipped. The entry stays.
    pub fn record_claim(&mut self, id: CheckpointId, use_tick: u64)
        requires
            old(self).wf(),
        ensures
            final(self).wf(),
            final(self).same_terms(*old(self)),
            final(self).used_bytes == old(self).used_bytes,
            !holds_id(old(self).entries@, id) ==> *final(self) == *old(self),
            holds_id(old(self).entries@, id) ==> was_claimed(*old(self), id, use_tick, *final(self)),
    {
        let ghost before = *self;
        if let Some(at) = self.find(id) {
            let tokens: u32 = self.entries[at].tokens;
            self.entries[at].use_tick = use_tick;
            self.counters.reused_tok = self.counters.reused_tok.saturating_add(tokens as u64);
            proof {
                self.wf_after_update(before, at as int);
            }
        }
    }

    /// Changing nothing the ledger counts keeps it well-formed.
    proof fn wf_after_update(self, before: CheckpointPool, at: int)
        requires
            before.wf(),
            self.same_terms(before),
            self.used_bytes == before.used_bytes,
            0 <= at < before.entries@.len(),
            self.entries@.len() == before.entries@.len(),
            forall|i: int|
                0 <= i < before.entries@.len() && i != at ==> #[trigger] self.entries@[i]
                    == before.entries@[i],
            self.entries@[at].id == before.entries@[at].id,
            self.entries@[at].bytes == before.entries@[at].bytes,
            self.entries@[at].lineage == before.entries@[at].lineage,
            self.entries@[at].turn_opening == before.entries@[at].turn_opening,
            self.entries@[at].identity == before.entries@[at].identity,
            self.tiers.carries(self.entries@[at].tier),
            self.counters.captures == before.counters.captures,
            self.counters.discards == before.counters.discards,
        ensures
            self.wf(),
    {
        assert forall|i: int| 0 <= i < self.entries@.len() implies (
        #[trigger] self.entries@[i]).bytes == before.entries@[i].bytes && self.entries@[i].id
            == before.entries@[i].id && self.entries@[i].lineage == before.entries@[i].lineage
            && self.entries@[i].turn_opening == before.entries@[i].turn_opening
            && self.entries@[i].identity == before.entries@[i].identity by {}
        image_bytes_by_size(self.entries@, before.entries@);
    }

    /// The best retained checkpoint whose content is a prefix of `prompt`. A
    /// pure query.
    pub fn best_match(&self, prompt: &PromptContent<'_>) -> (best: Option<CheckpointMatch>)
        requires
            self.wf(),
            prompt.token_ids@.len() <= u32::MAX,
            prompt.token_ids@.len() < usize::MAX,
        ensures
            best is Some <==> best_in(*self, prompt.keys(), self.tiers.order@.len() as int) is Some,
            best matches Some(m) ==> m.is_of(
                self.entries@[best_in(
                    *self,
                    prompt.keys(),
                    self.tiers.order@.len() as int,
                )->Some_0],
            ),
    {
        let all = prompt.keys_within(prompt.tokens());
        assert(all.keys@ =~= prompt.keys()) by {
            assert forall|n: int| 0 <= n < all.keys@.len() implies all.keys@[n] == prompt.keys()[n] by {
                assert(all.at(n) == prompt.key(n));
            }
        }
        let mut best: Option<usize> = None;
        let mut t: usize = 0;
        while t < self.tiers.order.len()
            invariant
                self.wf(),
                t <= self.tiers.order@.len(),
                all.keys@ == prompt.keys(),
                best is Some <==> best_in(*self, prompt.keys(), t as int) is Some,
                best matches Some(b) ==> best_in(*self, prompt.keys(), t as int) == Some(b as int),
            decreases self.tiers.order@.len() - t,
        {
            let source: ReuseSource = self.tiers.order[t].source;
            let ghost above = best_in(*self, prompt.keys(), t as int);
            let mut i: usize = 0;
            proof {
                best_is_above(*self, prompt.keys(), t as int);
                rank_is_the_first(self.tiers.order@, source, 0);
            }
            while i < self.entries.len()
                invariant
                    self.wf(),
                    t < self.tiers.order@.len(),
                    i <= self.entries@.len(),
                    all.keys@ == prompt.keys(),
                    source == self.tiers.order@[t as int].source,
                    self.tiers.rank_of(source) == Some(t as int),
                    above == best_in(*self, prompt.keys(), t as int),
                    above matches Some(a) ==> 0 <= a < self.entries@.len() && (self.tiers.rank_of(
                        self.entries@[a].tier,
                    ) matches Some(r) && r < t),
                    best is Some <==> standing(*self, prompt.keys(), t as int, above, i as int) is Some,
                    best matches Some(b) ==> b < self.entries@.len() && standing(
                        *self,
                        prompt.keys(),
                        t as int,
                        above,
                        i as int,
                    ) == Some(b as int),
                decreases self.entries@.len() - i,
            {
                let entry = &self.entries[i];
                proof {
                    longest_is_a_match(*self, prompt.keys(), source, i as int);
                    longest_is_a_match(*self, prompt.keys(), source, i + 1);
                }
                if entry.tier == source && self.identity.accepts(&entry.identity).is_ok()
                    && all.matches_at(entry.key, entry.tokens) {
                    assert(offered(*self, prompt.keys(), source, i as int) || entry.tokens == 0);
                    let held: Option<(ReuseSource, u32)> = match best {
                        Some(b) => Some((self.entries[b].tier, self.entries[b].tokens)),
                        None => None,
                    };
                    if self.tiers.replaces(source, entry.tokens, held) {
                        best = Some(i);
                    }
                } else {
                    assert(!offered(*self, prompt.keys(), source, i as int));
                }
                i = i + 1;
            }
            t = t + 1;
        }
        match best {
            Some(b) => {
                proof {
                    best_is_above(*self, prompt.keys(), t as int);
                }
                Some(CheckpointMatch::of(&self.entries[b]))
            },
            None => None,
        }
    }

    /// The best match, recorded as claimed.
    pub fn claim(&mut self, prompt: &PromptContent<'_>, use_tick: u64) -> (matched: Option<
        CheckpointMatch,
    >)
        requires
            old(self).wf(),
            prompt.token_ids@.len() <= u32::MAX,
            prompt.token_ids@.len() < usize::MAX,
        ensures
            final(self).wf(),
            matched is Some <==> best_in(*old(self), prompt.keys(), old(self).tiers.order@.len() as int) is Some,
            matched is None ==> *final(self) == *old(self),
            matched matches Some(m) ==> {
                &&& m.is_of(
                    old(self).entries@[best_in(
                        *old(self),
                        prompt.keys(),
                        old(self).tiers.order@.len() as int,
                    )->Some_0],
                )
                &&& final(self).same_terms(*old(self))
                &&& final(self).used_bytes == old(self).used_bytes
                &&& was_claimed(*old(self), m.id, use_tick, *final(self))
            },
    {
        match self.best_match(prompt) {
            Some(matched) => {
                proof {
                    best_is_above(*self, prompt.keys(), self.tiers.order@.len() as int);
                    let b = best_in(*self, prompt.keys(), self.tiers.order@.len() as int)->Some_0;
                    assert(self.entries@[b].id == matched.id);
                }
                self.record_claim(matched.id, use_tick);
                Some(matched)
            },
            None => None,
        }
    }

    /// Prompt tokens claimants skipped through a retained checkpoint.
    pub fn reused_tok(&self) -> (tokens: u64)
        ensures
            tokens == self.counters.reused_tok,
    {
        self.counters.reused_tok
    }

    /// The lifetime counters.
    pub fn counters(&self) -> (counters: CheckpointCounters)
        ensures
            counters == self.counters,
    {
        self.counters
    }

    pub open spec fn refusing_blob(self) -> CheckpointCounters {
        CheckpointCounters {
            refused_blobs: sat_u64(self.counters.refused_blobs + 1) as u64,
            ..self.counters
        }
    }

    pub open spec fn skipping_capture(self) -> CheckpointCounters {
        CheckpointCounters {
            skipped_captures: sat_u64(self.counters.skipped_captures + 1) as u64,
            ..self.counters
        }
    }

    /// The KV pages of history the entries cover, each shared prefix counted
    /// once.
    pub fn retained_pages(&self) -> (pages: u32)
        requires
            prefix_pages(self.entries@, self.entries@.len() as int) <= u32::MAX,
        ensures
            pages == prefix_pages(self.entries@, self.entries@.len() as int),
    {
        let mut counted: Vec<PrefixId> = Vec::new();
        let mut pages: u32 = 0;
        let mut i: usize = 0;
        while i < self.entries.len()
            invariant
                i <= self.entries@.len(),
                prefix_pages(self.entries@, self.entries@.len() as int) <= u32::MAX,
                counted@ == prefixes_of(self.entries@, i as int),
                pages == prefix_pages(self.entries@, i as int),
            decreases self.entries@.len() - i,
        {
            proof {
                prefix_pages_grow(self.entries@, i + 1, self.entries@.len() as int);
            }
            let entry = &self.entries[i];
            if !named(counted.as_slice(), entry.prefix) {
                counted.push(entry.prefix);
                pages = pages + entry.pages;
            }
            i = i + 1;
        }
        pages
    }

    /// The distinct shared prefixes the entries stand on.
    pub fn retained_prefixes(&self) -> (out: Vec<PrefixId>)
        ensures
            out@ == prefixes_of(self.entries@, self.entries@.len() as int),
    {
        let mut out: Vec<PrefixId> = Vec::new();
        let mut i: usize = 0;
        while i < self.entries.len()
            invariant
                i <= self.entries@.len(),
                out@ == prefixes_of(self.entries@, i as int),
            decreases self.entries@.len() - i,
        {
            if !named(out.as_slice(), self.entries[i].prefix) {
                out.push(self.entries[i].prefix);
            }
            i = i + 1;
        }
        out
    }

    /// How many retained entries stand on `prefix`.
    pub fn retained_holders(&self, prefix: PrefixId) -> (n: u32)
        ensures
            n == holders_in(self.entries@, prefix) % 0x1_0000_0000,
    {
        let mut n: usize = 0;
        let mut i: usize = 0;
        while i < self.entries.len()
            invariant
                i <= self.entries@.len(),
                n == holders_in(self.entries@.take(i as int), prefix),
                n <= i,
            decreases self.entries@.len() - i,
        {
            assert(self.entries@.take(i + 1).drop_last() =~= self.entries@.take(i as int));
            if self.entries[i].prefix == prefix {
                n = n + 1;
            }
            i = i + 1;
        }
        assert(self.entries@.take(self.entries@.len() as int) =~= self.entries@);
        (n as u64 % 0x1_0000_0000) as u32
    }

    /// The longest match in each tier, for a prompt keyed by `keys`.
    pub fn lookup(&self, keys: &PromptKeys) -> (found: CheckpointLookup)
        ensures
            found.device == id_at(
                self.entries@,
                longest(*self, keys.keys@, ReuseSource::Device, self.entries@.len() as int),
            ),
            found.kv_ram == id_at(
                self.entries@,
                longest(*self, keys.keys@, ReuseSource::KvRam, self.entries@.len() as int),
            ),
    {
        CheckpointLookup {
            device: self.longest_in(keys, ReuseSource::Device),
            kv_ram: self.longest_in(keys, ReuseSource::KvRam),
        }
    }

    fn longest_in(&self, keys: &PromptKeys, source: ReuseSource) -> (found: Option<CheckpointId>)
        ensures
            found == id_at(
                self.entries@,
                longest(*self, keys.keys@, source, self.entries@.len() as int),
            ),
    {
        let mut best: Option<usize> = None;
        let mut i: usize = 0;
        while i < self.entries.len()
            invariant
                i <= self.entries@.len(),
                best is Some <==> longest(*self, keys.keys@, source, i as int) is Some,
                best matches Some(b) ==> b < i && longest(*self, keys.keys@, source, i as int) == Some(
                    b as int,
                ),
            decreases self.entries@.len() - i,
        {
            let entry = &self.entries[i];
            if entry.tier == source && entry.tokens > 0 && self.identity.accepts(
                &entry.identity,
            ).is_ok() && keys.matches_at(entry.key, entry.tokens) {
                match best {
                    None => {
                        best = Some(i);
                    },
                    Some(b) => {
                        if entry.tokens > self.entries[b].tokens {
                            best = Some(i);
                        }
                    },
                }
            }
            i = i + 1;
        }
        match best {
            Some(b) => Some(self.entries[b].id),
            None => None,
        }
    }

    /// Where `id` stands, while it is still in `tier`.
    pub fn still_in(&self, id: Option<CheckpointId>, tier: ReuseSource) -> (place: Option<usize>)
        requires
            self.wf(),
        ensures
            place is Some <==> resolved(*self, id, tier) is Some,
            place matches Some(i) ==> i < self.entries@.len() && resolved(*self, id, tier) == Some(
                i as int,
            ),
    {
        match id {
            Some(id) => match self.find(id) {
                Some(at) => {
                    if self.entries[at].tier == tier {
                        Some(at)
                    } else {
                        None
                    }
                },
                None => None,
            },
            None => None,
        }
    }

    /// The length of a looked-up match, 0 once it is gone.
    pub fn length_of(&self, id: Option<CheckpointId>, tier: ReuseSource) -> (tokens: u32)
        requires
            self.wf(),
        ensures
            tokens == resolved_tokens(*self, id, tier),
    {
        match self.still_in(id, tier) {
            Some(at) => self.entries[at].tokens,
            None => 0,
        }
    }

    /// The match worth taking where `device_prefix` tokens can already be
    /// shared on the device: one in host memory has to beat every device reuse
    /// by its restore floor.
    pub fn select(&self, lookup: &CheckpointLookup, device_prefix: u32) -> (chosen: Option<
        CheckpointMatch,
    >)
        requires
            self.wf(),
        ensures
            chosen is Some <==> selected(*self, *lookup, device_prefix) is Some,
            chosen matches Some(m) ==> {
                let at = selected(*self, *lookup, device_prefix)->Some_0;
                0 <= at < self.entries@.len() && m.is_of(self.entries@[at])
            },
    {
        let device = self.still_in(lookup.device, ReuseSource::Device);
        let mut on_device: u32 = device_prefix;
        if let Some(d) = device {
            if self.entries[d].tokens > on_device {
                on_device = self.entries[d].tokens;
            }
        }
        if let Some(rank) = self.tiers.rank(ReuseSource::KvRam) {
            if let Some(k) = self.still_in(lookup.kv_ram, ReuseSource::KvRam) {
                if self.entries[k].tokens >= on_device.saturating_add(
                    self.tiers.order[rank].restore_floor_tokens,
                ) {
                    return Some(CheckpointMatch::of(&self.entries[k]));
                }
            }
        }
        match device {
            Some(d) => Some(CheckpointMatch::of(&self.entries[d])),
            None => None,
        }
    }

    /// Move the entry `id` to another tier this load carries.
    pub fn move_to_tier(&mut self, id: CheckpointId, tier: ReuseSource) -> (moved: bool)
        requires
            old(self).wf(),
        ensures
            final(self).wf(),
            final(self).same_terms(*old(self)),
            final(self).used_bytes == old(self).used_bytes,
            final(self).counters == old(self).counters,
            moved == (holds_id(old(self).entries@, id) && old(self).tiers.carries(tier)),
            !moved ==> *final(self) == *old(self),
            moved ==> {
                let at = place_of(old(self).entries@, id);
                final(self).entries@ == old(self).entries@.update(
                    at,
                    CheckpointEntry { tier, ..old(self).entries@[at] },
                )
            },
    {
        let ghost before = *self;
        if self.tiers.rank(tier).is_none() {
            return false;
        }
        match self.find(id) {
            Some(at) => {
                self.entries[at].tier = tier;
                proof {
                    self.wf_after_update(before, at as int);
                }
                true
            },
            None => false,
        }
    }

    /// Note who captured `id` and when it was last used.
    pub fn note_owner(&mut self, id: CheckpointId, owner: RequestClass, used_at: u64)
        requires
            old(self).wf(),
        ensures
            final(self).wf(),
            final(self).same_terms(*old(self)),
            final(self).used_bytes == old(self).used_bytes,
            final(self).counters == old(self).counters,
            !holds_id(old(self).entries@, id) ==> *final(self) == *old(self),
            holds_id(old(self).entries@, id) ==> {
                let at = place_of(old(self).entries@, id);
                final(self).entries@ == old(self).entries@.update(
                    at,
                    CheckpointEntry { owner, used_at, ..old(self).entries@[at] },
                )
            },
    {
        let ghost before = *self;
        if let Some(at) = self.find(id) {
            self.entries[at].owner = owner;
            self.entries[at].used_at = used_at;
            proof {
                self.wf_after_update(before, at as int);
                let p = place_of(before.entries@, id);
                assert(self.entries@ =~= before.entries@.update(
                    p,
                    CheckpointEntry { owner, used_at, ..before.entries@[p] },
                ));
            }
        }
    }

    /// The device entry to give up for its slot: Agent before Interactive, the
    /// least recently used, never one that is claimed.
    pub fn retained_slot_victim(&self, claimed: &Vec<CheckpointId>) -> (victim: Option<usize>)
        requires
            self.wf(),
        ensures
            victim is None ==> forall|j: int|
                0 <= j < self.entries@.len() ==> !gives_a_slot(#[trigger] self.entries@[j], claimed@),
            victim matches Some(at) ==> is_slot_victim(self.entries@, claimed@, at as int),
    {
        let mut best: Option<usize> = None;
        let mut i: usize = 0;
        while i < self.entries.len()
            invariant
                i <= self.entries@.len(),
                best is None ==> forall|j: int|
                    0 <= j < i ==> !gives_a_slot(#[trigger] self.entries@[j], claimed@),
                best matches Some(at) ==> at < i && gives_a_slot(self.entries@[at as int], claimed@)
                    && forall|j: int|
                    0 <= j < i && gives_a_slot(#[trigger] self.entries@[j], claimed@)
                        ==> !cheaper_slot(self.entries@[j], self.entries@[at as int]),
            decreases self.entries@.len() - i,
        {
            let entry = &self.entries[i];
            if entry.tier == ReuseSource::Device && !named(claimed.as_slice(), entry.id) {
                match best {
                    None => {
                        best = Some(i);
                    },
                    Some(at) => {
                        let held = &self.entries[at];
                        let cheaper: bool = if entry.owner != held.owner {
                            entry.owner == RequestClass::Agent
                        } else if entry.use_tick != held.use_tick {
                            entry.use_tick < held.use_tick
                        } else {
                            entry.id < held.id
                        };
                        if cheaper {
                            best = Some(i);
                        }
                    },
                }
            }
            i = i + 1;
        }
        best
    }

    /// The device entry to give up for its pages: the least recently used of
    /// those whose prefix would come back, or that hold a tail page of their
    /// own and are not claimed.
    pub fn page_victim(
        &self,
        reclaimable: &Vec<PrefixId>,
        tails: &Vec<RequestId>,
        claimed: &Vec<CheckpointId>,
    ) -> (victim: Option<usize>)
        requires
            self.wf(),
        ensures
            victim is None ==> forall|j: int|
                0 <= j < self.entries@.len() ==> !gives_pages(
                    #[trigger] self.entries@[j],
                    reclaimable@,
                    tails@,
                    claimed@,
                ),
            victim matches Some(at) ==> is_page_victim(
                self.entries@,
                reclaimable@,
                tails@,
                claimed@,
                at as int,
            ),
    {
        let mut best: Option<usize> = None;
        let mut i: usize = 0;
        while i < self.entries.len()
            invariant
                i <= self.entries@.len(),
                best is None ==> forall|j: int|
                    0 <= j < i ==> !gives_pages(
                        #[trigger] self.entries@[j],
                        reclaimable@,
                        tails@,
                        claimed@,
                    ),
                best matches Some(at) ==> at < i && gives_pages(
                    self.entries@[at as int],
                    reclaimable@,
                    tails@,
                    claimed@,
                ) && forall|j: int|
                    0 <= j < i && gives_pages(
                        #[trigger] self.entries@[j],
                        reclaimable@,
                        tails@,
                        claimed@,
                    ) ==> !staler(self.entries@[j], self.entries@[at as int]),
            decreases self.entries@.len() - i,
        {
            let entry = &self.entries[i];
            if entry.tier == ReuseSource::Device && (named(reclaimable.as_slice(), entry.prefix) || (
            named(tails.as_slice(), entry.publisher) && !named(claimed.as_slice(), entry.id))) {
                match best {
                    None => {
                        best = Some(i);
                    },
                    Some(at) => {
                        let held = &self.entries[at];
                        if entry.use_tick < held.use_tick || (entry.use_tick == held.use_tick
                            && entry.id < held.id) {
                            best = Some(i);
                        }
                    },
                }
            }
            i = i + 1;
        }
        best
    }
}

/// Used less recently, or as recently and captured earlier.
pub open spec fn staler(a: CheckpointEntry, b: CheckpointEntry) -> bool {
    a.use_tick < b.use_tick || (a.use_tick == b.use_tick && a.id < b.id)
}

/// Cheaper to give up for its slot: Agent before Interactive, then staler.
pub open spec fn cheaper_slot(a: CheckpointEntry, b: CheckpointEntry) -> bool {
    if a.owner != b.owner {
        a.owner == RequestClass::Agent
    } else {
        staler(a, b)
    }
}

/// Whether giving `e` up returns a retained slot nothing is waiting on.
pub open spec fn gives_a_slot(e: CheckpointEntry, claimed: Seq<CheckpointId>) -> bool {
    e.tier == ReuseSource::Device && !claimed.contains(e.id)
}

/// Whether giving `e` up returns KV pages.
pub open spec fn gives_pages(
    e: CheckpointEntry,
    reclaimable: Seq<PrefixId>,
    tails: Seq<RequestId>,
    claimed: Seq<CheckpointId>,
) -> bool {
    e.tier == ReuseSource::Device && (reclaimable.contains(e.prefix) || (tails.contains(e.publisher)
        && !claimed.contains(e.id)))
}

pub open spec fn is_slot_victim(
    entries: Seq<CheckpointEntry>,
    claimed: Seq<CheckpointId>,
    at: int,
) -> bool {
    &&& 0 <= at < entries.len()
    &&& gives_a_slot(entries[at], claimed)
    &&& forall|j: int|
        0 <= j < entries.len() && gives_a_slot(#[trigger] entries[j], claimed) ==> !cheaper_slot(
            entries[j],
            entries[at],
        )
}

pub open spec fn is_page_victim(
    entries: Seq<CheckpointEntry>,
    reclaimable: Seq<PrefixId>,
    tails: Seq<RequestId>,
    claimed: Seq<CheckpointId>,
    at: int,
) -> bool {
    &&& 0 <= at < entries.len()
    &&& gives_pages(entries[at], reclaimable, tails, claimed)
    &&& forall|j: int|
        0 <= j < entries.len() && gives_pages(#[trigger] entries[j], reclaimable, tails, claimed)
            ==> !staler(entries[j], entries[at])
}

/// What a prompt found in each tier.
#[derive(Debug, Clone, Copy, PartialEq, Eq, Structural)]
pub struct CheckpointLookup {
    pub device: Option<CheckpointId>,
    pub kv_ram: Option<CheckpointId>,
}

/// The carried tiers a lookup found nothing in.
#[derive(Debug, Clone, Copy, PartialEq, Eq, Structural)]
pub struct RetainedMisses {
    pub device: bool,
    pub kv_ram: bool,
}

impl CheckpointLookup {
    /// The tiers of `tiers` this lookup found nothing in.
    pub fn misses(&self, tiers: &TierList) -> (misses: RetainedMisses)
        ensures
            misses.device == (tiers.carries(ReuseSource::Device) && self.device is None),
            misses.kv_ram == (tiers.carries(ReuseSource::KvRam) && self.kv_ram is None),
    {
        RetainedMisses {
            device: tiers.rank(ReuseSource::Device).is_some() && self.device.is_none(),
            kv_ram: tiers.rank(ReuseSource::KvRam).is_some() && self.kv_ram.is_none(),
        }
    }
}

/// The id of the entry at `at`.
pub open spec fn id_at(entries: Seq<CheckpointEntry>, at: Option<int>) -> Option<CheckpointId> {
    match at {
        Some(i) => Some(entries[i].id),
        None => None,
    }
}

/// Where `id` stands, while it is still in `tier`.
pub open spec fn resolved(
    pool: CheckpointPool,
    id: Option<CheckpointId>,
    tier: ReuseSource,
) -> Option<int> {
    match id {
        Some(id) => if holds_id(pool.entries@, id) && pool.entries@[place_of(
            pool.entries@,
            id,
        )].tier == tier {
            Some(place_of(pool.entries@, id))
        } else {
            None
        },
        None => None,
    }
}

/// The tokens a looked-up match covers, 0 once it is gone.
pub open spec fn resolved_tokens(
    pool: CheckpointPool,
    id: Option<CheckpointId>,
    tier: ReuseSource,
) -> u32 {
    match resolved(pool, id, tier) {
        Some(at) => pool.entries@[at].tokens,
        None => 0,
    }
}

/// The looked-up match worth taking beside `device_prefix` shared tokens.
pub open spec fn selected(
    pool: CheckpointPool,
    lookup: CheckpointLookup,
    device_prefix: u32,
) -> Option<int> {
    let device = resolved(pool, lookup.device, ReuseSource::Device);
    let kv_ram = resolved(pool, lookup.kv_ram, ReuseSource::KvRam);
    let device_tokens = resolved_tokens(pool, lookup.device, ReuseSource::Device);
    let on_device = if device_tokens > device_prefix { device_tokens } else { device_prefix };
    match (pool.tiers.rank_of(ReuseSource::KvRam), kv_ram) {
        (Some(rank), Some(k)) => if pool.entries@[k].tokens >= sat_u32(
            on_device + pool.tiers.order@[rank].restore_floor_tokens,
        ) {
            Some(k)
        } else {
            device
        },
        _ => device,
    }
}

/// The distinct prefixes of the first `n` entries, in capture order.
pub open spec fn prefixes_of(entries: Seq<CheckpointEntry>, n: int) -> Seq<PrefixId>
    decreases n,
{
    if n <= 0 {
        Seq::empty()
    } else {
        let before = prefixes_of(entries, n - 1);
        if before.contains(entries[n - 1].prefix) {
            before
        } else {
            before.push(entries[n - 1].prefix)
        }
    }
}

/// The pages of the distinct prefixes of the first `n` entries, each counted
/// once.
pub open spec fn prefix_pages(entries: Seq<CheckpointEntry>, n: int) -> int
    decreases n,
{
    if n <= 0 {
        0
    } else if prefixes_of(entries, n - 1).contains(entries[n - 1].prefix) {
        prefix_pages(entries, n - 1)
    } else {
        prefix_pages(entries, n - 1) + entries[n - 1].pages
    }
}

proof fn prefix_pages_grow(entries: Seq<CheckpointEntry>, m: int, n: int)
    requires
        m <= n,
    ensures
        prefix_pages(entries, m) <= prefix_pages(entries, n),
    decreases n - m,
{
    if m < n && n > 0 {
        prefix_pages_grow(entries, m, n - 1);
    }
}

/// How many entries stand on `prefix`.
pub open spec fn holders_in(entries: Seq<CheckpointEntry>, prefix: PrefixId) -> nat
    decreases entries.len(),
{
    if entries.len() == 0 {
        0
    } else {
        holders_in(entries.drop_last(), prefix) + (if entries.last().prefix == prefix {
            1nat
        } else {
            0
        })
    }
}

/// Whether `prefix` is in `list`.
fn named(list: &[PrefixId], prefix: PrefixId) -> (found: bool)
    ensures
        found == list@.contains(prefix),
{
    let mut i: usize = 0;
    while i < list.len()
        invariant
            i <= list@.len(),
            forall|j: int| 0 <= j < i ==> list@[j] != prefix,
        decreases list@.len() - i,
    {
        if list[i] == prefix {
            assert(list@[i as int] == prefix);
            return true;
        }
        i = i + 1;
    }
    false
}

fn is_id(id: Option<CheckpointId>, other: CheckpointId) -> (same: bool)
    ensures
        same == (id == Some(other)),
{
    match id {
        Some(id) => id == other,
        None => false,
    }
}

/// The entry at `j` is the last of the lineage (turn-opening, where `opening`)
/// among the first `n`.
pub open spec fn is_last_of(
    entries: Seq<CheckpointEntry>,
    lineage: LineageId,
    opening: bool,
    n: int,
    j: int,
) -> bool {
    &&& 0 <= j < n
    &&& entries[j].lineage == lineage
    &&& opening ==> entries[j].turn_opening
    &&& forall|k: int|
        j < k < n ==> (#[trigger] entries[k]).lineage != lineage || (opening
            && !entries[k].turn_opening)
}

proof fn survival_by_id(
    all: Seq<CheckpointEntry>,
    lineage: LineageId,
    latest: Option<CheckpointId>,
    opening: Option<CheckpointId>,
    n: int,
    bound: CheckpointId,
)
    requires
        ids_ascend(all, bound),
        0 <= n < all.len(),
        match latest {
            Some(id) => exists|j: int| #[trigger]
                is_last_of(all, lineage, false, all.len() as int, j) && all[j].id == id,
            None => forall|j: int| 0 <= j < all.len() ==> (#[trigger] all[j]).lineage != lineage,
        },
        match opening {
            Some(id) => exists|j: int| #[trigger]
                is_last_of(all, lineage, true, all.len() as int, j) && all[j].id == id,
            None => forall|j: int|
                0 <= j < all.len() ==> (#[trigger] all[j]).lineage != lineage
                    || !all[j].turn_opening,
        },
    ensures
        outlives_cut(all, lineage, n) == (all[n].lineage != lineage || latest == Some(all[n].id)
            || opening == Some(all[n].id)),
{
    if all[n].lineage == lineage {
        let id = latest->Some_0;
        let l = choose|j: int| #[trigger]
            is_last_of(all, lineage, false, all.len() as int, j) && all[j].id == id;
        if l != n {
            assert(l > n);
            assert(superseded_at(all, lineage, n));
            assert(all[n].id < all[l].id);
        } else {
            assert(!superseded_at(all, lineage, n));
        }
        if all[n].turn_opening {
            let oid = opening->Some_0;
            let o = choose|j: int| #[trigger]
                is_last_of(all, lineage, true, all.len() as int, j) && all[j].id == oid;
            if o != n {
                assert(o > n);
                assert(reopened_at(all, lineage, n));
                assert(all[n].id < all[o].id);
            } else {
                assert(!reopened_at(all, lineage, n));
            }
        } else if let Some(oid) = opening {
            let o = choose|j: int| #[trigger]
                is_last_of(all, lineage, true, all.len() as int, j) && all[j].id == oid;
            if o < n {
                assert(all[o].id < all[n].id);
            } else if o > n {
                assert(all[n].id < all[o].id);
            }
        }
    }
}

/// Where in `all` the `i`-th kept entry stood.
proof fn kept_source(all: Seq<CheckpointEntry>, lineage: LineageId, n: int, i: int) -> (j: int)
    requires
        0 <= n <= all.len(),
        0 <= i < kept(all, lineage, n).len(),
    ensures
        0 <= j < n,
        kept(all, lineage, n)[i] == all[j],
        outlives_cut(all, lineage, j),
    decreases n,
{
    if outlives_cut(all, lineage, n - 1) && i == kept(all, lineage, n).len() - 1 {
        n - 1
    } else {
        kept_source(all, lineage, n - 1, i)
    }
}

proof fn kept_is_well_formed(
    all: Seq<CheckpointEntry>,
    lineage: LineageId,
    n: int,
    bound: CheckpointId,
)
    requires
        ids_ascend(all, bound),
        0 <= n <= all.len(),
        forall|i: int, j: int|
            0 <= i < j < all.len() && (#[trigger] all[i]).lineage == (#[trigger] all[j]).lineage
                && all[i].lineage != lineage ==> all[i].turn_opening && !all[j].turn_opening,
    ensures
        ids_ascend(kept(all, lineage, n), bound),
        at_most_two_each(kept(all, lineage, n)),
    decreases n,
{
    if n > 0 {
        kept_is_well_formed(all, lineage, n - 1, bound);
        let was = kept(all, lineage, n - 1);
        let now = kept(all, lineage, n);
        if outlives_cut(all, lineage, n - 1) {
            let last = all[n - 1];
            assert forall|i: int| 0 <= i < was.len() implies (#[trigger] now[i]).id < last.id && (
            now[i].lineage == last.lineage ==> now[i].turn_opening && !last.turn_opening) by {
                let j = kept_source(all, lineage, n - 1, i);
                assert(now[i] == was[i]);
                assert(all[j].id < all[n - 1].id);
                if all[j].lineage == last.lineage && last.lineage == lineage {
                    assert(superseded_at(all, lineage, j));
                    if last.turn_opening {
                        assert(reopened_at(all, lineage, j));
                    }
                }
            }
        }
    }
}

/// `entry` is what [`CheckpointPool::discard_victim_in`] took from `before`.
pub open spec fn victim_was_discarded(
    before: CheckpointPool,
    tier: ReuseSource,
    prefixes: Option<&[PrefixId]>,
    entry: Option<CheckpointEntry>,
    after: CheckpointPool,
) -> bool {
    match entry {
        None => {
            &&& after == before
            &&& forall|j: int|
                0 <= j < before.entries@.len() ==> !discardable(
                    #[trigger] before.entries@[j],
                    tier,
                    prefixes,
                )
        },
        Some(e) => exists|at: int| #[trigger]
            is_discard_victim(before.entries@, tier, prefixes, at) && e == before.entries@[at]
                && after.entries@ == before.entries@.remove(at) && after.counters
                == before.discarded(1),
    }
}

/// `after` is `before` with `capture` retained as `retained.id`.
pub open spec fn was_retained(
    before: CheckpointPool,
    capture: CheckpointCapture,
    use_tick: u64,
    retained: Retained,
    after: CheckpointPool,
) -> bool {
    let joined = joined_lineage(before.entries@, capture.claimed);
    let lineage = match joined {
        Some(lineage) => lineage,
        None => before.next_lineage,
    };
    let entry = CheckpointEntry {
        id: before.next_id,
        publisher: capture.publisher,
        key: capture.key,
        tokens: capture.tokens,
        identity: capture.identity,
        tier: capture.tier,
        prefix: capture.prefix,
        pages: capture.pages,
        bytes: capture.bytes,
        gdn: capture.gdn,
        lineage,
        turn_opening: capture.turn_opening,
        use_tick,
        owner: RequestClass::Interactive,
        used_at: 0,
    };
    let all = before.entries@.push(entry);
    &&& retained.id == before.next_id
    &&& retained.superseded@ == given_up(all, lineage, all.len() as int)
    &&& after.entries@ == kept(all, lineage, all.len() as int)
    &&& after.next_id == before.next_id + 1
    &&& after.next_lineage == before.next_lineage + (if joined is None { 1int } else { 0 })
    &&& after.counters == (CheckpointCounters {
        captures: sat_u64(before.counters.captures + 1) as u64,
        discards: sat_u64(before.counters.discards + retained.superseded@.len()) as u64,
        ..before.counters
    })
}

/// What a call to retain `capture` answers and leaves. It is refused on its
/// identity, then its tier, then the budget.
pub open spec fn retain_left(
    before: CheckpointPool,
    capture: CheckpointCapture,
    use_tick: u64,
    result: Result<Retained, RetainRefused>,
    after: CheckpointPool,
) -> bool {
    &&& result is Err ==> after.same_terms(before) && after.entries@ == before.entries@
    &&& match before.identity.verdict_on(capture.identity) {
        Err(mismatch) => {
            &&& result matches Err(r) && r == RetainRefused::Identity(mismatch)
            &&& after.counters == before.refusing_blob()
        },
        Ok(_) => if !before.tiers.carries(capture.tier) {
            &&& result matches Err(r) && r == RetainRefused::UnknownTier(capture.tier)
            &&& after.counters == before.refusing_blob()
        } else if !(capture.bytes > 0 && sat_u64(before.used_bytes + capture.bytes)
            <= before.capacity_bytes) {
            &&& result matches Err(r) && r == RetainRefused::Budget
            &&& after.counters == before.skipping_capture()
        } else {
            &&& result is Ok
            &&& was_retained(before, capture, use_tick, result->Ok_0, after)
        },
    }
}

/// `after` is `before` with `id` claimed at `use_tick`.
pub open spec fn was_claimed(
    before: CheckpointPool,
    id: CheckpointId,
    use_tick: u64,
    after: CheckpointPool,
) -> bool {
    let at = place_of(before.entries@, id);
    &&& holds_id(before.entries@, id)
    &&& after.entries@ == before.entries@.update(
        at,
        CheckpointEntry { use_tick, ..before.entries@[at] },
    )
    &&& after.counters == (CheckpointCounters {
        reused_tok: sat_u64(before.counters.reused_tok + before.entries@[at].tokens) as u64,
        ..before.counters
    })
}

/// Whether the entry at `i` is one a prompt keyed by `keys` may reuse in `source`: the load
/// accepts it, and its content is a nonempty prefix of the prompt.
pub open spec fn offered(
    pool: CheckpointPool,
    keys: Seq<MatchKey>,
    source: ReuseSource,
    i: int,
) -> bool {
    let e = pool.entries@[i];
    &&& e.tier == source
    &&& pool.identity.verdict_on(e.identity) is Ok
    &&& 0 < e.tokens < keys.len()
    &&& e.key == keys[e.tokens as int]
}

/// The longest entry of the first `n` that the prompt may reuse in `source`, the
/// older capture among equals.
pub open spec fn longest(
    pool: CheckpointPool,
    keys: Seq<MatchKey>,
    source: ReuseSource,
    n: int,
) -> Option<int>
    decreases n,
{
    if n <= 0 {
        None
    } else {
        let before = longest(pool, keys, source, n - 1);
        if offered(pool, keys, source, n - 1) && (before matches Some(b) ==> pool.entries@[n
            - 1].tokens > pool.entries@[b].tokens) {
            Some(n - 1)
        } else {
            before
        }
    }
}

proof fn longest_is_a_match(
    pool: CheckpointPool,
    keys: Seq<MatchKey>,
    source: ReuseSource,
    n: int,
)
    requires
        0 <= n <= pool.entries@.len(),
    ensures
        longest(pool, keys, source, n) matches Some(i) ==> 0 <= i < n && offered(
            pool,
            keys,
            source,
            i,
        ),
        longest(pool, keys, source, n) matches Some(i) ==> forall|j: int|
            0 <= j < n && #[trigger] offered(pool, keys, source, j) ==> pool.entries@[j].tokens
                <= pool.entries@[i].tokens,
        longest(pool, keys, source, n) is None ==> forall|j: int|
            0 <= j < n ==> !#[trigger] offered(pool, keys, source, j),
    decreases n,
{
    if n > 0 {
        longest_is_a_match(pool, keys, source, n - 1);
    }
}

/// What stands once the first `n` entries of tier `t` were weighed against
/// `above`, the best of the tiers over it.
pub open spec fn standing(
    pool: CheckpointPool,
    keys: Seq<MatchKey>,
    t: int,
    above: Option<int>,
    n: int,
) -> Option<int> {
    let source = pool.tiers.order@[t].source;
    match longest(pool, keys, source, n) {
        None => above,
        Some(i) => {
            let held = match above {
                Some(a) => Some((pool.entries@[a].tier, pool.entries@[a].tokens)),
                None => None,
            };
            if takes_over(pool.tiers.order@, source, pool.entries@[i].tokens, held) {
                Some(i)
            } else {
                above
            }
        },
    }
}

/// The entry a prompt reuses across the first `k` tiers: the longest match of
/// each tier in turn, taken where it is worth taking over the best above it.
pub open spec fn best_in(pool: CheckpointPool, keys: Seq<MatchKey>, k: int) -> Option<int>
    decreases k,
{
    if k <= 0 {
        None
    } else {
        standing(pool, keys, k - 1, best_in(pool, keys, k - 1), pool.entries@.len() as int)
    }
}

proof fn best_is_above(pool: CheckpointPool, keys: Seq<MatchKey>, k: int)
    requires
        pool.wf(),
        0 <= k <= pool.tiers.order@.len(),
    ensures
        best_in(pool, keys, k) matches Some(i) ==> 0 <= i < pool.entries@.len() && offered(
            pool,
            keys,
            pool.entries@[i].tier,
            i,
        ) && (pool.tiers.rank_of(pool.entries@[i].tier) matches Some(r) && r < k),
    decreases k,
{
    if k > 0 {
        best_is_above(pool, keys, k - 1);
        let source = pool.tiers.order@[k - 1].source;
        longest_is_a_match(pool, keys, source, pool.entries@.len() as int);
        rank_is_the_first(pool.tiers.order@, source, 0);
        if let Some(r) = pool.tiers.rank_of(source) {
            if r < k - 1 {
                assert(pool.tiers.order@[r].source != pool.tiers.order@[k - 1].source);
            }
        }
    }
}

/// Device bytes held back from the derived default.
pub const RETAINED_POOL_RESERVE_BYTES: u64 = 1024 * 1024 * 1024;

/// The most the derived default ever claims.
pub const MAX_AUTO_RETAINED_POOL_BYTES: u64 = 8 * 1024 * 1024 * 1024;

/// The default byte budget: half of the free device memory left after the
/// reserve, capped.
pub fn auto_retained_pool_bytes(free_device_bytes: u64) -> (bytes: u64)
    ensures
        free_device_bytes <= 0x4000_0000 ==> bytes == 0,
        bytes <= 0x2_0000_0000,
        free_device_bytes > 0x4000_0000 && bytes < 0x2_0000_0000 ==> 2 * bytes
            <= free_device_bytes - 0x4000_0000 <= 2 * bytes + 1,
        free_device_bytes >= 0x4_4000_0000 ==> bytes == 0x2_0000_0000,
        free_device_bytes <= RETAINED_POOL_RESERVE_BYTES ==> bytes == 0,
        free_device_bytes > RETAINED_POOL_RESERVE_BYTES ==> {
            let half = (free_device_bytes - RETAINED_POOL_RESERVE_BYTES) / 2;
            bytes == if half < MAX_AUTO_RETAINED_POOL_BYTES {
                half
            } else {
                MAX_AUTO_RETAINED_POOL_BYTES as int
            }
        },
{
    let half: u64 = free_device_bytes.saturating_sub(RETAINED_POOL_RESERVE_BYTES) / 2;
    if half < MAX_AUTO_RETAINED_POOL_BYTES {
        half
    } else {
        MAX_AUTO_RETAINED_POOL_BYTES
    }
}

/// Two ledgers that agree on everything a match reads offer the same match.
proof fn same_offers(a: CheckpointPool, b: CheckpointPool, keys: Seq<MatchKey>, k: int)
    requires
        agree_on_matches(a, b),
        0 <= k <= a.tiers.order@.len(),
        a.wf(),
        b.wf(),
    ensures
        best_in(a, keys, k) == best_in(b, keys, k),
    decreases k,
{
    if k > 0 {
        same_offers(a, b, keys, k - 1);
        same_longest(a, b, keys, a.tiers.order@[k - 1].source, a.entries@.len() as int);
        longest_is_a_match(a, keys, a.tiers.order@[k - 1].source, a.entries@.len() as int);
        best_is_above(a, keys, k - 1);
    }
}

proof fn same_longest(
    a: CheckpointPool,
    b: CheckpointPool,
    keys: Seq<MatchKey>,
    source: ReuseSource,
    n: int,
)
    requires
        agree_on_matches(a, b),
        0 <= n <= a.entries@.len(),
    ensures
        longest(a, keys, source, n) == longest(b, keys, source, n),
    decreases n,
{
    if n > 0 {
        same_longest(a, b, keys, source, n - 1);
        longest_is_a_match(a, keys, source, n - 1);
        assert(a.entries@[n - 1].tokens == b.entries@[n - 1].tokens);
        if let Some(i) = longest(a, keys, source, n - 1) {
            assert(a.entries@[i].tokens == b.entries@[i].tokens);
        }
    }
}

pub open spec fn agree_on_matches(a: CheckpointPool, b: CheckpointPool) -> bool {
    &&& a.identity == b.identity
    &&& a.tiers == b.tiers
    &&& a.entries@.len() == b.entries@.len()
    &&& forall|i: int|
        0 <= i < a.entries@.len() ==> {
            &&& (#[trigger] a.entries@[i]).tokens == b.entries@[i].tokens
            &&& a.entries@[i].key == b.entries@[i].key
            &&& a.entries@[i].tier == b.entries@[i].tier
            &&& a.entries@[i].identity == b.entries@[i].identity
        }
}

/// A claim does not consume: whatever was claimed, every prompt matches after
/// it exactly what it matched before.
pub proof fn a_claim_leaves_every_match(
    before: CheckpointPool,
    id: CheckpointId,
    use_tick: u64,
    after: CheckpointPool,
    keys: Seq<MatchKey>,
)
    requires
        before.wf(),
        after.wf(),
        after.same_terms(before),
        was_claimed(before, id, use_tick, after),
    ensures
        after.entries@.len() == before.entries@.len(),
        best_in(after, keys, after.tiers.order@.len() as int) == best_in(
            before,
            keys,
            before.tiers.order@.len() as int,
        ),
{
    same_offers(after, before, keys, before.tiers.order@.len() as int);
}

/// A match is a retained entry this very load produced, whose content is a
/// prefix of the prompt, and the longest such entry of its tier.
pub proof fn a_match_is_identical_history(pool: CheckpointPool, keys: Seq<MatchKey>, other: int)
    requires
        pool.wf(),
        best_in(pool, keys, pool.tiers.order@.len() as int) is Some,
        0 <= other < pool.entries@.len(),
    ensures
        ({
            let at = best_in(pool, keys, pool.tiers.order@.len() as int)->Some_0;
            let e = pool.entries@[at];
            &&& 0 <= at < pool.entries@.len()
            &&& e.identity == pool.identity
            &&& 0 < e.tokens < keys.len()
            &&& e.key == keys[e.tokens as int]
            &&& offered(pool, keys, e.tier, other) ==> pool.entries@[other].tokens <= e.tokens
        }),
{
    best_is_above(pool, keys, pool.tiers.order@.len() as int);
    best_is_the_longest_of_its_tier(pool, keys, pool.tiers.order@.len() as int, other);
}

proof fn best_is_the_longest_of_its_tier(
    pool: CheckpointPool,
    keys: Seq<MatchKey>,
    k: int,
    other: int,
)
    requires
        pool.wf(),
        0 <= k <= pool.tiers.order@.len(),
        0 <= other < pool.entries@.len(),
    ensures
        best_in(pool, keys, k) matches Some(at) ==> (offered(
            pool,
            keys,
            pool.entries@[at].tier,
            other,
        ) ==> pool.entries@[other].tokens <= pool.entries@[at].tokens),
    decreases k,
{
    if k > 0 {
        best_is_the_longest_of_its_tier(pool, keys, k - 1, other);
        longest_is_a_match(
            pool,
            keys,
            pool.tiers.order@[k - 1].source,
            pool.entries@.len() as int,
        );
    }
}

/// Where any entry on the first tier matches a prompt, some entry is reused.
pub proof fn a_match_is_never_passed_over(pool: CheckpointPool, keys: Seq<MatchKey>, t: int, i: int)
    requires
        pool.wf(),
        0 <= t < pool.tiers.order@.len(),
        0 <= i < pool.entries@.len(),
        offered(pool, keys, pool.tiers.order@[t].source, i),
    ensures
        best_in(pool, keys, pool.tiers.order@.len() as int) is Some,
{
    match_stands(pool, keys, t, i, pool.tiers.order@.len() as int);
}

proof fn match_stands(pool: CheckpointPool, keys: Seq<MatchKey>, t: int, i: int, k: int)
    requires
        pool.wf(),
        0 <= t < k <= pool.tiers.order@.len(),
        0 <= i < pool.entries@.len(),
        offered(pool, keys, pool.tiers.order@[t].source, i),
    ensures
        best_in(pool, keys, k) is Some,
    decreases k,
{
    if t < k - 1 {
        match_stands(pool, keys, t, i, k - 1);
    } else {
        let source = pool.tiers.order@[t].source;
        longest_is_a_match(pool, keys, source, pool.entries@.len() as int);
        rank_is_the_first(pool.tiers.order@, source, 0);
    }
}

/// Retaining a capture displaces only entries of its own conversation, and
/// always keeps the capture itself.
pub proof fn other_conversations_are_left_alone(
    all: Seq<CheckpointEntry>,
    lineage: LineageId,
    i: int,
)
    requires
        0 <= i < all.len(),
        all[i].lineage != lineage || i == all.len() - 1,
    ensures
        kept(all, lineage, all.len() as int).contains(all[i]),
{
    assert(outlives_cut(all, lineage, i));
    kept_contains(all, lineage, all.len() as int, i);
}

proof fn kept_contains(all: Seq<CheckpointEntry>, lineage: LineageId, n: int, i: int)
    requires
        0 <= i < n <= all.len(),
        outlives_cut(all, lineage, i),
    ensures
        kept(all, lineage, n).contains(all[i]),
    decreases n,
{
    let now = kept(all, lineage, n);
    if i == n - 1 {
        assert(now[now.len() - 1] == all[i]);
    } else {
        kept_contains(all, lineage, n - 1, i);
        let was = kept(all, lineage, n - 1);
        let j = choose|j: int| 0 <= j < was.len() && was[j] == all[i];
        assert(now[j] == all[i]);
    }
}

/// No three entries of a well-formed pool belong to one conversation.
pub proof fn a_conversation_keeps_at_most_two(pool: CheckpointPool, i: int, j: int, k: int)
    requires
        pool.wf(),
        0 <= i < j < k < pool.entries@.len(),
        pool.entries@[i].lineage == pool.entries@[j].lineage,
    ensures
        pool.entries@[j].lineage != pool.entries@[k].lineage,
{
}

/// Every entry of a well-formed pool is an image of some size, of state the
/// load accepts, in a tier it carries; ids ascend in capture order.
pub proof fn every_entry_is_of_this_load(pool: CheckpointPool, i: int)
    requires
        pool.wf(),
        0 <= i < pool.entries@.len(),
    ensures
        pool.entries@[i].bytes > 0,
        pool.identity.verdict_on(pool.entries@[i].identity) is Ok,
        pool.tiers.carries(pool.entries@[i].tier),
        forall|j: int| 0 <= j < i ==> (#[trigger] pool.entries@[j]).id < pool.entries@[i].id,
{
}

/// Everything ever captured is held or was discarded, superseded entries among
/// the discarded.
pub proof fn captures_are_held_or_discarded(pool: CheckpointPool)
    requires
        pool.wf(),
    ensures
        pool.counters.captures == pool.entries@.len() + pool.counters.discards,
{
}

proof fn same_prefixes(a: Seq<CheckpointEntry>, b: Seq<CheckpointEntry>, n: int)
    requires
        n <= a.len(),
        n <= b.len(),
        forall|i: int| 0 <= i < n ==> #[trigger] a[i] == b[i],
    ensures
        prefixes_of(a, n) == prefixes_of(b, n),
    decreases n,
{
    if n > 0 {
        same_prefixes(a, b, n - 1);
        assert(a[n - 1] == b[n - 1]);
    }
}

/// The entry at `i` is the first on `prefix`.
pub open spec fn first_on(entries: Seq<CheckpointEntry>, prefix: PrefixId, i: int) -> bool {
    &&& 0 <= i < entries.len()
    &&& entries[i].prefix == prefix
    &&& forall|j: int| 0 <= j < i ==> (#[trigger] entries[j]).prefix != prefix
}

/// The holders of the first `m` prefixes of `list`, together.
pub open spec fn holders_of_all(
    entries: Seq<CheckpointEntry>,
    list: Seq<PrefixId>,
    m: int,
) -> int
    decreases m,
{
    if m <= 0 {
        0
    } else {
        holders_of_all(entries, list, m - 1) + holders_in(entries, list[m - 1])
    }
}

proof fn one_more_holder(entries: Seq<CheckpointEntry>, list: Seq<PrefixId>, m: int)
    requires
        entries.len() > 0,
        0 <= m <= list.len(),
        forall|a: int, b: int|
            0 <= a < b < list.len() ==> #[trigger] list[a] != #[trigger] list[b],
    ensures
        holders_of_all(entries, list, m) == holders_of_all(entries.drop_last(), list, m) + (
        if list.take(m).contains(entries.last().prefix) {
            1int
        } else {
            0
        }),
    decreases m,
{
    let p = entries.last().prefix;
    let front = list.take(m - 1);
    let whole = list.take(m);
    if m > 0 {
        one_more_holder(entries, list, m - 1);
        if list[m - 1] == p {
            assert(whole[m - 1] == p);
            if front.contains(p) {
                let k = choose|k: int| 0 <= k < front.len() && front[k] == p;
                assert(list[k] != list[m - 1]);
            }
        } else if front.contains(p) {
            let k = choose|k: int| 0 <= k < front.len() && front[k] == p;
            assert(whole[k] == p);
        } else if whole.contains(p) {
            let k = choose|k: int| 0 <= k < whole.len() && whole[k] == p;
            assert(front[k] == p);
        }
    }
}

proof fn same_holders_listed(
    entries: Seq<CheckpointEntry>,
    a: Seq<PrefixId>,
    b: Seq<PrefixId>,
    m: int,
)
    requires
        m <= a.len(),
        m <= b.len(),
        forall|i: int| 0 <= i < m ==> #[trigger] a[i] == b[i],
    ensures
        holders_of_all(entries, a, m) == holders_of_all(entries, b, m),
    decreases m,
{
    if m > 0 {
        same_holders_listed(entries, a, b, m - 1);
        assert(a[m - 1] == b[m - 1]);
    }
}

/// A prefix is listed exactly while some entry stands on it, and once; the
/// prefixes stand in the order of their first entries; and their holders
/// together are all the entries.
pub proof fn the_listed_prefixes_hold_every_entry(entries: Seq<CheckpointEntry>)
    ensures
        forall|a: int, b: int|
            0 <= a < b < prefixes_of(entries, entries.len() as int).len() ==> (
            #[trigger] prefixes_of(entries, entries.len() as int)[a]) != (
            #[trigger] prefixes_of(entries, entries.len() as int)[b]),
        forall|p: PrefixId| #[trigger]
            prefixes_of(entries, entries.len() as int).contains(p) <==> holders_in(entries, p) > 0,
        forall|a: int, i: int, b: int, j: int|
            0 <= a < b < prefixes_of(entries, entries.len() as int).len() && #[trigger] first_on(
                entries,
                prefixes_of(entries, entries.len() as int)[a],
                i,
            ) && #[trigger] first_on(
                entries,
                prefixes_of(entries, entries.len() as int)[b],
                j,
            ) ==> i < j,
        holders_of_all(
            entries,
            prefixes_of(entries, entries.len() as int),
            prefixes_of(entries, entries.len() as int).len() as int,
        ) == entries.len(),
    decreases entries.len(),
{
    let n = entries.len() as int;
    let list = prefixes_of(entries, n);
    if n > 0 {
        let rest = entries.drop_last();
        let p = entries.last().prefix;
        let was = prefixes_of(rest, n - 1);
        the_listed_prefixes_hold_every_entry(rest);
        same_prefixes(entries, rest, n - 1);
        assert(list == if was.contains(p) { was } else { was.push(p) });
        assert forall|a: int, b: int| 0 <= a < b < list.len() implies (#[trigger] list[a]) != (
        #[trigger] list[b]) by {
            assert(list[a] == was[a]);
            if b < was.len() {
                assert(list[b] == was[b]);
            } else {
                assert(was.contains(was[a]));
            }
        }
        assert forall|q: PrefixId| #[trigger] list.contains(q) <==> holders_in(entries, q) > 0 by {
            assert(was.contains(q) <==> holders_in(rest, q) > 0);
            if was.contains(q) {
                let k = choose|k: int| 0 <= k < was.len() && was[k] == q;
                assert(list[k] == q);
            }
            if q == p && !was.contains(p) {
                assert(list[was.len() as int] == p);
            }
            if list.contains(q) && !was.contains(q) {
                let k = choose|k: int| 0 <= k < list.len() && list[k] == q;
                if k < was.len() {
                    assert(was[k] == q);
                }
            }
        }
        assert forall|a: int, i: int, b: int, j: int|
            0 <= a < b < list.len() && #[trigger] first_on(entries, list[a], i)
                && #[trigger] first_on(entries, list[b], j) implies i < j by {
            assert(list[a] == was[a]);
            assert(was.contains(was[a]));
            if b < was.len() {
                assert(list[b] == was[b] && was.contains(was[b]));
                first_is_before_the_last(entries, was[a], i);
                first_is_before_the_last(entries, was[b], j);
                assert(first_on(rest, was[a], i) && first_on(rest, was[b], j));
            } else {
                first_is_before_the_last(entries, was[a], i);
                if j < n - 1 {
                    assert(rest[j].prefix == p);
                    an_entry_is_a_holder(rest, j);
                }
            }
        }
        one_more_holder(entries, list, list.len() as int);
        assert(list.take(list.len() as int) =~= list);
        assert(list.contains(p));
        same_holders_listed(rest, list, was, was.len() as int);
        if !was.contains(p) {
            assert(holders_in(rest, p) == 0);
            assert(list[was.len() as int] == p);
        }
    }
}

/// A prefix some earlier entry stands on has its first entry before the last.
proof fn first_is_before_the_last(entries: Seq<CheckpointEntry>, prefix: PrefixId, i: int)
    requires
        entries.len() > 0,
        first_on(entries, prefix, i),
        holders_in(entries.drop_last(), prefix) > 0,
    ensures
        i < entries.len() - 1,
        first_on(entries.drop_last(), prefix, i),
{
    let j = a_holder_is_an_entry(entries.drop_last(), prefix);
    assert(entries[j].prefix == prefix);
}

proof fn a_holder_is_an_entry(entries: Seq<CheckpointEntry>, prefix: PrefixId) -> (j: int)
    requires
        holders_in(entries, prefix) > 0,
    ensures
        0 <= j < entries.len(),
        entries[j].prefix == prefix,
    decreases entries.len(),
{
    if entries.last().prefix == prefix {
        entries.len() - 1
    } else {
        a_holder_is_an_entry(entries.drop_last(), prefix)
    }
}

proof fn an_entry_is_a_holder(entries: Seq<CheckpointEntry>, j: int)
    requires
        0 <= j < entries.len(),
    ensures
        holders_in(entries, entries[j].prefix) > 0,
    decreases entries.len(),
{
    if j < entries.len() - 1 {
        an_entry_is_a_holder(entries.drop_last(), j);
        assert(entries.drop_last()[j] == entries[j]);
    }
}

/// A discarded entry is gone, and gone once.
pub proof fn a_discarded_entry_is_gone(
    before: CheckpointPool,
    id: CheckpointId,
    after: CheckpointPool,
)
    requires
        before.wf(),
        holds_id(before.entries@, id),
        after.entries@ == before.entries@.remove(place_of(before.entries@, id)),
    ensures
        !holds_id(after.entries@, id),
{
    let at = place_of(before.entries@, id);
    if holds_id(after.entries@, id) {
        let j = place_of(after.entries@, id);
        let was = if j < at { j } else { j + 1 };
        assert(after.entries@[j] == before.entries@[was]);
        if was < at {
            assert(before.entries@[was].id < before.entries@[at].id);
        } else {
            assert(before.entries@[at].id < before.entries@[was].id);
        }
    }
}

/// A capture that was retained is the newest entry of the ledger.
pub proof fn a_capture_is_the_newest_entry(
    before: CheckpointPool,
    capture: CheckpointCapture,
    use_tick: u64,
    retained: Retained,
    after: CheckpointPool,
)
    requires
        was_retained(before, capture, use_tick, retained, after),
    ensures
        after.entries@.len() > 0,
        after.entries@.last().id == retained.id,
        after.entries@.last().key == capture.key,
        after.entries@.last().tokens == capture.tokens,
        holds_id(after.entries@, retained.id),
{
    let joined = joined_lineage(before.entries@, capture.claimed);
    let lineage = match joined {
        Some(lineage) => lineage,
        None => before.next_lineage,
    };
    let entry = CheckpointEntry {
        id: before.next_id,
        publisher: capture.publisher,
        key: capture.key,
        tokens: capture.tokens,
        identity: capture.identity,
        tier: capture.tier,
        prefix: capture.prefix,
        pages: capture.pages,
        bytes: capture.bytes,
        gdn: capture.gdn,
        lineage,
        turn_opening: capture.turn_opening,
        use_tick,
        owner: RequestClass::Interactive,
        used_at: 0,
    };
    let all = before.entries@.push(entry);
    let n = all.len() as int;
    assert(outlives_cut(all, lineage, n - 1));
    let now = kept(all, lineage, n);
    assert(now == kept(all, lineage, n - 1).push(all[n - 1]));
    assert(now[now.len() - 1].id == retained.id);
}

/// Between two tiers the lower has to beat the upper by its own restore floor,
/// whichever of the two is the candidate; inside one tier the longer wins; and
/// nothing is worth taking that is nothing.
pub proof fn a_lower_tier_has_to_beat_the_upper_by_its_floor(
    tiers: TierList,
    i: int,
    j: int,
    tokens: u32,
    held: u32,
)
    requires
        tiers.wf(),
        0 <= i < tiers.order@.len(),
        0 <= j < tiers.order@.len(),
        tokens > 0,
    ensures
        ({
            let order = tiers.order@;
            let taken = takes_over(order, order[i].source, tokens, Some((order[j].source, held)));
            &&& i == j ==> taken == (tokens > held)
            &&& i > j && held + order[i].restore_floor_tokens <= u32::MAX ==> taken == (tokens
                >= held + order[i].restore_floor_tokens)
            &&& i < j && tokens + order[j].restore_floor_tokens <= u32::MAX ==> taken == (tokens
                + order[j].restore_floor_tokens > held)
            &&& takes_over(order, order[i].source, tokens, None)
            &&& !takes_over(order, order[i].source, 0, None)
        }),
{
    let order = tiers.order@;
    rank_is_the_first(order, order[i].source, 0);
    rank_is_the_first(order, order[j].source, 0);
    let (a, b) = (tiers.rank_of(order[i].source), tiers.rank_of(order[j].source));
    if let Some(r) = a {
        if r < i {
            assert(order[r].source != order[i].source);
        }
    }
    if let Some(r) = b {
        if r < j {
            assert(order[r].source != order[j].source);
        }
    }
}

/// What a tier releases goes to the tier behind it, and nowhere from the last.
pub proof fn state_goes_down_one_tier(tiers: TierList, i: int)
    requires
        tiers.wf(),
        0 <= i < tiers.order@.len(),
    ensures
        i + 1 < tiers.order@.len() ==> tiers.next_below(tiers.order@[i].source) == Some(
            tiers.order@[i + 1].source,
        ),
        i + 1 == tiers.order@.len() ==> tiers.next_below(tiers.order@[i].source) is None,
        tiers.carries(tiers.order@[i].source),
{
    let order = tiers.order@;
    rank_is_the_first(order, order[i].source, 0);
    if let Some(r) = tiers.rank_of(order[i].source) {
        if r < i {
            assert(order[r].source != order[i].source);
        }
    }
}

/// The match found in a tier is of that tier, of state the load accepts, and has
/// the key of the prompt's own content at its length; no such match is longer,
/// and of those as long it is the oldest. Where none is found there is none.
pub proof fn the_longest_match_is_found(
    pool: CheckpointPool,
    keys: Seq<MatchKey>,
    source: ReuseSource,
    n: int,
    j: int,
)
    requires
        0 <= j < n <= pool.entries@.len(),
    ensures
        ({
            let entries = pool.entries@;
            let fits = |i: int|
                entries[i].tier == source && entries[i].identity == pool.identity && 0
                    < entries[i].tokens < keys.len() && keys[entries[i].tokens as int]
                    == entries[i].key;
            match longest(pool, keys, source, n) {
                Some(i) => {
                    &&& 0 <= i < n
                    &&& fits(i)
                    &&& fits(j) ==> entries[j].tokens < entries[i].tokens || (entries[j].tokens
                        == entries[i].tokens && i <= j)
                },
                None => !fits(j),
            }
        }),
    decreases n,
{
    longest_is_a_match(pool, keys, source, n);
    longest_is_a_match(pool, keys, source, n - 1);
    crate::identity::only_the_same_load_is_accepted(pool.identity, pool.entries@[j].identity);
    crate::identity::only_the_same_load_is_accepted(pool.identity, pool.entries@[n - 1].identity);
    if let Some(i) = longest(pool, keys, source, n) {
        crate::identity::only_the_same_load_is_accepted(pool.identity, pool.entries@[i].identity);
    }
    if j < n - 1 {
        the_longest_match_is_found(pool, keys, source, n - 1, j);
    }
}

/// Beside a shared head on the device, the copy in host memory is taken where it
/// beats the head and the device's own match by the tier's restore floor; the
/// device's match otherwise, where it still is there.
pub proof fn a_copy_has_to_beat_the_device(
    pool: CheckpointPool,
    lookup: CheckpointLookup,
    shared: u32,
    rank: int,
    d: int,
    k: int,
)
    requires
        pool.wf(),
        0 <= rank < pool.tiers.order@.len(),
        pool.tiers.order@[rank].source == ReuseSource::KvRam,
        0 <= d < pool.entries@.len(),
        0 <= k < pool.entries@.len(),
        lookup.device == Some(pool.entries@[d].id),
        lookup.kv_ram == Some(pool.entries@[k].id),
        pool.entries@[d].tier == ReuseSource::Device,
        pool.entries@[k].tier == ReuseSource::KvRam,
        pool.entries@[d].tokens + pool.tiers.order@[rank].restore_floor_tokens <= u32::MAX,
        shared + pool.tiers.order@[rank].restore_floor_tokens <= u32::MAX,
    ensures
        ({
            let floor = pool.tiers.order@[rank].restore_floor_tokens;
            let (on_device, copy) = (pool.entries@[d].tokens, pool.entries@[k].tokens);
            selected(pool, lookup, shared) == (if copy >= on_device + floor && copy >= shared
                + floor {
                Some(k)
            } else {
                Some(d)
            })
        }),
{
    let order = pool.tiers.order@;
    rank_is_the_first(order, ReuseSource::KvRam, 0);
    if let Some(r) = pool.tiers.rank_of(ReuseSource::KvRam) {
        if r < rank {
            assert(order[r].source != order[rank].source);
        }
    }
    stands_where_it_is(pool.entries@, pool.next_id, d);
    stands_where_it_is(pool.entries@, pool.next_id, k);
}

proof fn stands_where_it_is(entries: Seq<CheckpointEntry>, bound: CheckpointId, i: int)
    requires
        ids_ascend(entries, bound),
        0 <= i < entries.len(),
    ensures
        holds_id(entries, entries[i].id),
        place_of(entries, entries[i].id) == i,
{
    let p = place_of(entries, entries[i].id);
    assert(entries[i].id == entries[i].id);
    assert(0 <= p < entries.len() && entries[p].id == entries[i].id);
    if p < i {
        assert(entries[p].id < entries[i].id);
    } else if i < p {
        assert(entries[i].id < entries[p].id);
    }
}

/// A cut keeps, of its own conversation, the last entry and the last that opened
/// a turn, and every entry of any other; whatever else there is of the
/// conversation it gives up.
pub proof fn a_cut_keeps_the_last_and_the_last_opening(
    entries: Seq<CheckpointEntry>,
    lineage: LineageId,
    n: int,
    i: int,
)
    requires
        0 <= i < n <= entries.len(),
    ensures
        ({
            let later = exists|j: int|
                i < j < entries.len() && (#[trigger] entries[j]).lineage == lineage;
            let later_opening = exists|j: int|
                i < j < entries.len() && (#[trigger] entries[j]).lineage == lineage
                    && entries[j].turn_opening;
            let stays = entries[i].lineage != lineage || !later || (entries[i].turn_opening
                && !later_opening);
            &&& stays ==> kept(entries, lineage, n).contains(entries[i])
            &&& !stays ==> given_up(entries, lineage, n).contains(entries[i])
            &&& kept(entries, lineage, n).len() + given_up(entries, lineage, n).len() == n
        }),
    decreases n,
{
    let (k, g) = (kept(entries, lineage, n - 1), given_up(entries, lineage, n - 1));
    if i < n - 1 {
        a_cut_keeps_the_last_and_the_last_opening(entries, lineage, n - 1, i);
        if k.contains(entries[i]) {
            let m = choose|m: int| 0 <= m < k.len() && k[m] == entries[i];
            assert(kept(entries, lineage, n)[m] == entries[i]);
        }
        if g.contains(entries[i]) {
            let m = choose|m: int| 0 <= m < g.len() && g[m] == entries[i];
            assert(given_up(entries, lineage, n)[m] == entries[i]);
        }
    } else {
        cut_is_complete(entries, lineage, n - 1);
        if outlives_cut(entries, lineage, n - 1) {
            assert(kept(entries, lineage, n)[k.len() as int] == entries[i]);
        } else {
            assert(given_up(entries, lineage, n)[g.len() as int] == entries[i]);
        }
    }
}

proof fn cut_is_complete(entries: Seq<CheckpointEntry>, lineage: LineageId, n: int)
    requires
        0 <= n <= entries.len(),
    ensures
        kept(entries, lineage, n).len() + given_up(entries, lineage, n).len() == n,
    decreases n,
{
    if n > 0 {
        cut_is_complete(entries, lineage, n - 1);
    }
}

/// A discard takes, of the entries of its tier on a prefix it may take from, the
/// least recently used, and of those the oldest.
pub proof fn a_discard_takes_the_least_recently_used(
    entries: Seq<CheckpointEntry>,
    tier: ReuseSource,
    prefixes: Option<&[PrefixId]>,
    at: int,
    j: int,
)
    requires
        is_discard_victim(entries, tier, prefixes, at),
        0 <= j < entries.len(),
        entries[j].tier == tier,
        prefixes matches Some(allowed) ==> allowed@.contains(entries[j].prefix),
    ensures
        entries[at].tier == tier,
        prefixes matches Some(allowed) ==> allowed@.contains(entries[at].prefix),
        entries[at].use_tick <= entries[j].use_tick,
        entries[at].use_tick == entries[j].use_tick ==> entries[at].id <= entries[j].id,
{
    assert(discardable(entries[j], tier, prefixes));
}

/// The entry given up for its slot is on the device and claimed by no one; it is
/// an Agent's where any such is, the least recently used of its class, and the
/// oldest of those.
pub proof fn the_slot_victim_is_worth_least(
    entries: Seq<CheckpointEntry>,
    claimed: Seq<CheckpointId>,
    at: int,
    j: int,
)
    requires
        is_slot_victim(entries, claimed, at),
        0 <= j < entries.len(),
        entries[j].tier == ReuseSource::Device,
        !claimed.contains(entries[j].id),
    ensures
        entries[at].tier == ReuseSource::Device,
        !claimed.contains(entries[at].id),
        entries[at].owner == RequestClass::Interactive ==> entries[j].owner
            == RequestClass::Interactive,
        entries[at].owner == entries[j].owner ==> entries[at].use_tick <= entries[j].use_tick,
        entries[at].owner == entries[j].owner && entries[at].use_tick == entries[j].use_tick
            ==> entries[at].id <= entries[j].id,
{
    assert(gives_a_slot(entries[j], claimed));
}

/// The entry given up for its pages is on the device, and gives some back: it
/// stands on a prefix that can be reclaimed, or holds a page of its own that no
/// claim waits on; of those it is the least recently used, and the oldest.
pub proof fn the_page_victim_is_worth_least(
    entries: Seq<CheckpointEntry>,
    reclaimable: Seq<PrefixId>,
    tails: Seq<RequestId>,
    claimed: Seq<CheckpointId>,
    at: int,
    j: int,
)
    requires
        is_page_victim(entries, reclaimable, tails, claimed, at),
        0 <= j < entries.len(),
        entries[j].tier == ReuseSource::Device,
        reclaimable.contains(entries[j].prefix) || (tails.contains(entries[j].publisher)
            && !claimed.contains(entries[j].id)),
    ensures
        entries[at].tier == ReuseSource::Device,
        reclaimable.contains(entries[at].prefix) || (tails.contains(entries[at].publisher)
            && !claimed.contains(entries[at].id)),
        entries[at].use_tick <= entries[j].use_tick,
        entries[at].use_tick == entries[j].use_tick ==> entries[at].id <= entries[j].id,
{
    assert(gives_pages(entries[j], reclaimable, tails, claimed));
}

/// The pages retained count each prefix once: an entry on a prefix an earlier one
/// stands on adds none, and any other adds its own.
pub proof fn each_prefix_counts_its_pages_once(entries: Seq<CheckpointEntry>, n: int)
    requires
        0 <= n < entries.len(),
    ensures
        prefix_pages(entries, 0) == 0,
        prefix_pages(entries, n + 1) - prefix_pages(entries, n) == (if exists|j: int|
            0 <= j < n && (#[trigger] entries[j]).prefix == entries[n].prefix {
            0
        } else {
            entries[n].pages as int
        }),
{
    listed_prefixes(entries, n, entries[n].prefix);
}

proof fn listed_prefixes(entries: Seq<CheckpointEntry>, n: int, prefix: PrefixId)
    requires
        0 <= n <= entries.len(),
    ensures
        prefixes_of(entries, n).contains(prefix) <==> exists|j: int|
            0 <= j < n && (#[trigger] entries[j]).prefix == prefix,
    decreases n,
{
    if n > 0 {
        listed_prefixes(entries, n - 1, prefix);
        let (before, now) = (prefixes_of(entries, n - 1), prefixes_of(entries, n));
        if before.contains(prefix) {
            let m = choose|m: int| 0 <= m < before.len() && before[m] == prefix;
            assert(now[m] == prefix);
        }
        if entries[n - 1].prefix == prefix {
            if !before.contains(prefix) {
                assert(now[before.len() as int] == prefix);
            }
        } else if now.contains(prefix) {
            let m = choose|m: int| 0 <= m < now.len() && now[m] == prefix;
            assert(m < before.len());
            assert(before[m] == prefix);
        }
    }
}

/// A capture joins the conversation of the entry its request resumed from, while
/// that is there, and opens one of its own otherwise.
pub proof fn a_capture_joins_what_it_resumed_from(
    entries: Seq<CheckpointEntry>,
    bound: CheckpointId,
    i: int,
)
    requires
        ids_ascend(entries, bound),
        0 <= i < entries.len(),
    ensures
        joined_lineage(entries, Some(entries[i].id)) == Some(entries[i].lineage),
        joined_lineage(entries, None) is None,
        joined_lineage(entries, Some(bound)) is None,
{
    stands_where_it_is(entries, bound, i);
    assert(!holds_id(entries, bound));
}

/// Bytes add up: no image is none, and one more adds its own.
pub proof fn images_add_up(entries: Seq<CheckpointEntry>, one: CheckpointEntry)
    ensures
        image_bytes(Seq::<CheckpointEntry>::empty()) == 0,
        image_bytes(entries.push(one)) == image_bytes(entries) + one.bytes,
        forall|p: PrefixId| #[trigger]
            holders_in(entries.push(one), p) == holders_in(entries, p) + (if one.prefix == p {
                1nat
            } else {
                0
            }),
{
    assert(entries.push(one).drop_last() =~= entries);
    assert forall|p: PrefixId| #[trigger]
        holders_in(entries.push(one), p) == holders_in(entries, p) + (if one.prefix == p {
            1nat
        } else {
            0
        }) by {
        assert(entries.push(one).drop_last() =~= entries);
    }
}

/// A sum is itself where it can be counted, and the ceiling past it.
pub proof fn sums_stay_at_their_ceiling(sum: int)
    ensures
        sum <= 0xffff_ffff ==> sat_u32(sum) == sum,
        sum > 0xffff_ffff ==> sat_u32(sum) == 0xffff_ffff,
        sum <= 0xffff_ffff_ffff_ffff ==> sat_u64(sum) == sum,
        sum > 0xffff_ffff_ffff_ffff ==> sat_u64(sum) == 0xffff_ffff_ffff_ffff,
{
}

/// Across two tiers a prompt reuses the longest match of the upper one, unless
/// the longest of the lower one saves its restore floor over it; and the only one
/// there is where there is one.
pub proof fn the_best_of_two_tiers_is_reused(pool: CheckpointPool, keys: Seq<MatchKey>)
    requires
        pool.wf(),
        pool.tiers.order@.len() == 2,
    ensures
        ({
            let order = pool.tiers.order@;
            let n = pool.entries@.len() as int;
            let upper = longest(pool, keys, order[0].source, n);
            let lower = longest(pool, keys, order[1].source, n);
            let floor = order[1].restore_floor_tokens;
            match (upper, lower) {
                (None, _) => best_in(pool, keys, 2) == lower,
                (Some(_), None) => best_in(pool, keys, 2) == upper,
                (Some(u), Some(l)) => pool.entries@[u].tokens + floor <= u32::MAX ==> best_in(
                    pool,
                    keys,
                    2,
                ) == (if pool.entries@[l].tokens >= pool.entries@[u].tokens + floor {
                    lower
                } else {
                    upper
                }),
            }
        }),
{
    reveal_with_fuel(best_in, 3);
    let order = pool.tiers.order@;
    let n = pool.entries@.len() as int;
    longest_is_a_match(pool, keys, order[0].source, n);
    longest_is_a_match(pool, keys, order[1].source, n);
    rank_is_the_first(order, order[0].source, 0);
    rank_is_the_first(order, order[1].source, 0);
    assert(order[0].source != order[1].source);
    if let Some(l) = longest(pool, keys, order[1].source, n) {
        if let Some(u) = longest(pool, keys, order[0].source, n) {
            a_lower_tier_has_to_beat_the_upper_by_its_floor(
                pool.tiers,
                1,
                0,
                pool.entries@[l].tokens,
                pool.entries@[u].tokens,
            );
        }
    }
}

/// With nothing found on the device, a copy in host memory is taken where it
/// saves the tier's restore floor over the shared head, and nothing otherwise;
/// with none found in host memory, what was found on the device.
pub proof fn a_lone_match_is_taken_where_it_saves_enough(
    pool: CheckpointPool,
    shared: u32,
    rank: int,
    k: int,
)
    requires
        pool.wf(),
        0 <= rank < pool.tiers.order@.len(),
        pool.tiers.order@[rank].source == ReuseSource::KvRam,
        0 <= k < pool.entries@.len(),
        shared + pool.tiers.order@[rank].restore_floor_tokens <= u32::MAX,
    ensures
        ({
            let e = pool.entries@[k];
            let floor = pool.tiers.order@[rank].restore_floor_tokens;
            let copied = CheckpointLookup { device: None, kv_ram: Some(e.id) };
            let resident = CheckpointLookup { device: Some(e.id), kv_ram: None };
            &&& e.tier == ReuseSource::KvRam ==> selected(pool, copied, shared) == (if e.tokens
                >= shared + floor {
                Some(k)
            } else {
                None
            })
            &&& e.tier == ReuseSource::Device ==> selected(pool, resident, shared) == Some(k)
            &&& e.tier == ReuseSource::Device ==> selected(pool, copied, shared) is None
        }),
{
    let order = pool.tiers.order@;
    rank_is_the_first(order, ReuseSource::KvRam, 0);
    if let Some(r) = pool.tiers.rank_of(ReuseSource::KvRam) {
        if r < rank {
            assert(order[r].source != order[rank].source);
        }
    }
    stands_where_it_is(pool.entries@, pool.next_id, k);
}

/// A discard takes the least recently used entry it may and leaves every other in
/// its order; it takes none only where there is none it may take.
pub proof fn a_discard_takes_one_where_it_may(
    before: CheckpointPool,
    tier: ReuseSource,
    prefixes: Option<&[PrefixId]>,
    taken: Option<CheckpointEntry>,
    after: CheckpointPool,
    j: int,
)
    requires
        victim_was_discarded(before, tier, prefixes, taken, after),
        0 <= j < before.entries@.len(),
        before.entries@[j].tier == tier,
        prefixes matches Some(allowed) ==> allowed@.contains(before.entries@[j].prefix),
    ensures
        taken matches Some(e) && {
            &&& e.tier == tier
            &&& e.use_tick <= before.entries@[j].use_tick
            &&& after.entries@.len() == before.entries@.len() - 1
            &&& after.counters.discards >= before.counters.discards
        },
{
    assert(discardable(before.entries@[j], tier, prefixes));
}

/// In a single tier a prompt reuses the longest match there is.
pub proof fn the_longest_of_one_tier_is_reused(pool: CheckpointPool, keys: Seq<MatchKey>)
    requires
        pool.wf(),
        pool.tiers.order@.len() == 1,
    ensures
        best_in(pool, keys, 1) == longest(
            pool,
            keys,
            pool.tiers.order@[0].source,
            pool.entries@.len() as int,
        ),
{
    reveal_with_fuel(best_in, 2);
    let source = pool.tiers.order@[0].source;
    longest_is_a_match(pool, keys, source, pool.entries@.len() as int);
    rank_is_the_first(pool.tiers.order@, source, 0);
}

} // verus!
