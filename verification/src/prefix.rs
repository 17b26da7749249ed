//! The shared-prefix cache: prompt heads several requests stand on.
//!
//! An entry is a whole number of KV pages of prompt, named by its content.
//! Its pages are charged to the pool once and held by reference count: live
//! requests, retained checkpoints, the entry's own retention and every entry
//! chained on it hold one reference each. The entry drops, and its pages come
//! back, when the last reference goes; dropping a chained entry lets go of the
//! entry under it.
//!
//! A retained entry that is given up may leave a copy in host memory, which
//! the cache remembers by content so that a later prompt can bring it back.

use crate::gdn::GdnState;
use crate::identity::{MatchKey, PromptKeys};
use crate::types::{PrefixId, RequestClass, RequestId};
use vstd::prelude::*;

verus! {

/// A prefix whose copy is in host memory.
pub type SpilledPrefixId = u64;

/// Why a prefix outlives its requests: who retained it, and its last use.
#[derive(Debug, Clone, Copy, PartialEq, Eq, Structural)]
pub struct Retention {
    /// The tick of its last use.
    pub at: u64,
    pub class: RequestClass,
    /// The wall time of its last use.
    pub used_at: u64,
}

/// One shared prefix.
#[derive(Debug)]
pub struct PrefixEntry {
    pub id: PrefixId,
    /// The request that published it: the backend's handle.
    pub publisher: RequestId,
    pub key: MatchKey,
    pub length_tokens: u32,
    /// Pages past the entry it is chained on.
    pub own_pages: u32,
    pub parent: Option<PrefixId>,
    pub refcount: u32,
    pub gdn: GdnState,
    pub retained: Option<Retention>,
    /// Its copy in host memory, if it has one.
    pub copy: Option<SpilledPrefixId>,
}

/// A prefix copied to host memory.
#[derive(Debug)]
pub struct SpilledPrefix {
    pub id: SpilledPrefixId,
    pub publisher: RequestId,
    pub key: MatchKey,
    pub length_tokens: u32,
    pub gdn: GdnState,
    pub class: RequestClass,
}

impl SpilledPrefix {
    pub open spec fn same_as(self, other: SpilledPrefix) -> bool {
        &&& self.id == other.id
        &&& self.publisher == other.publisher
        &&& self.key == other.key
        &&& self.length_tokens == other.length_tokens
        &&& self.gdn@ == other.gdn@
        &&& self.class == other.class
    }
}

impl Clone for SpilledPrefix {
    fn clone(&self) -> (copy: SpilledPrefix)
        ensures
            copy.same_as(*self),
    {
        SpilledPrefix {
            id: self.id,
            publisher: self.publisher,
            key: self.key,
            length_tokens: self.length_tokens,
            gdn: self.gdn.clone(),
            class: self.class,
        }
    }
}

/// What a claimant of a prefix is built against.
#[derive(Debug)]
pub struct PrefixClaim {
    pub id: PrefixId,
    pub publisher: RequestId,
    pub tokens: u32,
    /// The whole pages of the head, the chain under it included.
    pub pages: u32,
    pub gdn: GdnState,
}

/// An entry that dropped: the pages it gave back and the backend's handle.
#[derive(Debug, Clone, Copy, PartialEq, Eq, Structural)]
pub struct DroppedPrefix {
    pub pages: u32,
    pub publisher: RequestId,
    pub tokens: u32,
}

/// Where the entry `id` stands at or past `from`.
pub open spec fn find_from(entries: Seq<PrefixEntry>, id: PrefixId, from: int) -> Option<int>
    decreases entries.len() - from,
{
    if from < 0 || from >= entries.len() {
        None
    } else if entries[from].id == id {
        Some(from)
    } else {
        find_from(entries, id, from + 1)
    }
}

/// Where the entry `id` stands.
pub open spec fn place(entries: Seq<PrefixEntry>, id: PrefixId) -> Option<int> {
    find_from(entries, id, 0)
}

/// Whether the cache holds `id`.
pub open spec fn held(entries: Seq<PrefixEntry>, id: PrefixId) -> bool {
    place(entries, id) is Some
}

/// The entry `id`.
pub open spec fn entry_of(entries: Seq<PrefixEntry>, id: PrefixId) -> PrefixEntry {
    entries[place(entries, id)->Some_0]
}

pub proof fn find_from_is_first(entries: Seq<PrefixEntry>, id: PrefixId, from: int)
    requires
        0 <= from <= entries.len(),
    ensures
        find_from(entries, id, from) matches Some(i) ==> from <= i < entries.len() && entries[i].id
            == id && forall|j: int| from <= j < i ==> (#[trigger] entries[j]).id != id,
        find_from(entries, id, from) is None ==> forall|j: int|
            from <= j < entries.len() ==> (#[trigger] entries[j]).id != id,
    decreases entries.len() - from,
{
    if from < entries.len() && entries[from].id != id {
        find_from_is_first(entries, id, from + 1);
    }
}

/// Ids ascend and stay under `bound`.
pub open spec fn ids_ascend(entries: Seq<PrefixEntry>, bound: PrefixId) -> bool {
    &&& forall|i: int| 0 <= i < entries.len() ==> (#[trigger] entries[i]).id < bound
    &&& forall|i: int, j: int|
        0 <= i < j < entries.len() ==> (#[trigger] entries[i]).id < (#[trigger] entries[j]).id
}

/// With ascending ids, an entry's place is wherever its id is.
pub proof fn place_is_where_it_is(entries: Seq<PrefixEntry>, bound: PrefixId, i: int)
    requires
        ids_ascend(entries, bound),
        0 <= i < entries.len(),
    ensures
        place(entries, entries[i].id) == Some(i),
{
    find_from_is_first(entries, entries[i].id, 0);
    let p = place(entries, entries[i].id)->Some_0;
    if p < i {
        assert(entries[p].id < entries[i].id);
    }
}

/// How many of the first `n` entries are chained on `id`.
pub open spec fn chained_on(entries: Seq<PrefixEntry>, id: PrefixId, n: int) -> int
    decreases n,
{
    if n <= 0 {
        0
    } else {
        chained_on(entries, id, n - 1) + (if entries[n - 1].parent == Some(id) { 1int } else { 0 })
    }
}

/// References nobody inside the cache holds: those of live requests and
/// retained checkpoints.
pub open spec fn outside_refs(entries: Seq<PrefixEntry>, id: PrefixId) -> int {
    if held(entries, id) {
        let e = entry_of(entries, id);
        e.refcount - chained_on(entries, id, entries.len() as int) - (if e.retained is Some {
            1int
        } else {
            0
        })
    } else {
        0
    }
}

/// Pages the first `n` entries hold.
pub open spec fn pages_in(entries: Seq<PrefixEntry>, n: int) -> int
    decreases n,
{
    if n <= 0 {
        0
    } else {
        pages_in(entries, n - 1) + entries[n - 1].own_pages
    }
}

/// Pages the cache pins.
pub open spec fn pinned(entries: Seq<PrefixEntry>) -> int {
    pages_in(entries, entries.len() as int)
}

/// The whole pages of a head that long.
pub open spec fn whole_pages(tokens: u32, page_tokens: u32) -> int {
    tokens as int / page_tokens as int
}

/// The entry at `i` is sound: a whole number of pages past the entry it is
/// chained on, which is held and older, and referenced by more than what the
/// cache itself holds.
pub open spec fn sound_at(entries: Seq<PrefixEntry>, page_tokens: u32, i: int) -> bool {
    let e = entries[i];
    &&& e.refcount >= 1
    &&& outside_refs(entries, e.id) >= 0
    &&& match e.parent {
        None => e.own_pages == whole_pages(e.length_tokens, page_tokens),
        Some(p) => {
            &&& held(entries, p)
            &&& p < e.id
            &&& entry_of(entries, p).length_tokens <= e.length_tokens
            &&& e.own_pages == whole_pages(e.length_tokens, page_tokens) - whole_pages(
                entry_of(entries, p).length_tokens,
                page_tokens,
            )
        },
    }
}

/// The cache is sound.
pub open spec fn sound(entries: Seq<PrefixEntry>, page_tokens: u32, bound: PrefixId) -> bool {
    &&& page_tokens > 0
    &&& ids_ascend(entries, bound)
    &&& forall|i: int| 0 <= i < entries.len() ==> #[trigger] sound_at(entries, page_tokens, i)
    &&& pinned(entries) <= u32::MAX
}

/// The cache after one reference to `id` is let go. `id` and the chain under
/// it drop as far as nothing else holds them.
pub open spec fn after_release(entries: Seq<PrefixEntry>, id: Option<PrefixId>) -> Seq<PrefixEntry>
    decreases entries.len(),
{
    match id {
        None => entries,
        Some(p) => match place(entries, p) {
            None => entries,
            Some(at) => if !(0 <= at < entries.len()) {
                entries
            } else if entries[at].refcount > 1 {
                entries.update(
                    at,
                    PrefixEntry { refcount: (entries[at].refcount - 1) as u32, ..entries[at] },
                )
            } else {
                after_release(entries.remove(at), entries[at].parent)
            },
        },
    }
}

/// The entries that drop when one reference to `id` is let go, the top of the
/// chain first.
pub open spec fn dropped_by(entries: Seq<PrefixEntry>, id: Option<PrefixId>) -> Seq<DroppedPrefix>
    decreases entries.len(),
{
    match id {
        None => Seq::empty(),
        Some(p) => match place(entries, p) {
            None => Seq::empty(),
            Some(at) => if !(0 <= at < entries.len()) || entries[at].refcount > 1 {
                Seq::empty()
            } else {
                seq![
                    DroppedPrefix {
                        pages: entries[at].own_pages,
                        publisher: entries[at].publisher,
                        tokens: entries[at].length_tokens,
                    },
                ] + dropped_by(entries.remove(at), entries[at].parent)
            },
        },
    }
}

/// The pages a run of drops gives back.
pub open spec fn pages_back(dropped: Seq<DroppedPrefix>) -> int
    decreases dropped.len(),
{
    if dropped.len() == 0 {
        0
    } else {
        dropped[0].pages + pages_back(dropped.skip(1))
    }
}

proof fn chained_without(entries: Seq<PrefixEntry>, id: PrefixId, at: int, n: int)
    requires
        0 <= at < n <= entries.len(),
    ensures
        chained_on(entries, id, n) == chained_on(entries.remove(at), id, n - 1) + (if entries[at].parent
            == Some(id) {
            1int
        } else {
            0
        }),
    decreases n,
{
    if at < n - 1 {
        chained_without(entries, id, at, n - 1);
        assert(entries.remove(at)[n - 2] == entries[n - 1]);
    } else {
        chained_same(entries, entries.remove(at), id, n - 1);
    }
}

proof fn chained_same(a: Seq<PrefixEntry>, b: Seq<PrefixEntry>, id: PrefixId, n: int)
    requires
        0 <= n <= a.len(),
        n <= b.len(),
        forall|i: int| 0 <= i < n ==> (#[trigger] a[i]).parent == b[i].parent,
    ensures
        chained_on(a, id, n) == chained_on(b, id, n),
    decreases n,
{
    if n > 0 {
        chained_same(a, b, id, n - 1);
        assert(a[n - 1].parent == b[n - 1].parent);
    }
}

proof fn chained_is_a_count(entries: Seq<PrefixEntry>, id: PrefixId, n: int)
    ensures
        chained_on(entries, id, n) >= 0,
    decreases n,
{
    if n > 0 {
        chained_is_a_count(entries, id, n - 1);
    }
}

proof fn a_link_is_counted(entries: Seq<PrefixEntry>, id: PrefixId, i: int, n: int)
    requires
        0 <= i < n <= entries.len(),
        entries[i].parent == Some(id),
    ensures
        chained_on(entries, id, n) >= 1,
    decreases n,
{
    if i < n - 1 {
        a_link_is_counted(entries, id, i, n - 1);
    } else {
        chained_is_a_count(entries, id, n - 1);
    }
}

proof fn pages_without(entries: Seq<PrefixEntry>, at: int, n: int)
    requires
        0 <= at < n <= entries.len(),
    ensures
        pages_in(entries, n) == pages_in(entries.remove(at), n - 1) + entries[at].own_pages,
    decreases n,
{
    if at < n - 1 {
        pages_without(entries, at, n - 1);
        assert(entries.remove(at)[n - 2] == entries[n - 1]);
    } else {
        pages_same(entries, entries.remove(at), n - 1);
    }
}

proof fn pages_same(a: Seq<PrefixEntry>, b: Seq<PrefixEntry>, n: int)
    requires
        0 <= n <= a.len(),
        n <= b.len(),
        forall|i: int| 0 <= i < n ==> (#[trigger] a[i]).own_pages == b[i].own_pages,
    ensures
        pages_in(a, n) == pages_in(b, n),
    decreases n,
{
    if n > 0 {
        pages_same(a, b, n - 1);
        assert(a[n - 1].own_pages == b[n - 1].own_pages);
    }
}

proof fn pages_are_counted(entries: Seq<PrefixEntry>, m: int, n: int)
    requires
        0 <= m <= n <= entries.len(),
    ensures
        0 <= pages_in(entries, m) <= pages_in(entries, n),
    decreases n,
{
    if m < n {
        pages_are_counted(entries, m, n - 1);
    } else if n > 0 {
        pages_are_counted(entries, m - 1, n - 1);
    }
}

/// What the cache pins is a count.
pub proof fn pins_are_a_count(entries: Seq<PrefixEntry>)
    ensures
        pinned(entries) >= 0,
{
    pages_are_counted(entries, 0, entries.len() as int);
}

/// Letting one reference go leaves an entry that has another, changed in
/// nothing but its count.
pub proof fn still_there(entries: Seq<PrefixEntry>, bound: PrefixId, id: PrefixId)
    requires
        ids_ascend(entries, bound),
        held(entries, id),
        entry_of(entries, id).refcount > 1,
    ensures
        held(after_release(entries, Some(id)), id),
        entry_of(after_release(entries, Some(id)), id) == (PrefixEntry {
            refcount: (entry_of(entries, id).refcount - 1) as u32,
            ..entry_of(entries, id)
        }),
{
    find_from_is_first(entries, id, 0);
    let at = place(entries, id)->Some_0;
    let with = PrefixEntry { refcount: (entries[at].refcount - 1) as u32, ..entries[at] };
    place_updated(entries, bound, at, with, id);
}

/// A held entry stands somewhere.
pub proof fn held_is_somewhere(entries: Seq<PrefixEntry>, id: PrefixId)
    requires
        held(entries, id),
    ensures
        0 <= place(entries, id)->Some_0 < entries.len(),
        entry_of(entries, id) == entries[place(entries, id)->Some_0],
        entry_of(entries, id).id == id,
{
    find_from_is_first(entries, id, 0);
}

/// A run of entries pins no more than all of them.
pub proof fn runs_pin_less(entries: Seq<PrefixEntry>, n: int)
    requires
        0 <= n <= entries.len(),
    ensures
        0 <= pages_in(entries, n) <= pinned(entries),
{
    pages_are_counted(entries, n, entries.len() as int);
}

/// Outside references never outnumber the references in all, less the
/// retention's own.
pub proof fn outside_refs_bound(entries: Seq<PrefixEntry>, id: PrefixId)
    ensures
        held(entries, id) ==> outside_refs(entries, id) <= entry_of(entries, id).refcount - (
        if entry_of(entries, id).retained is Some {
            1int
        } else {
            0
        }),
        !held(entries, id) ==> outside_refs(entries, id) == 0,
{
    chained_is_a_count(entries, id, entries.len() as int);
}

/// A retained entry is among the retained ids.
pub proof fn retained_is_listed(entries: Seq<PrefixEntry>, id: PrefixId)
    requires
        held(entries, id),
        entry_of(entries, id).retained is Some,
    ensures
        retained_ids(entries, entries.len() as int).contains(id),
{
    find_from_is_first(entries, id, 0);
    listed_from(entries, place(entries, id)->Some_0, entries.len() as int);
}

proof fn listed_from(entries: Seq<PrefixEntry>, at: int, n: int)
    requires
        0 <= at < n <= entries.len(),
        entries[at].retained is Some,
    ensures
        retained_ids(entries, n).contains(entries[at].id),
    decreases n,
{
    let now = retained_ids(entries, n);
    if at == n - 1 {
        assert(now[now.len() - 1] == entries[at].id);
    } else {
        listed_from(entries, at, n - 1);
        let was = retained_ids(entries, n - 1);
        let k = choose|k: int| 0 <= k < was.len() && was[k] == entries[at].id;
        assert(now[k] == entries[at].id);
    }
}

/// Every entry of `b` is an entry of `a` with the same content, chain, pages
/// and retention.
pub open spec fn keeps_terms(a: Seq<PrefixEntry>, b: Seq<PrefixEntry>, id: PrefixId) -> bool {
    held(b, id) ==> held(a, id) && entry_of(b, id).length_tokens == entry_of(a, id).length_tokens
        && entry_of(b, id).parent == entry_of(a, id).parent && entry_of(b, id).retained == entry_of(
        a,
        id,
    ).retained && entry_of(b, id).publisher == entry_of(a, id).publisher && entry_of(b, id).key
        == entry_of(a, id).key && entry_of(b, id).own_pages == entry_of(a, id).own_pages
}

/// Where an id stands once the entry at `at` is gone.
proof fn place_without(entries: Seq<PrefixEntry>, bound: PrefixId, at: int, id: PrefixId)
    requires
        ids_ascend(entries, bound),
        0 <= at < entries.len(),
    ensures
        ids_ascend(entries.remove(at), bound),
        id == entries[at].id ==> !held(entries.remove(at), id),
        id != entries[at].id ==> held(entries.remove(at), id) == held(entries, id),
        id != entries[at].id && held(entries, id) ==> entry_of(entries.remove(at), id) == entry_of(
            entries,
            id,
        ),
{
    let after = entries.remove(at);
    assert forall|i: int| 0 <= i < after.len() implies (#[trigger] after[i]) == entries[if i < at {
        i
    } else {
        i + 1
    }] by {}
    find_from_is_first(entries, id, 0);
    find_from_is_first(after, id, 0);
    if id == entries[at].id {
        if held(after, id) {
            let j = place(after, id)->Some_0;
            let was = if j < at { j } else { j + 1 };
            assert(after[j] == entries[was]);
            if was < at {
                assert(entries[was].id < entries[at].id);
            } else {
                assert(entries[at].id < entries[was].id);
            }
        }
    } else if held(entries, id) {
        let p = place(entries, id)->Some_0;
        let now = if p < at { p } else { p - 1 };
        assert(after[now] == entries[p]);
        assert(ids_ascend(after, bound));
        place_is_where_it_is(after, bound, now);
    } else if held(after, id) {
        let j = place(after, id)->Some_0;
        let was = if j < at { j } else { j + 1 };
        assert(after[j] == entries[was]);
    }
}

/// Where an id stands once the entry at `at` changed but for its id.
proof fn place_updated(
    entries: Seq<PrefixEntry>,
    bound: PrefixId,
    at: int,
    with: PrefixEntry,
    id: PrefixId,
)
    requires
        ids_ascend(entries, bound),
        0 <= at < entries.len(),
        with.id == entries[at].id,
    ensures
        ids_ascend(entries.update(at, with), bound),
        held(entries.update(at, with), id) == held(entries, id),
        place(entries.update(at, with), id) == place(entries, id),
        held(entries, id) ==> entry_of(entries.update(at, with), id) == (if id == with.id {
            with
        } else {
            entry_of(entries, id)
        }),
{
    let after = entries.update(at, with);
    assert forall|i: int| 0 <= i < after.len() implies (#[trigger] after[i]).id == entries[i].id by {}
    find_from_is_first(entries, id, 0);
    find_from_is_first(after, id, 0);
    if held(entries, id) {
        let p = place(entries, id)->Some_0;
        assert(after[p].id == id);
        if id == with.id {
            place_is_where_it_is(entries, bound, at);
        }
    }
    if held(after, id) {
        let p = place(after, id)->Some_0;
        assert(entries[p].id == id);
    }
}

/// Letting one outside reference to `id` go: the cache stays sound, that
/// reference alone is gone, the pages that come back are those of the entries
/// that drop, and nothing that is still referenced drops.
pub proof fn release_is_sound(
    entries: Seq<PrefixEntry>,
    page_tokens: u32,
    bound: PrefixId,
    id: PrefixId,
)
    requires
        sound(entries, page_tokens, bound),
        held(entries, id),
        outside_refs(entries, id) >= 1,
    ensures
        sound(after_release(entries, Some(id)), page_tokens, bound),
        pinned(after_release(entries, Some(id))) == pinned(entries) - pages_back(
            dropped_by(entries, Some(id)),
        ),
        pages_back(dropped_by(entries, Some(id))) >= 0,
        after_release(entries, Some(id)).len() <= entries.len(),
        forall|p: PrefixId| #[trigger]
            outside_refs(after_release(entries, Some(id)), p) == outside_refs(entries, p) - (if p
                == id {
                1int
            } else {
                0
            }),
        forall|p: PrefixId| #[trigger]
            keeps_terms(entries, after_release(entries, Some(id)), p),
        retained_count(after_release(entries, Some(id))) == retained_count(entries),
    decreases entries.len(),
{
    let at = place(entries, id)->Some_0;
    find_from_is_first(entries, id, 0);
    let e = entries[at];
    assert(sound_at(entries, page_tokens, at));
    chained_is_a_count(entries, id, entries.len() as int);
    if e.refcount > 1 {
        let with = PrefixEntry { refcount: (e.refcount - 1) as u32, ..e };
        let after = entries.update(at, with);
        assert(after == after_release(entries, Some(id)));
        assert(dropped_by(entries, Some(id)) =~= Seq::empty());
        update_keeps_soundness(entries, page_tokens, bound, at, with);
        retained_updated(entries, at, with, entries.len() as int);
        assert forall|p: PrefixId| #[trigger]
            outside_refs(after, p) == outside_refs(entries, p) - (if p == id {
                1int
            } else {
                0
            }) by {
            place_updated(entries, bound, at, with, p);
            chained_same(entries, after, p, entries.len() as int);
        }
        assert forall|p: PrefixId| #[trigger] keeps_terms(entries, after, p) by {
            place_updated(entries, bound, at, with, p);
            place_is_where_it_is(entries, bound, at);
        }
    } else {
        // Nothing chained on it and no retention: the entry goes.
        let rest = entries.remove(at);
        drop_keeps_soundness(entries, page_tokens, bound, at);
        retained_without(entries, at, entries.len() as int);
        pages_without(entries, at, entries.len() as int);
        let parent = e.parent;
        let more = dropped_by(rest, parent);
        let all = dropped_by(entries, Some(id));
        let first = DroppedPrefix {
            pages: e.own_pages,
            publisher: e.publisher,
            tokens: e.length_tokens,
        };
        assert(all == seq![first] + more);
        assert(all.skip(1) =~= more);
        match parent {
            None => {
                assert(more =~= Seq::empty());
            },
            Some(q) => {
                place_without(entries, bound, at, q);
                // `e` was chained on `q`, so `q` has that reference to let go.
                assert(outside_refs(rest, q) == outside_refs(entries, q) + 1);
                let qat = place(entries, q)->Some_0;
                find_from_is_first(entries, q, 0);
                assert(sound_at(entries, page_tokens, qat));
                release_is_sound(rest, page_tokens, bound, q);
            },
        }
        let after = after_release(entries, Some(id));
        assert(after == after_release(rest, parent));
        assert forall|p: PrefixId| #[trigger]
            outside_refs(after, p) == outside_refs(entries, p) - (if p == id {
                1int
            } else {
                0
            }) by {
            place_without(entries, bound, at, p);
            assert(outside_refs(rest, p) == outside_refs(entries, p) - (if p == id {
                1int
            } else {
                0
            }) + (if parent == Some(p) { 1int } else { 0 }));
            match parent {
                Some(q) => {
                    assert(outside_refs(after_release(rest, Some(q)), p) == outside_refs(rest, p) - (
                    if p == q {
                        1int
                    } else {
                        0
                    }));
                },
                None => {},
            }
        }
        assert forall|p: PrefixId| #[trigger] keeps_terms(entries, after, p) by {
            place_without(entries, bound, at, p);
            if let Some(q) = parent {
                assert(keeps_terms(rest, after_release(rest, Some(q)), p));
            }
        }
        assert(all[0] == first);
        assert(pages_back(all) == first.pages + pages_back(more));
    }
}

/// Changing an entry's reference count, retention or copy, within what the
/// cache itself holds, keeps the cache sound.
proof fn update_keeps_soundness(
    entries: Seq<PrefixEntry>,
    page_tokens: u32,
    bound: PrefixId,
    at: int,
    with: PrefixEntry,
)
    requires
        sound(entries, page_tokens, bound),
        0 <= at < entries.len(),
        with.id == entries[at].id,
        with.length_tokens == entries[at].length_tokens,
        with.own_pages == entries[at].own_pages,
        with.parent == entries[at].parent,
        with.refcount >= 1,
        with.refcount - chained_on(entries, with.id, entries.len() as int) - (if with.retained is Some {
            1int
        } else {
            0
        }) >= 0,
    ensures
        sound(entries.update(at, with), page_tokens, bound),
        pinned(entries.update(at, with)) == pinned(entries),
        outside_refs(entries.update(at, with), with.id) == with.refcount - chained_on(
            entries,
            with.id,
            entries.len() as int,
        ) - (if with.retained is Some {
            1int
        } else {
            0
        }),
        forall|p: PrefixId|
            p != with.id ==> #[trigger] outside_refs(entries.update(at, with), p) == outside_refs(
                entries,
                p,
            ),
{
    let after = entries.update(at, with);
    pages_same(entries, after, entries.len() as int);
    place_is_where_it_is(entries, bound, at);
    assert forall|p: PrefixId| #[trigger] outside_refs(after, p) == (if p == with.id {
        with.refcount - chained_on(entries, with.id, entries.len() as int) - (
        if with.retained is Some {
            1int
        } else {
            0
        })
    } else {
        outside_refs(entries, p)
    }) by {
        place_updated(entries, bound, at, with, p);
        chained_same(entries, after, p, entries.len() as int);
    }
    assert forall|i: int| 0 <= i < after.len() implies #[trigger] sound_at(after, page_tokens, i) by {
        assert(sound_at(entries, page_tokens, i));
        place_is_where_it_is(entries, bound, i);
        if let Some(p) = after[i].parent {
            place_updated(entries, bound, at, with, p);
        }
        place_updated(entries, bound, at, with, after[i].id);
        assert(outside_refs(after, after[i].id) >= 0);
    }
    place_updated(entries, bound, at, with, with.id);
}

/// Dropping an entry nothing is chained on keeps the cache sound but for the
/// reference it held on the entry under it.
proof fn drop_keeps_soundness(
    entries: Seq<PrefixEntry>,
    page_tokens: u32,
    bound: PrefixId,
    at: int,
)
    requires
        sound(entries, page_tokens, bound),
        0 <= at < entries.len(),
        chained_on(entries, entries[at].id, entries.len() as int) == 0,
        entries[at].refcount == 1,
        entries[at].retained is None,
    ensures
        sound(entries.remove(at), page_tokens, bound),
        forall|p: PrefixId| #[trigger]
            outside_refs(entries.remove(at), p) == outside_refs(entries, p) - (if p
                == entries[at].id {
                1int
            } else {
                0
            }) + (if entries[at].parent == Some(p) {
                1int
            } else {
                0
            }),
{
    let rest = entries.remove(at);
    let id = entries[at].id;
    pages_without(entries, at, entries.len() as int);
    place_is_where_it_is(entries, bound, at);
    assert(sound_at(entries, page_tokens, at));
    assert forall|p: PrefixId| #[trigger]
        outside_refs(rest, p) == outside_refs(entries, p) - (if p == id {
            1int
        } else {
            0
        }) + (if entries[at].parent == Some(p) {
            1int
        } else {
            0
        }) by {
        place_without(entries, bound, at, p);
        chained_without(entries, p, at, entries.len() as int);
    }
    place_without(entries, bound, at, id);
    assert forall|i: int| 0 <= i < rest.len() implies #[trigger] sound_at(rest, page_tokens, i) by {
        let was = if i < at { i } else { i + 1 };
        assert(rest[i] == entries[was]);
        assert(sound_at(entries, page_tokens, was));
        assert(rest[i].id != id) by {
            if was < at {
                assert(entries[was].id < entries[at].id);
            } else {
                assert(entries[at].id < entries[was].id);
            }
        }
        place_without(entries, bound, at, rest[i].id);
        if let Some(p) = rest[i].parent {
            if p == id {
                a_link_is_counted(entries, id, was, entries.len() as int);
            }
            place_without(entries, bound, at, p);
        }
        assert(outside_refs(rest, rest[i].id) >= 0);
    }
}

/// The ids of the retained ones among the first `n` entries.
pub open spec fn retained_ids(entries: Seq<PrefixEntry>, n: int) -> Seq<PrefixId>
    decreases n,
{
    if n <= 0 {
        Seq::empty()
    } else if entries[n - 1].retained is Some {
        retained_ids(entries, n - 1).push(entries[n - 1].id)
    } else {
        retained_ids(entries, n - 1)
    }
}

/// How many entries are retained past their requests.
pub open spec fn retained_count(entries: Seq<PrefixEntry>) -> int {
    retained_ids(entries, entries.len() as int).len() as int
}

proof fn retained_same(a: Seq<PrefixEntry>, b: Seq<PrefixEntry>, n: int)
    requires
        0 <= n <= a.len(),
        n <= b.len(),
        forall|i: int|
            0 <= i < n ==> ((#[trigger] a[i]).retained is Some <==> b[i].retained is Some),
    ensures
        retained_ids(a, n).len() == retained_ids(b, n).len(),
    decreases n,
{
    if n > 0 {
        retained_same(a, b, n - 1);
        assert(a[n - 1].retained is Some <==> b[n - 1].retained is Some);
    }
}

proof fn retained_without(entries: Seq<PrefixEntry>, at: int, n: int)
    requires
        0 <= at < n <= entries.len(),
    ensures
        retained_ids(entries, n).len() == retained_ids(entries.remove(at), n - 1).len() + (
        if entries[at].retained is Some {
            1int
        } else {
            0
        }),
    decreases n,
{
    if at < n - 1 {
        retained_without(entries, at, n - 1);
        assert(entries.remove(at)[n - 2] == entries[n - 1]);
    } else {
        retained_same(entries, entries.remove(at), n - 1);
    }
}

proof fn retained_updated(entries: Seq<PrefixEntry>, at: int, with: PrefixEntry, n: int)
    requires
        0 <= at < entries.len(),
        0 <= n <= entries.len(),
    ensures
        retained_ids(entries.update(at, with), n).len() == retained_ids(entries, n).len() + (if at
            < n {
            (if with.retained is Some {
                1int
            } else {
                0
            }) - (if entries[at].retained is Some {
                1int
            } else {
                0
            })
        } else {
            0
        }),
    decreases n,
{
    if n > 0 {
        retained_updated(entries, at, with, n - 1);
    }
}

/// Whether a prompt keyed by `keys` begins with the entry's content.
pub open spec fn begins_with(keys: Seq<MatchKey>, key: MatchKey, tokens: u32) -> bool {
    0 < tokens < keys.len() && keys[tokens as int] == key
}

/// The longest of the first `n` entries a prompt begins with, the older among
/// equals.
pub open spec fn longest_head(entries: Seq<PrefixEntry>, keys: Seq<MatchKey>, n: int) -> Option<int>
    decreases n,
{
    if n <= 0 {
        None
    } else {
        let before = longest_head(entries, keys, n - 1);
        let e = entries[n - 1];
        if begins_with(keys, e.key, e.length_tokens) && (before matches Some(b) ==> e.length_tokens
            > entries[b].length_tokens) {
            Some(n - 1)
        } else {
            before
        }
    }
}

pub proof fn longest_head_is_a_match(entries: Seq<PrefixEntry>, keys: Seq<MatchKey>, n: int)
    requires
        0 <= n <= entries.len(),
    ensures
        longest_head(entries, keys, n) matches Some(i) ==> 0 <= i < n && begins_with(
            keys,
            entries[i].key,
            entries[i].length_tokens,
        ) && forall|j: int|
            0 <= j < n && begins_with(keys, (#[trigger] entries[j]).key, entries[j].length_tokens)
                ==> entries[j].length_tokens <= entries[i].length_tokens,
        longest_head(entries, keys, n) is None ==> forall|j: int|
            0 <= j < n ==> !begins_with(
                keys,
                (#[trigger] entries[j]).key,
                entries[j].length_tokens,
            ),
    decreases n,
{
    if n > 0 {
        longest_head_is_a_match(entries, keys, n - 1);
    }
}

/// The longest of the first `n` host-memory copies a prompt begins with.
pub open spec fn longest_copy(copies: Seq<SpilledPrefix>, keys: Seq<MatchKey>, n: int) -> Option<int>
    decreases n,
{
    if n <= 0 {
        None
    } else {
        let before = longest_copy(copies, keys, n - 1);
        let e = copies[n - 1];
        if begins_with(keys, e.key, e.length_tokens) && (before matches Some(b) ==> e.length_tokens
            > copies[b].length_tokens) {
            Some(n - 1)
        } else {
            before
        }
    }
}

/// Whether an entry's retention is all that holds it.
pub open spec fn only_retained(e: PrefixEntry) -> bool {
    e.retained is Some && e.refcount == 1
}

/// Used less recently, or as recently and published earlier.
pub open spec fn staler(a: PrefixEntry, b: PrefixEntry) -> bool {
    a.retained->Some_0.at < b.retained->Some_0.at || (a.retained->Some_0.at
        == b.retained->Some_0.at && a.id < b.id)
}

/// Cheaper to give up for its slot: Agent before Interactive, then staler.
pub open spec fn cheaper_slot(a: PrefixEntry, b: PrefixEntry) -> bool {
    if a.retained->Some_0.class != b.retained->Some_0.class {
        a.retained->Some_0.class == RequestClass::Agent
    } else {
        staler(a, b)
    }
}

/// Whether the cache already names this head.
pub open spec fn registered(entries: Seq<PrefixEntry>, key: MatchKey, tokens: u32) -> bool {
    exists|i: int|
        0 <= i < entries.len() && (#[trigger] entries[i]).key == key && entries[i].length_tokens
            == tokens
}

/// The pages a head of `tokens` adds past the entry it is chained on.
pub open spec fn pages_past(
    entries: Seq<PrefixEntry>,
    tokens: u32,
    page_tokens: u32,
    parent: Option<PrefixId>,
) -> int {
    match parent {
        None => whole_pages(tokens, page_tokens),
        Some(p) => whole_pages(tokens, page_tokens) - whole_pages(
            entry_of(entries, p).length_tokens,
            page_tokens,
        ),
    }
}

/// The shared-prefix cache.
#[derive(Debug)]
pub struct PrefixCache {
    pub page_tokens: u32,
    /// The entries, in publication order.
    pub entries: Vec<PrefixEntry>,
    pub next_id: PrefixId,
    /// Prompt tokens siblings skipped; stays at its ceiling.
    pub reused_tok: u64,
    /// The copies in host memory, in the order they were written.
    pub spilled: Vec<SpilledPrefix>,
    pub next_spill: SpilledPrefixId,
}

/// Copy ids ascend and stay under `bound`.
pub open spec fn copies_ascend(copies: Seq<SpilledPrefix>, bound: SpilledPrefixId) -> bool {
    &&& forall|i: int| 0 <= i < copies.len() ==> (#[trigger] copies[i]).id < bound
    &&& forall|i: int, j: int|
        0 <= i < j < copies.len() ==> (#[trigger] copies[i]).id < (#[trigger] copies[j]).id
}

impl PrefixCache {
    pub open spec fn wf(self) -> bool {
        &&& sound(self.entries@, self.page_tokens, self.next_id)
        &&& copies_ascend(self.spilled@, self.next_spill)
    }

    /// Everything but the entries.
    pub open spec fn same_but_entries(self, other: PrefixCache) -> bool {
        &&& self.page_tokens == other.page_tokens
        &&& self.next_id == other.next_id
        &&& self.reused_tok == other.reused_tok
        &&& self.spilled == other.spilled
        &&& self.next_spill == other.next_spill
    }

    /// Outside references to `id`.
    pub open spec fn refs(self, id: PrefixId) -> int {
        outside_refs(self.entries@, id)
    }

    /// Pages the cache pins.
    pub open spec fn pins(self) -> int {
        pinned(self.entries@)
    }

    /// A new cache over pages of `page_tokens` tokens.
    pub fn new(page_tokens: u32) -> (cache: PrefixCache)
        requires
            page_tokens > 0,
        ensures
            cache.wf(),
            cache.page_tokens == page_tokens,
            cache.entries@.len() == 0,
            cache.spilled@.len() == 0,
            cache.reused_tok == 0,
            cache.next_id == 0,
            cache.next_spill == 0,
    {
        PrefixCache {
            page_tokens,
            entries: Vec::new(),
            next_id: 0,
            reused_tok: 0,
            spilled: Vec::new(),
            next_spill: 0,
        }
    }

    /// Prompt tokens siblings skipped through the cache.
    pub fn reused_tok(&self) -> (tokens: u64)
        ensures
            tokens == self.reused_tok,
    {
        self.reused_tok
    }

    /// Pages the cache pins in the pool, each counted once.
    pub fn pinned_pages(&self) -> (pages: u32)
        requires
            self.wf(),
        ensures
            pages == self.pins(),
    {
        let mut pages: u32 = 0;
        let mut i: usize = 0;
        while i < self.entries.len()
            invariant
                self.wf(),
                i <= self.entries@.len(),
                pages == pages_in(self.entries@, i as int),
            decreases self.entries@.len() - i,
        {
            proof {
                pages_are_counted(self.entries@, i + 1, self.entries@.len() as int);
            }
            pages = pages + self.entries[i].own_pages;
            i = i + 1;
        }
        pages
    }

    /// Where the entry `id` stands.
    pub fn find(&self, id: PrefixId) -> (at: Option<usize>)
        ensures
            at is Some <==> held(self.entries@, id),
            at matches Some(i) ==> place(self.entries@, id) == Some(i as int) && i
                < self.entries@.len() && self.entries@[i as int].id == id && entry_of(
                self.entries@,
                id,
            ) == self.entries@[i as int],
    {
        let mut i: usize = 0;
        while i < self.entries.len()
            invariant
                i <= self.entries@.len(),
                place(self.entries@, id) == find_from(self.entries@, id, i as int),
            decreases self.entries@.len() - i,
        {
            if self.entries[i].id == id {
                return Some(i);
            }
            i = i + 1;
        }
        None
    }

    /// References to `id`, 0 for one the cache does not hold.
    pub fn refcount_of(&self, id: PrefixId) -> (n: u32)
        ensures
            n == (if held(self.entries@, id) {
                entry_of(self.entries@, id).refcount
            } else {
                0
            }),
    {
        match self.find(id) {
            Some(at) => self.entries[at].refcount,
            None => 0,
        }
    }

    /// Whether `id` is retained past its requests.
    pub fn is_retained(&self, id: PrefixId) -> (retained: bool)
        ensures
            retained == (held(self.entries@, id) && entry_of(self.entries@, id).retained is Some),
    {
        match self.find(id) {
            Some(at) => self.entries[at].retained.is_some(),
            None => false,
        }
    }

    /// Whole pages of the head `id` names, the chain under it included.
    pub fn total_pages_of(&self, id: PrefixId) -> (pages: u32)
        requires
            self.page_tokens > 0,
        ensures
            pages == (if held(self.entries@, id) {
                whole_pages(entry_of(self.entries@, id).length_tokens, self.page_tokens)
            } else {
                0
            }),
    {
        match self.find(id) {
            Some(at) => self.entries[at].length_tokens / self.page_tokens,
            None => 0,
        }
    }

    /// The retained entries.
    pub fn reclaimable_retained(&self) -> (out: Vec<PrefixId>)
        ensures
            out@ == retained_ids(self.entries@, self.entries@.len() as int),
    {
        let mut out: Vec<PrefixId> = Vec::new();
        let mut i: usize = 0;
        while i < self.entries.len()
            invariant
                i <= self.entries@.len(),
                out@ == retained_ids(self.entries@, i as int),
            decreases self.entries@.len() - i,
        {
            if self.entries[i].retained.is_some() {
                out.push(self.entries[i].id);
            }
            i = i + 1;
        }
        out
    }

    fn longest(&self, keys: &PromptKeys) -> (at: Option<usize>)
        ensures
            at is Some <==> longest_head(self.entries@, keys.keys@, self.entries@.len() as int) is Some,
            at matches Some(i) ==> i < self.entries@.len() && longest_head(
                self.entries@,
                keys.keys@,
                self.entries@.len() as int,
            ) == Some(i as int),
    {
        let mut best: Option<usize> = None;
        let mut i: usize = 0;
        while i < self.entries.len()
            invariant
                i <= self.entries@.len(),
                best is Some <==> longest_head(self.entries@, keys.keys@, i as int) is Some,
                best matches Some(b) ==> b < i && longest_head(self.entries@, keys.keys@, i as int)
                    == Some(b as int),
            decreases self.entries@.len() - i,
        {
            let e = &self.entries[i];
            if e.length_tokens > 0 && keys.matches_at(e.key, e.length_tokens) {
                match best {
                    None => {
                        best = Some(i);
                    },
                    Some(b) => {
                        if e.length_tokens > self.entries[b].length_tokens {
                            best = Some(i);
                        }
                    },
                }
            }
            i = i + 1;
        }
        best
    }

    /// The length of the longest cached head of the prompt, 0 for none.
    pub fn longest_match_tokens(&self, keys: &PromptKeys) -> (tokens: u32)
        ensures
            tokens == (match longest_head(self.entries@, keys.keys@, self.entries@.len() as int) {
                Some(i) => self.entries@[i].length_tokens,
                None => 0,
            }),
    {
        match self.longest(keys) {
            Some(at) => self.entries[at].length_tokens,
            None => 0,
        }
    }

    /// The entry a prompt claims over a reuse of `floor` tokens it has already:
    /// its longest cached head, where that is longer and can be counted.
    pub open spec fn claimable(self, keys: Seq<MatchKey>, floor: u32) -> Option<int> {
        match longest_head(self.entries@, keys, self.entries@.len() as int) {
            Some(i) => if self.entries@[i].length_tokens > floor && self.entries@[i].refcount
                < u32::MAX {
                Some(i)
            } else {
                None
            },
            None => None,
        }
    }

    /// Claim the longest cached head of the prompt that is longer than `floor`.
    pub fn claim_longer_than(&mut self, keys: &PromptKeys, floor: u32) -> (claim: Option<PrefixClaim>)
        requires
            old(self).wf(),
        ensures
            final(self).wf(),
            claim is Some <==> old(self).claimable(keys.keys@, floor) is Some,
            claim is None ==> *final(self) == *old(self),
            claim matches Some(c) ==> {
                let at = old(self).claimable(keys.keys@, floor)->Some_0;
                let e = old(self).entries@[at];
                &&& 0 <= at < old(self).entries@.len()
                &&& c.id == e.id
                &&& c.publisher == e.publisher
                &&& c.tokens == e.length_tokens
                &&& c.pages == whole_pages(e.length_tokens, old(self).page_tokens)
                &&& c.gdn@ == e.gdn@
                &&& final(self).entries@ == old(self).entries@.update(
                    at,
                    PrefixEntry { refcount: (e.refcount + 1) as u32, ..e },
                )
                &&& final(self).reused_tok == (if old(self).reused_tok + c.tokens > u64::MAX {
                    u64::MAX as int
                } else {
                    old(self).reused_tok + c.tokens
                })
                &&& final(self).page_tokens == old(self).page_tokens
                &&& final(self).next_id == old(self).next_id
                &&& final(self).spilled == old(self).spilled
                &&& final(self).next_spill == old(self).next_spill
                &&& final(self).pins() == old(self).pins()
                &&& held(final(self).entries@, c.id)
                &&& retained_count(final(self).entries@) == retained_count(old(self).entries@)
                &&& forall|p: PrefixId| #[trigger]
                    final(self).refs(p) == old(self).refs(p) + (if p == c.id {
                        1int
                    } else {
                        0
                    })
                &&& forall|p: PrefixId| #[trigger]
                    keeps_terms(old(self).entries@, final(self).entries@, p)
            },
    {
        let ghost before = self.entries@;
        match self.longest(keys) {
            None => None,
            Some(at) => {
                if self.entries[at].length_tokens > floor && self.entries[at].refcount < u32::MAX {
                    proof {
                        assert(sound_at(before, self.page_tokens, at as int));
                        place_is_where_it_is(before, self.next_id, at as int);
                    }
                    self.entries[at].refcount = self.entries[at].refcount + 1;
                    self.reused_tok = self.reused_tok.saturating_add(
                        self.entries[at].length_tokens as u64,
                    );
                    proof {
                        self.updated_in_place(before, at as int);
                    }
                    let e = &self.entries[at];
                    Some(
                        PrefixClaim {
                            id: e.id,
                            publisher: e.publisher,
                            tokens: e.length_tokens,
                            pages: e.length_tokens / self.page_tokens,
                            gdn: e.gdn.clone(),
                        },
                    )
                } else {
                    None
                }
            },
        }
    }

    /// What holds once an entry changed in place but for its id, length, pages
    /// and parent.
    proof fn updated_in_place(self, before: Seq<PrefixEntry>, at: int)
        requires
            sound(before, self.page_tokens, self.next_id),
            0 <= at < before.len(),
            self.entries@ == before.update(at, self.entries@[at]),
            self.entries@[at].id == before[at].id,
            self.entries@[at].length_tokens == before[at].length_tokens,
            self.entries@[at].own_pages == before[at].own_pages,
            self.entries@[at].parent == before[at].parent,
            self.entries@[at].refcount >= 1,
            self.entries@[at].refcount - (if self.entries@[at].retained is Some {
                1int
            } else {
                0
            }) - chained_on(before, before[at].id, before.len() as int) >= 0,
        ensures
            sound(self.entries@, self.page_tokens, self.next_id),
            self.pins() == pinned(before),
            forall|p: PrefixId| #[trigger] held(self.entries@, p) == held(before, p),
            forall|p: PrefixId| #[trigger]
                self.refs(p) == outside_refs(before, p) + (if p == before[at].id {
                    self.entries@[at].refcount - before[at].refcount + (
                    if before[at].retained is Some {
                        1int
                    } else {
                        0
                    }) - (if self.entries@[at].retained is Some {
                        1int
                    } else {
                        0
                    })
                } else {
                    0
                }),
            forall|p: PrefixId|
                p != before[at].id && held(before, p) ==> #[trigger] entry_of(self.entries@, p)
                    == entry_of(before, p),
            held(self.entries@, before[at].id),
            entry_of(self.entries@, before[at].id) == self.entries@[at],
            retained_count(self.entries@) == retained_count(before) + (
            if self.entries@[at].retained is Some {
                1int
            } else {
                0
            }) - (if before[at].retained is Some {
                1int
            } else {
                0
            }),
            self.entries@[at].retained == before[at].retained && self.entries@[at].publisher
                == before[at].publisher && self.entries@[at].key == before[at].key ==> forall|
                p: PrefixId,
            | #[trigger] keeps_terms(before, self.entries@, p),
    {
        let with = self.entries@[at];
        update_keeps_soundness(before, self.page_tokens, self.next_id, at, with);
        retained_updated(before, at, with, before.len() as int);
        place_is_where_it_is(before, self.next_id, at);
        place_is_where_it_is(self.entries@, self.next_id, at);
        assert forall|p: PrefixId| #[trigger] held(self.entries@, p) == held(before, p) by {
            place_updated(before, self.next_id, at, with, p);
        }
        assert forall|p: PrefixId|
            p != before[at].id && held(before, p) implies #[trigger] entry_of(self.entries@, p)
            == entry_of(before, p) by {
            place_updated(before, self.next_id, at, with, p);
        }
        assert forall|p: PrefixId| #[trigger]
            self.refs(p) == outside_refs(before, p) + (if p == before[at].id {
                with.refcount - before[at].refcount + (if before[at].retained is Some {
                    1int
                } else {
                    0
                }) - (if with.retained is Some {
                    1int
                } else {
                    0
                })
            } else {
                0
            }) by {
            assert(outside_refs(self.entries@, p) == self.refs(p));
        }
        if with.retained == before[at].retained && with.publisher == before[at].publisher
            && with.key == before[at].key {
            assert forall|p: PrefixId| #[trigger] keeps_terms(before, self.entries@, p) by {
                place_updated(before, self.next_id, at, with, p);
            }
        }
    }

    /// Hold one more reference on `id`, where it is held and can be counted.
    pub fn retain(&mut self, id: PrefixId) -> (taken: bool)
        requires
            old(self).wf(),
        ensures
            final(self).wf(),
            final(self).same_but_entries(*old(self)),
            taken == (held(old(self).entries@, id) && entry_of(old(self).entries@, id).refcount
                < u32::MAX),
            !taken ==> *final(self) == *old(self),
            taken ==> {
                let at = place(old(self).entries@, id)->Some_0;
                let e = old(self).entries@[at];
                &&& final(self).entries@ == old(self).entries@.update(
                    at,
                    PrefixEntry { refcount: (e.refcount + 1) as u32, ..e },
                )
                &&& final(self).pins() == old(self).pins()
                &&& retained_count(final(self).entries@) == retained_count(old(self).entries@)
                &&& held(final(self).entries@, id)
                &&& forall|p: PrefixId| #[trigger]
                    final(self).refs(p) == old(self).refs(p) + (if p == id {
                        1int
                    } else {
                        0
                    })
                &&& forall|p: PrefixId| #[trigger]
                    keeps_terms(old(self).entries@, final(self).entries@, p)
            },
    {
        let ghost before = self.entries@;
        match self.find(id) {
            None => false,
            Some(at) => {
                if self.entries[at].refcount < u32::MAX {
                    proof {
                        assert(sound_at(before, self.page_tokens, at as int));
                        place_is_where_it_is(before, self.next_id, at as int);
                    }
                    self.entries[at].refcount = self.entries[at].refcount + 1;
                    proof {
                        self.updated_in_place(before, at as int);
                    }
                    true
                } else {
                    false
                }
            },
        }
    }

    /// Let one reference to `id` go, and say what dropped.
    pub fn release(&mut self, id: PrefixId) -> (dropped: Vec<DroppedPrefix>)
        requires
            old(self).wf(),
            held(old(self).entries@, id) ==> old(self).refs(id) >= 1,
        ensures
            final(self).wf(),
            final(self).same_but_entries(*old(self)),
            final(self).entries@ == after_release(old(self).entries@, Some(id)),
            dropped@ == dropped_by(old(self).entries@, Some(id)),
            final(self).pins() == old(self).pins() - pages_back(dropped@),
            pages_back(dropped@) >= 0,
            held(old(self).entries@, id) ==> forall|p: PrefixId| #[trigger]
                final(self).refs(p) == old(self).refs(p) - (if p == id {
                    1int
                } else {
                    0
                }),
            forall|p: PrefixId| #[trigger]
                keeps_terms(old(self).entries@, final(self).entries@, p),
            retained_count(final(self).entries@) == retained_count(old(self).entries@),
    {
        let mut dropped: Vec<DroppedPrefix> = Vec::new();
        let mut next: Option<PrefixId> = Some(id);
        let ghost start = self.entries@;
        proof {
            if held(start, id) {
                release_is_sound(start, self.page_tokens, self.next_id, id);
            } else {
                assert(dropped_by(start, Some(id)) =~= Seq::empty());
                assert(after_release(start, Some(id)) == start);
            }
        }
        loop
            invariant
                self.same_but_entries(*old(self)),
                after_release(self.entries@, next) == after_release(start, Some(id)),
                dropped@ + dropped_by(self.entries@, next) == dropped_by(start, Some(id)),
            ensures
                self.same_but_entries(*old(self)),
                self.entries@ == after_release(start, Some(id)),
                dropped@ == dropped_by(start, Some(id)),
            decreases self.entries@.len() + (if next is Some { 1int } else { 0 }),
        {
            let p: PrefixId = match next {
                Some(p) => p,
                None => {
                    assert(dropped@ + dropped_by(self.entries@, None) =~= dropped@);
                    break;
                },
            };
            let ghost was = dropped@;
            match self.find(p) {
                None => {
                    assert(dropped@ + dropped_by(self.entries@, None) =~= dropped@ + dropped_by(self.entries@, next));
                    next = None;
                },
                Some(at) => {
                    if self.entries[at].refcount > 1 {
                        let ghost now = self.entries@;
                        self.entries[at].refcount = self.entries[at].refcount - 1;
                        assert(self.entries@ == after_release(now, next));
                        assert(dropped@ + dropped_by(self.entries@, None) =~= dropped@ + dropped_by(now, next));
                        next = None;
                    } else {
                        let ghost now = self.entries@;
                        let entry = self.entries.remove(at);
                        dropped.push(
                            DroppedPrefix {
                                pages: entry.own_pages,
                                publisher: entry.publisher,
                                tokens: entry.length_tokens,
                            },
                        );
                        assert(dropped@ + dropped_by(self.entries@, entry.parent) =~= was + dropped_by(now, next));
                        next = entry.parent;
                    }
                },
            }
        }
        dropped
    }

    /// Keep `id` past its requests.
    pub fn retain_published(&mut self, id: PrefixId, retention: Retention) -> (took: bool)
        requires
            old(self).wf(),
        ensures
            final(self).wf(),
            final(self).same_but_entries(*old(self)),
            took == (held(old(self).entries@, id) && entry_of(old(self).entries@, id).retained is None
                && entry_of(old(self).entries@, id).refcount < u32::MAX),
            !took ==> *final(self) == *old(self),
            took ==> {
                let at = place(old(self).entries@, id)->Some_0;
                let e = old(self).entries@[at];
                &&& final(self).entries@ == old(self).entries@.update(
                    at,
                    PrefixEntry {
                        refcount: (e.refcount + 1) as u32,
                        retained: Some(retention),
                        ..e
                    },
                )
                &&& final(self).pins() == old(self).pins()
                &&& retained_count(final(self).entries@) == retained_count(old(self).entries@) + 1
                &&& entry_of(final(self).entries@, id).retained == Some(retention)
                &&& entry_of(final(self).entries@, id).publisher == e.publisher
                &&& held(final(self).entries@, id)
                &&& forall|p: PrefixId| #[trigger] final(self).refs(p) == old(self).refs(p)
                &&& forall|p: PrefixId| #[trigger]
                    same_length(old(self).entries@, final(self).entries@, p)
            },
    {
        let ghost before = self.entries@;
        match self.find(id) {
            None => false,
            Some(at) => {
                if self.entries[at].retained.is_none() && self.entries[at].refcount < u32::MAX {
                    proof {
                        assert(sound_at(before, self.page_tokens, at as int));
                        place_is_where_it_is(before, self.next_id, at as int);
                    }
                    self.entries[at].refcount = self.entries[at].refcount + 1;
                    self.entries[at].retained = Some(retention);
                    proof {
                        assert(self.entries@ =~= before.update(at as int, self.entries@[at as int]));
                        self.updated_in_place(before, at as int);
                        assert forall|p: PrefixId| #[trigger]
                            same_length(before, self.entries@, p) by {
                            place_updated(before, self.next_id, at as int, self.entries@[at as int], p);
                        }
                    }
                    true
                } else {
                    false
                }
            },
        }
    }

    /// Give up `id`'s retention; its reference is the caller's to release.
    pub fn unretain(&mut self, id: PrefixId) -> (was: bool)
        requires
            old(self).wf(),
        ensures
            final(self).wf(),
            final(self).same_but_entries(*old(self)),
            was == (held(old(self).entries@, id) && entry_of(old(self).entries@, id).retained is Some),
            !was ==> *final(self) == *old(self),
            was ==> {
                let at = place(old(self).entries@, id)->Some_0;
                let e = old(self).entries@[at];
                &&& final(self).entries@ == old(self).entries@.update(
                    at,
                    PrefixEntry { retained: None, ..e },
                )
                &&& final(self).pins() == old(self).pins()
                &&& retained_count(final(self).entries@) == retained_count(old(self).entries@) - 1
                &&& held(final(self).entries@, id)
                &&& forall|p: PrefixId| #[trigger]
                    final(self).refs(p) == old(self).refs(p) + (if p == id {
                        1int
                    } else {
                        0
                    })
                &&& forall|p: PrefixId| #[trigger]
                    same_length(old(self).entries@, final(self).entries@, p)
            },
    {
        let ghost before = self.entries@;
        match self.find(id) {
            None => false,
            Some(at) => {
                if self.entries[at].retained.is_some() {
                    proof {
                        assert(sound_at(before, self.page_tokens, at as int));
                        place_is_where_it_is(before, self.next_id, at as int);
                    }
                    self.entries[at].retained = None;
                    proof {
                        self.updated_in_place(before, at as int);
                        assert forall|p: PrefixId| #[trigger]
                            same_length(before, self.entries@, p) by {
                            place_updated(before, self.next_id, at as int, self.entries@[at as int], p);
                        }
                    }
                    true
                } else {
                    false
                }
            },
        }
    }

    /// Note a use of `id`, if it is retained.
    pub fn touch_retained(&mut self, id: PrefixId, at_tick: u64, used_at: u64)
        requires
            old(self).wf(),
        ensures
            final(self).wf(),
            final(self).same_but_entries(*old(self)),
            retained_count(final(self).entries@) == retained_count(old(self).entries@),
            final(self).pins() == old(self).pins(),
            forall|p: PrefixId| #[trigger] final(self).refs(p) == old(self).refs(p),
            forall|p: PrefixId| #[trigger]
                same_length(old(self).entries@, final(self).entries@, p),
            !(held(old(self).entries@, id) && entry_of(old(self).entries@, id).retained is Some)
                ==> *final(self) == *old(self),
            held(old(self).entries@, id) ==> (entry_of(old(self).entries@, id).retained matches Some(r)
                ==> {
                let at = place(old(self).entries@, id)->Some_0;
                final(self).entries@ == old(self).entries@.update(
                    at,
                    PrefixEntry {
                        retained: Some(Retention { at: at_tick, used_at, ..r }),
                        ..old(self).entries@[at]
                    },
                )
            }),
    {
        let ghost before = self.entries@;
        if let Some(at) = self.find(id) {
            if let Some(r) = self.entries[at].retained {
                proof {
                    assert(sound_at(before, self.page_tokens, at as int));
                    place_is_where_it_is(before, self.next_id, at as int);
                }
                self.entries[at].retained = Some(Retention { at: at_tick, class: r.class, used_at });
                proof {
                    self.updated_in_place(before, at as int);
                    assert forall|p: PrefixId| #[trigger] same_length(before, self.entries@, p) by {
                        place_updated(before, self.next_id, at as int, self.entries@[at as int], p);
                    }
                }
            }
        }
    }

    /// The least recently used entry only its retention holds.
    pub fn lru_retained(&self) -> (victim: Option<PrefixId>)
        requires
            self.wf(),
        ensures
            victim is None <==> forall|j: int|
                0 <= j < self.entries@.len() ==> !only_retained(#[trigger] self.entries@[j]),
            victim matches Some(id) ==> held(self.entries@, id) && only_retained(
                entry_of(self.entries@, id),
            ) && forall|j: int|
                0 <= j < self.entries@.len() && only_retained(#[trigger] self.entries@[j])
                    ==> !staler(self.entries@[j], entry_of(self.entries@, id)),
    {
        let mut best: Option<usize> = None;
        let mut i: usize = 0;
        while i < self.entries.len()
            invariant
                i <= self.entries@.len(),
                best is None <==> forall|j: int|
                    0 <= j < i ==> !only_retained(#[trigger] self.entries@[j]),
                best matches Some(b) ==> b < i && only_retained(self.entries@[b as int]) && forall|
                    j: int,
                |
                    0 <= j < i && only_retained(#[trigger] self.entries@[j]) ==> !staler(
                        self.entries@[j],
                        self.entries@[b as int],
                    ),
            decreases self.entries@.len() - i,
        {
            let e = &self.entries[i];
            if let Some(r) = e.retained {
                if e.refcount == 1 {
                    assert(only_retained(self.entries@[i as int]));
                    match best {
                        None => {
                            best = Some(i);
                        },
                        Some(b) => {
                            let held_at: u64 = match self.entries[b].retained {
                                Some(r) => r.at,
                                None => 0,
                            };
                            if r.at < held_at || (r.at == held_at && e.id < self.entries[b].id) {
                                best = Some(i);
                            }
                        },
                    }
                }
            }
            i = i + 1;
        }
        match best {
            Some(b) => {
                proof {
                    place_is_where_it_is(self.entries@, self.next_id, b as int);
                }
                Some(self.entries[b].id)
            },
            None => None,
        }
    }

    /// The retained entry to give up for its slot: Agent before Interactive,
    /// the least recently used, only while its retention alone holds it.
    pub fn retained_slot_victim(&self) -> (victim: Option<PrefixId>)
        requires
            self.wf(),
        ensures
            victim is None <==> forall|j: int|
                0 <= j < self.entries@.len() ==> !only_retained(#[trigger] self.entries@[j]),
            victim matches Some(id) ==> held(self.entries@, id) && only_retained(
                entry_of(self.entries@, id),
            ) && forall|j: int|
                0 <= j < self.entries@.len() && only_retained(#[trigger] self.entries@[j])
                    ==> !cheaper_slot(self.entries@[j], entry_of(self.entries@, id)),
    {
        let mut best: Option<usize> = None;
        let mut i: usize = 0;
        while i < self.entries.len()
            invariant
                i <= self.entries@.len(),
                best is None <==> forall|j: int|
                    0 <= j < i ==> !only_retained(#[trigger] self.entries@[j]),
                best matches Some(b) ==> b < i && only_retained(self.entries@[b as int]) && forall|
                    j: int,
                |
                    0 <= j < i && only_retained(#[trigger] self.entries@[j]) ==> !cheaper_slot(
                        self.entries@[j],
                        self.entries@[b as int],
                    ),
            decreases self.entries@.len() - i,
        {
            let e = &self.entries[i];
            if let Some(r) = e.retained {
                if e.refcount == 1 {
                    assert(only_retained(self.entries@[i as int]));
                    match best {
                        None => {
                            best = Some(i);
                        },
                        Some(b) => {
                            if let Some(other) = self.entries[b].retained {
                                let cheaper: bool = if r.class != other.class {
                                    r.class == RequestClass::Agent
                                } else {
                                    r.at < other.at || (r.at == other.at && e.id
                                        < self.entries[b].id)
                                };
                                if cheaper {
                                    best = Some(i);
                                }
                            }
                        },
                    }
                }
            }
            i = i + 1;
        }
        match best {
            Some(b) => {
                proof {
                    place_is_where_it_is(self.entries@, self.next_id, b as int);
                }
                Some(self.entries[b].id)
            },
            None => None,
        }
    }

    /// Whether this head can be registered: whole pages of it, nothing that
    /// names it already, and a recurrent state resumable at its end.
    pub open spec fn registrable(
        self,
        key: MatchKey,
        tokens: u32,
        gdn: GdnState,
        parent: Option<PrefixId>,
    ) -> bool {
        &&& tokens > 0
        &&& tokens % self.page_tokens == 0
        &&& !registered(self.entries@, key, tokens)
        &&& gdn@.boundaries.contains(tokens as nat)
        &&& parent matches Some(p) ==> held(self.entries@, p) && entry_of(
            self.entries@,
            p,
        ).length_tokens <= tokens
        &&& self.next_id < u64::MAX
        &&& self.pins() + pages_past(self.entries@, tokens, self.page_tokens, parent) <= u32::MAX
    }

    /// The cache after `publisher` registered a head, with one outside
    /// reference on it.
    pub open spec fn registers(
        self,
        publisher: RequestId,
        key: MatchKey,
        tokens: u32,
        gdn: GdnState,
        parent: Option<PrefixId>,
        after: PrefixCache,
    ) -> bool {
        &&& after.entries@.len() == self.entries@.len() + 1
        &&& after.entries@.drop_last() == self.entries@
        &&& ({
            let e = after.entries@.last();
            &&& e.id == self.next_id
            &&& e.publisher == publisher
            &&& e.key == key
            &&& e.length_tokens == tokens
            &&& e.own_pages == pages_past(self.entries@, tokens, self.page_tokens, parent)
            &&& e.parent == parent
            &&& e.refcount == 1
            &&& e.gdn@ == gdn@
            &&& e.retained is None
            &&& e.copy is None
        })
        &&& after.next_id == self.next_id + 1
        &&& after.page_tokens == self.page_tokens
        &&& after.reused_tok == self.reused_tok
        &&& after.spilled == self.spilled
        &&& after.next_spill == self.next_spill
    }

    /// Register a published head, chained on `parent`, whose outside reference
    /// passes to the new entry. Gives the entry and the pages it owns.
    pub fn register(
        &mut self,
        publisher: RequestId,
        key: MatchKey,
        tokens: u32,
        gdn: &GdnState,
        parent: Option<PrefixId>,
    ) -> (entry: Option<(PrefixId, u32)>)
        requires
            old(self).wf(),
            parent matches Some(p) ==> held(old(self).entries@, p) ==> old(self).refs(p) >= 1,
        ensures
            final(self).wf(),
            entry is Some <==> old(self).registrable(key, tokens, *gdn, parent),
            entry is None ==> *final(self) == *old(self),
            entry matches Some((id, pages)) ==> {
                &&& id == old(self).next_id
                &&& pages == pages_past(old(self).entries@, tokens, old(self).page_tokens, parent)
                &&& old(self).registers(publisher, key, tokens, *gdn, parent, *final(self))
                &&& final(self).pins() == old(self).pins() + pages
                &&& retained_count(final(self).entries@) == retained_count(old(self).entries@)
                &&& held(final(self).entries@, id)
                &&& entry_of(final(self).entries@, id) == final(self).entries@.last()
                &&& !held(old(self).entries@, id)
                &&& forall|p: PrefixId| #[trigger]
                    final(self).refs(p) == old(self).refs(p) + (if p == id {
                        1int
                    } else {
                        0
                    }) - (if parent == Some(p) {
                        1int
                    } else {
                        0
                    })
                &&& forall|p: PrefixId|
                    p != id ==> #[trigger] keeps_terms(old(self).entries@, final(self).entries@, p)
            },
    {
        if tokens == 0 || tokens % self.page_tokens != 0 || self.next_id == u64::MAX {
            return None;
        }
        if self.names_head(key, tokens) || !gdn.can_resume_at(tokens as usize) {
            return None;
        }
        let under: u32 = match parent {
            None => 0,
            Some(p) => match self.find(p) {
                None => {
                    return None;
                },
                Some(at) => {
                    if self.entries[at].length_tokens > tokens {
                        return None;
                    }
                    proof {
                        whole_pages_grow(self.entries@[at as int].length_tokens, tokens, self.page_tokens);
                    }
                    self.entries[at].length_tokens / self.page_tokens
                },
            },
        };
        let own_pages: u32 = tokens / self.page_tokens - under;
        if own_pages > u32::MAX - self.pinned_pages() {
            return None;
        }
        let ghost before = *self;
        let id: PrefixId = self.next_id;
        self.next_id = self.next_id + 1;
        let state = gdn.clone();
        self.entries.push(
            PrefixEntry {
                id,
                publisher,
                key,
                length_tokens: tokens,
                own_pages,
                parent,
                refcount: 1,
                gdn: state,
                retained: None,
                copy: None,
            },
        );
        proof {
            assert(self.entries@.drop_last() =~= before.entries@);
            push_is_sound(before.entries@, self.entries@, self.page_tokens, before.next_id);
            retained_same(before.entries@, self.entries@, before.entries@.len() as int);
            assert forall|p: PrefixId| #[trigger]
                self.refs(p) == before.refs(p) + (if p == id {
                    1int
                } else {
                    0
                }) - (if parent == Some(p) {
                    1int
                } else {
                    0
                }) by {
                assert(outside_refs(self.entries@, p) == self.refs(p));
            }
            place_pushed(before.entries@, self.entries@, before.next_id, id);
            assert forall|p: PrefixId|
                p != id implies #[trigger] keeps_terms(before.entries@, self.entries@, p) by {
                place_pushed(before.entries@, self.entries@, before.next_id, p);
            }
        }
        Some((id, own_pages))
    }

    /// Whether the cache already names this head.
    pub fn names_head(&self, key: MatchKey, tokens: u32) -> (named: bool)
        ensures
            named == registered(self.entries@, key, tokens),
    {
        let mut i: usize = 0;
        while i < self.entries.len()
            invariant
                i <= self.entries@.len(),
                forall|j: int|
                    0 <= j < i ==> !((#[trigger] self.entries@[j]).key == key
                        && self.entries@[j].length_tokens == tokens),
            decreases self.entries@.len() - i,
        {
            if self.entries[i].key == key && self.entries[i].length_tokens == tokens {
                return true;
            }
            i = i + 1;
        }
        false
    }

    /// Where the host-memory copy `id` stands.
    pub fn find_copy(&self, id: SpilledPrefixId) -> (at: Option<usize>)
        ensures
            at is None <==> forall|j: int|
                0 <= j < self.spilled@.len() ==> (#[trigger] self.spilled@[j]).id != id,
            at matches Some(i) ==> i < self.spilled@.len() && self.spilled@[i as int].id == id,
    {
        let mut i: usize = 0;
        while i < self.spilled.len()
            invariant
                i <= self.spilled@.len(),
                forall|j: int| 0 <= j < i ==> (#[trigger] self.spilled@[j]).id != id,
            decreases self.spilled@.len() - i,
        {
            if self.spilled[i].id == id {
                return Some(i);
            }
            i = i + 1;
        }
        None
    }

    /// Record that `entry`, a retained one, was copied to host memory.
    pub fn record_spill(&mut self, entry: PrefixId) -> (copy: Option<SpilledPrefixId>)
        requires
            old(self).wf(),
        ensures
            final(self).wf(),
            final(self).page_tokens == old(self).page_tokens,
            final(self).next_id == old(self).next_id,
            final(self).reused_tok == old(self).reused_tok,
            retained_count(final(self).entries@) == retained_count(old(self).entries@),
            final(self).pins() == old(self).pins(),
            forall|p: PrefixId| #[trigger] final(self).refs(p) == old(self).refs(p),
            forall|p: PrefixId| #[trigger]
                keeps_terms(old(self).entries@, final(self).entries@, p),
            forall|p: PrefixId| #[trigger] held(final(self).entries@, p) == held(old(self).entries@, p),
            copy is Some <==> held(old(self).entries@, entry) && entry_of(
                old(self).entries@,
                entry,
            ).retained is Some && old(self).next_spill < u64::MAX,
            copy is None ==> *final(self) == *old(self),
            copy matches Some(id) ==> {
                let at = place(old(self).entries@, entry)->Some_0;
                let e = old(self).entries@[at];
                let s = final(self).spilled@.last();
                &&& id == old(self).next_spill
                &&& final(self).next_spill == id + 1
                &&& entry_of(final(self).entries@, entry).copy == Some(id)
                &&& final(self).entries@ == old(self).entries@.update(
                    at,
                    PrefixEntry { copy: Some(id), ..e },
                )
                &&& final(self).spilled@.drop_last() == old(self).spilled@
                &&& final(self).spilled@.len() == old(self).spilled@.len() + 1
                &&& s.id == id
                &&& s.publisher == e.publisher
                &&& s.key == e.key
                &&& s.length_tokens == e.length_tokens
                &&& s.gdn@ == e.gdn@
                &&& s.class == e.retained->Some_0.class
            },
    {
        let ghost before = *self;
        let at: usize = match self.find(entry) {
            Some(at) => at,
            None => {
                return None;
            },
        };
        let class: RequestClass = match self.entries[at].retained {
            Some(r) => r.class,
            None => {
                return None;
            },
        };
        if self.next_spill == u64::MAX {
            return None;
        }
        let id: SpilledPrefixId = self.next_spill;
        self.next_spill = self.next_spill + 1;
        let copy = SpilledPrefix {
            id,
            publisher: self.entries[at].publisher,
            key: self.entries[at].key,
            length_tokens: self.entries[at].length_tokens,
            gdn: self.entries[at].gdn.clone(),
            class,
        };
        self.spilled.push(copy);
        self.entries[at].copy = Some(id);
        proof {
            assert(sound_at(before.entries@, before.page_tokens, at as int));
            place_is_where_it_is(before.entries@, before.next_id, at as int);
            self.updated_in_place(before.entries@, at as int);
            assert(self.spilled@.drop_last() =~= before.spilled@);
        }
        Some(id)
    }

    /// The host-memory copy of `entry`, if it has one.
    pub fn spilled_copy_of(&self, entry: PrefixId) -> (copy: Option<SpilledPrefixId>)
        ensures
            copy == (if held(self.entries@, entry) {
                entry_of(self.entries@, entry).copy
            } else {
                None
            }),
    {
        match self.find(entry) {
            Some(at) => self.entries[at].copy,
            None => None,
        }
    }

    /// Forget the host-memory copy `id`.
    pub fn forget_spilled(&mut self, id: SpilledPrefixId) -> (forgotten: Option<SpilledPrefix>)
        requires
            old(self).wf(),
        ensures
            final(self).wf(),
            final(self).page_tokens == old(self).page_tokens,
            final(self).next_id == old(self).next_id,
            final(self).reused_tok == old(self).reused_tok,
            final(self).next_spill == old(self).next_spill,
            retained_count(final(self).entries@) == retained_count(old(self).entries@),
            final(self).pins() == old(self).pins(),
            forall|p: PrefixId| #[trigger] final(self).refs(p) == old(self).refs(p),
            forall|p: PrefixId| #[trigger]
                keeps_terms(old(self).entries@, final(self).entries@, p),
            forall|p: PrefixId| #[trigger] held(final(self).entries@, p) == held(old(self).entries@, p),
            forgotten is None <==> forall|j: int|
                0 <= j < old(self).spilled@.len() ==> (#[trigger] old(self).spilled@[j]).id != id,
            forgotten is None ==> *final(self) == *old(self),
            forgotten matches Some(s) ==> exists|at: int|
                0 <= at < old(self).spilled@.len() && #[trigger] old(self).spilled@[at] == s && s.id
                    == id && final(self).spilled@ == old(self).spilled@.remove(at),
            forgotten is Some ==> copies_cleared(old(self).entries@, final(self).entries@, id),
    {
        let ghost before = *self;
        let at: usize = match self.find_copy(id) {
            Some(at) => at,
            None => {
                return None;
            },
        };
        let copy = self.spilled.remove(at);
        let mut i: usize = 0;
        while i < self.entries.len()
            invariant
                i <= self.entries@.len(),
                self.entries@.len() == before.entries@.len(),
                self.page_tokens == before.page_tokens,
                self.next_id == before.next_id,
                self.reused_tok == before.reused_tok,
                self.next_spill == before.next_spill,
                self.spilled@ == before.spilled@.remove(at as int),
                forall|j: int|
                    0 <= j < before.entries@.len() ==> #[trigger] self.entries@[j] == (if j < i
                        && before.entries@[j].copy == Some(id) {
                        PrefixEntry { copy: None, ..before.entries@[j] }
                    } else {
                        before.entries@[j]
                    }),
            decreases self.entries@.len() - i,
        {
            let named: bool = match self.entries[i].copy {
                Some(c) => c == id,
                None => false,
            };
            if named {
                self.entries[i].copy = None;
            }
            i = i + 1;
        }
        proof {
            copies_do_not_matter(before.entries@, self.entries@, self.page_tokens, self.next_id);
            retained_same(before.entries@, self.entries@, before.entries@.len() as int);
            assert forall|p: PrefixId| #[trigger] self.refs(p) == before.refs(p) by {
                assert(outside_refs(self.entries@, p) == outside_refs(before.entries@, p));
            }
            assert forall|i: int, j: int| 0 <= i < j < self.spilled@.len() implies (
            #[trigger] self.spilled@[i]).id < (#[trigger] self.spilled@[j]).id by {
                let a = if i < at { i } else { i + 1 };
                let b = if j < at { j } else { j + 1 };
                assert(self.spilled@[i] == before.spilled@[a]);
                assert(self.spilled@[j] == before.spilled@[b]);
            }
            assert(before.spilled@[at as int] == copy);
        }
        Some(copy)
    }

    /// Note that `entry` stands for the host-memory copy `id` again.
    pub fn record_return(&mut self, id: SpilledPrefixId, entry: PrefixId)
        requires
            old(self).wf(),
        ensures
            final(self).wf(),
            final(self).same_but_entries(*old(self)),
            retained_count(final(self).entries@) == retained_count(old(self).entries@),
            final(self).pins() == old(self).pins(),
            forall|p: PrefixId| #[trigger] final(self).refs(p) == old(self).refs(p),
            forall|p: PrefixId| #[trigger]
                keeps_terms(old(self).entries@, final(self).entries@, p),
            forall|p: PrefixId| #[trigger] held(final(self).entries@, p) == held(old(self).entries@, p),
            !held(old(self).entries@, entry) ==> *final(self) == *old(self),
            held(old(self).entries@, entry) ==> {
                let at = place(old(self).entries@, entry)->Some_0;
                &&& final(self).entries@ == old(self).entries@.update(
                    at,
                    PrefixEntry { copy: Some(id), ..old(self).entries@[at] },
                )
                &&& entry_of(final(self).entries@, entry).copy == Some(id)
            },
    {
        let ghost before = self.entries@;
        if let Some(at) = self.find(entry) {
            proof {
                assert(sound_at(before, self.page_tokens, at as int));
                place_is_where_it_is(before, self.next_id, at as int);
            }
            self.entries[at].copy = Some(id);
            proof {
                self.updated_in_place(before, at as int);
            }
        }
    }

    /// The longest host-memory copy the prompt begins with.
    pub fn longest_spilled_match(&self, keys: &PromptKeys) -> (at: Option<usize>)
        ensures
            at is Some <==> longest_copy(self.spilled@, keys.keys@, self.spilled@.len() as int) is Some,
            at matches Some(i) ==> i < self.spilled@.len() && longest_copy(
                self.spilled@,
                keys.keys@,
                self.spilled@.len() as int,
            ) == Some(i as int),
    {
        let mut best: Option<usize> = None;
        let mut i: usize = 0;
        while i < self.spilled.len()
            invariant
                i <= self.spilled@.len(),
                best is Some <==> longest_copy(self.spilled@, keys.keys@, i as int) is Some,
                best matches Some(b) ==> b < i && longest_copy(self.spilled@, keys.keys@, i as int)
                    == Some(b as int),
            decreases self.spilled@.len() - i,
        {
            let e = &self.spilled[i];
            if e.length_tokens > 0 && keys.matches_at(e.key, e.length_tokens) {
                match best {
                    None => {
                        best = Some(i);
                    },
                    Some(b) => {
                        if e.length_tokens > self.spilled[b].length_tokens {
                            best = Some(i);
                        }
                    },
                }
            }
            i = i + 1;
        }
        best
    }

    /// The whole pages of a prompt's first `reach` tokens, in tokens.
    pub fn shareable_head_tokens(&self, reach: u32) -> (tokens: u32)
        requires
            self.page_tokens > 0,
        ensures
            tokens == whole_pages(reach, self.page_tokens) * self.page_tokens,
            tokens <= reach,
            tokens % self.page_tokens == 0,
            reach < tokens + self.page_tokens,
    {
        proof {
            crate::request::pages_around(
                reach as int,
                self.page_tokens as int,
                reach as int / self.page_tokens as int,
            );
            floored(reach, self.page_tokens);
        }
        (reach / self.page_tokens) * self.page_tokens
    }
}

/// A floor to whole pages fits, and is whole pages.
pub proof fn floored(tokens: u32, page_tokens: u32)
    requires
        page_tokens > 0,
    ensures
        0 <= whole_pages(tokens, page_tokens) * page_tokens <= tokens,
        whole_pages(tokens, page_tokens) >= 0,
        (whole_pages(tokens, page_tokens) * page_tokens) % (page_tokens as int) == 0,
        whole_pages((whole_pages(tokens, page_tokens) * page_tokens) as u32, page_tokens)
            == whole_pages(tokens, page_tokens),
{
    let t = tokens as int;
    let p = page_tokens as int;
    let q = t / p;
    vstd::arithmetic::div_mod::lemma_fundamental_div_mod(t, p);
    vstd::arithmetic::mul::lemma_mul_is_commutative(q, p);
    vstd::arithmetic::div_mod::lemma_div_pos_is_pos(t, p);
    vstd::arithmetic::mul::lemma_mul_nonnegative(q, p);
    vstd::arithmetic::div_mod::lemma_mod_multiples_basic(q, p);
    vstd::arithmetic::div_mod::lemma_div_multiples_vanish(q, p);
    vstd::arithmetic::div_mod::lemma_mod_bound(t, p);
}

/// A longer head has no fewer whole pages.
pub proof fn whole_pages_grow(a: u32, b: u32, page_tokens: u32)
    requires
        page_tokens > 0,
        a <= b,
    ensures
        0 <= whole_pages(a, page_tokens) <= whole_pages(b, page_tokens),
{
    vstd::arithmetic::div_mod::lemma_div_is_ordered(a as int, b as int, page_tokens as int);
    vstd::arithmetic::div_mod::lemma_div_pos_is_pos(a as int, page_tokens as int);
}

/// `after` is `before` with no entry standing for the copy `id`.
pub open spec fn copies_cleared(
    before: Seq<PrefixEntry>,
    after: Seq<PrefixEntry>,
    id: SpilledPrefixId,
) -> bool {
    &&& after.len() == before.len()
    &&& forall|j: int|
        0 <= j < before.len() ==> #[trigger] after[j] == (if before[j].copy == Some(id) {
            PrefixEntry { copy: None, ..before[j] }
        } else {
            before[j]
        })
}

/// Which copies entries stand for is no part of what the cache counts.
proof fn copies_do_not_matter(
    a: Seq<PrefixEntry>,
    b: Seq<PrefixEntry>,
    page_tokens: u32,
    bound: PrefixId,
)
    requires
        sound(a, page_tokens, bound),
        a.len() == b.len(),
        forall|j: int|
            0 <= j < a.len() ==> #[trigger] b[j] == (PrefixEntry { copy: b[j].copy, ..a[j] }),
    ensures
        sound(b, page_tokens, bound),
        pinned(b) == pinned(a),
        forall|p: PrefixId| #[trigger] outside_refs(b, p) == outside_refs(a, p),
        forall|p: PrefixId| #[trigger] held(b, p) == held(a, p),
        forall|p: PrefixId| #[trigger] keeps_terms(a, b, p),
{
    assert forall|j: int| 0 <= j < a.len() implies (#[trigger] b[j]).id == a[j].id by {}
    pages_same(a, b, a.len() as int);
    assert forall|p: PrefixId| #[trigger] held(b, p) == held(a, p) by {
        find_from_is_first(a, p, 0);
        find_from_is_first(b, p, 0);
        if held(a, p) {
            assert(b[place(a, p)->Some_0].id == p);
        }
        if held(b, p) {
            assert(a[place(b, p)->Some_0].id == p);
        }
    }
    assert forall|p: PrefixId| held(a, p) implies #[trigger] place(b, p) == place(a, p) by {
        find_from_is_first(a, p, 0);
        let i = place(a, p)->Some_0;
        assert(b[i].id == p);
        place_is_where_it_is(b, bound, i);
    }
    assert forall|p: PrefixId| #[trigger] outside_refs(b, p) == outside_refs(a, p) by {
        chained_same(a, b, p, a.len() as int);
        find_from_is_first(a, p, 0);
        assert(held(b, p) == held(a, p));
        if held(a, p) {
            assert(place(b, p) == place(a, p));
        }
    }
    assert forall|p: PrefixId| #[trigger] keeps_terms(a, b, p) by {
        find_from_is_first(a, p, 0);
        assert(held(b, p) == held(a, p));
        if held(a, p) {
            assert(place(b, p) == place(a, p));
        }
    }
    assert forall|i: int| 0 <= i < b.len() implies #[trigger] sound_at(b, page_tokens, i) by {
        assert(sound_at(a, page_tokens, i));
        assert(outside_refs(b, b[i].id) == outside_refs(a, a[i].id));
        if let Some(p) = b[i].parent {
            assert(held(b, p) == held(a, p));
            assert(keeps_terms(a, b, p));
        }
    }
}

/// Where an id stands once an entry was pushed.
proof fn place_pushed(a: Seq<PrefixEntry>, b: Seq<PrefixEntry>, bound: PrefixId, id: PrefixId)
    requires
        ids_ascend(a, bound),
        b.len() == a.len() + 1,
        b.drop_last() == a,
        b.last().id == bound,
        bound < u64::MAX,
    ensures
        ids_ascend(b, (bound + 1) as u64),
        held(b, id) == (held(a, id) || id == bound),
        held(a, id) ==> place(b, id) == place(a, id) && entry_of(b, id) == entry_of(a, id),
        id == bound ==> !held(a, id) && entry_of(b, id) == b.last(),
{
    assert forall|i: int| 0 <= i < a.len() implies #[trigger] b[i] == a[i] by {
        assert(b.drop_last()[i] == b[i]);
    }
    assert(ids_ascend(b, (bound + 1) as u64));
    find_from_is_first(a, id, 0);
    find_from_is_first(b, id, 0);
    if held(a, id) {
        let p = place(a, id)->Some_0;
        assert(b[p] == a[p]);
        place_is_where_it_is(b, (bound + 1) as u64, p);
    }
    if id == bound {
        assert(b[b.len() - 1].id == bound);
        place_is_where_it_is(b, (bound + 1) as u64, b.len() - 1);
    } else if held(b, id) {
        let p = place(b, id)->Some_0;
        assert(p < a.len());
        assert(a[p].id == id);
    }
}

/// A registered head keeps the cache sound: it takes over the registrant's
/// reference on the entry under it, and gets one of its own.
proof fn push_is_sound(
    a: Seq<PrefixEntry>,
    b: Seq<PrefixEntry>,
    page_tokens: u32,
    bound: PrefixId,
)
    requires
        sound(a, page_tokens, bound),
        bound < u64::MAX,
        b.len() == a.len() + 1,
        b.drop_last() == a,
        b.last().id == bound,
        b.last().refcount == 1,
        b.last().retained is None,
        b.last().own_pages == pages_past(a, b.last().length_tokens, page_tokens, b.last().parent),
        b.last().parent matches Some(p) ==> held(a, p) && outside_refs(a, p) >= 1 && entry_of(
            a,
            p,
        ).length_tokens <= b.last().length_tokens,
        pinned(a) + b.last().own_pages <= u32::MAX,
    ensures
        sound(b, page_tokens, (bound + 1) as u64),
        pinned(b) == pinned(a) + b.last().own_pages,
        forall|p: PrefixId| #[trigger]
            outside_refs(b, p) == outside_refs(a, p) + (if p == bound {
                1int
            } else {
                0
            }) - (if b.last().parent == Some(p) {
                1int
            } else {
                0
            }),
{
    let n = a.len() as int;
    assert forall|i: int| 0 <= i < n implies #[trigger] b[i] == a[i] by {
        assert(b.drop_last()[i] == b[i]);
    }
    pages_same(a, b, n);
    find_from_is_first(a, bound, 0);
    assert forall|p: PrefixId| #[trigger]
        outside_refs(b, p) == outside_refs(a, p) + (if p == bound {
            1int
        } else {
            0
        }) - (if b.last().parent == Some(p) {
            1int
        } else {
            0
        }) by {
        place_pushed(a, b, bound, p);
        chained_same(a, b, p, n);
        if p == bound {
            nothing_is_chained_on_the_next(a, page_tokens, bound, n);
        }
    }
    assert forall|i: int| 0 <= i < b.len() implies #[trigger] sound_at(b, page_tokens, i) by {
        if i < n {
            assert(sound_at(a, page_tokens, i));
            if let Some(p) = b[i].parent {
                place_pushed(a, b, bound, p);
            }
            assert(outside_refs(b, b[i].id) >= 0) by {
                assert(outside_refs(a, a[i].id) >= 0);
            }
        } else {
            if let Some(p) = b[i].parent {
                place_pushed(a, b, bound, p);
                find_from_is_first(a, p, 0);
                assert(a[place(a, p)->Some_0].id < bound);
            }
            assert(outside_refs(b, bound) == 1);
        }
    }
    place_pushed(a, b, bound, bound);
}

proof fn nothing_is_chained_on_the_next(
    entries: Seq<PrefixEntry>,
    page_tokens: u32,
    bound: PrefixId,
    n: int,
)
    requires
        sound(entries, page_tokens, bound),
        0 <= n <= entries.len(),
    ensures
        chained_on(entries, bound, n) == 0,
    decreases n,
{
    if n > 0 {
        nothing_is_chained_on_the_next(entries, page_tokens, bound, n - 1);
        assert(sound_at(entries, page_tokens, n - 1));
        assert(entries[n - 1].id < bound);
    }
}

/// An entry of `b` is an entry of `a` with the same content, length and pages.
pub open spec fn same_length(a: Seq<PrefixEntry>, b: Seq<PrefixEntry>, id: PrefixId) -> bool {
    held(b, id) ==> held(a, id) && entry_of(b, id).length_tokens == entry_of(a, id).length_tokens
        && entry_of(b, id).own_pages == entry_of(a, id).own_pages && entry_of(b, id).key
        == entry_of(a, id).key
}

/// The head found for a prompt has the key of the prompt's own content at its
/// length, no head with such a key is longer, and of those as long it is the
/// oldest; where none is found there is none.
pub proof fn the_longest_head_is_found(
    entries: Seq<PrefixEntry>,
    keys: Seq<MatchKey>,
    n: int,
    j: int,
)
    requires
        0 <= j < n <= entries.len(),
    ensures
        ({
            let matches_at = |i: int|
                0 < entries[i].length_tokens < keys.len() && keys[entries[i].length_tokens as int]
                    == entries[i].key;
            match longest_head(entries, keys, n) {
                Some(i) => {
                    &&& 0 <= i < n
                    &&& matches_at(i)
                    &&& matches_at(j) ==> entries[j].length_tokens < entries[i].length_tokens || (
                    entries[j].length_tokens == entries[i].length_tokens && i <= j)
                },
                None => !matches_at(j),
            }
        }),
    decreases n,
{
    longest_head_is_a_match(entries, keys, n);
    longest_head_is_a_match(entries, keys, n - 1);
    if j < n - 1 {
        the_longest_head_is_found(entries, keys, n - 1, j);
    }
}

/// The copy found for a prompt has the key of the prompt's own content at its
/// length, no copy with such a key is longer, and of those as long it is the
/// oldest; where none is found there is none.
pub proof fn the_longest_copy_is_found(
    copies: Seq<SpilledPrefix>,
    keys: Seq<MatchKey>,
    n: int,
    j: int,
)
    requires
        0 <= j < n <= copies.len(),
    ensures
        ({
            let matches_at = |i: int|
                0 < copies[i].length_tokens < keys.len() && keys[copies[i].length_tokens as int]
                    == copies[i].key;
            match longest_copy(copies, keys, n) {
                Some(i) => {
                    &&& 0 <= i < n
                    &&& matches_at(i)
                    &&& matches_at(j) ==> copies[j].length_tokens < copies[i].length_tokens || (
                    copies[j].length_tokens == copies[i].length_tokens && i <= j)
                },
                None => !matches_at(j),
            }
        }),
    decreases n,
{
    longest_copy_matches(copies, keys, n);
    longest_copy_matches(copies, keys, n - 1);
    if j < n - 1 {
        the_longest_copy_is_found(copies, keys, n - 1, j);
    }
}

proof fn longest_copy_matches(copies: Seq<SpilledPrefix>, keys: Seq<MatchKey>, n: int)
    requires
        0 <= n <= copies.len(),
    ensures
        longest_copy(copies, keys, n) matches Some(i) ==> 0 <= i < n && begins_with(
            keys,
            copies[i].key,
            copies[i].length_tokens,
        ),
    decreases n,
{
    if n > 0 {
        longest_copy_matches(copies, keys, n - 1);
    }
}

/// A head counts the pages it fills and no part of one.
pub proof fn whole_pages_are_filled(tokens: u32, page_tokens: u32)
    requires
        page_tokens > 0,
    ensures
        whole_pages(tokens, page_tokens) * page_tokens <= tokens < (whole_pages(
            tokens,
            page_tokens,
        ) + 1) * page_tokens,
{
    crate::request::pages_around(
        tokens as int,
        page_tokens as int,
        whole_pages(tokens, page_tokens),
    );
}

/// A reference let go leaves an entry that others hold, with one reference less
/// and nothing dropped. The last reference drops the entry, reports it first,
/// and lets its own reference on what it is chained on go.
pub proof fn the_last_reference_drops_an_entry(
    entries: Seq<PrefixEntry>,
    bound: PrefixId,
    at: int,
)
    requires
        ids_ascend(entries, bound),
        0 <= at < entries.len(),
    ensures
        ({
            let e = entries[at];
            let after = after_release(entries, Some(e.id));
            let dropped = dropped_by(entries, Some(e.id));
            &&& e.refcount > 1 ==> {
                &&& dropped.len() == 0
                &&& after.len() == entries.len()
                &&& after[at].refcount == e.refcount - 1
                &&& after[at] == (PrefixEntry { refcount: after[at].refcount, ..e })
                &&& forall|j: int|
                    0 <= j < entries.len() && j != at ==> #[trigger] after[j] == entries[j]
            }
            &&& e.refcount <= 1 ==> {
                let rest = entries.remove(at);
                &&& dropped.len() > 0
                &&& dropped[0].pages == e.own_pages
                &&& dropped[0].publisher == e.publisher
                &&& dropped[0].tokens == e.length_tokens
                &&& e.parent is None ==> dropped.len() == 1 && after == rest
                &&& e.parent is Some ==> after == after_release(rest, e.parent) && dropped.skip(1)
                    == dropped_by(rest, e.parent)
            }
        }),
{
    place_is_where_it_is(entries, bound, at);
    let e = entries[at];
    let rest = entries.remove(at);
    if e.refcount <= 1 {
        let dropped = dropped_by(entries, Some(e.id));
        assert(dropped.skip(1) =~= dropped_by(rest, e.parent));
    }
}

/// The pages given back are those of every entry that dropped.
pub proof fn pages_back_add_up(dropped: Seq<DroppedPrefix>, one: DroppedPrefix)
    ensures
        pages_back(Seq::<DroppedPrefix>::empty()) == 0,
        pages_back(seq![one] + dropped) == one.pages + pages_back(dropped),
{
    assert((seq![one] + dropped).skip(1) =~= dropped);
}

/// The pages pinned are those of every entry, each its own; the retained
/// entries counted are those retained, each once.
pub proof fn every_entry_is_counted_once(entries: Seq<PrefixEntry>, n: int)
    requires
        0 <= n < entries.len(),
    ensures
        pages_in(entries, 0) == 0,
        pages_in(entries, n + 1) == pages_in(entries, n) + entries[n].own_pages,
        retained_ids(entries, 0).len() == 0,
        entries[n].retained is Some ==> retained_ids(entries, n + 1) == retained_ids(
            entries,
            n,
        ).push(entries[n].id),
        entries[n].retained is None ==> retained_ids(entries, n + 1) == retained_ids(entries, n),
        pinned(entries) == pages_in(entries, entries.len() as int),
{
}

/// Of two retained entries one is given up for its slot first: an Agent's before
/// an Interactive one, then the less recently used, then the older.
pub proof fn retained_entries_are_strictly_ordered(a: PrefixEntry, b: PrefixEntry)
    requires
        a.retained is Some,
        b.retained is Some,
        a.id != b.id,
    ensures
        cheaper_slot(a, b) != cheaper_slot(b, a),
        staler(a, b) != staler(b, a),
        ({
            let (x, y) = (a.retained->Some_0, b.retained->Some_0);
            &&& x.class == RequestClass::Agent && y.class == RequestClass::Interactive
                ==> cheaper_slot(a, b)
            &&& x.class == y.class && x.at < y.at ==> cheaper_slot(a, b)
            &&& x.class == y.class && x.at == y.at && a.id < b.id ==> cheaper_slot(a, b)
            &&& x.at < y.at ==> staler(a, b)
            &&& x.at == y.at && a.id < b.id ==> staler(a, b)
        }),
        only_retained(a) <==> a.refcount == 1,
{
}

/// A head is registered that is of some whole pages, is not named yet, and whose
/// recurrent state can be resumed at its end; it is charged what it has past the
/// entry it is chained on.
pub proof fn a_registered_head_is_whole_and_new(
    cache: PrefixCache,
    key: MatchKey,
    tokens: u32,
    gdn: GdnState,
    parent: Option<PrefixId>,
)
    requires
        cache.wf(),
        cache.registrable(key, tokens, gdn, parent),
    ensures
        tokens > 0,
        tokens as int % cache.page_tokens as int == 0,
        gdn@.boundaries.contains(tokens as nat),
        forall|i: int|
            0 <= i < cache.entries@.len() ==> (#[trigger] cache.entries@[i]).key != key
                || cache.entries@[i].length_tokens != tokens,
        parent is None ==> pages_past(cache.entries@, tokens, cache.page_tokens, parent)
            * cache.page_tokens == tokens,
{
    if parent is None {
        let p = cache.page_tokens as int;
        vstd::arithmetic::div_mod::lemma_fundamental_div_mod(tokens as int, p);
        let q = tokens as int / p;
        assert(q * p == p * q) by (nonlinear_arith);
    }
}

/// A head is claimed that the prompt begins with, saves more than is asked for,
/// and is the longest it begins with; where none is, no head it begins with saves
/// more, unless the longest can be referenced no more.
pub proof fn a_claimed_head_saves_more_than_is_asked(
    cache: PrefixCache,
    keys: Seq<MatchKey>,
    floor: u32,
    j: int,
)
    requires
        0 <= j < cache.entries@.len(),
        0 < cache.entries@[j].length_tokens < keys.len(),
        keys[cache.entries@[j].length_tokens as int] == cache.entries@[j].key,
    ensures
        match cache.claimable(keys, floor) {
            Some(i) => {
                &&& 0 <= i < cache.entries@.len()
                &&& cache.entries@[i].length_tokens > floor
                &&& cache.entries@[i].length_tokens < keys.len()
                &&& keys[cache.entries@[i].length_tokens as int] == cache.entries@[i].key
                &&& cache.entries@[j].length_tokens <= cache.entries@[i].length_tokens
            },
            None => cache.entries@[j].length_tokens <= floor || exists|i: int|
                0 <= i < cache.entries@.len() && (#[trigger] cache.entries@[i]).refcount
                    == u32::MAX,
        },
{
    let n = cache.entries@.len() as int;
    the_longest_head_is_found(cache.entries@, keys, n, j);
    longest_head_is_a_match(cache.entries@, keys, n);
}

} // verus!
