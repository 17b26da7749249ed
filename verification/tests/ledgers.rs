//! The shared-prefix cache, the host tier and the retained slots.

use ignis_core::gdn::GdnState;
use ignis_core::host::{
    HostEntry, HostTier, KvRamVictim, ResumePhase, RetainedBlob, RetainedKvRamEntry, Tier,
};
use ignis_core::identity::{MediaKey, PromptContent};
use ignis_core::order::service_order;
use ignis_core::prefix::{PrefixCache, Retention};
use ignis_core::retained_slot::{RetainedHolder, RetainedSlotLedger};
use ignis_core::types::{RequestClass, RequestId, TokenId};

fn gdn_at(position: usize) -> GdnState {
    let mut gdn = GdnState::new();
    gdn.checkpoint(position);
    gdn
}

fn publish(
    cache: &mut PrefixCache,
    publisher: RequestId,
    tokens: &[TokenId],
    parent: Option<u64>,
) -> Option<(u64, u32)> {
    let at = tokens.len() as u32;
    let key = PromptContent::text(tokens).key_at(at);
    cache.register(publisher, key, at, &gdn_at(tokens.len()), parent)
}

#[test]
fn a_published_head_is_claimed_by_whoever_begins_with_it() {
    let mut cache = PrefixCache::new(16);
    let head: Vec<TokenId> = (0..32).collect();
    let (entry, pages) = publish(&mut cache, 7, &head, None).expect("a new head");
    assert_eq!(pages, 2);
    assert_eq!(cache.pinned_pages(), 2);
    assert!(publish(&mut cache, 8, &head, None).is_none(), "a head is named once");
    let prompt: Vec<TokenId> = (0..50).collect();
    let keys = PromptContent::text(&prompt).keys_within(50);
    assert_eq!(cache.longest_match_tokens(&keys), 32);
    assert!(cache.claim_longer_than(&keys, 32).is_none(), "it has to be longer");
    let claim = cache.claim_longer_than(&keys, 0).expect("the prompt begins with it");
    assert_eq!((claim.id, claim.publisher, claim.tokens, claim.pages), (entry, 7, 32, 2));
    assert_eq!(cache.reused_tok(), 32);
    assert_eq!(cache.refcount_of(entry), 2);
    let short = PromptContent::text(&prompt).keys_within(31);
    assert_eq!(cache.longest_match_tokens(&short), 0, "nothing past the reach is matched");
    assert!(cache.release(entry).is_empty(), "another still stands on it");
    let dropped = cache.release(entry);
    assert_eq!(dropped.len(), 1);
    assert_eq!(dropped[0].pages, 2);
    assert_eq!(cache.pinned_pages(), 0);
}

#[test]
fn a_chained_head_keeps_the_one_under_it() {
    let mut cache = PrefixCache::new(16);
    let block: Vec<TokenId> = (0..16).collect();
    let whole: Vec<TokenId> = (0..48).collect();
    let (under, _) = publish(&mut cache, 1, &block, None).unwrap();
    let (over, pages) = publish(&mut cache, 1, &whole, Some(under)).unwrap();
    assert_eq!(pages, 2, "only what it adds");
    assert_eq!(cache.total_pages_of(over), 3);
    assert_eq!(cache.pinned_pages(), 3);
    assert!(cache.retain_published(
        under,
        Retention { at: 1, class: RequestClass::Agent, used_at: 5 }
    ));
    assert!(cache.is_retained(under));
    assert!(cache.lru_retained().is_none(), "something still stands on it");
    let dropped = cache.release(over);
    assert_eq!(dropped.iter().map(|d| d.pages).collect::<Vec<_>>(), vec![2]);
    assert_eq!(cache.lru_retained(), Some(under));
    assert!(cache.unretain(under));
    assert!(!cache.is_retained(under));
}

#[test]
fn a_head_is_shared_in_whole_pages() {
    let cache = PrefixCache::new(16);
    assert_eq!(cache.shareable_head_tokens(47), 32);
    assert_eq!(cache.shareable_head_tokens(48), 48);
    assert_eq!(cache.shareable_head_tokens(15), 0);
    let mut other = PrefixCache::new(16);
    let ragged: Vec<TokenId> = (0..20).collect();
    assert!(publish(&mut other, 1, &ragged, None).is_none(), "not a whole number of pages");
    assert!(publish(&mut other, 1, &[], None).is_none());
}

#[test]
fn a_copy_outlives_its_entry_until_it_is_forgotten() {
    let mut cache = PrefixCache::new(16);
    let head: Vec<TokenId> = (0..16).collect();
    let (entry, _) = publish(&mut cache, 3, &head, None).unwrap();
    assert!(cache.record_spill(entry).is_none(), "only what is retained is copied");
    cache.retain_published(entry, Retention { at: 1, class: RequestClass::Agent, used_at: 5 });
    let copy = cache.record_spill(entry).expect("a copy of a retained entry");
    assert_eq!(cache.spilled_copy_of(entry), Some(copy));
    assert!(cache.unretain(entry));
    assert!(cache.release(entry).is_empty(), "its publisher still stands on it");
    assert_eq!(cache.release(entry).len(), 1);
    let prompt: Vec<TokenId> = (0..40).collect();
    let keys = PromptContent::text(&prompt).keys_within(40);
    assert_eq!(cache.longest_match_tokens(&keys), 0);
    assert!(cache.longest_spilled_match(&keys).is_some());
    assert!(cache.forget_spilled(copy).is_some());
    assert!(cache.forget_spilled(copy).is_none());
    assert!(cache.longest_spilled_match(&keys).is_none());
}

#[test]
fn equal_content_has_one_key_and_other_media_another() {
    let tokens: Vec<TokenId> = (0..30).collect();
    let longer: Vec<TokenId> = (0..60).collect();
    assert_eq!(PromptContent::text(&tokens).key_at(30), PromptContent::text(&longer).key_at(30));
    assert_ne!(PromptContent::text(&tokens).key_at(29), PromptContent::text(&tokens).key_at(30));
    let media = [MediaKey { begin: 10, count: 4, digest: [1; 32], grid: [1, 2, 2] }];
    let with = PromptContent::new(&tokens, &media);
    assert_eq!(with.key_at(10), PromptContent::text(&tokens).key_at(10), "before it begins");
    assert_ne!(with.key_at(11), PromptContent::text(&tokens).key_at(11));
    let keys = with.keys_at(&[5, 20]);
    assert_eq!(keys, vec![with.key_at(5), with.key_at(20)]);
    assert_eq!(with.tokens(), 30);
}

fn snapshot(request: RequestId, owner: RequestClass, bytes: u64, tick: u64) -> HostEntry {
    HostEntry {
        request,
        resume_phase: ResumePhase::Running,
        lane: Some(0),
        owner,
        pages: 1,
        bytes,
        tokens: 0,
        prefill_progress: 0,
        remaining_work: 1,
        gdn: GdnState::new(),
        tier: Tier::Probation,
        use_tick: tick,
    }
}

#[test]
fn the_tier_gives_up_retained_copies_before_live_snapshots() {
    let mut tier = HostTier::new(10);
    tier.capture(snapshot(1, RequestClass::Interactive, 3, 1)).unwrap();
    tier.capture_retained(RetainedKvRamEntry::new(
        RetainedBlob::Checkpoint(9),
        9,
        RequestClass::Interactive,
        4,
        100,
    ))
    .unwrap();
    assert_eq!(tier.used_bytes(), 7);
    assert!(tier.has_room(3) && !tier.has_room(4));
    assert!(tier.capture(snapshot(2, RequestClass::Agent, 4, 2)).is_err(), "no room");
    assert!(tier.capture(snapshot(1, RequestClass::Agent, 1, 2)).is_err(), "held already");
    assert!(tier.claim_retained(RetainedBlob::Checkpoint(9)));
    tier.capture(snapshot(3, RequestClass::Agent, 1, 5)).unwrap();
    assert!(matches!(
        tier.evict_for_live(100),
        Some(KvRamVictim::Live(e)) if e.request == 3
    ), "a claimed copy stays; an agent's snapshot goes before a foreground one");
    assert!(tier.release_retained_claim(RetainedBlob::Checkpoint(9), None).is_none());
    assert!(matches!(
        tier.evict_for_live(100),
        Some(KvRamVictim::Retained(e)) if e.blob == RetainedBlob::Checkpoint(9)
    ));
    assert_eq!(tier.restore(1).map(|e| e.bytes), Some(3));
    assert_eq!(tier.used_bytes(), 0);
    assert!(tier.restore(1).is_none());
    assert!(tier.evict_for_live(100).is_none());
}

#[test]
fn a_copy_discarded_while_claimed_is_freed_by_the_last_claim() {
    let mut tier = HostTier::new(10);
    let blob = RetainedBlob::Prefix(4);
    tier.capture_retained(RetainedKvRamEntry::new(blob, 2, RequestClass::Agent, 5, 1)).unwrap();
    assert!(tier.claim_retained(blob));
    assert!(tier.discard_retained(blob).is_none(), "a request still restores from it");
    assert_eq!(tier.used_bytes(), 5);
    assert!(!tier.claim_retained(blob), "nothing new can choose it");
    assert!(tier.release_retained_claim(blob, Some(3)).is_some());
    assert_eq!(tier.used_bytes(), 0);
}

#[test]
fn a_slot_goes_back_where_it_was_taken() {
    let mut ledger = RetainedSlotLedger::new(2);
    let head = RetainedHolder::Prefix { publisher: 1, tokens: 16 };
    let turn = RetainedHolder::Checkpoint { publisher: 1 };
    assert_eq!(ledger.take(head), Some(0));
    assert_eq!(ledger.take(turn), Some(1));
    assert_eq!(ledger.take(RetainedHolder::Checkpoint { publisher: 2 }), None);
    assert_eq!((ledger.in_use(), ledger.capacity()), (2, 2));
    ledger.give_back(head);
    assert_eq!(ledger.in_use(), 1);
    ledger.give_back(head);
    assert_eq!(ledger.in_use(), 1, "what holds no slot gives none back");
    assert_eq!(ledger.take(RetainedHolder::Checkpoint { publisher: 2 }), Some(0));
}

#[test]
fn the_queue_is_served_by_class_and_then_by_submission() {
    let keys = vec![(1, 4), (0, 9), (1, 2), (0, 3)];
    assert_eq!(service_order(&keys), vec![3, 1, 2, 0]);
    assert!(service_order(&Vec::new()).is_empty());
}
