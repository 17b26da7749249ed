//! The checkpoint pool: what is retained, what a prompt matches, what goes first.

use ignis_core::checkpoint::{
    auto_retained_pool_bytes, CheckpointCapture, CheckpointId, CheckpointMatch, CheckpointPool,
    ResidencyTier, RetainRefused, ReuseSource, TierList, MAX_AUTO_RETAINED_POOL_BYTES,
    RETAINED_POOL_RESERVE_BYTES,
};
use ignis_core::gdn::GdnState;
use ignis_core::identity::{
    ArtifactHash, BlobHeader, BlobIdentity, KvFormat, MediaKey, PromptContent,
};
use ignis_core::types::{RequestId, TokenId};

fn gdn_at(position: usize) -> GdnState {
    let mut gdn = GdnState::new();
    gdn.checkpoint(position);
    gdn
}

const IMAGE: u64 = 1_000;

fn load(byte: u8) -> BlobIdentity {
    BlobIdentity::of_load(
        ArtifactHash::from_bytes([byte; 32]),
        KvFormat::HqE8_2b,
        None,
        2,
    )
}

fn pool_of(images: u64) -> CheckpointPool {
    CheckpointPool::with_identity(IMAGE * images, load(1))
}

fn retain(
    pool: &mut CheckpointPool,
    publisher: RequestId,
    tokens: &[TokenId],
    pages: u32,
    tick: u64,
) -> Result<CheckpointId, RetainRefused> {
    let capture = CheckpointCapture {
        publisher,
        key: PromptContent::text(tokens).key_at(tokens.len() as u32),
        tokens: tokens.len() as u32,
        prefix: publisher,
        pages,
        bytes: IMAGE,
        gdn: gdn_at(tokens.len()),
        identity: pool.identity(),
        tier: ReuseSource::Device,
        claimed: None,
        turn_opening: true,
    };
    pool.retain(capture, tick).map(|retained| retained.id)
}

fn claim(
    pool: &mut CheckpointPool,
    tokens: &[TokenId],
    tick: u64,
) -> Option<CheckpointMatch> {
    pool.claim(&PromptContent::text(tokens), tick)
}

#[test]
fn a_prompt_that_extends_a_checkpoint_matches_it() {
    let mut pool = pool_of(4);
    let turn_n: Vec<TokenId> = (1..=100).collect();
    retain(&mut pool, 7, &turn_n, 1, 1).unwrap();
    let turn_n_plus_1: Vec<TokenId> = (1..=160).collect();
    let matched = claim(&mut pool, &turn_n_plus_1, 2).expect("turn N+1 extends turn N");
    assert_eq!(matched.tokens, 100, "everything up to turn N's opener");
    assert_eq!(matched.publisher, 7);
    assert_eq!(matched.source, ReuseSource::Device);
    assert_eq!(pool.reused_tok(), 100);
}

#[test]
fn a_prompt_that_only_shares_a_head_does_not_match() {
    let mut pool = pool_of(4);
    let retained: Vec<TokenId> = (1..=100).collect();
    retain(&mut pool, 7, &retained, 1, 1).unwrap();
    let mut divergent: Vec<TokenId> = (1..=99).collect();
    divergent.push(999);
    divergent.extend(200..260);
    assert!(
        claim(&mut pool, &divergent, 2).is_none(),
        "a prompt that diverges before the opener reuses nothing"
    );
    assert_eq!(pool.reused_tok(), 0);
}

#[test]
fn the_longest_retained_checkpoint_wins() {
    let mut pool = pool_of(4);
    let turn1: Vec<TokenId> = (1..=100).collect();
    let turn2: Vec<TokenId> = (1..=180).collect();
    retain(&mut pool, 1, &turn1, 1, 1).unwrap();
    retain(&mut pool, 2, &turn2, 2, 2).unwrap();
    let turn3: Vec<TokenId> = (1..=250).collect();
    let matched = claim(&mut pool, &turn3, 3).unwrap();
    assert_eq!(matched.tokens, 180, "the longest reuse wins");
    assert_eq!(matched.publisher, 2);
    assert_eq!(matched.pages, 2);
}

#[test]
fn a_claim_does_not_consume_the_entry() {
    let mut pool = pool_of(4);
    let retained: Vec<TokenId> = (1..=100).collect();
    retain(&mut pool, 7, &retained, 1, 1).unwrap();
    let prompt: Vec<TokenId> = (1..=140).collect();
    for tick in 2..=4 {
        assert!(claim(&mut pool, &prompt, tick).is_some(), "claim {tick} hits");
    }
    assert_eq!(pool.entry_count(), 1, "the entry survives its claimants");
    assert_eq!(pool.reused_tok(), 300, "each claim counts its skip");
}

#[test]
fn a_full_pool_skips_the_capture_and_evicts_nothing() {
    let mut pool = pool_of(2);
    let a: Vec<TokenId> = (1..=100).collect();
    let b: Vec<TokenId> = (500..=600).collect();
    let c: Vec<TokenId> = (900..=1000).collect();
    retain(&mut pool, 1, &a, 1, 1).unwrap();
    retain(&mut pool, 2, &b, 1, 2).unwrap();
    assert!(!pool.admits(IMAGE), "the budget is spent");
    assert_eq!(
        retain(&mut pool, 3, &c, 1, 3),
        Err(RetainRefused::Budget),
        "the capture is skipped"
    );
    assert_eq!(pool.entry_count(), 2, "nothing was evicted to take it");
    assert_eq!(pool.used_bytes(), 2 * IMAGE);
    assert_eq!(pool.counters().skipped_captures, 1);
    assert_eq!(pool.counters().discards, 0, "a skipped capture discards nothing");
}

#[test]
fn a_zero_budget_retains_nothing() {
    let mut pool = pool_of(0);
    let a: Vec<TokenId> = (1..=100).collect();
    assert!(!pool.admits(IMAGE));
    assert_eq!(retain(&mut pool, 1, &a, 1, 1), Err(RetainRefused::Budget));
    assert_eq!(pool.entry_count(), 0);
}

#[test]
fn the_first_victim_is_the_least_recently_used_entry() {
    let mut pool = pool_of(4);
    let a: Vec<TokenId> = (1..=100).collect();
    let b: Vec<TokenId> = (500..=600).collect();
    retain(&mut pool, 1, &a, 3, 1).unwrap();
    retain(&mut pool, 2, &b, 5, 2).unwrap();
    let prompt: Vec<TokenId> = (1..=140).collect();
    claim(&mut pool, &prompt, 9).unwrap();
    assert_eq!(pool.retained_pages(), 8);
    let victim = pool.discard_victim().expect("a victim");
    assert_eq!(victim.publisher, 2, "the least recently used entry goes");
    assert_eq!(victim.pages, 5, "the caller gets its pages back to release");
    assert_eq!(pool.used_bytes(), IMAGE, "its image bytes came back");
    assert_eq!(pool.retained_pages(), 3);
    assert_eq!(pool.discard_victim().map(|e| e.publisher), Some(1));
    assert!(pool.discard_victim().is_none(), "an empty pool has no victim");
    assert_eq!(pool.used_bytes(), 0);
}

#[test]
fn a_discarded_entry_is_no_longer_matched() {
    let mut pool = pool_of(4);
    let a: Vec<TokenId> = (1..=100).collect();
    let id = retain(&mut pool, 1, &a, 1, 1).unwrap();
    let prompt: Vec<TokenId> = (1..=140).collect();
    assert!(claim(&mut pool, &prompt, 2).is_some());
    assert_eq!(pool.discard(id).map(|e| e.id), Some(id));
    assert!(claim(&mut pool, &prompt, 3).is_none(), "a discarded entry is gone");
    assert_eq!(pool.discard(id).map(|e| e.id), None, "and gone once");
}

#[test]
fn a_claim_seeds_the_claimant_gdn_state_at_the_opener() {
    let mut pool = pool_of(4);
    let a: Vec<TokenId> = (1..=100).collect();
    retain(&mut pool, 1, &a, 1, 1).unwrap();
    let prompt: Vec<TokenId> = (1..=140).collect();
    let matched = claim(&mut pool, &prompt, 2).unwrap();
    assert!(matched.gdn.is_valid_snapshot_point(100));
    assert_eq!(matched.gdn.position(), 100);
}

#[test]
fn a_losing_match_leaves_no_trace() {
    let mut pool = pool_of(4);
    let older: Vec<TokenId> = (1..=100).collect();
    let newer: Vec<TokenId> = (500..=600).collect();
    retain(&mut pool, 1, &older, 1, 1).unwrap();
    retain(&mut pool, 2, &newer, 1, 5).unwrap();
    let prompt: Vec<TokenId> = (1..=140).collect();
    let peek = pool
        .best_match(&PromptContent::text(&prompt))
        .expect("a match");
    assert_eq!(peek.tokens, 100);
    assert_eq!(pool.reused_tok(), 0, "peeking is not reuse");
    assert_eq!(pool.discard_victim().map(|e| e.publisher), Some(1));
}

#[test]
fn a_duplicate_capture_point_is_already_held() {
    let mut pool = pool_of(4);
    let a: Vec<TokenId> = (1..=100).collect();
    retain(&mut pool, 1, &a, 1, 1).unwrap();
    let key_at = |at: u32| PromptContent::text(&a).key_at(at);
    assert!(pool.holds(key_at(100)));
    assert!(!pool.holds(key_at(99)), "a different point is not held");
}

#[test]
fn retained_pages_count_a_shared_prefix_once() {
    let mut pool = pool_of(4);
    let early: Vec<TokenId> = (1..=100).collect();
    let late: Vec<TokenId> = (1..=120).collect();
    for (publisher, tokens) in [(1, early), (2, late)] {
        let capture = CheckpointCapture {
            publisher,
            key: PromptContent::text(&tokens).key_at(tokens.len() as u32),
            tokens: tokens.len() as u32,
            prefix: 42,
            pages: 6,
            bytes: IMAGE,
            gdn: gdn_at(tokens.len()),
            identity: pool.identity(),
            tier: ReuseSource::Device,
            claimed: None,
            turn_opening: true,
        };
        let _ = pool.retain(capture, publisher).unwrap();
    }
    assert_eq!(pool.entry_count(), 2);
    assert_eq!(pool.retained_pages(), 6, "one prefix, one charge");
}

#[test]
fn the_derived_budget_gives_back_the_reserve_and_halves_the_rest() {
    const GIB: u64 = 1024 * 1024 * 1024;
    assert_eq!(auto_retained_pool_bytes(5 * GIB), 2 * GIB);
    assert!(auto_retained_pool_bytes(5 * GIB) / (150 * 1024 * 1024) >= 10);
}

#[test]
fn the_derived_budget_is_capped_and_never_negative() {
    assert_eq!(
        auto_retained_pool_bytes(u64::MAX),
        MAX_AUTO_RETAINED_POOL_BYTES
    );
    assert_eq!(
        auto_retained_pool_bytes(64 * 1024 * 1024 * 1024),
        MAX_AUTO_RETAINED_POOL_BYTES
    );
    assert_eq!(auto_retained_pool_bytes(RETAINED_POOL_RESERVE_BYTES), 0);
    assert_eq!(auto_retained_pool_bytes(0), 0);
}

#[test]
fn reuse_source_spells_the_two_tiers() {
    assert_eq!(ReuseSource::Device.as_str(), "device");
    assert_eq!(ReuseSource::KvRam.as_str(), "kv_ram");
}

#[test]
fn a_blob_taken_under_another_load_is_refused() {
    let mut pool = pool_of(4);
    let tokens: Vec<TokenId> = (1..=100).collect();
    let foreign = CheckpointCapture {
        publisher: 7,
        key: PromptContent::text(&tokens).key_at(100),
        tokens: 100,
        prefix: 7,
        pages: 1,
        bytes: IMAGE,
        gdn: gdn_at(100),
        identity: load(2),
        tier: ReuseSource::Device,
        claimed: None,
        turn_opening: true,
    };
    let refused = pool.retain(foreign, 1).expect_err("another artifact");
    assert_eq!(
        refused,
        RetainRefused::Identity(
            load(1)
                .accepts(&load(2))
                .expect_err("the identities differ")
        )
    );
    assert_eq!(pool.entry_count(), 0, "nothing was retained");
    assert_eq!(pool.used_bytes(), 0, "and nothing was charged for");
    assert_eq!(pool.counters().refused_blobs, 1);
    assert_eq!(
        pool.counters().skipped_captures,
        0,
        "a refusal is not a full pool"
    );
    let prompt: Vec<TokenId> = (1..=140).collect();
    assert!(claim(&mut pool, &prompt, 2).is_none());
}

#[test]
fn an_entry_from_another_load_is_never_matched() {
    let mut pool = pool_of(4);
    let tokens: Vec<TokenId> = (1..=100).collect();
    retain(&mut pool, 7, &tokens, 1, 1).unwrap();
    let prompt: Vec<TokenId> = (1..=140).collect();
    assert!(claim(&mut pool, &prompt, 2).is_some(), "its own load matches");
    pool.entries[0].identity = load(2);
    assert!(
        pool.best_match(&PromptContent::text(&prompt)).is_none(),
        "a foreign entry is not a candidate"
    );
}

#[test]
fn the_match_key_does_not_depend_on_who_captured_it() {
    let mut pool = pool_of(4);
    let tokens: Vec<TokenId> = (1..=100).collect();
    retain(&mut pool, 7, &tokens, 1, 1).unwrap();
    retain(&mut pool, 99, &tokens, 1, 2).unwrap();
    assert_eq!(
        pool.entries[0].key, pool.entries[1].key,
        "same content, same key"
    );
    assert_ne!(pool.entries[0].publisher, pool.entries[1].publisher);
    assert!(
        pool.holds(pool.entries[0].key),
        "the second capture is a duplicate the caller would decline"
    );
}

#[test]
fn two_prompts_with_equal_tokens_and_different_media_never_match() {
    let mut pool = pool_of(4);
    let tokens: Vec<TokenId> = (1..=100).collect();
    let mine = [MediaKey {
        begin: 10,
        count: 16,
        digest: [0xAA; 32],
        grid: [1, 8, 8],
    }];
    let yours = [MediaKey {
        digest: [0xBB; 32],
        ..mine[0]
    }];
    let capture = CheckpointCapture {
        publisher: 7,
        key: PromptContent::new(&tokens, &mine).key_at(100),
        tokens: 100,
        prefix: 7,
        pages: 1,
        bytes: IMAGE,
        gdn: gdn_at(100),
        identity: pool.identity(),
        tier: ReuseSource::Device,
        claimed: None,
        turn_opening: true,
    };
    let _ = pool.retain(capture, 1).unwrap();
    let longer: Vec<TokenId> = (1..=140).collect();
    assert!(
        pool.claim(&PromptContent::new(&longer, &yours), 2).is_none(),
        "another image is another conversation"
    );
    assert!(
        pool.claim(&PromptContent::text(&longer), 3).is_none(),
        "and no image at all is a third one"
    );
    assert!(
        pool.claim(&PromptContent::new(&longer, &mine), 4).is_some(),
        "the same image still matches"
    );
}

#[test]
fn a_device_only_load_has_nothing_below_the_device() {
    let pool = pool_of(4);
    let tiers = pool.tiers();
    assert_eq!(tiers.tiers().len(), 1);
    assert_eq!(tiers.rank(ReuseSource::Device), Some(0));
    assert_eq!(tiers.rank(ReuseSource::KvRam), None);
    assert_eq!(
        tiers.below(ReuseSource::Device),
        None,
        "released means discarded"
    );
}

#[test]
fn a_second_tier_is_an_entry_in_the_list() {
    let tiers = TierList::new(vec![
        ResidencyTier {
            source: ReuseSource::Device,
            restore_floor_tokens: 0,
        },
        ResidencyTier {
            source: ReuseSource::KvRam,
            restore_floor_tokens: 1024,
        },
    ]);
    assert_eq!(tiers.rank(ReuseSource::KvRam), Some(1));
    assert_eq!(tiers.below(ReuseSource::Device), Some(ReuseSource::KvRam));
    assert_eq!(tiers.below(ReuseSource::KvRam), None, "the last tier discards");
}

#[test]
fn a_lower_tier_has_to_clear_its_restore_floor() {
    let tiers = TierList::new(vec![
        ResidencyTier {
            source: ReuseSource::Device,
            restore_floor_tokens: 0,
        },
        ResidencyTier {
            source: ReuseSource::KvRam,
            restore_floor_tokens: 1024,
        },
    ]);
    let device_best = Some((ReuseSource::Device, 4_000));
    assert!(
        !tiers.replaces(ReuseSource::KvRam, 4_000, device_best),
        "a tie goes to the device"
    );
    assert!(
        !tiers.replaces(ReuseSource::KvRam, 5_023, device_best),
        "one token short of a chunk is not worth the crossing"
    );
    assert!(tiers.replaces(ReuseSource::KvRam, 5_024, device_best));
    for (device_tokens, device_wins) in
        [(5_024, true), (4_001, true), (4_000, false), (3_000, false)]
    {
        assert_eq!(
            tiers.replaces(
                ReuseSource::Device,
                device_tokens,
                Some((ReuseSource::KvRam, 5_024))
            ),
            device_wins,
            "{device_tokens} on the device against 5024 in KV-RAM"
        );
        assert_eq!(
            tiers.replaces(
                ReuseSource::KvRam,
                5_024,
                Some((ReuseSource::Device, device_tokens))
            ),
            !device_wins,
            "the same comparison offered the other way round"
        );
    }
    assert!(tiers.replaces(ReuseSource::Device, 4_001, device_best));
    assert!(!tiers.replaces(ReuseSource::Device, 4_000, device_best));
    assert!(tiers.replaces(ReuseSource::Device, 1, None));
    assert!(!tiers.replaces(ReuseSource::Device, 0, None));
    assert!(!TierList::device_only().replaces(ReuseSource::KvRam, 9_000, None));
}

#[test]
fn the_first_victim_is_taken_from_the_device() {
    let tiers = TierList::new(vec![
        ResidencyTier {
            source: ReuseSource::Device,
            restore_floor_tokens: 0,
        },
        ResidencyTier {
            source: ReuseSource::KvRam,
            restore_floor_tokens: 1024,
        },
    ]);
    let mut pool = CheckpointPool::with_tiers(IMAGE * 4, load(1), tiers);
    let spilled: Vec<TokenId> = (1..=100).collect();
    let resident: Vec<TokenId> = (500..=600).collect();
    for (publisher, tokens, tier) in [
        (1, &spilled, ReuseSource::KvRam),
        (2, &resident, ReuseSource::Device),
    ] {
        let capture = CheckpointCapture {
            publisher,
            key: PromptContent::text(tokens).key_at(tokens.len() as u32),
            tokens: tokens.len() as u32,
            prefix: publisher,
            pages: 1,
            bytes: IMAGE,
            gdn: gdn_at(tokens.len()),
            identity: pool.identity(),
            tier,
            claimed: None,
            turn_opening: true,
        };
        let _ = pool.retain(capture, publisher).unwrap();
    }
    let victim = pool.discard_victim().expect("a device victim");
    assert_eq!(
        victim.publisher, 2,
        "the older entry is in KV-RAM and frees no device page"
    );
    assert!(pool.discard_victim().is_none());
    assert_eq!(
        pool.discard_victim_in(ReuseSource::KvRam, None)
            .map(|e| e.publisher),
        Some(1),
        "the other tier is asked for by name"
    );
}

#[test]
fn a_tier_this_load_does_not_carry_is_refused() {
    let mut pool = pool_of(4);
    let tokens: Vec<TokenId> = (1..=100).collect();
    let capture = CheckpointCapture {
        publisher: 7,
        key: PromptContent::text(&tokens).key_at(100),
        tokens: 100,
        prefix: 7,
        pages: 1,
        bytes: IMAGE,
        gdn: gdn_at(100),
        identity: pool.identity(),
        tier: ReuseSource::KvRam,
        claimed: None,
        turn_opening: true,
    };
    assert_eq!(
        pool.retain(capture, 1).err(),
        Some(RetainRefused::UnknownTier(ReuseSource::KvRam))
    );
    assert_eq!(pool.entry_count(), 0);
}

#[test]
fn an_entry_names_itself_to_a_tier_that_does_not_hold_its_history() {
    let mut pool = pool_of(4);
    let tokens: Vec<TokenId> = (1..=100).collect();
    retain(&mut pool, 7, &tokens, 1, 1).unwrap();
    let header = pool.entries[0].header();
    assert_eq!(header.tokens, 100);
    assert_eq!(header.key, PromptContent::text(&tokens).key_at(100));
    assert_eq!(header.identity, load(1));
    assert_eq!(pool.accepts(&header), Ok(()));
    let stale = BlobHeader {
        identity: load(2),
        ..header
    };
    assert!(pool.accepts(&stale).is_err());
}

#[test]
fn the_prefixes_the_entries_stand_on_are_listed_once() {
    let mut pool = pool_of(4);
    retain(&mut pool, 3, &[1, 2, 3], 1, 1).unwrap();
    retain(&mut pool, 5, &[4, 5, 6], 1, 2).unwrap();
    retain(&mut pool, 3, &[1, 2, 3, 4], 1, 3).unwrap();
    assert_eq!(pool.retained_prefixes(), vec![3, 5]);
    assert_eq!(pool.retained_holders(3), 2);
    assert_eq!(pool.retained_holders(5), 1);
    assert_eq!(pool.retained_holders(9), 0);
}

#[test]
fn every_capture_is_held_or_was_discarded() {
    let mut pool = pool_of(4);
    let first = retain(&mut pool, 3, &[1, 2, 3], 1, 1).unwrap();
    retain(&mut pool, 5, &[4, 5, 6], 1, 2).unwrap();
    retain(&mut pool, 3, &[1, 2, 3, 4], 1, 3).unwrap();
    pool.discard(first).expect("it is held");
    pool.discard_victim().expect("two are left");
    let counters = pool.counters();
    assert_eq!(counters.captures, 3);
    assert_eq!(counters.discards, 2);
    assert_eq!(pool.entry_count(), 1, "what was captured and not discarded");
}

#[test]
fn the_holders_of_the_listed_prefixes_are_all_the_entries() {
    let mut pool = pool_of(4);
    retain(&mut pool, 3, &[1, 2, 3], 1, 1).unwrap();
    retain(&mut pool, 5, &[4, 5, 6], 1, 2).unwrap();
    retain(&mut pool, 3, &[1, 2, 3, 4], 1, 3).unwrap();
    let holders: u32 = pool.retained_prefixes().iter().map(|p| pool.retained_holders(*p)).sum();
    assert_eq!(holders as usize, pool.entry_count());
}

#[test]
fn every_call_to_retain_is_counted_once() {
    let mut pool = pool_of(2);
    let first = retain(&mut pool, 1, &[1, 2, 3], 1, 1).unwrap();
    retain(&mut pool, 2, &[4, 5, 6], 1, 2).unwrap();
    assert!(matches!(retain(&mut pool, 3, &[7, 8, 9], 1, 3), Err(RetainRefused::Budget)));
    pool.record_claim(first, 4);
    assert!(pool.discard(first).is_some());
    let counters = pool.counters();
    assert_eq!(counters.captures + counters.skipped_captures + counters.refused_blobs, 3);
    assert_eq!(counters.captures, pool.entry_count() as u64 + counters.discards);
    assert_eq!(counters.reused_tok, pool.reused_tok());
    assert_eq!(counters.reused_tok, 3);
}
