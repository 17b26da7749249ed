//! What retained state is, and where it came from.
//!
//! A blob carries two names. Its [`BlobIdentity`] says what it was produced
//! under: the artifact, the KV format, the blob layout and the drafter. A load
//! accepts only its own. Its [`MatchKey`] says what it covers: a hash chain
//! over the prompt's token ids with each media item's identity mixed in where
//! the item begins. Neither names a request or a process.

use crate::types::TokenId;
use vstd::prelude::*;

verus! {

/// The digest of a loaded artifact, as four big-endian words.
#[derive(Debug, Clone, Copy, PartialEq, Eq, Structural)]
pub struct ArtifactHash {
    pub w0: u64,
    pub w1: u64,
    pub w2: u64,
    pub w3: u64,
}

/// The big-endian word whose bytes start at `at`.
pub open spec fn be_word(bytes: Seq<u8>, at: int) -> int {
    bytes[at] * 0x100_0000_0000_0000 + bytes[at + 1] * 0x1_0000_0000_0000 + bytes[at + 2]
        * 0x100_0000_0000 + bytes[at + 3] * 0x1_0000_0000 + bytes[at + 4] * 0x100_0000 + bytes[at
        + 5] * 0x1_0000 + bytes[at + 6] * 0x100 + bytes[at + 7]
}

fn word_at(bytes: &[u8; 32], at: usize) -> (word: u64)
    requires
        at <= 24,
    ensures
        word == be_word(bytes@, at as int),
{
    (bytes[at] as u64) * 0x100_0000_0000_0000 + (bytes[at + 1] as u64) * 0x1_0000_0000_0000 + (
    bytes[at + 2] as u64) * 0x100_0000_0000 + (bytes[at + 3] as u64) * 0x1_0000_0000 + (bytes[at
        + 4] as u64) * 0x100_0000 + (bytes[at + 5] as u64) * 0x1_0000 + (bytes[at + 6] as u64)
        * 0x100 + (bytes[at + 7] as u64)
}

impl ArtifactHash {
    /// The hash whose bytes are `bytes`.
    pub fn from_bytes(bytes: [u8; 32]) -> (hash: ArtifactHash)
        ensures
            hash.w0 == be_word(bytes@, 0),
            hash.w1 == be_word(bytes@, 8),
            hash.w2 == be_word(bytes@, 16),
            hash.w3 == be_word(bytes@, 24),
    {
        ArtifactHash {
            w0: word_at(&bytes, 0),
            w1: word_at(&bytes, 8),
            w2: word_at(&bytes, 16),
            w3: word_at(&bytes, 24),
        }
    }
}

/// How the KV pages of a blob are encoded.
#[allow(non_camel_case_types)]
#[derive(Debug, Clone, Copy, PartialEq, Eq, Structural)]
pub enum KvFormat {
    Bf16,
    HqE8_2b,
}

/// What a blob of state was produced under.
#[derive(Debug, Clone, Copy, PartialEq, Eq, Structural)]
pub struct BlobIdentity {
    pub artifact: ArtifactHash,
    pub kv_format: KvFormat,
    /// The drafter whose window the blob carries, if any.
    pub drafter: Option<u32>,
    /// The blob layout.
    pub layout: u32,
}

/// The first respect in which an offered identity is not the load's own.
#[derive(Debug, Clone, Copy, PartialEq, Eq, Structural)]
pub enum IdentityMismatch {
    Artifact,
    KvFormat,
    Drafter,
    Layout,
}

impl IdentityMismatch {
    pub open spec fn text(self) -> Seq<char> {
        match self {
            IdentityMismatch::Artifact => "the blob was produced under another artifact"@,
            IdentityMismatch::KvFormat => "the blob was produced under another KV format"@,
            IdentityMismatch::Drafter => "the blob was produced under another drafter"@,
            IdentityMismatch::Layout => "the blob was produced under another blob layout"@,
        }
    }

    /// The mismatch in words.
    pub fn message(&self) -> (text: String)
        ensures
            text@ == self.text(),
            *self == IdentityMismatch::Artifact ==> text@
                == "the blob was produced under another artifact"@,
            *self == IdentityMismatch::KvFormat ==> text@
                == "the blob was produced under another KV format"@,
            *self == IdentityMismatch::Drafter ==> text@
                == "the blob was produced under another drafter"@,
            *self == IdentityMismatch::Layout ==> text@
                == "the blob was produced under another blob layout"@,
    {
        match self {
            IdentityMismatch::Artifact => "the blob was produced under another artifact".to_owned(),
            IdentityMismatch::KvFormat => "the blob was produced under another KV format".to_owned(),
            IdentityMismatch::Drafter => "the blob was produced under another drafter".to_owned(),
            IdentityMismatch::Layout => "the blob was produced under another blob layout".to_owned(),
        }
    }
}

impl BlobIdentity {
    /// The identity of a load that has named nothing yet.
    pub open spec fn is_unset(self) -> bool {
        &&& self.artifact == (ArtifactHash { w0: 0, w1: 0, w2: 0, w3: 0 })
        &&& self.kv_format == KvFormat::Bf16
        &&& self.drafter is None
        &&& self.layout == 0
    }

    pub fn unset() -> (identity: BlobIdentity)
        ensures
            identity.is_unset(),
            identity.artifact == (ArtifactHash { w0: 0, w1: 0, w2: 0, w3: 0 }),
            identity.kv_format == KvFormat::Bf16,
            identity.drafter is None,
            identity.layout == 0,
    {
        BlobIdentity {
            artifact: ArtifactHash { w0: 0, w1: 0, w2: 0, w3: 0 },
            kv_format: KvFormat::Bf16,
            drafter: None,
            layout: 0,
        }
    }

    /// The identity of a load of `artifact`.
    pub fn of_load(
        artifact: ArtifactHash,
        kv_format: KvFormat,
        drafter: Option<u32>,
        layout: u32,
    ) -> (identity: BlobIdentity)
        ensures
            identity == (BlobIdentity { artifact, kv_format, drafter, layout }),
    {
        BlobIdentity { artifact, kv_format, drafter, layout }
    }

    /// Whether this load may use state produced under `offered`.
    pub open spec fn verdict_on(self, offered: BlobIdentity) -> Result<(), IdentityMismatch> {
        if offered.artifact != self.artifact {
            Err(IdentityMismatch::Artifact)
        } else if offered.kv_format != self.kv_format {
            Err(IdentityMismatch::KvFormat)
        } else if offered.drafter != self.drafter {
            Err(IdentityMismatch::Drafter)
        } else if offered.layout != self.layout {
            Err(IdentityMismatch::Layout)
        } else {
            Ok(())
        }
    }

    /// Refuse state this load was not the producer of, naming the first
    /// difference.
    pub fn accepts(&self, offered: &BlobIdentity) -> (verdict: Result<(), IdentityMismatch>)
        ensures
            verdict == self.verdict_on(*offered),
            verdict is Ok <==> *offered == *self,
            // The first of the respects in which they differ is named.
            verdict == Err::<(), IdentityMismatch>(IdentityMismatch::Artifact) <==> offered.artifact
                != self.artifact,
            verdict == Err::<(), IdentityMismatch>(IdentityMismatch::KvFormat) <==> offered.artifact
                == self.artifact && offered.kv_format != self.kv_format,
            verdict == Err::<(), IdentityMismatch>(IdentityMismatch::Drafter) <==> offered.artifact
                == self.artifact && offered.kv_format == self.kv_format && offered.drafter
                != self.drafter,
    {
        if offered.artifact != self.artifact {
            Err(IdentityMismatch::Artifact)
        } else if offered.kv_format != self.kv_format {
            Err(IdentityMismatch::KvFormat)
        } else if !same_drafter(offered.drafter, self.drafter) {
            Err(IdentityMismatch::Drafter)
        } else if offered.layout != self.layout {
            Err(IdentityMismatch::Layout)
        } else {
            Ok(())
        }
    }
}

fn same_drafter(a: Option<u32>, b: Option<u32>) -> (same: bool)
    ensures
        same == (a == b),
{
    match (a, b) {
        (None, None) => true,
        (Some(x), Some(y)) => x == y,
        _ => false,
    }
}

/// A load accepts an identity exactly when it is its own.
pub proof fn only_the_same_load_is_accepted(load: BlobIdentity, offered: BlobIdentity)
    ensures
        load.verdict_on(offered) is Ok <==> load == offered,
{
}

/// The content key of a prompt head: sixteen bytes of hash chain.
#[derive(Debug, Clone, Copy, PartialEq, Eq, Structural)]
pub struct MatchKey {
    pub hi: u64,
    pub lo: u64,
}

/// What a blob says about itself to a tier that does not hold its history.
#[derive(Debug, Clone, Copy, PartialEq, Eq, Structural)]
pub struct BlobHeader {
    pub identity: BlobIdentity,
    pub key: MatchKey,
    pub tokens: u32,
}

/// One media item of a prompt: the tokens it stands for, and what it is.
#[derive(Debug, Clone, Copy, PartialEq, Eq)]
pub struct MediaKey {
    pub begin: u32,
    pub count: u32,
    pub digest: [u8; 32],
    pub grid: [u32; 3],
}

/// The empty chain.
pub open spec fn chain_start() -> MatchKey {
    MatchKey { hi: 0x6c62_272e_07bb_0142, lo: 0xcbf2_9ce4_8422_2325 }
}

/// The chain one word further along.
pub open spec fn chained(key: MatchKey, word: u64) -> MatchKey {
    MatchKey {
        hi: (key.hi.wrapping_add(key.lo) ^ word).wrapping_mul(0x9e37_79b9_7f4a_7c15u64),
        lo: (key.lo ^ word).wrapping_mul(0x0000_0100_0000_01b3u64),
    }
}

impl MatchKey {
    fn absorb(self, word: u64) -> (next: MatchKey)
        ensures
            next == chained(self, word),
    {
        MatchKey {
            hi: (self.hi.wrapping_add(self.lo) ^ word).wrapping_mul(0x9e37_79b9_7f4a_7c15u64),
            lo: (self.lo ^ word).wrapping_mul(0x0000_0100_0000_01b3u64),
        }
    }
}

/// The chain after the four words of a digest.
pub open spec fn digest_chained(key: MatchKey, digest: Seq<u8>) -> MatchKey {
    chained(
        chained(
            chained(chained(key, be_word(digest, 0) as u64), be_word(digest, 8) as u64),
            be_word(digest, 16) as u64,
        ),
        be_word(digest, 24) as u64,
    )
}

/// The chain after one media item: its extent, its grid and its digest, set
/// off from any token by a word no token can be.
pub open spec fn media_chained(key: MatchKey, media: MediaKey) -> MatchKey {
    let marked = chained(chained(key, 0xffff_ffff_0000_0000u64), media.count as u64);
    let shaped = chained(
        chained(chained(marked, media.grid@[0] as u64), media.grid@[1] as u64),
        media.grid@[2] as u64,
    );
    digest_chained(shaped, media.digest@)
}

/// The chain after those of the first `k` media items that begin at `at`.
pub open spec fn begun_at(key: MatchKey, media: Seq<MediaKey>, at: int, k: int) -> MatchKey
    decreases k,
{
    if k <= 0 {
        key
    } else {
        let before = begun_at(key, media, at, k - 1);
        if media[k - 1].begin == at {
            media_chained(before, media[k - 1])
        } else {
            before
        }
    }
}

/// The content key of the first `n` tokens: each position absorbs the media
/// items that begin there and then its token.
pub open spec fn content_key(tokens: Seq<TokenId>, media: Seq<MediaKey>, n: int) -> MatchKey
    decreases n,
{
    if n <= 0 {
        chain_start()
    } else {
        let before = content_key(tokens, media, n - 1);
        chained(begun_at(before, media, n - 1, media.len() as int), tokens[n - 1] as u64)
    }
}

/// A prompt's content: its token ids and the media inside them.
#[derive(Clone, Copy)]
pub struct PromptContent<'a> {
    pub token_ids: &'a [TokenId],
    pub media: &'a [MediaKey],
}

impl<'a> PromptContent<'a> {
    /// The key of the first `n` tokens.
    pub open spec fn key(self, n: int) -> MatchKey {
        content_key(self.token_ids@, self.media@, n)
    }

    /// The keys of the prompt's heads, by length.
    pub open spec fn keys(self) -> Seq<MatchKey> {
        Seq::new(self.token_ids@.len() + 1, |n: int| self.key(n))
    }

    /// A text-only prompt.
    pub fn text(token_ids: &'a [TokenId]) -> (content: PromptContent<'a>)
        ensures
            content.token_ids == token_ids,
            content.media@.len() == 0,
    {
        PromptContent { token_ids, media: &[] }
    }

    /// A prompt with media inside it.
    pub fn new(token_ids: &'a [TokenId], media: &'a [MediaKey]) -> (content: PromptContent<'a>)
        ensures
            content.token_ids == token_ids,
            content.media == media,
    {
        PromptContent { token_ids, media }
    }

    /// The prompt's length in tokens.
    pub fn tokens(&self) -> (n: u32)
        requires
            self.token_ids@.len() <= u32::MAX,
        ensures
            n == self.token_ids@.len(),
    {
        self.token_ids.len() as u32
    }

    /// The chain one token further along.
    fn step(&self, key: MatchKey, at: usize) -> (next: MatchKey)
        requires
            at < self.token_ids@.len(),
            key == self.key(at as int),
        ensures
            next == self.key(at + 1),
    {
        let mut mixed = key;
        let mut k: usize = 0;
        while k < self.media.len()
            invariant
                k <= self.media@.len(),
                at < self.token_ids@.len(),
                mixed == begun_at(key, self.media@, at as int, k as int),
            decreases self.media@.len() - k,
        {
            let media = &self.media[k];
            if media.begin as usize == at {
                let marked = mixed.absorb(0xffff_ffff_0000_0000u64).absorb(media.count as u64);
                let shaped = marked.absorb(media.grid[0] as u64).absorb(
                    media.grid[1] as u64,
                ).absorb(media.grid[2] as u64);
                mixed = shaped.absorb(word_at(&media.digest, 0)).absorb(
                    word_at(&media.digest, 8),
                ).absorb(word_at(&media.digest, 16)).absorb(word_at(&media.digest, 24));
            }
            k = k + 1;
        }
        mixed.absorb(self.token_ids[at] as u64)
    }

    /// The content key of the first `at` tokens.
    pub fn key_at(&self, at: u32) -> (key: MatchKey)
        requires
            at <= self.token_ids@.len(),
        ensures
            key == self.key(at as int),
    {
        let mut key = MatchKey { hi: 0x6c62_272e_07bb_0142, lo: 0xcbf2_9ce4_8422_2325 };
        let mut n: usize = 0;
        while n < at as usize
            invariant
                n <= at <= self.token_ids@.len(),
                key == self.key(n as int),
            decreases at - n,
        {
            key = self.step(key, n);
            n = n + 1;
        }
        key
    }

    /// The content key at every length up to the prompt's own, in one pass.
    fn all_keys(&self) -> (keys: Vec<MatchKey>)
        requires
            self.token_ids@.len() < usize::MAX,
        ensures
            keys@.len() == self.token_ids@.len() + 1,
            forall|n: int| 0 <= n <= self.token_ids@.len() ==> #[trigger] keys@[n] == self.key(n),
    {
        let mut key = MatchKey { hi: 0x6c62_272e_07bb_0142, lo: 0xcbf2_9ce4_8422_2325 };
        let mut keys: Vec<MatchKey> = Vec::new();
        keys.push(key);
        let mut n: usize = 0;
        while n < self.token_ids.len()
            invariant
                n <= self.token_ids@.len() < usize::MAX,
                keys@.len() == n + 1,
                key == self.key(n as int),
                forall|m: int| 0 <= m <= n ==> #[trigger] keys@[m] == self.key(m),
            decreases self.token_ids@.len() - n,
        {
            key = self.step(key, n);
            keys.push(key);
            n = n + 1;
        }
        keys
    }

    /// The content key at each of `lengths`, in one pass over the prompt.
    pub fn keys_at(&self, lengths: &[u32]) -> (keys: Vec<MatchKey>)
        requires
            self.token_ids@.len() < usize::MAX,
            forall|k: int| 0 <= k < lengths@.len() ==> #[trigger] lengths@[k] <= self.token_ids@.len(),
        ensures
            keys@.len() == lengths@.len(),
            forall|k: int| 0 <= k < lengths@.len() ==> #[trigger] keys@[k] == self.key(
                lengths@[k] as int,
            ),
    {
        let all = self.all_keys();
        let mut keys: Vec<MatchKey> = Vec::new();
        let mut k: usize = 0;
        while k < lengths.len()
            invariant
                k <= lengths@.len(),
                all@.len() == self.token_ids@.len() + 1,
                forall|n: int| 0 <= n <= self.token_ids@.len() ==> #[trigger] all@[n] == self.key(n),
                forall|j: int|
                    0 <= j < lengths@.len() ==> #[trigger] lengths@[j] <= self.token_ids@.len(),
                keys@.len() == k,
                forall|j: int| 0 <= j < k ==> #[trigger] keys@[j] == self.key(lengths@[j] as int),
            decreases lengths@.len() - k,
        {
            let n: usize = lengths[k] as usize;
            keys.push(all[n]);
            k = k + 1;
        }
        keys
    }

    /// The prompt keyed at every length of its first `reach` tokens, for a
    /// lookup that may not reach past them.
    pub fn keys_within(&self, reach: u32) -> (keys: PromptKeys)
        requires
            reach <= self.token_ids@.len() < usize::MAX,
        ensures
            keys.keys@ == self.keys().take(reach + 1),
            keys.reach() == reach,
            forall|n: int| 0 <= n <= reach ==> #[trigger] keys.at(n) == self.key(n),
    {
        let mut keys = self.all_keys();
        keys.truncate(reach as usize + 1);
        let out = PromptKeys { keys };
        assert forall|n: int| 0 <= n <= reach implies #[trigger] out.at(n) == self.key(n) by {
            assert(out.keys@[n] == self.key(n));
        }
        assert(out.keys@ =~= self.keys().take(reach + 1));
        out
    }
}

/// A prompt's content keys at every length a claim may reach.
#[derive(Debug)]
pub struct PromptKeys {
    pub keys: Vec<MatchKey>,
}

impl PromptKeys {
    /// The longest length keyed.
    pub open spec fn reach(self) -> int {
        self.keys@.len() - 1
    }

    /// The key at length `n`.
    pub open spec fn at(self, n: int) -> MatchKey {
        self.keys@[n]
    }

    /// Whether the prompt's first `tokens` tokens have content `key`.
    pub open spec fn covers(self, key: MatchKey, tokens: u32) -> bool {
        tokens <= self.reach() && self.at(tokens as int) == key
    }

    pub fn matches_at(&self, key: MatchKey, tokens: u32) -> (found: bool)
        ensures
            found == self.covers(key, tokens),
            found <==> tokens < self.keys@.len() && self.keys@[tokens as int] == key,
    {
        (tokens as usize) < self.keys.len() && self.keys[tokens as usize] == key
    }
}

/// Equal content has an equal key at every length, whoever asks: the key is
/// a function of the tokens and the media that begin among them.
pub proof fn key_is_content_alone(
    a: Seq<TokenId>,
    a_media: Seq<MediaKey>,
    b: Seq<TokenId>,
    b_media: Seq<MediaKey>,
    n: int,
)
    requires
        0 <= n <= a.len(),
        n <= b.len(),
        forall|i: int| 0 <= i < n ==> a[i] == b[i],
        a_media == b_media,
    ensures
        content_key(a, a_media, n) == content_key(b, b_media, n),
    decreases n,
{
    if n > 0 {
        key_is_content_alone(a, a_media, b, b_media, n - 1);
    }
}

/// A prompt that extends another has the other's keys at every length of the
/// other: what follows a head never changes the head's key.
pub proof fn a_head_keeps_its_key(
    tokens: Seq<TokenId>,
    more: Seq<TokenId>,
    media: Seq<MediaKey>,
    n: int,
)
    requires
        0 <= n <= tokens.len(),
    ensures
        content_key(tokens + more, media, n) == content_key(tokens, media, n),
{
    key_is_content_alone(tokens + more, media, tokens, media, n);
}

/// Multiplying by `c` is undone by multiplying by `back`, where the two are
/// inverse to each other.
proof fn mul_is_undone(x: u64, c: u64, back: u64)
    requires
        (c * back) % 0x1_0000_0000_0000_0000 == 1,
    ensures
        x.wrapping_mul(c).wrapping_mul(back) == x,
{
    let m: int = 0x1_0000_0000_0000_0000;
    vstd::arithmetic::div_mod::lemma_mul_mod_noop_left(x * c, back as int, m);
    vstd::arithmetic::div_mod::lemma_mul_mod_noop_right(x as int, c * back, m);
    vstd::arithmetic::mul::lemma_mul_is_associative(x as int, c as int, back as int);
    vstd::arithmetic::div_mod::lemma_small_mod(x as nat, m as nat);
    vstd::arithmetic::div_mod::lemma_small_mod(1, m as nat);
}

/// One step of the chain tells apart any two words, in either half of the key.
pub proof fn a_step_tells_words_apart(key: MatchKey, a: u64, b: u64)
    requires
        a != b,
    ensures
        chained(key, a).hi != chained(key, b).hi,
        chained(key, a).lo != chained(key, b).lo,
{
    let sum = key.hi.wrapping_add(key.lo);
    let lo = key.lo;
    assert((0x9e37_79b9_7f4a_7c15u64 * 0xf1de_83e1_9937_733du64) % 0x1_0000_0000_0000_0000 == 1);
    assert((0x0000_0100_0000_01b3u64 * 0xce96_5057_aff6_957bu64) % 0x1_0000_0000_0000_0000 == 1);
    mul_is_undone(sum ^ a, 0x9e37_79b9_7f4a_7c15u64, 0xf1de_83e1_9937_733du64);
    mul_is_undone(sum ^ b, 0x9e37_79b9_7f4a_7c15u64, 0xf1de_83e1_9937_733du64);
    mul_is_undone(lo ^ a, 0x0000_0100_0000_01b3u64, 0xce96_5057_aff6_957bu64);
    mul_is_undone(lo ^ b, 0x0000_0100_0000_01b3u64, 0xce96_5057_aff6_957bu64);
    assert(a != b ==> sum ^ a != sum ^ b) by (bit_vector);
    assert(a != b ==> lo ^ a != lo ^ b) by (bit_vector);
}

/// Chains whose second halves differ differ there after any one word.
pub proof fn a_step_keeps_chains_apart(a: MatchKey, b: MatchKey, word: u64)
    requires
        a.lo != b.lo,
    ensures
        chained(a, word).lo != chained(b, word).lo,
{
    let (x, y) = (a.lo, b.lo);
    assert((0x0000_0100_0000_01b3u64 * 0xce96_5057_aff6_957bu64) % 0x1_0000_0000_0000_0000 == 1);
    mul_is_undone(x ^ word, 0x0000_0100_0000_01b3u64, 0xce96_5057_aff6_957bu64);
    mul_is_undone(y ^ word, 0x0000_0100_0000_01b3u64, 0xce96_5057_aff6_957bu64);
    assert(x != y ==> x ^ word != y ^ word) by (bit_vector);
}

proof fn media_keeps_chains_apart(a: MatchKey, b: MatchKey, m: MediaKey)
    requires
        a.lo != b.lo,
    ensures
        media_chained(a, m).lo != media_chained(b, m).lo,
{
    let w0: u64 = 0xffff_ffff_0000_0000u64;
    let w1 = m.count as u64;
    let (w2, w3, w4) = (m.grid@[0] as u64, m.grid@[1] as u64, m.grid@[2] as u64);
    let (a1, b1) = (chained(a, w0), chained(b, w0));
    a_step_keeps_chains_apart(a, b, w0);
    let (a2, b2) = (chained(a1, w1), chained(b1, w1));
    a_step_keeps_chains_apart(a1, b1, w1);
    let (a3, b3) = (chained(a2, w2), chained(b2, w2));
    a_step_keeps_chains_apart(a2, b2, w2);
    let (a4, b4) = (chained(a3, w3), chained(b3, w3));
    a_step_keeps_chains_apart(a3, b3, w3);
    let (a5, b5) = (chained(a4, w4), chained(b4, w4));
    a_step_keeps_chains_apart(a4, b4, w4);
    digest_keeps_chains_apart(a5, b5, m.digest@);
}

proof fn digest_keeps_chains_apart(a: MatchKey, b: MatchKey, digest: Seq<u8>)
    requires
        a.lo != b.lo,
    ensures
        digest_chained(a, digest).lo != digest_chained(b, digest).lo,
{
    let (w0, w1) = (be_word(digest, 0) as u64, be_word(digest, 8) as u64);
    let (w2, w3) = (be_word(digest, 16) as u64, be_word(digest, 24) as u64);
    a_step_keeps_chains_apart(a, b, w0);
    let (a1, b1) = (chained(a, w0), chained(b, w0));
    a_step_keeps_chains_apart(a1, b1, w1);
    let (a2, b2) = (chained(a1, w1), chained(b1, w1));
    a_step_keeps_chains_apart(a2, b2, w2);
    let (a3, b3) = (chained(a2, w2), chained(b2, w2));
    a_step_keeps_chains_apart(a3, b3, w3);
}

proof fn begun_keeps_chains_apart(a: MatchKey, b: MatchKey, media: Seq<MediaKey>, at: int, k: int)
    requires
        a.lo != b.lo,
    ensures
        begun_at(a, media, at, k).lo != begun_at(b, media, at, k).lo,
    decreases k,
{
    if k > 0 {
        begun_keeps_chains_apart(a, b, media, at, k - 1);
        if media[k - 1].begin == at {
            media_keeps_chains_apart(
                begun_at(a, media, at, k - 1),
                begun_at(b, media, at, k - 1),
                media[k - 1],
            );
        }
    }
}

/// Content alike in its media and in every token but one has different keys at
/// every length that takes that token in, whatever the two tokens are.
pub proof fn one_token_tells_content_apart(
    x: Seq<TokenId>,
    y: Seq<TokenId>,
    media: Seq<MediaKey>,
    at: int,
    n: int,
)
    requires
        0 <= at < n,
        n <= x.len(),
        n <= y.len(),
        x[at] != y[at],
        forall|i: int| 0 <= i < n && i != at ==> x[i] == y[i],
    ensures
        content_key(x, media, n) != content_key(y, media, n),
        content_key(x, media, n).lo != content_key(y, media, n).lo,
        n == at + 1 ==> content_key(x, media, n).hi != content_key(y, media, n).hi,
    decreases n,
{
    if n == at + 1 {
        key_is_content_alone(x, media, y, media, at);
        let begun = begun_at(content_key(x, media, at), media, at, media.len() as int);
        a_step_tells_words_apart(begun, x[at] as u64, y[at] as u64);
    } else {
        one_token_tells_content_apart(x, y, media, at, n - 1);
        let k = media.len() as int;
        let (p, q) = (content_key(x, media, n - 1), content_key(y, media, n - 1));
        begun_keeps_chains_apart(p, q, media, n - 1, k);
        a_step_keeps_chains_apart(
            begun_at(p, media, n - 1, k),
            begun_at(q, media, n - 1, k),
            x[n - 1] as u64,
        );
    }
}

/// Two prompts alike in their media and in every token but one have different
/// keys at every length that takes that token in, whatever the two tokens are.
pub proof fn one_token_tells_prompts_apart<'a>(
    a: PromptContent<'a>,
    b: PromptContent<'a>,
    at: int,
    n: int,
)
    requires
        a.media@ == b.media@,
        0 <= at < n,
        n <= a.token_ids@.len(),
        n <= b.token_ids@.len(),
        a.token_ids@[at] != b.token_ids@[at],
        forall|i: int| 0 <= i < n && i != at ==> a.token_ids@[i] == b.token_ids@[i],
    ensures
        a.key(n) != b.key(n),
        a.key(n).lo != b.key(n).lo,
        n == at + 1 ==> a.key(n).hi != b.key(n).hi,
{
    one_token_tells_content_apart(a.token_ids@, b.token_ids@, a.media@, at, n);
}

/// Whether two media items begin at one place and differ in one thing: how many
/// tokens they stand for, one side of their grid, or one byte of their digest.
pub open spec fn one_thing_apart(a: MediaKey, b: MediaKey) -> bool {
    &&& a.begin == b.begin
    &&& {
        ||| a.count != b.count && a.grid@ == b.grid@ && a.digest@ == b.digest@
        ||| a.count == b.count && a.digest@ == b.digest@ && exists|side: int|
            0 <= side < 3 && #[trigger] a.grid@[side] != b.grid@[side] && forall|j: int|
                0 <= j < 3 && j != side ==> #[trigger] a.grid@[j] == b.grid@[j]
        ||| a.count == b.count && a.grid@ == b.grid@ && exists|byte: int|
            0 <= byte < 32 && #[trigger] a.digest@[byte] != b.digest@[byte] && forall|j: int|
                0 <= j < 32 && j != byte ==> #[trigger] a.digest@[j] == b.digest@[j]
    }
}

/// A word is as large as its bytes are, the first of them first.
pub proof fn words_are_ordered_by_their_bytes(
    a: Seq<u8>,
    b: Seq<u8>,
    at: int,
    first: int,
)
    requires
        0 <= first < 8,
        forall|j: int| at <= j < at + first ==> #[trigger] a[j] == b[j],
        a[at + first] < b[at + first],
    ensures
        be_word(a, at) < be_word(b, at),
        0 <= be_word(a, at) <= u64::MAX,
        0 <= be_word(b, at) <= u64::MAX,
{
    assert(first > 0 ==> a[at] == b[at]);
    assert(first > 1 ==> a[at + 1] == b[at + 1]);
    assert(first > 2 ==> a[at + 2] == b[at + 2]);
    assert(first > 3 ==> a[at + 3] == b[at + 3]);
    assert(first > 4 ==> a[at + 4] == b[at + 4]);
    assert(first > 5 ==> a[at + 5] == b[at + 5]);
    assert(first > 6 ==> a[at + 6] == b[at + 6]);
    assert(first == 0 || first == 1 || first == 2 || first == 3 || first == 4 || first == 5
        || first == 6 || first == 7);
}

/// The four words of a hash are its bytes and nothing less: hashes of different
/// bytes differ.
pub proof fn hashes_tell_bytes_apart(a: Seq<u8>, b: Seq<u8>)
    requires
        a.len() == 32,
        b.len() == 32,
        be_word(a, 0) == be_word(b, 0),
        be_word(a, 8) == be_word(b, 8),
        be_word(a, 16) == be_word(b, 16),
        be_word(a, 24) == be_word(b, 24),
    ensures
        a == b,
{
    assert forall|i: int| 0 <= i < 32 implies a[i] == b[i] by {
        let at = (i / 8) * 8;
        assert(be_word(a, at) == be_word(b, at));
        same_word_same_bytes(a, b, at, 7);
    }
    assert(a =~= b);
}

proof fn same_word_same_bytes(a: Seq<u8>, b: Seq<u8>, at: int, last: int)
    requires
        be_word(a, at) == be_word(b, at),
        -1 <= last < 8,
    ensures
        forall|j: int| at <= j <= at + last ==> #[trigger] a[j] == b[j],
    decreases last + 1,
{
    if last >= 0 {
        same_word_same_bytes(a, b, at, last - 1);
        if a[at + last] < b[at + last] {
            words_are_ordered_by_their_bytes(a, b, at, last);
        } else if b[at + last] < a[at + last] {
            words_are_ordered_by_their_bytes(b, a, at, last);
        }
    }
}

proof fn digests_tell_chains_apart(key: MatchKey, a: Seq<u8>, b: Seq<u8>, byte: int)
    requires
        0 <= byte < 32,
        a[byte] != b[byte],
        forall|j: int| 0 <= j < 32 && j != byte ==> #[trigger] a[j] == b[j],
    ensures
        digest_chained(key, a).lo != digest_chained(key, b).lo,
{
    let word = byte / 8;
    let at = word * 8;
    if a[byte] < b[byte] {
        words_are_ordered_by_their_bytes(a, b, at, byte - at);
    } else {
        words_are_ordered_by_their_bytes(b, a, at, byte - at);
    }
    let (a0, b0) = (be_word(a, 0) as u64, be_word(b, 0) as u64);
    let (a1, b1) = (be_word(a, 8) as u64, be_word(b, 8) as u64);
    let (a2, b2) = (be_word(a, 16) as u64, be_word(b, 16) as u64);
    let (a3, b3) = (be_word(a, 24) as u64, be_word(b, 24) as u64);
    assert(word == 0 || word == 1 || word == 2 || word == 3);
    let (p0, q0) = (chained(key, a0), chained(key, b0));
    let (p1, q1) = (chained(p0, a1), chained(q0, b1));
    let (p2, q2) = (chained(p1, a2), chained(q1, b2));
    if word == 0 {
        a_step_tells_words_apart(key, a0, b0);
        a_step_keeps_chains_apart(p0, q0, a1);
        a_step_keeps_chains_apart(p1, q1, a2);
        a_step_keeps_chains_apart(p2, q2, a3);
    } else if word == 1 {
        a_step_tells_words_apart(p0, a1, b1);
        a_step_keeps_chains_apart(p1, q1, a2);
        a_step_keeps_chains_apart(p2, q2, a3);
    } else if word == 2 {
        a_step_tells_words_apart(p1, a2, b2);
        a_step_keeps_chains_apart(p2, q2, a3);
    } else {
        a_step_tells_words_apart(p2, a3, b3);
    }
}

/// Two media items that differ in one thing leave different chains.
pub proof fn one_thing_tells_media_apart(key: MatchKey, a: MediaKey, b: MediaKey)
    requires
        one_thing_apart(a, b),
    ensures
        media_chained(key, a).lo != media_chained(key, b).lo,
{
    let marked = chained(key, 0xffff_ffff_0000_0000u64);
    let (p1, q1) = (chained(marked, a.count as u64), chained(marked, b.count as u64));
    let (p2, q2) = (chained(p1, a.grid@[0] as u64), chained(q1, b.grid@[0] as u64));
    let (p3, q3) = (chained(p2, a.grid@[1] as u64), chained(q2, b.grid@[1] as u64));
    let (p4, q4) = (chained(p3, a.grid@[2] as u64), chained(q3, b.grid@[2] as u64));
    if a.count != b.count {
        a_step_tells_words_apart(marked, a.count as u64, b.count as u64);
        a_step_keeps_chains_apart(p1, q1, a.grid@[0] as u64);
        a_step_keeps_chains_apart(p2, q2, a.grid@[1] as u64);
        a_step_keeps_chains_apart(p3, q3, a.grid@[2] as u64);
        digest_keeps_chains_apart(p4, q4, a.digest@);
    } else if a.digest@ == b.digest@ {
        if a.grid@[0] != b.grid@[0] {
            a_step_tells_words_apart(p1, a.grid@[0] as u64, b.grid@[0] as u64);
            a_step_keeps_chains_apart(p2, q2, a.grid@[1] as u64);
            a_step_keeps_chains_apart(p3, q3, a.grid@[2] as u64);
        } else if a.grid@[1] != b.grid@[1] {
            a_step_tells_words_apart(p2, a.grid@[1] as u64, b.grid@[1] as u64);
            a_step_keeps_chains_apart(p3, q3, a.grid@[2] as u64);
        } else {
            a_step_tells_words_apart(p3, a.grid@[2] as u64, b.grid@[2] as u64);
        }
        digest_keeps_chains_apart(p4, q4, a.digest@);
    } else {
        let byte = choose|byte: int|
            0 <= byte < 32 && #[trigger] a.digest@[byte] != b.digest@[byte] && forall|j: int|
                0 <= j < 32 && j != byte ==> #[trigger] a.digest@[j] == b.digest@[j];
        digests_tell_chains_apart(p4, a.digest@, b.digest@, byte);
    }
}

/// Media lists alike but for the item at `x`, which begins at one place.
pub open spec fn alike_but(a: Seq<MediaKey>, b: Seq<MediaKey>, x: int) -> bool {
    &&& a.len() == b.len()
    &&& 0 <= x < a.len()
    &&& a[x].begin == b[x].begin
    &&& forall|i: int| 0 <= i < a.len() && i != x ==> #[trigger] a[i] == b[i]
}

proof fn begun_elsewhere(
    key: MatchKey,
    a: Seq<MediaKey>,
    b: Seq<MediaKey>,
    x: int,
    at: int,
    k: int,
)
    requires
        alike_but(a, b, x),
        0 <= k <= a.len(),
        a[x].begin != at || k <= x,
    ensures
        begun_at(key, a, at, k) == begun_at(key, b, at, k),
    decreases k,
{
    if k > 0 {
        begun_elsewhere(key, a, b, x, at, k - 1);
        if k - 1 != x {
            assert(a[k - 1] == b[k - 1]);
        }
    }
}

proof fn begun_here(key: MatchKey, a: Seq<MediaKey>, b: Seq<MediaKey>, x: int, k: int)
    requires
        alike_but(a, b, x),
        one_thing_apart(a[x], b[x]),
        x < k <= a.len(),
    ensures
        begun_at(key, a, a[x].begin as int, k).lo != begun_at(key, b, a[x].begin as int, k).lo,
    decreases k,
{
    let at = a[x].begin as int;
    if k == x + 1 {
        begun_elsewhere(key, a, b, x, at, x);
        one_thing_tells_media_apart(begun_at(key, a, at, x), a[x], b[x]);
    } else {
        begun_here(key, a, b, x, k - 1);
        assert(a[k - 1] == b[k - 1]);
        if a[k - 1].begin == at {
            media_keeps_chains_apart(
                begun_at(key, a, at, k - 1),
                begun_at(key, b, at, k - 1),
                a[k - 1],
            );
        }
    }
}

/// Two prompts alike in their tokens and in their media, but for one item that
/// differs in one thing, have different keys at every length past the item's
/// beginning, and the same keys up to it.
pub proof fn one_media_item_tells_prompts_apart<'a>(
    a: PromptContent<'a>,
    b: PromptContent<'a>,
    x: int,
    n: int,
)
    requires
        a.token_ids@ == b.token_ids@,
        0 <= n <= a.token_ids@.len(),
        alike_but(a.media@, b.media@, x),
        one_thing_apart(a.media@[x], b.media@[x]),
    ensures
        n <= a.media@[x].begin ==> a.key(n) == b.key(n),
        n > a.media@[x].begin ==> a.key(n) != b.key(n) && a.key(n).lo != b.key(n).lo,
    decreases n,
{
    let (p, q) = (a.media@, b.media@);
    let tokens = a.token_ids@;
    let k = p.len() as int;
    if n > 0 {
        one_media_item_tells_prompts_apart(a, b, x, n - 1);
        let (u, v) = (a.key(n - 1), b.key(n - 1));
        let at = n - 1;
        if at < p[x].begin {
            begun_elsewhere(u, p, q, x, at, k);
        } else if at == p[x].begin {
            begun_here(u, p, q, x, k);
            a_step_keeps_chains_apart(
                begun_at(u, p, at, k),
                begun_at(v, q, at, k),
                tokens[at] as u64,
            );
        } else {
            begun_elsewhere(v, p, q, x, at, k);
            begun_keeps_chains_apart(u, v, p, at, k);
            a_step_keeps_chains_apart(
                begun_at(u, p, at, k),
                begun_at(v, q, at, k),
                tokens[at] as u64,
            );
        }
    }
}

/// Media that begin at or past `n` are no part of the key at `n`.
pub proof fn later_media_are_no_part_of_a_head(
    tokens: Seq<TokenId>,
    media: Seq<MediaKey>,
    later: MediaKey,
    n: int,
)
    requires
        0 <= n <= tokens.len(),
        later.begin >= n,
    ensures
        content_key(tokens, media.push(later), n) == content_key(tokens, media, n),
    decreases n,
{
    if n > 0 {
        later_media_are_no_part_of_a_head(tokens, media, later, n - 1);
        let before = content_key(tokens, media, n - 1);
        same_media_begun(before, media.push(later), media, n - 1, media.len() as int);
    }
}

proof fn same_media_begun(key: MatchKey, a: Seq<MediaKey>, b: Seq<MediaKey>, at: int, k: int)
    requires
        0 <= k <= a.len(),
        k <= b.len(),
        forall|i: int| 0 <= i < k ==> a[i] == b[i],
    ensures
        begun_at(key, a, at, k) == begun_at(key, b, at, k),
    decreases k,
{
    if k > 0 {
        same_media_begun(key, a, b, at, k - 1);
    }
}

} // verus!
