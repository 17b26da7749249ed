//! The scheduler's arithmetic: its knobs, what a request may generate and
//! reserves, and where its prefill chunks end.

use crate::host::DEFAULT_RETAINED_INTERACTIVE_TTL;
use crate::identity::MediaKey;
use crate::request::Request;
use crate::text::{around, decimal};
use crate::types::{capped_span, RequestInput, N_DECODE_LANES};
use vstd::prelude::*;

verus! {

/// The serving prefill chunk width's default, in tokens.
pub const DEFAULT_SERVING_CHUNK_TOKENS: u32 = 1024;

/// Consecutive failed prefills that end a request.
pub const MAX_PREFILL_ATTEMPTS: u32 = 3;

/// The scheduler's knobs.
#[derive(Debug)]
pub struct SchedulerConfig {
    /// The loaded model.
    pub model: String,
    /// Requests in flight at most.
    pub max_in_flight: usize,
    /// Requests grouped into one prefill batch at most.
    pub max_prefill_batch: usize,
    /// Tokens a KV page holds.
    pub kv_page_tokens: u32,
    /// The longest sequence, prompt included.
    pub max_sequence_tokens: u32,
    /// The KV pool, in pages.
    pub kv_capacity_pages: u32,
    /// Sequences the device holds at once.
    pub resident_slot_capacity: u32,
    /// The host tier's budget, in bytes.
    pub host_capacity_bytes: u64,
    /// Prompt tokens one chunk carries at most.
    pub serving_chunk_tokens: u32,
    /// Whether state outlives the request that made it.
    pub prompt_reuse: bool,
    /// Images retained state may keep on the device.
    pub retained_slots: u32,
    /// How long an Interactive blob keeps its class, in microseconds.
    pub retained_interactive_ttl: u64,
}

impl SchedulerConfig {
    /// The knobs a scheduler can run under.
    pub open spec fn valid(self) -> bool {
        &&& self.max_in_flight > 0
        &&& self.max_prefill_batch > 0
        &&& self.kv_page_tokens > 0
        &&& self.max_sequence_tokens > 0
        &&& self.kv_capacity_pages > 0
        &&& self.resident_slot_capacity > 0
        &&& self.serving_chunk_tokens > 0
    }
}

impl Default for SchedulerConfig {
    fn default() -> (config: SchedulerConfig)
        ensures
            config.valid(),
            config.model@.len() == 0,
            config.max_in_flight == N_DECODE_LANES,
            config.max_prefill_batch == N_DECODE_LANES,
            config.max_in_flight == 8,
            config.max_prefill_batch == 8,
            config.resident_slot_capacity == 8,
            config.retained_slots == 8,
            config.serving_chunk_tokens == 1024,
            config.retained_interactive_ttl == 30 * 60 * 1_000_000,
            config.kv_page_tokens == 16,
            config.max_sequence_tokens == 8192,
            config.kv_capacity_pages == 8 * 512,
            config.resident_slot_capacity == N_DECODE_LANES,
            config.host_capacity_bytes == 8 * 512,
            config.serving_chunk_tokens == DEFAULT_SERVING_CHUNK_TOKENS,
            config.prompt_reuse,
            config.retained_slots == N_DECODE_LANES,
            config.retained_interactive_ttl == DEFAULT_RETAINED_INTERACTIVE_TTL,
    {
        SchedulerConfig {
            model: String::new(),
            max_in_flight: N_DECODE_LANES,
            max_prefill_batch: N_DECODE_LANES,
            kv_page_tokens: 16,
            max_sequence_tokens: 8192,
            kv_capacity_pages: (N_DECODE_LANES * (8192 / 16)) as u32,
            resident_slot_capacity: N_DECODE_LANES as u32,
            host_capacity_bytes: (N_DECODE_LANES * (8192 / 16)) as u64,
            serving_chunk_tokens: DEFAULT_SERVING_CHUNK_TOKENS,
            prompt_reuse: true,
            retained_slots: N_DECODE_LANES as u32,
            retained_interactive_ttl: DEFAULT_RETAINED_INTERACTIVE_TTL,
        }
    }
}

/// A serving chunk width the load can run: no wider than what was reserved.
pub fn resolve_serving_chunk_tokens(requested: u32, load_width: u32) -> (width: Result<u32, String>)
    ensures
        requested <= load_width ==> width == Ok::<u32, String>(requested),
        requested > load_width ==> (width matches Err(text) && text@ == "serving chunk width "@
            + decimal(requested as nat) + " exceeds the "@ + decimal(load_width as nat)
            + "-token width reserved at model load"@),
{
    if requested > load_width {
        let asked = around("serving chunk width ", requested as u64, " exceeds the ");
        return Err(
            around(asked.as_str(), load_width as u64, "-token width reserved at model load"),
        );
    }
    Ok(requested)
}

/// The media identities of a request's prompt.
pub fn media_keys(input: &RequestInput) -> (keys: Vec<MediaKey>)
    ensures
        keys@ == input.media(),
        input.multimodal is None ==> keys@.len() == 0,
        input.multimodal matches Some(m) ==> keys@ == m.media@,
{
    match &input.multimodal {
        None => {
            let keys: Vec<MediaKey> = Vec::new();
            assert(keys@ =~= input.media());
            keys
        },
        Some(multimodal) => multimodal.copy().media,
    }
}

/// Tokens a request may generate: none for a decision, its schedule's length
/// for a constrained decode, else what it asked for or what the context leaves.
pub open spec fn budget(config: SchedulerConfig, input: RequestInput) -> int {
    if input.decision is Some {
        0
    } else if let Some(schedule) = input.constrained {
        if schedule.steps@.len() > u32::MAX {
            u32::MAX as int
        } else {
            schedule.steps@.len() as int
        }
    } else if let Some(max_tokens) = input.params.max_tokens {
        max_tokens as int
    } else if input.tokens@.len() > config.max_sequence_tokens {
        0
    } else {
        config.max_sequence_tokens - input.tokens@.len()
    }
}

/// The tokens a request may generate.
pub fn generation_budget(config: &SchedulerConfig, input: &RequestInput) -> (tokens: u32)
    ensures
        tokens == budget(*config, *input),
        input.decision is Some ==> tokens == 0,
        input.decision is None ==> (input.constrained matches Some(schedule) ==> tokens
            == schedule.steps@.len() || tokens == u32::MAX < schedule.steps@.len()),
        input.decision is None && input.constrained is None ==> match input.params.max_tokens {
            Some(asked) => tokens == asked,
            None => input.tokens@.len() + tokens == config.max_sequence_tokens || (tokens == 0
                && input.tokens@.len() > config.max_sequence_tokens),
        },
{
    if input.is_decision() {
        return 0;
    }
    if let Some(schedule) = &input.constrained {
        return if schedule.len() > u32::MAX as usize {
            u32::MAX
        } else {
            schedule.len() as u32
        };
    }
    match input.params.max_tokens {
        Some(max_tokens) => max_tokens,
        None => {
            if input.tokens.len() > config.max_sequence_tokens as usize {
                0
            } else {
                config.max_sequence_tokens - input.tokens.len() as u32
            }
        },
    }
}

/// A request that names no length, and is bound by none, may fill the context:
/// its prompt and its budget together are exactly the longest sequence.
pub proof fn an_open_request_fills_the_context(config: SchedulerConfig, input: RequestInput)
    requires
        input.decision is None,
        input.constrained is None,
        input.params.max_tokens is None,
        input.tokens@.len() <= config.max_sequence_tokens,
    ensures
        input.tokens@.len() + budget(config, input) == config.max_sequence_tokens,
        reserved(config, input) == config.max_sequence_tokens,
{
}

/// A plain request may generate exactly what it asked for, whatever the context
/// leaves; a constrained one a token for each step of its schedule, whatever it
/// asked for; a decision nothing.
pub proof fn a_request_may_generate_what_it_asked(config: SchedulerConfig, input: RequestInput)
    ensures
        input.decision is Some ==> budget(config, input) == 0 && reserved(config, input) == (
        if input.tokens@.len() > u32::MAX {
            u32::MAX as int
        } else {
            input.tokens@.len() as int
        }),
        input.decision is None && input.constrained is None ==> (
        input.params.max_tokens matches Some(asked) ==> budget(config, input) == asked),
        input.decision is None ==> (input.constrained matches Some(schedule)
            ==> schedule.steps@.len() <= u32::MAX ==> budget(config, input)
            == schedule.steps@.len()),
{
}

/// A sequence reserves room for its prompt and for all it may generate.
pub proof fn a_sequence_reserves_all_it_may_fill(config: SchedulerConfig, input: RequestInput)
    requires
        input.tokens@.len() + budget(config, input) <= u32::MAX,
    ensures
        reserved(config, input) == input.tokens@.len() + budget(config, input),
{
}

/// The tokens a sequence reserves: its prompt and its budget, as far as they
/// can be counted.
pub open spec fn reserved(config: SchedulerConfig, input: RequestInput) -> int {
    let sum = input.tokens@.len() + budget(config, input);
    if sum > u32::MAX {
        u32::MAX as int
    } else {
        sum
    }
}

/// The tokens a sequence reserves.
pub fn sequence_tokens(config: &SchedulerConfig, input: &RequestInput) -> (tokens: u32)
    ensures
        tokens == reserved(*config, *input),
        input.decision is None && input.constrained is None && input.params.max_tokens is None
            && input.tokens@.len() <= config.max_sequence_tokens ==> tokens
            == config.max_sequence_tokens,
        tokens == u32::MAX || tokens >= input.tokens@.len(),
{
    let budget: u32 = generation_budget(config, input);
    let prompt: usize = input.tokens.len();
    if prompt > (u32::MAX - budget) as usize {
        u32::MAX
    } else {
        prompt as u32 + budget
    }
}

/// The least number of pages that hold `tokens`.
pub open spec fn pages_for(tokens: int, page_tokens: u32) -> int {
    (tokens + page_tokens - 1) / page_tokens as int
}

/// The least number of pages that hold `tokens`.
pub fn pages_to_hold(tokens: u32, page_tokens: u32) -> (pages: u32)
    requires
        page_tokens > 0,
    ensures
        pages == pages_for(tokens as int, page_tokens),
        pages * page_tokens >= tokens,
        (pages - 1) * page_tokens < tokens,
{
    proof {
        pages_hold_and_no_fewer_would(tokens as int, page_tokens);
        vstd::arithmetic::div_mod::lemma_div_is_ordered_by_denominator(
            tokens + page_tokens - 1,
            1,
            page_tokens as int,
        );
        pages_for_fits(tokens as int, page_tokens);
    }
    ((tokens as u64 + page_tokens as u64 - 1) / page_tokens as u64) as u32
}

/// The pages counted for `tokens` hold them, and one page fewer would not.
pub proof fn pages_hold_and_no_fewer_would(tokens: int, page_tokens: u32)
    requires
        tokens >= 0,
        page_tokens > 0,
    ensures
        pages_for(tokens, page_tokens) * page_tokens >= tokens,
        (pages_for(tokens, page_tokens) - 1) * page_tokens < tokens,
{
    let p = page_tokens as int;
    let x = tokens + p - 1;
    let q = x / p;
    vstd::arithmetic::div_mod::lemma_fundamental_div_mod(x, p);
    vstd::arithmetic::div_mod::lemma_mod_bound(x, p);
    assert(q * p >= tokens && (q - 1) * p < tokens) by (nonlinear_arith)
        requires
            x == p * q + x % p,
            0 <= x % p < p,
            x == tokens + p - 1,
    ;
}

/// A count of pages is no larger than the count of tokens.
pub proof fn pages_for_fits(tokens: int, page_tokens: u32)
    requires
        tokens >= 0,
        page_tokens > 0,
    ensures
        0 <= pages_for(tokens, page_tokens) <= tokens,
{
    let p = page_tokens as int;
    let x = tokens + p - 1;
    let q = x / p;
    vstd::arithmetic::div_mod::lemma_fundamental_div_mod(x, p);
    vstd::arithmetic::div_mod::lemma_mod_bound(x, p);
    vstd::arithmetic::div_mod::lemma_div_pos_is_pos(x, p);
    assert(q <= tokens) by (nonlinear_arith)
        requires
            p >= 1,
            tokens >= 0,
            x == p * q + x % p,
            0 <= x % p,
            x == tokens + p - 1,
            q >= 0,
    ;
}

/// Whole pages of a head never outnumber the pages of the whole.
pub proof fn head_pages_fit(head: u32, tokens: int, page_tokens: u32)
    requires
        page_tokens > 0,
        head <= tokens,
    ensures
        0 <= crate::prefix::whole_pages(head, page_tokens) <= pages_for(tokens, page_tokens),
{
    vstd::arithmetic::div_mod::lemma_div_is_ordered(
        head as int,
        tokens + page_tokens - 1,
        page_tokens as int,
    );
    vstd::arithmetic::div_mod::lemma_div_pos_is_pos(head as int, page_tokens as int);
}

/// The pages a request reserves, shared or its own.
pub open spec fn full_pages(config: SchedulerConfig, input: RequestInput) -> int {
    pages_for(reserved(config, input), config.kv_page_tokens)
}

/// The width of a request's next chunk: the serving width, cut before a second
/// media item, and cut again so that what is left is no narrower than the
/// final chunk has to be.
pub open spec fn chunk(r: Request, serving_chunk: u32) -> int {
    let remaining = r.input.tokens@.len() - r.prefill_progress;
    let width = if remaining < serving_chunk { remaining } else { serving_chunk as int };
    let take = match r.input.multimodal {
        Some(m) => capped_span(m.media@, r.prefill_progress, width as u32),
        None => width,
    };
    let left = remaining - take;
    if 0 < left < r.input.tail() && remaining > r.input.tail() {
        remaining - r.input.tail()
    } else {
        take
    }
}

/// The width of a request's next chunk.
pub fn chunk_take(r: &Request, serving_chunk: u32) -> (take: u32)
    requires
        r.prefill_progress <= r.input.tokens@.len() <= u32::MAX,
    ensures
        take == chunk(*r, serving_chunk),
        take <= serving_chunk,
        r.prefill_progress + take <= r.input.tokens@.len(),
        serving_chunk > 0 && r.prefill_progress < r.input.tokens@.len() ==> take > 0,
{
    let start: u32 = r.prefill_progress;
    let remaining: u32 = r.input.tokens.len() as u32 - start;
    let width: u32 = if remaining < serving_chunk {
        remaining
    } else {
        serving_chunk
    };
    let take: u32 = match &r.input.multimodal {
        Some(multimodal) => multimodal.cap_chunk(start, width),
        None => width,
    };
    let tail: u32 = r.input.prefill_tail();
    let left: u32 = remaining - take;
    if left > 0 && left < tail && remaining > tail {
        remaining - tail
    } else {
        take
    }
}

/// A chunk of `take` tokens at `start`, cut so that it does not run past a
/// point ahead of it.
pub open spec fn cut(start: u32, take: u32, point: u32) -> int {
    if point > start && point - start < take {
        point - start
    } else {
        take as int
    }
}

/// A chunk cut so that it does not run past a point ahead of it.
pub fn cut_at(start: u32, take: u32, point: u32) -> (width: u32)
    ensures
        width == cut(start, take, point),
        start < point < start + take ==> start + width == point,
        point <= start || point >= start + take ==> width == take,
        width <= take,
        take > 0 ==> width > 0,
{
    if point > start && point - start < take {
        point - start
    } else {
        take
    }
}

/// Whether a chunk reaches a point ahead of it.
pub open spec fn reaches(start: u32, take: u32, point: u32) -> bool {
    start < point <= start + take
}

/// Whether a chunk reaches a point ahead of it.
pub fn lands_on(start: u32, take: u32, point: u32) -> (lands: bool)
    ensures
        lands == reaches(start, take, point),
        lands <==> start < point <= start + take,
{
    point > start && point - start <= take
}

/// A chunk that reaches a point ends exactly on it once it is cut there; one
/// that does not is left as it is.
pub proof fn a_cut_lands_on_its_point(start: u32, take: u32, point: u32)
    ensures
        reaches(start, take, point) ==> start + cut(start, take, point) == point,
        !reaches(start, take, point) ==> cut(start, take, point) == take,
{
}

/// A chunk is as wide as it may be: all that is left of the prompt or the
/// serving width, but for a media item it stops short of, and but for what it
/// leaves a final chunk that would be too narrow.
pub proof fn a_chunk_is_as_wide_as_it_may_be(r: Request, serving_chunk: u32)
    requires
        r.prefill_progress <= r.input.tokens@.len() <= u32::MAX,
    ensures
        ({
            let remaining = r.input.tokens@.len() - r.prefill_progress;
            let least = match r.input.decision {
                Some(crate::types::DecisionRead::Attention(read)) => read.min_chunk as int,
                _ => 0,
            };
            let width = chunk(r, serving_chunk);
            &&& r.input.multimodal is None && least == 0 && remaining <= serving_chunk ==> width
                == remaining
            &&& r.input.multimodal is None && least == 0 && remaining >= serving_chunk ==> width
                == serving_chunk
            &&& r.input.multimodal is None && remaining <= serving_chunk ==> width == remaining
            &&& r.input.multimodal is None && remaining > serving_chunk && remaining
                - serving_chunk >= least ==> width == serving_chunk
            &&& r.input.multimodal is None && remaining > serving_chunk && remaining
                - serving_chunk < least < remaining ==> width == remaining - least
        }),
{
}

/// While a prompt is longer than the narrowest final chunk, what a chunk leaves
/// of it is nothing or at least that wide.
pub proof fn the_final_chunk_is_wide_enough(r: Request, serving_chunk: u32)
    requires
        r.prefill_progress <= r.input.tokens@.len() <= u32::MAX,
        r.input.tokens@.len() - r.prefill_progress > r.input.tail(),
    ensures
        ({
            let left = r.input.tokens@.len() - r.prefill_progress - chunk(r, serving_chunk);
            left <= 0 || left >= r.input.tail()
        }),
{
}

} // verus!
