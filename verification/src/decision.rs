//! Decisions: questions answered by reading one position, without decoding.
//!
//! A decision labels its options with **answer tokens** drawn from an
//! alphabet the loaded tokenizer can actually name, and reads one logit per
//! answer token off the prompt's last position. Logits cross this library as
//! the bit patterns of IEEE singles: they are compared here, and nothing is
//! computed from them.

use crate::text::spell;
use crate::types::TokenId;
use vstd::prelude::*;
use vstd::slice::slice_subrange;

verus! {

/// The bit pattern of negative infinity, as an IEEE single.
pub const NEG_INFINITY_BITS: u32 = 0xff80_0000;

/// What one readout carries back across the compute seam.
#[derive(Debug, PartialEq, Eq)]
pub struct Readout {
    /// One logit per answer token, in the order the job named them.
    pub logit_bits: Vec<u32>,
    /// The log-sum-exp over the whole vocabulary, as an IEEE double.
    pub full_log_sum_exp_bits: u64,
    /// The unrestricted winner over the whole vocabulary.
    pub full_argmax: TokenId,
}

/// The logit of `id` in a vocabulary-wide row; negative infinity past its end.
pub open spec fn logit_of(row: Seq<u32>, id: TokenId) -> u32 {
    if id < row.len() {
        row[id as int]
    } else {
        NEG_INFINITY_BITS
    }
}

/// The logits of `answers`, read out of one position's full row.
pub fn gather_logits(row: &[u32], answers: &[TokenId]) -> (gathered: Vec<u32>)
    ensures
        gathered@.len() == answers@.len(),
        forall|i: int| 0 <= i < answers@.len() ==> #[trigger] gathered@[i] == logit_of(
            row@,
            answers@[i],
        ),
        forall|i: int|
            0 <= i < answers@.len() && answers@[i] < row@.len() ==> #[trigger] gathered@[i]
                == row@[answers@[i] as int],
        forall|i: int|
            0 <= i < answers@.len() && answers@[i] >= row@.len() ==> #[trigger] gathered@[i]
                == 0xff80_0000,
{
    let mut gathered: Vec<u32> = Vec::new();
    let mut i: usize = 0;
    while i < answers.len()
        invariant
            i <= answers@.len(),
            gathered@.len() == i,
            forall|j: int| 0 <= j < i ==> #[trigger] gathered@[j] == logit_of(row@, answers@[j]),
        decreases answers@.len() - i,
    {
        let id: usize = answers[i] as usize;
        if id < row.len() {
            gathered.push(row[id]);
        } else {
            gathered.push(NEG_INFINITY_BITS);
        }
        i = i + 1;
    }
    gathered
}

/// Whether the single with this pattern is no number.
pub open spec fn is_nan(bits: u32) -> bool {
    bits % 0x8000_0000 > 0x7f80_0000
}

/// Where a single stands among the others: its magnitude, under its sign. Both
/// zeros stand at the same place.
pub open spec fn standing_of(bits: u32) -> int {
    if bits >= 0x8000_0000 {
        -(bits - 0x8000_0000)
    } else {
        bits as int
    }
}

/// Whether the single `a` is larger than `b`; never where one is no number.
pub open spec fn exceeds(a: u32, b: u32) -> bool {
    !is_nan(a) && !is_nan(b) && standing_of(a) > standing_of(b)
}

/// Singles are ordered as IEEE orders them. Under a clear sign bit a larger
/// pattern is strictly larger; under a set one it is strictly smaller; a single
/// with the bit set is under every single with it clear, but that the two zeros
/// are level. No order holds of what is no number: a pattern whose exponent is
/// all ones and whose fraction is not nothing.
pub proof fn singles_are_ordered_by_their_patterns(a: u32, b: u32)
    ensures
        a <= 0x7f80_0000 && b <= 0x7f80_0000 ==> exceeds(a, b) == (a > b),
        0x8000_0000 <= a <= 0xff80_0000 && 0x8000_0000 <= b <= 0xff80_0000 ==> exceeds(a, b) == (a
            < b),
        a <= 0x7f80_0000 && 0x8000_0000 <= b <= 0xff80_0000 ==> {
            &&& exceeds(a, b) == !(a == 0 && b == 0x8000_0000)
            &&& !exceeds(b, a)
        },
        0x7f80_0000 < a < 0x8000_0000 || a > 0xff80_0000 ==> !exceeds(a, b) && !exceeds(b, a),
        is_nan(a) == (0x7f80_0000 < a < 0x8000_0000 || a > 0xff80_0000),
{
}

/// Of two numbers, one exceeds the other unless they are the same pattern or
/// both a zero; and exceeding is strict and carries over.
pub proof fn singles_are_strictly_ordered(a: u32, b: u32, c: u32)
    requires
        !is_nan(a),
        !is_nan(b),
        !is_nan(c),
    ensures
        !(exceeds(a, b) && exceeds(b, a)),
        exceeds(a, b) && exceeds(b, c) ==> exceeds(a, c),
        !exceeds(a, b) && !exceeds(b, a) ==> a == b || (a % 0x8000_0000 == 0 && b % 0x8000_0000
            == 0),
{
}

fn is_larger(a: u32, b: u32) -> (larger: bool)
    ensures
        larger == exceeds(a, b),
        a <= 0x7f80_0000 && b <= 0x7f80_0000 ==> larger == (a > b),
        0x8000_0000 <= a <= 0xff80_0000 && 0x8000_0000 <= b <= 0xff80_0000 ==> larger == (a < b),
        a <= 0x7f80_0000 && 0x8000_0000 <= b <= 0xff80_0000 ==> larger == (a != 0 || b
            != 0x8000_0000),
        0x8000_0000 <= a <= 0xff80_0000 && b <= 0x7f80_0000 ==> !larger,
{
    if a % 0x8000_0000 > 0x7f80_0000 || b % 0x8000_0000 > 0x7f80_0000 {
        return false;
    }
    let left: i64 = if a >= 0x8000_0000 {
        -((a - 0x8000_0000) as i64)
    } else {
        a as i64
    };
    let right: i64 = if b >= 0x8000_0000 {
        -((b - 0x8000_0000) as i64)
    } else {
        b as i64
    };
    left > right
}

/// The first of the first `n` values that no value before it reaches and none
/// of them exceeds.
pub open spec fn largest(values: Seq<u32>, n: int) -> Option<int>
    decreases n,
{
    if n <= 0 {
        None
    } else {
        match largest(values, n - 1) {
            Some(best) if !exceeds(values[n - 1], values[best]) => Some(best),
            _ => Some(n - 1),
        }
    }
}

/// Whether the single `a` is at least as large as `b`, told off the patterns
/// of two numbers: the larger of two clear of a sign, the smaller of two with
/// one, and whatever is clear of a sign over whatever has one.
pub open spec fn reaches(a: u32, b: u32) -> bool {
    if a < 0x8000_0000 {
        b >= 0x8000_0000 || a >= b
    } else if b < 0x8000_0000 {
        a == 0x8000_0000 && b == 0
    } else {
        a <= b
    }
}

/// The slot `i` holds the first of the largest values, where all are numbers.
pub open spec fn is_first_maximum(values: Seq<u32>, i: int) -> bool {
    &&& 0 <= i < values.len()
    &&& forall|j: int| 0 <= j < values.len() ==> reaches(values[i], #[trigger] values[j])
    &&& forall|j: int| 0 <= j < i ==> !reaches(#[trigger] values[j], values[i])
}

/// Every one of `values` is a number.
pub open spec fn all_numbers(values: Seq<u32>) -> bool {
    forall|j: int|
        0 <= j < values.len() ==> (#[trigger] values[j]) <= 0x7f80_0000 || 0x8000_0000 <= values[j]
            <= 0xff80_0000
}

/// Among numbers, what is picked reaches every value and no value before it
/// reaches it.
pub proof fn the_first_maximum_is_picked(values: Seq<u32>)
    requires
        values.len() > 0,
        all_numbers(values),
    ensures
        largest(values, values.len() as int) is Some,
        is_first_maximum(values, largest(values, values.len() as int)->Some_0),
{
    let n = values.len() as int;
    assert forall|i: int| 0 <= i < n implies !is_nan(#[trigger] values[i]) by {}
    the_largest_is_the_first_maximum(values, n);
    let best = largest(values, n)->Some_0;
    assert forall|j: int| 0 <= j < n implies reaches(values[best], #[trigger] values[j]) by {
        singles_are_ordered_by_their_patterns(values[j], values[best]);
        singles_are_ordered_by_their_patterns(values[best], values[j]);
        assert(!exceeds(values[j], values[best]));
    }
    assert forall|j: int| 0 <= j < best implies !reaches(#[trigger] values[j], values[best]) by {
        singles_are_ordered_by_their_patterns(values[j], values[best]);
        singles_are_ordered_by_their_patterns(values[best], values[j]);
        assert(exceeds(values[best], values[j]));
    }
}

/// What is no number never wins over a number before it and never loses to one
/// after it; with it in front, it is picked.
pub proof fn what_is_no_number_is_not_weighed(values: Seq<u32>, n: int)
    requires
        1 < n <= values.len(),
    ensures
        is_nan(values[n - 1]) ==> largest(values, n) == largest(values, n - 1),
        is_nan(values[0]) ==> largest(values, n) == Some(0int),
    decreases n,
{
    if n > 2 {
        what_is_no_number_is_not_weighed(values, n - 1);
    }
    assert(largest(values, 0) is None);
    assert(largest(values, 1) == Some(0int));
    assert(largest(values, n - 1) is Some) by {
        largest_is_one_of_them(values, n - 1);
    }
}

proof fn largest_is_one_of_them(values: Seq<u32>, n: int)
    requires
        0 < n <= values.len(),
    ensures
        largest(values, n) matches Some(i) && 0 <= i < n,
    decreases n,
{
    if n > 1 {
        largest_is_one_of_them(values, n - 1);
    } else {
        assert(largest(values, 0) is None);
    }
}

/// The index of the largest value, the first of several; `None` of none.
pub fn argmax(values: &[u32]) -> (index: Option<usize>)
    ensures
        index is None <==> values@.len() == 0,
        index matches Some(i) ==> i < values@.len() && Some(i as int) == largest(
            values@,
            values@.len() as int,
        ),
        index matches Some(i) ==> all_numbers(values@) ==> is_first_maximum(values@, i as int),
{
    proof {
        if values@.len() > 0 && all_numbers(values@) {
            the_first_maximum_is_picked(values@);
        }
    }
    let mut best: Option<usize> = None;
    let mut i: usize = 0;
    while i < values.len()
        invariant
            i <= values@.len(),
            best is None <==> i == 0,
            best matches Some(b) ==> b < i && Some(b as int) == largest(values@, i as int),
        decreases values@.len() - i,
    {
        best = match best {
            Some(b) => if is_larger(values[i], values[b]) {
                Some(i)
            } else {
                Some(b)
            },
            None => Some(i),
        };
        i = i + 1;
    }
    best
}

/// Among numbers, the largest is exceeded by none and exceeds every one before
/// it.
pub proof fn the_largest_is_the_first_maximum(values: Seq<u32>, n: int)
    requires
        0 < n <= values.len(),
        forall|i: int| 0 <= i < n ==> !is_nan(#[trigger] values[i]),
    ensures
        largest(values, n) is Some,
        0 <= largest(values, n)->Some_0 < n,
        forall|i: int|
            0 <= i < n ==> !exceeds(#[trigger] values[i], values[largest(values, n)->Some_0]),
        forall|i: int|
            0 <= i < largest(values, n)->Some_0 ==> exceeds(
                values[largest(values, n)->Some_0],
                #[trigger] values[i],
            ),
    decreases n,
{
    if n > 1 {
        the_largest_is_the_first_maximum(values, n - 1);
    } else {
        assert(largest(values, 0) is None);
    }
}

impl Readout {
    /// Read `answers` out of one position's full row, whose log-sum-exp is
    /// given. A row of nothing has token 0 for its winner.
    pub fn gather(row: &[u32], answers: &[TokenId], full_log_sum_exp_bits: u64) -> (readout:
        Readout)
        requires
            row@.len() <= u32::MAX,
        ensures
            readout.full_log_sum_exp_bits == full_log_sum_exp_bits,
            readout.full_argmax == (match largest(row@, row@.len() as int) {
                Some(i) => i,
                None => 0,
            }),
            row@.len() == 0 ==> readout.full_argmax == 0,
            row@.len() > 0 && all_numbers(row@) ==> is_first_maximum(
                row@,
                readout.full_argmax as int,
            ),
            readout.logit_bits@.len() == answers@.len(),
            forall|i: int|
                0 <= i < answers@.len() && answers@[i] < row@.len()
                    ==> #[trigger] readout.logit_bits@[i] == row@[answers@[i] as int],
            forall|i: int|
                0 <= i < answers@.len() ==> #[trigger] readout.logit_bits@[i] == logit_of(
                    row@,
                    answers@[i],
                ),
    {
        let full_argmax: TokenId = match argmax(row) {
            Some(i) => i as u32,
            None => 0,
        };
        Readout { logit_bits: gather_logits(row, answers), full_log_sum_exp_bits, full_argmax }
    }

    /// The winning slot: the first of the highest answer logits, `None` where
    /// no answer token was named.
    pub fn winner(&self) -> (slot: Option<usize>)
        ensures
            slot is None <==> self.logit_bits@.len() == 0,
            slot matches Some(i) ==> Some(i as int) == largest(
                self.logit_bits@,
                self.logit_bits@.len() as int,
            ),
            slot matches Some(i) ==> i < self.logit_bits@.len(),
            slot matches Some(i) ==> all_numbers(self.logit_bits@) ==> is_first_maximum(
                self.logit_bits@,
                i as int,
            ),
    {
        argmax(self.logit_bits.as_slice())
    }
}

/// What the answer alphabet needs of a tokenizer. Every way of failing is the
/// same answer: the label does not work.
pub trait LabelTokenizer {
    /// The token ids `text` encodes to, `None` if it cannot be encoded.
    fn encode(&self, text: &str) -> Option<Vec<TokenId>>;

    /// The text `ids` decode to, `None` if they cannot be decoded.
    fn decode(&self, ids: &[TokenId]) -> Option<String>;
}

/// One option's label and the single token that stands for it.
#[derive(Debug, Clone, PartialEq, Eq)]
pub struct AnswerToken {
    pub label: String,
    pub id: TokenId,
}

/// What a tokenizer said of one label: its encoding, and the text its single
/// token decodes back to.
#[derive(Debug)]
pub struct LabelReading {
    pub ids: Option<Vec<TokenId>>,
    pub text: Option<String>,
}

/// The candidate labels: `A`-`Z`, `a`-`z`, `0`-`9`, then `AA`-`ZZ`.
pub const LABEL_COUNT: usize = 738;

/// The uppercase letter `k`.
pub open spec fn upper(k: int) -> char {
    ('A' as u32 + k) as char
}

/// The `k`-th candidate label, in the order the alphabet draws them.
pub open spec fn label_text(k: int) -> Seq<char> {
    if k < 26 {
        seq![upper(k)]
    } else if k < 52 {
        seq![('a' as u32 + (k - 26)) as char]
    } else if k < 62 {
        seq![('0' as u32 + (k - 52)) as char]
    } else {
        seq![upper((k - 62) / 26), upper((k - 62) % 26)]
    }
}

/// The token a reading of `label` stands for: its encoding is exactly one
/// token, and that token decodes back to the label.
pub open spec fn token_for(reading: LabelReading, label: Seq<char>) -> Option<TokenId> {
    match (reading.ids, reading.text) {
        (Some(ids), Some(text)) => if ids@.len() == 1 && text@ == label {
            Some(ids@[0])
        } else {
            None
        },
        _ => None,
    }
}

/// The labels and tokens admitted from the first `n` readings: each label that
/// stands for one token no earlier label took.
pub open spec fn admitted(readings: Seq<LabelReading>, n: int) -> Seq<(Seq<char>, TokenId)>
    decreases n,
{
    if n <= 0 {
        Seq::empty()
    } else {
        let before = admitted(readings, n - 1);
        match token_for(readings[n - 1], label_text(n - 1)) {
            Some(id) => if takes(before, id) {
                before
            } else {
                before.push((label_text(n - 1), id))
            },
            None => before,
        }
    }
}

/// Whether some slot already names `id`.
pub open spec fn takes(slots: Seq<(Seq<char>, TokenId)>, id: TokenId) -> bool {
    exists|i: int| 0 <= i < slots.len() && (#[trigger] slots[i]).1 == id
}

/// The ordered pool answer tokens are drawn from.
#[derive(Debug, Clone, PartialEq, Eq)]
pub struct AnswerAlphabet {
    pub tokens: Vec<AnswerToken>,
}

impl Default for AnswerAlphabet {
    fn default() -> (alphabet: AnswerAlphabet)
        ensures
            alphabet.tokens@.len() == 0,
    {
        AnswerAlphabet { tokens: Vec::new() }
    }
}

/// The letter `k` places past `first`.
fn letter(first: u32, k: u32) -> (c: char)
    requires
        first == 'A' as u32 || first == 'a' as u32 || first == '0' as u32,
        k < 26,
        first == '0' as u32 ==> k < 10,
    ensures
        c == (first + k) as char,
{
    let code: u8 = (first + k) as u8;
    code as char
}

/// The `k`-th candidate label.
pub fn candidate_label(k: usize) -> (label: String)
    requires
        k < LABEL_COUNT,
    ensures
        label@ == label_text(k as int),
{
    let mut chars: Vec<char> = Vec::new();
    if k < 26 {
        chars.push(letter('A' as u32, k as u32));
    } else if k < 52 {
        chars.push(letter('a' as u32, (k - 26) as u32));
    } else if k < 62 {
        chars.push(letter('0' as u32, (k - 52) as u32));
    } else {
        chars.push(letter('A' as u32, ((k - 62) / 26) as u32));
        chars.push(letter('A' as u32, ((k - 62) % 26) as u32));
    }
    assert(chars@ =~= label_text(k as int));
    spell(&chars)
}

/// The token `label` stands for, if `reading` says it is exactly one token
/// that decodes back to itself.
pub fn single_token(reading: &LabelReading, label: &String) -> (id: Option<TokenId>)
    ensures
        id == token_for(*reading, label@),
{
    match (&reading.ids, &reading.text) {
        (Some(ids), Some(text)) => {
            if ids.len() == 1 && *text == *label {
                Some(ids[0])
            } else {
                None
            }
        },
        _ => None,
    }
}

/// Whether `ids` is what `tokenizer` may say the tokens of `label` are.
pub open spec fn is_encoding<T: LabelTokenizer>(
    tokenizer: &T,
    label: Seq<char>,
    ids: Option<Vec<TokenId>>,
) -> bool {
    exists|text: &str|
        #![trigger call_ensures(T::encode, (tokenizer, text), ids)]
        text@ == label && call_ensures(T::encode, (tokenizer, text), ids)
}

/// Whether `text` is what `tokenizer` may say the tokens `ids` spell.
pub open spec fn is_decoding<T: LabelTokenizer>(
    tokenizer: &T,
    ids: Seq<TokenId>,
    text: Option<String>,
) -> bool {
    exists|tokens: &[TokenId]|
        #![trigger call_ensures(T::decode, (tokenizer, tokens), text)]
        tokens@ == ids && call_ensures(T::decode, (tokenizer, tokens), text)
}

/// Whether `reading` is what `tokenizer` says of `label`: its answer to the
/// label, and its answer to the single token where the label is one. A label
/// that is not one token is decoded to nothing.
pub open spec fn was_read<T: LabelTokenizer>(
    tokenizer: &T,
    label: Seq<char>,
    reading: LabelReading,
) -> bool {
    &&& is_encoding(tokenizer, label, reading.ids)
    &&& match reading.ids {
        Some(ids) => if ids@.len() == 1 {
            is_decoding(tokenizer, ids@, reading.text)
        } else {
            reading.text is None
        },
        None => reading.text is None,
    }
}

/// Whether `readings` are what `tokenizer` says of the candidate labels, one
/// after the other.
pub open spec fn were_read<T: LabelTokenizer>(tokenizer: &T, readings: Seq<LabelReading>) -> bool {
    forall|j: int|
        0 <= j < readings.len() ==> was_read(tokenizer, label_text(j), #[trigger] readings[j])
}

/// What `tokenizer` says of `label`. The single token is decoded only where
/// there is one.
fn read_label<T: LabelTokenizer>(tokenizer: &T, label: &String) -> (reading: LabelReading)
    ensures
        was_read(tokenizer, label@, reading),
{
    let ids = tokenizer.encode(label.as_str());
    let text = match &ids {
        Some(found) => {
            if found.len() == 1 {
                tokenizer.decode(found.as_slice())
            } else {
                None
            }
        },
        None => None,
    };
    LabelReading { ids, text }
}

impl AnswerAlphabet {
    /// The slots: each label with the token it names.
    pub open spec fn slots(self) -> Seq<(Seq<char>, TokenId)> {
        Seq::new(self.tokens@.len(), |i: int| (self.tokens@[i].label@, self.tokens@[i].id))
    }

    /// The alphabet a set of readings admits, one reading per candidate label.
    pub fn from_readings(readings: &Vec<LabelReading>) -> (alphabet: AnswerAlphabet)
        requires
            readings@.len() == LABEL_COUNT,
        ensures
            alphabet.slots() == admitted(readings@, LABEL_COUNT as int),
    {
        let mut tokens: Vec<AnswerToken> = Vec::new();
        let mut k: usize = 0;
        assert((AnswerAlphabet { tokens }).slots() =~= admitted(readings@, 0));
        while k < LABEL_COUNT
            invariant
                k <= LABEL_COUNT,
                readings@.len() == LABEL_COUNT,
                (AnswerAlphabet { tokens }).slots() == admitted(readings@, k as int),
            decreases LABEL_COUNT - k,
        {
            let label = candidate_label(k);
            let ghost before = (AnswerAlphabet { tokens }).slots();
            if let Some(id) = single_token(&readings[k], &label) {
                if !taken(&tokens, id) {
                    tokens.push(AnswerToken { label, id });
                    assert((AnswerAlphabet { tokens }).slots() =~= before.push(
                        (label_text(k as int), id),
                    ));
                }
            }
            k = k + 1;
        }
        AnswerAlphabet { tokens }
    }

    /// The alphabet this tokenizer can actually name, in pool order: the one
    /// its answers about the candidate labels admit.
    pub fn from_tokenizer<T: LabelTokenizer>(tokenizer: &T) -> (alphabet: AnswerAlphabet)
        ensures
            exists|readings: Seq<LabelReading>|
                readings.len() == LABEL_COUNT && #[trigger] were_read(tokenizer, readings)
                    && alphabet.slots() == admitted(readings, LABEL_COUNT as int),
    {
        let mut readings: Vec<LabelReading> = Vec::new();
        let mut k: usize = 0;
        while k < LABEL_COUNT
            invariant
                k <= LABEL_COUNT,
                readings@.len() == k,
                were_read(tokenizer, readings@),
            decreases LABEL_COUNT - k,
        {
            let label = candidate_label(k);
            readings.push(read_label(tokenizer, &label));
            k = k + 1;
        }
        AnswerAlphabet::from_readings(&readings)
    }

    /// Every admitted answer token, in pool order.
    pub fn tokens(&self) -> (tokens: &[AnswerToken])
        ensures
            tokens@ == self.tokens@,
    {
        self.tokens.as_slice()
    }

    /// How many options this tokenizer can name at once.
    pub fn len(&self) -> (n: usize)
        ensures
            n == self.slots().len(),
    {
        self.tokens.len()
    }

    /// Whether the tokenizer can name no option at all.
    pub fn is_empty(&self) -> (empty: bool)
        ensures
            empty == (self.slots().len() == 0),
    {
        self.tokens.len() == 0
    }

    /// The first `count` answer tokens; `None` when the alphabet is shorter.
    pub fn take(&self, count: usize) -> (tokens: Option<&[AnswerToken]>)
        ensures
            tokens is Some <==> count <= self.tokens@.len(),
            tokens matches Some(t) ==> t@ == self.tokens@.take(count as int),
    {
        if count <= self.tokens.len() {
            let first = slice_subrange(self.tokens.as_slice(), 0, count);
            assert(first@ =~= self.tokens@.take(count as int));
            Some(first)
        } else {
            None
        }
    }

    /// Where `label` sits in the pool, if it was admitted.
    pub fn position(&self, label: &str) -> (place: Option<usize>)
        ensures
            place is None ==> forall|j: int|
                0 <= j < self.slots().len() ==> (#[trigger] self.slots()[j]).0 != label@,
            place matches Some(i) ==> i < self.slots().len() && self.slots()[i as int].0 == label@
                && forall|j: int| 0 <= j < i ==> (#[trigger] self.slots()[j]).0 != label@,
    {
        let wanted: String = label.to_owned();
        let mut i: usize = 0;
        while i < self.tokens.len()
            invariant
                i <= self.tokens@.len(),
                wanted@ == label@,
                forall|j: int| 0 <= j < i ==> (#[trigger] self.slots()[j]).0 != label@,
            decreases self.tokens@.len() - i,
        {
            if self.tokens[i].label == wanted {
                return Some(i);
            }
            i = i + 1;
        }
        None
    }
}

/// Whether some answer token already names `id`.
fn taken(tokens: &Vec<AnswerToken>, id: TokenId) -> (found: bool)
    ensures
        found == takes((AnswerAlphabet { tokens: *tokens }).slots(), id),
{
    let ghost slots = (AnswerAlphabet { tokens: *tokens }).slots();
    let mut i: usize = 0;
    while i < tokens.len()
        invariant
            i <= tokens@.len(),
            slots == (AnswerAlphabet { tokens: *tokens }).slots(),
            forall|j: int| 0 <= j < i ==> (#[trigger] slots[j]).1 != id,
        decreases tokens@.len() - i,
    {
        if tokens[i].id == id {
            assert(slots[i as int].1 == id);
            return true;
        }
        i = i + 1;
    }
    false
}

/// No two slots name one token, whatever the tokenizer answered.
pub proof fn no_two_slots_name_one_token(readings: Seq<LabelReading>, n: int, i: int, j: int)
    requires
        0 <= n <= readings.len(),
        0 <= i < j < admitted(readings, n).len(),
    ensures
        admitted(readings, n)[i].1 != admitted(readings, n)[j].1,
    decreases n,
{
    let before = admitted(readings, n - 1);
    let now = admitted(readings, n);
    if j < before.len() {
        no_two_slots_name_one_token(readings, n - 1, i, j);
        assert(now[i] == before[i] && now[j] == before[j]);
    } else {
        assert(now[i] == before[i]);
        if now[i].1 == now[j].1 {
            assert(takes(before, now[j].1));
        }
    }
}

/// Every slot is a candidate label whose own reading is exactly one token that
/// decodes back to the label; slots stand in pool order. Gives the label's
/// place among the candidates.
pub proof fn every_slot_round_trips(readings: Seq<LabelReading>, n: int, i: int) -> (k: int)
    requires
        0 <= n <= readings.len(),
        0 <= i < admitted(readings, n).len(),
    ensures
        i <= k < n,
        admitted(readings, n)[i].0 == label_text(k),
        token_for(readings[k], label_text(k)) == Some(admitted(readings, n)[i].1),
    decreases n,
{
    let before = admitted(readings, n - 1);
    admitted_is_short(readings, n - 1);
    if i < before.len() {
        every_slot_round_trips(readings, n - 1, i)
    } else {
        n - 1
    }
}

/// Every candidate label that is exactly one token and decodes back to itself
/// has that token in the pool: under its own name, or under that of an earlier
/// label.
pub proof fn every_round_trip_is_named(readings: Seq<LabelReading>, n: int, k: int)
    requires
        0 <= k < n <= readings.len(),
        token_for(readings[k], label_text(k)) is Some,
    ensures
        takes(admitted(readings, n), token_for(readings[k], label_text(k))->Some_0),
    decreases n,
{
    let id = token_for(readings[k], label_text(k))->Some_0;
    let before = admitted(readings, n - 1);
    let now = admitted(readings, n);
    if k < n - 1 {
        every_round_trip_is_named(readings, n - 1, k);
        let i = choose|i: int| 0 <= i < before.len() && (#[trigger] before[i]).1 == id;
        assert(now[i] == before[i]);
    } else if !takes(before, id) {
        assert(now[before.len() as int].1 == id);
    } else {
        assert(now == before);
    }
}

/// No two candidate labels are spelled alike.
proof fn labels_differ(j: int, k: int)
    requires
        0 <= j < k < LABEL_COUNT,
    ensures
        label_text(j) != label_text(k),
{
    let (a, b) = (label_text(j), label_text(k));
    if k < 62 {
        assert(a.len() == 1 && b.len() == 1);
        assert(a[0] != b[0]);
    } else if j < 62 {
        assert(a.len() == 1 && b.len() == 2);
    } else {
        assert(a.len() == 2 && b.len() == 2);
        assert(a[0] != b[0] || a[1] != b[1]);
    }
}

/// No two slots carry one label.
pub proof fn no_two_slots_carry_one_label(readings: Seq<LabelReading>, n: int, i: int, j: int)
    requires
        0 <= n <= readings.len() <= LABEL_COUNT,
        0 <= i < j < admitted(readings, n).len(),
    ensures
        admitted(readings, n)[i].0 != admitted(readings, n)[j].0,
    decreases n,
{
    let before = admitted(readings, n - 1);
    let now = admitted(readings, n);
    if j < before.len() {
        no_two_slots_carry_one_label(readings, n - 1, i, j);
        assert(now[i] == before[i] && now[j] == before[j]);
    } else {
        assert(now[i] == before[i]);
        let k = every_slot_round_trips(readings, n - 1, i);
        labels_differ(k, n - 1);
    }
}

proof fn admitted_is_short(readings: Seq<LabelReading>, n: int)
    requires
        0 <= n <= readings.len(),
    ensures
        admitted(readings, n).len() <= n,
    decreases n,
{
    if n > 0 {
        admitted_is_short(readings, n - 1);
    }
}

/// Asking more of the tokenizer never renames a slot: the slots of a shorter
/// run of candidates come first.
pub proof fn slots_stand_in_pool_order(readings: Seq<LabelReading>, m: int, n: int)
    requires
        0 <= m <= n <= readings.len(),
    ensures
        admitted(readings, m).len() <= admitted(readings, n).len(),
        forall|i: int|
            0 <= i < admitted(readings, m).len() ==> #[trigger] admitted(readings, n)[i] == admitted(
                readings,
                m,
            )[i],
    decreases n - m,
{
    if m < n {
        slots_stand_in_pool_order(readings, m, n - 1);
    }
}

/// The candidate labels go through the capitals, the small letters and the
/// digits in order, and then through the pairs of capitals, the second of a pair
/// first.
pub proof fn labels_go_in_order(k: int)
    requires
        0 <= k < LABEL_COUNT,
    ensures
        LABEL_COUNT == 26 + 26 + 10 + 26 * 26,
        label_text(0) == seq!['A'],
        label_text(26) == seq!['a'],
        label_text(52) == seq!['0'],
        label_text(62) == seq!['A', 'A'],
        k < 62 ==> label_text(k).len() == 1,
        k >= 62 ==> label_text(k).len() == 2,
        k < 25 || 26 <= k < 51 || 52 <= k < 61 ==> label_text(k + 1)[0] as u32
            == label_text(k)[0] as u32 + 1,
        62 <= k < LABEL_COUNT - 1 && label_text(k)[1] != 'Z' ==> label_text(k + 1)[0]
            == label_text(k)[0] && label_text(k + 1)[1] as u32 == label_text(k)[1] as u32 + 1,
        62 <= k < LABEL_COUNT - 1 && label_text(k)[1] == 'Z' ==> label_text(k + 1)[0] as u32
            == label_text(k)[0] as u32 + 1 && label_text(k + 1)[1] == 'A',
{
    assert(label_text(0) =~= seq!['A']);
    assert(label_text(26) =~= seq!['a']);
    assert(label_text(52) =~= seq!['0']);
    assert(label_text(62) =~= seq!['A', 'A']);
    if 62 <= k < LABEL_COUNT - 1 {
        let x = k - 62;
        let (q, r) = (x / 26, x % 26);
        if r == 25 {
            assert((x + 1) / 26 == q + 1 && (x + 1) % 26 == 0);
        } else {
            assert((x + 1) / 26 == q && (x + 1) % 26 == r + 1);
        }
        assert(0 <= q < 26);
        assert(upper(q) as u32 == 'A' as u32 + q);
        assert(upper(r) as u32 == 'A' as u32 + r);
    }
}

} // verus!
