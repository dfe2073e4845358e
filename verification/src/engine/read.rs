//! Structured reads: slots packed into canvases, read in groups and averaged over samples.
use crate::engine::board::{
    canvas_length, group_of, masked_read, noise_read, outlined, read_canvas, read_masked, readable,
};
use crate::engine::causal::extend;
use crate::engine::chunks::{
    chunk_ranges, lemma_ranges_end, oversize_fault, oversized, packed, span,
};
use crate::engine::config::{parts_model, prompt_length, total_size, Part, PromptPart};
use crate::engine::engine::{thought_fault, thought_of, Engine, Mode, Thought};
use crate::engine::framing::{literal, marker, piece_tokens, Piece};
use crate::engine::generated::clamp;
use crate::engine::model::{
    image_files, no_work, picture_outcome, Card, ChatFormat, DiffusionModel, DiffusionScheme,
    ImageInput, Resident,
};
use crate::engine::reads::{
    alike, average_reads, averaged, averaged_slot, comparable, probable, read_models, slot_models,
    SlotModel, SlotRead,
};
use crate::engine::sampler::best_index;
use crate::engine::slots::{
    check_read, padded, padded_size, prepare_slots, read_fault, slot_texts, slots_model,
    slots_outcome, PreparedSlot, ReadOptions, ReadRequest, SlotText, SlotTokens,
};
use crate::error::{Error, ErrorModel, Result};
use crate::text::{decimal, digits, trim, trim_text};
use core::ops::Range;
use vstd::arithmetic::div_mod::lemma_add_mod_noop_right;
use vstd::prelude::*;
use vstd::string::*;

verus! {

// ---------------------------------------------------------------------------------------------
// Room
// ---------------------------------------------------------------------------------------------

/// The canvas tokens of each slot.
pub open spec fn lengths_of(slots: Seq<SlotTokens>) -> Seq<usize> {
    Seq::new(slots.len(), |i: int| clamp(slots[i].prefix.len() + 1))
}

/// The larger number.
pub open spec fn larger(a: nat, b: nat) -> nat {
    if a >= b {
        a
    } else {
        b
    }
}

/// The canvas tokens of a group.
pub open spec fn group_size(lengths: Seq<usize>, group: Range<usize>) -> nat {
    span(lengths, group.start as int, group.end as int) as nat
}

/// The longest padded canvas of the first `n` groups.
pub open spec fn longest_canvas(
    lengths: Seq<usize>,
    groups: Seq<Range<usize>>,
    scheme: DiffusionScheme,
    capacity: nat,
    n: nat,
) -> nat
    decreases n,
{
    if n == 0 {
        0
    } else {
        larger(
            longest_canvas(lengths, groups, scheme, capacity, (n - 1) as nat),
            padded_size(scheme, capacity, group_size(lengths, groups[n - 1])),
        )
    }
}

/// The most padding of the first `n` groups.
pub open spec fn most_padding(
    lengths: Seq<usize>,
    groups: Seq<Range<usize>>,
    scheme: DiffusionScheme,
    capacity: nat,
    n: nat,
) -> nat
    decreases n,
{
    if n == 0 {
        0
    } else {
        let size = group_size(lengths, groups[n - 1]);
        larger(
            most_padding(lengths, groups, scheme, capacity, (n - 1) as nat),
            (padded_size(scheme, capacity, size) - size) as nat,
        )
    }
}

/// The canvas positions to keep free: the longest canvas, or all slots in sequence.
pub open spec fn canvas_reserve(
    lengths: Seq<usize>,
    groups: Seq<Range<usize>>,
    scheme: DiffusionScheme,
    capacity: nat,
    sequential: bool,
) -> nat {
    if sequential {
        span(lengths, 0, lengths.len() as int) as nat + most_padding(
            lengths,
            groups,
            scheme,
            capacity,
            groups.len(),
        )
    } else {
        longest_canvas(lengths, groups, scheme, capacity, groups.len())
    }
}

fn slot_lengths(prepared: &Vec<PreparedSlot>) -> (r: Vec<usize>)
    ensures
        r@ == lengths_of(slots_model(prepared@)),
{
    let ghost want = lengths_of(slots_model(prepared@));
    let mut lengths: Vec<usize> = Vec::new();
    let mut i: usize = 0;
    while i < prepared.len()
        invariant
            i <= prepared@.len(),
            want == lengths_of(slots_model(prepared@)),
            lengths@.len() == i,
            forall|k: int| 0 <= k < i ==> #[trigger] lengths@[k] == want[k],
        decreases prepared@.len() - i,
    {
        lengths.push(prepared[i].prefix.len().saturating_add(1));
        assert(lengths@[i as int] == want[i as int]);
        i += 1;
    }
    assert(lengths@ =~= want);
    lengths
}

/// The sum of `lengths[from..to]`.
fn sum_lengths(lengths: &Vec<usize>, from: usize, to: usize) -> (r: usize)
    requires
        from <= to <= lengths@.len(),
    ensures
        r == clamp(span(lengths@, from as int, to as int) as nat),
        span(lengths@, from as int, to as int) >= 0,
{
    let mut total: usize = 0;
    let mut i: usize = from;
    while i < to
        invariant
            from <= i <= to <= lengths@.len(),
            span(lengths@, from as int, i as int) >= 0,
            total == clamp(span(lengths@, from as int, i as int) as nat),
        decreases to - i,
    {
        total = total.saturating_add(lengths[i]);
        i += 1;
    }
    total
}

/// The ranges of a packing lie in the list.
pub proof fn lemma_packed_bounds(lengths: Seq<usize>, capacity: int, ranges: Seq<Range<usize>>)
    requires
        packed(lengths, capacity, ranges),
    ensures
        forall|g: int|
            0 <= g < ranges.len() ==> (#[trigger] ranges[g]).start < ranges[g].end
                && ranges[g].end <= lengths.len(),
{
    assert forall|g: int| 0 <= g < ranges.len() implies (#[trigger] ranges[g]).start < ranges[g].end
        && ranges[g].end <= lengths.len() by {
        lemma_ranges_end(lengths, capacity, ranges, g);
    }
}

/// The canvas positions to keep free.
fn reserve_canvas(
    lengths: &Vec<usize>,
    groups: &Vec<Range<usize>>,
    scheme: DiffusionScheme,
    capacity: usize,
    sequential: bool,
) -> (r: usize)
    requires
        packed(lengths@, capacity as int, groups@),
        scheme matches DiffusionScheme::Masked { block, .. } ==> block > 0,
    ensures
        r == clamp(canvas_reserve(lengths@, groups@, scheme, capacity as nat, sequential)),
{
    let mut longest: usize = 0;
    let mut padding: usize = 0;
    let mut g: usize = 0;
    proof {
        lemma_packed_bounds(lengths@, capacity as int, groups@);
    }
    while g < groups.len()
        invariant
            g <= groups@.len(),
            packed(lengths@, capacity as int, groups@),
            scheme matches DiffusionScheme::Masked { block, .. } ==> block > 0,
            forall|x: int|
                0 <= x < groups@.len() ==> (#[trigger] groups@[x]).start < groups@[x].end
                    && groups@[x].end <= lengths@.len(),
            longest == longest_canvas(lengths@, groups@, scheme, capacity as nat, g as nat),
            padding == most_padding(lengths@, groups@, scheme, capacity as nat, g as nat),
        decreases groups@.len() - g,
    {
        let from: usize = groups[g].start;
        let to: usize = groups[g].end;
        proof {
            assert(groups@[g as int].start < groups@[g as int].end);
        }
        let size: usize = sum_lengths(lengths, from, to);
        assert(size == group_size(lengths@, groups@[g as int]));
        let whole: usize = padded(scheme, capacity, size);
        if whole > longest {
            longest = whole;
        }
        if whole - size > padding {
            padding = whole - size;
        }
        g += 1;
    }
    if sequential {
        sum_lengths(lengths, 0, lengths.len()).saturating_add(padding)
    } else {
        longest
    }
}

// ---------------------------------------------------------------------------------------------
// Seeds
// ---------------------------------------------------------------------------------------------

/// The seed of a sample of a group: groups and samples of one read get different noise.
pub open spec fn seed_of(seed: u64, group: nat, sample: nat) -> u64 {
    ((seed + 104729 * group + 7919 * sample) % 0x1_0000_0000_0000_0000) as u64
}

pub fn sample_seed(seed: u64, group: u64, sample: u32) -> (r: u64)
    ensures
        r == seed_of(seed, group as nat, sample as nat),
{
    let a: u64 = 104729u64.wrapping_mul(group);
    let b: u64 = 7919u64.wrapping_mul(sample as u64);
    let first: u64 = seed.wrapping_add(a);
    let r: u64 = first.wrapping_add(b);
    proof {
        lemma_wrapped(seed, group, sample, a, b, first, r);
    }
    r
}

proof fn lemma_wrapped(seed: u64, group: u64, sample: u32, a: u64, b: u64, first: u64, r: u64)
    requires
        a == (104729 * group) % 0x1_0000_0000_0000_0000,
        b == (7919 * sample) % 0x1_0000_0000_0000_0000,
        first == (seed + a) % 0x1_0000_0000_0000_0000,
        r == (first + b) % 0x1_0000_0000_0000_0000,
    ensures
        r == seed_of(seed, group as nat, sample as nat),
{
    let w: int = 0x1_0000_0000_0000_0000;
    let (x, y): (int, int) = (104729 * group as int, 7919 * sample as int);
    lemma_add_mod_noop_right(seed as int, x, w);
    assert(first == (seed + x) % w);
    lemma_add_mod_noop_right(first as int, y, w);
    assert(r == (first + y) % w);
    lemma_add_mod_noop_right(y, seed + x, w);
    assert(r == (y + (seed + x)) % w);
}

// ---------------------------------------------------------------------------------------------
// Reads
// ---------------------------------------------------------------------------------------------

/// The answers to a read request.
#[derive(Debug)]
pub struct ReadResult {
    pub slots: Vec<SlotRead>,
    pub prompt_tokens: usize,
    pub canvas_tokens: usize,
    pub output_tokens: usize,
    pub seed: u64,
}

/// How a read went: the prompt, the slots in tokens, their groups, what followed the prompt at
/// each group, and every sample of each group.
pub struct Trace {
    pub parts: Seq<Part>,
    pub slots: Seq<SlotTokens>,
    pub groups: Seq<Range<usize>>,
    pub suffixes: Seq<Seq<i32>>,
    pub reads: Seq<Seq<Seq<SlotModel>>>,
    /// Positions processed for a thought.
    pub input: usize,
}

/// How slots are read: everything of an engine and of the options that a sample depends on.
pub struct Reading {
    pub scheme: DiffusionScheme,
    pub capacity: nat,
    pub steps: nat,
    pub samples: nat,
    pub sequential: bool,
    pub seed: u64,
}

/// Sample `sample` of a group, the `index`-th: uniform noise depends on the seed of the sample.
pub open spec fn sampled(
    card: Card,
    how: Reading,
    at: Resident,
    group: Seq<SlotTokens>,
    index: nat,
    sample: nat,
    read: Seq<SlotModel>,
) -> bool {
    match how.scheme {
        DiffusionScheme::Masked { threshold, .. } => read == masked_read(
            card,
            at,
            group,
            how.scheme,
            how.capacity,
            threshold,
            how.steps,
        ),
        DiffusionScheme::UniformSelfConditioned { .. } => read == noise_read(
            card,
            at,
            group,
            at.size(),
            seed_of(how.seed, index, sample),
            how.steps,
        ),
    }
}

/// The seed decides every sample: two reads of a group after the same prompt give the same scores.
pub proof fn law_seeds_decide_the_samples(
    card: Card,
    how: Reading,
    at: Resident,
    group: Seq<SlotTokens>,
    index: nat,
    sample: nat,
    a: Seq<SlotModel>,
    b: Seq<SlotModel>,
)
    requires
        sampled(card, how, at, group, index, sample, a),
        sampled(card, how, at, group, index, sample, b),
    ensures
        a == b,
{
}

/// The canvas tokens of a sample.
pub open spec fn sample_canvas(how: Reading, group: Seq<SlotTokens>) -> nat {
    match how.scheme {
        DiffusionScheme::Masked { .. } => padded_size(
            how.scheme,
            how.capacity,
            canvas_length(group),
        ),
        DiffusionScheme::UniformSelfConditioned { .. } => canvas_length(group),
    }
}

/// The index of the best candidate.
pub open spec fn best_candidate(slot: SlotModel) -> int {
    crate::engine::board::best_at(slot.probabilities)
}

/// The prefixes of the first `n` slots, each with its best candidate after it.
pub open spec fn answers_text(group: Seq<SlotTokens>, means: Seq<SlotModel>, n: nat) -> Seq<i32>
    decreases n,
{
    if n == 0 {
        Seq::empty()
    } else {
        let i = n - 1;
        answers_text(group, means, i as nat) + group[i].prefix.push(
            group[i].candidates[best_candidate(means[i])],
        )
    }
}

/// The samples of a group after its prompt, and the text after it: in sequence, the best
/// candidates of the mean follow.
#[verifier::opaque]
pub open spec fn group_read(
    card: Card,
    how: Reading,
    at: Resident,
    group: Seq<SlotTokens>,
    index: nat,
    reads: Seq<Seq<SlotModel>>,
    after: Seq<i32>,
) -> bool {
    &&& reads.len() == how.samples
    &&& comparable(reads)
    &&& forall|s: int|
        0 <= s < how.samples ==> sampled(
            card,
            how,
            at,
            group,
            index,
            s as nat,
            #[trigger] reads[s],
        ) && outlined(group, at.size(), reads[s])
    &&& after == if how.sequential {
        at.suffix + answers_text(group, averaged(reads), group.len())
    } else {
        at.suffix
    }
}

impl Trace {
    /// The slots of group `g`.
    pub open spec fn group(self, g: int) -> Seq<SlotTokens> {
        self.slots.subrange(self.groups[g].start as int, self.groups[g].end as int)
    }

    /// The prompt at group `g`.
    pub open spec fn at(self, g: int) -> Resident {
        Resident { parts: self.parts, suffix: self.suffixes[g] }
    }

    /// Each group was sampled after its prompt; in sequence, later groups see the answers of
    /// earlier ones.
    #[verifier::opaque]
    pub open spec fn follows(self, card: Card, how: Reading, n: int) -> bool {
        &&& self.suffixes.len() == n + 1
        &&& self.reads.len() == n
        &&& forall|g: int|
            0 <= g < n ==> group_read(
                card,
                how,
                self.at(g),
                self.group(g),
                g as nat,
                #[trigger] self.reads[g],
                self.suffixes[g + 1],
            )
    }

    /// The averaged slots of the first `n` groups.
    pub open spec fn answers(self, n: nat) -> Seq<SlotModel>
        decreases n,
    {
        if n == 0 {
            Seq::empty()
        } else {
            self.answers((n - 1) as nat) + averaged(self.reads[n - 1])
        }
    }

    /// The prompt positions of all samples of the first `n` groups, after a thought.
    pub open spec fn prompt_cost(self, how: Reading, n: nat) -> nat
        decreases n,
    {
        if n == 0 {
            self.input as nat
        } else {
            self.prompt_cost(how, (n - 1) as nat) + how.samples * self.at(n - 1).size()
        }
    }

    /// The canvas tokens of all samples of the first `n` groups.
    pub open spec fn canvas_cost(self, how: Reading, n: nat) -> nat
        decreases n,
    {
        if n == 0 {
            0
        } else {
            self.canvas_cost(how, (n - 1) as nat) + how.samples * sample_canvas(
                how,
                self.group(n - 1),
            )
        }
    }
}

/// Appends each slot's prefix with its best candidate.
fn append_answers(
    suffix: &mut Vec<i32>,
    prepared: &Vec<PreparedSlot>,
    from: usize,
    to: usize,
    means: &Vec<SlotRead>,
)
    requires
        from <= to <= prepared@.len(),
        means@.len() == to - from,
        forall|i: int|
            0 <= i < means@.len() ==> (#[trigger] means@[i]).probabilities@.len() == group_of(
                prepared@,
                from as int,
                to as int,
            )[i].candidates.len() && means@[i].probabilities@.len() > 0,
    ensures
        final(suffix)@ == old(suffix)@ + answers_text(
            group_of(prepared@, from as int, to as int),
            slot_models(means@),
            (to - from) as nat,
        ),
{
    let ghost group = group_of(prepared@, from as int, to as int);
    let ghost models = slot_models(means@);
    let ghost before = suffix@;
    let mut i: usize = 0;
    let n: usize = to - from;
    assert(before + answers_text(group, models, 0) =~= before);
    while i < n
        invariant
            i <= n == to - from,
            from <= to <= prepared@.len(),
            group == group_of(prepared@, from as int, to as int),
            models == slot_models(means@),
            means@.len() == n,
            forall|x: int|
                0 <= x < means@.len() ==> (#[trigger] means@[x]).probabilities@.len()
                    == group[x].candidates.len() && means@[x].probabilities@.len() > 0,
            suffix@ == before + answers_text(group, models, i as nat),
        decreases n - i,
    {
        let slot: &PreparedSlot = &prepared[from + i];
        let best: usize = best_index(&means[i].probabilities);
        let ghost was = suffix@;
        proof {
            assert(group[i as int] == slot@);
            assert(models[i as int] == means@[i as int]@);
            crate::engine::board::lemma_best_at(means@[i as int].probabilities@, best as int);
        }
        extend(suffix, &slot.prefix, 0, slot.prefix.len());
        suffix.push(slot.candidates[best]);
        i += 1;
        proof {
            assert(suffix@ =~= was + slot@.prefix.push(slot@.candidates[best as int]));
            assert(before + answers_text(group, models, i as nat) =~= was + slot@.prefix.push(
                slot@.candidates[best as int],
            ));
        }
    }
}

/// A canvas of a group of slots fits: its size is the sum of their lengths.
pub proof fn lemma_group_fits(slots: Seq<SlotTokens>, from: int, to: int)
    requires
        0 <= from <= to <= slots.len(),
        forall|i: int| 0 <= i < slots.len() ==> #[trigger] lengths_of(slots)[i] < usize::MAX,
    ensures
        canvas_length(slots.subrange(from, to)) == span(lengths_of(slots), from, to),
    decreases to - from,
{
    if from < to {
        lemma_group_fits(slots, from, to - 1);
        let group = slots.subrange(from, to);
        assert(group.drop_last() =~= slots.subrange(from, to - 1));
        assert(group.last() == slots[to - 1]);
        assert(lengths_of(slots)[to - 1] < usize::MAX);
    } else {
        assert(slots.subrange(from, to) =~= Seq::<SlotTokens>::empty());
    }
}

pub proof fn lemma_span_item(lengths: Seq<usize>, from: int, to: int, i: int)
    requires
        0 <= from <= i < to <= lengths.len(),
    ensures
        lengths[i] <= span(lengths, from, to),
        span(lengths, from, i) >= 0,
    decreases to - from,
{
    lemma_span_nonnegative(lengths, from, to - 1);
    lemma_span_nonnegative(lengths, from, i);
    if i < to - 1 {
        lemma_span_item(lengths, from, to - 1, i);
    }
}

proof fn lemma_span_nonnegative(lengths: Seq<usize>, from: int, to: int)
    requires
        0 <= from <= to <= lengths.len(),
    ensures
        span(lengths, from, to) >= 0,
    decreases to - from,
{
    if from < to {
        lemma_span_nonnegative(lengths, from, to - 1);
    }
}

/// Every group of a packing is readable.
pub proof fn lemma_groups_readable(
    slots: Seq<SlotTokens>,
    capacity: usize,
    groups: Seq<Range<usize>>,
)
    requires
        capacity < usize::MAX,
        packed(lengths_of(slots), capacity as int, groups),
        forall|i: int| 0 <= i < slots.len() ==> (#[trigger] slots[i]).candidates.len() > 0,
    ensures
        forall|g: int|
            0 <= g < groups.len() ==> readable(
                slots.subrange(
                    (#[trigger] groups[g]).start as int,
                    groups[g].end as int,
                ),
                capacity as nat,
            ),
{
    let lengths = lengths_of(slots);
    lemma_packed_bounds(lengths, capacity as int, groups);
    assert forall|i: int| 0 <= i < slots.len() implies #[trigger] lengths[i] < usize::MAX by {
        crate::engine::chunks::law_every_question_is_in_one_range(
            lengths,
            capacity as int,
            groups,
            i,
        );
        let g = choose|g: int|
            0 <= g < groups.len() && (#[trigger] groups[g]).start <= i < groups[g].end;
        lemma_span_item(lengths, groups[g].start as int, groups[g].end as int, i);
    }
    assert forall|g: int| 0 <= g < groups.len() implies readable(
        slots.subrange((#[trigger] groups[g]).start as int, groups[g].end as int),
        capacity as nat,
    ) by {
        let (a, b) = (groups[g].start as int, groups[g].end as int);
        lemma_group_fits(slots, a, b);
        let group = slots.subrange(a, b);
        assert forall|i: int| 0 <= i < group.len() implies (
        #[trigger] group[i]).candidates.len() > 0 by {
            assert(group[i] == slots[a + i]);
        }
    }
}

/// Prepared slots have candidates.
pub proof fn lemma_slots_have_candidates(
    card: Card,
    chat: ChatFormat,
    texts_of: Seq<crate::engine::slots::SlotText>,
)
    ensures
        slots_outcome(card, chat, texts_of) matches Ok(slots) ==> slots.len() == texts_of.len()
            && forall|i: int|
            0 <= i < slots.len() ==> (#[trigger] slots[i]).candidates.len() > 0,
{
    let f = crate::engine::slots::slot_reader(card, chat);
    crate::sequences::lemma_try_map_items(texts_of, f);
    if let Ok(slots) = slots_outcome(card, chat, texts_of) {
        assert forall|i: int| 0 <= i < slots.len() implies (
        #[trigger] slots[i]).candidates.len() > 0 by {
            assert(f(texts_of[i]) == Ok::<SlotTokens, ErrorModel>(slots[i]));
            lemma_candidate_count(card, chat, texts_of[i].candidates);
        }
    }
}

proof fn lemma_candidate_count(card: Card, chat: ChatFormat, candidates: Seq<Seq<char>>)
    ensures
        crate::engine::slots::candidates_outcome(card, chat, candidates) matches Ok(tokens)
            ==> tokens.len() == candidates.len(),
    decreases candidates.len(),
{
    if candidates.len() > 0 {
        lemma_candidate_count(card, chat, candidates.drop_last());
    }
}

/// The prompt of a read: the user turn with any images, then the opened model turn; or the first
/// error on the way to it.
pub open spec fn prompt_outcome(
    card: Card,
    chat: ChatFormat,
    text: Seq<char>,
    pictures: core::result::Result<Seq<Part>, ErrorModel>,
) -> core::result::Result<Seq<Part>, ErrorModel> {
    let open = piece_tokens(card, Piece { text: chat.user_open@, bos: chat.bos, special: true });
    let body = piece_tokens(card, literal(trim(text)));
    let close = piece_tokens(card, marker(chat.model_open@));
    if open is Err {
        Err(open->Err_0)
    } else if pictures is Err {
        Err(pictures->Err_0)
    } else if body is Err {
        Err(body->Err_0)
    } else if close is Err {
        Err(close->Err_0)
    } else {
        Ok(
            seq![Part::Text(open->Ok_0)] + pictures->Ok_0 + seq![
                Part::Text(body->Ok_0),
                Part::Text(close->Ok_0),
            ],
        )
    }
}

/// What the model may make of images: nothing of none.
pub open spec fn pictured(
    card: Card,
    files: Seq<Seq<u8>>,
    pictures: core::result::Result<Seq<Part>, ErrorModel>,
) -> bool {
    &&& (card.picture)(files, pictures)
    &&& files.len() == 0 ==> pictures == Ok::<Seq<Part>, ErrorModel>(Seq::empty())
}

/// A prompt that the model may give for a text and images, or an error. Where the user turn cannot be
/// opened, no image is encoded.
pub open spec fn prompted(
    card: Card,
    chat: ChatFormat,
    text: Seq<char>,
    files: Seq<Seq<u8>>,
    prompt: core::result::Result<Seq<Part>, ErrorModel>,
) -> bool {
    if piece_tokens(card, Piece { text: chat.user_open@, bos: chat.bos, special: true }) is Err {
        prompt == prompt_outcome(card, chat, text, Ok(Seq::empty()))
    } else {
        exists|pictures: core::result::Result<Seq<Part>, ErrorModel>|
            prompt == #[trigger] prompt_outcome(card, chat, text, pictures) && pictured(
                card,
                files,
                pictures,
            )
    }
}

/// The positions that a read needs: its prompt, its canvas, and its thought with the markers of one.
pub open spec fn positions_needed(
    parts: Seq<Part>,
    slots: Seq<SlotTokens>,
    groups: Seq<Range<usize>>,
    scheme: DiffusionScheme,
    capacity: nat,
    options: ReadOptions,
    empty: Seq<i32>,
) -> nat {
    (total_size(parts) + canvas_reserve(
        lengths_of(slots),
        groups,
        scheme,
        capacity,
        options.sequential,
    ) + options.think + empty.len()) as nat
}

/// The error of a read that does not fit the context.
pub open spec fn room_fault(needed: usize, n_ctx: usize) -> Option<ErrorModel> {
    if needed <= n_ctx {
        None
    } else {
        Some(
            ErrorModel::InvalidInput(
                "Prompt, thought budget, and canvas need "@ + digits(needed as nat)
                    + " tokens; context allows "@ + digits(n_ctx as nat),
            ),
        )
    }
}

/// Whether `needed` positions fit the context.
pub fn room(needed: usize, n_ctx: usize) -> (r: Result<()>)
    ensures
        r is Ok <==> needed <= n_ctx,
        r matches Err(e) ==> room_fault(needed, n_ctx) == Some(e@),
{
    if needed > n_ctx {
        let a: String = decimal(needed as u64);
        let b: String = decimal(n_ctx as u64);
        return Err(
            Error::InvalidInput(
                "Prompt, thought budget, and canvas need ".to_owned().concat(a.as_str()).concat(
                    " tokens; context allows ",
                ).concat(b.as_str()),
            ),
        );
    }
    Ok(())
}

/// The error of a read before anything is prefilled: of its prompt, of its slots, of a question that
/// no canvas can hold, or of its size.
pub open spec fn plan_fault(
    card: Card,
    scheme: DiffusionScheme,
    chat: ChatFormat,
    n_ctx: usize,
    slots: Seq<SlotText>,
    options: ReadOptions,
    capacity: usize,
    prompt: core::result::Result<Seq<Part>, ErrorModel>,
    groups: Seq<Range<usize>>,
) -> Option<ErrorModel> {
    let prepared = slots_outcome(card, chat, slots);
    let empty = piece_tokens(card, marker(chat.empty_thought@));
    if prompt is Err {
        Some(prompt->Err_0)
    } else if prepared is Err {
        Some(prepared->Err_0)
    } else if oversized(lengths_of(prepared->Ok_0), capacity as int) is Some {
        Some(
            oversize_fault(oversized(lengths_of(prepared->Ok_0), capacity as int)->Some_0, capacity),
        )
    } else if empty is Err {
        Some(empty->Err_0)
    } else {
        room_fault(
            clamp(
                positions_needed(
                    prompt->Ok_0,
                    prepared->Ok_0,
                    groups,
                    scheme,
                    capacity as nat,
                    options,
                    empty->Ok_0,
                ),
            ),
            n_ctx,
        )
    }
}

/// The slots of a read are packed into these groups, where they can be.
pub open spec fn grouped(
    card: Card,
    chat: ChatFormat,
    slots: Seq<SlotText>,
    capacity: usize,
    prompt: core::result::Result<Seq<Part>, ErrorModel>,
    groups: Seq<Range<usize>>,
) -> bool {
    match slots_outcome(card, chat, slots) {
        Ok(prepared) => prompt is Ok && oversized(lengths_of(prepared), capacity as int) is None
            ==> packed(lengths_of(prepared), capacity as int, groups),
        Err(_) => true,
    }
}

/// A read goes this far before anything is prefilled: it is refused with `fault`, or not at all.
pub open spec fn planned(
    card: Card,
    scheme: DiffusionScheme,
    chat: ChatFormat,
    n_ctx: usize,
    request: ReadRequest,
    options: ReadOptions,
    files: Seq<Seq<u8>>,
    capacity: usize,
    fault: Option<ErrorModel>,
) -> bool {
    exists|prompt: core::result::Result<Seq<Part>, ErrorModel>, groups: Seq<Range<usize>>|
        fault == #[trigger] plan_fault(
            card,
            scheme,
            chat,
            n_ctx,
            slot_texts(request.slots@),
            options,
            capacity,
            prompt,
            groups,
        ) && prompted(card, chat, request.prompt@, files, prompt) && grouped(
            card,
            chat,
            slot_texts(request.slots@),
            capacity,
            prompt,
            groups,
        )
}

/// How a read may fail: a request that is refused as it stands or once its prompt and slots are
/// known fails with that very error and without prefill work; any other only with an error of the
/// thought that was asked for, or of a forward.
pub open spec fn read_course(
    card: Card,
    scheme: DiffusionScheme,
    chat: ChatFormat,
    n_ctx: usize,
    request: ReadRequest,
    options: ReadOptions,
    files: Seq<Seq<u8>>,
    capacity: usize,
    error: Option<ErrorModel>,
    idle: bool,
) -> bool {
    match read_fault(request.prompt@, request.slots@.len(), options, files.len()) {
        Some(e) => error == Some(e) && idle,
        None => exists|fault: Option<ErrorModel>| #[trigger]
            planned(card, scheme, chat, n_ctx, request, options, files, capacity, fault) && (
            match fault {
                Some(e) => error == Some(e) && idle,
                None => error is Some ==> (card.fails)(error->Some_0) || (options.think > 0
                    && thought_fault(card, chat, error->Some_0)),
            }),
    }
}

/// The error of a result.
pub open spec fn error_in<T>(r: Result<T>) -> Option<ErrorModel> {
    match r {
        Ok(_) => None,
        Err(e) => Some(e@),
    }
}

/// What follows the prompt before the first group: a closed empty thought, or the thought that
/// was asked for.
pub open spec fn starts_read(
    card: Card,
    mode: Mode,
    chat: ChatFormat,
    parts: Seq<Part>,
    think: usize,
    seed: u64,
    suffix: Seq<i32>,
    input: usize,
    output: usize,
) -> bool {
    if think > 0 {
        exists|thought: Thought|
            #![trigger thought_of(card, mode, chat, parts, think, seed, thought)]
            thought_of(card, mode, chat, parts, think, seed, thought) && suffix == thought.suffix@
                && input == thought.input_tokens && output == thought.output_tokens
    } else {
        &&& piece_tokens(card, marker(chat.empty_thought@)) == Ok::<Seq<i32>, ErrorModel>(suffix)
        &&& input == 0
        &&& output == 0
    }
}

/// What is known of a read.
pub open spec fn read_traced(
    card: Card,
    mode: Mode,
    chat: ChatFormat,
    n_ctx: usize,
    request: ReadRequest,
    options: ReadOptions,
    files: Seq<Seq<u8>>,
    capacity: usize,
    trace: Trace,
    result: ReadResult,
) -> bool {
    let how = Reading {
        scheme: mode.scheme,
        capacity: capacity as nat,
        steps: options.steps as nat,
        samples: options.samples as nat,
        sequential: options.sequential,
        seed: result.seed,
    };
    let n = trace.groups.len();
    let empty = piece_tokens(card, marker(chat.empty_thought@));
    &&& slots_outcome(card, chat, slot_texts(request.slots@)) == Ok::<Seq<SlotTokens>, ErrorModel>(
        trace.slots,
    )
    &&& prompted(card, chat, request.prompt@, files, Ok(trace.parts))
    &&& packed(lengths_of(trace.slots), capacity as int, trace.groups)
    &&& empty is Ok && total_size(trace.parts) + canvas_reserve(
        lengths_of(trace.slots),
        trace.groups,
        mode.scheme,
        capacity as nat,
        options.sequential,
    ) + options.think + empty->Ok_0.len() <= n_ctx
    &&& starts_read(
        card,
        mode,
        chat,
        trace.parts,
        options.think,
        result.seed,
        trace.suffixes[0],
        trace.input,
        result.output_tokens,
    )
    &&& trace.follows(card, how, n as int)
    &&& slot_models(result.slots@) == trace.answers(n)
    &&& result.prompt_tokens == clamp(trace.prompt_cost(how, n))
    &&& result.canvas_tokens == clamp(trace.canvas_cost(how, n))
}

/// Some course of events gives this result.
pub open spec fn read_known(
    card: Card,
    mode: Mode,
    chat: ChatFormat,
    n_ctx: usize,
    request: ReadRequest,
    options: ReadOptions,
    files: Seq<Seq<u8>>,
    capacity: usize,
    result: ReadResult,
) -> bool {
    exists|trace: Trace| #[trigger]
        read_traced(card, mode, chat, n_ctx, request, options, files, capacity, trace, result)
}

/// Some course of events after `parts + suffix` fills the slots and the counts.
pub open spec fn groups_read(
    card: Card,
    how: Reading,
    parts: Seq<Part>,
    slots: Seq<SlotTokens>,
    groups: Seq<Range<usize>>,
    suffix: Seq<i32>,
    input: usize,
    result: ReadResult,
    trace: Trace,
) -> bool {
    let n = groups.len();
    &&& trace.parts == parts
    &&& trace.slots == slots
    &&& trace.groups == groups
    &&& trace.suffixes.len() > 0 && trace.suffixes[0] == suffix
    &&& trace.input == input
    &&& trace.follows(card, how, n as int)
    &&& slot_models(result.slots@) == trace.answers(n)
    &&& result.prompt_tokens == clamp(trace.prompt_cost(how, n))
    &&& result.canvas_tokens == clamp(trace.canvas_cost(how, n))
}

/// After `n` groups, the slots, the counts and the text so far.
#[verifier::opaque]
pub open spec fn progress(
    card: Card,
    how: Reading,
    trace: Trace,
    n: int,
    suffix: Seq<i32>,
    result: ReadResult,
) -> bool {
    &&& trace.follows(card, how, n)
    &&& trace.suffixes.len() == n + 1
    &&& trace.reads.len() == n
    &&& trace.suffixes[n] == suffix
    &&& slot_models(result.slots@) == trace.answers(n as nat)
    &&& result.prompt_tokens == clamp(trace.prompt_cost(how, n as nat))
    &&& result.canvas_tokens == clamp(trace.canvas_cost(how, n as nat))
}

/// Every group can be read.
#[verifier::opaque]
pub open spec fn groups_ready(
    slots: Seq<SlotTokens>,
    groups: Seq<Range<usize>>,
    capacity: nat,
) -> bool {
    forall|x: int|
        0 <= x < groups.len() ==> readable(
            slots.subrange((#[trigger] groups[x]).start as int, groups[x].end as int),
            capacity,
        ) && groups[x].start < groups[x].end && groups[x].end <= slots.len()
}

impl<M: DiffusionModel> Engine<M> {
    /// How slots are read with these options.
    pub open spec fn reading(self, options: ReadOptions, seed: u64) -> Reading {
        Reading {
            scheme: self.scheme,
            capacity: self.capacity() as nat,
            steps: options.steps as nat,
            samples: options.samples as nat,
            sequential: options.sequential,
            seed,
        }
    }

    /// The most tokens of a canvas.
    pub open spec fn capacity(self) -> usize {
        if self.max_canvas <= self.batch_size {
            self.max_canvas
        } else {
            self.batch_size
        }
    }

    /// All samples of one group after the resident prompt.
    fn read_samples(
        &mut self,
        prepared: &Vec<PreparedSlot>,
        from: usize,
        to: usize,
        length: usize,
        seed: u64,
        group_index: u64,
        options: &ReadOptions,
    ) -> (r: Result<(Vec<Vec<SlotRead>>, usize)>)
        requires
            old(self).ready(),
            from < to <= prepared@.len(),
            readable(group_of(prepared@, from as int, to as int), old(self).capacity() as nat),
            old(self).model.resident().size() == length,
            options.steps > 0,
            options.samples > 0,
        ensures
            final(self).same_setup(*old(self)),
            r matches Err(e) ==> (old(self).model.card().fails)(e@),
            final(self).model.resident() == old(self).model.resident(),
            r matches Ok((reads, canvas)) ==> {
                let how = Reading {
                    scheme: old(self).scheme,
                    capacity: old(self).capacity() as nat,
                    steps: options.steps as nat,
                    samples: options.samples as nat,
                    sequential: options.sequential,
                    seed,
                };
                let group = group_of(prepared@, from as int, to as int);
                &&& reads@.len() == options.samples
                &&& canvas == sample_canvas(how, group)
                &&& comparable(read_models(reads@))
                &&& forall|s: int|
                    0 <= s < reads@.len() ==> sampled(
                        old(self).model.card(),
                        how,
                        old(self).model.resident(),
                        group,
                        group_index as nat,
                        s as nat,
                        #[trigger] read_models(reads@)[s],
                    ) && probable(read_models(reads@)[s]) && outlined(
                        group,
                        length as nat,
                        read_models(reads@)[s],
                    )
            },
    {
        let ghost group = group_of(prepared@, from as int, to as int);
        let ghost how = Reading {
            scheme: self.scheme,
            capacity: self.capacity() as nat,
            steps: options.steps as nat,
            samples: options.samples as nat,
            sequential: options.sequential,
            seed,
        };
        let capacity: usize = if self.max_canvas <= self.batch_size {
            self.max_canvas
        } else {
            self.batch_size
        };
        let mut reads: Vec<Vec<SlotRead>> = Vec::new();
        let mut canvas: usize = 0;
        let mut sample: u32 = 0;
        while sample < options.samples
            invariant
                sample <= options.samples,
                options.steps > 0,
                options.samples > 0,
                self.same_setup(*old(self)),
                self.ready(),
                self.model.resident() == old(self).model.resident(),
                self.model.resident().size() == length,
                capacity == old(self).capacity(),
                from < to <= prepared@.len(),
                group == group_of(prepared@, from as int, to as int),
                readable(group, capacity as nat),
                how == (Reading {
                    scheme: old(self).scheme,
                    capacity: capacity as nat,
                    steps: options.steps as nat,
                    samples: options.samples as nat,
                    sequential: options.sequential,
                    seed,
                }),
                reads@.len() == sample,
                sample > 0 ==> canvas == sample_canvas(how, group),
                forall|s: int|
                    0 <= s < reads@.len() ==> sampled(
                        old(self).model.card(),
                        how,
                        old(self).model.resident(),
                        group,
                        group_index as nat,
                        s as nat,
                        #[trigger] read_models(reads@)[s],
                    ) && probable(read_models(reads@)[s]) && outlined(
                        group,
                        length as nat,
                        read_models(reads@)[s],
                    ),
            decreases options.samples - sample,
        {
            let ghost before = reads@;
            let (slots, size): (Vec<SlotRead>, usize) = match self.scheme {
                DiffusionScheme::UniformSelfConditioned { .. } => read_canvas(
                    &mut self.model,
                    prepared,
                    from,
                    to,
                    length,
                    sample_seed(seed, group_index, sample),
                    options.steps,
                    capacity,
                )?,
                DiffusionScheme::Masked { threshold, .. } => read_masked(
                    &mut self.model,
                    prepared,
                    from,
                    to,
                    length,
                    options.steps,
                    self.scheme,
                    threshold,
                    capacity,
                )?,
            };
            canvas = size;
            let ghost made = slot_models(slots@);
            proof {
                assert(outlined(group, length as nat, made)) by {
                    assert forall|i: int| 0 <= i < made.len() implies (
                    #[trigger] made[i]).probabilities.len() == group[i].candidates.len() by {
                        assert(slots@[i]@ == made[i]);
                    }
                }
            }
            reads.push(slots);
            proof {
                assert forall|s: int| 0 <= s < reads@.len() implies sampled(
                    old(self).model.card(),
                    how,
                    old(self).model.resident(),
                    group,
                    group_index as nat,
                    s as nat,
                    #[trigger] read_models(reads@)[s],
                ) && probable(read_models(reads@)[s]) && outlined(
                    group,
                    length as nat,
                    read_models(reads@)[s],
                ) by {
                    if s < before.len() {
                        assert(read_models(reads@)[s] == read_models(before)[s]);
                    } else {
                        assert(read_models(reads@)[s] == made);
                    }
                }
            }
            sample += 1;
        }
        proof {
            let all = read_models(reads@);
            assert forall|k: int| 0 <= k < all.len() implies alike(all[0], #[trigger] all[k]) by {
                assert(outlined(group, length as nat, all[0]));
                assert forall|i: int| 0 <= i < all[0].len() implies (
                #[trigger] all[0][i]).candidate_tokens == all[k][i].candidate_tokens
                    && all[0][i].probabilities.len() == all[k][i].probabilities.len() by {
                    assert(all[k][i].probabilities.len() == group[i].candidates.len());
                }
            }
        }
        Ok((reads, canvas))
    }
}

/// The user turn with any images, then the opened model turn.
fn prompt_parts<M: DiffusionModel>(
    model: &mut M,
    chat: &ChatFormat,
    text: &str,
    images: &Vec<ImageInput>,
) -> (r: Result<Vec<PromptPart>>)
    ensures
        final(model).card() == old(model).card(),
        final(model).work() == old(model).work(),
        prompted(
            old(model).card(),
            *chat,
            text@,
            image_files(images@),
            picture_outcome(r),
        ),
{
    let ghost card = model.card();
    let ghost files = image_files(images@);
    let open: Vec<i32> = model.tokenize(chat.user_open.as_str(), chat.bos, true)?;
    let mut parts: Vec<PromptPart> = Vec::new();
    parts.push(PromptPart::Text(open));
    let pictures: Result<Vec<PromptPart>> = model.encode_images(images);
    let ghost seen = picture_outcome(pictures);
    proof {
        if files.len() == 0 {
            assert(seen->Ok_0 =~= Seq::<Part>::empty());
        }
        assert(pictured(card, files, seen));
        assert(prompted(card, *chat, text@, files, prompt_outcome(card, *chat, text@, seen)));
    }
    let mut encoded: Vec<PromptPart> = pictures?;
    let ghost found = parts_model(encoded@);
    parts.append(&mut encoded);
    let body_text: String = trim_text(text);
    let body: Vec<i32> = model.tokenize(body_text.as_str(), false, false)?;
    let close: Vec<i32> = model.tokenize(chat.model_open.as_str(), false, true)?;
    let ghost (b, c) = (body@, close@);
    parts.push(PromptPart::Text(body));
    parts.push(PromptPart::Text(close));
    proof {
        assert(parts_model(parts@) =~= seq![Part::Text(open@)] + found + seq![
            Part::Text(b),
            Part::Text(c),
        ]);
    }
    Ok(parts)
}

/// A read that nothing was prefilled for yet: its prompt, its slots in groups that fit a canvas, and
/// the tokens of an empty thought.
struct Planned {
    prompt: Vec<PromptPart>,
    prepared: Vec<PreparedSlot>,
    lengths: Vec<usize>,
    groups: Vec<Range<usize>>,
    empty: Vec<i32>,
}

impl<M: DiffusionModel> Engine<M> {
    /// Everything of a read before the first prefill.
    fn plan_read(
        &mut self,
        request: &ReadRequest,
        options: &ReadOptions,
        images: &Vec<ImageInput>,
    ) -> (r: Result<Planned>)
        requires
            old(self).ready(),
        ensures
            final(self).same_setup(*old(self)),
            final(self).model.work() == old(self).model.work(),
            planned(
                old(self).model.card(),
                old(self).scheme,
                old(self).chat,
                old(self).n_ctx,
                *request,
                *options,
                image_files(images@),
                old(self).capacity(),
                error_in(r),
            ),
            r matches Ok(plan) ==> {
                let card = old(self).model.card();
                &&& prompted(
                    card,
                    old(self).chat,
                    request.prompt@,
                    image_files(images@),
                    Ok(parts_model(plan.prompt@)),
                )
                &&& slots_outcome(card, old(self).chat, slot_texts(request.slots@)) == Ok::<
                    Seq<SlotTokens>,
                    ErrorModel,
                >(slots_model(plan.prepared@))
                &&& plan.lengths@ == lengths_of(slots_model(plan.prepared@))
                &&& packed(plan.lengths@, old(self).capacity() as int, plan.groups@)
                &&& piece_tokens(card, marker(old(self).chat.empty_thought@)) == Ok::<
                    Seq<i32>,
                    ErrorModel,
                >(plan.empty@)
                &&& positions_needed(
                    parts_model(plan.prompt@),
                    slots_model(plan.prepared@),
                    plan.groups@,
                    old(self).scheme,
                    old(self).capacity() as nat,
                    *options,
                    plan.empty@,
                ) <= old(self).n_ctx
            },
    {
        let ghost card = self.model.card();
        let ghost chat = self.chat;
        let ghost files = image_files(images@);
        let ghost texts_of = slot_texts(request.slots@);
        let ghost none: Seq<Range<usize>> = Seq::empty();
        let capacity: usize = if self.max_canvas <= self.batch_size {
            self.max_canvas
        } else {
            self.batch_size
        };
        let outcome: Result<Vec<PromptPart>> = prompt_parts(
            &mut self.model,
            &self.chat,
            request.prompt.as_str(),
            images,
        );
        let ghost shown = picture_outcome(outcome);
        let ghost (scheme, n_ctx) = (self.scheme, self.n_ctx);
        let prompt: Vec<PromptPart> = match outcome {
            Ok(prompt) => prompt,
            Err(e) => {
                proof {
                    assert(plan_fault(
                        card,
                        scheme,
                        chat,
                        n_ctx,
                        texts_of,
                        *options,
                        capacity,
                        shown,
                        none,
                    ) == Some(e@));
                }
                return Err(e);
            },
        };
        let ghost parts = parts_model(prompt@);
        let prepared: Vec<PreparedSlot> = match prepare_slots(
            &self.model,
            &self.chat,
            &request.slots,
        ) {
            Ok(prepared) => prepared,
            Err(e) => {
                proof {
                    assert(plan_fault(
                        card,
                        scheme,
                        chat,
                        n_ctx,
                        texts_of,
                        *options,
                        capacity,
                        shown,
                        none,
                    ) == Some(e@));
                }
                return Err(e);
            },
        };
        let lengths: Vec<usize> = slot_lengths(&prepared);
        let groups: Vec<Range<usize>> = match chunk_ranges(&lengths, capacity) {
            Ok(groups) => groups,
            Err(e) => {
                proof {
                    assert(plan_fault(
                        card,
                        scheme,
                        chat,
                        n_ctx,
                        texts_of,
                        *options,
                        capacity,
                        shown,
                        none,
                    ) == Some(e@));
                }
                return Err(e);
            },
        };
        let reserve: usize = reserve_canvas(
            &lengths,
            &groups,
            self.scheme,
            capacity,
            options.sequential,
        );
        let ghost fault = plan_fault(
            card,
            scheme,
            chat,
            n_ctx,
            texts_of,
            *options,
            capacity,
            shown,
            groups@,
        );
        assert(planned(card, scheme, chat, n_ctx, *request, *options, files, capacity, fault));
        // Close the thought before reading answers when no thought was requested.
        // Keep this in prefill so it does not change answer slots or canvas noise.
        let empty: Vec<i32> = self.model.tokenize(self.chat.empty_thought.as_str(), false, true)?;
        let base: usize = match prompt_length(&prompt) {
            Some(n) => n,
            None => usize::MAX,
        };
        let needed: usize = base.saturating_add(reserve).saturating_add(
            options.think,
        ).saturating_add(empty.len());
        let ghost exact = positions_needed(
            parts,
            slots_model(prepared@),
            groups@,
            scheme,
            capacity as nat,
            *options,
            empty@,
        );
        assert(needed == clamp(exact));
        room(needed, self.n_ctx)?;
        Ok(Planned { prompt, prepared, lengths, groups, empty })
    }
}

impl<M: DiffusionModel> Engine<M> {
    /// Reads one group after `prompt + suffix`: its samples, their average, and the positions
    /// and canvas tokens of each sample. In sequence, the answers join the suffix.
    fn read_group(
        &mut self,
        prompt: &Vec<PromptPart>,
        prepared: &Vec<PreparedSlot>,
        from: usize,
        to: usize,
        suffix: &mut Vec<i32>,
        seed: u64,
        group_index: u64,
        options: &ReadOptions,
    ) -> (r: Result<(Vec<Vec<SlotRead>>, Vec<SlotRead>, usize, usize)>)
        requires
            old(self).ready(),
            from < to <= prepared@.len(),
            readable(group_of(prepared@, from as int, to as int), old(self).capacity() as nat),
            options.steps > 0,
            options.samples > 0,
        ensures
            final(self).same_setup(*old(self)),
            r matches Err(e) ==> (old(self).model.card().fails)(e@),
            r matches Ok((reads, means, length, canvas)) ==> {
                let how = Reading {
                    scheme: old(self).scheme,
                    capacity: old(self).capacity() as nat,
                    steps: options.steps as nat,
                    samples: options.samples as nat,
                    sequential: options.sequential,
                    seed,
                };
                let group = group_of(prepared@, from as int, to as int);
                let at = Resident { parts: parts_model(prompt@), suffix: old(suffix)@ };
                &&& group_read(
                    old(self).model.card(),
                    how,
                    at,
                    group,
                    group_index as nat,
                    read_models(reads@),
                    final(suffix)@,
                )
                &&& slot_models(means@) == averaged(read_models(reads@))
                &&& length == at.size()
                &&& canvas == sample_canvas(how, group)
            },
    {
        let ghost group = group_of(prepared@, from as int, to as int);
        let length: usize = self.model.prefill(prompt, suffix)?;
        let (reads, canvas): (Vec<Vec<SlotRead>>, usize) = self.read_samples(
            prepared,
            from,
            to,
            length,
            seed,
            group_index,
            options,
        )?;
        let ghost models = read_models(reads@);
        let means: Vec<SlotRead> = average_reads(&reads)?;
        let ghost mean_models = slot_models(means@);
        proof {
            assert(outlined(group, length as nat, models[0]));
            assert(mean_models.len() == means@.len());
            assert(mean_models.len() == models[0].len());
            assert forall|i: int| 0 <= i < means@.len() implies (
            #[trigger] means@[i]).probabilities@.len() == group[i].candidates.len()
                && means@[i].probabilities@.len() > 0 by {
                assert(mean_models[i] == means@[i]@);
                assert(mean_models[i] == averaged_slot(models, i));
                assert(models[0][i].probabilities.len() == group[i].candidates.len());
                assert(group[i].candidates.len() > 0);
            }
        }
        if options.sequential {
            append_answers(suffix, prepared, from, to, &means);
        }
        proof {
            reveal(group_read);
        }
        Ok((reads, means, length, canvas))
    }

    /// Reads with default options.
    pub fn read(&mut self, request: &ReadRequest, seed: u64) -> (r: Result<ReadResult>)
        requires
            old(self).ready(),
        ensures
            final(self).same_setup(*old(self)),
            r matches Ok(result) ==> result.seed == seed && read_known(
                old(self).model.card(),
                old(self).mode(),
                old(self).chat,
                old(self).n_ctx,
                *request,
                ReadOptions { think: 0, sequential: false, samples: 1, steps: 1 },
                Seq::empty(),
                old(self).capacity(),
                result,
            ),
            read_course(
                old(self).model.card(),
                old(self).scheme,
                old(self).chat,
                old(self).n_ctx,
                *request,
                ReadOptions { think: 0, sequential: false, samples: 1, steps: 1 },
                Seq::empty(),
                old(self).capacity(),
                error_in(r),
                final(self).model.work() == no_work(),
            ),
    {
        let images: Vec<ImageInput> = Vec::new();
        assert(image_files(images@) =~= Seq::empty());
        self.read_with_options(request, seed, ReadOptions::default(), &images)
    }

    /// Reads the slots of a request: after a thought where one is asked for, in groups that fit
    /// a canvas, each averaged over its samples.
    pub fn read_with_options(
        &mut self,
        request: &ReadRequest,
        seed: u64,
        options: ReadOptions,
        images: &Vec<ImageInput>,
    ) -> (r: Result<ReadResult>)
        requires
            old(self).ready(),
        ensures
            final(self).same_setup(*old(self)),
            r matches Ok(result) ==> result.seed == seed && read_known(
                old(self).model.card(),
                old(self).mode(),
                old(self).chat,
                old(self).n_ctx,
                *request,
                options,
                image_files(images@),
                old(self).capacity(),
                result,
            ),
            read_course(
                old(self).model.card(),
                old(self).scheme,
                old(self).chat,
                old(self).n_ctx,
                *request,
                options,
                image_files(images@),
                old(self).capacity(),
                error_in(r),
                final(self).model.work() == no_work(),
            ),
    {
        let ghost card = self.model.card();
        let ghost mode = self.mode();
        let ghost chat = self.chat;
        let ghost capacity = self.capacity();
        let ghost files = image_files(images@);
        self.model.reset_profile();
        check_read(request, &options, images.len())?;
        let outcome: Result<Planned> = self.plan_read(request, &options, images);
        assert(planned(
            card,
            mode.scheme,
            chat,
            old(self).n_ctx,
            *request,
            options,
            files,
            capacity,
            error_in(outcome),
        ));
        let Planned { prompt, prepared, lengths, groups, empty } = outcome?;
        let ghost parts = parts_model(prompt@);
        let ghost slots = slots_model(prepared@);
        let mut suffix: Vec<i32> = empty;
        let mut input_tokens: usize = 0;
        let mut output_tokens: usize = 0;
        if options.think > 0 {
            let thought: Thought = self.think_with(&prompt, options.think, seed)?;
            assert(thought_of(card, mode, chat, parts, options.think, seed, thought));
            input_tokens = thought.input_tokens;
            output_tokens = thought.output_tokens;
            suffix = thought.suffix;
            assert(starts_read(
                card,
                mode,
                chat,
                parts,
                options.think,
                seed,
                suffix@,
                input_tokens,
                output_tokens,
            ));
        }
        let ghost start = suffix@;
        proof {
            lemma_slots_have_candidates(card, chat, slot_texts(request.slots@));
        }
        let result: ReadResult = self.read_groups(
            &prompt,
            &prepared,
            &lengths,
            &groups,
            suffix,
            seed,
            &options,
            input_tokens,
            output_tokens,
        )?;
        proof {
            let how = Reading {
                scheme: mode.scheme,
                capacity: capacity as nat,
                steps: options.steps as nat,
                samples: options.samples as nat,
                sequential: options.sequential,
                seed,
            };
            let trace = choose|trace: Trace| #[trigger]
                groups_read(
                    card,
                    how,
                    parts,
                    slots,
                    groups@,
                    start,
                    input_tokens,
                    result,
                    trace,
                );
            assert(read_traced(
                card,
                mode,
                chat,
                old(self).n_ctx,
                *request,
                options,
                image_files(images@),
                capacity,
                trace,
                result,
            ));
            assert(read_known(
                card,
                mode,
                chat,
                old(self).n_ctx,
                *request,
                options,
                image_files(images@),
                capacity,
                result,
            ));
        }
        Ok(result)
    }

    /// Reads group `g` and adds it to the result.
    fn read_next(
        &mut self,
        prompt: &Vec<PromptPart>,
        prepared: &Vec<PreparedSlot>,
        groups: &Vec<Range<usize>>,
        g: usize,
        suffix: &mut Vec<i32>,
        seed: u64,
        options: &ReadOptions,
        result: &mut ReadResult,
        Ghost(was): Ghost<Trace>,
    ) -> (r: Result<Ghost<Trace>>)
        requires
            old(self).ready(),
            options.steps > 0,
            options.samples > 0,
            g < groups@.len(),
            groups_ready(slots_model(prepared@), groups@, old(self).capacity() as nat),
            was.parts == parts_model(prompt@),
            was.slots == slots_model(prepared@),
            was.groups == groups@,
            progress(
                old(self).model.card(),
                old(self).reading(*options, seed),
                was,
                g as int,
                old(suffix)@,
                *old(result),
            ),
        ensures
            final(self).same_setup(*old(self)),
            r matches Err(e) ==> (old(self).model.card().fails)(e@),
            final(result).seed == old(result).seed,
            final(result).output_tokens == old(result).output_tokens,
            r matches Ok(now) ==> {
                &&& now@.parts == was.parts
                &&& now@.slots == was.slots
                &&& now@.groups == was.groups
                &&& now@.input == was.input
                &&& now@.suffixes.len() > 0
                &&& now@.suffixes[0] == was.suffixes[0]
                &&& progress(
                    old(self).model.card(),
                    old(self).reading(*options, seed),
                    now@,
                    g + 1,
                    final(suffix)@,
                    *final(result),
                )
            },
    {
        let ghost card = self.model.card();
        let ghost how = self.reading(*options, seed);
        let from: usize = groups[g].start;
        let to: usize = groups[g].end;
        proof {
            reveal(groups_ready);
            reveal(progress);
            assert(readable(
                was.slots.subrange(groups@[g as int].start as int, groups@[g as int].end as int),
                self.capacity() as nat,
            ));
        }
        let (reads, means, length, canvas): (
            Vec<Vec<SlotRead>>,
            Vec<SlotRead>,
            usize,
            usize,
        ) = self.read_group(prompt, prepared, from, to, suffix, seed, g as u64, options)?;
        let ghost models = read_models(reads@);
        let ghost now = Trace {
            suffixes: was.suffixes.push(suffix@),
            reads: was.reads.push(models),
            ..was
        };
        proof {
            reveal(Trace::follows);
            assert(now.suffixes.drop_last() =~= was.suffixes);
            assert(now.reads.drop_last() =~= was.reads);
            lemma_trace_grows(card, how, was, now, g as int);
        }
        charge(
            result,
            options.samples,
            length,
            canvas,
            Ghost(was.prompt_cost(how, g as nat)),
            Ghost(was.canvas_cost(how, g as nat)),
        );
        let ghost before = slot_models(result.slots@);
        let ghost more_models = slot_models(means@);
        let mut more: Vec<SlotRead> = means;
        result.slots.append(&mut more);
        proof {
            assert(slot_models(result.slots@) =~= before + more_models);
        }
        Ok(Ghost(now))
    }

    /// Reads all groups, one after another.
    fn read_groups(
        &mut self,
        prompt: &Vec<PromptPart>,
        prepared: &Vec<PreparedSlot>,
        lengths: &Vec<usize>,
        groups: &Vec<Range<usize>>,
        start: Vec<i32>,
        seed: u64,
        options: &ReadOptions,
        input_tokens: usize,
        output_tokens: usize,
    ) -> (r: Result<ReadResult>)
        requires
            old(self).ready(),
            options.steps > 0,
            options.samples > 0,
            lengths@ == lengths_of(slots_model(prepared@)),
            packed(lengths@, old(self).capacity() as int, groups@),
            forall|i: int|
                0 <= i < slots_model(prepared@).len() ==> (
                #[trigger] slots_model(prepared@)[i]).candidates.len() > 0,
        ensures
            final(self).same_setup(*old(self)),
            r matches Err(e) ==> (old(self).model.card().fails)(e@),
            r matches Ok(result) ==> {
                let how = Reading {
                    scheme: old(self).scheme,
                    capacity: old(self).capacity() as nat,
                    steps: options.steps as nat,
                    samples: options.samples as nat,
                    sequential: options.sequential,
                    seed,
                };
                &&& result.seed == seed
                &&& result.output_tokens == output_tokens
                &&& exists|trace: Trace| #[trigger]
                    groups_read(
                        old(self).model.card(),
                        how,
                        parts_model(prompt@),
                        slots_model(prepared@),
                        groups@,
                        start@,
                        input_tokens,
                        result,
                        trace,
                    )
            },
    {
        let ghost card = self.model.card();
        let ghost parts = parts_model(prompt@);
        let ghost slots = slots_model(prepared@);
        let ghost capacity = self.capacity();
        let ghost how = Reading {
            scheme: self.scheme,
            capacity: capacity as nat,
            steps: options.steps as nat,
            samples: options.samples as nat,
            sequential: options.sequential,
            seed,
        };
        let ghost first = start@;
        let mut suffix: Vec<i32> = start;
        let ghost mut trace = Trace {
            parts,
            slots,
            groups: groups@,
            suffixes: seq![first],
            reads: Seq::empty(),
            input: input_tokens,
        };
        let mut result: ReadResult = ReadResult {
            slots: Vec::new(),
            prompt_tokens: input_tokens,
            canvas_tokens: 0,
            output_tokens,
            seed,
        };
        proof {
            lemma_groups_readable(slots, capacity, groups@);
            lemma_packed_bounds(lengths@, capacity as int, groups@);
            reveal(groups_ready);
            assert(groups_ready(slots, groups@, capacity as nat));
            assert(slot_models(result.slots@) =~= trace.answers(0));
            reveal(Trace::follows);
            reveal(progress);
            assert(trace.follows(card, how, 0));
        }
        let mut g: usize = 0;
        while g < groups.len()
            invariant
                g <= groups@.len(),
                self.ready(),
                self.same_setup(*old(self)),
                card == old(self).model.card(),
                options.samples > 0,
                options.steps > 0,
                capacity == old(self).capacity(),
                parts == parts_model(prompt@),
                slots == slots_model(prepared@),
                groups_ready(slots, groups@, capacity as nat),
                how == (Reading {
                    scheme: old(self).scheme,
                    capacity: capacity as nat,
                    steps: options.steps as nat,
                    samples: options.samples as nat,
                    sequential: options.sequential,
                    seed,
                }),
                trace.parts == parts,
                trace.slots == slots,
                trace.groups == groups@,
                trace.suffixes.len() > 0,
                trace.suffixes[0] == first,
                trace.input == input_tokens,
                progress(card, how, trace, g as int, suffix@, result),
                result.output_tokens == output_tokens,
                result.seed == seed,
            decreases groups@.len() - g,
        {
            let next: Ghost<Trace> = self.read_next(
                prompt,
                prepared,
                groups,
                g,
                &mut suffix,
                seed,
                options,
                &mut result,
                Ghost(trace),
            )?;
            proof {
                trace = next@;
            }
            g += 1;
        }
        proof {
            reveal(progress);
        }
        proof {
            assert(groups_read(
                card,
                how,
                parts,
                slots,
                groups@,
                first,
                input_tokens,
                result,
                trace,
            ));
        }
        Ok(result)
    }
}

/// Counts the positions and canvas tokens of `samples` samples.
fn charge(
    result: &mut ReadResult,
    samples: u32,
    length: usize,
    canvas: usize,
    Ghost(p): Ghost<nat>,
    Ghost(c): Ghost<nat>,
)
    requires
        old(result).prompt_tokens == clamp(p),
        old(result).canvas_tokens == clamp(c),
    ensures
        final(result).prompt_tokens == clamp((p + samples * length) as nat),
        final(result).canvas_tokens == clamp((c + samples * canvas) as nat),
        final(result).slots == old(result).slots,
        final(result).output_tokens == old(result).output_tokens,
        final(result).seed == old(result).seed,
{
    let mut k: u32 = 0;
    assert(0 * length == 0 && 0 * canvas == 0);
    while k < samples
        invariant
            k <= samples,
            result.prompt_tokens == clamp((p + k * length) as nat),
            result.canvas_tokens == clamp((c + k * canvas) as nat),
            result.slots == old(result).slots,
            result.output_tokens == old(result).output_tokens,
            result.seed == old(result).seed,
        decreases samples - k,
    {
        proof {
            assert((k + 1) * length == k * length + length) by (nonlinear_arith);
            assert((k + 1) * canvas == k * canvas + canvas) by (nonlinear_arith);
            assert(k * length >= 0) by (nonlinear_arith);
            assert(k * canvas >= 0) by (nonlinear_arith);
        }
        result.prompt_tokens = result.prompt_tokens.saturating_add(length);
        result.canvas_tokens = result.canvas_tokens.saturating_add(canvas);
        k += 1;
    }
}

/// One more group leaves what came before as it was.
proof fn lemma_trace_grows(card: Card, how: Reading, was: Trace, now: Trace, g: int)
    requires
        0 <= g < was.groups.len(),
        was.follows(card, how, g),
        now.parts == was.parts,
        now.slots == was.slots,
        now.groups == was.groups,
        now.input == was.input,
        now.suffixes.len() == g + 2,
        now.suffixes.drop_last() == was.suffixes,
        now.reads.len() == g + 1,
        now.reads.drop_last() == was.reads,
        group_read(
            card,
            how,
            was.at(g),
            was.group(g),
            g as nat,
            now.reads.last(),
            now.suffixes.last(),
        ),
    ensures
        now.follows(card, how, g + 1),
        now.answers(g as nat) == was.answers(g as nat),
        now.prompt_cost(how, g as nat) == was.prompt_cost(how, g as nat),
        now.canvas_cost(how, g as nat) == was.canvas_cost(how, g as nat),
        now.suffixes[0] == was.suffixes[0],
        now.reads[g] == now.reads.last(),
        now.at(g) == was.at(g),
{
    reveal(Trace::follows);
    assert forall|x: int| 0 <= x <= g implies #[trigger] now.suffixes[x] == was.suffixes[x] by {
        assert(now.suffixes.drop_last()[x] == now.suffixes[x]);
    }
    assert forall|x: int| 0 <= x < g implies #[trigger] now.reads[x] == was.reads[x] by {
        assert(now.reads.drop_last()[x] == now.reads[x]);
    }
    assert forall|x: int| 0 <= x < g + 1 implies group_read(
        card,
        how,
        now.at(x),
        now.group(x),
        x as nat,
        #[trigger] now.reads[x],
        now.suffixes[x + 1],
    ) by {
        assert(now.group(x) == was.group(x));
        assert(now.suffixes[x] == was.suffixes[x]);
        assert(now.at(x) == was.at(x));
        if x < g {
            assert(now.reads[x] == was.reads[x]);
            assert(now.suffixes[x + 1] == was.suffixes[x + 1]);
            assert(group_read(
                card,
                how,
                was.at(x),
                was.group(x),
                x as nat,
                was.reads[x],
                was.suffixes[x + 1],
            ));
        }
    }
    lemma_trace_same(how, was, now, g as nat);
}

proof fn lemma_trace_same(how: Reading, was: Trace, now: Trace, n: nat)
    requires
        n <= was.reads.len(),
        n <= now.reads.len(),
        n <= was.suffixes.len(),
        n <= now.suffixes.len(),
        now.parts == was.parts,
        now.slots == was.slots,
        now.groups == was.groups,
        now.input == was.input,
        forall|x: int| 0 <= x < n ==> #[trigger] now.suffixes[x] == was.suffixes[x],
        forall|x: int| 0 <= x < n ==> #[trigger] now.reads[x] == was.reads[x],
    ensures
        now.answers(n) == was.answers(n),
        now.prompt_cost(how, n) == was.prompt_cost(how, n),
        now.canvas_cost(how, n) == was.canvas_cost(how, n),
    decreases n,
{
    if n > 0 {
        lemma_trace_same(how, was, now, (n - 1) as nat);
        assert(now.reads[n - 1] == was.reads[n - 1]);
        assert(now.suffixes[n - 1] == was.suffixes[n - 1]);
        assert(now.at(n - 1) == was.at(n - 1));
        assert(now.group(n - 1) == was.group(n - 1));
    }
}

// ---------------------------------------------------------------------------------------------
// Laws
// ---------------------------------------------------------------------------------------------

/// A slot that was read for these candidates.
pub open spec fn answers_slot(read: SlotModel, slot: SlotTokens) -> bool {
    &&& read.candidate_tokens == slot.candidates
    &&& read.probabilities.len() == slot.candidates.len()
}

/// The answers of the first groups are those of the first slots.
pub proof fn lemma_answers_in_order(card: Card, how: Reading, trace: Trace, n: nat)
    requires
        n <= trace.groups.len(),
        how.samples > 0,
        packed(lengths_of(trace.slots), how.capacity as int, trace.groups),
        trace.follows(card, how, trace.groups.len() as int),
    ensures
        trace.answers(n).len() == if n == 0 {
            0
        } else {
            trace.groups[n - 1].end as int
        },
        trace.answers(n).len() <= trace.slots.len(),
        forall|i: int|
            0 <= i < trace.answers(n).len() ==> answers_slot(
                #[trigger] trace.answers(n)[i],
                trace.slots[i],
            ),
    decreases n,
{
    reveal(Trace::follows);
    reveal(group_read);
    lemma_packed_bounds(lengths_of(trace.slots), how.capacity as int, trace.groups);
    if n > 0 {
        let g = n - 1;
        lemma_answers_in_order(card, how, trace, g as nat);
        let before = trace.answers(g as nat);
        let group = trace.group(g);
        let reads = trace.reads[g];
        assert(group_read(card, how, trace.at(g), group, g as nat, reads, trace.suffixes[g + 1]));
        assert(outlined(group, trace.at(g).size(), reads[0]));
        let more = averaged(reads);
        if g > 0 {
            assert(trace.groups[g - 1].end == trace.groups[g - 1 + 1].start);
        }
        assert(before.len() == trace.groups[g].start);
        assert(more.len() == group.len());
        assert forall|i: int| 0 <= i < (before + more).len() implies answers_slot(
            #[trigger] (before + more)[i],
            trace.slots[i],
        ) by {
            if i < before.len() {
                assert((before + more)[i] == before[i]);
            } else {
                let k = i - before.len();
                assert((before + more)[i] == averaged_slot(reads, k));
                let slot = reads[0][k];
                assert(slot.candidate_tokens == group[k].candidates);
                assert(group[k] == trace.slots[i]);
            }
        }
    }
}

/// A read answers every slot of its request, in order: with the tokens of the slot's candidates and
/// a probability for each; and its thought keeps to the budget.
pub proof fn law_reads_answer_every_slot(
    card: Card,
    mode: Mode,
    chat: ChatFormat,
    n_ctx: usize,
    request: ReadRequest,
    options: ReadOptions,
    files: Seq<Seq<u8>>,
    capacity: usize,
    result: ReadResult,
)
    requires
        options.samples > 0,
        read_known(card, mode, chat, n_ctx, request, options, files, capacity, result),
    ensures
        result.slots@.len() == request.slots@.len(),
        forall|i: int|
            0 <= i < result.slots@.len() ==> answers_slot(
                (#[trigger] result.slots@[i])@,
                slots_outcome(card, chat, slot_texts(request.slots@))->Ok_0[i],
            ),
        result.output_tokens <= options.think,
{
    let trace = choose|trace: Trace| #[trigger]
        read_traced(card, mode, chat, n_ctx, request, options, files, capacity, trace, result);
    let how = Reading {
        scheme: mode.scheme,
        capacity: capacity as nat,
        steps: options.steps as nat,
        samples: options.samples as nat,
        sequential: options.sequential,
        seed: result.seed,
    };
    lemma_slots_have_candidates(card, chat, slot_texts(request.slots@));
    lemma_answers_in_order(card, how, trace, trace.groups.len());
    let answers = trace.answers(trace.groups.len());
    assert(lengths_of(trace.slots).len() == trace.slots.len());
    assert(slot_models(result.slots@) == answers);
    assert forall|i: int| 0 <= i < result.slots@.len() implies answers_slot(
        (#[trigger] result.slots@[i])@,
        trace.slots[i],
    ) by {
        assert(slot_models(result.slots@)[i] == result.slots@[i]@);
        assert(answers_slot(answers[i], trace.slots[i]));
    }
}

} // verus!
