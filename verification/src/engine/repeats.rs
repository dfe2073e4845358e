//! Reads of one request again, and in contexts of other sizes.
use crate::engine::board::canvas_length;
use crate::engine::chunks::{
    law_packings_are_unique, lemma_ranges_end, lemma_span_grows, oversized, packed, span,
};
use crate::engine::config::Part;
use crate::engine::engine::{
    law_the_same_request_gets_the_same_text, markers_outcome, thought_fault, thought_from,
    thought_of, Mode, Thought,
};
use crate::engine::framing::{marker, piece_tokens};
use crate::engine::generated::{clamp, Generated};
use crate::engine::model::{Card, ChatFormat, DiffusionScheme};
use crate::engine::read::{
    group_read, group_size, grouped, law_seeds_decide_the_samples, lemma_group_fits,
    lemma_slots_have_candidates, lemma_span_item, lengths_of, longest_canvas, most_padding,
    plan_fault, planned, positions_needed, prompt_outcome, prompted, read_course, read_known,
    read_traced, room_fault, sample_canvas, starts_read, ReadResult, Reading, Trace,
};
use crate::engine::reads::slot_models;
use crate::engine::slots::{
    padded_size, read_fault, slot_texts, slots_outcome, ReadOptions, ReadRequest, SlotTokens,
};
use crate::error::ErrorModel;
use crate::sequences::texts;
use core::ops::Range;
use vstd::prelude::*;

verus! {

/// Without images, there is one prompt.
proof fn lemma_one_prompt(
    card: Card,
    chat: ChatFormat,
    text: Seq<char>,
    prompt: core::result::Result<Seq<Part>, ErrorModel>,
)
    requires
        prompted(card, chat, text, Seq::empty(), prompt),
    ensures
        prompt == prompt_outcome(card, chat, text, Ok(Seq::empty())),
{
}

/// A thought is the same each time.
proof fn lemma_one_start(
    card: Card,
    mode: Mode,
    chat: ChatFormat,
    parts: Seq<Part>,
    think: usize,
    seed: u64,
    a: (Seq<i32>, usize, usize),
    b: (Seq<i32>, usize, usize),
)
    requires
        starts_read(card, mode, chat, parts, think, seed, a.0, a.1, a.2),
        starts_read(card, mode, chat, parts, think, seed, b.0, b.1, b.2),
    ensures
        a == b,
{
    if think > 0 {
        let x = choose|t: Thought|
            #![trigger thought_of(card, mode, chat, parts, think, seed, t)]
            thought_of(card, mode, chat, parts, think, seed, t) && a.0 == t.suffix@ && a.1
                == t.input_tokens && a.2 == t.output_tokens;
        let y = choose|t: Thought|
            #![trigger thought_of(card, mode, chat, parts, think, seed, t)]
            thought_of(card, mode, chat, parts, think, seed, t) && b.0 == t.suffix@ && b.1
                == t.input_tokens && b.2 == t.output_tokens;
        let g = choose|g: Generated| #[trigger]
            thought_from(card, mode, chat, parts, think, seed, x, g);
        let h = choose|g: Generated| #[trigger]
            thought_from(card, mode, chat, parts, think, seed, y, g);
        law_the_same_request_gets_the_same_text(
            card,
            mode,
            parts,
            piece_tokens(card, marker(chat.thought_open@))->Ok_0,
            think,
            markers_outcome(card, texts(chat.thought_stops@))->Ok_0,
            seed,
            g,
            h,
        );
    }
}

/// Courses with the same start read the same in every group.
proof fn lemma_one_course(card: Card, how: Reading, a: Trace, b: Trace, total: int, n: nat)
    requires
        a.follows(card, how, total),
        b.follows(card, how, total),
        n <= total,
        a.parts == b.parts,
        a.slots == b.slots,
        a.groups == b.groups,
        a.suffixes[0] == b.suffixes[0],
        a.input == b.input,
    ensures
        a.suffixes[n as int] == b.suffixes[n as int],
        a.answers(n) == b.answers(n),
        a.prompt_cost(how, n) == b.prompt_cost(how, n),
        a.canvas_cost(how, n) == b.canvas_cost(how, n),
    decreases n,
{
    if n > 0 {
        let g = n - 1;
        lemma_one_course(card, how, a, b, total, g as nat);
        reveal(Trace::follows);
        reveal(group_read);
        assert(a.at(g) == b.at(g));
        assert(a.group(g) == b.group(g));
        let (x, y) = (a.reads[g], b.reads[g]);
        assert(group_read(card, how, a.at(g), a.group(g), g as nat, x, a.suffixes[g + 1]));
        assert(group_read(card, how, b.at(g), b.group(g), g as nat, y, b.suffixes[g + 1]));
        assert forall|s: int| 0 <= s < how.samples implies x[s] == y[s] by {
            law_seeds_decide_the_samples(
                card,
                how,
                a.at(g),
                a.group(g),
                g as nat,
                s as nat,
                x[s],
                y[s],
            );
        }
        assert(x =~= y);
    }
}

/// The same request and seed are answered in the same way, in a context of any size that holds them.
pub proof fn law_the_same_read_gives_the_same_answers(
    card: Card,
    mode: Mode,
    chat: ChatFormat,
    a_ctx: usize,
    b_ctx: usize,
    request: ReadRequest,
    options: ReadOptions,
    capacity: usize,
    a: ReadResult,
    b: ReadResult,
)
    requires
        read_known(card, mode, chat, a_ctx, request, options, Seq::empty(), capacity, a),
        read_known(card, mode, chat, b_ctx, request, options, Seq::empty(), capacity, b),
        a.seed == b.seed,
    ensures
        slot_models(a.slots@) == slot_models(b.slots@),
        a.prompt_tokens == b.prompt_tokens,
        a.canvas_tokens == b.canvas_tokens,
        a.output_tokens == b.output_tokens,
{
    let none = Seq::<Seq<u8>>::empty();
    let x = choose|t: Trace| #[trigger]
        read_traced(card, mode, chat, a_ctx, request, options, none, capacity, t, a);
    let y = choose|t: Trace| #[trigger]
        read_traced(card, mode, chat, b_ctx, request, options, none, capacity, t, b);
    let how = Reading {
        scheme: mode.scheme,
        capacity: capacity as nat,
        steps: options.steps as nat,
        samples: options.samples as nat,
        sequential: options.sequential,
        seed: a.seed,
    };
    lemma_one_prompt(card, chat, request.prompt@, Ok(x.parts));
    lemma_one_prompt(card, chat, request.prompt@, Ok(y.parts));
    law_packings_are_unique(lengths_of(x.slots), capacity as int, x.groups, y.groups);
    lemma_one_start(
        card,
        mode,
        chat,
        x.parts,
        options.think,
        a.seed,
        (x.suffixes[0], x.input, a.output_tokens),
        (y.suffixes[0], y.input, b.output_tokens),
    );
    lemma_one_course(card, how, x, y, x.groups.len() as int, x.groups.len());
}

/// Lengths that fit together fit each.
proof fn lemma_none_oversized(lengths: Seq<usize>, capacity: int)
    requires
        forall|i: int| 0 <= i < lengths.len() ==> (#[trigger] lengths[i]) <= capacity,
    ensures
        oversized(lengths, capacity) is None,
    decreases lengths.len(),
{
    if lengths.len() > 0 {
        lemma_none_oversized(lengths.drop_first(), capacity);
    }
}

/// What a read on one canvas reports is what it needs.
proof fn lemma_one_canvas(
    how: Reading,
    options: ReadOptions,
    capacity: usize,
    t: Trace,
    empty: Seq<i32>,
)
    requires
        capacity < usize::MAX,
        how.capacity == capacity,
        how.samples == 1,
        how.sequential == options.sequential,
        options.think == 0,
        packed(lengths_of(t.slots), capacity as int, t.groups),
        t.slots.len() > 0,
        t.suffixes.len() > 0,
        t.suffixes[0] == empty,
        t.input == 0,
        span(lengths_of(t.slots), 0, t.slots.len() as int) <= capacity,
    ensures
        t.groups.len() == 1,
        oversized(lengths_of(t.slots), capacity as int) is None,
        t.prompt_cost(how, 1) + t.canvas_cost(how, 1) == positions_needed(
            t.parts,
            t.slots,
            t.groups,
            how.scheme,
            capacity as nat,
            options,
            empty,
        ),
{
    let lengths = lengths_of(t.slots);
    let n = lengths.len() as int;
    // All slots are in one group.
    lemma_ranges_end(lengths, capacity as int, t.groups, 0);
    if t.groups.len() > 1 {
        lemma_ranges_end(lengths, capacity as int, t.groups, 1);
        assert(t.groups[0].end == t.groups[0int + 1].start);
        lemma_span_grows(lengths, 0, t.groups[0].end + 1, n);
    }
    assert(t.slots.subrange(0, n) =~= t.slots);
    assert forall|i: int| 0 <= i < n implies #[trigger] lengths[i] <= capacity by {
        lemma_span_item(lengths, 0, n, i);
    }
    lemma_none_oversized(lengths, capacity as int);
    lemma_group_fits(t.slots, 0, n);
    let size = group_size(lengths, t.groups[0]);
    assert(size == canvas_length(t.slots));
    let whole = padded_size(how.scheme, capacity as nat, size);
    assert(longest_canvas(lengths, t.groups, how.scheme, capacity as nat, 0) == 0);
    assert(longest_canvas(lengths, t.groups, how.scheme, capacity as nat, 1) == whole);
    assert(most_padding(lengths, t.groups, how.scheme, capacity as nat, 0) == 0);
    assert(most_padding(lengths, t.groups, how.scheme, capacity as nat, 1) == whole - size);
    assert(sample_canvas(how, t.group(0)) == whole);
    assert(t.canvas_cost(how, 0) == 0 && t.canvas_cost(how, 1) == whole);
    assert(t.prompt_cost(how, 0) == 0 && t.prompt_cost(how, 1) == t.at(0).size());
}

/// Without images, a read that an empty thought follows is refused for its size alone.
proof fn lemma_one_fault(
    card: Card,
    scheme: DiffusionScheme,
    chat: ChatFormat,
    n_ctx: usize,
    request: ReadRequest,
    options: ReadOptions,
    capacity: usize,
    t: Trace,
    fault: Option<ErrorModel>,
)
    requires
        planned(card, scheme, chat, n_ctx, request, options, Seq::empty(), capacity, fault),
        prompted(card, chat, request.prompt@, Seq::empty(), Ok(t.parts)),
        slots_outcome(card, chat, slot_texts(request.slots@)) == Ok::<Seq<SlotTokens>, ErrorModel>(
            t.slots,
        ),
        oversized(lengths_of(t.slots), capacity as int) is None,
        packed(lengths_of(t.slots), capacity as int, t.groups),
        piece_tokens(card, marker(chat.empty_thought@)) is Ok,
    ensures
        fault == room_fault(
            clamp(
                positions_needed(
                    t.parts,
                    t.slots,
                    t.groups,
                    scheme,
                    capacity as nat,
                    options,
                    piece_tokens(card, marker(chat.empty_thought@))->Ok_0,
                ),
            ),
            n_ctx,
        ),
{
    let none = Seq::<Seq<u8>>::empty();
    let (prompt, groups) = choose|
        prompt: core::result::Result<Seq<Part>, ErrorModel>,
        groups: Seq<Range<usize>>,
    |
        fault == #[trigger] plan_fault(
            card,
            scheme,
            chat,
            n_ctx,
            slot_texts(request.slots@),
            options,
            capacity,
            prompt,
            groups,
        ) && prompted(card, chat, request.prompt@, none, prompt) && grouped(
            card,
            chat,
            slot_texts(request.slots@),
            capacity,
            prompt,
            groups,
        );
    lemma_one_prompt(card, chat, request.prompt@, Ok(t.parts));
    lemma_one_prompt(card, chat, request.prompt@, prompt);
    law_packings_are_unique(lengths_of(t.slots), capacity as int, t.groups, groups);
}

/// A read on one canvas, sampled once and without a thought, that a context answered is refused by
/// every context smaller than its prompt and canvas, before any prefill; in a context that holds
/// them it fails only where the model does.
pub proof fn law_room_is_checked_at_the_exact_boundary(
    card: Card,
    mode: Mode,
    chat: ChatFormat,
    first_ctx: usize,
    n_ctx: usize,
    request: ReadRequest,
    options: ReadOptions,
    capacity: usize,
    first: ReadResult,
    error: Option<ErrorModel>,
    idle: bool,
)
    requires
        capacity < usize::MAX,
        options.think == 0,
        options.samples == 1,
        read_fault(request.prompt@, request.slots@.len(), options, 0) is None,
        read_known(card, mode, chat, first_ctx, request, options, Seq::empty(), capacity, first),
        read_course(
            card,
            mode.scheme,
            chat,
            n_ctx,
            request,
            options,
            Seq::empty(),
            capacity,
            error,
            idle,
        ),
        ({
            let lengths = lengths_of(slots_outcome(card, chat, slot_texts(request.slots@))->Ok_0);
            span(lengths, 0, lengths.len() as int) <= capacity
        }),
    ensures
        ({
            let needed = first.prompt_tokens + first.canvas_tokens;
            &&& n_ctx < needed ==> idle && error is Some && error == room_fault(
                needed as usize,
                n_ctx,
            )
            &&& n_ctx >= needed ==> (error is Some ==> (card.fails)(error->Some_0))
        }),
{
    let none = Seq::<Seq<u8>>::empty();
    let t = choose|t: Trace| #[trigger]
        read_traced(card, mode, chat, first_ctx, request, options, none, capacity, t, first);
    let how = Reading {
        scheme: mode.scheme,
        capacity: capacity as nat,
        steps: options.steps as nat,
        samples: options.samples as nat,
        sequential: options.sequential,
        seed: first.seed,
    };
    let empty = piece_tokens(card, marker(chat.empty_thought@))->Ok_0;
    let needed = first.prompt_tokens + first.canvas_tokens;
    lemma_slots_have_candidates(card, chat, slot_texts(request.slots@));
    assert(t.slots.len() == request.slots@.len());
    assert(lengths_of(t.slots).len() == t.slots.len());
    assert(t.suffixes.len() > 0) by {
        reveal(Trace::follows);
    }
    lemma_one_canvas(how, options, capacity, t, empty);
    let fault = choose|fault: Option<ErrorModel>| #[trigger]
        planned(card, mode.scheme, chat, n_ctx, request, options, none, capacity, fault) && (
        match fault {
            Some(e) => error == Some(e) && idle,
            None => error is Some ==> (card.fails)(error->Some_0) || (options.think > 0
                && thought_fault(card, chat, error->Some_0)),
        });
    lemma_one_fault(card, mode.scheme, chat, n_ctx, request, options, capacity, t, fault);
}

} // verus!
