//! What a whole read gives: each slot's answer, and what it was read from.
use crate::double::{law_doubles_are_their_own_nearest, quotient, sum};
use crate::engine::canvases::{law_slots_are_read_at_their_own_rows, reads_noise, Refining};
use crate::engine::chunks::{law_every_question_is_in_one_range, lemma_ranges_end};
use crate::engine::committing::{
    law_masked_slots_are_committed_by_confidence, reads_masks, scores_all, Committing,
};
use crate::engine::config::Part;
use crate::engine::engine::{thought_from, thought_of, Mode, Thought};
use crate::engine::generated::Generated;
use crate::engine::model::{Card, ChatFormat, DiffusionScheme, Resident};
use crate::engine::prompts::spells;
use crate::engine::read::{
    answers_text, best_candidate, group_read, lemma_answers_in_order, lemma_groups_readable,
    lemma_slots_have_candidates, lengths_of, prompted, read_known, read_traced, seed_of, starts_read, ReadResult, Reading, Trace,
};
use crate::engine::reads::{averaged, averaged_slot, running_sum, slot_models, SlotModel};
use crate::engine::sampler::is_best;
use crate::engine::slots::{
    candidates_outcome, slot_reader, slot_texts, slots_outcome, ReadOptions, ReadRequest, SlotText,
    SlotTokens,
};
use crate::error::ErrorModel;
use crate::sequences::lemma_try_map_items;
use crate::text::trim;
use vstd::prelude::*;

verus! {

/// The tokens of a slot: its prefix, and one distinct token for each candidate, in order. Where
/// spaces join words, a space at the end of the prefix moves to the front of the candidates.
pub open spec fn spells_slot(
    card: Card,
    chat: ChatFormat,
    slot: SlotText,
    tokens: SlotTokens,
) -> bool {
    let joins = chat.space_joins_answers;
    let n = slot.prefix.len() as int;
    &&& joins && n > 0 && slot.prefix[n - 1] == ' ' ==> spells(
        card,
        slot.prefix.take(n - 1),
        false,
        false,
        tokens.prefix,
    )
    &&& !joins || n == 0 || slot.prefix[n - 1] != ' ' ==> spells(
        card,
        slot.prefix,
        false,
        false,
        tokens.prefix,
    )
    &&& tokens.candidates.len() == slot.candidates.len()
    &&& slot.candidates.len() > 0
    &&& forall|j: int|
        0 <= j < slot.candidates.len() ==> spells(
            card,
            (if joins {
                seq![' ']
            } else {
                Seq::empty()
            }) + #[trigger] slot.candidates[j],
            false,
            false,
            seq![tokens.candidates[j]],
        )
    &&& forall|j: int, k: int|
        0 <= j < k < tokens.candidates.len() ==> #[trigger] tokens.candidates[j]
            != #[trigger] tokens.candidates[k]
}

proof fn lemma_candidates(card: Card, chat: ChatFormat, candidates: Seq<Seq<char>>)
    ensures
        candidates_outcome(card, chat, candidates) matches Ok(tokens) ==> {
            &&& tokens.len() == candidates.len()
            &&& forall|j: int|
                0 <= j < candidates.len() ==> spells(
                    card,
                    (if chat.space_joins_answers {
                        seq![' ']
                    } else {
                        Seq::empty()
                    }) + #[trigger] candidates[j],
                    false,
                    false,
                    seq![tokens[j]],
                )
            &&& forall|j: int, k: int|
                0 <= j < k < tokens.len() ==> #[trigger] tokens[j] != #[trigger] tokens[k]
        },
    decreases candidates.len(),
{
    if candidates.len() > 0 {
        let rest = candidates.drop_last();
        lemma_candidates(card, chat, rest);
        if let Ok(tokens) = candidates_outcome(card, chat, candidates) {
            let before = candidates_outcome(card, chat, rest)->Ok_0;
            let lead = if chat.space_joins_answers {
                seq![' ']
            } else {
                Seq::empty()
            };
            assert(lead + candidates.last() =~= crate::engine::slots::answer_form(
                chat,
                candidates.last(),
            ));
            let found = (card.tokenize)(lead + candidates.last(), false, false)->Ok_0;
            assert(found =~= seq![tokens.last()]);
            assert forall|j: int| 0 <= j < candidates.len() implies spells(
                card,
                lead + #[trigger] candidates[j],
                false,
                false,
                seq![tokens[j]],
            ) by {
                if j < rest.len() {
                    assert(rest[j] == candidates[j]);
                    assert(before[j] == tokens[j]);
                }
            }
            assert forall|j: int, k: int| 0 <= j < k < tokens.len() implies #[trigger] tokens[j]
                != #[trigger] tokens[k] by {
                assert(tokens[j] == before[j]);
                if k < before.len() {
                    assert(tokens[k] == before[k]);
                }
            }
        }
    }
}

/// Slots are spelled in the tokens of their own prefix and candidates, in the order of the request.
pub proof fn law_slots_are_spelled_as_given(
    card: Card,
    chat: ChatFormat,
    slots: Seq<SlotText>,
)
    ensures
        slots_outcome(card, chat, slots) matches Ok(tokens) ==> tokens.len() == slots.len()
            && forall|i: int|
            0 <= i < slots.len() ==> spells_slot(card, chat, slots[i], #[trigger] tokens[i]),
{
    let f = slot_reader(card, chat);
    lemma_try_map_items(slots, f);
    if let Ok(tokens) = slots_outcome(card, chat, slots) {
        assert forall|i: int| 0 <= i < slots.len() implies spells_slot(
            card,
            chat,
            slots[i],
            #[trigger] tokens[i],
        ) by {
            assert(f(slots[i]) == Ok::<SlotTokens, ErrorModel>(tokens[i]));
            lemma_candidates(card, chat, slots[i].candidates);
            let n = slots[i].prefix.len() as int;
            if n > 0 {
                assert(slots[i].prefix.drop_last() =~= slots[i].prefix.take(n - 1));
            }
        }
    }
}

/// The prompt of a read: the user's turn is opened, any images follow, then the text of the request
/// without the white space around it, in which no marker is parsed, and the model's turn is opened.
pub open spec fn asks(card: Card, chat: ChatFormat, text: Seq<char>, parts: Seq<Part>) -> bool {
    let n = parts.len() as int;
    &&& n >= 3
    &&& parts[0] is Text && spells(card, chat.user_open@, chat.bos, true, parts[0]->Text_0)
    &&& parts[n - 2] is Text && spells(card, trim(text), false, false, parts[n - 2]->Text_0)
    &&& parts[n - 1] is Text && spells(card, chat.model_open@, false, true, parts[n - 1]->Text_0)
}

/// The token is the slot's best candidate, the first of several.
pub open spec fn is_answer(slot: SlotModel, tokens: SlotTokens, token: i32) -> bool {
    exists|b: int| #[trigger]
        is_best(slot.probabilities, b) && token == tokens.candidates[b]
}

/// The text after `start` is what was answered so far: the prefix of each slot, and right after it
/// its best candidate, the first of several. Slot `i` starts at `cuts[i]`.
pub open spec fn retells(
    start: Seq<i32>,
    suffix: Seq<i32>,
    group: Seq<SlotTokens>,
    slots: Seq<SlotModel>,
    n: int,
    cuts: Seq<int>,
) -> bool {
    &&& cuts.len() == n + 1
    &&& cuts[0] == start.len()
    &&& start.len() <= suffix.len() && suffix.take(start.len() as int) == start
    &&& cuts[n] == suffix.len()
    &&& forall|i: int|
        0 <= i < n ==> #[trigger] cuts[i + 1] == cuts[i] + group[i].prefix.len() + 1
    &&& forall|i: int|
        0 <= i < n ==> 0 <= #[trigger] cuts[i] && cuts[i] + group[i].prefix.len() < suffix.len()
            && suffix.subrange(cuts[i], cuts[i] + group[i].prefix.len()) == group[i].prefix
    &&& forall|i: int|
        0 <= i < n ==> is_answer(
            slots[i],
            group[i],
            suffix[#[trigger] cuts[i] + group[i].prefix.len()],
        )
}

/// How a group of slots `from..to` was read after the prompt `at`.
pub open spec fn reads_group(
    card: Card,
    scheme: DiffusionScheme,
    at: Resident,
    group: Seq<SlotTokens>,
    seed: u64,
    steps: nat,
    slots: Seq<SlotModel>,
) -> bool {
    match scheme {
        DiffusionScheme::UniformSelfConditioned { .. } => exists|r: Refining| #[trigger]
            reads_noise(card, at, group, at.size(), seed, steps, slots, r),
        DiffusionScheme::Masked { mask, threshold, .. } => exists|c: Committing| #[trigger]
            reads_masks(card, at, group, mask, threshold, steps, slots, c),
    }
}

/// Slot `q` of a read was answered in a group of neighbours `from..to` after the prompt of the request.
pub open spec fn answered_in(
    card: Card,
    scheme: DiffusionScheme,
    chat: ChatFormat,
    text: Seq<char>,
    options: ReadOptions,
    seed: u64,
    all: Seq<SlotTokens>,
    slots: Seq<SlotModel>,
    start: Seq<i32>,
    from: int,
    to: int,
    index: nat,
    at: Resident,
) -> bool {
    &&& 0 <= from < to <= slots.len()
    &&& from == 0 <==> index == 0
    &&& asks(card, chat, text, at.parts)
    &&& !options.sequential ==> at.suffix == start
    &&& options.sequential ==> exists|cuts: Seq<int>| #[trigger]
        retells(start, at.suffix, all, slots, from, cuts)
    &&& reads_group(
        card,
        scheme,
        at,
        all.subrange(from, to),
        seed_of(seed, index, 0),
        options.steps as nat,
        slots.subrange(from, to),
    )
}

/// One sample is its own average.
proof fn lemma_one_sample(reads: Seq<Seq<SlotModel>>)
    requires
        reads.len() == 1,
    ensures
        averaged(reads) == reads[0],
{
    let mean = averaged(reads);
    assert forall|i: int| 0 <= i < reads[0].len() implies mean[i] == reads[0][i] by {
        let a = averaged_slot(reads, i);
        let p = reads[0][i].probabilities;
        assert forall|j: int| 0 <= j < p.len() implies a.probabilities[j] == p[j] by {
            law_doubles_are_their_own_nearest(p[j]);
        }
        assert(a.probabilities =~= p);
        assert(a =~= reads[0][i]);
    }
    assert(mean =~= reads[0]);
}

proof fn lemma_asks(
    card: Card,
    chat: ChatFormat,
    text: Seq<char>,
    files: Seq<Seq<u8>>,
    parts: Seq<Part>,
)
    requires
        prompted(card, chat, text, files, Ok(parts)),
    ensures
        asks(card, chat, text, parts),
{
}

/// One more group is retold.
proof fn lemma_retells(
    start: Seq<i32>,
    suffix: Seq<i32>,
    all: Seq<SlotTokens>,
    slots: Seq<SlotModel>,
    from: int,
    k: nat,
    cuts: Seq<int>,
) -> (after: Seq<int>)
    requires
        0 <= from <= from + k <= all.len(),
        slots.len() >= from + k,
        retells(start, suffix, all, slots, from, cuts),
        forall|i: int|
            from <= i < from + k ==> (#[trigger] slots[i]).probabilities.len() > 0,
    ensures
        retells(
            start,
            suffix + answers_text(
                all.subrange(from, all.len() as int),
                slots.subrange(from, slots.len() as int),
                k,
            ),
            all,
            slots,
            from + k,
            after,
        ),
    decreases k,
{
    let group = all.subrange(from, all.len() as int);
    let means = slots.subrange(from, slots.len() as int);
    let text = suffix + answers_text(group, means, k);
    if k == 0 {
        assert(text =~= suffix);
        cuts
    } else {
        let m = (k - 1) as nat;
        let before = lemma_retells(start, suffix, all, slots, from, m, cuts);
        let some = suffix + answers_text(group, means, m);
        let i = from + m;
        assert(group[m as int] == all[i] && means[m as int] == slots[i]);
        let b = best_candidate(slots[i]);
        crate::engine::committing::lemma_peak(slots[i].probabilities);
        assert(is_best(slots[i].probabilities, b));
        let more = all[i].prefix.push(all[i].candidates[b]);
        assert(text =~= some + more);
        let after = before.push(text.len() as int);
        assert forall|x: int| 0 <= x < i + 1 implies #[trigger] after[x + 1] == after[x]
            + all[x].prefix.len() + 1 by {
            if x < i {
                assert(before[x + 1] == before[x] + all[x].prefix.len() + 1);
                assert(after[x + 1] == before[x + 1]);
            }
        }
        assert forall|x: int| 0 <= x < i + 1 implies 0 <= #[trigger] after[x] && after[x]
            + all[x].prefix.len() < text.len() && text.subrange(
            after[x],
            after[x] + all[x].prefix.len(),
        ) == all[x].prefix by {
            if x < i {
                assert(0 <= before[x]);
                assert(text.subrange(after[x], after[x] + all[x].prefix.len()) =~= some.subrange(
                    before[x],
                    before[x] + all[x].prefix.len(),
                ));
            } else {
                assert(after[x] == some.len());
                assert(text.subrange(after[x], after[x] + all[x].prefix.len()) =~= all[x].prefix);
            }
        }
        assert forall|x: int| 0 <= x < i + 1 implies is_answer(
            slots[x],
            all[x],
            text[#[trigger] after[x] + all[x].prefix.len()],
        ) by {
            if x < i {
                assert(0 <= before[x]);
                assert(is_answer(slots[x], all[x], some[before[x] + all[x].prefix.len()]));
            } else {
                assert(is_best(slots[x].probabilities, b));
            }
        }
        assert(text.take(start.len() as int) =~= some.take(start.len() as int));
        assert(after[0] == before[0]);
        assert(retells(start, text, all, slots, i + 1, after));
        after
    }
}

/// Answers depend on their own slots alone.
proof fn lemma_same_text(
    a: Seq<SlotTokens>,
    b: Seq<SlotTokens>,
    x: Seq<SlotModel>,
    y: Seq<SlotModel>,
    n: nat,
)
    requires
        n <= a.len() && n <= b.len() && n <= x.len() && n <= y.len(),
        forall|i: int| 0 <= i < n ==> #[trigger] a[i] == b[i],
        forall|i: int| 0 <= i < n ==> #[trigger] x[i] == y[i],
    ensures
        answers_text(a, x, n) == answers_text(b, y, n),
    decreases n,
{
    if n > 0 {
        lemma_same_text(a, b, x, y, (n - 1) as nat);
        assert(a[n - 1] == b[n - 1] && x[n - 1] == y[n - 1]);
    }
}

/// The answers of group `g` stand where its slots do.
proof fn lemma_answers_of_group(card: Card, how: Reading, t: Trace, n: nat, g: int)
    requires
        0 <= g < n <= t.groups.len(),
        how.samples > 0,
        crate::engine::chunks::packed(lengths_of(t.slots), how.capacity as int, t.groups),
        t.follows(card, how, t.groups.len() as int),
    ensures
        t.groups[g].start <= t.groups[g].end <= t.answers(n).len(),
        t.answers(n).subrange(t.groups[g].start as int, t.groups[g].end as int) == averaged(
            t.reads[g],
        ),
    decreases n,
{
    lemma_answers_in_order(card, how, t, n);
    lemma_answers_in_order(card, how, t, (n - 1) as nat);
    let before = t.answers((n - 1) as nat);
    let more = averaged(t.reads[n - 1]);
    assert(t.answers(n) == before + more);
    if n > 1 {
        assert(t.groups[n - 2].end == t.groups[n - 2 + 1].start);
    }
    if g < n - 1 {
        lemma_answers_of_group(card, how, t, (n - 1) as nat, g);
        let (a, b) = (t.groups[g].start as int, t.groups[g].end as int);
        assert(t.answers(n).subrange(a, b) =~= before.subrange(a, b));
    } else {
        let (a, b) = (t.groups[g].start as int, t.groups[g].end as int);
        assert(t.answers(n).subrange(a, b) =~= more);
    }
}

/// The text before group `g` retells the answers before it.
proof fn lemma_retold(card: Card, how: Reading, t: Trace, g: int) -> (cuts: Seq<int>)
    requires
        0 <= g < t.groups.len(),
        how.samples > 0,
        how.sequential,
        crate::engine::chunks::packed(lengths_of(t.slots), how.capacity as int, t.groups),
        t.follows(card, how, t.groups.len() as int),
        forall|i: int| 0 <= i < t.slots.len() ==> (#[trigger] t.slots[i]).candidates.len() > 0,
    ensures
        retells(
            t.suffixes[0],
            t.suffixes[g],
            t.slots,
            t.answers(t.groups.len()),
            t.groups[g].start as int,
            cuts,
        ),
    decreases g,
{
    let slots = t.answers(t.groups.len());
    let start = t.suffixes[0];
    lemma_answers_in_order(card, how, t, t.groups.len());
    if g == 0 {
        let cuts = seq![start.len() as int];
        assert(start.take(start.len() as int) =~= start);
        cuts
    } else {
        let before = lemma_retold(card, how, t, g - 1);
        let (a, b) = (t.groups[g - 1].start as int, t.groups[g - 1].end as int);
        let suffix = t.suffixes[g - 1];
        let group = t.group(g - 1);
        let means = averaged(t.reads[g - 1]);
        assert(t.groups[g - 1].end == t.groups[g - 1 + 1].start);
        lemma_ranges_end(lengths_of(t.slots), how.capacity as int, t.groups, g - 1);
        lemma_answers_of_group(card, how, t, t.groups.len(), g - 1);
        assert(group_read(
            card,
            how,
            t.at(g - 1),
            group,
            (g - 1) as nat,
            t.reads[g - 1],
            t.suffixes[g - 1 + 1],
        )) by {
            reveal(Trace::follows);
        }
        reveal(group_read);
        let k = group.len();
        assert(k == b - a);
        assert(t.suffixes[g] == suffix + answers_text(group, means, k));
        assert forall|i: int| a <= i < a + k implies (#[trigger] slots[i]).probabilities.len() > 0 by {
            assert(crate::engine::read::answers_slot(slots[i], t.slots[i]));
        }
        let after = lemma_retells(start, suffix, t.slots, slots, a, k, before);
        let tail = t.slots.subrange(a, t.slots.len() as int);
        let rest = slots.subrange(a, slots.len() as int);
        assert forall|i: int| 0 <= i < k implies #[trigger] means[i] == rest[i] by {
            assert(slots.subrange(a, b)[i] == slots[a + i]);
        }
        assert forall|i: int| 0 <= i < k implies #[trigger] group[i] == tail[i] by {}
        lemma_same_text(group, tail, means, rest, k);
        after
    }
}

/// What follows the prompt before the first group: a closed empty thought; or the thought that was
/// asked for, opened and closed, of at most so many tokens.
pub open spec fn opens_read(card: Card, chat: ChatFormat, think: usize, start: Seq<i32>) -> bool {
    if think == 0 {
        spells(card, chat.empty_thought@, false, true, start)
    } else {
        exists|a: int, b: int|
            0 <= a <= b <= start.len() && b - a <= think && spells(
                card,
                chat.thought_open@,
                false,
                true,
                #[trigger] start.take(a),
            ) && spells(card, chat.thought_close@, false, true, #[trigger] start.skip(b))
    }
}

/// A read that is sampled once answers every slot of its request: in a group of neighbours, on one
/// canvas after the prompt of the request, each slot after its own prefix; and its probabilities are
/// the model's scores of its own candidates at its own place. In sequence, later groups see the
/// answers of earlier ones.
pub proof fn law_answers_are_read_at_their_own_rows(
    card: Card,
    mode: Mode,
    chat: ChatFormat,
    n_ctx: usize,
    request: ReadRequest,
    options: ReadOptions,
    files: Seq<Seq<u8>>,
    capacity: usize,
    result: ReadResult,
)
    requires
        read_known(card, mode, chat, n_ctx, request, options, files, capacity, result),
        options.samples == 1,
        options.steps > 0,
        capacity < usize::MAX,
        mode.scheme is Masked ==> mode.scheme->block > 0 && scores_all(card),
    ensures
        ({
            let all = slots_outcome(card, chat, slot_texts(request.slots@))->Ok_0;
            let slots = slot_models(result.slots@);
            &&& slots_outcome(card, chat, slot_texts(request.slots@)) is Ok
            &&& slots.len() == request.slots@.len()
            &&& exists|start: Seq<i32>| #[trigger]
                opens_read(card, chat, options.think, start) && forall|q: int|
                    0 <= q < slots.len() ==> answered_slot(
                        card,
                        mode.scheme,
                        chat,
                        request.prompt@,
                        options,
                        result.seed,
                        all,
                        slots,
                        start,
                        q,
                    )
        }),
{
    let t = choose|t: Trace| #[trigger]
        read_traced(card, mode, chat, n_ctx, request, options, files, capacity, t, result);
    let how = Reading {
        scheme: mode.scheme,
        capacity: capacity as nat,
        steps: options.steps as nat,
        samples: options.samples as nat,
        sequential: options.sequential,
        seed: result.seed,
    };
    let n = t.groups.len();
    let slots = slot_models(result.slots@);
    let start = t.suffixes[0];
    let text = request.prompt@;
    lemma_slots_have_candidates(card, chat, slot_texts(request.slots@));
    lemma_answers_in_order(card, how, t, n);
    lemma_asks(card, chat, text, files, t.parts);
    lemma_groups_readable(t.slots, capacity, t.groups);
    assert(lengths_of(t.slots).len() == t.slots.len());
    lemma_opens(card, mode, chat, t.parts, options.think, result.seed, start, t.input, result.output_tokens);
    assert forall|q: int| 0 <= q < slots.len() implies answered_slot(
        card,
        mode.scheme,
        chat,
        text,
        options,
        result.seed,
        t.slots,
        slots,
        start,
        q,
    ) by {
        law_every_question_is_in_one_range(lengths_of(t.slots), capacity as int, t.groups, q);
        let g = choose|g: int|
            0 <= g < n && (#[trigger] t.groups[g]).start <= q < t.groups[g].end;
        let (from, to) = (t.groups[g].start as int, t.groups[g].end as int);
        lemma_ranges_end(lengths_of(t.slots), capacity as int, t.groups, g);
        lemma_answers_of_group(card, how, t, n, g);
        let group = t.group(g);
        let at = t.at(g);
        let reads = t.reads[g];
        assert(group_read(card, how, at, group, g as nat, reads, t.suffixes[g + 1])) by {
            reveal(Trace::follows);
        }
        reveal(group_read);
        lemma_one_sample(reads);
        assert(slots.subrange(from, to) == reads[0]);
        assert(crate::engine::read::sampled(card, how, at, group, g as nat, 0, reads[0]));
        let seed = seed_of(result.seed, g as nat, 0);
        if from == 0 && g > 0 {
            assert(t.groups[g - 1].end == t.groups[g - 1 + 1].start);
        }
        match mode.scheme {
            DiffusionScheme::UniformSelfConditioned { .. } => {
                law_slots_are_read_at_their_own_rows(
                    card,
                    at,
                    group,
                    at.size(),
                    seed,
                    how.steps,
                );
            },
            DiffusionScheme::Masked { threshold, .. } => {
                law_masked_slots_are_committed_by_confidence(
                    card,
                    at,
                    group,
                    mode.scheme,
                    how.capacity,
                    threshold,
                    how.steps,
                );
            },
        }
        if options.sequential {
            let cuts = lemma_retold(card, how, t, g);
        } else {
            lemma_same_suffix(card, how, t, g);
        }
        assert(answered_in(
            card,
            mode.scheme,
            chat,
            text,
            options,
            result.seed,
            t.slots,
            slots,
            start,
            from,
            to,
            g as nat,
            at,
        ));
    }
}

/// Slot `q` of a read was answered in some group, the `index`-th, after some prompt.
pub open spec fn answered_slot(
    card: Card,
    scheme: DiffusionScheme,
    chat: ChatFormat,
    text: Seq<char>,
    options: ReadOptions,
    seed: u64,
    all: Seq<SlotTokens>,
    slots: Seq<SlotModel>,
    start: Seq<i32>,
    q: int,
) -> bool {
    exists|from: int, to: int, index: nat, at: Resident|
        from <= q < to && #[trigger] answered_in(
            card,
            scheme,
            chat,
            text,
            options,
            seed,
            all,
            slots,
            start,
            from,
            to,
            index,
            at,
        )
}

/// Out of sequence, every group follows the same text.
proof fn lemma_same_suffix(card: Card, how: Reading, t: Trace, g: int)
    requires
        0 <= g <= t.groups.len(),
        !how.sequential,
        t.follows(card, how, t.groups.len() as int),
    ensures
        t.suffixes[g] == t.suffixes[0],
    decreases g,
{
    if g > 0 {
        lemma_same_suffix(card, how, t, g - 1);
        assert(group_read(
            card,
            how,
            t.at(g - 1),
            t.group(g - 1),
            (g - 1) as nat,
            t.reads[g - 1],
            t.suffixes[g - 1 + 1],
        )) by {
            reveal(Trace::follows);
        }
        reveal(group_read);
    }
}

proof fn lemma_opens(
    card: Card,
    mode: Mode,
    chat: ChatFormat,
    parts: Seq<Part>,
    think: usize,
    seed: u64,
    start: Seq<i32>,
    input: usize,
    output: usize,
)
    requires
        starts_read(card, mode, chat, parts, think, seed, start, input, output),
    ensures
        opens_read(card, chat, think, start),
{
    if think > 0 {
        let x = choose|x: Thought|
            #![trigger thought_of(card, mode, chat, parts, think, seed, x)]
            thought_of(card, mode, chat, parts, think, seed, x) && start == x.suffix@ && input
                == x.input_tokens && output == x.output_tokens;
        let g = choose|g: Generated| #[trigger]
            thought_from(card, mode, chat, parts, think, seed, x, g);
        let open = (card.tokenize)(chat.thought_open@, false, true)->Ok_0;
        let close = (card.tokenize)(chat.thought_close@, false, true)->Ok_0;
        let (a, b) = (open.len() as int, (open.len() + g.tokens@.len()) as int);
        assert(start.take(a) =~= open);
        assert(start.skip(b) =~= close);
        assert(g.tokens@.len() <= think);
    }
}

// ---------------------------------------------------------------------------------------------
// Samples
// ---------------------------------------------------------------------------------------------

/// Samples of one read get seeds of their own, and so do its groups; the first of the first group
/// gets the seed of the read.
pub proof fn law_samples_have_their_own_seeds(seed: u64, group: nat, a: nat, b: nat)
    requires
        a < 0x1_0000_0000,
        b < 0x1_0000_0000,
        a != b,
    ensures
        seed_of(seed, 0, 0) == seed,
        seed_of(seed, group, a) != seed_of(seed, group, b),
        seed_of(seed, a, group) != seed_of(seed, b, group),
{
    let w: int = 0x1_0000_0000_0000_0000;
    lemma_distinct(seed + 104729 * group, 7919 * a as int, 7919 * b as int, w);
    lemma_distinct(seed + 7919 * group, 104729 * a as int, 104729 * b as int, w);
}

proof fn lemma_distinct(base: int, x: int, y: int, w: int)
    requires
        0 <= x < w,
        0 <= y < w,
        x != y,
    ensures
        (base + x) % w != (base + y) % w,
{
    if (base + x) % w == (base + y) % w {
        vstd::arithmetic::div_mod::lemma_fundamental_div_mod(base + x, w);
        vstd::arithmetic::div_mod::lemma_fundamental_div_mod(base + y, w);
        let (p, q) = ((base + x) / w, (base + y) / w);
        assert(x - y == w * (p - q)) by (nonlinear_arith)
            requires
                base + x == w * p + (base + x) % w,
                base + y == w * q + (base + y) % w,
                (base + x) % w == (base + y) % w,
        ;
        assert(p == q) by (nonlinear_arith)
            requires
                x - y == w * (p - q),
                -w < x - y < w,
                w > 0,
        ;
        assert(w * (p - q) == 0) by (nonlinear_arith)
            requires
                p == q,
        ;
    }
}

proof fn lemma_only_sample(reads: Seq<Seq<SlotModel>>, i: int, j: int, s: int, n: nat)
    requires
        0 <= s < reads.len(),
        0 < n <= reads.len(),
        forall|t: int|
            0 <= t < reads.len() && t != s ==> (#[trigger] reads[t])[i].probabilities[j] == 0,
    ensures
        running_sum(reads, i, j, n) == if s < n {
            reads[s][i].probabilities[j]
        } else {
            0
        },
    decreases n,
{
    let p = reads[s][i].probabilities[j];
    if n > 1 {
        lemma_only_sample(reads, i, j, s, (n - 1) as nat);
        law_doubles_are_their_own_nearest(p);
        law_doubles_are_their_own_nearest(0);
        assert(reads[n - 1][i].probabilities[j] == if s == n - 1 {
            p
        } else {
            0
        });
        assert(sum(0, p) == sum(p, 0));
    } else {
        assert(reads[0][i].probabilities[j] == if s == 0 {
            p
        } else {
            0
        });
    }
}

/// Every sample counts alike: where all samples but one give a candidate no probability, its mean is
/// that one's divided by their number, whichever it is. The slot stays the one that was sampled.
pub proof fn law_every_sample_counts_alike(
    reads: Seq<Seq<SlotModel>>,
    i: int,
    j: int,
    s: int,
)
    requires
        0 <= s < reads.len(),
        0 <= i < reads[0].len(),
        0 <= j < reads[0][i].probabilities.len(),
        forall|t: int|
            0 <= t < reads.len() && t != s ==> (#[trigger] reads[t])[i].probabilities[j] == 0,
    ensures
        averaged(reads).len() == reads[0].len(),
        averaged(reads)[i].probabilities[j] == quotient(
            reads[s][i].probabilities[j],
            reads.len(),
        ),
        averaged(reads)[i].canvas_position == reads[0][i].canvas_position,
        averaged(reads)[i].candidate_tokens == reads[0][i].candidate_tokens,
        averaged(reads)[i].probabilities.len() == reads[0][i].probabilities.len(),
        reads.len() > 1 ==> averaged(reads)[i].logits.len() == 0,
{
    lemma_only_sample(reads, i, j, s, reads.len());
}

} // verus!
