//! What clients of a live session can rely on.
use crate::realtime::agreement::{
    agreed, bare, law_agreed_words_are_the_same_in_both_passes, matching, normal_form, same_word,
    stable,
};
use crate::realtime::live::{
    after_pass, after_segment, completion, joined_words, millis_of, CommittedModel, EventModel,
    LiveModel, TurnModel,
};
use crate::text::{letter_or_digit, lowercase, trim, trim_before, white_space};
use vstd::prelude::*;

verus! {

// ---------------------------------------------------------------------------------------------
// Deltas
// ---------------------------------------------------------------------------------------------

/// The text is the first `n` words with one space between each two: word `k` starts at `starts[k]`.
pub open spec fn spaced_words(
    text: Seq<char>,
    words: Seq<Seq<char>>,
    n: int,
    starts: Seq<int>,
) -> bool {
    &&& starts.len() == n + 1
    &&& starts[0] == 0
    &&& forall|k: int|
        0 <= k < n ==> #[trigger] starts[k + 1] == starts[k] + words[k].len() + 1
    &&& text.len() + 1 == starts[n]
    &&& forall|k: int|
        0 <= k < n ==> 0 <= #[trigger] starts[k] && starts[k] + words[k].len() <= text.len()
            && text.subrange(starts[k], starts[k] + words[k].len()) == words[k]
    &&& forall|k: int| 0 < k < n ==> text[#[trigger] starts[k] - 1] == ' '
}

/// What was sent of a turn is the first `n` words, with one space between each two.
pub open spec fn sent_words(text: Seq<char>, words: Seq<Seq<char>>, n: int) -> bool {
    if n == 0 {
        text.len() == 0
    } else {
        exists|starts: Seq<int>| #[trigger] spaced_words(text, words, n, starts)
    }
}

/// One more word.
proof fn lemma_one_more_word(
    text: Seq<char>,
    words: Seq<Seq<char>>,
    n: int,
) -> (starts: Seq<int>)
    requires
        0 <= n < words.len(),
        sent_words(text, words, n),
    ensures
        n == 0 ==> spaced_words(words[0], words, 1, starts),
        n > 0 ==> spaced_words(text + seq![' '] + words[n], words, n + 1, starts),
{
    if n == 0 {
        let starts = seq![0int, words[0].len() as int + 1];
        assert(words[0].subrange(0, words[0].len() as int) =~= words[0]);
        assert(spaced_words(words[0], words, 1, starts));
        starts
    } else {
        let before = choose|starts: Seq<int>| #[trigger] spaced_words(text, words, n, starts);
        let all = text + seq![' '] + words[n];
        let starts = before.push(all.len() as int + 1);
        assert(before[n] == text.len() + 1);
        assert forall|k: int| 0 <= k < n + 1 implies #[trigger] starts[k + 1] == starts[k]
            + words[k].len() + 1 by {
            if k < n {
                assert(before[k + 1] == before[k] + words[k].len() + 1);
                assert(starts[k + 1] == before[k + 1]);
            }
        }
        assert forall|k: int| 0 <= k < n + 1 implies 0 <= #[trigger] starts[k] && starts[k]
            + words[k].len() <= all.len() && all.subrange(starts[k], starts[k] + words[k].len())
            == words[k] by {
            if k < n {
                assert(0 <= before[k]);
                assert(all.subrange(starts[k], starts[k] + words[k].len()) =~= text.subrange(
                    before[k],
                    before[k] + words[k].len(),
                ));
            } else {
                assert(all.subrange(starts[k], starts[k] + words[k].len()) =~= words[k]);
            }
        }
        assert forall|k: int| 0 < k < n + 1 implies all[#[trigger] starts[k] - 1] == ' ' by {
            if k < n {
                assert(0 <= before[k - 1]);
                assert(before[(k - 1) + 1] == before[k - 1] + words[k - 1].len() + 1);
                assert(0 <= before[k] && before[k] <= text.len());
                assert(text[before[k] - 1] == ' ');
            }
        }
        assert(spaced_words(all, words, n + 1, starts));
        starts
    }
}

/// Words after those that were sent.
proof fn lemma_more_words(text: Seq<char>, words: Seq<Seq<char>>, a: int, n: int)
    requires
        0 <= a < n <= words.len(),
        sent_words(text, words, a),
    ensures
        a == 0 ==> sent_words(joined_words(words, a, n), words, n),
        a > 0 ==> sent_words(text + (seq![' '] + joined_words(words, a, n)), words, n),
    decreases n - a,
{
    if n == a + 1 {
        let starts = lemma_one_more_word(text, words, a);
        if a > 0 {
            assert(text + (seq![' '] + words[a]) =~= text + seq![' '] + words[a]);
        }
    } else {
        lemma_more_words(text, words, a, n - 1);
        let some = joined_words(words, a, n - 1);
        let before = if a == 0 {
            some
        } else {
            text + (seq![' '] + some)
        };
        let starts = lemma_one_more_word(before, words, n - 1);
        let all = joined_words(words, a, n);
        assert(all == some + seq![' '] + words[n - 1]);
        if a > 0 {
            assert(text + (seq![' '] + all) =~= before + seq![' '] + words[n - 1]);
        }
    }
}

/// The deltas of a turn are its words: after a pass that repeats the words sent before it, what was
/// sent for the turn is the words that were agreed on, with one space between each two, in however
/// many deltas they were sent; and a delta is exactly what was added.
pub proof fn law_deltas_are_the_agreed_words(
    live: LiveModel,
    turn: TurnModel,
    words: Seq<Seq<char>>,
)
    requires
        live.turn == Some(turn),
        words.len() <= usize::MAX,
        turn.agreed <= words.len(),
        sent_words(turn.sent, words, turn.agreed as int),
        turn.agreed > 0 ==> turn.sent.len() > 0,
    ensures
        ({
            let (after, told) = after_pass(live, turn.item_id, words);
            let now = after.turn->Some_0;
            &&& after.turn is Some
            &&& now.item_id == turn.item_id && now.start == turn.start
            &&& now.hypothesis == words
            &&& turn.agreed <= now.agreed <= words.len()
            &&& sent_words(now.sent, words, now.agreed as int)
            &&& match told {
                None => now.sent == turn.sent && now.agreed == turn.agreed,
                Some(EventModel::Delta { item_id, delta, from, to }) => item_id == turn.item_id
                    && now.sent == turn.sent + delta && from == turn.agreed && to == now.agreed
                    && from < to,
                Some(_) => false,
            }
        }),
{
    let a = turn.agreed as int;
    let n = agreed(turn.hypothesis, words, turn.agreed as nat) as int;
    law_agreed_words_are_the_same_in_both_passes(turn.hypothesis, words, turn.agreed as nat);
    if n > a {
        lemma_more_words(turn.sent, words, a, n);
        let text = joined_words(words, a, n);
        if a == 0 {
            assert(turn.sent + text =~= text);
        }
    }
}

/// A pass over another turn changes nothing and tells nothing.
pub proof fn law_passes_over_other_turns_are_ignored(
    live: LiveModel,
    item_id: Seq<char>,
    words: Seq<Seq<char>>,
)
    requires
        live.turn is None || live.turn->Some_0.item_id != item_id,
    ensures
        after_pass(live, item_id, words) == (live, None::<EventModel>),
{
}

/// Two passes agree on words as far as they go: beyond those that were sent, up to the first that
/// differs, and never on the last word of the newer pass, which is still being spoken.
pub proof fn law_agreement_reaches_the_first_difference(
    a: Seq<Seq<char>>,
    b: Seq<Seq<char>>,
    sent: nat,
)
    requires
        sent < b.len(),
    ensures
        sent <= agreed(a, b, sent) < b.len(),
        forall|k: int|
            sent <= k < agreed(a, b, sent) ==> normal_form(a[k]) == normal_form(#[trigger] b[k]),
        agreed(a, b, sent) > sent ==> agreed(a, b, sent) <= a.len(),
        agreed(a, b, sent) == b.len() - 1 || agreed(a, b, sent) >= a.len() || normal_form(
            a[agreed(a, b, sent) as int],
        ) != normal_form(b[agreed(a, b, sent) as int]),
{
    lemma_matching_ends(a, b, stable(b.len()), sent);
}

proof fn lemma_matching_ends(a: Seq<Seq<char>>, b: Seq<Seq<char>>, limit: nat, i: nat)
    requires
        limit < b.len(),
        i <= limit,
    ensures
        i + matching(a, b, limit, i) <= limit,
        forall|k: int|
            i <= k < i + matching(a, b, limit, i) ==> normal_form(a[k]) == normal_form(
                #[trigger] b[k],
            ),
        matching(a, b, limit, i) > 0 ==> i + matching(a, b, limit, i) <= a.len(),
        ({
            let n = i + matching(a, b, limit, i);
            n == limit || n >= a.len() || normal_form(a[n as int]) != normal_form(b[n as int])
        }),
    decreases limit - i,
{
    if i < limit && i < a.len() && same_word(a[i as int], b[i as int]) {
        lemma_matching_ends(a, b, limit, i + 1);
    }
}

/// Words are compared by their letters and digits in lower case: what is cut off at both ends holds
/// none, and what is left starts and ends with one.
pub proof fn law_words_are_compared_without_punctuation(word: Seq<char>)
    ensures
        exists|i: int, j: int|
            {
                &&& 0 <= i <= j <= word.len()
                &&& normal_form(word) == lowercase(#[trigger] word.subrange(i, j))
                &&& forall|k: int| 0 <= k < i ==> !letter_or_digit(#[trigger] word[k])
                &&& forall|k: int| j <= k < word.len() ==> !letter_or_digit(#[trigger] word[k])
                &&& i < j ==> letter_or_digit(word[i]) && letter_or_digit(word[j - 1])
            },
{
    let (i, j) = lemma_bare(word, 0, word.len() as int);
    assert(word.subrange(0, word.len() as int) =~= word);
    assert(bare(word) == word.subrange(i, j));
}

proof fn lemma_bare(word: Seq<char>, a: int, b: int) -> (r: (int, int))
    requires
        0 <= a <= b <= word.len(),
    ensures
        a <= r.0 <= r.1 <= b,
        bare(word.subrange(a, b)) == word.subrange(r.0, r.1),
        forall|k: int| a <= k < r.0 ==> !letter_or_digit(#[trigger] word[k]),
        forall|k: int| r.1 <= k < b ==> !letter_or_digit(#[trigger] word[k]),
        r.0 < r.1 ==> letter_or_digit(word[r.0]) && letter_or_digit(word[r.1 - 1]),
    decreases b - a,
{
    let part = word.subrange(a, b);
    if part.len() > 0 && !letter_or_digit(part[0]) {
        assert(part.drop_first() =~= word.subrange(a + 1, b));
        lemma_bare(word, a + 1, b)
    } else if part.len() > 0 && !letter_or_digit(part.last()) {
        assert(part.drop_last() =~= word.subrange(a, b - 1));
        lemma_bare(word, a, b - 1)
    } else {
        if part.len() > 0 {
            assert(part[0] == word[a] && part.last() == word[b - 1]);
        }
        (a, b)
    }
}

/// Segments are sent one after another with a space between them: what was sent is what was sent
/// before, a space where that was anything, and the segment; a turn that sent live deltas sends no
/// segments.
pub proof fn law_segments_follow_with_a_space(live: LiveModel, c: CommittedModel, text: Seq<char>)
    requires
        live.active == Some(c),
    ensures
        ({
            let (after, told) = after_segment(live, text);
            let now = after.active->Some_0;
            &&& after.active is Some
            &&& !c.stream_segments ==> after == live && told is None
            &&& c.stream_segments ==> match told {
                Some(EventModel::Delta { item_id, delta, .. }) => item_id == c.item_id && now.sent
                    == c.sent + delta,
                _ => false,
            }
            &&& c.stream_segments && c.sent.len() == 0 ==> now.sent == text
            &&& c.stream_segments && c.sent.len() > 0 ==> {
                &&& now.sent.len() == c.sent.len() + 1 + text.len()
                &&& now.sent.take(c.sent.len() as int) == c.sent
                &&& now.sent[c.sent.len() as int] == ' '
                &&& now.sent.skip(c.sent.len() as int + 1) == text
            }
        }),
{
    let now = after_segment(live, text).0.active->Some_0;
    if c.stream_segments {
        if c.sent.len() == 0 {
            assert(now.sent =~= text);
        } else {
            assert(now.sent.take(c.sent.len() as int) =~= c.sent);
            assert(now.sent.skip(c.sent.len() as int + 1) =~= text);
        }
    }
}

/// A completed item ends with its whole transcript, under its own id and after the item before it;
/// at most one delta comes before that, of the same item, and only where the transcript goes on from
/// what was sent.
pub proof fn law_items_end_with_their_transcript(c: CommittedModel, text: Seq<char>)
    ensures
        ({
            let told = completion(c, text);
            let n = c.sent.len() as int;
            &&& 1 <= told.len() <= 2
            &&& told.last() == (EventModel::Completed {
                item_id: c.item_id,
                previous: c.previous,
                transcript: text,
            })
            &&& told.len() == 2 ==> match told[0] {
                EventModel::Delta { item_id, delta, .. } => {
                    &&& item_id == c.item_id
                    &&& n <= text.len() && text.take(n) == c.sent
                    &&& n > 0 ==> c.sent + delta == text
                    &&& n == 0 ==> delta.len() > 0 && !white_space(delta[0]) && exists|i: int|
                        0 <= i <= text.len() && delta == #[trigger] text.skip(i) && forall|k: int|
                            0 <= k < i ==> white_space(#[trigger] text[k])
                },
                _ => false,
            }
            &&& told.len() == 1 ==> !(n <= text.len() && text.take(n) == c.sent) || forall|k: int|
                n <= k < text.len() ==> white_space(#[trigger] text[k])
        }),
{
    let n = c.sent.len() as int;
    let rest = text.skip(n);
    if n <= text.len() {
        lemma_trim(rest);
        assert forall|k: int| n <= k < text.len() implies rest[k - n] == #[trigger] text[k] by {}
        if text.take(n) == c.sent {
            assert(c.sent + rest =~= text);
        }
        if n == 0 {
            assert(rest =~= text);
            let i = lemma_trim_before(text, 0);
            assert(text.skip(0) =~= text);
        }
        if trim(rest).len() == 0 {
            assert forall|k: int| n <= k < text.len() implies white_space(#[trigger] text[k]) by {
                assert(white_space(rest[k - n]));
            }
        } else if n == 0 {
            lemma_trim_first(text);
        }
    }
}

proof fn lemma_trim(text: Seq<char>)
    ensures
        trim(text).len() == 0 ==> forall|k: int|
            0 <= k < text.len() ==> white_space(#[trigger] text[k]),
    decreases text.len(),
{
    if text.len() > 0 && white_space(text[0]) {
        let rest = text.drop_first();
        lemma_trim(rest);
        assert forall|k: int| 0 <= k < text.len() && trim(text).len() == 0 implies white_space(
            #[trigger] text[k],
        ) by {
            if k > 0 {
                assert(rest[k - 1] == text[k]);
            }
        }
    } else if text.len() > 0 && white_space(text.last()) {
        let rest = text.drop_last();
        lemma_trim(rest);
        assert forall|k: int| 0 <= k < text.len() && trim(text).len() == 0 implies white_space(
            #[trigger] text[k],
        ) by {
            if k < rest.len() {
                assert(rest[k] == text[k]);
            }
        }
    }
}

proof fn lemma_trim_first(text: Seq<char>)
    requires
        trim(text).len() > 0,
    ensures
        trim_before(text).len() > 0,
        !white_space(trim_before(text)[0]),
    decreases text.len(),
{
    if text.len() > 0 && white_space(text[0]) {
        lemma_trim_first(text.drop_first());
    }
}

proof fn lemma_trim_before(text: Seq<char>, a: int) -> (i: int)
    requires
        0 <= a <= text.len(),
    ensures
        a <= i <= text.len(),
        trim_before(text.skip(a)) == text.skip(i),
        forall|k: int| a <= k < i ==> white_space(#[trigger] text[k]),
    decreases text.len() - a,
{
    let part = text.skip(a);
    if part.len() > 0 && white_space(part[0]) {
        assert(part.drop_first() =~= text.skip(a + 1));
        lemma_trim_before(text, a + 1)
    } else {
        a
    }
}

// ---------------------------------------------------------------------------------------------
// Audio
// ---------------------------------------------------------------------------------------------

/// A committed turn is the buffered audio from where it started to where it ends, and the buffer goes
/// on right after it; live deltas that were sent are kept with it, and then its segments are not sent
/// again.
pub proof fn law_commits_take_the_audio_of_the_turn(live: LiveModel, turn: TurnModel, end: usize)
    requires
        live.sound(),
        turn.start <= end <= live.end(),
        live.buffer_start <= end,
    ensures
        ({
            let after = live.after_commit(turn, end);
            let made = after.committed.last();
            let first = if turn.start > live.buffer_start {
                turn.start as int
            } else {
                live.buffer_start as int
            };
            &&& after.committed.len() == live.committed.len() + 1
            &&& made.item_id == turn.item_id
            &&& made.samples.len() == end - first
            &&& forall|s: int|
                first <= s < end ==> made.samples[s - first] == #[trigger] live.buffer[s
                    - live.buffer_start]
            &&& after.buffer_start == end
            &&& after.buffer.len() == live.end() - end
            &&& forall|s: int|
                end <= s < live.end() ==> after.buffer[s - end] == #[trigger] live.buffer[s
                    - live.buffer_start]
            &&& made.sent == turn.sent
            &&& made.stream_segments <==> turn.sent.len() == 0
            &&& after.turn is None
            &&& after.active == live.active
        }),
{
}

/// Times are whole milliseconds, rounded down.
pub proof fn law_times_are_rounded_down(sample: nat, rate: u32)
    requires
        rate > 0,
        sample * 1000 / (rate as nat) <= u64::MAX,
    ensures
        millis_of(sample, rate) * rate <= sample * 1000,
        sample * 1000 < (millis_of(sample, rate) + 1) * rate,
{
    let (total, per) = (sample as int * 1000, rate as int);
    let ms = total / per;
    vstd::arithmetic::div_mod::lemma_fundamental_div_mod(total, per);
    vstd::arithmetic::div_mod::lemma_mod_bound(total, per);
    assert(ms * per <= total && total < (ms + 1) * per) by (nonlinear_arith)
        requires
            total == per * ms + total % per,
            0 <= total % per < per,
    ;
    assert(millis_of(sample, rate) == ms);
}

} // verus!
