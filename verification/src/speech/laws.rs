//! What words, segments and windows are, by the tokens of the model.
use crate::speech::segments::{cut, ends_from, ends_of, sentence_end};
use crate::speech::transcriber::{
    ids_of, kept_of, logprobs_of, segment_of, shifted, JobModel, Spelling, Windows,
};
use crate::speech::words::{grouped, spaced, trimmed_words, words_of, TokenModel, WordModel};
use crate::text::{lowercase, trim};
use vstd::prelude::*;
use vstd::string::*;

verus! {

// ---------------------------------------------------------------------------------------------
// Words
// ---------------------------------------------------------------------------------------------

/// The piece of a token stands in the text from `from` on, with a space for each mark of a word.
pub open spec fn fills(token: TokenModel, text: Seq<char>, from: int) -> bool {
    &&& 0 <= from && from + token.piece.len() <= text.len()
    &&& forall|k: int|
        0 <= k < token.piece.len() ==> text[from + k] == if #[trigger] token.piece[k]
            == '\u{2581}' {
            ' '
        } else {
            token.piece[k]
        }
}

/// The text is that of the pieces one after another, with a space for each mark of a word: token `i`
/// fills it from `at[i]` to `at[i + 1]`.
pub open spec fn written(tokens: Seq<TokenModel>, text: Seq<char>, at: Seq<int>) -> bool {
    &&& at.len() == tokens.len() + 1
    &&& at[0] == 0
    &&& at[tokens.len() as int] == text.len()
    &&& forall|i: int|
        0 <= i < tokens.len() ==> #[trigger] at[i + 1] == at[i] + tokens[i].piece.len()
    &&& forall|i: int| 0 <= i < tokens.len() ==> fills(#[trigger] tokens[i], text, at[i])
}

/// The tokens make up a group: its first token alone may start a word, and it lasts from the start of
/// its first token to the end of its last.
pub open spec fn is_group(group: WordModel) -> bool {
    let n = group.tokens.len() as int;
    &&& n > 0
    &&& group.start == group.tokens[0].start
    &&& group.end == group.tokens[n - 1].end
    &&& forall|i: int|
        0 < i < n ==> (#[trigger] group.tokens[i]).piece.len() == 0 || group.tokens[i].piece[0]
            != '\u{2581}'
    &&& exists|at: Seq<int>| #[trigger] written(group.tokens, group.text, at)
}

/// The tokens are cut into the groups, in order: every group but the first starts with a mark of a
/// word.
pub open spec fn cut_into(tokens: Seq<TokenModel>, groups: Seq<WordModel>, cuts: Seq<int>) -> bool {
    &&& cuts.len() == groups.len() + 1
    &&& cuts[0] == 0
    &&& cuts[groups.len() as int] == tokens.len()
    &&& forall|g: int|
        0 <= g < groups.len() ==> 0 <= #[trigger] cuts[g] < cuts[g + 1] <= tokens.len()
            && groups[g].tokens == tokens.subrange(cuts[g], cuts[g + 1])
    &&& forall|g: int| 0 <= g < groups.len() ==> is_group(#[trigger] groups[g])
    &&& forall|g: int|
        0 < g < groups.len() ==> tokens[#[trigger] cuts[g]].piece.len() > 0
            && tokens[cuts[g]].piece[0] == '\u{2581}'
}

proof fn lemma_written(
    tokens: Seq<TokenModel>,
    text: Seq<char>,
    at: Seq<int>,
    token: TokenModel,
) -> (after: Seq<int>)
    requires
        written(tokens, text, at),
    ensures
        written(tokens.push(token), text + spaced(token.piece), after),
{
    let n = tokens.len() as int;
    let all = tokens.push(token);
    let whole = text + spaced(token.piece);
    let after = at.push(whole.len() as int);
    assert forall|i: int| 0 <= i < all.len() implies #[trigger] after[i + 1] == after[i]
        + all[i].piece.len() by {
        if i < n {
            assert(at[i + 1] == at[i] + tokens[i].piece.len());
            assert(after[i + 1] == at[i + 1]);
        }
    }
    assert forall|i: int| 0 <= i < all.len() implies fills(#[trigger] all[i], whole, after[i]) by {
        if i < n {
            assert(fills(tokens[i], text, at[i]));
            assert(all[i] == tokens[i]);
        } else {
            assert(after[i] == text.len());
        }
    }
    assert(after[0] == at[0]);
    after
}

proof fn lemma_grouped(tokens: Seq<TokenModel>, n: nat) -> (cuts: Seq<int>)
    requires
        n <= tokens.len(),
    ensures
        cut_into(tokens.take(n as int), grouped(tokens, n), cuts),
    decreases n,
{
    let groups = grouped(tokens, n);
    let some = tokens.take(n as int);
    if n == 0 {
        seq![0int]
    } else {
        let m = n - 1;
        let before = lemma_grouped(tokens, m as nat);
        let old_groups = grouped(tokens, m as nat);
        let rest = tokens.take(m);
        let token = tokens[m];
        assert(some =~= rest.push(token));
        let k = old_groups.len() as int;
        if k > 0 && !(token.piece.len() > 0 && token.piece[0] == '\u{2581}') {
            let cuts = before.update(k, n as int);
            let last = old_groups[k - 1];
            assert(before[k] == m);
            assert(is_group(last));
            assert(before[k - 1] < before[k - 1 + 1]);
            assert(last.tokens == rest.subrange(before[k - 1], before[k - 1 + 1]));
            let at = choose|at: Seq<int>| #[trigger] written(last.tokens, last.text, at);
            let after = lemma_written(last.tokens, last.text, at, token);
            let grown = groups[k - 1];
            assert(grown.tokens == last.tokens.push(token));
            assert(written(grown.tokens, grown.text, after));
            assert(is_group(grown)) by {
                assert forall|i: int| 0 < i < grown.tokens.len() implies (
                #[trigger] grown.tokens[i]).piece.len() == 0 || grown.tokens[i].piece[0]
                    != '\u{2581}' by {
                    if i < last.tokens.len() {
                        assert(grown.tokens[i] == last.tokens[i]);
                    }
                }
            }
            assert forall|g: int| 0 <= g < groups.len() implies 0 <= #[trigger] cuts[g] < cuts[g + 1]
                <= some.len() && groups[g].tokens == some.subrange(cuts[g], cuts[g + 1]) by {
                assert(0 <= before[g] < before[g + 1] <= rest.len());
                if g < k - 1 {
                    assert(groups[g] == old_groups[g]);
                    assert(some.subrange(before[g], before[g + 1]) =~= rest.subrange(
                        before[g],
                        before[g + 1],
                    ));
                } else {
                    assert(some.subrange(cuts[g], cuts[g + 1]) =~= rest.subrange(
                        before[k - 1],
                        m,
                    ).push(token));
                }
            }
            assert forall|g: int| 0 <= g < groups.len() implies is_group(#[trigger] groups[g]) by {
                if g < k - 1 {
                    assert(groups[g] == old_groups[g]);
                }
            }
            assert forall|g: int| 0 < g < groups.len() implies some[#[trigger] cuts[g]].piece.len()
                > 0 && some[cuts[g]].piece[0] == '\u{2581}' by {
                assert(0 <= before[g] < before[g + 1] <= rest.len());
                assert(rest[before[g]] == some[cuts[g]]);
            }
            cuts
        } else {
            let cuts = before.push(n as int);
            let made = groups[k];
            assert(groups == old_groups.push(made));
            let at = lemma_written(
                Seq::<TokenModel>::empty(),
                Seq::<char>::empty(),
                seq![0int],
                token,
            );
            assert(Seq::<TokenModel>::empty().push(token) =~= made.tokens);
            assert(Seq::<char>::empty() + spaced(token.piece) =~= made.text);
            assert(written(made.tokens, made.text, at));
            assert(is_group(made));
            assert forall|g: int| 0 <= g < groups.len() implies 0 <= #[trigger] cuts[g] < cuts[g + 1]
                <= some.len() && groups[g].tokens == some.subrange(cuts[g], cuts[g + 1]) by {
                if g < k {
                    assert(0 <= before[g] < before[g + 1] <= rest.len());
                    assert(groups[g] == old_groups[g]);
                    assert(some.subrange(before[g], before[g + 1]) =~= rest.subrange(
                        before[g],
                        before[g + 1],
                    ));
                } else {
                    assert(some.subrange(cuts[g], cuts[g + 1]) =~= made.tokens);
                }
            }
            assert forall|g: int| 0 <= g < groups.len() implies is_group(#[trigger] groups[g]) by {
                if g < k {
                    assert(groups[g] == old_groups[g]);
                }
            }
            assert forall|g: int| 0 < g < groups.len() implies some[#[trigger] cuts[g]].piece.len()
                > 0 && some[cuts[g]].piece[0] == '\u{2581}' by {
                if g < k {
                    assert(0 <= before[g] < before[g + 1] <= rest.len());
                    assert(rest[before[g]] == some[cuts[g]]);
                }
            }
            assert(cuts[0] == 0);
            cuts
        }
    }
}

/// The words are the groups whose text is not space alone, in order, without the space around their
/// text: word `k` is group `which[k]`.
pub open spec fn picks(groups: Seq<WordModel>, words: Seq<WordModel>, which: Seq<int>) -> bool {
    &&& which.len() == words.len()
    &&& forall|k: int|
        0 <= k < words.len() ==> 0 <= #[trigger] which[k] < groups.len() && words[k] == (WordModel {
            text: trim(groups[which[k]].text),
            ..groups[which[k]]
        })
    &&& forall|j: int, k: int|
        0 <= j < k < which.len() ==> #[trigger] which[j] < #[trigger] which[k]
    &&& forall|g: int|
        0 <= g < groups.len() ==> (trim((#[trigger] groups[g]).text).len() > 0
            <==> which.contains(g))
}

proof fn lemma_picks(groups: Seq<WordModel>, n: nat) -> (which: Seq<int>)
    requires
        n <= groups.len(),
    ensures
        picks(groups.take(n as int), trimmed_words(groups, n), which),
    decreases n,
{
    let some = groups.take(n as int);
    let words = trimmed_words(groups, n);
    if n == 0 {
        Seq::empty()
    } else {
        let m = n - 1;
        let before = lemma_picks(groups, m as nat);
        let rest = groups.take(m);
        let found = trimmed_words(groups, m as nat);
        let kept = trim(groups[m].text).len() > 0;
        let which = if kept {
            before.push(m)
        } else {
            before
        };
        assert forall|k: int| 0 <= k < words.len() implies 0 <= #[trigger] which[k] < some.len()
            && words[k] == (WordModel {
            text: trim(some[which[k]].text),
            ..some[which[k]]
        }) by {
            if k < found.len() {
                assert(0 <= before[k] < rest.len());
                assert(rest[before[k]] == some[before[k]]);
            }
        }
        assert forall|j: int, k: int| 0 <= j < k < which.len() implies #[trigger] which[j]
            < #[trigger] which[k] by {
            assert(which[j] == before[j]);
            assert(0 <= before[j] < rest.len());
            if k < before.len() {
                assert(before[j] < before[k]);
            }
        }
        assert forall|g: int| 0 <= g < some.len() implies (trim((#[trigger] some[g]).text).len() > 0
            <==> which.contains(g)) by {
            if g < m {
                assert(rest[g] == some[g]);
                if before.contains(g) {
                    let k = choose|k: int| 0 <= k < before.len() && before[k] == g;
                    assert(which[k] == g);
                }
                if which.contains(g) {
                    let k = choose|k: int| 0 <= k < which.len() && which[k] == g;
                    assert(before[k] == g);
                }
            } else {
                if kept {
                    assert(which[before.len() as int] == g);
                } else if which.contains(g) {
                    let k = choose|k: int| 0 <= k < which.len() && which[k] == g;
                    assert(0 <= before[k] < rest.len());
                }
            }
        }
        which
    }
}

/// The words of tokens: the tokens are cut before each mark of a word, and what is between two cuts
/// is a word with its text, its tokens and its time, unless it is space alone.
pub proof fn law_words_are_cut_at_their_marks(tokens: Seq<TokenModel>)
    ensures
        exists|groups: Seq<WordModel>, cuts: Seq<int>, which: Seq<int>|
            #![trigger cut_into(tokens, groups, cuts), picks(groups, words_of(tokens), which)]
            cut_into(tokens, groups, cuts) && picks(groups, words_of(tokens), which),
{
    let groups = grouped(tokens, tokens.len());
    let cuts = lemma_grouped(tokens, tokens.len());
    let which = lemma_picks(groups, groups.len());
    assert(tokens.take(tokens.len() as int) =~= tokens);
    assert(groups.take(groups.len() as int) =~= groups);
    assert(cut_into(tokens, groups, cuts));
    assert(picks(groups, words_of(tokens), which));
}

// ---------------------------------------------------------------------------------------------
// Segments
// ---------------------------------------------------------------------------------------------

/// A title or an abbreviation, in lower case and without its last period.
pub open spec fn is_title(stem: Seq<char>) -> bool {
    let titles = seq![
        "mr"@,
        "mrs"@,
        "ms"@,
        "dr"@,
        "prof"@,
        "st"@,
        "jr"@,
        "sr"@,
        "sra"@,
        "srta"@,
        "dra"@,
        "mme"@,
        "mlle"@,
        "hr"@,
        "sig"@,
        "dott"@,
        "vs"@,
        "n\u{ba}"@,
        "e.g"@,
        "i.e"@,
        "z.b"@,
    ];
    exists|i: int| 0 <= i < titles.len() && stem == #[trigger] titles[i]
}

/// A sentence ends with a question or exclamation mark, an ellipsis or an ideographic full stop, or with a
/// period that is not that of a title or an abbreviation, in whatever case.
pub proof fn law_sentences_end_with_their_marks(word: Seq<char>)
    ensures
        sentence_end(word) <==> word.len() > 0 && ({
            let c = word[word.len() - 1];
            let stem = word.take(word.len() - 1);
            c == '?' || c == '!' || c == '\u{2026}' || c == '\u{3002}' || (c == '.' && !is_title(
                lowercase(stem),
            ))
        }),
{
    if word.len() > 0 {
        let s = lowercase(word.take(word.len() - 1));
        assert(word.take(word.len() - 1) =~= word.drop_last());
        let titles = seq![
            "mr"@,
            "mrs"@,
            "ms"@,
            "dr"@,
            "prof"@,
            "st"@,
            "jr"@,
            "sr"@,
            "sra"@,
            "srta"@,
            "dra"@,
            "mme"@,
            "mlle"@,
            "hr"@,
            "sig"@,
            "dott"@,
            "vs"@,
            "n\u{ba}"@,
            "e.g"@,
            "i.e"@,
            "z.b"@,
        ];
        if crate::speech::segments::abbreviation(s) {
            assert(s == titles[0] || s == titles[1] || s == titles[2] || s == titles[3] || s
                == titles[4] || s == titles[5] || s == titles[6] || s == titles[7] || s
                == titles[8] || s == titles[9] || s == titles[10] || s == titles[11] || s
                == titles[12] || s == titles[13] || s == titles[14] || s == titles[15] || s
                == titles[16] || s == titles[17] || s == titles[18] || s == titles[19] || s
                == titles[20]);
        }
    }
}

/// Between two words there are at least 0.8 seconds, or the words from `start` to the second take more
/// than 30 seconds.
pub open spec fn apart(words: Seq<WordModel>, rate: u32, start: int, i: int) -> bool {
    ||| (words[i + 1].start - words[i].end) * 10 >= 8 * rate
    ||| words[i + 1].end - words[start].start > 30 * rate
}

/// The end of segment `k`, or the front of all.
pub open spec fn bound(ends: Seq<usize>, from: int, k: int) -> int {
    if k < 0 {
        from
    } else {
        ends[k] as int
    }
}

/// Word `x` is in segment `k`, and not its last.
pub open spec fn inside(ends: Seq<usize>, k: int, x: int) -> bool {
    0 <= k < ends.len() && bound(ends, 0, k - 1) <= x < ends[k] - 1
}

proof fn lemma_segments(words: Seq<WordModel>, rate: u32, start: nat, i: nat)
    requires
        start <= i <= words.len() <= usize::MAX,
        i == start || i < words.len(),
        forall|x: int| start <= x < i ==> !#[trigger] cut(words, rate, start as int, x),
    ensures
        ({
            let ends = ends_from(words, rate, start, i);
            &&& start < words.len() ==> ends.len() > 0 && ends[ends.len() - 1] == words.len()
            &&& start == words.len() ==> ends.len() == 0
            &&& forall|k: int|
                0 <= k < ends.len() ==> bound(ends, start as int, k - 1) < #[trigger] ends[k]
                    <= words.len()
            &&& forall|k: int, x: int|
                0 <= k < ends.len() && bound(ends, start as int, k - 1) <= x < ends[k] - 1
                    ==> !#[trigger] cut(words, rate, bound(ends, start as int, k - 1), x)
            &&& forall|k: int|
                0 <= k < ends.len() ==> cut(
                    words,
                    rate,
                    bound(ends, start as int, k - 1),
                    #[trigger] ends[k] - 1,
                )
        }),
    decreases words.len() - i,
{
    let ends = ends_from(words, rate, start, i);
    if i < words.len() {
        if cut(words, rate, start as int, i as int) {
            lemma_segments(words, rate, i + 1, i + 1);
            let rest = ends_from(words, rate, i + 1, i + 1);
            assert(ends == seq![(i + 1) as usize] + rest);
            assert forall|k: int| 0 < k < ends.len() implies #[trigger] ends[k] == rest[k - 1]
                && bound(ends, start as int, k - 1) == bound(rest, i as int + 1, k - 2) by {}
            assert forall|k: int| 0 <= k < ends.len() implies bound(ends, start as int, k - 1)
                < #[trigger] ends[k] <= words.len() by {
                if k > 0 {
                    assert(bound(rest, i as int + 1, (k - 1) - 1) < rest[k - 1]);
                }
            }
            assert forall|k: int, x: int|
                0 <= k < ends.len() && bound(ends, start as int, k - 1) <= x < ends[k]
                    - 1 implies !#[trigger] cut(words, rate, bound(ends, start as int, k - 1), x) by {
                if k > 0 {
                    assert(ends[k] == rest[k - 1]);
                    assert(!cut(words, rate, bound(rest, i as int + 1, (k - 1) - 1), x));
                } else {
                    assert(!cut(words, rate, start as int, x));
                }
            }
            assert forall|k: int| 0 <= k < ends.len() implies cut(
                words,
                rate,
                bound(ends, start as int, k - 1),
                #[trigger] ends[k] - 1,
            ) by {
                if k > 0 {
                    assert(cut(words, rate, bound(rest, i as int + 1, (k - 1) - 1), rest[k - 1] - 1));
                }
            }
            if rest.len() > 0 {
                assert(ends[ends.len() - 1] == rest[rest.len() - 1]);
            }
        } else {
            lemma_segments(words, rate, start, i + 1);
        }
    }
}

/// Words are cut into segments after the end of a sentence, before a pause, and before a segment would
/// get too long, and nowhere else; the last segment ends with the last word.
pub proof fn law_segments_end_where_speech_pauses(words: Seq<WordModel>, rate: u32)
    requires
        words.len() <= usize::MAX,
    ensures
        ({
            let ends = ends_of(words, rate);
            &&& words.len() > 0 ==> ends.len() > 0 && ends[ends.len() - 1] == words.len()
            &&& words.len() == 0 ==> ends.len() == 0
            &&& forall|k: int|
                0 <= k < ends.len() ==> bound(ends, 0, k - 1) < #[trigger] ends[k] <= words.len()
            &&& forall|k: int, x: int| #[trigger]
                inside(ends, k, x) ==> !sentence_end(words[x].text) && !apart(
                    words,
                    rate,
                    bound(ends, 0, k - 1),
                    x,
                )
            &&& forall|k: int|
                0 <= k < ends.len() && #[trigger] ends[k] < words.len() ==> sentence_end(
                    words[ends[k] - 1].text,
                ) || apart(words, rate, bound(ends, 0, k - 1), ends[k] - 1)
        }),
{
    let ends = ends_of(words, rate);
    lemma_segments(words, rate, 0, 0);
    assert forall|k: int, x: int| #[trigger] inside(ends, k, x) implies !sentence_end(words[x].text)
        && !apart(words, rate, bound(ends, 0, k - 1), x) by {
        assert(!cut(words, rate, bound(ends, 0, k - 1), x));
    }
    assert forall|k: int| 0 <= k < ends.len() && #[trigger] ends[k] < words.len() implies sentence_end(
        words[ends[k] - 1].text,
    ) || apart(words, rate, bound(ends, 0, k - 1), ends[k] - 1) by {
        assert(cut(words, rate, bound(ends, 0, k - 1), ends[k] - 1));
    }
}

/// A segment is the words that it is made of: from the start of the first to the end of the last, with
/// the ids of all their tokens in order and the text that the model spells of them.
pub proof fn law_segments_span_their_words(spelling: Spelling, id: nat, words: Seq<WordModel>)
    requires
        words.len() > 0,
    ensures
        segment_of(spelling, id, words) matches Ok(segment) ==> {
            &&& segment.id == id
            &&& segment.start == words[0].start
            &&& segment.end == words[words.len() - 1].end
            &&& exists|cuts: Seq<int>| #[trigger]
                lists_tokens(words, segment.tokens, segment.logprobs, cuts)
            &&& spelling(segment.tokens) is Ok && segment.text == trim(
                spelling(segment.tokens)->Ok_0,
            )
        },
{
    let cuts = lemma_lists(words);
    if let Ok(segment) = segment_of(spelling, id, words) {
        assert(lists_tokens(words, segment.tokens, segment.logprobs, cuts));
        assert(segment.tokens == ids_of(words));
        assert(segment.end == words.last().end);
    }
}

/// The ids and log probabilities are those of the tokens of the words: word `i` fills them from
/// `cuts[i]` to `cuts[i + 1]`.
pub open spec fn lists_tokens(
    words: Seq<WordModel>,
    ids: Seq<u32>,
    logprobs: Seq<u32>,
    cuts: Seq<int>,
) -> bool {
    &&& cuts.len() == words.len() + 1
    &&& cuts[0] == 0
    &&& cuts[words.len() as int] == ids.len() && ids.len() == logprobs.len()
    &&& forall|i: int|
        0 <= i < words.len() ==> #[trigger] cuts[i + 1] == cuts[i] + words[i].tokens.len()
    &&& forall|i: int|
        0 <= i < words.len() ==> lists_word(#[trigger] words[i], ids, logprobs, cuts[i])
}

/// The ids and log probabilities from `from` on are those of the tokens of the word.
pub open spec fn lists_word(
    word: WordModel,
    ids: Seq<u32>,
    logprobs: Seq<u32>,
    from: int,
) -> bool {
    let n = word.tokens.len();
    &&& 0 <= from && from + n <= ids.len() && from + n <= logprobs.len()
    &&& forall|k: int| 0 <= k < n ==> ids[from + k] == (#[trigger] word.tokens[k]).id
    &&& forall|k: int| 0 <= k < n ==> logprobs[from + k] == (#[trigger] word.tokens[k]).logprob
}

proof fn lemma_lists(words: Seq<WordModel>) -> (cuts: Seq<int>)
    ensures
        lists_tokens(words, ids_of(words), logprobs_of(words), cuts),
    decreases words.len(),
{
    if words.len() == 0 {
        seq![0int]
    } else {
        let rest = words.drop_last();
        let before = lemma_lists(rest);
        let n = rest.len() as int;
        let ids = ids_of(words);
        let logprobs = logprobs_of(words);
        let cuts = before.push(ids.len() as int);
        assert forall|i: int| 0 <= i < words.len() implies #[trigger] cuts[i + 1] == cuts[i]
            + words[i].tokens.len() by {
            if i < n {
                assert(before[i + 1] == before[i] + rest[i].tokens.len());
                assert(cuts[i + 1] == before[i + 1]);
            }
        }
        assert forall|i: int| 0 <= i < words.len() implies lists_word(
            #[trigger] words[i],
            ids,
            logprobs,
            cuts[i],
        ) by {
            if i < n {
                assert(lists_word(rest[i], ids_of(rest), logprobs_of(rest), before[i]));
                assert(rest[i] == words[i]);
            }
        }
        assert(cuts[0] == before[0]);
        cuts
    }
}

// ---------------------------------------------------------------------------------------------
// Windows
// ---------------------------------------------------------------------------------------------

/// The words that a window adds, of those that it heard: word `k` of them is heard word `which[k]`.
/// Within five seconds of the window's ends words are left to its neighbours, but not at the ends of the
/// recording.
pub open spec fn adds(
    heard: Seq<WordModel>,
    added: Seq<WordModel>,
    rate: u32,
    size: int,
    begin: int,
    last: bool,
    which: Seq<int>,
) -> bool {
    &&& which.len() == added.len()
    &&& forall|k: int|
        0 <= k < added.len() ==> 0 <= #[trigger] which[k] < heard.len() && added[k]
            == heard[which[k]]
    &&& forall|j: int, k: int|
        0 <= j < k < which.len() ==> #[trigger] which[j] < #[trigger] which[k]
    &&& forall|i: int|
        0 <= i < heard.len() ==> (which.contains(i) <==> (begin == 0 || (#[trigger] heard[i]).start
            >= begin + 5 * rate) && (last || heard[i].start < begin + size - 5 * rate))
}

proof fn lemma_adds(
    found: Seq<WordModel>,
    w: Windows,
    begin: nat,
    last: bool,
    n: nat,
) -> (which: Seq<int>)
    requires
        n <= found.len(),
    ensures
        adds(
            found.take(n as int),
            kept_of(found, w, begin, last, n),
            w.rate,
            w.samples as int,
            begin as int,
            last,
            which,
        ),
    decreases n,
{
    let some = found.take(n as int);
    let added = kept_of(found, w, begin, last, n);
    if n == 0 {
        Seq::empty()
    } else {
        let m = n - 1;
        let before = lemma_adds(found, w, begin, last, m as nat);
        let rest = found.take(m);
        let earlier = kept_of(found, w, begin, last, m as nat);
        let keep = w.keeps(begin as int, last, found[m].start as int);
        let which = if keep {
            before.push(m)
        } else {
            before
        };
        assert forall|k: int| 0 <= k < added.len() implies 0 <= #[trigger] which[k] < some.len()
            && added[k] == some[which[k]] by {
            if k < earlier.len() {
                assert(0 <= before[k] < rest.len());
                assert(rest[before[k]] == some[before[k]]);
            }
        }
        assert forall|j: int, k: int| 0 <= j < k < which.len() implies #[trigger] which[j]
            < #[trigger] which[k] by {
            assert(0 <= before[j] < rest.len());
            if k < before.len() {
                assert(before[j] < before[k]);
            }
        }
        assert forall|i: int| 0 <= i < some.len() implies (which.contains(i) <==> (begin == 0 || (
        #[trigger] some[i]).start >= begin + 5 * w.rate) && (last || some[i].start < begin
            + w.samples - 5 * w.rate)) by {
            if i < m {
                assert(rest[i] == some[i]);
                if before.contains(i) {
                    let k = choose|k: int| 0 <= k < before.len() && before[k] == i;
                    assert(which[k] == i);
                }
                if which.contains(i) {
                    let k = choose|k: int| 0 <= k < which.len() && which[k] == i;
                    assert(before[k] == i);
                }
            } else {
                if keep {
                    assert(which[before.len() as int] == i);
                } else if which.contains(i) {
                    let k = choose|k: int| 0 <= k < which.len() && which[k] == i;
                    assert(0 <= before[k] < rest.len());
                }
            }
        }
        which
    }
}

/// A window adds words of its own part of the recording: of the words that the model heard in it, at
/// their times in the whole recording, those that start in that part, in order and after all words
/// kept before.
pub proof fn law_windows_add_the_words_of_their_part(
    job: JobModel,
    w: Windows,
    tokens: Seq<TokenModel>,
    later: Seq<TokenModel>,
)
    requires
        later.len() == tokens.len(),
        forall|i: int|
            0 <= i < tokens.len() ==> #[trigger] later[i] == (TokenModel {
                start: (tokens[i].start + job.begin) as u64,
                end: (tokens[i].end + job.begin) as u64,
                ..tokens[i]
            }),
        forall|i: int|
            0 <= i < tokens.len() ==> (#[trigger] tokens[i]).start + job.begin <= u64::MAX
                && tokens[i].end + job.begin <= u64::MAX,
    ensures
        ({
            let kept = job.kept_after(w, tokens);
            let n = job.kept.len() as int;
            let last = job.begin + w.samples >= job.samples.len();
            &&& n <= kept.len() && kept.take(n) == job.kept
            &&& exists|which: Seq<int>| #[trigger]
                adds(
                    words_of(later),
                    kept.skip(n),
                    w.rate,
                    w.samples as int,
                    job.begin as int,
                    last,
                    which,
                )
        }),
{
    let found = words_of(shifted(tokens, job.begin));
    assert(shifted(tokens, job.begin) =~= later);
    let last = job.begin + w.samples >= job.samples.len();
    let which = lemma_adds(found, w, job.begin, last, found.len());
    let kept = job.kept_after(w, tokens);
    let n = job.kept.len() as int;
    assert(found.take(found.len() as int) =~= found);
    assert(kept.take(n) =~= job.kept);
    assert(kept.skip(n) =~= kept_of(found, w, job.begin, last, found.len()));
}

/// A window is the samples from where the job stands, as many as the model takes or the rest; and the
/// next one starts where its own part ends, with five seconds of it again on each side.
pub proof fn law_windows_overlap_by_their_context(
    job: JobModel,
    w: Windows,
    spelling: Spelling,
    tokens: Seq<TokenModel>,
)
    requires
        job.begin <= job.samples.len(),
        w.valid(),
    ensures
        ({
            let b = job.begin as int;
            let n = job.samples.len() as int;
            let window = job.window(w);
            &&& forall|i: int|
                0 <= i < window.len() ==> #[trigger] window[i] == job.samples[b + i]
            &&& window.len() == if b + w.samples >= n {
                n - b
            } else {
                w.samples as int
            }
            &&& job.after(w, spelling, tokens) matches Ok(after) ==> {
                &&& after.samples == job.samples
                &&& b + w.samples >= n ==> after.done && after.begin == b
                &&& b + w.samples < n ==> after.done == job.done && after.begin == b + w.samples - 10
                    * w.rate
            }
        }),
{
    let kept = job.kept_after(w, tokens);
    crate::speech::transcriber::lemma_closed_samples(job, w, spelling, kept, job.closing(w, kept));
}

} // verus!
