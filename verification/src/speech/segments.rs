//! Where words are cut into segments.
use crate::speech::words::{word_models, Word, WordModel};
use crate::text::{characters, lowercase, lowered, same_text, string_of};
use vstd::prelude::*;
use vstd::string::*;

verus! {

/// Titles and abbreviations whose period does not end a sentence (English, Spanish, French,
/// German, Italian, Portuguese).
pub open spec fn abbreviation(stem: Seq<char>) -> bool {
    ||| stem == "mr"@
    ||| stem == "mrs"@
    ||| stem == "ms"@
    ||| stem == "dr"@
    ||| stem == "prof"@
    ||| stem == "st"@
    ||| stem == "jr"@
    ||| stem == "sr"@
    ||| stem == "sra"@
    ||| stem == "srta"@
    ||| stem == "dra"@
    ||| stem == "mme"@
    ||| stem == "mlle"@
    ||| stem == "hr"@
    ||| stem == "sig"@
    ||| stem == "dott"@
    ||| stem == "vs"@
    ||| stem == "n\u{ba}"@
    ||| stem == "e.g"@
    ||| stem == "i.e"@
    ||| stem == "z.b"@
}

fn is_abbreviation(stem: &str) -> (r: bool)
    ensures
        r == abbreviation(stem@),
{
    same_text(stem, "mr") || same_text(stem, "mrs") || same_text(stem, "ms") || same_text(
        stem,
        "dr",
    ) || same_text(stem, "prof") || same_text(stem, "st") || same_text(stem, "jr") || same_text(
        stem,
        "sr",
    ) || same_text(stem, "sra") || same_text(stem, "srta") || same_text(stem, "dra") || same_text(
        stem,
        "mme",
    ) || same_text(stem, "mlle") || same_text(stem, "hr") || same_text(stem, "sig") || same_text(
        stem,
        "dott",
    ) || same_text(stem, "vs") || same_text(stem, "n\u{ba}") || same_text(stem, "e.g") || same_text(
        stem,
        "i.e",
    ) || same_text(stem, "z.b")
}

/// A mark that always ends a sentence.
pub open spec fn final_mark(c: char) -> bool {
    c == '?' || c == '!' || c == '\u{2026}' || c == '\u{3002}'
}

/// The word ends a sentence: with a mark, or with a period that is not an abbreviation's.
pub open spec fn sentence_end(word: Seq<char>) -> bool {
    if word.len() == 0 {
        false
    } else {
        final_mark(word.last()) || (word.last() == '.' && !abbreviation(
            lowercase(word.drop_last()),
        ))
    }
}

pub fn ends_sentence(word: &str) -> (r: bool)
    ensures
        r == sentence_end(word@),
{
    let chars: Vec<char> = characters(word);
    let n: usize = chars.len();
    if n == 0 {
        return false;
    }
    let last: char = chars[n - 1];
    if last == '?' || last == '!' || last == '\u{2026}' || last == '\u{3002}' {
        return true;
    }
    if last != '.' {
        return false;
    }
    let stem: String = string_of(&chars, 0, n - 1);
    assert(chars@.subrange(0, n - 1) =~= word@.drop_last());
    !is_abbreviation(lowered(stem.as_str()).as_str())
}

/// A pause of at least 0.8 seconds between the samples `a` and `b`.
pub open spec fn is_pause(a: u64, b: u64, rate: u32) -> bool {
    (b - a) * 5 >= 4 * rate
}

/// More than 30 seconds between the samples `a` and `b`.
pub open spec fn is_long(a: u64, b: u64, rate: u32) -> bool {
    b - a > 30 * rate
}

/// A segment from word `start` on ends after word `i`: the last one, the end of a sentence, one
/// before a pause, or one before the segment would be too long.
pub open spec fn cut(words: Seq<WordModel>, rate: u32, start: int, i: int) -> bool {
    ||| i + 1 >= words.len()
    ||| sentence_end(words[i].text)
    ||| is_pause(words[i].end, words[i + 1].start, rate)
    ||| is_long(words[start].start, words[i + 1].end, rate)
}

/// The ends of the segments of `words[start..]`, where no cut is after `words[start..i]`.
pub open spec fn ends_from(words: Seq<WordModel>, rate: u32, start: nat, i: nat) -> Seq<usize>
    decreases words.len() - i,
{
    if i >= words.len() {
        Seq::empty()
    } else if cut(words, rate, start as int, i as int) {
        seq![(i + 1) as usize] + ends_from(words, rate, i + 1, i + 1)
    } else {
        ends_from(words, rate, start, i + 1)
    }
}

/// The end of each segment of words.
pub open spec fn ends_of(words: Seq<WordModel>, rate: u32) -> Seq<usize> {
    ends_from(words, rate, 0, 0)
}

/// Where to cut `words[from..]` into segments. Returns the end index of each segment, counted
/// from `from`.
pub fn segment_ends(words: &Vec<Word>, from: usize, rate: u32) -> (r: Vec<usize>)
    requires
        from <= words@.len(),
    ensures
        r@ == ends_of(word_models(words@).skip(from as int), rate),
{
    let ghost all = word_models(words@).skip(from as int);
    let size: usize = words.len();
    let n: usize = size - from;
    let mut ends: Vec<usize> = Vec::new();
    let mut start: usize = 0;
    let mut i: usize = 0;
    assert(ends@ + ends_from(all, rate, 0, 0) =~= ends_of(all, rate));
    while i < n
        invariant
            from <= words@.len(),
            size == words@.len(),
            n == size - from,
            all == word_models(words@).skip(from as int),
            start <= i <= n,
            ends@ + ends_from(all, rate, start as nat, i as nat) == ends_of(all, rate),
        decreases n - i,
    {
        assert(all[i as int] == words@[from + i]@);
        assert(all[start as int] == words@[from + start]@);
        let mut ending: bool = i + 1 >= n || ends_sentence(words[from + i].text.as_str());
        if !ending {
            assert(all[i + 1] == words@[from + i + 1]@);
            let next_start: i128 = words[from + i + 1].start as i128;
            let next_end: i128 = words[from + i + 1].end as i128;
            let here: i128 = words[from + i].end as i128;
            let first: i128 = words[from + start].start as i128;
            let pause: bool = (next_start - here) * 5 >= 4 * rate as i128;
            let long: bool = next_end - first > 30 * rate as i128;
            ending = pause || long;
        }
        assert(ending == cut(all, rate, start as int, i as int));
        if ending {
            proof {
                let rest = ends_from(all, rate, (i + 1) as nat, (i + 1) as nat);
                assert(ends@ + (seq![(i + 1) as usize] + rest) =~= ends@.push((i + 1) as usize)
                    + rest);
            }
            ends.push(i + 1);
            start = i + 1;
        }
        i += 1;
    }
    assert(ends@ =~= ends_of(all, rate));
    ends
}

// ---------------------------------------------------------------------------------------------
// Laws
// ---------------------------------------------------------------------------------------------

/// Ends that grow from more than `from` up to `to`.
pub open spec fn partition(ends: Seq<usize>, from: nat, to: nat) -> bool {
    &&& ends.len() == 0 ==> from == to
    &&& ends.len() > 0 ==> from < ends[0] && ends.last() == to
    &&& forall|i: int, j: int|
        0 <= i < j < ends.len() ==> (#[trigger] ends[i]) < (#[trigger] ends[j])
}

proof fn lemma_partition(words: Seq<WordModel>, rate: u32, start: nat, i: nat)
    requires
        start <= i <= words.len() <= usize::MAX,
        i < words.len() || start == i,
    ensures
        partition(ends_from(words, rate, start, i), start, words.len()),
        forall|k: int|
            0 <= k < ends_from(words, rate, start, i).len() ==> i < (#[trigger] ends_from(
                words,
                rate,
                start,
                i,
            )[k]) <= words.len(),
    decreases words.len() - i,
{
    if i < words.len() {
        let all = ends_from(words, rate, start, i);
        if cut(words, rate, start as int, i as int) {
            lemma_partition(words, rate, i + 1, i + 1);
            let rest = ends_from(words, rate, i + 1, i + 1);
            assert(all == seq![(i + 1) as usize] + rest);
            assert forall|k: int| 0 <= k < all.len() implies i < (#[trigger] all[k])
                <= words.len() by {
                if k > 0 {
                    assert(all[k] == rest[k - 1]);
                }
            }
            assert forall|a: int, b: int| 0 <= a < b < all.len() implies (#[trigger] all[a]) < (
            #[trigger] all[b]) by {
                assert(all[b] == rest[b - 1]);
                if a > 0 {
                    assert(all[a] == rest[a - 1]);
                }
            }
            if rest.len() > 0 {
                assert(all.last() == rest.last());
            }
        } else {
            lemma_partition(words, rate, start, i + 1);
        }
    }
}

/// Segments take every word once and in order: their ends grow up to the number of words.
pub proof fn law_segments_partition_the_words(words: Seq<WordModel>, rate: u32)
    requires
        words.len() <= usize::MAX,
    ensures
        partition(ends_of(words, rate), 0, words.len()),
{
    lemma_partition(words, rate, 0, 0);
}

proof fn lemma_extends(
    words: Seq<WordModel>,
    more: Seq<WordModel>,
    rate: u32,
    start: nat,
    i: nat,
)
    requires
        start <= i < words.len(),
    ensures
        ends_from(words, rate, start, i).len() > 0,
        ends_from(words, rate, start, i).drop_last().is_prefix_of(
            ends_from(words + more, rate, start, i),
        ),
    decreases words.len() - i,
{
    let all = words + more;
    let a = ends_from(words, rate, start, i);
    let b = ends_from(all, rate, start, i);
    if i + 1 < words.len() {
        assert(all[i as int] == words[i as int]);
        assert(all[i as int + 1] == words[i as int + 1]);
        assert(all[start as int] == words[start as int]);
        assert(cut(words, rate, start as int, i as int) == cut(all, rate, start as int, i as int));
        if cut(words, rate, start as int, i as int) {
            lemma_extends(words, more, rate, i + 1, i + 1);
            let ra = ends_from(words, rate, i + 1, i + 1);
            let rb = ends_from(all, rate, i + 1, i + 1);
            let one = seq![(i + 1) as usize];
            assert(a == one + ra && b == one + rb);
            assert(a.drop_last() =~= one + ra.drop_last());
            assert(b.take(a.drop_last().len() as int) =~= one + rb.take(
                ra.drop_last().len() as int,
            ));
        } else {
            lemma_extends(words, more, rate, start, i + 1);
        }
    } else {
        assert(cut(words, rate, start as int, i as int));
        assert(ends_from(words, rate, i + 1, i + 1).len() == 0);
        assert(a =~= seq![(i + 1) as usize]);
        assert(a.drop_last() =~= Seq::empty());
        assert(b.take(0) =~= Seq::empty());
    }
}

/// More words change no segment but the last: all others are closed for good.
pub proof fn law_closed_segments_never_change(
    words: Seq<WordModel>,
    more: Seq<WordModel>,
    rate: u32,
)
    requires
        words.len() > 0,
    ensures
        ends_of(words, rate).len() > 0,
        ends_of(words, rate).drop_last().is_prefix_of(ends_of(words + more, rate)),
{
    lemma_extends(words, more, rate, 0, 0);
}

} // verus!
