//! The words that two consecutive passes over a turn agree on.
use crate::sequences::texts;
use crate::text::{
    characters, is_letter_or_digit, letter_or_digit, lowercase, lowered, same_text, string_of,
};
use vstd::prelude::*;
use vstd::string::*;

verus! {

/// The text without what is neither letter nor digit around it.
pub open spec fn bare(text: Seq<char>) -> Seq<char>
    decreases text.len(),
{
    if text.len() > 0 && !letter_or_digit(text[0]) {
        bare(text.drop_first())
    } else if text.len() > 0 && !letter_or_digit(text.last()) {
        bare(text.drop_last())
    } else {
        text
    }
}

/// A word compared across passes: case and surrounding punctuation change as context grows.
pub open spec fn normal_form(word: Seq<char>) -> Seq<char> {
    lowercase(bare(word))
}

/// The same word in two passes.
pub open spec fn same_word(a: Seq<char>, b: Seq<char>) -> bool {
    normal_form(a) == normal_form(b)
}

pub fn normalized(word: &str) -> (r: String)
    ensures
        r@ == normal_form(word@),
{
    let chars: Vec<char> = characters(word);
    let ghost all = chars@;
    let mut from: usize = 0;
    let mut to: usize = chars.len();
    assert(all.subrange(0, all.len() as int) =~= all);
    while from < to && !is_letter_or_digit(chars[from])
        invariant
            from <= to == chars@.len(),
            all == chars@,
            bare(all) == bare(all.subrange(from as int, to as int)),
        decreases to - from,
    {
        proof {
            let part = all.subrange(from as int, to as int);
            assert(part[0] == all[from as int]);
            assert(part.drop_first() =~= all.subrange(from + 1, to as int));
        }
        from += 1;
    }
    while to > from && !is_letter_or_digit(chars[to - 1])
        invariant
            from <= to <= chars@.len(),
            all == chars@,
            bare(all) == bare(all.subrange(from as int, to as int)),
            from < to ==> letter_or_digit(all[from as int]),
        decreases to - from,
    {
        proof {
            let part = all.subrange(from as int, to as int);
            assert(part[0] == all[from as int]);
            assert(part.last() == all[to - 1]);
            assert(part.drop_last() =~= all.subrange(from as int, to - 1));
        }
        to -= 1;
    }
    proof {
        let part = all.subrange(from as int, to as int);
        if part.len() > 0 {
            assert(part[0] == all[from as int]);
            assert(part.last() == all[to - 1]);
        }
    }
    lowered(string_of(&chars, from, to).as_str())
}

/// The words of a pass but the last: it is still being spoken, and its punctuation depends on what
/// follows.
pub open spec fn stable(current: nat) -> nat {
    if current == 0 {
        0
    } else {
        (current - 1) as nat
    }
}

/// How many words in a row from the `i`th on are the same in both passes, among the first
/// `limit` of the newer one.
pub open spec fn matching(a: Seq<Seq<char>>, b: Seq<Seq<char>>, limit: nat, i: nat) -> nat
    decreases limit - i,
{
    if i < limit && i < a.len() && same_word(a[i as int], b[i as int]) {
        1 + matching(a, b, limit, i + 1)
    } else {
        0
    }
}

/// Words agreed by two consecutive passes, counting the `sent` words as agreed (a revision of sent
/// text cannot be taken back).
pub open spec fn agreed(a: Seq<Seq<char>>, b: Seq<Seq<char>>, sent: nat) -> nat {
    sent + matching(a, b, stable(b.len()), sent)
}

pub fn agreement(previous: &Vec<String>, current: &Vec<String>, sent: usize) -> (r: usize)
    ensures
        r == agreed(texts(previous@), texts(current@), sent as nat),
{
    let ghost a = texts(previous@);
    let ghost b = texts(current@);
    let limit: usize = if current.len() == 0 {
        0
    } else {
        current.len() - 1
    };
    let mut i: usize = sent;
    while i < limit && i < previous.len() && same_text(
        normalized(previous[i].as_str()).as_str(),
        normalized(current[i].as_str()).as_str(),
    )
        invariant
            limit == stable(current@.len()),
            sent <= i,
            i <= limit || i == sent,
            a == texts(previous@),
            b == texts(current@),
            agreed(a, b, sent as nat) == i + matching(a, b, limit as nat, i as nat),
        decreases limit - i,
    {
        i += 1;
    }
    i
}

/// Word `k` is in both passes, and the same.
pub open spec fn same_at(a: Seq<Seq<char>>, b: Seq<Seq<char>>, k: int) -> bool {
    k < a.len() && k < b.len() && same_word(a[k], b[k])
}

proof fn lemma_matching(a: Seq<Seq<char>>, b: Seq<Seq<char>>, limit: nat, i: nat)
    requires
        limit <= b.len(),
    ensures
        matching(a, b, limit, i) > 0 ==> i + matching(a, b, limit, i) <= limit,
        forall|k: int| #[trigger]
            same_at(a, b, k) || !(i <= k < i + matching(a, b, limit, i)),
    decreases limit - i,
{
    if i < limit && i < a.len() && same_word(a[i as int], b[i as int]) {
        lemma_matching(a, b, limit, i + 1);
    }
}

/// Agreement never takes sent words back, never reaches the last word of the newer pass, and
/// every word it adds is the same in both passes.
pub proof fn law_agreed_words_are_the_same_in_both_passes(
    a: Seq<Seq<char>>,
    b: Seq<Seq<char>>,
    sent: nat,
)
    ensures
        agreed(a, b, sent) >= sent,
        agreed(a, b, sent) > sent ==> agreed(a, b, sent) < b.len(),
        forall|k: int|
            sent <= k < agreed(a, b, sent) ==> #[trigger] same_at(a, b, k),
{
    lemma_matching(a, b, stable(b.len()), sent);
}

} // verus!
