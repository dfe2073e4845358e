//! The answer text of a generation as it grows, with what has been passed on.
use crate::engine::model::Listener;
use crate::sequences::texts;
use crate::text::{characters, string_of};
use vstd::prelude::*;
use vstd::string::*;
use vstd::utf8::{char_is_scalar, encode_scalar, encode_utf8};

verus! {

// ---------------------------------------------------------------------------------------------
// Lengths in bytes
// ---------------------------------------------------------------------------------------------

/// The bytes of a character in UTF-8.
pub open spec fn width(c: char) -> nat {
    let u = c as u32;
    if u < 0x80 {
        1
    } else if u < 0x800 {
        2
    } else if u < 0x1_0000 {
        3
    } else {
        4
    }
}

/// The bytes of a text in UTF-8.
pub open spec fn size(text: Seq<char>) -> nat
    decreases text.len(),
{
    if text.len() == 0 {
        0
    } else {
        size(text.drop_last()) + width(text.last())
    }
}

/// The size of a text is the length of its UTF-8 encoding.
pub proof fn lemma_size_is_encoded_length(text: Seq<char>)
    ensures
        size(text) == encode_utf8(text).len(),
    decreases text.len(),
{
    if text.len() > 0 {
        let first = seq![text[0]];
        let rest = text.drop_first();
        lemma_size_is_encoded_length(rest);
        lemma_size_sum(first, rest);
        assert(first + rest =~= text);
        assert(first.drop_last() =~= Seq::<char>::empty());
        assert(size(first) == width(text[0])) by {
            assert(size(Seq::<char>::empty()) == 0);
        }
        char_is_scalar(text[0]);
        assert(encode_scalar(text[0] as u32).len() == width(text[0]));
    }
}

/// Sizes add up.
pub proof fn lemma_size_sum(a: Seq<char>, b: Seq<char>)
    ensures
        size(a + b) == size(a) + size(b),
    decreases b.len(),
{
    if b.len() > 0 {
        lemma_size_sum(a, b.drop_last());
        assert((a + b).drop_last() =~= a + b.drop_last());
        assert((a + b).last() == b.last());
    } else {
        assert(a + b =~= a);
    }
}

/// A longer prefix has more bytes: at least one per character.
pub proof fn lemma_size_of_prefix(text: Seq<char>, i: int, j: int)
    requires
        0 <= i <= j <= text.len(),
    ensures
        size(text.take(i)) + (j - i) <= size(text.take(j)),
    decreases j,
{
    if i < j {
        lemma_size_of_prefix(text, i, j - 1);
        assert(text.take(j).drop_last() =~= text.take(j - 1));
    }
}

fn char_width(c: char) -> (r: usize)
    ensures
        r == width(c),
{
    let u: u32 = c as u32;
    if u < 0x80 {
        1
    } else if u < 0x800 {
        2
    } else if u < 0x1_0000 {
        3
    } else {
        4
    }
}

/// The characters of the longest prefix of `text` within `limit` bytes.
pub open spec fn fitting(text: Seq<char>, limit: nat) -> nat
    decreases text.len(),
{
    if text.len() == 0 || size(text) <= limit {
        text.len()
    } else {
        fitting(text.drop_last(), limit)
    }
}

/// The characters of the shortest prefix of `text` of at least `limit` bytes; all of them where
/// there is none.
pub open spec fn reaching(text: Seq<char>, limit: nat) -> nat
    decreases text.len(),
{
    if text.len() == 0 || size(text.drop_last()) < limit {
        text.len()
    } else {
        reaching(text.drop_last(), limit)
    }
}

/// What makes a prefix the longest within a limit.
pub proof fn lemma_fitting(text: Seq<char>, limit: nat)
    ensures
        fitting(text, limit) <= text.len(),
        size(text.take(fitting(text, limit) as int)) <= limit,
        forall|n: int|
            0 <= n <= text.len() && size(#[trigger] text.take(n)) <= limit ==> n <= fitting(
                text,
                limit,
            ),
    decreases text.len(),
{
    if text.len() == 0 || size(text) <= limit {
        assert(text.take(text.len() as int) =~= text);
    } else {
        let shorter = text.drop_last();
        lemma_fitting(shorter, limit);
        assert(shorter.take(fitting(text, limit) as int) =~= text.take(
            fitting(text, limit) as int,
        ));
        assert forall|n: int|
            0 <= n <= text.len() && size(#[trigger] text.take(n)) <= limit implies n <= fitting(
            text,
            limit,
        ) by {
            if n == text.len() {
                assert(text.take(n) =~= text);
            } else {
                assert(shorter.take(n) =~= text.take(n));
            }
        }
    }
}

/// What makes a prefix the shortest that reaches a limit.
pub proof fn lemma_reaching(text: Seq<char>, limit: nat)
    ensures
        reaching(text, limit) <= text.len(),
        size(text) >= limit ==> size(text.take(reaching(text, limit) as int)) >= limit,
        forall|n: int|
            0 <= n < reaching(text, limit) ==> size(#[trigger] text.take(n)) < limit,
    decreases text.len(),
{
    assert(text.take(text.len() as int) =~= text);
    if text.len() == 0 {
    } else if size(text.drop_last()) < limit {
        assert forall|n: int| 0 <= n < text.len() implies size(#[trigger] text.take(n))
            < limit by {
            lemma_size_of_prefix(text, n, text.len() - 1);
            assert(text.take(text.len() - 1) =~= text.drop_last());
        }
    } else {
        let shorter = text.drop_last();
        lemma_reaching(shorter, limit);
        assert(shorter.take(reaching(text, limit) as int) =~= text.take(
            reaching(text, limit) as int,
        ));
        assert forall|n: int| 0 <= n < reaching(text, limit) implies size(#[trigger] text.take(n))
            < limit by {
            assert(shorter.take(n) =~= text.take(n));
        }
    }
}

// ---------------------------------------------------------------------------------------------
// What is cut off
// ---------------------------------------------------------------------------------------------

/// The text without the newlines it starts with.
pub open spec fn without_newlines(text: Seq<char>) -> Seq<char>
    decreases text.len(),
{
    if text.len() > 0 && text[0] == '\n' {
        without_newlines(text.drop_first())
    } else {
        text
    }
}

/// The text without the replacement characters it ends with, which stand for characters that
/// are still incomplete.
pub open spec fn stable(text: Seq<char>) -> Seq<char>
    decreases text.len(),
{
    if text.len() > 0 && text.last() == '\u{FFFD}' {
        stable(text.drop_last())
    } else {
        text
    }
}

/// `stop` stands at position `p` of `text`.
pub open spec fn occurs(text: Seq<char>, stop: Seq<char>, p: int) -> bool {
    0 <= p && p + stop.len() <= text.len() && text.subrange(p, p + stop.len()) == stop
}

/// Some stop sequence stands at position `p` of `text`.
pub open spec fn stops_at(text: Seq<char>, stops: Seq<Seq<char>>, p: int) -> bool {
    exists|k: int| 0 <= k < stops.len() && occurs(text, #[trigger] stops[k], p)
}

/// The first position of `text` from `p` on where a stop sequence stands.
pub open spec fn cut_from(text: Seq<char>, stops: Seq<Seq<char>>, p: int) -> Option<int>
    decreases text.len() + 1 - p,
{
    if p > text.len() {
        None
    } else if stops_at(text, stops, p) {
        Some(p)
    } else {
        cut_from(text, stops, p + 1)
    }
}

/// The text before the first stop sequence; all of it where there is none.
pub open spec fn before_cut(text: Seq<char>, stops: Seq<Seq<char>>) -> Seq<char> {
    match cut_from(text, stops, 0) {
        Some(p) => text.take(p),
        None => text,
    }
}

/// The cut is the first position where a stop sequence stands.
pub proof fn lemma_cut(text: Seq<char>, stops: Seq<Seq<char>>, p: int)
    requires
        0 <= p,
    ensures
        match cut_from(text, stops, p) {
            Some(q) => p <= q <= text.len() && stops_at(text, stops, q) && forall|x: int|
                p <= x < q ==> !#[trigger] stops_at(text, stops, x),
            None => forall|x: int| p <= x ==> !#[trigger] stops_at(text, stops, x),
        },
    decreases text.len() + 1 - p,
{
    if p <= text.len() && !stops_at(text, stops, p) {
        lemma_cut(text, stops, p + 1);
    }
}

// ---------------------------------------------------------------------------------------------
// Growing
// ---------------------------------------------------------------------------------------------

/// The answer so far.
#[verifier::ext_equal]
pub struct AnswerModel {
    pub text: Seq<char>,
    /// Bytes of the text already passed on.
    pub emitted: nat,
    pub stopped: bool,
    pub gone: bool,
}

/// The bytes of `text` that can no longer change: all of them once it is the whole answer,
/// otherwise all but `holdback` bytes and any incomplete character.
pub open spec fn settled_size(text: Seq<char>, holdback: nat, whole: bool) -> nat {
    if whole {
        size(text)
    } else {
        let known = size(stable(text));
        let limit = if known >= holdback { (known - holdback) as nat } else { 0 };
        size(text.take(fitting(text, limit) as int))
    }
}

/// The part of `text` from byte `from` to byte `to`.
pub open spec fn piece(text: Seq<char>, from: nat, to: nat) -> Seq<char> {
    let (i, j) = (reaching(text, from) as int, fitting(text, to) as int);
    if i <= j {
        text.subrange(i, j)
    } else {
        Seq::empty()
    }
}

/// The decoded text, without the newlines it starts with where those are dropped.
pub open spec fn trimmed(raw: Seq<char>, trim: bool) -> Seq<char> {
    if trim {
        without_newlines(raw)
    } else {
        raw
    }
}

/// What taking the decoded text `raw` makes of an answer, but for whether the listener has
/// gone: the text is cut at the first stop sequence, and what can no longer change is passed on.
pub open spec fn advanced(
    before: AnswerModel,
    raw: Seq<char>,
    trim: bool,
    stops: Seq<Seq<char>>,
    holdback: nat,
    last: bool,
) -> AnswerModel {
    let text = trimmed(raw, trim);
    let kept = before_cut(text, stops);
    let stopped = before.stopped || cut_from(text, stops, 0) is Some;
    let end = settled_size(kept, holdback, last || stopped);
    AnswerModel {
        text: kept,
        emitted: if end > before.emitted { end } else { before.emitted },
        stopped,
        gone: before.gone,
    }
}

/// What is passed on when an answer grows to `after`.
pub open spec fn passed_on(before: AnswerModel, after: AnswerModel) -> Seq<char> {
    if after.emitted > before.emitted {
        piece(after.text, before.emitted, after.emitted)
    } else {
        Seq::empty()
    }
}

// ---------------------------------------------------------------------------------------------
// Execution
// ---------------------------------------------------------------------------------------------

fn skip_newlines(text: Vec<char>) -> (r: Vec<char>)
    ensures
        r@ == without_newlines(text@),
{
    let ghost all = text@;
    let mut i: usize = 0;
    assert(all.skip(0) =~= all);
    while i < text.len() && text[i] == '\n'
        invariant
            i <= text@.len(),
            all == text@,
            without_newlines(all) == without_newlines(all.skip(i as int)),
        decreases text@.len() - i,
    {
        proof {
            assert(all.skip(i as int)[0] == all[i as int]);
            assert(all.skip(i as int).drop_first() =~= all.skip(i + 1));
        }
        i += 1;
    }
    let mut rest: Vec<char> = Vec::new();
    let mut k: usize = i;
    while k < text.len()
        invariant
            i <= k <= text@.len(),
            rest@ == text@.subrange(i as int, k as int),
        decreases text@.len() - k,
    {
        rest.push(text[k]);
        k += 1;
        assert(text@.subrange(i as int, k as int) =~= text@.subrange(i as int, k - 1).push(
            text@[k - 1],
        ));
    }
    proof {
        assert(rest@ =~= all.skip(i as int));
        if i < all.len() {
            assert(all.skip(i as int)[0] == all[i as int]);
        }
    }
    rest
}

fn occurs_at(text: &Vec<char>, stop: &Vec<char>, p: usize) -> (r: bool)
    requires
        p <= text@.len(),
    ensures
        r == occurs(text@, stop@, p as int),
{
    if stop.len() > text.len() - p {
        return false;
    }
    let ghost found = text@.subrange(p as int, p + stop@.len());
    let size_of_text: usize = text.len();
    let mut i: usize = 0;
    while i < stop.len()
        invariant
            i <= stop@.len(),
            p + stop@.len() <= text@.len() == size_of_text,
            found == text@.subrange(p as int, p + stop@.len()),
            forall|k: int| 0 <= k < i ==> #[trigger] found[k] == stop@[k],
        decreases stop@.len() - i,
    {
        if text[p + i] != stop[i] {
            assert(found[i as int] != stop@[i as int]);
            return false;
        }
        assert(found[i as int] == stop@[i as int]);
        i += 1;
    }
    assert(found =~= stop@);
    true
}

/// The characters of each string.
fn character_lists(strings: &Vec<String>) -> (r: Vec<Vec<char>>)
    ensures
        r@.len() == strings@.len(),
        forall|k: int| 0 <= k < r@.len() ==> (#[trigger] r@[k])@ == strings@[k]@,
{
    let mut lists: Vec<Vec<char>> = Vec::new();
    let mut i: usize = 0;
    while i < strings.len()
        invariant
            i <= strings@.len(),
            lists@.len() == i,
            forall|k: int| 0 <= k < i ==> (#[trigger] lists@[k])@ == strings@[k]@,
        decreases strings@.len() - i,
    {
        lists.push(characters(strings[i].as_str()));
        i += 1;
    }
    lists
}

fn find_cut(text: &Vec<char>, stops: &Vec<String>) -> (r: Option<usize>)
    ensures
        match r {
            Some(p) => cut_from(text@, texts(stops@), 0) == Some(p as int) && p <= text@.len(),
            None => cut_from(text@, texts(stops@), 0) is None,
        },
{
    let lists: Vec<Vec<char>> = character_lists(stops);
    let ghost want = texts(stops@);
    let size_of_text: usize = text.len();
    let mut p: usize = 0;
    loop
        invariant
            p <= text@.len() == size_of_text,
            want == texts(stops@),
            lists@.len() == want.len(),
            forall|k: int| 0 <= k < lists@.len() ==> (#[trigger] lists@[k])@ == want[k],
            cut_from(text@, want, 0) == cut_from(text@, want, p as int),
        decreases text@.len() - p,
    {
        let mut k: usize = 0;
        while k < lists.len()
            invariant
                k <= lists@.len(),
                p <= text@.len(),
                want == texts(stops@),
                lists@.len() == want.len(),
                forall|m: int| 0 <= m < lists@.len() ==> (#[trigger] lists@[m])@ == want[m],
                forall|m: int| 0 <= m < k ==> !occurs(text@, #[trigger] want[m], p as int),
                cut_from(text@, want, 0) == cut_from(text@, want, p as int),
            decreases lists@.len() - k,
        {
            if occurs_at(text, &lists[k], p) {
                assert(occurs(text@, want[k as int], p as int));
                assert(stops_at(text@, want, p as int));
                return Some(p);
            }
            assert(!occurs(text@, want[k as int], p as int));
            k += 1;
        }
        assert(!stops_at(text@, want, p as int));
        if p == text.len() {
            assert(cut_from(text@, want, p + 1) is None);
            return None;
        }
        p += 1;
    }
}

/// The bytes of the first `n` characters.
fn prefix_size(text: &Vec<char>, n: usize) -> (r: usize)
    requires
        n <= text@.len(),
        size(text@) <= usize::MAX,
    ensures
        r == size(text@.take(n as int)),
{
    let mut total: usize = 0;
    let mut i: usize = 0;
    assert(text@.take(0).len() == 0);
    while i < n
        invariant
            i <= n <= text@.len(),
            size(text@) <= usize::MAX,
            total == size(text@.take(i as int)),
        decreases n - i,
    {
        proof {
            assert(text@.take(i + 1).drop_last() =~= text@.take(i as int));
            lemma_size_of_prefix(text@, i + 1, text@.len() as int);
            assert(text@.take(text@.len() as int) =~= text@);
        }
        total = total + char_width(text[i]);
        i += 1;
    }
    total
}

/// The characters of the longest prefix within `limit` bytes.
fn fit(text: &Vec<char>, limit: usize) -> (r: usize)
    requires
        size(text@) <= usize::MAX,
    ensures
        r == fitting(text@, limit as nat),
        r <= text@.len(),
{
    let mut total: usize = 0;
    let mut i: usize = 0;
    assert(text@.take(0).len() == 0);
    proof {
        lemma_fitting(text@, limit as nat);
    }
    while i < text.len()
        invariant
            i <= text@.len(),
            size(text@) <= usize::MAX,
            total == size(text@.take(i as int)),
            total <= limit,
            fitting(text@, limit as nat) <= text@.len(),
            size(text@.take(fitting(text@, limit as nat) as int)) <= limit,
            forall|n: int|
                0 <= n <= text@.len() && size(#[trigger] text@.take(n)) <= limit ==> n <= fitting(
                    text@,
                    limit as nat,
                ),
        decreases text@.len() - i,
    {
        proof {
            assert(text@.take(i + 1).drop_last() =~= text@.take(i as int));
            lemma_size_of_prefix(text@, i + 1, text@.len() as int);
            assert(text@.take(text@.len() as int) =~= text@);
        }
        let more: usize = total + char_width(text[i]);
        if more > limit {
            proof {
                let f = fitting(text@, limit as nat) as int;
                if f > i {
                    lemma_size_of_prefix(text@, i + 1, f);
                }
                assert(size(text@.take(i as int)) <= limit);
            }
            return i;
        }
        total = more;
        i += 1;
    }
    proof {
        assert(size(text@.take(i as int)) <= limit);
    }
    i
}

/// The characters of the shortest prefix of at least `limit` bytes.
fn reach(text: &Vec<char>, limit: usize) -> (r: usize)
    requires
        size(text@) <= usize::MAX,
    ensures
        r == reaching(text@, limit as nat),
        r <= text@.len(),
{
    let mut total: usize = 0;
    let mut i: usize = 0;
    assert(text@.take(0).len() == 0);
    proof {
        lemma_reaching(text@, limit as nat);
    }
    while i < text.len() && total < limit
        invariant
            i <= text@.len(),
            size(text@) <= usize::MAX,
            total == size(text@.take(i as int)),
            reaching(text@, limit as nat) <= text@.len(),
            size(text@) >= limit ==> size(text@.take(reaching(text@, limit as nat) as int)) >= limit,
            forall|n: int|
                0 <= n < reaching(text@, limit as nat) ==> size(#[trigger] text@.take(n)) < limit,
            forall|n: int| 0 <= n < i ==> size(#[trigger] text@.take(n)) < limit,
        decreases text@.len() - i,
    {
        proof {
            assert(text@.take(i + 1).drop_last() =~= text@.take(i as int));
            lemma_size_of_prefix(text@, i + 1, text@.len() as int);
            assert(text@.take(text@.len() as int) =~= text@);
        }
        total = total + char_width(text[i]);
        i += 1;
    }
    proof {
        let want = reaching(text@, limit as nat) as int;
        assert(text@.take(text@.len() as int) =~= text@);
        if i < want {
            assert(size(text@.take(i as int)) < limit);
        } else if want < i {
            assert(size(text@.take(want)) < limit);
            lemma_size_of_prefix(text@, want, text@.len() as int);
        }
    }
    i
}

/// The answer text of a generation as it grows, with what has been passed on.
#[derive(Debug)]
pub struct Answer {
    /// Answer text, cut before any stop sequence.
    pub text: String,
    /// Bytes of `text` already passed on.
    pub emitted: usize,
    pub stopped: bool,
    pub gone: bool,
    /// Chat answers drop the newlines models put after the closed thought.
    pub trim_start: bool,
}

impl View for Answer {
    type V = AnswerModel;

    open spec fn view(&self) -> AnswerModel {
        AnswerModel {
            text: self.text@,
            emitted: self.emitted as nat,
            stopped: self.stopped,
            gone: self.gone,
        }
    }
}

/// What is stable is a prefix of the text.
pub proof fn lemma_stable_is_prefix(text: Seq<char>)
    ensures
        stable(text).len() <= text.len(),
        stable(text) == text.take(stable(text).len() as int),
    decreases text.len(),
{
    if text.len() > 0 && text.last() == '\u{FFFD}' {
        lemma_stable_is_prefix(text.drop_last());
        assert(text.drop_last().take(stable(text).len() as int) =~= text.take(
            stable(text).len() as int,
        ));
    } else {
        assert(text.take(text.len() as int) =~= text);
    }
}

/// The characters before the replacement characters that `text` ends with.
fn stable_count(text: &Vec<char>) -> (r: usize)
    ensures
        r == stable(text@).len(),
        r <= text@.len(),
{
    let mut n: usize = text.len();
    assert(text@.take(n as int) =~= text@);
    while n > 0 && text[n - 1] == '\u{FFFD}'
        invariant
            n <= text@.len(),
            stable(text@) == stable(text@.take(n as int)),
        decreases n,
    {
        proof {
            assert(text@.take(n as int).drop_last() =~= text@.take(n - 1));
        }
        n -= 1;
    }
    n
}

proof fn lemma_without_newlines_size(text: Seq<char>)
    ensures
        size(without_newlines(text)) <= size(text),
    decreases text.len(),
{
    if text.len() > 0 && text[0] == '\n' {
        lemma_without_newlines_size(text.drop_first());
        lemma_size_sum(seq![text[0]], text.drop_first());
        assert(seq![text[0]] + text.drop_first() =~= text);
    }
}

impl Answer {
    pub fn new(trim_start: bool) -> (r: Self)
        ensures
            r@ == (AnswerModel { text: Seq::empty(), emitted: 0, stopped: false, gone: false }),
            r.trim_start == trim_start,
    {
        Answer { text: String::new(), emitted: 0, stopped: false, gone: false, trim_start }
    }

    /// Takes the decoded text so far, cuts it at the first stop sequence, and passes on what
    /// can no longer change: everything once `last` or stopped, otherwise all but `holdback`
    /// bytes and any incomplete character. Returns whether generation should continue.
    pub fn advance<L: Listener>(
        &mut self,
        text: &str,
        stops: &Vec<String>,
        holdback: usize,
        last: bool,
        listener: &mut L,
    ) -> (r: bool)
        ensures
            final(self).trim_start == old(self).trim_start,
            ({
                let after = advanced(
                    old(self)@,
                    text@,
                    old(self).trim_start,
                    texts(stops@),
                    holdback as nat,
                    last,
                );
                &&& final(self)@ == (AnswerModel { gone: final(self)@.gone, ..after })
                &&& final(listener).heard() == old(listener).heard() + passed_on(old(self)@, after)
                &&& if after.emitted > old(self)@.emitted {
                    // One piece was passed on, and the answer to it counts.
                    &&& final(listener).answers().len() == old(listener).answers().len() + 1
                    &&& final(listener).answers().drop_last() == old(listener).answers()
                    &&& final(self)@.gone == (old(self)@.gone || !final(listener).answers().last())
                } else {
                    &&& final(listener).answers() == old(listener).answers()
                    &&& final(self)@.gone == old(self)@.gone
                }
            }),
            r == !(final(self).stopped || final(self).gone),
    {
        let ghost before = self@;
        let ghost want = texts(stops@);
        let bytes: &[u8] = text.as_bytes();
        let all_bytes: usize = bytes.len();
        let mut chars: Vec<char> = characters(text);
        proof {
            lemma_size_is_encoded_length(text@);
            lemma_without_newlines_size(text@);
        }
        if self.trim_start {
            chars = skip_newlines(chars);
        }
        let ghost whole_text = trimmed(text@, self.trim_start);
        assert(chars@ == whole_text);
        assert(size(chars@) <= usize::MAX);
        if let Some(cut) = find_cut(&chars, stops) {
            proof {
                lemma_size_of_prefix(chars@, cut as int, chars@.len() as int);
                assert(chars@.take(chars@.len() as int) =~= chars@);
            }
            chars.truncate(cut);
            self.stopped = true;
        }
        let ghost kept = before_cut(whole_text, want);
        assert(chars@ =~= kept);
        let end: usize = if last || self.stopped {
            let n: usize = chars.len();
            assert(chars@.take(n as int) =~= chars@);
            prefix_size(&chars, n)
        } else {
            let n: usize = stable_count(&chars);
            proof {
                lemma_stable_is_prefix(chars@);
            }
            let known: usize = prefix_size(&chars, n);
            let fitted: usize = fit(&chars, known.saturating_sub(holdback));
            prefix_size(&chars, fitted)
        };
        assert(end == settled_size(kept, holdback as nat, last || self.stopped));
        if end > self.emitted {
            let from: usize = reach(&chars, self.emitted);
            let to: usize = fit(&chars, end);
            let next: String = if from <= to {
                string_of(&chars, from, to)
            } else {
                String::new()
            };
            if !listener.on_text(next.as_str()) {
                self.gone = true;
            }
            assert(listener.answers().drop_last() =~= old(listener).answers());
            self.emitted = end;
        } else {
            assert(listener.heard() + Seq::<char>::empty() =~= listener.heard());
        }
        self.text = string_of(&chars, 0, chars.len());
        assert(self.text@ =~= kept);
        !(self.stopped || self.gone)
    }
}

// ---------------------------------------------------------------------------------------------
// Streaming
// ---------------------------------------------------------------------------------------------

/// Every stop sequence has at most one byte more than is held back.
pub open spec fn held_back(stops: Seq<Seq<char>>, holdback: nat) -> bool {
    forall|k: int| 0 <= k < stops.len() ==> size(#[trigger] stops[k]) <= holdback + 1
}

/// `later` keeps what was stable in `text`.
pub open spec fn keeps(text: Seq<char>, later: Seq<char>) -> bool {
    stable(text).len() <= later.len() && later.take(stable(text).len() as int) == stable(text)
}

/// A stop sequence that stands in a later text but not in `text` starts at or after what can
/// no longer change.
proof fn lemma_stop_is_beyond(
    text: Seq<char>,
    later: Seq<char>,
    stops: Seq<Seq<char>>,
    holdback: nat,
    p: int,
)
    requires
        held_back(stops, holdback),
        keeps(text, later),
        cut_from(text, stops, 0) is None,
        stops_at(later, stops, p),
    ensures
        settled_size(text, holdback, false) <= size(later.take(p)),
{
    let known = stable(text);
    let limit = if size(known) >= holdback { (size(known) - holdback) as nat } else { 0 };
    lemma_fitting(text, limit);
    lemma_stable_is_prefix(text);
    lemma_cut(text, stops, 0);
    let k = choose|k: int| 0 <= k < stops.len() && occurs(later, #[trigger] stops[k], p);
    let stop = stops[k];
    let q = p + stop.len();
    if q <= known.len() {
        assert(text.subrange(p, q) =~= stop) by {
            assert forall|i: int| 0 <= i < stop.len() implies text.subrange(p, q)[i]
                == #[trigger] stop[i] by {
                assert(later.subrange(p, q)[i] == later[p + i]);
                assert(later.take(known.len() as int)[p + i] == later[p + i]);
                assert(text.take(known.len() as int)[p + i] == text[p + i]);
            }
        }
        assert(occurs(text, stops[k], p));
        assert(stops_at(text, stops, p));
    }
    lemma_size_of_prefix(later, known.len() as int, q);
    assert(later.take(q) =~= later.take(p) + stop);
    lemma_size_sum(later.take(p), stop);
}

/// Stop sequences are never streamed in part: what was passed on before a stop sequence was
/// found lies before it, and it stays at the front of the answer.
pub proof fn law_stop_sequences_are_never_streamed(
    text: Seq<char>,
    later: Seq<char>,
    stops: Seq<Seq<char>>,
    holdback: nat,
)
    requires
        held_back(stops, holdback),
        keeps(text, later),
        cut_from(text, stops, 0) is None,
    ensures
        ({
            let sent = settled_size(text, holdback, false);
            let n = fitting(text, sent) as int;
            let answer = before_cut(later, stops);
            &&& sent <= size(answer)
            &&& n <= answer.len()
            &&& answer.take(n) == text.take(n)
        }),
{
    let known = stable(text);
    let limit = if size(known) >= holdback { (size(known) - holdback) as nat } else { 0 };
    let sent = settled_size(text, holdback, false);
    let answer = before_cut(later, stops);
    lemma_fitting(text, limit);
    lemma_fitting(text, sent);
    lemma_stable_is_prefix(text);
    lemma_cut(later, stops, 0);
    let m = fitting(text, limit) as int;
    let n = fitting(text, sent) as int;
    assert(m <= n);
    if n > m {
        lemma_size_of_prefix(text, m, n);
    }
    assert(n == m);
    // What is passed on is part of what is stable.
    if m > known.len() {
        lemma_size_of_prefix(text, known.len() as int, m);
    }
    assert(m <= known.len());
    assert(later.take(m) =~= text.take(m)) by {
        assert forall|i: int| 0 <= i < m implies later[i] == text[i] by {
            assert(later.take(known.len() as int)[i] == later[i]);
            assert(text.take(known.len() as int)[i] == text[i]);
        }
    }
    if let Some(p) = cut_from(later, stops, 0) {
        lemma_stop_is_beyond(text, later, stops, holdback, p);
        if m > p {
            lemma_size_of_prefix(later, p, m);
        }
        assert(answer.take(m) =~= later.take(m));
    } else {
        lemma_size_of_prefix(later, m, later.len() as int);
        assert(later.take(later.len() as int) =~= later);
    }
}

} // verus!
