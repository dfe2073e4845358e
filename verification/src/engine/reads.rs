//! Reads of answer slots and their averages.
use crate::double::{
    add_doubles, divide_double, lemma_at_most_one, lemma_running_sum, one, quotient, sum, units,
    ONE,
};
use crate::error::{Error, ErrorModel, Result};
use vstd::prelude::*;

verus! {

/// The reading of one answer slot. Logits and probabilities are the bits of doubles.
#[derive(Clone, Debug, PartialEq, Eq)]
pub struct SlotRead {
    pub canvas_position: usize,
    pub absolute_position: usize,
    pub initial_token: i32,
    pub candidate_tokens: Vec<i32>,
    pub logits: Vec<u64>,
    pub probabilities: Vec<u64>,
}

/// The mathematical model of a [`SlotRead`].
#[verifier::ext_equal]
pub struct SlotModel {
    pub canvas_position: usize,
    pub absolute_position: usize,
    pub initial_token: i32,
    pub candidate_tokens: Seq<i32>,
    pub logits: Seq<u64>,
    pub probabilities: Seq<u64>,
}

impl View for SlotRead {
    type V = SlotModel;

    open spec fn view(&self) -> SlotModel {
        SlotModel {
            canvas_position: self.canvas_position,
            absolute_position: self.absolute_position,
            initial_token: self.initial_token,
            candidate_tokens: self.candidate_tokens@,
            logits: self.logits@,
            probabilities: self.probabilities@,
        }
    }
}

/// The models of the slots of one read.
pub open spec fn slot_models(slots: Seq<SlotRead>) -> Seq<SlotModel> {
    Seq::new(slots.len(), |i: int| slots[i]@)
}

/// The models of several reads.
pub open spec fn read_models(reads: Seq<Vec<SlotRead>>) -> Seq<Seq<SlotModel>> {
    Seq::new(reads.len(), |i: int| slot_models(reads[i]@))
}

/// Two reads of the same slots and candidates.
pub open spec fn alike(a: Seq<SlotModel>, b: Seq<SlotModel>) -> bool {
    &&& a.len() == b.len()
    &&& forall|i: int|
        0 <= i < a.len() ==> (#[trigger] a[i]).candidate_tokens == b[i].candidate_tokens
            && a[i].probabilities.len() == b[i].probabilities.len()
}

/// There is a read, and all are of the same slots and candidates.
pub open spec fn comparable(reads: Seq<Seq<SlotModel>>) -> bool {
    reads.len() > 0 && forall|k: int|
        0 <= k < reads.len() ==> alike(reads[0], #[trigger] reads[k])
}

/// All probabilities are doubles from 0 to 1.
pub open spec fn probable(read: Seq<SlotModel>) -> bool {
    forall|i: int, j: int|
        0 <= i < read.len() && 0 <= j < read[i].probabilities.len()
            ==> #[trigger] read[i].probabilities[j] <= ONE
}

/// The sum of the first `n` reads' probabilities of candidate `j` of slot `i`.
pub open spec fn running_sum(reads: Seq<Seq<SlotModel>>, i: int, j: int, n: nat) -> u64
    decreases n,
{
    if n <= 1 {
        reads[0][i].probabilities[j]
    } else {
        sum(running_sum(reads, i, j, (n - 1) as nat), reads[n - 1][i].probabilities[j])
    }
}

/// Slot `i` averaged: the means of the probabilities. An averaged distribution has no single
/// native logit row.
pub open spec fn averaged_slot(reads: Seq<Seq<SlotModel>>, i: int) -> SlotModel {
    let first = reads[0][i];
    SlotModel {
        logits: if reads.len() > 1 {
            Seq::empty()
        } else {
            first.logits
        },
        probabilities: Seq::new(
            first.probabilities.len(),
            |j: int| quotient(running_sum(reads, i, j, reads.len()), reads.len()),
        ),
        ..first
    }
}

/// The average of several reads.
pub open spec fn averaged(reads: Seq<Seq<SlotModel>>) -> Seq<SlotModel> {
    Seq::new(reads[0].len(), |i: int| averaged_slot(reads, i))
}

/// Whether two lists of tokens are equal.
fn same_list(a: &Vec<i32>, b: &Vec<i32>) -> (r: bool)
    ensures
        r == (a@ == b@),
{
    if a.len() != b.len() {
        return false;
    }
    let mut i: usize = 0;
    while i < a.len()
        invariant
            a@.len() == b@.len(),
            i <= a@.len(),
            forall|k: int| 0 <= k < i ==> a@[k] == b@[k],
        decreases a@.len() - i,
    {
        if a[i] != b[i] {
            return false;
        }
        i += 1;
    }
    assert(a@ =~= b@);
    true
}

fn are_alike(a: &Vec<SlotRead>, b: &Vec<SlotRead>) -> (r: bool)
    ensures
        r == alike(slot_models(a@), slot_models(b@)),
{
    let ghost (x, y) = (slot_models(a@), slot_models(b@));
    if a.len() != b.len() {
        return false;
    }
    let mut i: usize = 0;
    while i < a.len()
        invariant
            a@.len() == b@.len(),
            i <= a@.len(),
            x == slot_models(a@),
            y == slot_models(b@),
            forall|k: int|
                0 <= k < i ==> (#[trigger] x[k]).candidate_tokens == y[k].candidate_tokens
                    && x[k].probabilities.len() == y[k].probabilities.len(),
        decreases a@.len() - i,
    {
        assert(x[i as int] == a@[i as int]@ && y[i as int] == b@[i as int]@);
        if !same_list(&a[i].candidate_tokens, &b[i].candidate_tokens)
            || a[i].probabilities.len() != b[i].probabilities.len() {
            return false;
        }
        i += 1;
    }
    true
}

/// The mean probability of candidate `j` of slot `i`.
fn mean(reads: &Vec<Vec<SlotRead>>, i: usize, j: usize) -> (r: u64)
    requires
        0 < reads@.len() <= u32::MAX,
        comparable(read_models(reads@)),
        forall|k: int| 0 <= k < reads@.len() ==> probable(#[trigger] read_models(reads@)[k]),
        i < reads@[0]@.len(),
        j < reads@[0]@[i as int].probabilities@.len(),
    ensures
        r == quotient(
            running_sum(read_models(reads@), i as int, j as int, reads@.len()),
            reads@.len(),
        ),
{
    let ghost all = read_models(reads@);
    assert(all[0] == slot_models(reads@[0]@));
    assert(all[0][i as int] == reads@[0]@[i as int]@);
    let mut total: u64 = reads[0][i].probabilities[j];
    let mut k: usize = 1;
    proof {
        assert(all[0][i as int].probabilities[j as int] <= ONE);
        lemma_at_most_one(total);
        assert(units(total) <= 2 * 1 * one());
    }
    while k < reads.len()
        invariant
            all == read_models(reads@),
            comparable(all),
            forall|x: int| 0 <= x < reads@.len() ==> probable(#[trigger] all[x]),
            reads@.len() <= u32::MAX,
            i < reads@[0]@.len(),
            j < reads@[0]@[i as int].probabilities@.len(),
            1 <= k <= reads@.len(),
            total == running_sum(all, i as int, j as int, k as nat),
            total <= crate::double::LARGE,
            units(total) <= 2 * k * one(),
        decreases reads@.len() - k,
    {
        proof {
            assert(alike(all[0], all[k as int]));
            assert(all[0] == slot_models(reads@[0]@));
            assert(all[k as int] == slot_models(reads@[k as int]@));
            assert(all[0][i as int] == reads@[0]@[i as int]@);
            assert(all[k as int][i as int] == reads@[k as int]@[i as int]@);
            assert(all[0][i as int].probabilities.len()
                == all[k as int][i as int].probabilities.len());
            assert(probable(all[k as int]));
            assert(all[k as int][i as int].probabilities[j as int] <= ONE);
            lemma_running_sum(total, all[k as int][i as int].probabilities[j as int], k as nat);
        }
        total = add_doubles(total, reads[k][i].probabilities[j]);
        k += 1;
    }
    divide_double(total, reads.len() as u32)
}

/// Averages probabilities over reads, instead of logits or winning labels.
pub fn average_reads(reads: &Vec<Vec<SlotRead>>) -> (r: Result<Vec<SlotRead>>)
    requires
        reads@.len() <= u32::MAX,
        forall|k: int| 0 <= k < reads@.len() ==> probable(#[trigger] read_models(reads@)[k]),
    ensures
        r is Ok <==> comparable(read_models(reads@)),
        r matches Ok(slots) ==> slot_models(slots@) == averaged(read_models(reads@)),
        r matches Err(e) ==> e@ == ErrorModel::InvalidLogits,
{
    let ghost all = read_models(reads@);
    if reads.len() == 0 {
        return Err(Error::InvalidLogits);
    }
    let mut k: usize = 0;
    while k < reads.len()
        invariant
            k <= reads@.len(),
            reads@.len() > 0,
            all == read_models(reads@),
            forall|x: int| 0 <= x < k ==> alike(all[0], #[trigger] all[x]),
        decreases reads@.len() - k,
    {
        assert(all[0] == slot_models(reads@[0]@));
        assert(all[k as int] == slot_models(reads@[k as int]@));
        if !are_alike(&reads[0], &reads[k]) {
            return Err(Error::InvalidLogits);
        }
        k += 1;
    }
    let first: &Vec<SlotRead> = &reads[0];
    let several: bool = reads.len() > 1;
    let mut means: Vec<SlotRead> = Vec::new();
    let mut i: usize = 0;
    assert(all[0] == slot_models(first@));
    while i < first.len()
        invariant
            0 < reads@.len() <= u32::MAX,
            all == read_models(reads@),
            comparable(all),
            forall|x: int| 0 <= x < reads@.len() ==> probable(#[trigger] all[x]),
            *first == reads@[0],
            all[0] == slot_models(first@),
            several == (reads@.len() > 1),
            i <= first@.len(),
            means@.len() == i,
            forall|x: int| 0 <= x < i ==> (#[trigger] means@[x])@ == averaged_slot(all, x),
        decreases first@.len() - i,
    {
        let slot: &SlotRead = &first[i];
        assert(all[0][i as int] == slot@);
        let mut probabilities: Vec<u64> = Vec::new();
        let mut j: usize = 0;
        while j < slot.probabilities.len()
            invariant
                0 < reads@.len() <= u32::MAX,
                all == read_models(reads@),
                comparable(all),
                forall|x: int| 0 <= x < reads@.len() ==> probable(#[trigger] all[x]),
                *first == reads@[0],
                i < first@.len(),
                *slot == first@[i as int],
                j <= slot.probabilities@.len(),
                probabilities@.len() == j,
                forall|x: int|
                    0 <= x < j ==> #[trigger] probabilities@[x] == quotient(
                        running_sum(all, i as int, x, reads@.len()),
                        reads@.len(),
                    ),
            decreases slot.probabilities@.len() - j,
        {
            probabilities.push(mean(reads, i, j));
            j += 1;
        }
        let logits: Vec<u64> = if several {
            Vec::new()
        } else {
            copy_words(&slot.logits)
        };
        let ghost want = averaged_slot(all, i as int);
        proof {
            assert(probabilities@ =~= want.probabilities);
            assert(logits@ =~= want.logits);
        }
        means.push(
            SlotRead {
                canvas_position: slot.canvas_position,
                absolute_position: slot.absolute_position,
                initial_token: slot.initial_token,
                candidate_tokens: copy_tokens(&slot.candidate_tokens),
                logits,
                probabilities,
            },
        );
        i += 1;
    }
    proof {
        assert(slot_models(means@) =~= averaged(all));
    }
    Ok(means)
}

/// The same words.
pub fn copy_words(words: &Vec<u64>) -> (r: Vec<u64>)
    ensures
        r@ == words@,
{
    let mut out: Vec<u64> = Vec::new();
    let mut i: usize = 0;
    while i < words.len()
        invariant
            i <= words@.len(),
            out@ == words@.take(i as int),
        decreases words@.len() - i,
    {
        out.push(words[i]);
        i += 1;
        assert(words@.take(i as int) =~= words@.take(i - 1).push(words@[i - 1]));
    }
    assert(words@.take(i as int) =~= words@);
    out
}

/// The same tokens.
pub fn copy_tokens(tokens: &Vec<i32>) -> (r: Vec<i32>)
    ensures
        r@ == tokens@,
{
    let mut out: Vec<i32> = Vec::new();
    let mut i: usize = 0;
    while i < tokens.len()
        invariant
            i <= tokens@.len(),
            out@ == tokens@.take(i as int),
        decreases tokens@.len() - i,
    {
        out.push(tokens[i]);
        i += 1;
        assert(tokens@.take(i as int) =~= tokens@.take(i - 1).push(tokens@[i - 1]));
    }
    assert(tokens@.take(i as int) =~= tokens@);
    out
}

} // verus!
