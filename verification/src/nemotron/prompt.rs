//! The resident prompt of a causal cache: which positions are kept, which are computed in which
//! batch, and what canvases may follow.
use crate::engine::config::{parts_model, Part, PromptPart};
use crate::engine::generated::clamp;
use crate::engine::model::PrefillProfile;
use crate::error::{Error, ErrorModel, Result};
use crate::gemma::passes::{all_in_vocabulary, in_vocabulary};
use crate::gemma::prompt::{common_prefix, shared};
use crate::nemotron::frame::{frame, Frame};
use vstd::prelude::*;

verus! {

/// What a model on the device holds.
#[derive(Debug)]
pub struct Cache {
    /// Keys of the resident positions: token ids, or negative image content keys.
    pub cached: Vec<i64>,
    /// Images encoded for the current request: their rows and a content key.
    pub encoded: Vec<(usize, i64)>,
    pub n_ctx: usize,
    pub batch_size: usize,
    /// Positions of the cache.
    pub capacity: usize,
    pub vocab: usize,
    /// Prompts keep what they share with the one before.
    pub prompt_cache: bool,
    /// Rows of the last canvas.
    pub canvas: Option<usize>,
    /// The last canvas left full logits.
    pub logits: bool,
    pub profile: PrefillProfile,
}

/// The part is text, or an image that was encoded.
pub open spec fn known(part: Part, encoded: Seq<(usize, i64)>) -> bool {
    match part {
        Part::Text(_) => true,
        Part::Image { tokens, index } => index < encoded.len() && encoded[index as int].0 == tokens,
    }
}

/// The keys of a part's positions.
pub open spec fn part_keys(part: Part, encoded: Seq<(usize, i64)>) -> Seq<i64> {
    match part {
        Part::Text(tokens) => Seq::new(tokens.len(), |i: int| tokens[i] as i64),
        Part::Image { tokens, index } => Seq::new(tokens, |i: int| encoded[index as int].1),
    }
}

/// The keys of the first `n` parts.
pub open spec fn prompt_keys(parts: Seq<Part>, encoded: Seq<(usize, i64)>, n: nat) -> Seq<i64>
    decreases n,
{
    if n == 0 {
        Seq::empty()
    } else {
        prompt_keys(parts, encoded, (n - 1) as nat) + part_keys(parts[n - 1], encoded)
    }
}

/// Where part `i` starts.
pub open spec fn part_start(parts: Seq<Part>, encoded: Seq<(usize, i64)>, i: nat) -> nat {
    prompt_keys(parts, encoded, i).len()
}

/// Among the first `n` parts, a token from position `from` on is outside the vocabulary.
pub open spec fn strange_token(
    parts: Seq<Part>,
    encoded: Seq<(usize, i64)>,
    vocab: usize,
    from: nat,
    n: nat,
) -> bool {
    exists|i: int|
        0 <= i < n && strange_from(
            #[trigger] parts[i],
            vocab,
            from - part_start(parts, encoded, i as nat),
        )
}

/// A token of the part from the `from`th on is outside the vocabulary.
pub open spec fn strange_from(part: Part, vocab: usize, from: int) -> bool {
    exists|j: int| j >= from && #[trigger] strange_at(part, vocab, j)
}

/// Token `j` of the part is outside the vocabulary.
pub open spec fn strange_at(part: Part, vocab: usize, j: int) -> bool {
    part matches Part::Text(tokens) && 0 <= j < tokens.len() && !in_vocabulary(tokens[j], vocab)
}

/// Rows of one part to embed: `from..to` of the part.
#[derive(Clone, Copy, Debug, PartialEq, Eq, Structural)]
pub struct Rows {
    pub part: usize,
    pub from: usize,
    pub to: usize,
}

/// The rows of part `i` that are not reused.
pub open spec fn rows_of_part(
    parts: Seq<Part>,
    encoded: Seq<(usize, i64)>,
    reused: nat,
    i: nat,
) -> Seq<Rows> {
    let start = part_start(parts, encoded, i);
    let end = part_start(parts, encoded, i + 1);
    let from = if reused > start {
        reused
    } else {
        start
    };
    if from < end {
        seq![
            Rows { part: i as usize, from: (from - start) as usize, to: (end - start) as usize },
        ]
    } else {
        Seq::empty()
    }
}

/// The rows of the first `n` parts that are not reused.
pub open spec fn rows_to_embed(
    parts: Seq<Part>,
    encoded: Seq<(usize, i64)>,
    reused: nat,
    n: nat,
) -> Seq<Rows>
    decreases n,
{
    if n == 0 {
        Seq::empty()
    } else {
        rows_to_embed(parts, encoded, reused, (n - 1) as nat) + rows_of_part(
            parts,
            encoded,
            reused,
            (n - 1) as nat,
        )
    }
}

/// One causal forward: positions `from..to` of the prompt, of which the rows from `kept` on are
/// wanted (none where it is `to`).
#[derive(Clone, Copy, Debug, PartialEq, Eq, Structural)]
pub struct Batch {
    pub from: usize,
    pub to: usize,
    pub kept: usize,
}

/// The forwards of positions `pos..total`, at most `size` rows each; the last `kept` rows are
/// wanted.
pub open spec fn batches_of(pos: nat, total: nat, size: nat, kept: nat) -> Seq<Batch>
    decreases total - pos,
{
    if pos >= total || size == 0 {
        Seq::empty()
    } else {
        let to = if pos + size < total {
            pos + size
        } else {
            total
        };
        let first = total - kept;
        let wanted = if first <= pos {
            pos as int
        } else if first < to {
            first
        } else {
            to as int
        };
        seq![Batch { from: pos as usize, to: to as usize, kept: wanted as usize }] + batches_of(
            to,
            total,
            size,
            kept,
        )
    }
}

/// What a prefill computes.
#[derive(Debug)]
pub struct RowsPlan {
    /// Keys of the whole prompt.
    pub keys: Vec<i64>,
    pub reused: usize,
    pub rows: Vec<Rows>,
    pub batches: Vec<Batch>,
    /// Positions of the prompt.
    pub length: usize,
}

impl Cache {
    /// The positions kept from the resident prompt.
    pub open spec fn resident(self) -> Seq<i64> {
        if self.prompt_cache {
            self.cached@
        } else {
            Seq::empty()
        }
    }

    /// The positions of a prompt that need not be computed: what it shares with the resident one,
    /// but for the last `kept`.
    pub open spec fn reusable(self, keys: Seq<i64>, kept: nat) -> nat {
        let common = shared(keys, self.resident(), 0);
        if common < keys.len() - kept {
            common
        } else {
            (keys.len() - kept) as nat
        }
    }

    /// The limits of a loaded model.
    pub open spec fn loaded(self) -> bool {
        0 < self.batch_size && self.n_ctx <= usize::MAX / 8
    }
}

/// Why a prefill that wants the last `kept` rows is refused, before anything changes.
pub open spec fn prefill_fault(
    cache: Cache,
    parts: Seq<Part>,
    kept: usize,
) -> Option<ErrorModel> {
    let keys = prompt_keys(parts, cache.encoded@, parts.len());
    if exists|i: int| 0 <= i < parts.len() && !known(#[trigger] parts[i], cache.encoded@) {
        Some(ErrorModel::InvalidInput("Unknown image part"@))
    } else if keys.len() > cache.n_ctx {
        Some(ErrorModel::InvalidInput("Prompt exceeds context size"@))
    } else if kept > keys.len() || kept > cache.batch_size {
        Some(ErrorModel::InvalidInput("predicted rows exceed the prompt or batch"@))
    } else {
        None
    }
}

// ---------------------------------------------------------------------------------------------
// Laws of a plan
// ---------------------------------------------------------------------------------------------

/// The batches run from `from` to `to` without a gap, and their wanted rows end each of them.
pub open spec fn covers(batches: Seq<Batch>, from: nat, to: nat, size: nat) -> bool {
    &&& batches.len() == 0 ==> from == to
    &&& batches.len() > 0 ==> batches[0].from == from && batches.last().to == to
    &&& forall|i: int|
        0 <= i < batches.len() ==> (#[trigger] batches[i]).from < batches[i].to <= batches[i].from
            + size && batches[i].from <= batches[i].kept <= batches[i].to
    &&& forall|i: int|
        0 <= i < batches.len() - 1 ==> (#[trigger] batches[i]).to == batches[i + 1].from
}

/// The wanted rows of the batches.
pub open spec fn wanted_rows(batches: Seq<Batch>) -> int
    decreases batches.len(),
{
    if batches.len() == 0 {
        0
    } else {
        batches[0].to - batches[0].kept + wanted_rows(batches.drop_first())
    }
}

/// The forwards of a prefill compute the positions that are not reused, once and in order and at
/// most a batch at a time, and the rows they hand out are exactly the last `kept` ones.
pub proof fn law_batches_cover_the_rest_once(pos: nat, total: nat, size: nat, kept: nat)
    requires
        0 < size,
        pos <= total <= usize::MAX,
        kept <= total - pos,
    ensures
        covers(batches_of(pos, total, size, kept), pos, total, size),
        wanted_rows(batches_of(pos, total, size, kept)) == kept,
        forall|i: int|
            0 <= i < batches_of(pos, total, size, kept).len() ==> {
                let b = #[trigger] batches_of(pos, total, size, kept)[i];
                b.kept == b.to || b.kept == b.from || b.kept == total - kept
            },
{
    lemma_batches(pos, total, size, kept);
}

/// The rows wanted from `pos` on.
pub open spec fn wanted_from(pos: nat, total: nat, kept: nat) -> int {
    if total - kept >= pos {
        kept as int
    } else {
        total - pos
    }
}

proof fn lemma_batches(pos: nat, total: nat, size: nat, kept: nat)
    requires
        0 < size,
        pos <= total <= usize::MAX,
        kept <= total,
    ensures
        covers(batches_of(pos, total, size, kept), pos, total, size),
        wanted_rows(batches_of(pos, total, size, kept)) == wanted_from(pos, total, kept),
        forall|i: int|
            0 <= i < batches_of(pos, total, size, kept).len() ==> {
                let b = #[trigger] batches_of(pos, total, size, kept)[i];
                b.kept == b.to || b.kept == b.from || b.kept == total - kept
            },
    decreases total - pos,
{
    if pos < total {
        let list = batches_of(pos, total, size, kept);
        let to = if pos + size < total {
            pos + size
        } else {
            total
        };
        let rest = batches_of(to, total, size, kept);
        lemma_batches(to, total, size, kept);
        assert(list.drop_first() =~= rest);
        assert forall|i: int| 0 <= i < list.len() implies (#[trigger] list[i]).from < list[i].to
            <= list[i].from + size && list[i].from <= list[i].kept <= list[i].to by {
            if i > 0 {
                assert(list[i] == rest[i - 1]);
            }
        }
        assert forall|i: int| 0 <= i < list.len() - 1 implies (#[trigger] list[i]).to == list[i
            + 1].from by {
            if i > 0 {
                assert(list[i] == rest[i - 1] && list[i + 1] == rest[i]);
            } else {
                assert(list[1] == rest[0]);
            }
        }
        assert forall|i: int| 0 <= i < list.len() implies {
            let b = #[trigger] list[i];
            b.kept == b.to || b.kept == b.from || b.kept == total - kept
        } by {
            if i > 0 {
                assert(list[i] == rest[i - 1]);
            }
        }
        if rest.len() > 0 {
            assert(list.last() == rest.last());
        }
    }
}

proof fn lemma_shared_prefix(a: Seq<i64>, b: Seq<i64>, i: nat)
    requires
        i <= a.len(),
        i <= b.len(),
        forall|k: int| 0 <= k < i ==> a[k] == b[k],
    ensures
        shared(a, b, i) <= a.len(),
        shared(a, b, i) <= b.len(),
        forall|k: int| 0 <= k < shared(a, b, i) ==> a[k] == b[k],
    decreases a.len() - i,
{
    if i < a.len() && i < b.len() && a[i as int] == b[i as int] {
        lemma_shared_prefix(a, b, i + 1);
    }
}

/// The positions that are not computed again are resident with the same keys, and none of the
/// last `kept` is among them.
pub proof fn law_reused_positions_are_resident(cache: Cache, keys: Seq<i64>, kept: nat)
    requires
        kept <= keys.len(),
    ensures
        cache.reusable(keys, kept) <= keys.len() - kept,
        cache.reusable(keys, kept) <= cache.resident().len(),
        keys.take(cache.reusable(keys, kept) as int) == cache.resident().take(
            cache.reusable(keys, kept) as int,
        ),
{
    lemma_shared_prefix(keys, cache.resident(), 0);
    let n = cache.reusable(keys, kept) as int;
    assert(keys.take(n) =~= cache.resident().take(n));
}

// ---------------------------------------------------------------------------------------------
// Prefill
// ---------------------------------------------------------------------------------------------

fn append_tokens(keys: &mut Vec<i64>, tokens: &Vec<i32>)
    ensures
        final(keys)@ == old(keys)@ + Seq::new(tokens@.len(), |i: int| tokens@[i] as i64),
{
    let ghost before = keys@;
    let ghost more = Seq::new(tokens@.len(), |i: int| tokens@[i] as i64);
    let mut i: usize = 0;
    assert(before + more.take(0) =~= before);
    while i < tokens.len()
        invariant
            i <= tokens@.len(),
            more == Seq::new(tokens@.len(), |i: int| tokens@[i] as i64),
            keys@ == before + more.take(i as int),
        decreases tokens@.len() - i,
    {
        keys.push(tokens[i] as i64);
        assert(more.take(i + 1) =~= more.take(i as int).push(more[i as int]));
        assert(keys@ =~= before + more.take(i + 1));
        i += 1;
    }
    assert(more.take(i as int) =~= more);
}

fn append_copies(keys: &mut Vec<i64>, key: i64, count: usize)
    ensures
        final(keys)@ == old(keys)@ + Seq::new(count as nat, |i: int| key),
{
    let ghost before = keys@;
    let ghost more = Seq::new(count as nat, |i: int| key);
    let mut i: usize = 0;
    assert(before + more.take(0) =~= before);
    while i < count
        invariant
            i <= count,
            more == Seq::new(count as nat, |i: int| key),
            keys@ == before + more.take(i as int),
        decreases count - i,
    {
        keys.push(key);
        assert(more.take(i + 1) =~= more.take(i as int).push(more[i as int]));
        assert(keys@ =~= before + more.take(i + 1));
        i += 1;
    }
    assert(more.take(i as int) =~= more);
}

fn list_batches(pos: usize, total: usize, size: usize, kept: usize) -> (r: Vec<Batch>)
    requires
        size > 0,
        kept <= total,
    ensures
        r@ == batches_of(pos as nat, total as nat, size as nat, kept as nat),
{
    let mut list: Vec<Batch> = Vec::new();
    let ghost all = batches_of(pos as nat, total as nat, size as nat, kept as nat);
    let first: usize = total - kept;
    let mut at: usize = pos;
    assert(list@ + all =~= all);
    while at < total
        invariant
            size > 0,
            kept <= total,
            first == total - kept,
            list@ + batches_of(at as nat, total as nat, size as nat, kept as nat) == all,
        decreases total - at,
    {
        let to: usize = if total - at > size {
            at + size
        } else {
            total
        };
        let wanted: usize = if first <= at {
            at
        } else if first < to {
            first
        } else {
            to
        };
        let batch: Batch = Batch { from: at, to, kept: wanted };
        proof {
            let rest = batches_of(to as nat, total as nat, size as nat, kept as nat);
            assert(batches_of(at as nat, total as nat, size as nat, kept as nat) == seq![batch]
                + rest);
            assert(list@ + (seq![batch] + rest) =~= list@.push(batch) + rest);
        }
        list.push(batch);
        at = to;
    }
    assert(list@ =~= all);
    list
}

/// The keys of all positions, and where each part ends.
fn collect(parts: &Vec<PromptPart>, encoded: &Vec<(usize, i64)>) -> (r: Option<
    (Vec<i64>, Vec<usize>),
>)
    ensures
        r is None <==> exists|i: int|
            0 <= i < parts@.len() && !known(#[trigger] parts_model(parts@)[i], encoded@),
        r matches Some((keys, ends)) ==> {
            let all = parts_model(parts@);
            &&& keys@ == prompt_keys(all, encoded@, all.len())
            &&& ends@.len() == all.len()
            &&& forall|i: int|
                0 <= i < ends@.len() ==> #[trigger] ends@[i] == part_start(
                    all,
                    encoded@,
                    (i + 1) as nat,
                )
        },
{
    let ghost all = parts_model(parts@);
    let mut keys: Vec<i64> = Vec::new();
    let mut ends: Vec<usize> = Vec::new();
    let mut i: usize = 0;
    while i < parts.len()
        invariant
            i <= parts@.len(),
            all == parts_model(parts@),
            keys@ == prompt_keys(all, encoded@, i as nat),
            ends@.len() == i,
            forall|k: int|
                0 <= k < ends@.len() ==> #[trigger] ends@[k] == part_start(
                    all,
                    encoded@,
                    (k + 1) as nat,
                ),
            forall|k: int| 0 <= k < i ==> known(#[trigger] all[k], encoded@),
        decreases parts@.len() - i,
    {
        assert(all[i as int] == parts@[i as int]@);
        match &parts[i] {
            PromptPart::Text(tokens) => {
                append_tokens(&mut keys, tokens);
            },
            PromptPart::Image { tokens, index } => {
                if *index >= encoded.len() || encoded[*index].0 != *tokens {
                    assert(!known(all[i as int], encoded@));
                    return None;
                }
                append_copies(&mut keys, encoded[*index].1, *tokens);
            },
        }
        ends.push(keys.len());
        i += 1;
    }
    Some((keys, ends))
}

/// The rows of the parts that are not reused; none where one is a token outside the vocabulary.
fn list_rows(
    parts: &Vec<PromptPart>,
    ends: &Vec<usize>,
    reused: usize,
    vocab: usize,
    Ghost(encoded): Ghost<Seq<(usize, i64)>>,
) -> (r: Option<Vec<Rows>>)
    requires
        ends@.len() == parts@.len(),
        forall|i: int|
            0 <= i < ends@.len() ==> #[trigger] ends@[i] == part_start(
                parts_model(parts@),
                encoded,
                (i + 1) as nat,
            ),
    ensures
        r is None <==> strange_token(
            parts_model(parts@),
            encoded,
            vocab,
            reused as nat,
            parts@.len(),
        ),
        r matches Some(rows) ==> rows@ == rows_to_embed(
            parts_model(parts@),
            encoded,
            reused as nat,
            parts@.len(),
        ),
{
    let ghost all = parts_model(parts@);
    let mut rows: Vec<Rows> = Vec::new();
    let mut start: usize = 0;
    let mut i: usize = 0;
    assert(prompt_keys(all, encoded, 0).len() == 0);
    while i < parts.len()
        invariant
            i <= parts@.len(),
            all == parts_model(parts@),
            ends@.len() == parts@.len(),
            forall|k: int|
                0 <= k < ends@.len() ==> #[trigger] ends@[k] == part_start(
                    all,
                    encoded,
                    (k + 1) as nat,
                ),
            start == part_start(all, encoded, i as nat),
            rows@ == rows_to_embed(all, encoded, reused as nat, i as nat),
            !strange_token(all, encoded, vocab, reused as nat, i as nat),
        decreases parts@.len() - i,
    {
        assert(all[i as int] == parts@[i as int]@);
        let end: usize = ends[i];
        let from: usize = if reused > start {
            reused
        } else {
            start
        };
        let ghost before = rows@;
        if from < end {
            match &parts[i] {
                PromptPart::Text(tokens) => {
                    let mut j: usize = from - start;
                    while j < tokens.len()
                        invariant
                            i < parts@.len(),
                            all == parts_model(parts@),
                            all[i as int] == Part::Text(tokens@),
                            start == part_start(all, encoded, i as nat),
                            from == if reused > start {
                                reused
                            } else {
                                start
                            },
                            from - start <= j <= tokens@.len(),
                            forall|k: int|
                                from - start <= k < j ==> in_vocabulary(
                                    #[trigger] tokens@[k],
                                    vocab,
                                ),
                        decreases tokens@.len() - j,
                    {
                        if tokens[j] < 0 || tokens[j] as u64 >= vocab as u64 {
                            proof {
                                assert(strange_at(all[i as int], vocab, j as int));
                                assert(strange_from(all[i as int], vocab, reused - start));
                                assert(strange_token(
                                    all,
                                    encoded,
                                    vocab,
                                    reused as nat,
                                    parts@.len(),
                                ));
                            }
                            return None;
                        }
                        j += 1;
                    }
                },
                PromptPart::Image { .. } => {},
            }
            rows.push(Rows { part: i, from: from - start, to: end - start });
        }
        proof {
            assert(rows@ =~= before + rows_of_part(all, encoded, reused as nat, i as nat));
            assert forall|a: int| 0 <= a < i + 1 implies !strange_from(
                #[trigger] all[a],
                vocab,
                reused - part_start(all, encoded, a as nat),
            ) by {
                if a == i {
                    if strange_from(all[i as int], vocab, reused - start) {
                        let j = choose|j: int|
                            j >= reused - start && #[trigger] strange_at(all[i as int], vocab, j);
                        let tokens = all[i as int]->Text_0;
                        assert(part_keys(all[i as int], encoded).len() == tokens.len());
                        assert(!in_vocabulary(tokens[j], vocab));
                    }
                }
            }
        }
        start = end;
        i += 1;
    }
    Some(rows)
}

/// The plan of a prefill that wants the last `kept` rows, or why there is none; and what stays
/// resident meanwhile.
pub open spec fn rows_planned(
    before: Cache,
    parts: Seq<Part>,
    kept: usize,
    after: Cache,
    r: Result<RowsPlan>,
) -> bool {
    let encoded = before.encoded@;
    let keys = prompt_keys(parts, encoded, parts.len());
    let reused = before.reusable(keys, kept as nat);
    let fault = prefill_fault(before, parts, kept);
    let strange = strange_token(parts, encoded, before.vocab, reused, parts.len());
    &&& r is Ok <==> fault is None && !strange
    &&& fault is Some ==> (r matches Err(e) && fault == Some(e@) && after == before)
    &&& fault is None ==> after.cached@ == keys.take(reused as int) && after == (Cache {
        cached: after.cached,
        ..before
    })
    &&& fault is None && strange ==> (r matches Err(e) && e@ == ErrorModel::InvalidInput(
        "token id out of range"@,
    ))
    &&& r matches Ok(plan) ==> {
        &&& plan.keys@ == keys
        &&& plan.length == keys.len()
        &&& plan.reused == reused
        &&& plan.rows@ == rows_to_embed(parts, encoded, reused, parts.len())
        &&& plan.batches@ == batches_of(reused, keys.len(), before.batch_size as nat, kept as nat)
    }
}

/// Once all batches of a plan are computed, the whole prompt is resident: the first starts after the
/// reused positions, each starts where the one before it ended, and the last ends with the prompt.
pub proof fn law_after_all_batches_the_prompt_is_resident(
    before: Cache,
    parts: Seq<Part>,
    kept: usize,
    after: Cache,
    r: Result<RowsPlan>,
)
    requires
        before.loaded(),
        rows_planned(before, parts, kept, after, r),
        r is Ok,
    ensures
        ({
            let plan = r->Ok_0;
            let end = if plan.batches@.len() == 0 {
                plan.reused
            } else {
                plan.batches@.last().to
            };
            &&& after.cached@ == plan.keys@.take(plan.reused as int)
            &&& plan.batches@.len() > 0 ==> plan.batches@[0].from == plan.reused
            &&& forall|i: int|
                0 <= i < plan.batches@.len() - 1 ==> (#[trigger] plan.batches@[i]).to
                    == plan.batches@[i + 1].from
            &&& plan.keys@.take(end as int) == plan.keys@
        }),
{
    let plan = r->Ok_0;
    let keys = prompt_keys(parts, before.encoded@, parts.len());
    law_reused_positions_are_resident(before, keys, kept as nat);
    law_batches_cover_the_rest_once(
        before.reusable(keys, kept as nat),
        keys.len(),
        before.batch_size as nat,
        kept as nat,
    );
    assert(plan.keys@.take(plan.keys@.len() as int) =~= plan.keys@);
}

/// The profile of one more prefill.
pub open spec fn charged(profile: PrefillProfile, batches: nat, processed: nat, reused: nat) -> PrefillProfile {
    PrefillProfile {
        calls: clamp((profile.calls + 1) as nat),
        batches: clamp((profile.batches + batches) as nat),
        processed_tokens: clamp((profile.processed_tokens + processed) as nat),
        reused_tokens: clamp((profile.reused_tokens + reused) as nat),
    }
}

impl Cache {
    /// Plans to make `parts` the resident prompt (the suffix is its last part), evaluating the last
    /// `kept` positions even when they are cached. Positions are computed after the longest cached
    /// prefix, which is what stays resident. A token outside the vocabulary is found only after that
    /// prefix was settled.
    pub fn prefill_rows(&mut self, parts: &Vec<PromptPart>, kept: usize) -> (r: Result<RowsPlan>)
        requires
            old(self).loaded(),
        ensures
            rows_planned(*old(self), parts_model(parts@), kept, *final(self), r),
    {
        let ghost all = parts_model(parts@);
        let ghost keys_model = prompt_keys(all, self.encoded@, all.len());
        let (keys, ends): (Vec<i64>, Vec<usize>) = match collect(parts, &self.encoded) {
            Some(found) => found,
            None => {
                return Err(Error::input("Unknown image part"));
            },
        };
        if keys.len() > self.n_ctx {
            return Err(Error::input("Prompt exceeds context size"));
        }
        if kept > keys.len() || kept > self.batch_size {
            return Err(Error::input("predicted rows exceed the prompt or batch"));
        }
        proof {
            law_reused_positions_are_resident(*self, keys_model, kept as nat);
        }
        if !self.prompt_cache {
            self.cached.clear();
        }
        assert(self.cached@ =~= old(self).resident());
        let common: usize = common_prefix(&keys, &self.cached);
        let reused: usize = if common < keys.len() - kept {
            common
        } else {
            keys.len() - kept
        };
        self.cached.truncate(reused);
        assert(self.cached@ =~= keys@.take(reused as int));
        let rows: Vec<Rows> = match list_rows(
            parts,
            &ends,
            reused,
            self.vocab,
            Ghost(self.encoded@),
        ) {
            Some(rows) => rows,
            None => {
                return Err(Error::input("token id out of range"));
            },
        };
        let batches: Vec<Batch> = list_batches(reused, keys.len(), self.batch_size, kept);
        let length: usize = keys.len();
        Ok(RowsPlan { keys, reused, rows, batches, length })
    }

    /// Notes that a batch of the plan was computed: its positions are resident. A batch that fails
    /// leaves those before it.
    pub fn accept(&mut self, plan: &RowsPlan, batch: usize)
        requires
            batch < plan.batches@.len(),
            plan.batches@[batch as int].from <= plan.batches@[batch as int].to,
            plan.batches@[batch as int].to <= plan.keys@.len(),
            old(self).cached@ == plan.keys@.take(plan.batches@[batch as int].from as int),
        ensures
            final(self).cached@ == plan.keys@.take(plan.batches@[batch as int].to as int),
            *final(self) == (Cache { cached: final(self).cached, ..*old(self) }),
    {
        let from: usize = plan.batches[batch].from;
        let to: usize = plan.batches[batch].to;
        let ghost before = *self;
        let mut i: usize = from;
        while i < to
            invariant
                from <= i <= to <= plan.keys@.len(),
                self.cached@ == plan.keys@.take(i as int),
                *self == (Cache { cached: self.cached, ..before }),
            decreases to - i,
        {
            self.cached.push(plan.keys[i]);
            assert(self.cached@ =~= plan.keys@.take(i + 1));
            i += 1;
        }
    }

    /// Notes that all batches of the plan were computed: the canvas before is gone, and the work
    /// counts.
    pub fn settle(&mut self, plan: &RowsPlan)
        requires
            plan.reused <= plan.length,
            old(self).cached@ == plan.keys@,
        ensures
            *final(self) == (Cache {
                canvas: None,
                logits: false,
                profile: charged(
                    old(self).profile,
                    plan.batches@.len(),
                    (plan.length - plan.reused) as nat,
                    plan.reused as nat,
                ),
                ..*old(self)
            }),
    {
        self.canvas = None;
        self.logits = false;
        self.profile.calls = self.profile.calls.saturating_add(1);
        self.profile.batches = self.profile.batches.saturating_add(plan.batches.len());
        self.profile.processed_tokens = self.profile.processed_tokens.saturating_add(
            plan.length - plan.reused,
        );
        self.profile.reused_tokens = self.profile.reused_tokens.saturating_add(plan.reused);
    }

    /// Plans to make `parts` the resident prompt, and wants the last `rows` rows to predict from.
    pub fn prefill_predict(&mut self, parts: &Vec<PromptPart>, rows: usize) -> (r: Result<RowsPlan>)
        requires
            old(self).loaded(),
        ensures
            rows == 0 ==> (r matches Err(e) && e@ == ErrorModel::InvalidInput(
                "no rows to predict"@,
            ) && *final(self) == *old(self)),
            rows > 0 ==> rows_planned(*old(self), parts_model(parts@), rows, *final(self), r),
    {
        if rows == 0 {
            return Err(Error::input("no rows to predict"));
        }
        self.prefill_rows(parts, rows)
    }

    /// The forward of a canvas after a resident prompt of `prompt_length` positions. There is no
    /// self-conditioning.
    pub fn forward_canvas(
        &mut self,
        tokens: &Vec<i32>,
        prompt_length: usize,
        conditioned: bool,
        full: bool,
    ) -> (r: Result<Frame>)
        requires
            old(self).loaded(),
        ensures
            r matches Err(e) ==> canvas_fault(*old(self), tokens@, prompt_length, conditioned)
                == Some(e@) && *final(self) == *old(self),
            r matches Ok(f) ==> canvas_fault(*old(self), tokens@, prompt_length, conditioned) is None
                && f.start == prompt_length && f.rows == tokens@.len() && !f.causal && f.fits(
                old(self).capacity,
            ) && *final(self) == (Cache {
                canvas: Some(tokens@.len() as usize),
                logits: full,
                ..*old(self)
            }),
    {
        if conditioned {
            return Err(Error::input("Nemotron-Labs-Diffusion has no self-conditioning"));
        }
        if prompt_length != self.cached.len() {
            return Err(Error::input("canvas does not follow the resident prompt"));
        }
        if tokens.len() == 0 || tokens.len() > self.batch_size {
            return Err(Error::input("canvas exceeds the batch size"));
        }
        if !all_in_vocabulary(tokens, self.vocab) {
            return Err(Error::input("token id out of range"));
        }
        let f: Frame = frame(prompt_length, tokens.len(), false, self.n_ctx, self.capacity)?;
        self.logits = full;
        self.canvas = Some(tokens.len());
        Ok(f)
    }

    /// Whether the scores of `candidates` at a row of the last canvas can be computed.
    pub fn check_candidates(&self, row: usize, candidates: &Vec<i32>) -> (r: Result<()>)
        ensures
            r is Ok <==> candidate_fault(*self, row, candidates@) is None,
            r matches Err(e) ==> candidate_fault(*self, row, candidates@) == Some(e@),
    {
        match self.canvas {
            None => Err(Error::MissingLogits),
            Some(rows) => {
                if row >= rows || candidates.len() == 0 {
                    return Err(Error::input("invalid logit row or candidate"));
                }
                if !all_in_vocabulary(candidates, self.vocab) {
                    return Err(Error::input("token id out of range"));
                }
                Ok(())
            },
        }
    }
}

/// Why a canvas is refused.
pub open spec fn canvas_fault(
    cache: Cache,
    tokens: Seq<i32>,
    prompt_length: usize,
    conditioned: bool,
) -> Option<ErrorModel> {
    if conditioned {
        Some(ErrorModel::InvalidInput("Nemotron-Labs-Diffusion has no self-conditioning"@))
    } else if prompt_length != cache.cached@.len() {
        Some(ErrorModel::InvalidInput("canvas does not follow the resident prompt"@))
    } else if tokens.len() == 0 || tokens.len() > cache.batch_size {
        Some(ErrorModel::InvalidInput("canvas exceeds the batch size"@))
    } else if exists|i: int|
        0 <= i < tokens.len() && !in_vocabulary(#[trigger] tokens[i], cache.vocab) {
        Some(ErrorModel::InvalidInput("token id out of range"@))
    } else if prompt_length + tokens.len() > cache.n_ctx {
        Some(ErrorModel::InvalidInput("Prompt and canvas exceed the context size"@))
    } else {
        None
    }
}

/// Why candidate scores are refused.
pub open spec fn candidate_fault(cache: Cache, row: usize, candidates: Seq<i32>) -> Option<
    ErrorModel,
> {
    match cache.canvas {
        None => Some(ErrorModel::MissingLogits),
        Some(rows) => if row >= rows || candidates.len() == 0 {
            Some(ErrorModel::InvalidInput("invalid logit row or candidate"@))
        } else if exists|i: int|
            0 <= i < candidates.len() && !in_vocabulary(#[trigger] candidates[i], cache.vocab) {
            Some(ErrorModel::InvalidInput("token id out of range"@))
        } else {
            None
        },
    }
}

} // verus!
