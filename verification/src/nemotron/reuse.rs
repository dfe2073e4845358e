//! What the positions of a prompt are known by, and how much of a resident prompt is kept.
use crate::engine::config::Part;
use crate::gemma::reuse::lemma_shared_ends;
use crate::nemotron::prompt::{part_start, prompt_keys, Cache};
use vstd::prelude::*;

verus! {

/// The positions of text are known by their tokens, and those of an image by the key of its own encoded
/// image, in the order of the parts.
pub proof fn law_positions_are_known_by_their_tokens(
    parts: Seq<Part>,
    encoded: Seq<(usize, i64)>,
    n: nat,
    k: int,
    i: int,
)
    requires
        0 <= k < n <= parts.len(),
        parts[k] is Text ==> 0 <= i < parts[k]->Text_0.len(),
        parts[k] is Image ==> 0 <= i < parts[k]->tokens,
    ensures
        part_start(parts, encoded, k as nat) + i < prompt_keys(parts, encoded, n).len(),
        parts[k] is Text ==> prompt_keys(parts, encoded, n)[part_start(parts, encoded, k as nat) + i]
            == parts[k]->Text_0[i],
        parts[k] is Image ==> prompt_keys(parts, encoded, n)[part_start(parts, encoded, k as nat) + i]
            == encoded[parts[k]->index as int].1,
    decreases n,
{
    if k < n - 1 {
        law_positions_are_known_by_their_tokens(parts, encoded, (n - 1) as nat, k, i);
    }
}

/// As much of a resident prompt is kept as can be: all positions up to the first that differs, but for the
/// last ones whose predictions are wanted; and nothing where prompts are not kept.
pub proof fn law_all_common_positions_are_kept(cache: Cache, keys: Seq<i64>, kept: nat)
    requires
        kept <= keys.len(),
    ensures
        ({
            let n = cache.reusable(keys, kept) as int;
            &&& !cache.prompt_cache ==> n == 0
            &&& cache.prompt_cache ==> n <= cache.cached@.len() && n <= keys.len() - kept && (n
                == keys.len() - kept || n == cache.cached@.len() || keys[n] != cache.cached@[n])
        }),
{
    lemma_shared_ends(keys, cache.resident(), 0);
}

} // verus!
