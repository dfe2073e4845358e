//! Grouping of tokens by the experts they are routed to.
use crate::arith::div_ceil;
use vstd::prelude::*;

verus! {

/// The assignments among the first `n` that go to expert `e`, in order.
pub open spec fn rows_of(ids: Seq<u32>, e: int, n: nat) -> Seq<usize>
    decreases n,
{
    if n == 0 {
        Seq::empty()
    } else if ids[n - 1] == e {
        rows_of(ids, e, (n - 1) as nat).push((n - 1) as usize)
    } else {
        rows_of(ids, e, (n - 1) as nat)
    }
}

/// The assignments of the first `k` experts, expert by expert.
pub open spec fn sorted_to(ids: Seq<u32>, k: nat) -> Seq<usize>
    decreases k,
{
    if k == 0 {
        Seq::empty()
    } else {
        sorted_to(ids, (k - 1) as nat) + rows_of(ids, k - 1, ids.len())
    }
}

/// Where the assignments of expert `k` start.
pub open spec fn offset_of(ids: Seq<u32>, k: nat) -> nat {
    sorted_to(ids, k).len()
}

/// Tiles of `bm` that `count` rows take.
pub open spec fn tile_count(count: nat, bm: nat) -> nat {
    ((count + bm - 1) / bm as int) as nat
}

/// The tiles of expert `e`: its number, and where each tile starts.
pub open spec fn tiles_of(ids: Seq<u32>, e: nat, bm: nat) -> Seq<(usize, usize)> {
    Seq::new(
        tile_count(rows_of(ids, e as int, ids.len()).len(), bm),
        |t: int| (e as usize, (offset_of(ids, e) + t * bm) as usize),
    )
}

/// The tiles of the first `k` experts.
pub open spec fn jobs_to(ids: Seq<u32>, k: nat, bm: nat) -> Seq<(usize, usize)>
    decreases k,
{
    if k == 0 {
        Seq::empty()
    } else {
        jobs_to(ids, (k - 1) as nat, bm) + tiles_of(ids, (k - 1) as nat, bm)
    }
}

/// Assignments grouped by expert, and the row tiles that cover them.
#[derive(Debug)]
pub struct Groups {
    /// Assignments, expert by expert.
    pub sorted: Vec<usize>,
    /// Where each expert starts, and the end of the last.
    pub offsets: Vec<usize>,
    /// An expert, and the position of `sorted` where a tile of it starts.
    pub jobs: Vec<(usize, usize)>,
}

proof fn lemma_rows(ids: Seq<u32>, e: int, n: nat)
    requires
        n <= ids.len() <= usize::MAX,
    ensures
        rows_of(ids, e, n).len() <= n,
        forall|i: int|
            0 <= i < rows_of(ids, e, n).len() ==> (#[trigger] rows_of(ids, e, n)[i]) < n
                && ids[rows_of(ids, e, n)[i] as int] == e,
        forall|i: int, j: int|
            0 <= i < j < rows_of(ids, e, n).len() ==> (#[trigger] rows_of(ids, e, n)[i]) < (
            #[trigger] rows_of(ids, e, n)[j]),
        forall|a: int|
            0 <= a < n && #[trigger] ids[a] == e ==> rows_of(ids, e, n).contains(a as usize),
    decreases n,
{
    if n > 0 {
        let before = rows_of(ids, e, (n - 1) as nat);
        lemma_rows(ids, e, (n - 1) as nat);
        let all = rows_of(ids, e, n);
        assert forall|a: int| 0 <= a < n && #[trigger] ids[a] == e implies all.contains(
            a as usize,
        ) by {
            if a < n - 1 {
                assert(before.contains(a as usize));
                let i = choose|i: int| 0 <= i < before.len() && before[i] == a as usize;
                assert(all[i] == a as usize);
            } else {
                assert(all[all.len() - 1] == a as usize);
            }
        }
    }
}

proof fn lemma_offsets_grow(ids: Seq<u32>, i: nat, k: nat)
    requires
        i <= k,
    ensures
        offset_of(ids, i) <= offset_of(ids, k),
        sorted_to(ids, k).take(offset_of(ids, i) as int) == sorted_to(ids, i),
    decreases k - i,
{
    if i < k {
        lemma_offsets_grow(ids, i, (k - 1) as nat);
        let a = sorted_to(ids, (k - 1) as nat);
        let b = rows_of(ids, k - 1, ids.len());
        assert((a + b).take(offset_of(ids, i) as int) =~= a.take(offset_of(ids, i) as int));
    } else {
        assert(sorted_to(ids, k).take(offset_of(ids, k) as int) =~= sorted_to(ids, k));
    }
}

/// Between two offsets lie the assignments of that expert.
pub proof fn law_groups_hold_their_experts_assignments(ids: Seq<u32>, experts: nat, e: nat)
    requires
        e < experts,
        ids.len() <= usize::MAX,
    ensures
        offset_of(ids, e) <= offset_of(ids, e + 1) <= sorted_to(ids, experts).len(),
        sorted_to(ids, experts).subrange(
            offset_of(ids, e) as int,
            offset_of(ids, e + 1) as int,
        ) == rows_of(ids, e as int, ids.len()),
        forall|p: int|
            offset_of(ids, e) <= p < offset_of(ids, e + 1) ==> {
                let a = #[trigger] sorted_to(ids, experts)[p];
                a < ids.len() && ids[a as int] == e
            },
{
    lemma_offsets_grow(ids, e, e + 1);
    lemma_offsets_grow(ids, e + 1, experts);
    lemma_rows(ids, e as int, ids.len());
    let all = sorted_to(ids, experts);
    let part = sorted_to(ids, e + 1);
    let rows = rows_of(ids, e as int, ids.len());
    let from = offset_of(ids, e) as int;
    assert(all.subrange(from, offset_of(ids, e + 1) as int) =~= rows) by {
        assert(all.take(part.len() as int) == part);
        assert forall|i: int| 0 <= i < rows.len() implies all[from + i] == rows[i] by {
            assert(all.take(part.len() as int)[from + i] == all[from + i]);
            assert(part[from + i] == rows[i]);
        }
    }
    assert forall|p: int| from <= p < offset_of(ids, e + 1) implies {
        let a = #[trigger] all[p];
        a < ids.len() && ids[a as int] == e
    } by {
        assert(all.subrange(from, offset_of(ids, e + 1) as int)[p - from] == all[p]);
        assert(rows[p - from] == all[p]);
    }
}

proof fn lemma_sorted_members(ids: Seq<u32>, k: nat)
    requires
        ids.len() <= usize::MAX,
    ensures
        sorted_to(ids, k).no_duplicates(),
        forall|i: int|
            0 <= i < sorted_to(ids, k).len() ==> (#[trigger] sorted_to(ids, k)[i]) < ids.len()
                && ids[sorted_to(ids, k)[i] as int] < k,
        forall|a: int|
            0 <= a < ids.len() && #[trigger] ids[a] < k ==> sorted_to(ids, k).contains(a as usize),
    decreases k,
{
    if k > 0 {
        lemma_sorted_members(ids, (k - 1) as nat);
        lemma_rows(ids, k - 1, ids.len());
        let a = sorted_to(ids, (k - 1) as nat);
        let b = rows_of(ids, k - 1, ids.len());
        let all = sorted_to(ids, k);
        assert forall|i: int| 0 <= i < all.len() implies (#[trigger] all[i]) < ids.len()
            && ids[all[i] as int] < k by {
            if i < a.len() {
                assert(all[i] == a[i]);
            } else {
                assert(all[i] == b[i - a.len()]);
            }
        }
        assert forall|i: int, j: int| 0 <= i < all.len() && 0 <= j < all.len() && i != j implies
            all[i] != all[j] by {
            if i < a.len() {
                assert(all[i] == a[i]);
            } else {
                assert(all[i] == b[i - a.len()]);
            }
            if j < a.len() {
                assert(all[j] == a[j]);
            } else {
                assert(all[j] == b[j - a.len()]);
            }
        }
        assert forall|x: int| 0 <= x < ids.len() && #[trigger] ids[x] < k implies all.contains(
            x as usize,
        ) by {
            if ids[x] == k - 1 {
                assert(b.contains(x as usize));
                let i = choose|i: int| 0 <= i < b.len() && b[i] == x as usize;
                assert(all[a.len() + i] == x as usize);
            } else {
                assert(a.contains(x as usize));
                let i = choose|i: int| 0 <= i < a.len() && a[i] == x as usize;
                assert(all[i] == x as usize);
            }
        }
    }
}

/// Grouping covers every assignment to an expert exactly once.
pub proof fn law_every_assignment_is_grouped_once(ids: Seq<u32>, experts: nat)
    requires
        ids.len() <= usize::MAX,
    ensures
        sorted_to(ids, experts).no_duplicates(),
        forall|a: int|
            0 <= a < ids.len() ==> (sorted_to(ids, experts).contains(a as usize)
                <==> #[trigger] ids[a] < experts),
{
    lemma_sorted_members(ids, experts);
    let all = sorted_to(ids, experts);
    assert forall|a: int| 0 <= a < ids.len() implies (all.contains(a as usize)
        <==> #[trigger] ids[a] < experts) by {
        if all.contains(a as usize) {
            let i = choose|i: int| 0 <= i < all.len() && all[i] == a as usize;
            assert(ids[all[i] as int] < experts);
        }
    }
}

/// The tiles of an expert cover its assignments, each by the one tile that starts within `bm`
/// positions before it.
pub proof fn law_tiles_cover_each_group_once(ids: Seq<u32>, e: nat, bm: nat, p: nat)
    requires
        bm > 0,
        ids.len() <= usize::MAX,
        e <= usize::MAX,
        offset_of(ids, e) <= p < offset_of(ids, e + 1) <= usize::MAX,
    ensures
        exists|t: int|
            0 <= t < tiles_of(ids, e, bm).len() && (#[trigger] tiles_of(ids, e, bm)[t]).1 <= p < (
            tiles_of(ids, e, bm)[t].1 + bm),
        forall|t: int, u: int|
            0 <= t < tiles_of(ids, e, bm).len() && 0 <= u < tiles_of(ids, e, bm).len() && (
            #[trigger] tiles_of(ids, e, bm)[t]).1 <= p < tiles_of(ids, e, bm)[t].1 + bm && (
            #[trigger] tiles_of(ids, e, bm)[u]).1 <= p < tiles_of(ids, e, bm)[u].1 + bm ==> t == u,
{
    let start = offset_of(ids, e) as int;
    let count = rows_of(ids, e as int, ids.len()).len();
    let n = tile_count(count, bm);
    let b = bm as int;
    let x = p - start;
    let t = x / b;
    let tiles = tiles_of(ids, e, bm);
    assert(t * b <= x < t * b + b && t >= 0) by (nonlinear_arith)
        requires
            t == x / b,
            b > 0,
            x >= 0,
    ;
    assert(t < n) by (nonlinear_arith)
        requires
            n == (count + b - 1) / b,
            t == x / b,
            0 <= x < count,
            b > 0,
    ;
    assert(tiles[t] == (e as usize, (start + t * b) as usize));
    assert forall|i: int| 0 <= i < tiles.len() implies (#[trigger] tiles[i]).1 == start + i * b by {
        assert(0 <= i * b <= count) by (nonlinear_arith)
            requires
                0 <= i < (count + b - 1) / b,
                b > 0,
                count >= 0,
        ;
    }
    assert(tiles[t].1 <= p < tiles[t].1 + bm);
    assert forall|i: int, u: int|
        0 <= i < tiles.len() && 0 <= u < tiles.len() && (#[trigger] tiles[i]).1 <= p < tiles[i].1
            + bm && (#[trigger] tiles[u]).1 <= p < tiles[u].1 + bm implies i == u by {
        assert(i == u) by (nonlinear_arith)
            requires
                i * b <= x < i * b + b,
                u * b <= x < u * b + b,
                b > 0,
        ;
    }
}

fn append_rows(ids: &Vec<u32>, e: usize, sorted: &mut Vec<usize>)
    requires
        e <= u32::MAX,
    ensures
        final(sorted)@ == old(sorted)@ + rows_of(ids@, e as int, ids@.len()),
{
    let ghost before = sorted@;
    let mut a: usize = 0;
    assert(before + rows_of(ids@, e as int, 0) =~= before);
    while a < ids.len()
        invariant
            a <= ids@.len(),
            e <= u32::MAX,
            sorted@ == before + rows_of(ids@, e as int, a as nat),
        decreases ids@.len() - a,
    {
        if ids[a] == e as u32 {
            sorted.push(a);
            assert(sorted@ =~= before + rows_of(ids@, e as int, (a + 1) as nat));
        }
        a += 1;
    }
}

fn append_tiles(e: usize, start: usize, end: usize, bm: usize, jobs: &mut Vec<(usize, usize)>)
    requires
        bm > 0,
        start <= end,
    ensures
        final(jobs)@ == old(jobs)@ + Seq::new(
            tile_count((end - start) as nat, bm as nat),
            |t: int| (e, (start + t * bm) as usize),
        ),
{
    let ghost before = jobs@;
    let n: usize = div_ceil(end - start, bm);
    let ghost want = Seq::new(n as nat, |t: int| (e, (start + t * bm) as usize));
    let mut t: usize = 0;
    assert(before + want.take(0) =~= before);
    while t < n
        invariant
            t <= n,
            n == tile_count((end - start) as nat, bm as nat),
            bm > 0,
            start <= end,
            want == Seq::new(n as nat, |t: int| (e, (start + t * bm) as usize)),
            jobs@ == before + want.take(t as int),
        decreases n - t,
    {
        proof {
            let (i, b, c) = (t as int, bm as int, end - start);
            assert(0 <= i * b <= c) by (nonlinear_arith)
                requires
                    0 <= i < (c + b - 1) / b,
                    b > 0,
                    c >= 0,
            ;
        }
        jobs.push((e, start + t * bm));
        assert(want.take(t + 1) =~= want.take(t as int).push(want[t as int]));
        assert(jobs@ =~= before + want.take(t + 1));
        t += 1;
    }
    assert(want.take(n as int) =~= want);
}

/// Groups assignments (a token with one of its experts) by expert, in order within each, and cuts
/// each group into row tiles of `bm`.
pub fn group(ids: &Vec<u32>, experts: usize, bm: usize) -> (r: Groups)
    requires
        bm > 0,
        experts <= u32::MAX,
    ensures
        r.sorted@ == sorted_to(ids@, experts as nat),
        r.offsets@.len() == experts + 1,
        forall|k: int|
            0 <= k <= experts ==> #[trigger] r.offsets@[k] == offset_of(ids@, k as nat),
        r.jobs@ == jobs_to(ids@, experts as nat, bm as nat),
{
    let mut sorted: Vec<usize> = Vec::new();
    let mut offsets: Vec<usize> = Vec::new();
    let mut jobs: Vec<(usize, usize)> = Vec::new();
    let mut e: usize = 0;
    offsets.push(0);
    while e < experts
        invariant
            e <= experts <= u32::MAX,
            bm > 0,
            sorted@ == sorted_to(ids@, e as nat),
            offsets@.len() == e + 1,
            forall|k: int|
                0 <= k <= e ==> #[trigger] offsets@[k] == offset_of(ids@, k as nat),
            jobs@ == jobs_to(ids@, e as nat, bm as nat),
        decreases experts - e,
    {
        let start: usize = sorted.len();
        append_rows(ids, e, &mut sorted);
        let end: usize = sorted.len();
        append_tiles(e, start, end, bm, &mut jobs);
        offsets.push(end);
        proof {
            assert(tiles_of(ids@, e as nat, bm as nat) =~= Seq::new(
                tile_count((end - start) as nat, bm as nat),
                |t: int| (e, (start + t * bm) as usize),
            ));
        }
        e += 1;
    }
    Groups { sorted, offsets, jobs }
}

/// Router weights of `experts` rows of `d` values, as bits, with the experts side by side.
pub fn transpose_router(w: &Vec<u32>, experts: usize, d: usize) -> (r: Vec<u32>)
    requires
        w@.len() == experts * d,
    ensures
        r@.len() == w@.len(),
        forall|e: int, c: int|
            0 <= e < experts && 0 <= c < d ==> r@[#[trigger] (c * experts + e)] == w@[e * d + c],
{
    let size: usize = w.len();
    let mut t: Vec<u32> = Vec::new();
    let mut c: usize = 0;
    proof {
        assert(0 * experts == 0);
    }
    while c < d
        invariant
            c <= d,
            size == w@.len(),
            w@.len() == experts * d,
            t@.len() == c * experts,
            forall|e: int, k: int|
                0 <= e < experts && 0 <= k < c ==> t@[#[trigger] (k * experts + e)] == w@[e * d
                    + k],
        decreases d - c,
    {
        let mut e: usize = 0;
        while e < experts
            invariant
                e <= experts,
                c < d,
                size == w@.len(),
                w@.len() == experts * d,
                t@.len() == c * experts + e,
                forall|x: int, k: int|
                    0 <= x < experts && 0 <= k < c ==> t@[#[trigger] (k * experts + x)] == w@[x * d
                        + k],
                forall|x: int| 0 <= x < e ==> t@[#[trigger] (c * experts + x)] == w@[x * d + c],
            decreases experts - e,
        {
            proof {
                assert(0 <= e * d && e * d + d <= experts * d) by (nonlinear_arith)
                    requires
                        0 <= e < experts,
                        0 <= d,
                ;
            }
            let ghost before = t@;
            t.push(w[e * d + c]);
            proof {
                assert forall|x: int, k: int|
                    0 <= x < experts && 0 <= k < c implies t@[#[trigger] (k * experts + x)] == w@[x
                    * d + k] by {
                    assert(0 <= k * experts && k * experts + x < c * experts) by (nonlinear_arith)
                        requires
                            0 <= k < c,
                            0 <= x < experts,
                    ;
                    assert(before[k * experts + x] == w@[x * d + k]);
                }
                assert forall|x: int| 0 <= x < e + 1 implies t@[#[trigger] (c * experts + x)]
                    == w@[x * d + c] by {
                    assert(0 <= c * experts) by (nonlinear_arith)
                        requires
                            0 <= c,
                            0 <= experts,
                    ;
                    if x < e {
                        assert(before[c * experts + x] == w@[x * d + c]);
                    }
                }
            }
            e += 1;
        }
        proof {
            assert((c + 1) * experts == c * experts + experts) by (nonlinear_arith);
            assert forall|x: int, k: int|
                0 <= x < experts && 0 <= k < c + 1 implies t@[#[trigger] (k * experts + x)] == w@[x
                * d + k] by {
                if k == c {
                    assert(t@[c * experts + x] == w@[x * d + c]);
                }
            }
        }
        c += 1;
    }
    assert(d * experts == experts * d) by (nonlinear_arith);
    t
}

// ---------------------------------------------------------------------------------------------
// Selection
// ---------------------------------------------------------------------------------------------

/// Expert `e` is the best of those not yet chosen: the largest probability, the lowest expert on
/// ties.
pub open spec fn is_next(p: Seq<u32>, chosen: Seq<usize>, e: int) -> bool {
    &&& 0 <= e < p.len()
    &&& !chosen.contains(e as usize)
    &&& forall|k: int|
        0 <= k < p.len() && !chosen.contains(k as usize) ==> (#[trigger] p[k]) < p[e] || (p[k]
            == p[e] && e <= k)
}

/// Each expert was the best when it was chosen.
pub open spec fn is_selection(p: Seq<u32>, chosen: Seq<usize>) -> bool {
    forall|j: int|
        0 <= j < chosen.len() ==> is_next(p, chosen.take(j), (#[trigger] chosen[j]) as int)
}

fn is_chosen(chosen: &Vec<usize>, e: usize) -> (r: bool)
    ensures
        r == chosen@.contains(e),
{
    let mut i: usize = 0;
    while i < chosen.len()
        invariant
            i <= chosen@.len(),
            forall|k: int| 0 <= k < i ==> chosen@[k] != e,
        decreases chosen@.len() - i,
    {
        if chosen[i] == e {
            return true;
        }
        i += 1;
    }
    false
}

/// The `top_k` experts of a token, the best first. Probabilities are the bits of nonnegative
/// floats, which are ordered as they are.
pub fn route(p: &Vec<u32>, top_k: usize) -> (r: Vec<usize>)
    requires
        top_k <= p@.len(),
    ensures
        r@.len() == top_k,
        is_selection(p@, r@),
{
    let mut chosen: Vec<usize> = Vec::new();
    while chosen.len() < top_k
        invariant
            chosen@.len() <= top_k <= p@.len(),
            is_selection(p@, chosen@),
        decreases top_k - chosen@.len(),
    {
        let mut best: Option<usize> = None;
        let mut e: usize = 0;
        while e < p.len()
            invariant
                e <= p@.len(),
                best is None ==> forall|k: usize| k < e ==> chosen@.contains(k),
                best matches Some(b) ==> b < e && !chosen@.contains(b) && forall|k: int|
                    0 <= k < e && !chosen@.contains(k as usize) ==> (#[trigger] p@[k])
                        < p@[b as int] || (p@[k] == p@[b as int] && b <= k),
            decreases p@.len() - e,
        {
            if !is_chosen(&chosen, e) {
                match best {
                    None => {
                        best = Some(e);
                    },
                    Some(b) => {
                        if p[e] > p[b] {
                            best = Some(e);
                        }
                    },
                }
            }
            e += 1;
        }
        match best {
            Some(b) => {
                let ghost before = chosen@;
                chosen.push(b);
                proof {
                    assert forall|j: int| 0 <= j < chosen@.len() implies is_next(
                        p@,
                        chosen@.take(j),
                        (#[trigger] chosen@[j]) as int,
                    ) by {
                        if j < before.len() {
                            assert(chosen@.take(j) =~= before.take(j));
                            assert(chosen@[j] == before[j]);
                        } else {
                            assert(chosen@.take(j) =~= before);
                        }
                    }
                }
            },
            None => {
                proof {
                    lemma_one_is_left(p@.len(), chosen@);
                }
                return chosen;
            },
        }
    }
    chosen
}

/// Fewer choices than experts leave one.
proof fn lemma_one_is_left(n: nat, chosen: Seq<usize>)
    requires
        chosen.len() < n,
        n <= usize::MAX,
    ensures
        exists|k: usize| k < n && !#[trigger] chosen.contains(k),
{
    let all = Seq::new(n, |k: int| k as usize);
    assert(all.no_duplicates());
    all.unique_seq_to_set();
    chosen.lemma_cardinality_of_set();
    if all.to_set().subset_of(chosen.to_set()) {
        vstd::set_lib::lemma_len_subset(all.to_set(), chosen.to_set());
    }
    let x = choose|x: usize| all.to_set().contains(x) && !chosen.to_set().contains(x);
    assert(all.contains(x));
    assert(x < n);
}

/// A token's experts are distinct and in the order of their probabilities, and no other expert has
/// a larger one.
pub proof fn law_selection_is_the_top(p: Seq<u32>, chosen: Seq<usize>)
    requires
        is_selection(p, chosen),
    ensures
        chosen.no_duplicates(),
        forall|i: int, j: int|
            0 <= i < j < chosen.len() ==> p[(#[trigger] chosen[j]) as int] <= p[(
            #[trigger] chosen[i]) as int],
        forall|i: int, k: int|
            0 <= i < chosen.len() && 0 <= k < p.len() && !chosen.contains(k as usize)
                ==> #[trigger] p[k] <= p[(#[trigger] chosen[i]) as int],
{
    assert forall|i: int, j: int| 0 <= i < j < chosen.len() implies p[(
    #[trigger] chosen[j]) as int] <= p[(#[trigger] chosen[i]) as int] && chosen[i]
        != chosen[j] by {
        assert(is_next(p, chosen.take(j), chosen[j] as int));
        assert(is_next(p, chosen.take(i), chosen[i] as int));
        assert(chosen.take(j)[i] == chosen[i]);
        assert(chosen.take(j).contains(chosen[i]));
        assert(!chosen.take(i).contains(chosen[j])) by {
            if chosen.take(i).contains(chosen[j]) {
                let k = choose|k: int|
                    0 <= k < chosen.take(i).len() && chosen.take(i)[k] == chosen[j];
                assert(chosen.take(j)[k] == chosen[j]);
                assert(chosen.take(j).contains(chosen[j]));
            }
        }
        assert(p[chosen[j] as int] <= p[chosen[i] as int]);
    }
    assert forall|i: int, k: int|
        0 <= i < chosen.len() && 0 <= k < p.len() && !chosen.contains(k as usize) implies
        #[trigger] p[k] <= p[(#[trigger] chosen[i]) as int] by {
        assert(is_next(p, chosen.take(i), chosen[i] as int));
        assert(!chosen.take(i).contains(k as usize)) by {
            if chosen.take(i).contains(k as usize) {
                let x = choose|x: int|
                    0 <= x < chosen.take(i).len() && chosen.take(i)[x] == k as usize;
                assert(chosen[x] == k as usize);
            }
        }
    }
}

} // verus!
