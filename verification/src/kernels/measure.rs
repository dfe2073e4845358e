//! What is measured of launch plans: the candidates for a matrix, the matrices to rotate through,
//! and which plan wins.
use crate::arith::div_ceil;
use crate::kernels::tune::{keeps_rows, GroupPlan, Plan, QMatrix};
use vstd::arithmetic::div_mod::lemma_fundamental_div_mod;
use vstd::prelude::*;

verus! {

/// Weight bytes each timed run cycles through: more than a last-level cache, so candidates are
/// measured reading cold weights as a forward pass does.
pub const ROTATION_BYTES: usize = 67_108_864;

/// The tiles that kernels exist for.
#[derive(Debug)]
pub struct Tiles {
    pub rows: Vec<usize>,
    pub cols: Vec<usize>,
    /// Most rows of the row-vector kernel.
    pub vector_rows: usize,
}

// ---------------------------------------------------------------------------------------------
// Candidates
// ---------------------------------------------------------------------------------------------

/// A column tile divides the width.
pub open spec fn divides(tile: usize, n: usize) -> bool {
    tile > 0 && n as int % tile as int == 0
}

/// A tile is worth measuring with `splits` slices of K: taller tiles than the row count only waste
/// work, slices need four steps of 64, and 128-row tiles only pay off with 128 columns and few
/// slices.
pub open spec fn worthwhile(w: QMatrix, m: usize, bm: usize, bn: usize, splits: usize) -> bool {
    &&& bm <= 32 || bm <= m
    &&& divides(bn, w.n)
    &&& bm != 128 || (bn == 128 && splits <= 4)
    &&& splits <= 1 || (w.k / 64) / splits >= 4
}

/// The plans of one tile among the first `n` split factors 1, 2, 4 and 8.
pub open spec fn split_plans(w: QMatrix, m: usize, bm: usize, bn: usize, n: nat) -> Seq<Plan>
    decreases n,
{
    if n == 0 {
        Seq::empty()
    } else {
        let splits = split_factor((n - 1) as nat);
        let before = split_plans(w, m, bm, bn, (n - 1) as nat);
        if worthwhile(w, m, bm, bn, splits) {
            before.push(Plan { bm, bn, splits })
        } else {
            before
        }
    }
}

/// Split factors: 1, 2, 4, 8.
pub open spec fn split_factor(i: nat) -> usize {
    if i == 0 {
        1
    } else if i == 1 {
        2
    } else if i == 2 {
        4
    } else {
        8
    }
}

/// The plans of a row tile with the first `n` column tiles.
pub open spec fn column_plans(
    w: QMatrix,
    m: usize,
    row_invariant: bool,
    bm: usize,
    cols: Seq<usize>,
    n: nat,
) -> Seq<Plan>
    decreases n,
{
    if n == 0 {
        Seq::empty()
    } else {
        column_plans(w, m, row_invariant, bm, cols, (n - 1) as nat) + split_plans(
            w,
            m,
            bm,
            cols[n - 1],
            if row_invariant {
                1
            } else {
                4
            },
        )
    }
}

/// The plans of the first `n` row tiles.
pub open spec fn row_plans(
    w: QMatrix,
    m: usize,
    row_invariant: bool,
    rows: Seq<usize>,
    cols: Seq<usize>,
    n: nat,
) -> Seq<Plan>
    decreases n,
{
    if n == 0 {
        Seq::empty()
    } else {
        row_plans(w, m, row_invariant, rows, cols, (n - 1) as nat) + column_plans(
            w,
            m,
            row_invariant,
            rows[n - 1],
            cols,
            cols.len(),
        )
    }
}

/// All plans to measure: the row-vector kernel for few rows that need not be invariant, then the
/// worthwhile tiles.
pub open spec fn candidates_of(
    w: QMatrix,
    m: usize,
    row_invariant: bool,
    rows: Seq<usize>,
    cols: Seq<usize>,
    vector_rows: usize,
    tile: usize,
) -> Seq<Plan> {
    (if !row_invariant && m <= vector_rows {
        seq![Plan { bm: 0, bn: tile, splits: 1 }]
    } else {
        Seq::empty()
    }) + row_plans(w, m, row_invariant, rows, cols, rows.len())
}

fn is_worthwhile(w: &QMatrix, m: usize, bm: usize, bn: usize, splits: usize) -> (r: bool)
    requires
        splits > 0,
    ensures
        r == worthwhile(*w, m, bm, bn, splits),
{
    (bm <= 32 || bm <= m) && bn > 0 && w.n % bn == 0 && (bm != 128 || (bn == 128 && splits <= 4))
        && (splits <= 1 || (w.k / 64) / splits >= 4)
}

fn push_splits(w: &QMatrix, m: usize, bm: usize, bn: usize, count: usize, out: &mut Vec<Plan>)
    requires
        count <= 4,
    ensures
        final(out)@ == old(out)@ + split_plans(*w, m, bm, bn, count as nat),
{
    let ghost before = out@;
    let mut i: usize = 0;
    assert(before + split_plans(*w, m, bm, bn, 0) =~= before);
    while i < count
        invariant
            i <= count <= 4,
            out@ == before + split_plans(*w, m, bm, bn, i as nat),
        decreases count - i,
    {
        let splits: usize = if i == 0 {
            1
        } else if i == 1 {
            2
        } else if i == 2 {
            4
        } else {
            8
        };
        if is_worthwhile(w, m, bm, bn, splits) {
            out.push(Plan { bm, bn, splits });
            assert(out@ =~= before + split_plans(*w, m, bm, bn, (i + 1) as nat));
        }
        i += 1;
    }
}

/// The plans to measure for `m` rows of a matrix; `tile` is the column tile of its width.
pub fn dense_candidates(w: &QMatrix, m: usize, row_invariant: bool, tiles: &Tiles, tile: usize) -> (r:
    Vec<Plan>)
    ensures
        r@ == candidates_of(
            *w,
            m,
            row_invariant,
            tiles.rows@,
            tiles.cols@,
            tiles.vector_rows,
            tile,
        ),
{
    let mut out: Vec<Plan> = Vec::new();
    if !row_invariant && m <= tiles.vector_rows {
        out.push(Plan { bm: 0, bn: tile, splits: 1 });
    }
    let ghost first = out@;
    let count: usize = if row_invariant {
        1
    } else {
        4
    };
    let mut i: usize = 0;
    assert(first + row_plans(*w, m, row_invariant, tiles.rows@, tiles.cols@, 0) =~= first);
    while i < tiles.rows.len()
        invariant
            i <= tiles.rows@.len(),
            count == if row_invariant {
                1nat
            } else {
                4
            },
            out@ == first + row_plans(
                *w,
                m,
                row_invariant,
                tiles.rows@,
                tiles.cols@,
                i as nat,
            ),
        decreases tiles.rows@.len() - i,
    {
        let bm: usize = tiles.rows[i];
        let ghost before = out@;
        let mut j: usize = 0;
        assert(before + column_plans(*w, m, row_invariant, bm, tiles.cols@, 0) =~= before);
        while j < tiles.cols.len()
            invariant
                j <= tiles.cols@.len(),
                count == if row_invariant {
                    1nat
                } else {
                    4
                },
                out@ == before + column_plans(*w, m, row_invariant, bm, tiles.cols@, j as nat),
            decreases tiles.cols@.len() - j,
        {
            push_splits(w, m, bm, tiles.cols[j], count, &mut out);
            assert(out@ =~= before + column_plans(
                *w,
                m,
                row_invariant,
                bm,
                tiles.cols@,
                (j + 1) as nat,
            ));
            j += 1;
        }
        assert(out@ =~= first + row_plans(
            *w,
            m,
            row_invariant,
            tiles.rows@,
            tiles.cols@,
            (i + 1) as nat,
        ));
        i += 1;
    }
    out
}

/// All plans keep rows.
pub open spec fn all_keep_rows(plans: Seq<Plan>) -> bool {
    forall|i: int| 0 <= i < plans.len() ==> keeps_rows(#[trigger] plans[i])
}

proof fn lemma_joined_keep_rows(a: Seq<Plan>, b: Seq<Plan>)
    requires
        all_keep_rows(a),
        all_keep_rows(b),
    ensures
        all_keep_rows(a + b),
{
    let s = a + b;
    assert forall|i: int| 0 <= i < s.len() implies keeps_rows(#[trigger] s[i]) by {
        if i < a.len() {
            assert(s[i] == a[i]);
        } else {
            assert(s[i] == b[i - a.len()]);
        }
    }
}

proof fn lemma_columns_keep_rows(w: QMatrix, m: usize, bm: usize, cols: Seq<usize>, n: nat)
    requires
        bm > 0,
    ensures
        all_keep_rows(column_plans(w, m, true, bm, cols, n)),
    decreases n,
{
    if n > 0 {
        lemma_columns_keep_rows(w, m, bm, cols, (n - 1) as nat);
        reveal_with_fuel(split_plans, 2);
        lemma_joined_keep_rows(
            column_plans(w, m, true, bm, cols, (n - 1) as nat),
            split_plans(w, m, bm, cols[n - 1], 1),
        );
    }
}

proof fn lemma_rows_keep_rows(w: QMatrix, m: usize, rows: Seq<usize>, cols: Seq<usize>, n: nat)
    requires
        n <= rows.len(),
        forall|i: int| 0 <= i < rows.len() ==> (#[trigger] rows[i]) > 0,
    ensures
        all_keep_rows(row_plans(w, m, true, rows, cols, n)),
    decreases n,
{
    if n > 0 {
        lemma_rows_keep_rows(w, m, rows, cols, (n - 1) as nat);
        lemma_columns_keep_rows(w, m, rows[n - 1], cols, cols.len());
        lemma_joined_keep_rows(
            row_plans(w, m, true, rows, cols, (n - 1) as nat),
            column_plans(w, m, true, rows[n - 1], cols, cols.len()),
        );
    }
}

/// Plans for rows that must be invariant are measured only among matrix tiles without split K.
pub proof fn law_prefill_candidates_keep_rows(
    w: QMatrix,
    m: usize,
    rows: Seq<usize>,
    cols: Seq<usize>,
    vector_rows: usize,
    tile: usize,
)
    requires
        forall|i: int| 0 <= i < rows.len() ==> (#[trigger] rows[i]) > 0,
    ensures
        all_keep_rows(candidates_of(w, m, true, rows, cols, vector_rows, tile)),
{
    lemma_rows_keep_rows(w, m, rows, cols, rows.len());
    let all = candidates_of(w, m, true, rows, cols, vector_rows, tile);
    assert(all =~= row_plans(w, m, true, rows, cols, rows.len()));
}

/// The tiles of a grouped product with the first `n` column tiles.
pub open spec fn group_columns(width: usize, bm: usize, cols: Seq<usize>, n: nat) -> Seq<GroupPlan>
    decreases n,
{
    if n == 0 {
        Seq::empty()
    } else if divides(cols[n - 1], width) {
        group_columns(width, bm, cols, (n - 1) as nat).push(GroupPlan { bm, bn: cols[n - 1] })
    } else {
        group_columns(width, bm, cols, (n - 1) as nat)
    }
}

/// The tiles to measure for a grouped product: 32 and 64 rows, and the columns that divide its
/// width.
pub open spec fn group_candidates_of(width: usize, cols: Seq<usize>) -> Seq<GroupPlan> {
    group_columns(width, 32, cols, cols.len()) + group_columns(width, 64, cols, cols.len())
}

fn push_group_columns(width: usize, bm: usize, cols: &Vec<usize>, out: &mut Vec<GroupPlan>)
    ensures
        final(out)@ == old(out)@ + group_columns(width, bm, cols@, cols@.len()),
{
    let ghost before = out@;
    let mut i: usize = 0;
    assert(before + group_columns(width, bm, cols@, 0) =~= before);
    while i < cols.len()
        invariant
            i <= cols@.len(),
            out@ == before + group_columns(width, bm, cols@, i as nat),
        decreases cols@.len() - i,
    {
        if cols[i] > 0 && width % cols[i] == 0 {
            out.push(GroupPlan { bm, bn: cols[i] });
            assert(out@ =~= before + group_columns(width, bm, cols@, (i + 1) as nat));
        }
        i += 1;
    }
}

pub fn group_candidates(w: &QMatrix, cols: &Vec<usize>) -> (r: Vec<GroupPlan>)
    ensures
        r@ == group_candidates_of(w.n, cols@),
{
    let mut out: Vec<GroupPlan> = Vec::new();
    push_group_columns(w.n, 32, cols, &mut out);
    push_group_columns(w.n, 64, cols, &mut out);
    assert(out@ =~= group_candidates_of(w.n, cols@));
    out
}

// ---------------------------------------------------------------------------------------------
// Rotation
// ---------------------------------------------------------------------------------------------

/// The same kernel variant: format and shape.
pub open spec fn alike(a: QMatrix, b: QMatrix) -> bool {
    a.fmt == b.fmt && a.n == b.n && a.k == b.k && a.experts == b.experts
}

/// The first group from the `i`th on of matrices like `w`.
pub open spec fn group_for(groups: Seq<Seq<QMatrix>>, w: QMatrix, i: nat) -> nat
    decreases groups.len() - i,
{
    if i >= groups.len() || alike(groups[i as int][0], w) {
        i
    } else {
        group_for(groups, w, i + 1)
    }
}

/// The first `n` matrices in groups of one kernel variant, in the order of their first.
pub open spec fn shape_groups(all: Seq<QMatrix>, n: nat) -> Seq<Seq<QMatrix>>
    decreases n,
{
    if n == 0 {
        Seq::empty()
    } else {
        let before = shape_groups(all, (n - 1) as nat);
        let w = all[n - 1];
        let g = group_for(before, w, 0);
        if g < before.len() {
            before.update(g as int, before[g as int].push(w))
        } else {
            before.push(seq![w])
        }
    }
}

/// How many matrices of these bytes exceed a cache.
pub open spec fn rotation(bytes: usize) -> nat {
    let per = if bytes == 0 {
        1
    } else {
        bytes as int
    };
    let n = (ROTATION_BYTES + per - 1) / per;
    if n < 1 {
        1
    } else {
        n as nat
    }
}

/// A group truncated to the rotation needed.
pub open spec fn rotated(group: Seq<QMatrix>) -> Seq<QMatrix> {
    if group.len() > rotation(group[0].bytes) {
        group.take(rotation(group[0].bytes) as int)
    } else {
        group
    }
}

/// The groups of a list.
pub open spec fn group_views(groups: Seq<Vec<QMatrix>>) -> Seq<Seq<QMatrix>> {
    Seq::new(groups.len(), |i: int| groups[i]@)
}

/// Every group holds a matrix.
pub open spec fn nonempty(groups: Seq<Seq<QMatrix>>) -> bool {
    forall|i: int| 0 <= i < groups.len() ==> (#[trigger] groups[i]).len() > 0
}

proof fn lemma_group_for(groups: Seq<Seq<QMatrix>>, w: QMatrix, i: nat)
    requires
        i <= groups.len(),
    ensures
        i <= group_for(groups, w, i) <= groups.len(),
        group_for(groups, w, i) < groups.len() ==> alike(
            groups[group_for(groups, w, i) as int][0],
            w,
        ),
    decreases groups.len() - i,
{
    if i < groups.len() && !alike(groups[i as int][0], w) {
        lemma_group_for(groups, w, i + 1);
    }
}

/// The matrices of a group are of one kernel variant.
pub open spec fn uniform(groups: Seq<Seq<QMatrix>>) -> bool {
    forall|i: int, j: int|
        0 <= i < groups.len() && 0 <= j < groups[i].len() ==> alike(
            groups[i][0],
            #[trigger] groups[i][j],
        )
}

/// Each group is nonempty and of one kernel variant.
pub proof fn law_groups_are_of_one_variant(all: Seq<QMatrix>, n: nat)
    requires
        n <= all.len(),
    ensures
        nonempty(shape_groups(all, n)),
        uniform(shape_groups(all, n)),
    decreases n,
{
    if n > 0 {
        law_groups_are_of_one_variant(all, (n - 1) as nat);
        let before = shape_groups(all, (n - 1) as nat);
        let w = all[n - 1];
        lemma_group_for(before, w, 0);
        let g = group_for(before, w, 0);
        let after = shape_groups(all, n);
        assert forall|i: int, j: int|
            0 <= i < after.len() && 0 <= j < after[i].len() implies alike(
            after[i][0],
            #[trigger] after[i][j],
        ) by {
            if g < before.len() && i == g {
                let had = before[g as int];
                assert(after[i] == had.push(w));
                if j < had.len() {
                    assert(alike(before[i][0], before[i][j]));
                }
            } else if i < before.len() {
                assert(after[i] == before[i]);
                assert(alike(before[i][0], before[i][j]));
            }
        }
        assert forall|i: int| 0 <= i < after.len() implies (#[trigger] after[i]).len() > 0 by {
            if i < before.len() {
                assert(before[i].len() > 0);
            }
        }
    }
}

/// Matrices grouped by kernel variant, each group truncated to the rotation needed to exceed
/// [`ROTATION_BYTES`].
pub fn same_shape(all: &Vec<QMatrix>) -> (r: Vec<Vec<QMatrix>>)
    ensures
        group_views(r@) == Seq::new(
            shape_groups(all@, all@.len()).len(),
            |i: int| rotated(shape_groups(all@, all@.len())[i]),
        ),
{
    let mut groups: Vec<Vec<QMatrix>> = Vec::new();
    let mut i: usize = 0;
    assert(group_views(groups@) =~= Seq::empty());
    while i < all.len()
        invariant
            i <= all@.len(),
            group_views(groups@) == shape_groups(all@, i as nat),
        decreases all@.len() - i,
    {
        let w: QMatrix = all[i];
        let ghost before = group_views(groups@);
        proof {
            law_groups_are_of_one_variant(all@, i as nat);
        }
        let mut g: usize = 0;
        let mut found: bool = false;
        while g < groups.len() && !found
            invariant
                g <= groups@.len(),
                before == group_views(groups@),
                nonempty(before),
                group_for(before, w, 0) == group_for(before, w, g as nat),
                found ==> g < groups@.len() && alike(before[g as int][0], w),
            decreases groups@.len() - g + if found {
                0int
            } else {
                1int
            },
        {
            assert(before[g as int] == groups@[g as int]@);
            let o: QMatrix = groups[g][0];
            if o.fmt == w.fmt && o.n == w.n && o.k == w.k && o.experts == w.experts {
                found = true;
            } else {
                g += 1;
            }
        }
        if found {
            let mut group: Vec<QMatrix> = Vec::new();
            let ghost had = groups@;
            std::mem::swap(&mut groups[g], &mut group);
            group.push(w);
            std::mem::swap(&mut groups[g], &mut group);
            assert(group_views(groups@) =~= before.update(g as int, before[g as int].push(w)));
        } else {
            let mut fresh: Vec<QMatrix> = Vec::new();
            fresh.push(w);
            groups.push(fresh);
            assert(fresh@ =~= seq![w]);
            assert(group_views(groups@) =~= before.push(seq![w]));
        }
        i += 1;
    }
    proof {
        law_groups_are_of_one_variant(all@, all@.len());
    }
    truncate_groups(groups)
}

fn truncate_groups(groups: Vec<Vec<QMatrix>>) -> (r: Vec<Vec<QMatrix>>)
    requires
        nonempty(group_views(groups@)),
    ensures
        group_views(r@) == Seq::new(groups@.len(), |i: int| rotated(group_views(groups@)[i])),
{
    let ghost all = group_views(groups@);
    let ghost want = Seq::new(all.len(), |i: int| rotated(all[i]));
    let mut out: Vec<Vec<QMatrix>> = Vec::new();
    assert(group_views(out@) =~= want.take(0));
    for group in it: groups
        invariant
            all == group_views(it.seq()),
            nonempty(all),
            want == Seq::new(all.len(), |i: int| rotated(all[i])),
            group_views(out@) == want.take(it.index() as int),
    {
        let ghost i = it.index() as int;
        assert(all[i] == group@);
        assert(group@.len() > 0);
        let mut kept: Vec<QMatrix> = group;
        let bytes: usize = kept[0].bytes;
        let per: usize = if bytes == 0 {
            1
        } else {
            bytes
        };
        let count: usize = div_ceil(ROTATION_BYTES, per);
        let limit: usize = if count < 1 {
            1
        } else {
            count
        };
        kept.truncate(limit);
        let ghost before = out@;
        assert(kept@ =~= rotated(all[i]));
        out.push(kept);
        assert(group_views(out@) =~= group_views(before).push(want[i]));
        assert(want.take(i + 1) =~= want.take(i).push(want[i]));
    }
    assert(want.take(want.len() as int) =~= want);
    out
}

// ---------------------------------------------------------------------------------------------
// The winner
// ---------------------------------------------------------------------------------------------

/// The time of a candidate and that time less a margin, as the bits of nonnegative doubles,
/// which are ordered as they are.
#[derive(Clone, Copy, Debug, PartialEq, Eq, Structural)]
pub struct Timed {
    pub time: u64,
    /// Measured plans must take at most this long to replace this one.
    pub floor: u64,
}

/// The first of the shortest times.
pub open spec fn is_fastest(times: Seq<Timed>, i: int) -> bool {
    &&& 0 <= i < times.len()
    &&& forall|j: int| 0 <= j < times.len() ==> times[i].time <= (#[trigger] times[j]).time
    &&& forall|j: int| 0 <= j < i ==> times[i].time < (#[trigger] times[j]).time
}

/// The fastest plan, unless it beats the `baseline` by less than the margin: timing noise then
/// decides nothing, and plans stay stable across runs and neighbouring buckets.
pub fn pick(times: &Vec<Timed>, baseline: Option<usize>) -> (r: Option<usize>)
    requires
        baseline matches Some(b) ==> b < times@.len(),
    ensures
        r is None <==> times@.len() == 0,
        r matches Some(p) ==> exists|best: int| #[trigger]
            is_fastest(times@, best) && p == if baseline is Some && times@[best].time
                > times@[baseline->Some_0 as int].floor {
                baseline->Some_0 as int
            } else {
                best
            },
{
    if times.len() == 0 {
        return None;
    }
    let mut best: usize = 0;
    let mut i: usize = 1;
    while i < times.len()
        invariant
            1 <= i <= times@.len(),
            best < i,
            forall|j: int| 0 <= j < i ==> times@[best as int].time <= (#[trigger] times@[j]).time,
            forall|j: int| 0 <= j < best ==> times@[best as int].time < (#[trigger] times@[j]).time,
        decreases times@.len() - i,
    {
        if times[i].time < times[best].time {
            best = i;
        }
        i += 1;
    }
    assert(is_fastest(times@, best as int));
    match baseline {
        Some(b) => {
            if times[best].time > times[b].floor {
                return Some(b);
            }
        },
        None => {},
    }
    Some(best)
}

// ---------------------------------------------------------------------------------------------
// Synthetic routing
// ---------------------------------------------------------------------------------------------

/// The expert of route `i`: balanced over the experts.
pub open spec fn synthetic(i: int, top_k: int, experts: int) -> int {
    (i / top_k * 7 + i % top_k * 13) % experts
}

/// Routes to measure with.
pub fn synthetic_routes(capacity: usize, top_k: usize, experts: usize) -> (r: Vec<u32>)
    requires
        0 < top_k,
        0 < experts <= u32::MAX,
    ensures
        r@.len() == capacity,
        forall|i: int|
            0 <= i < capacity ==> #[trigger] r@[i] == synthetic(i, top_k as int, experts as int),
{
    let mut ids: Vec<u32> = Vec::new();
    let mut i: usize = 0;
    while i < capacity
        invariant
            i <= capacity,
            0 < top_k,
            0 < experts <= u32::MAX,
            ids@.len() == i,
            forall|k: int|
                0 <= k < i ==> #[trigger] ids@[k] == synthetic(k, top_k as int, experts as int),
        decreases capacity - i,
    {
        let sum: u128 = (i / top_k) as u128 * 7 + (i % top_k) as u128 * 13;
        ids.push((sum % experts as u128) as u32);
        i += 1;
    }
    ids
}

/// Each token picks distinct experts, for as many experts as the kernels support.
pub proof fn law_synthetic_routes_are_distinct(t: int, a: int, b: int, top_k: int, experts: int)
    requires
        0 <= t,
        0 <= a < b < top_k <= 32,
        experts > 0,
        experts % 32 == 0,
    ensures
        synthetic(t * top_k + a, top_k, experts) != synthetic(t * top_k + b, top_k, experts),
{
    let (i, j) = (t * top_k + a, t * top_k + b);
    assert(i / top_k == t && i % top_k == a && j / top_k == t && j % top_k == b)
        by (nonlinear_arith)
        requires
            i == t * top_k + a,
            j == t * top_k + b,
            0 <= a < b < top_k,
            0 <= t,
    ;
    let x = t * 7 + a * 13;
    let y = t * 7 + b * 13;
    if x % experts == y % experts {
        let (p, q) = (x / experts, y / experts);
        let e = experts / 32;
        lemma_fundamental_div_mod(x, experts);
        lemma_fundamental_div_mod(y, experts);
        assert(y - x == (q - p) * experts) by (nonlinear_arith)
            requires
                x == experts * p + x % experts,
                y == experts * q + y % experts,
                x % experts == y % experts,
        ;
        let d = b - a;
        let m = (q - p) * e;
        assert(13 * d == 32 * m) by (nonlinear_arith)
            requires
                13 * d == (q - p) * experts,
                experts == 32 * e,
                m == (q - p) * e,
        ;
        assert(d == 32 * (5 * m - 2 * d));
    }
}

proof fn lemma_group_columns(width: usize, bm: usize, cols: Seq<usize>, n: nat, p: GroupPlan)
    requires
        n <= cols.len(),
    ensures
        group_columns(width, bm, cols, n).contains(p) <==> p.bm == bm && divides(p.bn, width)
            && cols.take(n as int).contains(p.bn),
    decreases n,
{
    let some = cols.take(n as int);
    let all = group_columns(width, bm, cols, n);
    if n > 0 {
        let rest = cols.take(n - 1);
        let before = group_columns(width, bm, cols, (n - 1) as nat);
        lemma_group_columns(width, bm, cols, (n - 1) as nat, p);
        assert(some =~= rest.push(cols[n - 1]));
        if all.contains(p) {
            let k = choose|k: int| 0 <= k < all.len() && all[k] == p;
            if k < before.len() {
                assert(before[k] == p);
                let x = choose|x: int| 0 <= x < rest.len() && rest[x] == p.bn;
                assert(some[x] == p.bn);
            } else {
                assert(some[n - 1] == p.bn);
            }
        }
        if p.bm == bm && divides(p.bn, width) && some.contains(p.bn) {
            let x = choose|x: int| 0 <= x < some.len() && some[x] == p.bn;
            if x < n - 1 {
                assert(rest[x] == p.bn);
                let k = choose|k: int| 0 <= k < before.len() && before[k] == p;
                assert(all[k] == p);
            } else {
                assert(all[all.len() - 1] == p);
            }
        }
    }
}

/// The tiles that are measured for a grouped product are all those of 32 or 64 rows and of columns that
/// divide its width, and no others.
pub proof fn law_group_candidates_are_all_that_fit(width: usize, cols: Seq<usize>, p: GroupPlan)
    ensures
        group_candidates_of(width, cols).contains(p) <==> (p.bm == 32 || p.bm == 64) && cols.contains(
            p.bn,
        ) && p.bn > 0 && width as int % p.bn as int == 0,
{
    let n = cols.len();
    let (a, b) = (group_columns(width, 32, cols, n), group_columns(width, 64, cols, n));
    let all = group_candidates_of(width, cols);
    assert(cols.take(n as int) =~= cols);
    lemma_group_columns(width, 32, cols, n, p);
    lemma_group_columns(width, 64, cols, n, p);
    if all.contains(p) {
        let k = choose|k: int| 0 <= k < all.len() && all[k] == p;
        if k < a.len() {
            assert(a[k] == p);
        } else {
            assert(b[k - a.len()] == p);
        }
    }
    if a.contains(p) {
        let k = choose|k: int| 0 <= k < a.len() && a[k] == p;
        assert(all[k] == p);
    }
    if b.contains(p) {
        let k = choose|k: int| 0 <= k < b.len() && b[k] == p;
        assert(all[a.len() + k] == p);
    }
}

} // verus!
