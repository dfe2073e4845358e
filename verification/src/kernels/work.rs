//! Which launch plans are missing and can be measured, and the buffers that measuring takes.
use crate::kernels::measure::{group_views, rotated, same_shape, shape_groups};
use crate::kernels::tune::{
    bucket_of, buckets, doublings, stored, DenseKey, GroupKey, GroupPlan, Plan, QMatrix, Tuner,
    Workload,
};
use vstd::prelude::*;

verus! {

/// A plan to measure: for a group of matrices of one kernel variant and a number of rows.
#[derive(Clone, Copy, Debug, PartialEq, Eq, Structural)]
pub enum Task {
    Dense { group: usize, rows: usize, row_invariant: bool },
    Grouped { group: usize, rows: usize },
}

/// The sizes of the buffers that measuring uses.
#[derive(Clone, Copy, Debug, PartialEq, Eq, Structural)]
pub struct Room {
    pub x: usize,
    pub out: usize,
    pub routes: usize,
}

/// No plan is stored for these rows, the buffers hold them, and the kernels take the matrix.
pub open spec fn dense_due(
    table: Seq<(DenseKey, Plan)>,
    w: QMatrix,
    m: usize,
    row_invariant: bool,
    room: Room,
) -> bool {
    &&& stored(table, DenseKey { fmt: w.fmt, n: w.n, k: w.k, bucket: m, row_invariant }) is None
    &&& room.x >= m * w.k
    &&& room.out >= m * w.n
    &&& w.k % 64 == 0
}

/// No plan is stored for these rows, and the buffers hold their routes.
pub open spec fn grouped_due(
    table: Seq<(GroupKey, GroupPlan)>,
    w: QMatrix,
    m: usize,
    top_k: usize,
    room: Room,
) -> bool {
    let routes = m * top_k;
    &&& stored(
        table,
        GroupKey { fmt: w.fmt, n: w.n, k: w.k, experts: w.experts, bucket: m },
    ) is None
    &&& room.routes >= routes
    &&& room.x >= routes * w.k
    &&& room.out >= routes * w.n
}

/// The tasks of a group for the first `n` row counts.
pub open spec fn dense_tasks(
    table: Seq<(DenseKey, Plan)>,
    w: QMatrix,
    group: usize,
    rows: Seq<usize>,
    row_invariant: bool,
    room: Room,
    n: nat,
) -> Seq<Task>
    decreases n,
{
    if n == 0 {
        Seq::empty()
    } else {
        let before = dense_tasks(table, w, group, rows, row_invariant, room, (n - 1) as nat);
        if dense_due(table, w, rows[n - 1], row_invariant, room) {
            before.push(Task::Dense { group, rows: rows[n - 1], row_invariant })
        } else {
            before
        }
    }
}

/// The tasks of an expert group for the first `n` row counts.
pub open spec fn grouped_tasks(
    table: Seq<(GroupKey, GroupPlan)>,
    w: QMatrix,
    group: usize,
    rows: Seq<usize>,
    top_k: usize,
    room: Room,
    n: nat,
) -> Seq<Task>
    decreases n,
{
    if n == 0 {
        Seq::empty()
    } else {
        let before = grouped_tasks(table, w, group, rows, top_k, room, (n - 1) as nat);
        if grouped_due(table, w, rows[n - 1], top_k, room) {
            before.push(Task::Grouped { group, rows: rows[n - 1] })
        } else {
            before
        }
    }
}

/// The row counts to measure for at most `max` rows.
pub open spec fn row_counts(max: usize) -> Seq<usize> {
    let list = doublings(
        4,
        bucket_of(
            if max == 0 {
                1
            } else {
                max as int
            },
        ) as nat,
    );
    Seq::new(list.len(), |i: int| list[i] as usize)
}

/// The dense tasks of the first `n` groups: prompts with invariant rows, then canvases.
pub open spec fn all_dense_tasks(
    table: Seq<(DenseKey, Plan)>,
    groups: Seq<Seq<QMatrix>>,
    prompt: Seq<usize>,
    canvas: Seq<usize>,
    room: Room,
    n: nat,
) -> Seq<Task>
    decreases n,
{
    if n == 0 {
        Seq::empty()
    } else {
        let g = (n - 1) as nat;
        let w = groups[g as int][0];
        let before = all_dense_tasks(table, groups, prompt, canvas, room, g);
        if w.experts != 1 {
            before
        } else {
            before + dense_tasks(table, w, g as usize, prompt, true, room, prompt.len())
                + dense_tasks(table, w, g as usize, canvas, false, room, canvas.len())
        }
    }
}

/// The grouped tasks of the first `n` groups.
pub open spec fn all_grouped_tasks(
    table: Seq<(GroupKey, GroupPlan)>,
    groups: Seq<Seq<QMatrix>>,
    rows: Seq<usize>,
    top_k: usize,
    room: Room,
    n: nat,
) -> Seq<Task>
    decreases n,
{
    if n == 0 {
        Seq::empty()
    } else {
        let g = (n - 1) as nat;
        all_grouped_tasks(table, groups, rows, top_k, room, g) + grouped_tasks(
            table,
            groups[g as int][0],
            g as usize,
            rows,
            top_k,
            room,
            rows.len(),
        )
    }
}

fn list_rows(max: usize) -> (r: Vec<usize>)
    requires
        max <= usize::MAX / 2 + 1,
    ensures
        r@ == row_counts(max),
{
    let rows: Vec<usize> = buckets(4, max);
    proof {
        let list = Seq::new(rows@.len(), |i: int| rows@[i] as nat);
        assert forall|i: int| 0 <= i < rows@.len() implies rows@[i] == row_counts(max)[i] by {
            assert(list[i] == rows@[i] as nat);
        }
        assert(rows@ =~= row_counts(max));
    }
    rows
}

fn has_dense(table: &Vec<(DenseKey, Plan)>, key: DenseKey) -> (r: bool)
    ensures
        r == (stored(table@, key) is Some),
{
    let ghost all = table@;
    let mut i: usize = table.len();
    assert(all.take(i as int) =~= all);
    while i > 0
        invariant
            i <= table@.len(),
            all == table@,
            stored(all, key) == stored(all.take(i as int), key),
        decreases i,
    {
        proof {
            assert(all.take(i as int).drop_last() =~= all.take(i - 1));
        }
        i -= 1;
        if table[i].0 == key {
            return true;
        }
    }
    false
}

fn has_grouped(table: &Vec<(GroupKey, GroupPlan)>, key: GroupKey) -> (r: bool)
    ensures
        r == (stored(table@, key) is Some),
{
    let ghost all = table@;
    let mut i: usize = table.len();
    assert(all.take(i as int) =~= all);
    while i > 0
        invariant
            i <= table@.len(),
            all == table@,
            stored(all, key) == stored(all.take(i as int), key),
        decreases i,
    {
        proof {
            assert(all.take(i as int).drop_last() =~= all.take(i - 1));
        }
        i -= 1;
        if table[i].0 == key {
            return true;
        }
    }
    false
}

/// `a * b`.
fn wide(a: usize, b: usize) -> (r: u128)
    ensures
        r == a * b,
{
    assert(0 <= a * b <= 0xffff_ffff_ffff_ffff * 0xffff_ffff_ffff_ffff) by (nonlinear_arith)
        requires
            0 <= a <= 0xffff_ffff_ffff_ffff,
            0 <= b <= 0xffff_ffff_ffff_ffff,
    ;
    a as u128 * b as u128
}

fn push_dense(
    tuner: &Tuner,
    w: &QMatrix,
    group: usize,
    rows: &Vec<usize>,
    row_invariant: bool,
    room: &Room,
    out: &mut Vec<Task>,
)
    ensures
        final(out)@ == old(out)@ + dense_tasks(
            tuner.dense@,
            *w,
            group,
            rows@,
            row_invariant,
            *room,
            rows@.len(),
        ),
{
    let ghost before = out@;
    let mut i: usize = 0;
    assert(before + dense_tasks(tuner.dense@, *w, group, rows@, row_invariant, *room, 0)
        =~= before);
    while i < rows.len()
        invariant
            i <= rows@.len(),
            out@ == before + dense_tasks(
                tuner.dense@,
                *w,
                group,
                rows@,
                row_invariant,
                *room,
                i as nat,
            ),
        decreases rows@.len() - i,
    {
        let m: usize = rows[i];
        let key: DenseKey = DenseKey { fmt: w.fmt, n: w.n, k: w.k, bucket: m, row_invariant };
        let known: bool = has_dense(&tuner.dense, key);
        let due: bool = !known && room.x as u128 >= wide(m, w.k) && room.out as u128 >= wide(m, w.n)
            && w.k % 64 == 0;
        if due {
            out.push(Task::Dense { group, rows: m, row_invariant });
            assert(out@ =~= before + dense_tasks(
                tuner.dense@,
                *w,
                group,
                rows@,
                row_invariant,
                *room,
                (i + 1) as nat,
            ));
        }
        i += 1;
    }
}

fn is_grouped_due(tuner: &Tuner, w: &QMatrix, m: usize, top_k: usize, room: &Room) -> (r: bool)
    ensures
        r == grouped_due(tuner.grouped@, *w, m, top_k, *room),
{
    let key: GroupKey = GroupKey {
        fmt: w.fmt,
        n: w.n,
        k: w.k,
        experts: w.experts,
        bucket: m,
    };
    if has_grouped(&tuner.grouped, key) {
        return false;
    }
    let routes: u128 = wide(m, top_k);
    if (room.routes as u128) < routes {
        return false;
    }
    let count: usize = routes as usize;
    room.x as u128 >= wide(count, w.k) && room.out as u128 >= wide(count, w.n)
}

fn push_grouped(
    tuner: &Tuner,
    w: &QMatrix,
    group: usize,
    rows: &Vec<usize>,
    top_k: usize,
    room: &Room,
    out: &mut Vec<Task>,
)
    ensures
        final(out)@ == old(out)@ + grouped_tasks(
            tuner.grouped@,
            *w,
            group,
            rows@,
            top_k,
            *room,
            rows@.len(),
        ),
{
    let ghost before = out@;
    let mut i: usize = 0;
    assert(before + grouped_tasks(tuner.grouped@, *w, group, rows@, top_k, *room, 0) =~= before);
    while i < rows.len()
        invariant
            i <= rows@.len(),
            out@ == before + grouped_tasks(
                tuner.grouped@,
                *w,
                group,
                rows@,
                top_k,
                *room,
                i as nat,
            ),
        decreases rows@.len() - i,
    {
        if is_grouped_due(tuner, w, rows[i], top_k, room) {
            out.push(Task::Grouped { group, rows: rows[i] });
            assert(out@ =~= before + grouped_tasks(
                tuner.grouped@,
                *w,
                group,
                rows@,
                top_k,
                *room,
                (i + 1) as nat,
            ));
        }
        i += 1;
    }
}

/// The groups of a list of matrices, as they are rotated through.
pub open spec fn rotation_groups(all: Seq<QMatrix>) -> Seq<Seq<QMatrix>> {
    let groups = shape_groups(all, all.len());
    Seq::new(groups.len(), |i: int| rotated(groups[i]))
}

/// The plans of a workload that are missing and can be measured, in order; none where tuning is
/// off.
pub open spec fn tasks_of(
    tuner: Tuner,
    dense: Seq<QMatrix>,
    grouped: Seq<QMatrix>,
    top_k: usize,
    prefill_rows: usize,
    canvas_rows: usize,
    room: Room,
) -> Seq<Task> {
    if tuner.path is None {
        Seq::empty()
    } else {
        let a = rotation_groups(dense);
        let b = rotation_groups(grouped);
        all_dense_tasks(
            tuner.dense@,
            a,
            row_counts(prefill_rows),
            row_counts(canvas_rows),
            room,
            a.len(),
        ) + all_grouped_tasks(
            tuner.grouped@,
            b,
            row_counts(
                if prefill_rows >= canvas_rows {
                    prefill_rows
                } else {
                    canvas_rows
                },
            ),
            top_k,
            room,
            b.len(),
        )
    }
}

proof fn lemma_rotation_nonempty(all: Seq<QMatrix>)
    ensures
        forall|i: int|
            0 <= i < rotation_groups(all).len() ==> (#[trigger] rotation_groups(all)[i]).len() > 0,
{
    crate::kernels::measure::law_groups_are_of_one_variant(all, all.len());
    let groups = shape_groups(all, all.len());
    assert forall|i: int| 0 <= i < rotation_groups(all).len() implies (
    #[trigger] rotation_groups(all)[i]).len() > 0 by {
        assert(groups[i].len() > 0);
        assert(rotation_groups(all)[i] == rotated(groups[i]));
    }
}

impl Tuner {
    /// The plans to measure for a workload.
    pub fn tune(&self, work: &Workload, room: &Room) -> (r: Vec<Task>)
        requires
            work.prefill_rows <= usize::MAX / 2 + 1,
            work.canvas_rows <= usize::MAX / 2 + 1,
        ensures
            r@ == tasks_of(
                *self,
                work.dense@,
                work.grouped@,
                work.top_k,
                work.prefill_rows,
                work.canvas_rows,
                *room,
            ),
    {
        let mut out: Vec<Task> = Vec::new();
        if !self.enabled() {
            assert(out@ =~= Seq::empty());
            return out;
        }
        let dense: Vec<Vec<QMatrix>> = same_shape(&work.dense);
        let ghost a = rotation_groups(work.dense@);
        let prompt: Vec<usize> = list_rows(work.prefill_rows);
        let canvas: Vec<usize> = list_rows(work.canvas_rows);
        proof {
            lemma_rotation_nonempty(work.dense@);
            assert(group_views(dense@) =~= a);
        }
        let mut g: usize = 0;
        assert(out@ =~= all_dense_tasks(self.dense@, a, prompt@, canvas@, *room, 0));
        while g < dense.len()
            invariant
                g <= dense@.len(),
                group_views(dense@) == a,
                forall|i: int| 0 <= i < a.len() ==> (#[trigger] a[i]).len() > 0,
                out@ == all_dense_tasks(self.dense@, a, prompt@, canvas@, *room, g as nat),
            decreases dense@.len() - g,
        {
            assert(a[g as int] == dense@[g as int]@);
            let w: QMatrix = dense[g][0];
            if w.experts == 1 {
                push_dense(self, &w, g, &prompt, true, room, &mut out);
                push_dense(self, &w, g, &canvas, false, room, &mut out);
            }
            g += 1;
        }
        let ghost first = out@;
        let grouped: Vec<Vec<QMatrix>> = same_shape(&work.grouped);
        let ghost b = rotation_groups(work.grouped@);
        let rows: Vec<usize> = list_rows(
            if work.prefill_rows >= work.canvas_rows {
                work.prefill_rows
            } else {
                work.canvas_rows
            },
        );
        proof {
            lemma_rotation_nonempty(work.grouped@);
            assert(group_views(grouped@) =~= b);
        }
        let mut h: usize = 0;
        assert(first + all_grouped_tasks(self.grouped@, b, rows@, work.top_k, *room, 0) =~= first);
        while h < grouped.len()
            invariant
                h <= grouped@.len(),
                group_views(grouped@) == b,
                forall|i: int| 0 <= i < b.len() ==> (#[trigger] b[i]).len() > 0,
                out@ == first + all_grouped_tasks(
                    self.grouped@,
                    b,
                    rows@,
                    work.top_k,
                    *room,
                    h as nat,
                ),
            decreases grouped@.len() - h,
        {
            assert(b[h as int] == grouped@[h as int]@);
            push_grouped(self, &grouped[h][0], h, &rows, work.top_k, room, &mut out);
            assert(out@ =~= first + all_grouped_tasks(
                self.grouped@,
                b,
                rows@,
                work.top_k,
                *room,
                (h + 1) as nat,
            ));
            h += 1;
        }
        out
    }
}

// ---------------------------------------------------------------------------------------------
// Buffers
// ---------------------------------------------------------------------------------------------

/// The most values of `rows` rows of the first `n` matrices: inputs, or outputs.
pub open spec fn most_values(list: Seq<QMatrix>, rows: nat, inputs: bool, n: nat) -> nat
    decreases n,
{
    if n == 0 {
        0
    } else {
        let w = list[n - 1];
        let width = if inputs {
            w.k
        } else {
            w.n
        };
        let here = rows * width as nat;
        let before = most_values(list, rows, inputs, (n - 1) as nat);
        if here > before {
            here
        } else {
            before
        }
    }
}

/// The larger of two numbers; one where there is no matrix.
pub open spec fn values_needed(
    dense: Seq<QMatrix>,
    grouped: Seq<QMatrix>,
    chunk: nat,
    routes: nat,
    inputs: bool,
) -> nat {
    let a = most_values(dense, chunk, inputs, dense.len());
    let b = most_values(grouped, routes, inputs, grouped.len());
    if dense.len() == 0 && grouped.len() == 0 {
        1
    } else if a >= b {
        a
    } else {
        b
    }
}

fn widest(list: &Vec<QMatrix>, rows: u64, inputs: bool) -> (r: u128)
    ensures
        r == most_values(list@, rows as nat, inputs, list@.len()),
        r <= 0xffff_ffff_ffff_ffff * 0xffff_ffff_ffff_ffff,
{
    let mut most: u128 = 0;
    let mut i: usize = 0;
    while i < list.len()
        invariant
            i <= list@.len(),
            most == most_values(list@, rows as nat, inputs, i as nat),
            most <= 0xffff_ffff_ffff_ffff * 0xffff_ffff_ffff_ffff,
        decreases list@.len() - i,
    {
        let width: usize = if inputs {
            list[i].k
        } else {
            list[i].n
        };
        proof {
            let (a, b) = (rows as int, width as int);
            assert(0 <= a * b <= 0xffff_ffff_ffff_ffff * 0xffff_ffff_ffff_ffff)
                by (nonlinear_arith)
                requires
                    0 <= a <= 0xffff_ffff_ffff_ffff,
                    0 <= b <= 0xffff_ffff_ffff_ffff,
            ;
        }
        let here: u128 = rows as u128 * width as u128;
        if here > most {
            most = here;
        }
        i += 1;
    }
    most
}

/// The values of the input or output buffer for measuring `chunk` rows and their routes.
pub fn tune_values(work: &Workload, chunk: u32, inputs: bool) -> (r: u128)
    requires
        work.top_k <= u32::MAX,
    ensures
        r == values_needed(
            work.dense@,
            work.grouped@,
            chunk as nat,
            (chunk * work.top_k) as nat,
            inputs,
        ),
{
    if work.dense.len() == 0 && work.grouped.len() == 0 {
        return 1;
    }
    proof {
        let (a, b) = (chunk as int, work.top_k as int);
        assert(0 <= a * b <= 0xffff_ffff * 0xffff_ffff) by (nonlinear_arith)
            requires
                0 <= a <= 0xffff_ffff,
                0 <= b <= 0xffff_ffff,
        ;
    }
    let routes: u64 = chunk as u64 * work.top_k as u64;
    let a: u128 = widest(&work.dense, chunk as u64, inputs);
    let b: u128 = widest(&work.grouped, routes, inputs);
    if a >= b {
        a
    } else {
        b
    }
}

} // verus!
