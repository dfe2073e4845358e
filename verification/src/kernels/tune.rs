//! Device profile and measured launch plans for the quantized matrix kernels.
//!
//! The best tile shape and split-K factor depend on the device and on the matrix shape. Plans
//! are measured once per weight shape and row-count bucket, stored next to the kernel cache, and
//! reused while the device profile and kernel version stay the same.
//!
//! Tuning never changes results a caller relies on being exact: prefill plans are chosen only
//! among row-invariant configurations (matrix tiles without split-K), whose per-row
//! accumulation order does not depend on the tile shape.
use crate::arith::{least_power, lemma_least_power, next_power_of_two, power_of_two};
use crate::kernels::buf::Buf;
use crate::kernels::fields::{parse_size, size_in, space_fields, spaced};
use crate::sequences::texts;
use crate::text::{decimal, digits};
use vstd::prelude::*;
use vstd::string::*;

verus! {

/// Changes when kernels change in a way that invalidates stored measurements.
pub const TUNE_VERSION: u64 = 2;

/// What the runtime exposes about the device, plus the compute unit count.
#[derive(Clone, Debug, PartialEq, Eq)]
pub struct DeviceProfile {
    pub device: usize,
    pub compute_units: usize,
    pub plane_size: u32,
    pub shared_memory: usize,
    pub max_allocation: u64,
    pub load_width: u32,
}

impl DeviceProfile {
    /// The version of the kernels and the properties of the device.
    pub open spec fn properties(self) -> Seq<Seq<char>> {
        seq![
            "v"@ + digits(TUNE_VERSION as nat),
            "device="@ + digits(self.device as nat),
            "cus="@ + digits(self.compute_units as nat),
            "plane="@ + digits(self.plane_size as nat),
            "lds="@ + digits(self.shared_memory as nat),
            "page="@ + digits(self.max_allocation as nat),
            "load="@ + digits(self.load_width as nat),
        ]
    }

    /// The line that stored plans of this device start with.
    pub open spec fn header(self) -> Seq<char> {
        spaced(self.properties(), 0)
    }

    /// Workgroups needed to keep every compute unit busy with a few resident groups.
    pub fn groups_target(&self) -> (r: usize)
        requires
            4 * self.compute_units <= usize::MAX,
        ensures
            r == 4 * self.compute_units,
    {
        4 * self.compute_units
    }

    pub fn key(&self) -> (r: String)
        ensures
            r@ == self.header(),
    {
        let mut fields: Vec<String> = Vec::new();
        fields.push("v".to_owned().concat(decimal(TUNE_VERSION).as_str()));
        fields.push("device=".to_owned().concat(decimal(self.device as u64).as_str()));
        fields.push("cus=".to_owned().concat(decimal(self.compute_units as u64).as_str()));
        fields.push("plane=".to_owned().concat(decimal(self.plane_size as u64).as_str()));
        fields.push("lds=".to_owned().concat(decimal(self.shared_memory as u64).as_str()));
        fields.push("page=".to_owned().concat(decimal(self.max_allocation).as_str()));
        fields.push("load=".to_owned().concat(decimal(self.load_width as u64).as_str()));
        assert(texts(fields@) =~= self.properties());
        space_fields(&fields)
    }
}

/// Compute units of a device that reports none.
pub const DEFAULT_COMPUTE_UNITS: usize = 40;

/// The compute units to plan for: those that are set, where that is a positive number, else those
/// that the device reports.
pub fn compute_units(set: Option<&str>, reported: Option<u32>) -> (r: usize)
    ensures
        r == match set {
            Some(text) if size_in(text@) is Some && size_in(text@)->Some_0 > 0 => size_in(
                text@,
            )->Some_0,
            _ => match reported {
                Some(n) => n as usize,
                None => DEFAULT_COMPUTE_UNITS,
            },
        },
{
    match set {
        Some(text) => match parse_size(text) {
            Some(n) => {
                if n > 0 {
                    return n;
                }
            },
            None => {},
        },
        None => {},
    }
    match reported {
        Some(n) => n as usize,
        None => DEFAULT_COMPUTE_UNITS,
    }
}

/// The row-count bucket of `m`: the smallest power of two that is at least `m`, and at least 4.
pub open spec fn is_bucket(m: int, b: int) -> bool {
    if m <= 4 {
        b == 4
    } else {
        least_power(m, b)
    }
}

/// Row-count bucket: plans measured at `m = bucket` serve every `m` in `(bucket/2, bucket]`.
pub fn bucket(m: usize) -> (r: usize)
    requires
        m <= usize::MAX / 2 + 1,
    ensures
        is_bucket(m as int, r as int),
        m <= r,
        r > 4 ==> r / 2 < m,
        power_of_two(r as int),
        r >= 4,
{
    let p: usize = next_power_of_two(m);
    proof {
        reveal_with_fuel(power_of_two, 4);
        if m <= 4 {
            lemma_least_power(m as int, p as int, 4);
        }
    }
    if p < 4 {
        proof {
            if m == 3 {
                assert(p >= 3);
            }
        }
        4
    } else {
        p
    }
}

/// A quantized matrix on the device: its format and shape.
#[derive(Clone, Copy, Debug, PartialEq, Eq, Structural)]
pub struct QMatrix {
    pub fmt: u32,
    pub n: usize,
    pub k: usize,
    pub experts: usize,
    /// Bytes of weights.
    pub bytes: usize,
}

/// Tile shape and split-K factor of a dense product; no row tile for the row-vector kernel.
#[derive(Clone, Copy, Debug, PartialEq, Eq, Structural)]
pub struct Plan {
    pub bm: usize,
    pub bn: usize,
    pub splits: usize,
}

#[derive(Clone, Copy, Debug, PartialEq, Eq, Structural)]
pub struct DenseKey {
    pub fmt: u32,
    pub n: usize,
    pub k: usize,
    pub bucket: usize,
    pub row_invariant: bool,
}

#[derive(Clone, Copy, Debug, PartialEq, Eq, Structural)]
pub struct GroupKey {
    pub fmt: u32,
    pub n: usize,
    pub k: usize,
    pub experts: usize,
    pub bucket: usize,
}

/// Tile shape of the expert-grouped product (grouping must use the same `bm`).
#[derive(Clone, Copy, Debug, PartialEq, Eq, Structural)]
pub struct GroupPlan {
    pub bm: usize,
    pub bn: usize,
}

impl GroupPlan {
    pub const ROW_TILES: [usize; 2] = [32, 64];

    /// The plan of a matrix without measurements; `tile` is the column tile of its width.
    pub fn heuristic(tile: usize) -> (r: Self)
        ensures
            r == (GroupPlan { bm: 32, bn: tile }),
    {
        GroupPlan { bm: 32, bn: tile }
    }
}

/// Weight shapes and row counts the model will run, gathered before tuning.
#[derive(Debug)]
pub struct Workload {
    /// Dense matrices (deduplicated by shape and format internally).
    pub dense: Vec<QMatrix>,
    /// Expert matrices used by the grouped product.
    pub grouped: Vec<QMatrix>,
    pub top_k: usize,
    /// Largest prompt chunk.
    pub prefill_rows: usize,
    /// Largest canvas.
    pub canvas_rows: usize,
}

/// Scratch used while tuning (contents are overwritten).
#[derive(Debug)]
pub struct TuneBuffers<H: Copy> {
    pub x: Buf<H>,
    pub out: Buf<H>,
    pub dummy: Buf<H>,
    /// Length of the model's route buffer (fixes the grouping kernel variant).
    pub route_capacity: usize,
    pub sorted: Buf<H>,
    pub offsets: Buf<H>,
    pub jobs: Buf<H>,
}

/// Launch plans keyed by weight shape and row bucket, falling back to heuristics.
#[derive(Debug)]
pub struct Tuner {
    pub profile: DeviceProfile,
    pub dense: Vec<(DenseKey, Plan)>,
    pub grouped: Vec<(GroupKey, GroupPlan)>,
    /// Where plans are stored; none where tuning is off.
    pub path: Option<String>,
}

/// Row-invariant plans use matrix tiles and never split K.
pub open spec fn keeps_rows(p: Plan) -> bool {
    p.bm > 0 && p.splits == 1
}

pub fn is_row_invariant(p: Plan) -> (r: bool)
    ensures
        r == keeps_rows(p),
{
    p.bm > 0 && p.splits == 1
}

/// The value stored under a key: that of the last entry under it.
pub open spec fn stored<K, P>(table: Seq<(K, P)>, key: K) -> Option<P>
    decreases table.len(),
{
    if table.len() == 0 {
        None
    } else if table.last().0 == key {
        Some(table.last().1)
    } else {
        stored(table.drop_last(), key)
    }
}

/// The bucket of `m` as a function.
pub open spec fn bucket_of(m: int) -> int {
    choose|b: int| is_bucket(m, b)
}

/// The key of a dense product of `m` rows.
pub open spec fn dense_key(w: QMatrix, m: int, row_invariant: bool) -> DenseKey {
    DenseKey { fmt: w.fmt, n: w.n, k: w.k, bucket: bucket_of(m) as usize, row_invariant }
}

/// The key of a grouped product of `rows` tokens.
pub open spec fn group_key(w: QMatrix, rows: int) -> GroupKey {
    GroupKey {
        fmt: w.fmt,
        n: w.n,
        k: w.k,
        experts: w.experts,
        bucket: bucket_of(rows) as usize,
    }
}

proof fn lemma_bucket_of(m: int, b: int)
    requires
        is_bucket(m, b),
    ensures
        bucket_of(m) == b,
{
    let c = bucket_of(m);
    assert(is_bucket(m, c));
    if m > 4 {
        lemma_least_power(m, b, c);
        lemma_least_power(m, c, b);
    }
}

impl Tuner {
    pub fn enabled(&self) -> (r: bool)
        ensures
            r == (self.path is Some),
    {
        self.path.is_some()
    }

    /// The plan stored for `out[m, n] = x[m, k] . W^T`.
    pub fn stored_dense(&self, w: &QMatrix, m: usize, row_invariant: bool) -> (r: Option<Plan>)
        requires
            m <= usize::MAX / 2 + 1,
        ensures
            r == stored(
                self.dense@,
                dense_key(*w, m as int, row_invariant),
            ),
    {
        let b: usize = bucket(m);
        proof {
            lemma_bucket_of(m as int, b as int);
        }
        let key: DenseKey = DenseKey { fmt: w.fmt, n: w.n, k: w.k, bucket: b, row_invariant };
        let mut i: usize = self.dense.len();
        let ghost all = self.dense@;
        assert(all.take(i as int) =~= all);
        while i > 0
            invariant
                i <= self.dense@.len(),
                all == self.dense@,
                key == dense_key(*w, m as int, row_invariant),
                stored(all, key) == stored(all.take(i as int), key),
            decreases i,
        {
            proof {
                assert(all.take(i as int).drop_last() =~= all.take(i - 1));
            }
            i -= 1;
            if self.dense[i].0 == key {
                return Some(self.dense[i].1);
            }
        }
        None
    }

    /// The plan that is stored for a dense product, where it is `valid` and keeps the rows apart where
    /// it must, else `fallback`.
    pub open spec fn dense_plan(
        self,
        w: QMatrix,
        m: int,
        row_invariant: bool,
        valid: bool,
        fallback: Plan,
    ) -> Plan {
        match stored(self.dense@, dense_key(w, m, row_invariant)) {
            Some(p) if valid && (!row_invariant || keeps_rows(p)) => p,
            _ => fallback,
        }
    }

    /// Plan for `out[m, n] = x[m, k] . W^T`. Row-invariant plans never split K. `valid` says
    /// whether the stored plan fits the matrix and row count; `fallback` is the heuristic plan.
    pub fn dense(
        &self,
        w: &QMatrix,
        m: usize,
        row_invariant: bool,
        valid: bool,
        fallback: Plan,
    ) -> (r: Plan)
        requires
            m <= usize::MAX / 2 + 1,
        ensures
            r == self.dense_plan(*w, m as int, row_invariant, valid, fallback),
            row_invariant && keeps_rows(fallback) ==> keeps_rows(r),
    {
        match self.stored_dense(w, m, row_invariant) {
            Some(p) => if valid && (!row_invariant || is_row_invariant(p)) {
                p
            } else {
                fallback
            },
            None => fallback,
        }
    }

    /// The plan that is stored for a grouped product, where it divides the width, else the one without
    /// measurements.
    pub open spec fn group_plan(self, w: QMatrix, rows: int, tile: usize) -> GroupPlan {
        match stored(self.grouped@, group_key(w, rows)) {
            Some(p) if (if p.bn == 0 {
                w.n == 0
            } else {
                w.n % p.bn == 0
            }) => p,
            _ => GroupPlan { bm: 32, bn: tile },
        }
    }

    /// Tile shape for the grouped product of `rows` tokens; `tile` is the column tile of the
    /// matrix's width.
    pub fn grouped(&self, w: &QMatrix, rows: usize, tile: usize) -> (r: GroupPlan)
        requires
            rows <= usize::MAX / 2 + 1,
        ensures
            r == self.group_plan(*w, rows as int, tile),
    {
        let b: usize = bucket(rows);
        proof {
            lemma_bucket_of(rows as int, b as int);
        }
        let key: GroupKey = GroupKey {
            fmt: w.fmt,
            n: w.n,
            k: w.k,
            experts: w.experts,
            bucket: b,
        };
        let mut i: usize = self.grouped.len();
        let ghost all = self.grouped@;
        assert(all.take(i as int) =~= all);
        while i > 0
            invariant
                i <= self.grouped@.len(),
                all == self.grouped@,
                stored(all, key) == stored(all.take(i as int), key),
                key == group_key(*w, rows as int),
            decreases i,
        {
            proof {
                assert(all.take(i as int).drop_last() =~= all.take(i - 1));
            }
            i -= 1;
            if self.grouped[i].0 == key {
                let p: GroupPlan = self.grouped[i].1;
                if w.n.is_multiple_of(p.bn) {
                    return p;
                }
                return GroupPlan::heuristic(tile);
            }
        }
        GroupPlan::heuristic(tile)
    }
}

/// The bucket of the rows decides the plan: all rows of one bucket get the same.
pub proof fn law_rows_of_one_bucket_get_the_same_plan(tuner: Tuner, w: QMatrix, a: int, b: int)
    requires
        bucket_of(a) == bucket_of(b),
    ensures
        forall|tile: usize| #[trigger]
            tuner.group_plan(w, a, tile) == tuner.group_plan(w, b, tile),
        forall|row_invariant: bool, valid: bool, fallback: Plan| #[trigger]
            tuner.dense_plan(w, a, row_invariant, valid, fallback) == tuner.dense_plan(
                w,
                b,
                row_invariant,
                valid,
                fallback,
            ),
{
}

/// The doublings of `b` up to `top` and 1024.
pub open spec fn doublings(b: nat, top: nat) -> Seq<nat>
    decreases 2048 - b,
    when b > 0
{
    if b <= top && b <= 1024 {
        seq![b] + doublings(2 * b, top)
    } else {
        Seq::empty()
    }
}

/// The row-count buckets from `min` to the one that serves `max` rows, at most 1024.
pub fn buckets(min: usize, max: usize) -> (r: Vec<usize>)
    requires
        min > 0,
        max <= usize::MAX / 2 + 1,
    ensures
        Seq::new(r@.len(), |i: int| r@[i] as nat) == doublings(
            min as nat,
            bucket_of(if max == 0 { 1 } else { max as int }) as nat,
        ),
{
    let rows: usize = if max == 0 {
        1
    } else {
        max
    };
    let top: usize = bucket(rows);
    proof {
        lemma_bucket_of(rows as int, top as int);
    }
    let mut out: Vec<usize> = Vec::new();
    let mut b: usize = min;
    let ghost all = doublings(min as nat, top as nat);
    let ghost mut listed: Seq<nat> = Seq::empty();
    assert(listed + all =~= all);
    while b <= top && b <= 1024
        invariant
            b > 0,
            listed == Seq::new(out@.len(), |i: int| out@[i] as nat),
            all == listed + doublings(b as nat, top as nat),
        decreases 2048 - b,
    {
        let ghost rest = doublings(b as nat, top as nat);
        out.push(b);
        proof {
            assert(Seq::new(out@.len(), |i: int| out@[i] as nat) =~= listed.push(b as nat));
            assert(rest =~= seq![b as nat] + doublings(2 * b as nat, top as nat));
            assert(listed + rest =~= listed.push(b as nat) + doublings(2 * b as nat, top as nat));
            listed = listed.push(b as nat);
        }
        b = b * 2;
    }
    assert(listed + Seq::<nat>::empty() =~= listed);
    out
}

} // verus!
