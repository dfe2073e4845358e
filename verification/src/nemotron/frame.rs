//! The shape of one forward: rows and keys padded to a small set of sizes, and which keys each
//! row sees.
use crate::arith::{next_power_of_two, power_of_two};
use crate::error::{Error, ErrorModel, Result};
use vstd::prelude::*;

verus! {

/// The smallest power of two that is at least `n` and at least `floor`, itself a power of two.
pub open spec fn is_bucket(n: int, floor: int, r: int) -> bool {
    &&& power_of_two(r)
    &&& n <= r
    &&& floor <= r
    &&& r == floor || r == 1 || r / 2 < n
}

/// Smallest power-of-two row count (at least 32) holding `rows`.
pub fn row_bucket(rows: usize) -> (r: usize)
    requires
        rows <= usize::MAX / 2 + 1,
    ensures
        is_bucket(rows as int, 32, r as int),
{
    let p: usize = next_power_of_two(rows);
    proof {
        reveal_with_fuel(power_of_two, 6);
    }
    if p < 32 {
        32
    } else {
        p
    }
}

/// The smallest power of two that is at least `keys` and at least 256, or `capacity` where that is
/// smaller.
pub open spec fn is_key_bucket(keys: int, capacity: int, r: int) -> bool {
    exists|b: int| #[trigger]
        is_bucket(keys, 256, b) && r == if b < capacity {
            b
        } else {
            capacity
        }
}

/// Smallest power-of-two key count (at least 256) holding `keys`, within `capacity`.
pub fn key_bucket(keys: usize, capacity: usize) -> (r: usize)
    requires
        keys <= usize::MAX / 2 + 1,
    ensures
        is_key_bucket(keys as int, capacity as int, r as int),
{
    let p: usize = next_power_of_two(keys);
    let b: usize = if p < 256 {
        256
    } else {
        p
    };
    proof {
        reveal_with_fuel(power_of_two, 9);
        assert(is_bucket(keys as int, 256, b as int));
    }
    if b < capacity {
        b
    } else {
        capacity
    }
}

/// Buckets grow with what they hold.
pub proof fn lemma_buckets_grow(a: int, b: int, floor: int, ra: int, rb: int)
    requires
        a <= b,
        is_bucket(a, floor, ra),
        is_bucket(b, floor, rb),
    ensures
        ra <= rb,
{
    if ra > rb {
        crate::arith::lemma_powers_double(rb, ra);
    }
}

/// The positions to provide for `context` positions and forwards of `batch` rows: room for rows
/// and keys padded past the context.
pub fn cache_capacity(context: usize, batch: usize) -> (r: usize)
    requires
        batch <= usize::MAX / 8,
        context <= usize::MAX / 8,
    ensures
        provides(r as int, context as int, batch as int),
{
    let rows: usize = row_bucket(batch);
    proof {
        if rows != 32 {
            assert(rows / 2 < batch || rows == 1);
        }
    }
    key_bucket(context + rows, usize::MAX)
}

/// A capacity that holds the context and the padded rows of one batch.
pub open spec fn provides(capacity: int, context: int, batch: int) -> bool {
    exists|rows: int| #[trigger]
        is_bucket(batch, 32, rows) && context + rows <= capacity
}

/// One forward.
#[derive(Clone, Copy, Debug, PartialEq, Eq, Structural)]
pub struct Frame {
    /// Position of the first row.
    pub start: usize,
    pub rows: usize,
    /// Rows with padding.
    pub padded: usize,
    /// Keys in view, with padding.
    pub keys: usize,
    /// A row sees the keys up to its own; else all keys before the end of the rows.
    pub causal: bool,
}

impl Frame {
    /// The position after the last row.
    pub open spec fn end(self) -> int {
        self.start + self.rows
    }

    /// Row `i` does not see key `j`.
    pub open spec fn masked(self, i: int, j: int) -> bool {
        if self.causal {
            j > self.start + i
        } else {
            j >= self.end()
        }
    }

    /// The sizes are the buckets of the rows and keys.
    pub open spec fn fits(self, capacity: usize) -> bool {
        &&& is_bucket(self.rows as int, 32, self.padded as int)
        &&& is_key_bucket(self.start + self.padded, capacity as int, self.keys as int)
    }

    /// Whether row `i` does not see key `j`.
    pub fn hidden(&self, i: usize, j: usize) -> (r: bool)
        requires
            self.start + self.rows <= usize::MAX,
            self.start + i <= usize::MAX,
        ensures
            r == self.masked(i as int, j as int),
    {
        if self.causal {
            j > self.start + i
        } else {
            j >= self.start + self.rows
        }
    }
}

/// The frame of `rows` rows from `start`, within `n_ctx` positions.
pub fn frame(start: usize, rows: usize, causal: bool, n_ctx: usize, capacity: usize) -> (r: Result<
    Frame,
>)
    requires
        n_ctx <= usize::MAX / 8,
    ensures
        r is Ok <==> start + rows <= n_ctx,
        r matches Err(e) ==> e@ == ErrorModel::InvalidInput(
            "Prompt and canvas exceed the context size"@,
        ),
        r matches Ok(f) ==> f.start == start && f.rows == rows && f.causal == causal && f.fits(
            capacity,
        ),
{
    if start > n_ctx || rows > n_ctx - start {
        return Err(Error::input("Prompt and canvas exceed the context size"));
    }
    let padded: usize = row_bucket(rows);
    proof {
        if padded != 32 {
            assert(padded / 2 < rows || padded == 1);
        }
    }
    let keys: usize = key_bucket(start + padded, capacity);
    Ok(Frame { start, rows, padded, keys, causal })
}

/// Every padded row has its key in view, where the capacity holds the context and the padded rows
/// of a batch.
pub proof fn law_padded_rows_have_keys(f: Frame, capacity: usize, context: int, batch: int)
    requires
        f.fits(capacity),
        provides(capacity as int, context, batch),
        f.end() <= context,
        f.rows <= batch,
    ensures
        f.start + f.padded <= f.keys <= capacity || f.keys == capacity,
        f.start + f.padded <= f.keys,
        f.rows <= f.padded,
{
    let most = choose|rows: int| #[trigger] is_bucket(batch, 32, rows) && context + rows <= capacity;
    lemma_buckets_grow(f.rows as int, batch, 32, f.padded as int, most);
}

/// A causal row sees exactly the keys up to its own position, and a canvas row exactly the keys
/// before the end of the canvas: never a padding row's key or a stale one.
pub proof fn law_rows_see_only_real_keys(f: Frame, i: int, j: int)
    requires
        0 <= i < f.rows,
        0 <= j,
    ensures
        !f.masked(i, j) ==> j < f.end(),
        f.causal ==> (!f.masked(i, j) <==> j <= f.start + i),
        !f.causal ==> (!f.masked(i, j) <==> j < f.end()),
{
}

} // verus!
