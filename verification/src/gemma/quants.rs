//! Q6_K tables: blocks of 256 values of six bits, with a signed scale for each sixteen of them.
use vstd::prelude::*;

verus! {

/// Values of a block.
pub const BLOCK: usize = 256;

/// Regions of a table as word arrays: of each block the low four bits of its values, the high two
/// bits, the signed scales, and the bits of the float that all of them are scaled by.
#[derive(Debug)]
pub struct Q6kTable {
    pub ql: Vec<u32>,
    pub qh: Vec<u32>,
    pub sc: Vec<u32>,
    pub d: Vec<u32>,
}

/// A value of a table: `q * scale` times the float of its block.
#[derive(Clone, Copy, Debug, PartialEq, Eq, Structural)]
pub struct Level {
    pub block: usize,
    pub scale: i32,
    /// From -32 to 31.
    pub q: i32,
}

/// 256 to the power `k`, for a byte of a word.
pub open spec fn byte_unit(k: int) -> int {
    if k == 0 {
        1
    } else if k == 1 {
        0x100
    } else if k == 2 {
        0x1_0000
    } else {
        0x100_0000
    }
}

/// Byte `i` from word `start` on, the lowest of a word first.
pub open spec fn byte_at(words: Seq<u32>, start: int, i: int) -> int {
    words[start + i / 4] as int / byte_unit(i % 4) % 256
}

/// The byte of a block's low bits that holds value `w`, and whether it is in the upper half.
pub open spec fn low_place(w: int) -> (int, bool) {
    (64 * (w / 128) + w % 64, w % 128 >= 64)
}

/// The byte of a block's high bits that holds value `w`, and the pair of bits in it.
pub open spec fn high_place(w: int) -> (int, int) {
    (32 * (w / 128) + w % 32, w % 128 / 32)
}

/// 4 to the power `pair`.
pub open spec fn pair_unit(pair: int) -> int {
    if pair == 0 {
        1
    } else if pair == 1 {
        4
    } else if pair == 2 {
        16
    } else {
        64
    }
}

/// A byte as a signed number.
pub open spec fn signed(byte: int) -> int {
    if byte < 128 {
        byte
    } else {
        byte - 256
    }
}

impl Q6kTable {
    /// The regions of `blocks` blocks.
    pub open spec fn holds(self, blocks: int) -> bool {
        &&& self.ql@.len() == 32 * blocks
        &&& self.qh@.len() == 16 * blocks
        &&& self.sc@.len() == 4 * blocks
        &&& self.d@.len() == blocks
    }

    /// The low four bits of value `w` of a block.
    pub open spec fn low(self, block: int, w: int) -> int {
        let byte = byte_at(self.ql@, 32 * block, low_place(w).0);
        if low_place(w).1 {
            byte / 16
        } else {
            byte % 16
        }
    }

    /// The high two bits of value `w` of a block.
    pub open spec fn high(self, block: int, w: int) -> int {
        byte_at(self.qh@, 16 * block, high_place(w).0) / pair_unit(high_place(w).1) % 4
    }

    /// Value `w` of a block.
    pub open spec fn value(self, block: int, w: int) -> Level {
        Level {
            block: block as usize,
            scale: signed(byte_at(self.sc@, 4 * block, w / 16)) as i32,
            q: (self.low(block, w) + 16 * self.high(block, w) - 32) as i32,
        }
    }

    /// Column `c` of `row` in a table of `d` columns.
    pub open spec fn cell(self, row: int, c: int, d: int) -> Level {
        self.value(row * (d / 256) + c / 256, c % 256)
    }

    /// Column `c` of `row` in a table of `d` columns.
    pub fn level(&self, rows: usize, d: usize, row: usize, c: usize) -> (r: Level)
        requires
            d % 256 == 0,
            self.holds(rows * (d as int / 256)),
            row < rows,
            c < d,
        ensures
            r == self.cell(row as int, c as int, d as int),
            -32 <= r.q < 32,
            -128 <= r.scale < 128,
    {
        let per_row: usize = d / BLOCK;
        proof {
            lemma_block_is_held(rows as int, per_row as int, row as int, c as int / 256);
        }
        let size: usize = self.d.len();
        let words: usize = self.ql.len();
        let block: usize = row * per_row + c / BLOCK;
        let w: usize = c % BLOCK;
        let low_byte: u32 = byte(&self.ql, 32 * block, 64 * (w / 128) + w % 64);
        let low: u32 = if w % 128 >= 64 {
            low_byte / 16
        } else {
            low_byte % 16
        };
        let high_byte: u32 = byte(&self.qh, 16 * block, 32 * (w / 128) + w % 32);
        let pair: usize = w % 128 / 32;
        let high: u32 = if pair == 0 {
            high_byte % 4
        } else if pair == 1 {
            high_byte / 4 % 4
        } else if pair == 2 {
            high_byte / 16 % 4
        } else {
            high_byte / 64 % 4
        };
        let scale: u32 = byte(&self.sc, 4 * block, w / 16);
        let signed_scale: i32 = if scale < 128 {
            scale as i32
        } else {
            scale as i32 - 256
        };
        Level { block, scale: signed_scale, q: (low + 16 * high) as i32 - 32 }
    }

    /// The table by columns: `rows` values of the first column, then of the next.
    pub fn transposed(&self, rows: usize, d: usize) -> (r: Vec<Level>)
        requires
            d % 256 == 0,
            self.holds(rows * (d as int / 256)),
        ensures
            r@.len() == d * rows,
            forall|c: int, row: int|
                0 <= c < d && 0 <= row < rows ==> #[trigger] r@[c * rows + row] == self.cell(
                    row,
                    c,
                    d as int,
                ),
    {
        let mut out: Vec<Level> = Vec::new();
        let mut c: usize = 0;
        while c < d
            invariant
                c <= d,
                d % 256 == 0,
                self.holds(rows * (d as int / 256)),
                out@.len() == c * rows,
                columns_of(*self, out@, rows as int, c as int, d as int),
            decreases d - c,
        {
            let ghost before = out@;
            let mut row: usize = 0;
            while row < rows
                invariant
                    c < d,
                    row <= rows,
                    d % 256 == 0,
                    self.holds(rows * (d as int / 256)),
                    before.len() == c * rows,
                    out@.len() == c * rows + row,
                    out@.take(before.len() as int) == before,
                    forall|k: int|
                        0 <= k < row ==> #[trigger] out@[before.len() + k] == self.cell(
                            k,
                            c as int,
                            d as int,
                        ),
                decreases rows - row,
            {
                let ghost had = out@;
                out.push(self.level(rows, d, row, c));
                assert(out@.take(before.len() as int) =~= had.take(before.len() as int));
                row += 1;
            }
            proof {
                assert((c + 1) * rows == c * rows + rows) by (nonlinear_arith);
                assert forall|k: int, row: int| 0 <= k < c + 1 && 0 <= row < rows implies (
                #[trigger] out@[k * rows + row]) == self.cell(row, k, d as int) by {
                    if k < c {
                        assert(0 <= k * rows && k * rows + rows <= c * rows) by (nonlinear_arith)
                            requires
                                0 <= k < c,
                                0 <= rows,
                        ;
                        assert(out@[k * rows + row] == out@.take(before.len() as int)[k * rows
                            + row]);
                    } else {
                        assert(out@[before.len() + row] == self.cell(row, c as int, d as int));
                    }
                }
            }
            c += 1;
        }
        out
    }
}

/// The first `n` columns are in `out`.
spec fn columns_of(table: Q6kTable, out: Seq<Level>, rows: int, n: int, d: int) -> bool {
    forall|c: int, row: int|
        0 <= c < n && 0 <= row < rows ==> #[trigger] out[c * rows + row] == table.cell(row, c, d)
}

fn byte(words: &Vec<u32>, start: usize, i: usize) -> (r: u32)
    requires
        start + i / 4 < words@.len(),
    ensures
        r == byte_at(words@, start as int, i as int),
        r < 256,
{
    let size: usize = words.len();
    let word: u32 = words[start + i / 4];
    let k: usize = i % 4;
    if k == 0 {
        word % 256
    } else if k == 1 {
        word / 0x100 % 256
    } else if k == 2 {
        word / 0x1_0000 % 256
    } else {
        word / 0x100_0000 % 256
    }
}

/// Block `b` of a row is one of all blocks.
proof fn lemma_block_is_held(rows: int, per_row: int, row: int, b: int)
    requires
        0 <= row < rows,
        0 <= b < per_row,
    ensures
        0 <= row * per_row <= row * per_row + b < rows * per_row,
{
    assert(0 <= row * per_row && row * per_row + per_row <= rows * per_row) by (nonlinear_arith)
        requires
            0 <= row < rows,
            0 < per_row,
    ;
}

/// No two values of a block share a bit.
pub proof fn law_values_share_no_bits(a: int, b: int)
    requires
        0 <= a < 256,
        0 <= b < 256,
        a != b,
    ensures
        low_place(a) != low_place(b),
        high_place(a) != high_place(b),
        0 <= low_place(a).0 < 128,
        0 <= high_place(a).0 < 64,
        0 <= high_place(a).1 < 4,
{
}

/// No two columns of a table are the same value of the same block.
pub proof fn law_columns_are_distinct_values(d: int, row: int, c: int, row2: int, c2: int)
    requires
        d > 0,
        d % 256 == 0,
        0 <= c < d,
        0 <= c2 < d,
        (row, c) != (row2, c2),
    ensures
        (row * (d / 256) + c / 256, c % 256) != (row2 * (d / 256) + c2 / 256, c2 % 256),
{
    let n = d / 256;
    let (b, b2) = (c / 256, c2 / 256);
    if row < row2 {
        assert(row * n + n <= row2 * n) by (nonlinear_arith)
            requires
                row < row2,
                n > 0,
        ;
    } else if row2 < row {
        assert(row2 * n + n <= row * n) by (nonlinear_arith)
            requires
                row2 < row,
                n > 0,
        ;
    }
}

} // verus!
