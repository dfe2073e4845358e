//! Where the queries, keys and values of a forward stand (heads in the products, and rows of the
//! caches), how those of an image are rotated, and which patches an image token averages.
use crate::gemma::forward::QkvShape;
use crate::kernels::buf::{Buf, BufferArg};
use vstd::prelude::*;

verus! {

/// A value of one of three buffers.
#[derive(Clone, Copy, Debug, PartialEq, Eq, Structural)]
pub enum Cell {
    Query(usize),
    Key(usize),
    Value(usize),
}

/// The three buffers of an image's attention: its queries, keys and values.
#[derive(Clone, Copy, Debug)]
pub struct QkvOut<'a, H: Copy> {
    pub q: &'a Buf<H>,
    pub k: &'a Buf<H>,
    pub v: &'a Buf<H>,
}

impl<'a, H: Copy> QkvOut<'a, H> {
    /// The buffer that holds a value, and the value's index there.
    pub open spec fn place(self, cell: Cell) -> (Buf<H>, usize) {
        match cell {
            Cell::Query(i) => (*self.q, i),
            Cell::Key(i) => (*self.k, i),
            Cell::Value(i) => (*self.v, i),
        }
    }

    /// The launch argument that holds a value, and the value's index there; none past its end.
    pub fn find(&self, cell: Cell) -> (r: Option<(BufferArg<H>, usize)>)
        ensures
            ({
                let (buffer, i) = self.place(cell);
                &&& r is Some <==> i < buffer.count()
                &&& r is Some ==> r->Some_0 == ((
                    BufferArg { handle: buffer.allocation(), stride: 1, shape: buffer.count() },
                    i,
                ))
            }),
    {
        let (buffer, i): (&Buf<H>, usize) = match cell {
            Cell::Query(i) => (self.q, i),
            Cell::Key(i) => (self.k, i),
            Cell::Value(i) => (self.v, i),
        };
        if i < buffer.len() {
            Some((buffer.arg(), i))
        } else {
            None
        }
    }
}

/// Where a value comes from, where it goes, and the cosine of its rotation; the sine follows.
#[derive(Clone, Copy, Debug, PartialEq, Eq, Structural)]
pub struct Move {
    pub from: Cell,
    pub to: Cell,
    /// None for values, which are not rotated.
    pub rope: Option<usize>,
}

/// Index of `[a, b, c]` in an array whose last two dimensions are `m` and `n`.
pub open spec fn index(a: int, b: int, c: int, m: int, n: int) -> int {
    (a * m + b) * n + c
}

impl QkvShape {
    /// Slots of a row: its query heads, its key heads, its value heads.
    pub open spec fn slots(self) -> int {
        self.heads + 2 * self.kv_heads
    }

    /// The rows of a forward at `pos` fit the caches, and all indexes can be counted.
    pub open spec fn fits(self, rows: usize, pos: usize, cap: usize) -> bool {
        &&& pos + rows <= cap
        &&& self.slots() <= usize::MAX
        &&& rows * self.heads * self.hd <= usize::MAX
        &&& cap * self.kv_heads * self.hd <= usize::MAX
        &&& cap * self.hd <= usize::MAX
    }

    /// Element `c` of a slot: queries are `[row, head, hd]`, cached keys `[position, head, hd]`,
    /// cached values `[head, hd, cap]`.
    pub open spec fn moved(self, row: int, pos: int, cap: int, slot: int, c: int) -> Move {
        let at = pos + row;
        let rope = Some(((at * (self.hd / 2) + c % (self.hd as int / 2)) * 2) as usize);
        if slot < self.heads {
            let i = index(row, slot, c, self.heads as int, self.hd as int) as usize;
            Move { from: Cell::Query(i), to: Cell::Query(i), rope }
        } else if slot < self.heads + self.kv_heads {
            let head = slot - self.heads;
            Move {
                from: Cell::Key(
                    index(row, head, c, self.kv_heads as int, self.hd as int) as usize,
                ),
                to: Cell::Key(index(at, head, c, self.kv_heads as int, self.hd as int) as usize),
                rope,
            }
        } else {
            let head = slot - self.heads - self.kv_heads;
            Move {
                from: Cell::Value(
                    index(row, head, c, self.kv_heads as int, self.hd as int) as usize,
                ),
                to: Cell::Value(index(head, c, at, self.hd as int, cap) as usize),
                rope: None,
            }
        }
    }

    /// Where element `c` of a slot of a row is moved to, the first row at `pos`.
    pub fn prepare(&self, rows: usize, row: usize, pos: usize, cap: usize, slot: usize, c: usize) -> (r: Move)
        requires
            self.fits(rows, pos, cap),
            row < rows,
            slot < self.slots(),
            c < self.hd,
            self.hd % 2 == 0,
        ensures
            r == self.moved(row as int, pos as int, cap as int, slot as int, c as int),
    {
        let at: usize = pos + row;
        let half: usize = self.hd / 2;
        let pair: usize = c % half;
        proof {
            lemma_index(at as int, 0, pair as int, cap as int, 1, half as int);
            assert(cap * 1 * half == cap * half) by (nonlinear_arith);
            assert(index(at as int, 0, pair as int, 1, half as int) == at * half + pair)
                by (nonlinear_arith);
            assert(cap * self.hd == 2 * (cap * half)) by (nonlinear_arith)
                requires
                    self.hd == 2 * half,
            ;
            assert(0 <= at * half) by (nonlinear_arith);
        }
        let rope: Option<usize> = Some((at * half + pair) * 2);
        if slot < self.heads {
            proof {
                lemma_index(
                    row as int,
                    slot as int,
                    c as int,
                    rows as int,
                    self.heads as int,
                    self.hd as int,
                );
            }
            let i: usize = (row * self.heads + slot) * self.hd + c;
            return Move { from: Cell::Query(i), to: Cell::Query(i), rope };
        }
        let kv: usize = self.kv_heads;
        if slot - self.heads < kv {
            let head: usize = slot - self.heads;
            proof {
                lemma_index(
                    at as int,
                    head as int,
                    c as int,
                    cap as int,
                    kv as int,
                    self.hd as int,
                );
                lemma_index(
                    row as int,
                    head as int,
                    c as int,
                    cap as int,
                    kv as int,
                    self.hd as int,
                );
            }
            return Move {
                from: Cell::Key((row * kv + head) * self.hd + c),
                to: Cell::Key((at * kv + head) * self.hd + c),
                rope,
            };
        }
        let head: usize = slot - self.heads - kv;
        proof {
            lemma_index(row as int, head as int, c as int, cap as int, kv as int, self.hd as int);
            lemma_index(head as int, c as int, at as int, kv as int, self.hd as int, cap as int);
            let (n, k, h) = (cap as int, kv as int, self.hd as int);
            assert(k * h * n == n * k * h) by (nonlinear_arith);
        }
        Move {
            from: Cell::Value((row * kv + head) * self.hd + c),
            to: Cell::Value((head * self.hd + c) * cap + at),
            rope: None,
        }
    }
}

/// An index lies in its array, and so do the products on the way to it.
proof fn lemma_index(a: int, b: int, c: int, l: int, m: int, n: int)
    requires
        0 <= a < l,
        0 <= b < m,
        0 <= c < n,
    ensures
        0 <= a * m <= a * m + b <= (a * m + b) * n <= index(a, b, c, m, n) < l * m * n,
        a * m + b < l * m,
{
    assert(0 <= a * m && a * m + m <= l * m) by (nonlinear_arith)
        requires
            0 <= a < l,
            0 < m,
    ;
    let q = a * m + b;
    assert(q <= q * n && q * n + n <= (l * m) * n) by (nonlinear_arith)
        requires
            0 <= q < l * m,
            0 < n,
    ;
}

/// Different triples have different indexes.
proof fn lemma_index_is_injective(a: int, b: int, c: int, a2: int, b2: int, c2: int, m: int, n: int)
    requires
        0 <= b < m,
        0 <= b2 < m,
        0 <= c < n,
        0 <= c2 < n,
        index(a, b, c, m, n) == index(a2, b2, c2, m, n),
    ensures
        a == a2,
        b == b2,
        c == c2,
{
    lemma_pair_is_injective(a * m + b, c, a2 * m + b2, c2, n);
    lemma_pair_is_injective(a, b, a2, b2, m);
}

proof fn lemma_pair_is_injective(q: int, c: int, q2: int, c2: int, n: int)
    requires
        0 <= c < n,
        0 <= c2 < n,
        q * n + c == q2 * n + c2,
    ensures
        q == q2,
        c == c2,
{
    if q < q2 {
        assert(q * n + n <= q2 * n) by (nonlinear_arith)
            requires
                q < q2,
                n > 0,
        ;
    } else if q2 < q {
        assert(q2 * n + n <= q * n) by (nonlinear_arith)
            requires
                q2 < q,
                n > 0,
        ;
    }
}

/// A buffer holds a cell.
pub open spec fn within(cell: Cell, queries: int, keys: int) -> bool {
    match cell {
        Cell::Query(i) => i < queries,
        Cell::Key(i) => i < keys,
        Cell::Value(i) => i < keys,
    }
}

/// Every element of a forward goes to a cell of its own, and that cell lies in its buffer.
pub proof fn law_elements_keep_apart(
    shape: QkvShape,
    rows: usize,
    pos: usize,
    cap: usize,
    a: (int, int, int),
    b: (int, int, int),
)
    requires
        shape.fits(rows, pos, cap),
        0 <= a.0 < rows,
        0 <= a.1 < shape.slots(),
        0 <= a.2 < shape.hd,
        0 <= b.0 < rows,
        0 <= b.1 < shape.slots(),
        0 <= b.2 < shape.hd,
        a != b,
    ensures
        shape.moved(a.0, pos as int, cap as int, a.1, a.2).to != shape.moved(
            b.0,
            pos as int,
            cap as int,
            b.1,
            b.2,
        ).to,
        within(
            shape.moved(a.0, pos as int, cap as int, a.1, a.2).to,
            rows * shape.heads * shape.hd,
            cap * shape.kv_heads * shape.hd,
        ),
{
    lemma_cell_is_counted(shape, rows, pos, cap, a);
    lemma_cell_is_counted(shape, rows, pos, cap, b);
    let (h, kv, hd) = (shape.heads as int, shape.kv_heads as int, shape.hd as int);
    if a.1 < h && b.1 < h {
        if index(a.0, a.1, a.2, h, hd) == index(b.0, b.1, b.2, h, hd) {
            lemma_index_is_injective(a.0, a.1, a.2, b.0, b.1, b.2, h, hd);
        }
    } else if h <= a.1 < h + kv && h <= b.1 < h + kv {
        if index(pos + a.0, a.1 - h, a.2, kv, hd) == index(pos + b.0, b.1 - h, b.2, kv, hd) {
            lemma_index_is_injective(
                pos + a.0,
                a.1 - h,
                a.2,
                pos + b.0,
                b.1 - h,
                b.2,
                kv,
                hd,
            );
        }
    } else if h + kv <= a.1 && h + kv <= b.1 {
        let n = cap as int;
        if index(a.1 - h - kv, a.2, pos + a.0, hd, n) == index(
            b.1 - h - kv,
            b.2,
            pos + b.0,
            hd,
            n,
        ) {
            lemma_index_is_injective(
                a.1 - h - kv,
                a.2,
                pos + a.0,
                b.1 - h - kv,
                b.2,
                pos + b.0,
                hd,
                n,
            );
        }
    }
}

/// The index of an element's cell.
spec fn target(shape: QkvShape, pos: int, cap: int, a: (int, int, int)) -> int {
    let (h, kv, hd) = (shape.heads as int, shape.kv_heads as int, shape.hd as int);
    if a.1 < h {
        index(a.0, a.1, a.2, h, hd)
    } else if a.1 < h + kv {
        index(pos + a.0, a.1 - h, a.2, kv, hd)
    } else {
        index(a.1 - h - kv, a.2, pos + a.0, hd, cap)
    }
}

proof fn lemma_cell_is_counted(
    shape: QkvShape,
    rows: usize,
    pos: usize,
    cap: usize,
    a: (int, int, int),
)
    requires
        shape.fits(rows, pos, cap),
        0 <= a.0 < rows,
        0 <= a.1 < shape.slots(),
        0 <= a.2 < shape.hd,
    ensures
        0 <= target(shape, pos as int, cap as int, a) <= usize::MAX,
        a.1 < shape.heads ==> target(shape, pos as int, cap as int, a) < rows * shape.heads
            * shape.hd,
        a.1 >= shape.heads ==> target(shape, pos as int, cap as int, a) < cap * shape.kv_heads
            * shape.hd,
{
    let (h, kv, hd, n) = (
        shape.heads as int,
        shape.kv_heads as int,
        shape.hd as int,
        cap as int,
    );
    if a.1 < h {
        lemma_index(a.0, a.1, a.2, rows as int, h, hd);
    } else if a.1 < h + kv {
        lemma_index(pos + a.0, a.1 - h, a.2, n, kv, hd);
    } else {
        lemma_index(a.1 - h - kv, a.2, pos + a.0, kv, hd, n);
        assert(kv * hd * n == n * kv * hd) by (nonlinear_arith);
    }
}

// ---------------------------------------------------------------------------------------------
// Image rotation
// ---------------------------------------------------------------------------------------------

/// How element `c` of an image patch's head is rotated: with the element `partner`, as the first of
/// the two or the second, by `place` times frequency `pair`.
#[derive(Clone, Copy, Debug, PartialEq, Eq, Structural)]
pub struct Turn {
    pub partner: usize,
    pub first: bool,
    pub place: usize,
    pub pair: usize,
}

/// The rotation of element `c` in a head of `hd`: the first half rotates by the patch's column, the
/// second by its row, and each half pairs its two quarters.
pub open spec fn turn_of(hd: int, cols: int, patch: int, c: int) -> Turn {
    let (half, quarter) = (hd / 2, hd / 4);
    let within = c % half;
    let first = within < quarter;
    Turn {
        partner: (if first {
            c + quarter
        } else {
            c - quarter
        }) as usize,
        first,
        place: (if c < half {
            patch % cols
        } else {
            patch / cols
        }) as usize,
        pair: (within % quarter) as usize,
    }
}

/// The rotation of element `c` of a patch in a grid of `cols` columns.
pub fn image_turn(hd: usize, cols: usize, patch: usize, c: usize) -> (r: Turn)
    requires
        hd % 4 == 0,
        cols > 0,
        c < hd,
    ensures
        r == turn_of(hd as int, cols as int, patch as int, c as int),
{
    let half: usize = hd / 2;
    let quarter: usize = hd / 4;
    proof {
        lemma_within(hd as int, c as int);
    }
    let within: usize = c % half;
    let first: bool = within < quarter;
    Turn {
        partner: if first {
            c + quarter
        } else {
            c - quarter
        },
        first,
        place: if c < half {
            patch % cols
        } else {
            patch / cols
        },
        pair: within % quarter,
    }
}

/// Where an element stands in its half.
proof fn lemma_within(hd: int, c: int)
    requires
        hd % 4 == 0,
        0 <= c < hd,
    ensures
        hd / 4 > 0,
        hd / 2 == 2 * (hd / 4),
        c % (hd / 2) == if c < hd / 2 {
            c
        } else {
            c - hd / 2
        },
{
    let half = hd / 2;
    assert(hd == 4 * (hd / 4));
    assert(half == 2 * (hd / 4));
    lemma_remainder(c, half);
}

/// The remainder of a number below twice the divisor.
proof fn lemma_remainder(n: int, d: int)
    requires
        0 <= n < 2 * d,
    ensures
        n % d == if n < d {
            n
        } else {
            n - d
        },
{
    if n < d {
        vstd::arithmetic::div_mod::lemma_fundamental_div_mod_converse(n, d, 0, n);
    } else {
        vstd::arithmetic::div_mod::lemma_fundamental_div_mod_converse(n, d, 1, n - d);
    }
}

/// Rotation pairs elements: the partner of an element is another of the same head, whose partner it
/// is, and both are rotated by the same angle, one as the first and one as the second.
pub proof fn law_rotation_pairs_elements(hd: usize, cols: int, patch: int, c: int)
    requires
        hd % 4 == 0,
        cols > 0,
        patch >= 0,
        0 <= c < hd,
    ensures
        ({
            let turn = turn_of(hd as int, cols, patch, c);
            let back = turn_of(hd as int, cols, patch, turn.partner as int);
            &&& turn.partner < hd
            &&& turn.partner != c
            &&& back.partner == c
            &&& back.first == !turn.first
            &&& back.place == turn.place
            &&& back.pair == turn.pair
        }),
{
    let quarter = hd as int / 4;
    lemma_within(hd as int, c);
    let within = c % (hd as int / 2);
    let partner = if within < quarter {
        c + quarter
    } else {
        c - quarter
    };
    lemma_within(hd as int, partner);
    lemma_remainder(within, quarter);
    lemma_remainder(partner % (hd as int / 2), quarter);
}

// ---------------------------------------------------------------------------------------------
// Pooling
// ---------------------------------------------------------------------------------------------

/// The patch at row `dy` and column `dx` of the square that image token `token` averages, in a
/// grid of `cols` columns pooled by squares of `k`.
pub open spec fn patch_of(cols: int, k: int, token: int, dy: int, dx: int) -> int {
    let across = cols / k;
    (token / across * k + dy) * cols + token % across * k + dx
}

/// The patches that image token `token` averages, row by row.
pub fn pooled_patches(rows: usize, cols: usize, k: usize, token: usize) -> (r: Vec<usize>)
    requires
        k > 0,
        rows as int % k as int == 0,
        cols as int % k as int == 0,
        rows * cols <= usize::MAX,
        token < (rows as int / k as int) * (cols as int / k as int),
    ensures
        r@.len() == k * k,
        forall|dy: int, dx: int|
            0 <= dy < k && 0 <= dx < k ==> #[trigger] r@[dy * k + dx] == patch_of(
                cols as int,
                k as int,
                token as int,
                dy,
                dx,
            ),
{
    let across: usize = cols / k;
    proof {
        lemma_token_is_in_grid(rows as int, cols as int, k as int, token as int);
    }
    let (y, x): (usize, usize) = (token / across * k, token % across * k);
    let mut list: Vec<usize> = Vec::new();
    let mut dy: usize = 0;
    while dy < k
        invariant
            dy <= k,
            k > 0,
            y + k <= rows,
            x + k <= cols,
            rows * cols <= usize::MAX,
            across == cols as int / k as int,
            y == token as int / across as int * k,
            x == token as int % across as int * k,
            list@.len() == dy * k,
            forall|a: int, b: int|
                0 <= a < dy && 0 <= b < k ==> #[trigger] list@[a * k + b] == patch_of(
                    cols as int,
                    k as int,
                    token as int,
                    a,
                    b,
                ),
        decreases k - dy,
    {
        assert(0 <= (y + dy) * cols && (y + dy) * cols + cols <= rows * cols) by (nonlinear_arith)
            requires
                0 <= y,
                0 <= dy,
                y + dy < rows,
                0 <= cols,
        ;
        let start: usize = (y + dy) * cols + x;
        let ghost before = list@;
        let mut dx: usize = 0;
        while dx < k
            invariant
                dx <= k,
                start + k <= usize::MAX,
                before.len() == dy * k,
                list@.len() == dy * k + dx,
                list@.take(before.len() as int) == before,
                forall|b: int| 0 <= b < dx ==> #[trigger] list@[before.len() + b] == start + b,
            decreases k - dx,
        {
            let ghost had = list@;
            list.push(start + dx);
            assert(list@.take(before.len() as int) =~= had.take(before.len() as int));
            dx += 1;
        }
        proof {
            assert((dy + 1) * k == dy * k + k) by (nonlinear_arith);
            assert forall|a: int, b: int| 0 <= a < dy + 1 && 0 <= b < k implies (
            #[trigger] list@[a * k + b]) == patch_of(cols as int, k as int, token as int, a, b) by {
                if a < dy {
                    assert(0 <= a * k && a * k + k <= dy * k) by (nonlinear_arith)
                        requires
                            0 <= a < dy,
                            0 < k,
                    ;
                    assert(list@[a * k + b] == list@.take(before.len() as int)[a * k + b]);
                } else {
                    assert(list@[before.len() + b] == start + b);
                }
            }
        }
        dy += 1;
    }
    list
}

/// A token's square lies in the grid.
proof fn lemma_token_is_in_grid(rows: int, cols: int, k: int, token: int)
    requires
        k > 0,
        rows >= 0,
        cols >= 0,
        rows % k == 0,
        cols % k == 0,
        0 <= token < (rows / k) * (cols / k),
    ensures
        cols / k > 0,
        0 <= token / (cols / k) < rows / k,
        0 <= token / (cols / k) * k,
        token / (cols / k) * k + k <= rows,
        0 <= token % (cols / k) * k,
        token % (cols / k) * k + k <= cols,
{
    let (down, across) = (rows / k, cols / k);
    assert(down >= 0 && across >= 0) by (nonlinear_arith)
        requires
            k > 0,
            rows >= 0,
            cols >= 0,
            down == rows / k,
            across == cols / k,
    ;
    assert(across > 0) by (nonlinear_arith)
        requires
            0 <= token < down * across,
            across >= 0,
            down >= 0,
    ;
    vstd::arithmetic::div_mod::lemma_fundamental_div_mod(rows, k);
    vstd::arithmetic::div_mod::lemma_fundamental_div_mod(cols, k);
    vstd::arithmetic::div_mod::lemma_fundamental_div_mod(token, across);
    let (q, m) = (token / across, token % across);
    assert(0 <= m < across) by {
        vstd::arithmetic::div_mod::lemma_mod_bound(token, across);
    }
    assert(0 <= q < down) by (nonlinear_arith)
        requires
            token == across * q + m,
            0 <= m < across,
            0 <= token < down * across,
    ;
    assert(0 <= q * k && q * k + k <= k * down) by (nonlinear_arith)
        requires
            0 <= q < down,
            k > 0,
    ;
    assert(0 <= m * k && m * k + k <= k * across) by (nonlinear_arith)
        requires
            0 <= m < across,
            k > 0,
    ;
}

/// Every patch of the grid is averaged into one image token, in one place.
pub proof fn law_patches_are_pooled_once(
    rows: int,
    cols: int,
    k: int,
    a: (int, int, int),
    b: (int, int, int),
)
    requires
        k > 0,
        rows >= 0,
        cols >= 0,
        rows % k == 0,
        cols % k == 0,
        0 <= a.0 < (rows / k) * (cols / k),
        0 <= b.0 < (rows / k) * (cols / k),
        0 <= a.1 < k,
        0 <= b.1 < k,
        0 <= a.2 < k,
        0 <= b.2 < k,
        patch_of(cols, k, a.0, a.1, a.2) == patch_of(cols, k, b.0, b.1, b.2),
    ensures
        a == b,
{
    let across = cols / k;
    lemma_token_is_in_grid(rows, cols, k, a.0);
    lemma_token_is_in_grid(rows, cols, k, b.0);
    lemma_pair_is_injective(
        a.0 / across * k + a.1,
        a.0 % across * k + a.2,
        b.0 / across * k + b.1,
        b.0 % across * k + b.2,
        cols,
    );
    lemma_pair_is_injective(a.0 / across, a.1, b.0 / across, b.1, k);
    lemma_pair_is_injective(a.0 % across, a.2, b.0 % across, b.2, k);
    vstd::arithmetic::div_mod::lemma_fundamental_div_mod(a.0, across);
    vstd::arithmetic::div_mod::lemma_fundamental_div_mod(b.0, across);
}

} // verus!
