//! The prompt rows of an image, and the layout of its patches.
use crate::error::{Error, ErrorModel, Result};
use crate::text::{decimal, digits};
use vstd::prelude::*;
use vstd::string::*;

verus! {

pub const IMAGE_START: i32 = 18;

pub const IMAGE_PAD: i32 = 19;

pub const IMAGE_BREAK: i32 = 20;

pub const IMAGE_END: i32 = 21;

/// Most images of a request.
pub const MAX_IMAGES: usize = 8;

/// Side of a patch in pixels.
pub const PATCH: usize = 14;

/// Whether the images of a request can be encoded: a text-only model has no tower for them.
pub fn check_images(count: usize, tower: bool) -> (r: Result<()>)
    ensures
        r is Ok <==> count <= MAX_IMAGES && (count == 0 || tower),
        r matches Err(e) ==> e@ == ErrorModel::InvalidInput(
            if count > MAX_IMAGES {
                "At most 8 images are allowed"@
            } else {
                "This model is text-only and does not accept images"@
            },
        ),
{
    if count > MAX_IMAGES {
        return Err(Error::input("At most 8 images are allowed"));
    }
    if count > 0 && !tower {
        return Err(Error::input("This model is text-only and does not accept images"));
    }
    Ok(())
}

/// The negative cache key of an image with this content hash, disjoint from token ids.
pub fn image_key(hash: u64) -> (r: i64)
    ensures
        r == -1 - (hash >> 1u64),
        r < 0,
{
    let half: u64 = hash >> 1u64;
    proof {
        assert(half <= 0x7fff_ffff_ffff_ffff) by (bit_vector)
            requires
                half == hash >> 1u64,
        ;
    }
    -(half as i64) - 1
}

/// A run of prompt rows of an image.
#[derive(Clone, Copy, Debug, PartialEq, Eq, Structural)]
pub enum ImageRows {
    /// The embedding of a marker token.
    Mark(i32),
    /// Feature rows `from..to`.
    Features { from: usize, to: usize },
}

impl ImageRows {
    /// Its prompt rows.
    pub open spec fn size(self) -> int {
        match self {
            ImageRows::Mark(_) => 1,
            ImageRows::Features { from, to } => to - from,
        }
    }
}

/// The rows of `n` of `h` lines of `w` features: a start marker, then each line with a break
/// after it, the last with an end.
pub open spec fn layout(w: nat, h: nat, n: nat) -> Seq<ImageRows>
    decreases n,
{
    if n == 0 {
        seq![ImageRows::Mark(IMAGE_START)]
    } else {
        layout(w, h, (n - 1) as nat) + seq![
            ImageRows::Features { from: ((n - 1) * w) as usize, to: (n * w) as usize },
            ImageRows::Mark(
                if n == h {
                    IMAGE_END
                } else {
                    IMAGE_BREAK
                },
            ),
        ]
    }
}

/// The rows that a layout takes.
pub open spec fn layout_size(rows: Seq<ImageRows>) -> int
    decreases rows.len(),
{
    if rows.len() == 0 {
        0
    } else {
        layout_size(rows.drop_last()) + rows.last().size()
    }
}

/// The prompt rows of a grid of `w` by `h` features.
pub open spec fn image_size(w: int, h: int) -> int {
    1 + h * (w + 1)
}

/// An image takes as many prompt rows as its part of the prompt says.
pub proof fn law_layouts_have_the_announced_size(w: nat, h: nat, n: nat)
    requires
        n * w <= usize::MAX,
    ensures
        layout_size(layout(w, h, n)) == image_size(w as int, n as int),
    decreases n,
{
    if n > 0 {
        assert(n * w == (n - 1) * w + w) by (nonlinear_arith);
        assert(n * (w + 1) == (n - 1) * (w + 1) + (w + 1)) by (nonlinear_arith);
        assert((n - 1) * w >= 0) by (nonlinear_arith)
            requires
                n > 0,
                w >= 0,
        ;
        law_layouts_have_the_announced_size(w, h, (n - 1) as nat);
        let before = layout(w, h, (n - 1) as nat);
        let all = layout(w, h, n);
        let features = ImageRows::Features { from: ((n - 1) * w) as usize, to: (n * w) as usize };
        assert(all.drop_last() =~= before.push(features));
        assert(before.push(features).drop_last() =~= before);
        assert(all.last() is Mark);
        assert(layout_size(before.push(features)) == layout_size(before) + features.size());
        assert(layout_size(all) == layout_size(before.push(features)) + 1);
        assert(layout_size(before) == 1 + (n - 1) * (w + 1));
    } else {
        let one = seq![ImageRows::Mark(IMAGE_START)];
        assert(one.drop_last() =~= Seq::<ImageRows>::empty());
        assert(layout_size(one.drop_last()) == 0);
        assert(0 * (w + 1) == 0);
    }
}

/// The feature rows of a layout, in order.
pub open spec fn features_of(rows: Seq<ImageRows>) -> Seq<(usize, usize)>
    decreases rows.len(),
{
    if rows.len() == 0 {
        Seq::empty()
    } else {
        match rows.last() {
            ImageRows::Mark(_) => features_of(rows.drop_last()),
            ImageRows::Features { from, to } => features_of(rows.drop_last()).push((from, to)),
        }
    }
}

/// The lines of an image follow each other without a gap: every feature row is used once.
pub proof fn law_every_feature_row_is_used_once(w: nat, h: nat, n: nat)
    requires
        n * w <= usize::MAX,
    ensures
        features_of(layout(w, h, n)).len() == n,
        forall|r: int|
            0 <= r < n ==> #[trigger] features_of(layout(w, h, n))[r] == (
                (r * w) as usize,
                ((r + 1) * w) as usize,
            ),
    decreases n,
{
    if n > 0 {
        assert(n * w == (n - 1) * w + w) by (nonlinear_arith);
        law_every_feature_row_is_used_once(w, h, (n - 1) as nat);
        let before = layout(w, h, (n - 1) as nat);
        let all = layout(w, h, n);
        let features = ImageRows::Features { from: ((n - 1) * w) as usize, to: (n * w) as usize };
        assert(all.drop_last() =~= before.push(features));
        assert(before.push(features).drop_last() =~= before);
        assert(all.last() is Mark);
        assert(features_of(all) == features_of(before.push(features)));
        assert(features_of(all) == features_of(before).push(
            (((n - 1) * w) as usize, (n * w) as usize),
        ));
    } else {
        let one = seq![ImageRows::Mark(IMAGE_START)];
        assert(one.drop_last() =~= Seq::<ImageRows>::empty());
        assert(features_of(one.drop_last()).len() == 0);
    }
}

/// The rows of an image of a grid of `w` by `h` features, and how many they are; an error where
/// the context has no room for them.
pub fn image_rows(w: usize, h: usize, n_ctx: usize) -> (r: Result<(Vec<ImageRows>, usize)>)
    requires
        image_size(w as int, h as int) <= usize::MAX,
    ensures
        r is Ok <==> image_size(w as int, h as int) <= n_ctx,
        r matches Ok((rows, tokens)) ==> rows@ == layout(w as nat, h as nat, h as nat) && tokens
            == image_size(w as int, h as int),
        r matches Err(e) ==> e@ == ErrorModel::InvalidInput(
            "Image needs "@ + digits(image_size(w as int, h as int) as nat)
                + " tokens; the context allows "@ + digits(n_ctx as nat),
        ),
{
    proof {
        assert(h * (w + 1) == h * w + h) by (nonlinear_arith);
        assert(h * w >= 0) by (nonlinear_arith);
        assert(h == 0 ==> h * (w + 1) == 0) by (nonlinear_arith);
    }
    let tokens: usize = if h == 0 {
        1
    } else {
        proof {
            assert(w + 1 <= h * (w + 1)) by (nonlinear_arith)
                requires
                    h >= 1,
                    w >= 0,
            ;
        }
        1 + h * (w + 1)
    };
    if tokens > n_ctx {
        return Err(
            Error::InvalidInput(
                "Image needs ".to_owned().concat(decimal(tokens as u64).as_str()).concat(
                    " tokens; the context allows ",
                ).concat(decimal(n_ctx as u64).as_str()),
            ),
        );
    }
    let mut rows: Vec<ImageRows> = Vec::new();
    rows.push(ImageRows::Mark(IMAGE_START));
    let mut r: usize = 0;
    let mut at: usize = 0;
    assert(rows@ =~= layout(w as nat, h as nat, 0));
    assert(0 * w == 0);
    while r < h
        invariant
            r <= h,
            at == r * w,
            h * w <= usize::MAX,
            rows@ == layout(w as nat, h as nat, r as nat),
        decreases h - r,
    {
        proof {
            assert((r + 1) * w == r * w + w) by (nonlinear_arith);
            assert((r + 1) * w <= h * w) by (nonlinear_arith)
                requires
                    r + 1 <= h,
                    w >= 0,
            ;
        }
        let next: usize = at + w;
        let ghost before = rows@;
        rows.push(ImageRows::Features { from: at, to: next });
        rows.push(
            ImageRows::Mark(
                if r + 1 == h {
                    IMAGE_END
                } else {
                    IMAGE_BREAK
                },
            ),
        );
        assert(rows@ =~= layout(w as nat, h as nat, (r + 1) as nat));
        at = next;
        r += 1;
    }
    Ok((rows, tokens))
}

/// Where the pixel of channel `c` at (`y`, `x`) lies among planes of this size.
pub open spec fn in_planes(width: int, height: int, c: int, y: int, x: int) -> int {
    c * (height * width) + y * width + x
}

/// Cuts planes of three channels into patches in raster order, each flattened as channel, row,
/// column. Values are bit patterns.
pub fn patches(planes: &Vec<u32>, rows: usize, cols: usize) -> (r: Vec<u32>)
    requires
        planes@.len() == 3 * ((rows * PATCH) * (cols * PATCH)),
    ensures
        r@.len() == planes@.len(),
        forall|p: int|
            0 <= p < r@.len() ==> #[trigger] r@[p] == planes@[patch_source(
                rows as int,
                cols as int,
                p,
            )],
{
    let size: usize = planes.len();
    let mut data: Vec<u32> = Vec::new();
    let mut p: usize = 0;
    if size == 0 {
        return data;
    }
    proof {
        lemma_planes(rows as int, cols as int);
    }
    while p < size
        invariant
            p <= size,
            size > 0,
            size == planes@.len(),
            size == 3 * ((rows * PATCH) * (cols * PATCH)),
            rows > 0,
            cols > 0,
            size == rows * cols * 588,
            data@.len() == p,
            forall|k: int|
                0 <= k < p ==> #[trigger] data@[k] == planes@[patch_source(
                    rows as int,
                    cols as int,
                    k,
                )],
        decreases size - p,
    {
        proof {
            lemma_source(rows as int, cols as int, p as int);
            lemma_source_steps(rows as int, cols as int, p as int);
        }
        let patch: usize = p / 588;
        let within: usize = p % 588;
        let (r, q): (usize, usize) = (patch / cols, patch % cols);
        let (c, ky, kx): (usize, usize, usize) = (within / 196, within / 14 % 14, within % 14);
        let width: usize = cols * PATCH;
        let plane: usize = size / 3;
        let at: usize = c * plane + (r * PATCH + ky) * width + (q * PATCH + kx);
        data.push(planes[at]);
        p += 1;
    }
    data
}

/// The pixel that value `p` of the patches is: patch `p / 588` lies at a row and a column of the
/// grid, and `p % 588` is a channel, a row and a column of it.
pub open spec fn patch_source(rows: int, cols: int, p: int) -> int {
    let patch = p / 588;
    let within = p % 588;
    let (r, q) = (patch / cols, patch % cols);
    let (c, ky, kx) = (within / 196, within / 14 % 14, within % 14);
    in_planes(cols * 14, rows * 14, c, r * 14 + ky, q * 14 + kx)
}

proof fn lemma_planes(rows: int, cols: int)
    requires
        0 <= rows,
        0 <= cols,
        3 * ((rows * 14) * (cols * 14)) > 0,
    ensures
        rows > 0,
        cols > 0,
        3 * ((rows * 14) * (cols * 14)) == rows * cols * 588,
{
    assert(rows > 0 && cols > 0) by (nonlinear_arith)
        requires
            0 <= rows,
            0 <= cols,
            3 * ((rows * 14) * (cols * 14)) > 0,
    ;
    assert(3 * ((rows * 14) * (cols * 14)) == rows * cols * 588) by (nonlinear_arith);
}

proof fn lemma_source(rows: int, cols: int, p: int)
    requires
        rows > 0,
        cols > 0,
        0 <= p < rows * cols * 588,
    ensures
        0 <= p / 588 < rows * cols,
        0 <= p / 588 / cols < rows,
        0 <= p / 588 % cols < cols,
        0 <= patch_source(rows, cols, p) < rows * cols * 588,
{
    let patch = p / 588;
    let within = p % 588;
    let n = rows * cols;
    assert(0 <= patch < n) by (nonlinear_arith)
        requires
            patch == p / 588,
            0 <= p < n * 588,
    ;
    let (r, q) = (patch / cols, patch % cols);
    assert(0 <= r < rows && 0 <= q < cols) by (nonlinear_arith)
        requires
            r == patch / cols,
            q == patch % cols,
            0 <= patch < rows * cols,
            cols > 0,
    ;
    let (c, ky, kx) = (within / 196, within / 14 % 14, within % 14);
    let (y, x) = (r * 14 + ky, q * 14 + kx);
    let (width, height) = (cols * 14, rows * 14);
    assert(0 <= c <= 2 && 0 <= y < height && 0 <= x < width);
    lemma_in_planes(width, height, c, y, x);
    assert(3 * (height * width) == rows * cols * 588) by (nonlinear_arith)
        requires
            width == cols * 14,
            height == rows * 14,
    ;
}

proof fn lemma_in_planes(width: int, height: int, c: int, y: int, x: int)
    requires
        0 <= c <= 2,
        0 <= y < height,
        0 <= x < width,
    ensures
        0 <= y * width + x < height * width,
        0 <= in_planes(width, height, c, y, x) < 3 * (height * width),
{
    let plane = height * width;
    assert(0 <= y * width && y * width + width <= plane) by (nonlinear_arith)
        requires
            plane == height * width,
            0 <= y < height,
            0 < width,
    ;
    assert(0 <= c * plane && c * plane + plane <= 3 * plane) by (nonlinear_arith)
        requires
            0 <= c <= 2,
            0 <= plane,
    ;
}

proof fn lemma_source_steps(rows: int, cols: int, p: int)
    requires
        rows > 0,
        cols > 0,
        0 <= p < rows * cols * 588,
    ensures
        ({
            let (r, q) = (p / 588 / cols, p / 588 % cols);
            let within = p % 588;
            let (c, ky, kx) = (within / 196, within / 14 % 14, within % 14);
            let plane = rows * cols * 588 / 3;
            let y = r * 14 + ky;
            let x = q * 14 + kx;
            &&& cols * 14 <= rows * cols * 588
            &&& plane == (rows * 14) * (cols * 14)
            &&& 0 <= y < rows * 14
            &&& 0 <= x < cols * 14
            &&& 0 <= c * plane <= rows * cols * 588
            &&& 0 <= y * (cols * 14) < plane
            &&& 0 <= c * plane + y * (cols * 14) < rows * cols * 588
            &&& patch_source(rows, cols, p) == c * plane + y * (cols * 14) + x
        }),
{
    lemma_source(rows, cols, p);
    let (r, q) = (p / 588 / cols, p / 588 % cols);
    let within = p % 588;
    let (c, ky, kx) = (within / 196, within / 14 % 14, within % 14);
    let (y, x) = (r * 14 + ky, q * 14 + kx);
    let (width, height) = (cols * 14, rows * 14);
    let plane = height * width;
    assert(3 * plane == rows * cols * 588) by (nonlinear_arith)
        requires
            plane == (rows * 14) * (cols * 14),
    ;
    assert(width <= plane) by (nonlinear_arith)
        requires
            plane == height * width,
            height >= 1,
            width >= 0,
    ;
    assert(0 <= y < height && 0 <= x < width);
    lemma_in_planes(width, height, c, y, x);
    assert(0 <= c * plane <= 2 * plane && c * plane + plane <= 3 * plane) by (nonlinear_arith)
        requires
            0 <= c <= 2,
            plane >= 0,
    ;
    assert(0 <= y * width) by (nonlinear_arith)
        requires
            0 <= y,
            0 <= width,
    ;
}

} // verus!
