//! The layout of the encoder: how frames shrink, which are padding, and how position scores are
//! aligned.
use crate::arith::power_of_two;
use crate::error::{Error, ErrorModel, Result};
use crate::parakeet::decoder::Emission;
use crate::speech::words::SpeechToken;
use crate::text::{decimal, digits};
use crate::parakeet::config::{halved, Config, EncoderConfig};
use vstd::prelude::*;
use vstd::string::*;

verus! {

/// Encoder frames are padded to a multiple of this, capping compiled shapes.
pub const FRAME_BUCKET: usize = 64;

/// Longest audio of one pass in seconds; longer audio is windowed by the caller.
pub const MAX_WINDOW_SECONDS: u64 = 120;

/// `frames` rounded up to whole buckets.
pub open spec fn bucketed(frames: nat) -> nat {
    ((frames + 63) / 64 * 64) as nat
}

/// The encoder frames of `mel` feature frames with padding.
pub fn padded_frames(config: &Config, mel: usize) -> (r: usize)
    requires
        mel <= usize::MAX - 64,
    ensures
        r == bucketed(halved(mel as nat, config.encoder_config.subsampling_factor as nat)),
{
    let frames: usize = config.encoded_frames(mel);
    proof {
        lemma_halved(mel as nat, config.encoder_config.subsampling_factor as nat);
    }
    (frames + 63) / 64 * 64
}

/// Halving does not grow.
pub proof fn lemma_halved(n: nat, factor: nat)
    ensures
        halved(n, factor) <= n,
    decreases factor,
{
    if factor >= 2 && factor % 2 == 0 {
        lemma_halved((n + 1) / 2, factor / 2);
    }
}

/// Which of `frames` frames are before `valid`.
pub fn time_mask(frames: usize, valid: usize) -> (r: Vec<bool>)
    ensures
        r@ == Seq::new(frames as nat, |t: int| t < valid),
{
    let mut mask: Vec<bool> = Vec::new();
    let mut t: usize = 0;
    while t < frames
        invariant
            t <= frames,
            mask@ == Seq::new(t as nat, |t: int| t < valid),
        decreases frames - t,
    {
        mask.push(t < valid);
        t += 1;
        assert(mask@ =~= Seq::new(t as nat, |t: int| t < valid));
    }
    mask
}

/// One convolution of the subsampling: the index of its layer in the checkpoint, its shape, stride
/// and groups, and whether a ReLU follows.
#[derive(Clone, Copy, Debug, PartialEq, Eq, Structural)]
pub struct Conv {
    pub index: usize,
    /// Input channels per group.
    pub inputs: usize,
    pub kernel: usize,
    pub stride: usize,
    pub groups: usize,
    pub relu: bool,
}

/// The convolutions of further halvings `step..`: depthwise, then pointwise, with a ReLU between
/// them in the checkpoint's numbering after each pair.
pub open spec fn further(channels: usize, kernel: usize, step: nat, factor: nat) -> Seq<Conv>
    decreases factor,
{
    if factor >= 4 && factor % 2 == 0 {
        let index = 3 * step - 1;
        seq![
            Conv {
                index: index as usize,
                inputs: 1,
                kernel,
                stride: 2,
                groups: channels,
                relu: channels == 1,
            },
            Conv {
                index: (index + 1) as usize,
                inputs: channels,
                kernel: 1,
                stride: 1,
                groups: 1,
                relu: true,
            },
        ] + further(channels, kernel, step + 1, factor / 2)
    } else {
        Seq::empty()
    }
}

/// All convolutions of the subsampling: one full convolution, then pairs for further halvings.
pub open spec fn convolutions(e: EncoderConfig) -> Seq<Conv> {
    seq![
        Conv {
            index: 0,
            inputs: 1,
            kernel: e.subsampling_conv_kernel_size,
            stride: 2,
            groups: 1,
            relu: true,
        },
    ] + further(
        e.subsampling_conv_channels,
        e.subsampling_conv_kernel_size,
        1,
        e.subsampling_factor as nat,
    )
}

/// Lists the convolutions of the subsampling in order.
pub fn list_convolutions(e: &EncoderConfig) -> (r: Vec<Conv>)
    requires
        power_of_two(e.subsampling_factor as int),
    ensures
        r@ == convolutions(*e),
{
    let (channels, kernel): (usize, usize) = (
        e.subsampling_conv_channels,
        e.subsampling_conv_kernel_size,
    );
    let mut list: Vec<Conv> = Vec::new();
    list.push(Conv { index: 0, inputs: 1, kernel, stride: 2, groups: 1, relu: true });
    let mut step: usize = 1;
    let mut factor: usize = e.subsampling_factor;
    proof {
        lemma_step_bound(factor as nat, 1, factor as nat);
    }
    assert(list@ + further(channels, kernel, 1, factor as nat) =~= convolutions(*e));
    while factor >= 4 && factor % 2 == 0
        invariant
            channels == e.subsampling_conv_channels,
            kernel == e.subsampling_conv_kernel_size,
            step >= 1,
            step * factor <= e.subsampling_factor,
            list@ + further(channels, kernel, step as nat, factor as nat) == convolutions(*e),
        decreases factor,
    {
        proof {
            assert(step * 4 <= step * factor) by (nonlinear_arith)
                requires
                    step >= 1,
                    factor >= 4,
            ;
            assert((step + 1) * (factor / 2) <= step * factor) by (nonlinear_arith)
                requires
                    step >= 1,
                    factor >= 4,
                    factor % 2 == 0,
            ;
        }
        let index: usize = 3 * step - 1;
        let ghost before = list@;
        list.push(
            Conv { index, inputs: 1, kernel, stride: 2, groups: channels, relu: channels == 1 },
        );
        list.push(
            Conv {
                index: index + 1,
                inputs: channels,
                kernel: 1,
                stride: 1,
                groups: 1,
                relu: true,
            },
        );
        proof {
            let rest = further(channels, kernel, (step + 1) as nat, (factor / 2) as nat);
            let pair = further(channels, kernel, step as nat, factor as nat);
            assert(before + pair =~= list@ + rest);
        }
        step += 1;
        factor = factor / 2;
    }
    assert(list@ =~= convolutions(*e));
    list
}

proof fn lemma_step_bound(factor: nat, step: nat, all: nat)
    requires
        step == 1,
        all == factor,
    ensures
        step * factor <= all,
{
    assert(step * factor == factor) by (nonlinear_arith)
        requires
            step == 1,
    ;
}

/// The valid frames after the first `n` convolutions: each of stride 2 halves them, rounding up.
pub open spec fn valid_after(convs: Seq<Conv>, valid: nat, n: nat) -> nat
    decreases n,
{
    if n == 0 {
        valid
    } else {
        let before = valid_after(convs, valid, (n - 1) as nat);
        if convs[n - 1].stride == 2 {
            (before + 1) / 2
        } else {
            before
        }
    }
}

/// The valid frames after all convolutions.
pub fn subsample_valid(convs: &Vec<Conv>, valid: usize) -> (r: usize)
    ensures
        r == valid_after(convs@, valid as nat, convs@.len()),
{
    let mut n: usize = valid;
    let mut i: usize = 0;
    while i < convs.len()
        invariant
            i <= convs@.len(),
            n == valid_after(convs@, valid as nat, i as nat),
        decreases convs@.len() - i,
    {
        if convs[i].stride == 2 {
            n = n / 2 + n % 2;
        }
        i += 1;
    }
    n
}

proof fn lemma_valid_split(a: Seq<Conv>, b: Seq<Conv>, valid: nat, n: nat)
    requires
        n <= b.len(),
    ensures
        valid_after(a + b, valid, a.len() + n) == valid_after(b, valid_after(a, valid, a.len()), n),
    decreases n,
{
    if n == 0 {
        lemma_valid_prefix(a, b, valid, a.len());
    } else {
        lemma_valid_split(a, b, valid, (n - 1) as nat);
        assert((a + b)[a.len() + n - 1] == b[n - 1]);
    }
}

proof fn lemma_valid_prefix(a: Seq<Conv>, b: Seq<Conv>, valid: nat, n: nat)
    requires
        n <= a.len(),
    ensures
        valid_after(a + b, valid, n) == valid_after(a, valid, n),
    decreases n,
{
    if n > 0 {
        lemma_valid_prefix(a, b, valid, (n - 1) as nat);
        assert((a + b)[n - 1] == a[n - 1]);
    }
}

proof fn lemma_further(channels: usize, kernel: usize, step: nat, factor: nat, valid: nat)
    requires
        power_of_two(factor as int),
        factor >= 2,
    ensures
        valid_after(
            further(channels, kernel, step, factor),
            valid,
            further(channels, kernel, step, factor).len(),
        ) == halved(valid, factor / 2),
    decreases factor,
{
    if factor >= 4 {
        let rest = further(channels, kernel, step + 1, factor / 2);
        let all = further(channels, kernel, step, factor);
        let pair = all.take(2);
        assert(all =~= pair + rest);
        lemma_valid_split(pair, rest, valid, rest.len());
        reveal_with_fuel(valid_after, 3);
        assert(valid_after(pair, valid, 2) == (valid + 1) / 2);
        lemma_further(channels, kernel, step + 1, factor / 2, (valid + 1) / 2);
        let half = factor / 2;
        assert(power_of_two(factor as int / 2));
        assert(half as int == factor as int / 2);
        assert(power_of_two(half as int));
        assert(half % 2 == 0);
        assert(halved(valid, half) == halved((valid + 1) / 2, half / 2));
        assert(all.len() == 2 + rest.len());
    } else {
        assert(factor == 2);
        assert(further(channels, kernel, step, factor).len() == 0);
        assert(halved(valid, 1) == valid);
    }
}

/// The convolutions leave as many valid frames as the checkpoint's subsampling factor says.
pub proof fn law_convolutions_leave_the_encoded_frames(e: EncoderConfig, valid: nat)
    requires
        power_of_two(e.subsampling_factor as int),
        e.subsampling_factor >= 2,
    ensures
        valid_after(convolutions(e), valid, convolutions(e).len()) == halved(
            valid,
            e.subsampling_factor as nat,
        ),
{
    let (channels, kernel) = (e.subsampling_conv_channels, e.subsampling_conv_kernel_size);
    let factor = e.subsampling_factor as nat;
    let rest = further(channels, kernel, 1, factor);
    let first = convolutions(e).take(1);
    assert(convolutions(e) =~= first + rest);
    lemma_valid_split(first, rest, valid, rest.len());
    reveal_with_fuel(valid_after, 2);
    assert(valid_after(first, valid, 1) == (valid + 1) / 2);
    lemma_further(channels, kernel, 1, factor, (valid + 1) / 2);
}

// ---------------------------------------------------------------------------------------------
// Relative positions
// ---------------------------------------------------------------------------------------------

/// The relative position of row `p` of `2 * frames - 1`: from `frames - 1` down to
/// `-(frames - 1)`.
pub fn relative_position(frames: usize, p: usize) -> (r: i64)
    requires
        0 < frames <= i64::MAX,
        p <= 2 * (frames - 1),
    ensures
        r == frames - 1 - p,
{
    if p <= frames - 1 {
        (frames - 1 - p) as i64
    } else {
        -((p - (frames - 1)) as i64)
    }
}

/// Where value `f` of a shifted head comes from: none for a padded zero, else its place in the
/// head. The head's rows get a zero in front, and are read on from the second stretch of `rows`
/// values.
pub open spec fn shift_source(rows: int, f: int) -> Option<int> {
    let width = 2 * rows;
    let at = f + rows;
    let (row, col) = (at / width, at % width);
    if col == 0 {
        None
    } else {
        Some(row * (width - 1) + col - 1)
    }
}

/// The size of a head's position scores.
pub open spec fn head_size(rows: int) -> int {
    rows * (2 * rows - 1)
}

proof fn lemma_shift_source(rows: int, f: int)
    requires
        rows > 0,
        0 <= f < head_size(rows),
    ensures
        shift_source(rows, f) matches Some(s) ==> 0 <= s < head_size(rows),
        0 <= (f + rows) / (2 * rows) < rows,
{
    let width = 2 * rows;
    let at = f + rows;
    let (row, col) = (at / width, at % width);
    assert(rows * (2 * rows - 1) + rows == rows * width) by (nonlinear_arith)
        requires
            width == 2 * rows,
    ;
    assert(0 <= row < rows && 0 <= col < width && at == row * width + col) by (nonlinear_arith)
        requires
            row == at / width,
            col == at % width,
            0 <= at < rows * width,
            width > 0,
    ;
    assert(row * (width - 1) + (width - 1) <= rows * (width - 1) && 0 <= row * (width - 1))
        by (nonlinear_arith)
        requires
            0 <= row < rows,
            width >= 1,
    ;
}

/// Shifts the position scores of a head, so that each query is aligned with its relative
/// distance: column `j` of query `i` is the score of distance `i - j`.
pub proof fn law_shift_aligns_queries(rows: int, i: int, j: int)
    requires
        0 <= i < rows,
        0 <= j < rows,
    ensures
        shift_source(rows, i * (2 * rows - 1) + j) == Some(
            i * (2 * rows - 1) + (rows - 1 - i + j),
        ),
{
    let width = 2 * rows;
    let f = i * (2 * rows - 1) + j;
    let at = f + rows;
    let col = rows - i + j;
    assert(at == i * width + col) by (nonlinear_arith)
        requires
            at == i * (2 * rows - 1) + j + rows,
            width == 2 * rows,
            col == rows - i + j,
    ;
    assert(at / width == i && at % width == col) by (nonlinear_arith)
        requires
            at == i * width + col,
            0 < col < width,
    ;
}

/// Transformer-XL relative shift of position scores of `heads` heads, `rows` by `2 * rows - 1`
/// bit patterns each.
pub fn rel_shift(x: &Vec<u32>, heads: usize, rows: usize) -> (r: Vec<u32>)
    requires
        0 < rows,
        x@.len() == heads * head_size(rows as int),
    ensures
        r@.len() == x@.len(),
        forall|p: int|
            0 <= p < r@.len() ==> #[trigger] r@[p] == shifted(x@, rows as int, p),
{
    let size: usize = x.len();
    let mut out: Vec<u32> = Vec::new();
    let mut p: usize = 0;
    if heads == 0 {
        assert(heads * head_size(rows as int) == 0) by (nonlinear_arith)
            requires
                heads == 0,
        ;
        return out;
    }
    proof {
        lemma_head_fits(heads as int, rows as int);
    }
    let wide: usize = rows - 1 + rows;
    let head: usize = rows * wide;
    while p < size
        invariant
            p <= size,
            size == x@.len(),
            0 < rows,
            2 * rows <= size + rows + 1,
            head == head_size(rows as int),
            head > 0,
            size == heads * head,
            rows <= head,
            2 * rows - 1 <= head,
            out@.len() == p,
            forall|k: int|
                0 <= k < p ==> #[trigger] out@[k] == shifted(x@, rows as int, k),
        decreases size - p,
    {
        let h: usize = p / head;
        let f: usize = p % head;
        proof {
            lemma_shift_source(rows as int, f as int);
            assert(0 <= h * head && h * head + head <= size && p == h * head + f)
                by (nonlinear_arith)
                requires
                    h == p / head,
                    f == p % head,
                    p < heads * head,
                    size == heads * head,
                    head > 0,
            ;
        }
        let value: u32 = shifted_value(x, rows, head, h, f);
        out.push(value);
        p += 1;
    }
    out
}

/// Value `p` of shifted scores; a padded zero where it has no source.
pub open spec fn shifted(x: Seq<u32>, rows: int, p: int) -> u32 {
    let head = head_size(rows);
    match shift_source(rows, p % head) {
        None => 0,
        Some(s) => x[p / head * head + s],
    }
}

fn shifted_value(x: &Vec<u32>, rows: usize, head: usize, h: usize, f: usize) -> (r: u32)
    requires
        0 < rows,
        head == head_size(rows as int),
        f < head,
        h * head + head <= x@.len(),
        rows <= head,
        2 * rows - 1 <= head,
    ensures
        r == match shift_source(rows as int, f as int) {
            None => 0u32,
            Some(s) => x@[h * head + s],
        },
{
    let size: usize = x.len();
    proof {
        lemma_shift_source(rows as int, f as int);
        assert(0 <= h * head) by (nonlinear_arith);
    }
    let at: u128 = f as u128 + rows as u128;
    let width: u128 = 2 * rows as u128;
    let row: u128 = at / width;
    let col: u128 = at % width;
    if col == 0 {
        return 0;
    }
    proof {
        assert(0 <= row * (width - 1) && row * (width - 1) <= head) by (nonlinear_arith)
            requires
                0 <= row < rows,
                width == 2 * rows,
                head == rows * (2 * rows - 1),
        ;
    }
    let wide: usize = rows - 1 + rows;
    let s: usize = (row as usize) * wide + (col as usize - 1);
    x[h * head + s]
}

proof fn lemma_head_fits(heads: int, rows: int)
    requires
        heads > 0,
        rows > 0,
    ensures
        head_size(rows) > 0,
        rows <= head_size(rows),
        2 * rows - 1 <= head_size(rows),
        head_size(rows) <= heads * head_size(rows),
{
    assert(rows * (2 * rows - 1) >= rows && rows * (2 * rows - 1) >= 2 * rows - 1)
        by (nonlinear_arith)
        requires
            rows >= 1,
    ;
    let n = head_size(rows);
    assert(n <= heads * n) by (nonlinear_arith)
        requires
            heads >= 1,
            n > 0,
    ;
}

// ---------------------------------------------------------------------------------------------
// Windows
// ---------------------------------------------------------------------------------------------

/// Whether audio of so many samples fits one pass.
pub fn check_window(samples: usize, rate: u32) -> (r: Result<()>)
    ensures
        r is Ok <==> samples <= MAX_WINDOW_SECONDS * rate,
        r matches Err(e) ==> e@ == ErrorModel::InvalidInput(
            "A transcription window is at most "@ + digits(MAX_WINDOW_SECONDS as nat)
                + " seconds"@,
        ),
{
    if samples as u128 > MAX_WINDOW_SECONDS as u128 * rate as u128 {
        return Err(
            Error::InvalidInput(
                "A transcription window is at most ".to_owned().concat(
                    decimal(MAX_WINDOW_SECONDS).as_str(),
                ).concat(" seconds"),
            ),
        );
    }
    Ok(())
}

/// `frames` frames in samples.
pub open spec fn frame_time(frames: nat, frame_samples: u64) -> u64 {
    let t = frames * frame_samples as nat;
    if t <= u64::MAX {
        t as u64
    } else {
        u64::MAX
    }
}

fn time_of(frames: u128, frame_samples: u64) -> (r: u64)
    requires
        frames <= 2 * u64::MAX,
    ensures
        r == frame_time(frames as nat, frame_samples),
{
    proof {
        let (a, b) = (frames as int, frame_samples as int);
        assert(0 <= a * b <= 2 * 0xffff_ffff_ffff_ffff * 0xffff_ffff_ffff_ffff)
            by (nonlinear_arith)
            requires
                0 <= a <= 2 * 0xffff_ffff_ffff_ffff,
                0 <= b <= 0xffff_ffff_ffff_ffff,
        ;
    }
    match frames.checked_mul(frame_samples as u128) {
        Some(t) => if t <= u64::MAX as u128 {
            t as u64
        } else {
            u64::MAX
        },
        None => u64::MAX,
    }
}

/// The token of an emission: it spans its frames.
pub fn speech_token(e: &Emission, piece: String, frame_samples: u64) -> (r: SpeechToken)
    requires
        e.token <= u32::MAX,
    ensures
        r.id == e.token,
        r.piece == piece,
        r.start == frame_time(e.frame as nat, frame_samples),
        r.end == frame_time((e.frame + e.frames) as nat, frame_samples),
        r.logprob == e.logprob,
{
    SpeechToken {
        id: e.token as u32,
        piece,
        start: time_of(e.frame as u128, frame_samples),
        end: time_of(e.frame as u128 + e.frames as u128, frame_samples),
        logprob: e.logprob,
    }
}

} // verus!
