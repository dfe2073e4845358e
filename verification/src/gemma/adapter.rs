//! DiffusionGemma as a diffusion model: chat format, images and prompts.
use crate::engine::config::{parts_model, prompt_length, total_size, Part, PromptPart};
use crate::engine::model::ChatFormat;
use crate::error::{Error, ErrorModel, Result};
use crate::gemma::prompt::{segment_models, Segment, SegmentModel};
use crate::kernels::buf::Buf;
use crate::text::{decimal, digits};
use vstd::prelude::*;
use vstd::string::*;

verus! {

/// Most images of a request.
pub const MAX_IMAGES: usize = 8;

/// Largest canvas per forward.
pub const MAX_CANVAS: usize = 64;

fn list(a: &str, b: &str) -> (r: Vec<String>)
    ensures
        r@.len() == 2,
        r@[0]@ == a@,
        r@[1]@ == b@,
{
    let mut markers: Vec<String> = Vec::new();
    markers.push(a.to_owned());
    markers.push(b.to_owned());
    markers
}

fn single(a: &str) -> (r: Vec<String>)
    ensures
        r@.len() == 1,
        r@[0]@ == a@,
{
    let mut markers: Vec<String> = Vec::new();
    markers.push(a.to_owned());
    markers
}

/// How DiffusionGemma frames a conversation.
pub fn chat_format() -> (r: ChatFormat)
    ensures
        r.bos,
        r.system_open@ == "<|turn>system\n"@,
        r.assistant_open@ == "<|turn>model\n"@,
        r.turn_close@ == "<turn|>\n"@,
        r.history_prefix@ == ""@,
        r.user_open@ == "<|turn>user\n"@,
        r.model_open@ == "<turn|>\n<|turn>model\n"@,
        r.thought_open@ == "<|channel>thought\n"@,
        r.thought_close@ == "<channel|>"@,
        r.empty_thought@ == "<|channel>thought\n<channel|>"@,
        r.thought_stops@.len() == 2,
        r.thought_stops@[0]@ == "<channel|>"@,
        r.thought_stops@[1]@ == "<turn|>"@,
        r.answer_stops@.len() == 1,
        r.answer_stops@[0]@ == "<turn|>"@,
        !r.space_joins_answers,
{
    ChatFormat {
        bos: true,
        system_open: "<|turn>system\n".to_owned(),
        user_open: "<|turn>user\n".to_owned(),
        assistant_open: "<|turn>model\n".to_owned(),
        turn_close: "<turn|>\n".to_owned(),
        history_prefix: "".to_owned(),
        model_open: "<turn|>\n<|turn>model\n".to_owned(),
        thought_open: "<|channel>thought\n".to_owned(),
        thought_close: "<channel|>".to_owned(),
        empty_thought: "<|channel>thought\n<channel|>".to_owned(),
        thought_stops: list("<channel|>", "<turn|>"),
        answer_stops: single("<turn|>"),
        space_joins_answers: false,
    }
}

/// An ASCII letter or digit.
pub open spec fn alphanumeric(b: u8) -> bool {
    0x30 <= b <= 0x39 || 0x41 <= b <= 0x5a || 0x61 <= b <= 0x7a
}

/// A piece that can be an answer code: 1 to 16 ASCII letters and digits of a token that is no
/// control token.
pub open spec fn is_code(token: i32, n_vocab: usize, control: bool, bytes: Seq<u8>) -> bool {
    &&& 0 <= token < n_vocab
    &&& !control
    &&& 1 <= bytes.len() <= 16
    &&& forall|i: int| 0 <= i < bytes.len() ==> alphanumeric(#[trigger] bytes[i])
}

/// The text of a token if it can be an answer code; `bytes` is its piece.
pub fn code_piece(token: i32, n_vocab: usize, control: bool, bytes: &Vec<u8>) -> (r: Option<String>)
    ensures
        r is Some <==> is_code(token, n_vocab, control, bytes@),
        r matches Some(s) ==> s@ == Seq::new(bytes@.len(), |i: int| bytes@[i] as char),
{
    if token < 0 || token as u64 >= n_vocab as u64 || control || bytes.len() < 1 || bytes.len()
        > 16 {
        return None;
    }
    let ghost want = Seq::new(bytes@.len(), |i: int| bytes@[i] as char);
    let mut text: String = String::new();
    let mut i: usize = 0;
    while i < bytes.len()
        invariant
            i <= bytes@.len(),
            want == Seq::new(bytes@.len(), |i: int| bytes@[i] as char),
            text@ == want.take(i as int),
            forall|k: int| 0 <= k < i ==> alphanumeric(#[trigger] bytes@[k]),
        decreases bytes@.len() - i,
    {
        let b: u8 = bytes[i];
        if !(0x30 <= b && b <= 0x39 || 0x41 <= b && b <= 0x5a || 0x61 <= b && b <= 0x7a) {
            assert(!alphanumeric(bytes@[i as int]));
            return None;
        }
        text.push(b as char);
        assert(want.take(i + 1) =~= want.take(i as int).push(want[i as int]));
        i += 1;
    }
    assert(want.take(i as int) =~= want);
    Some(text)
}

// ---------------------------------------------------------------------------------------------
// Images
// ---------------------------------------------------------------------------------------------

/// Whether the images of a request can be encoded: none need a projector.
pub fn check_images(count: usize, projector: bool) -> (r: Result<()>)
    ensures
        r is Ok <==> count == 0 || (projector && count <= MAX_IMAGES),
        r matches Err(e) ==> e@ == ErrorModel::InvalidInput(
            if !projector {
                "Image input requires --mmproj with a compatible DiffusionGemma vision projector"@
            } else {
                "At most 8 images are allowed"@
            },
        ),
{
    if count == 0 {
        return Ok(());
    }
    if !projector {
        return Err(
            Error::input(
                "Image input requires --mmproj with a compatible DiffusionGemma vision projector",
            ),
        );
    }
    if count > MAX_IMAGES {
        return Err(Error::input("At most 8 images are allowed"));
    }
    Ok(())
}

/// Whether an image of `tokens` rows fits one forward.
pub fn check_image_size(tokens: usize, batch_size: usize) -> (r: Result<()>)
    ensures
        r is Ok <==> tokens <= batch_size,
        r matches Err(e) ==> e@ == ErrorModel::InvalidInput(
            "Image needs "@ + digits(tokens as nat)
                + " tokens in one batch; increase --batch-size"@,
        ),
{
    if tokens > batch_size {
        return Err(
            Error::InvalidInput(
                "Image needs ".to_owned().concat(decimal(tokens as u64).as_str()).concat(
                    " tokens in one batch; increase --batch-size",
                ),
            ),
        );
    }
    Ok(())
}

/// The prompt parts of the first `n` images: each between its delimiters.
pub open spec fn image_parts_of(sizes: Seq<usize>, begin: i32, end: i32, n: nat) -> Seq<Part>
    decreases n,
{
    if n == 0 {
        Seq::empty()
    } else {
        let i = (n - 1) as nat;
        image_parts_of(sizes, begin, end, i) + seq![
            Part::Text(seq![begin]),
            Part::Image { tokens: sizes[i as int] as nat, index: i },
            Part::Text(seq![end]),
        ]
    }
}

fn marker_part(token: i32) -> (r: PromptPart)
    ensures
        r@ == Part::Text(seq![token]),
{
    let mut tokens: Vec<i32> = Vec::new();
    tokens.push(token);
    assert(tokens@ =~= seq![token]);
    PromptPart::Text(tokens)
}

/// The prompt parts of encoded images of these sizes.
pub fn image_parts(sizes: &Vec<usize>, begin: i32, end: i32) -> (r: Vec<PromptPart>)
    ensures
        parts_model(r@) == image_parts_of(sizes@, begin, end, sizes@.len()),
{
    let mut parts: Vec<PromptPart> = Vec::new();
    let mut i: usize = 0;
    assert(parts_model(parts@) =~= Seq::empty());
    while i < sizes.len()
        invariant
            i <= sizes@.len(),
            parts_model(parts@) == image_parts_of(sizes@, begin, end, i as nat),
        decreases sizes@.len() - i,
    {
        let ghost before = parts_model(parts@);
        parts.push(marker_part(begin));
        parts.push(PromptPart::Image { tokens: sizes[i], index: i });
        parts.push(marker_part(end));
        assert(parts_model(parts@) =~= before + seq![
            Part::Text(seq![begin]),
            Part::Image { tokens: sizes@[i as int] as nat, index: i as nat },
            Part::Text(seq![end]),
        ]);
        i += 1;
    }
    parts
}

// ---------------------------------------------------------------------------------------------
// Prompts
// ---------------------------------------------------------------------------------------------

/// An encoded image: its rows, how many tokens they stand for, and a key of its content.
#[derive(Clone, Copy, Debug)]
pub struct Encoded<H: Copy> {
    pub rows: Buf<H>,
    pub tokens: usize,
    pub key: u64,
}

/// The segment of a part; none where it names an image that was not encoded.
pub open spec fn segment_of<H: Copy>(part: Part, encoded: Seq<Encoded<H>>) -> Option<SegmentModel> {
    match part {
        Part::Text(tokens) => Some(SegmentModel::Tokens(tokens)),
        Part::Image { tokens, index } => if index < encoded.len() && encoded[index as int].tokens
            == tokens {
            Some(
                SegmentModel::Image {
                    rows: encoded[index as int].rows.count(),
                    count: encoded[index as int].tokens,
                    key: encoded[index as int].key,
                },
            )
        } else {
            None
        },
    }
}

/// The segments of a prompt: those of the parts, then the suffix; or why it is refused.
pub open spec fn segments_outcome<H: Copy>(
    parts: Seq<Part>,
    suffix: Seq<i32>,
    encoded: Seq<Encoded<H>>,
    n_ctx: usize,
) -> core::result::Result<Seq<SegmentModel>, ErrorModel> {
    if total_size(parts) + suffix.len() > n_ctx {
        Err(ErrorModel::InvalidInput("Prompt exceeds context size"@))
    } else if exists|i: int| 0 <= i < parts.len() && segment_of(#[trigger] parts[i], encoded) is None {
        Err(ErrorModel::InvalidInput("Unknown image part"@))
    } else {
        Ok(
            Seq::new(
                parts.len(),
                |i: int| segment_of(parts[i], encoded)->Some_0,
            ).push(SegmentModel::Tokens(suffix)),
        )
    }
}

fn copy_tokens(tokens: &Vec<i32>) -> (r: Vec<i32>)
    ensures
        r@ == tokens@,
{
    let mut copy: Vec<i32> = Vec::new();
    let mut i: usize = 0;
    while i < tokens.len()
        invariant
            i <= tokens@.len(),
            copy@ == tokens@.take(i as int),
        decreases tokens@.len() - i,
    {
        copy.push(tokens[i]);
        assert(tokens@.take(i + 1) =~= tokens@.take(i as int).push(tokens@[i as int]));
        i += 1;
    }
    assert(tokens@.take(i as int) =~= tokens@);
    copy
}

/// The segment of an image part is that of its own image: the very buffer that was encoded.
pub open spec fn shows<H: Copy>(part: Part, encoded: Seq<Encoded<H>>, segment: Segment<H>) -> bool {
    match part {
        Part::Text(_) => true,
        Part::Image { index, .. } => {
            let image = encoded[index as int];
            segment == (Segment::Image { rows: image.rows, count: image.tokens, key: image.key })
        },
    }
}

/// The segments of a prompt over encoded images.
pub fn prompt_segments<H: Copy>(
    parts: &Vec<PromptPart>,
    suffix: &Vec<i32>,
    encoded: &Vec<Encoded<H>>,
    n_ctx: usize,
) -> (r: Result<Vec<Segment<H>>>)
    ensures
        r matches Ok(segments) ==> segments_outcome(
            parts_model(parts@),
            suffix@,
            encoded@,
            n_ctx,
        ) == Ok::<Seq<SegmentModel>, ErrorModel>(segment_models(segments@)),
        r matches Ok(segments) ==> forall|i: int|
            0 <= i < parts@.len() ==> shows(parts_model(parts@)[i], encoded@, #[trigger] segments@[i]),
        r matches Err(e) ==> segments_outcome(parts_model(parts@), suffix@, encoded@, n_ctx)
            == Err::<Seq<SegmentModel>, ErrorModel>(e@),
{
    let ghost all = parts_model(parts@);
    let fits: bool = match prompt_length(parts) {
        Some(n) => suffix.len() <= n_ctx && n <= n_ctx - suffix.len(),
        None => false,
    };
    if !fits {
        return Err(Error::input("Prompt exceeds context size"));
    }
    let mut segments: Vec<Segment<H>> = Vec::new();
    let mut i: usize = 0;
    while i < parts.len()
        invariant
            i <= parts@.len(),
            all == parts_model(parts@),
            total_size(all) + suffix@.len() <= n_ctx,
            segments@.len() == i,
            forall|k: int|
                0 <= k < i ==> segment_of(#[trigger] all[k], encoded@) == Some(segments@[k]@),
            forall|k: int| 0 <= k < i ==> shows(all[k], encoded@, #[trigger] segments@[k]),
        decreases parts@.len() - i,
    {
        assert(all[i as int] == parts@[i as int]@);
        match &parts[i] {
            PromptPart::Text(tokens) => segments.push(Segment::Tokens(copy_tokens(tokens))),
            PromptPart::Image { tokens, index } => {
                if *index >= encoded.len() || encoded[*index].tokens != *tokens {
                    return Err(Error::input("Unknown image part"));
                }
                let image: Encoded<H> = encoded[*index];
                segments.push(
                    Segment::Image { rows: image.rows, count: image.tokens, key: image.key },
                );
            },
        }
        i += 1;
    }
    segments.push(Segment::Tokens(copy_tokens(suffix)));
    assert(segment_models(segments@) =~= Seq::new(
        all.len(),
        |k: int| segment_of(all[k], encoded@)->Some_0,
    ).push(SegmentModel::Tokens(suffix@)));
    Ok(segments)
}

/// Images stand in the prompt in their order, each between its own markers and with its own size and
/// number.
pub proof fn law_images_stand_between_their_markers(
    sizes: Seq<usize>,
    begin: i32,
    end: i32,
    n: nat,
    i: int,
)
    requires
        0 <= i < n <= sizes.len(),
    ensures
        ({
            let parts = image_parts_of(sizes, begin, end, n);
            &&& parts.len() == 3 * n
            &&& parts[3 * i] == Part::Text(seq![begin])
            &&& parts[3 * i + 1] == (Part::Image { tokens: sizes[i] as nat, index: i as nat })
            &&& parts[3 * i + 2] == Part::Text(seq![end])
        }),
    decreases n,
{
    if n > 1 {
        if i < n - 1 {
            law_images_stand_between_their_markers(sizes, begin, end, (n - 1) as nat, i);
        } else {
            law_images_stand_between_their_markers(sizes, begin, end, (n - 1) as nat, 0);
        }
    } else {
        assert(image_parts_of(sizes, begin, end, 0).len() == 0);
    }
}

} // verus!
