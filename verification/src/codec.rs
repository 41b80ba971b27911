//! Reading and writing binary NetPBM files, as bytes.
//!
//! A file is a header and, right behind it, the samples. The header holds
//! the magic token, the width and the height, and, except for bitmaps, the
//! maximum sample value. Bitmaps (`P4`) pack eight pixels into a byte; gray
//! (`P5`) and colour (`P6`) images hold one byte per sample.

use crate::bits::{
    bit_to_uchar, is_bitmap, lemma_unpack_pack, pack, row_bytes, uchar_to_bit, unpack,
};
use crate::decimal::{decimal, lemma_decimal_is_number, parse_i32, parse_number, push_decimal};
use crate::error::ImageError;
use crate::image::{lemma_valid_shape_bounds, outcome, valid_shape, ImageView, IVC, MAX_SAMPLES};
use crate::token::{
    is_space, is_token_byte, lemma_scan_space, lemma_scan_word, read_tokens, scan_tokens,
    token_bytes,
};
use vstd::prelude::*;
use vstd::slice::slice_subrange;

verus! {

/// The three formats, by their magic token.
#[derive(Clone, Copy, Debug, PartialEq, Eq, Structural)]
pub enum Magic {
    /// A bitmap: one channel, two levels, eight pixels to the byte.
    P4,
    /// A gray image: one channel, 256 levels.
    P5,
    /// A colour image: three channels, 256 levels.
    P6,
}

impl Magic {
    /// The digit that follows the `P` in the magic token.
    pub open spec fn digit(self) -> u8 {
        match self {
            Magic::P4 => 52,
            Magic::P5 => 53,
            Magic::P6 => 54,
        }
    }

    /// The magic token.
    pub open spec fn token(self) -> Seq<u8> {
        seq![80u8, self.digit()]
    }

    /// Samples per pixel.
    pub open spec fn channels(self) -> int {
        match self {
            Magic::P6 => 3,
            _ => 1,
        }
    }

    /// Number of distinct sample values.
    pub open spec fn levels(self) -> int {
        match self {
            Magic::P4 => 2,
            _ => 256,
        }
    }

    /// How many tokens the header has.
    pub open spec fn header_tokens(self) -> nat {
        match self {
            Magic::P4 => 3,
            _ => 4,
        }
    }
}

/// The format that a magic token names, if any.
pub open spec fn magic_of(token: Seq<u8>) -> Option<Magic> {
    if token == Magic::P4.token() {
        Some(Magic::P4)
    } else if token == Magic::P5.token() {
        Some(Magic::P5)
    } else if token == Magic::P6.token() {
        Some(Magic::P6)
    } else {
        None
    }
}

/// The format in which an image of the given channels and levels is
/// written.
pub open spec fn magic_for(channels: int, levels: int) -> Magic {
    if levels == 2 {
        Magic::P4
    } else if channels == 1 {
        Magic::P5
    } else {
        Magic::P6
    }
}

/// The image that the samples `payload` make in the format `magic` with
/// the given dimensions.
///
/// Dimensions that make no valid shape are a format error; too few samples
/// are a buffer underrun. Samples beyond those that the dimensions call
/// for are left aside.
pub open spec fn decode_samples(magic: Magic, width: int, height: int, payload: Seq<u8>) -> Result<
    ImageView,
    ImageError,
> {
    let channels = magic.channels();
    let levels = magic.levels();
    let stored = if magic == Magic::P4 {
        row_bytes(width) * height
    } else {
        width * height * channels
    };
    if !valid_shape(width, height, channels, levels) {
        Err(ImageError::Format)
    } else if payload.len() < stored {
        Err(ImageError::BufferUnderrun)
    } else {
        Ok(
            ImageView {
                data: if magic == Magic::P4 {
                    unpack(payload, width, height)
                } else {
                    payload.subrange(0, stored)
                },
                width,
                height,
                channels,
                levels,
                bytesperline: width * channels,
            },
        )
    }
}

/// The image that the bytes `s` of a file hold.
///
/// The header is read as three tokens, and a fourth unless the first says
/// that the file is a bitmap. A header with too few tokens, with an unknown
/// magic token, or with a token after the first that is no number, is a
/// format error. The samples start where the scan for the last header token
/// stopped.
pub open spec fn decode(s: Seq<u8>) -> Result<ImageView, ImageError> {
    let head = scan_tokens(s, 0, 3);
    if head.tokens.len() < 3 {
        Err(ImageError::Format)
    } else {
        match magic_of(head.tokens[0]) {
            None => Err(ImageError::Format),
            Some(magic) => {
                let tail = scan_tokens(s, head.consumed, (magic.header_tokens() - 3) as nat);
                if magic != Magic::P4 && (tail.tokens.len() < 1 || parse_number(tail.tokens[0])
                    is None) {
                    Err(ImageError::Format)
                } else {
                    match (parse_number(head.tokens[1]), parse_number(head.tokens[2])) {
                        (Some(width), Some(height)) => decode_samples(
                            magic,
                            width as int,
                            height as int,
                            s.subrange(tail.consumed, s.len() as int),
                        ),
                        _ => Err(ImageError::Format),
                    }
                }
            },
        }
    }
}

/// The header of the file that holds `image`.
///
/// The magic token is followed by a space and a line feed, the width by a
/// space. Behind the height of a bitmap stands a line feed; behind that of
/// another image a space, a line feed, the maximum sample value and a line
/// feed.
pub open spec fn header(image: ImageView) -> Seq<u8> {
    let magic = magic_for(image.channels, image.levels);
    let dims = magic.token() + seq![32u8, 10u8] + decimal(image.width as nat) + seq![32u8]
        + decimal(image.height as nat);
    if magic == Magic::P4 {
        dims + seq![10u8]
    } else {
        dims + seq![32u8, 10u8] + decimal((image.levels - 1) as nat) + seq![10u8]
    }
}

/// The samples of `image` as they stand in a file: packed for a bitmap,
/// as they are otherwise.
pub open spec fn stored_samples(image: ImageView) -> Seq<u8> {
    let samples = image.data.subrange(0, image.sample_count());
    if image.levels == 2 {
        pack(samples, image.width, image.height)
    } else {
        samples
    }
}

/// The bytes of the file that holds `image`.
///
/// An image whose header fields are inconsistent, or a bitmap with more
/// than one channel, is refused; so is one with fewer samples than its
/// dimensions call for.
pub open spec fn encode(image: ImageView) -> Result<Seq<u8>, ImageError> {
    if !image.shaped() || (image.levels == 2 && image.channels != 1) {
        Err(ImageError::Precondition)
    } else if image.data.len() < image.sample_count() {
        Err(ImageError::BufferUnderrun)
    } else {
        Ok(header(image) + stored_samples(image))
    }
}

/// What is written can be read: the file that holds a well-formed image
/// decodes to that image. For a bitmap this holds where every sample is 0
/// or 1, the only values that a bit can carry.
pub proof fn lemma_decode_encode(image: ImageView)
    requires
        image.wf(),
        image.levels == 2 ==> image.channels == 1 && is_bitmap(image.data),
    ensures
        encode(image) == Ok::<Seq<u8>, ImageError>(header(image) + stored_samples(image)),
        decode(header(image) + stored_samples(image)) == Ok::<ImageView, ImageError>(image),
{
    let magic = magic_for(image.channels, image.levels);
    let width = image.width;
    let height = image.height;
    let stored = stored_samples(image);
    let s = header(image) + stored;
    let dw = decimal(width as nat);
    let dh = decimal(height as nat);
    let dm = decimal(255);
    lemma_valid_shape_bounds(width, height, image.channels, image.levels);
    lemma_decimal_is_number(width as nat);
    lemma_decimal_is_number(height as nat);
    lemma_decimal_is_number(255);
    // Where the parts of the header stand.
    let w0 = 4int;
    let w1 = w0 + dw.len();
    let h0 = w1 + 1;
    let h1 = h0 + dh.len();
    assert(s.subrange(0, 2) =~= magic.token());
    assert(s[2] == 32 && s[3] == 10);
    assert(s.subrange(w0, w1) =~= dw);
    assert(s[w1] == 32);
    assert(s.subrange(h0, h1) =~= dh);
    assert forall|i: int| 0 <= i < 2 implies is_token_byte(#[trigger] s[i]) by {}
    assert forall|i: int| w0 <= i < w1 implies is_token_byte(#[trigger] s[i]) by {
        assert(s[i] == dw[i - w0]);
    }
    assert forall|i: int| h0 <= i < h1 implies is_token_byte(#[trigger] s[i]) by {
        assert(s[i] == dh[i - h0]);
    }
    assert(is_space(s[h1]));
    // The magic token, the width and the height.
    lemma_scan_word(s, 0, 2, 3);
    lemma_scan_space(s, 3, 2);
    lemma_scan_word(s, w0, w1, 2);
    lemma_scan_word(s, h0, h1, 1);
    let head = scan_tokens(s, 0, 3);
    assert(head.tokens =~= seq![magic.token(), dw, dh]);
    assert(head.consumed == h1 + 1);
    assert(Magic::P4.token()[1] != Magic::P5.token()[1]);
    assert(Magic::P4.token()[1] != Magic::P6.token()[1]);
    assert(Magic::P5.token()[1] != Magic::P6.token()[1]);
    assert(magic_of(head.tokens[0]) == Some(magic));
    assert(parse_number(head.tokens[1]) == Some(width as i32));
    assert(parse_number(head.tokens[2]) == Some(height as i32));
    let samples = image.data.subrange(0, image.sample_count());
    assert(samples =~= image.data);
    if magic == Magic::P4 {
        assert(s.subrange(h1 + 1, s.len() as int) =~= stored);
        assert(width * height * 1 == width * height) by (nonlinear_arith);
        lemma_unpack_pack(image.data, width, height);
    } else {
        // The maximum sample value.
        let m0 = h1 + 2;
        let m1 = m0 + dm.len();
        assert(s[h1 + 1] == 10);
        assert(s.subrange(m0, m1) =~= dm);
        assert(s[m1] == 10);
        assert forall|i: int| m0 <= i < m1 implies is_token_byte(#[trigger] s[i]) by {
            assert(s[i] == dm[i - m0]);
        }
        lemma_scan_space(s, h1 + 1, 1);
        lemma_scan_word(s, m0, m1, 1);
        let tail = scan_tokens(s, head.consumed, 1);
        assert(tail.tokens =~= seq![dm]);
        assert(tail.consumed == m1 + 1);
        assert(parse_number(tail.tokens[0]) == Some(255i32));
        assert(s.subrange(m1 + 1, s.len() as int) =~= stored);
        assert(stored.subrange(0, image.sample_count()) =~= image.data);
    }
}

/// Tells the format that a magic token names.
fn read_magic(token: &[u8]) -> (magic: Option<Magic>)
    ensures
        magic == magic_of(token@),
{
    if token.len() != 2 || token[0] != 80 {
        assert(token@ != Magic::P4.token() && token@ != Magic::P5.token() && token@
            != Magic::P6.token());
        return None;
    }
    let digit: u8 = token[1];
    assert(token@ =~= seq![80u8, digit]);
    assert(Magic::P4.token()[1] == 52 && Magic::P5.token()[1] == 53 && Magic::P6.token()[1] == 54);
    if digit == 52 {
        Some(Magic::P4)
    } else if digit == 53 {
        Some(Magic::P5)
    } else if digit == 54 {
        Some(Magic::P6)
    } else {
        None
    }
}

/// Builds the image from the samples that follow the header.
fn read_samples(magic: Magic, width: i32, height: i32, payload: &[u8]) -> (result: Result<
    IVC,
    ImageError,
>)
    ensures
        outcome(result) == decode_samples(magic, width as int, height as int, payload@),
        result matches Ok(image) ==> image.wf(),
{
    let channels: i32 = match magic {
        Magic::P6 => 3,
        _ => 1,
    };
    let levels: i32 = match magic {
        Magic::P4 => 2,
        _ => 256,
    };
    if width <= 0 || height <= 0 {
        return Err(ImageError::Format);
    }
    assert(width * height * channels <= 0x7fff_ffff * 0x7fff_ffff * 3) by (nonlinear_arith)
        requires
            0 < width <= 0x7fff_ffff,
            0 < height <= 0x7fff_ffff,
            0 < channels <= 3,
    ;
    assert(0 <= width * height <= width * height * channels) by (nonlinear_arith)
        requires
            0 < width,
            0 < height,
            0 < channels,
    ;
    let count: u64 = (width as u64) * (height as u64) * (channels as u64);
    if count > MAX_SAMPLES as u64 {
        return Err(ImageError::Format);
    }
    proof {
        lemma_valid_shape_bounds(width as int, height as int, channels as int, levels as int);
    }
    let data: Vec<u8> = match magic {
        Magic::P4 => {
            let stride: usize = (width as usize - 1) / 8 + 1;
            assert(stride * height <= width * height) by (nonlinear_arith)
                requires
                    0 < stride <= width,
                    0 < height,
            ;
            if payload.len() < stride * (height as usize) {
                return Err(ImageError::BufferUnderrun);
            }
            bit_to_uchar(payload, width as usize, height as usize)
        },
        _ => {
            if payload.len() < count as usize {
                return Err(ImageError::BufferUnderrun);
            }
            let samples: &[u8] = slice_subrange(payload, 0, count as usize);
            vstd::slice::slice_to_vec(samples)
        },
    };
    Ok(IVC { data, width, height, channels, levels, bytesperline: width * channels })
}

/// Reads the image that the bytes `content` of a file hold.
pub fn vc_read_image(content: &[u8]) -> (result: Result<IVC, ImageError>)
    ensures
        outcome(result) == decode(content@),
        result matches Ok(image) ==> image.wf(),
{
    let (head, after_dims) = read_tokens(content, 0, 3);
    if head.len() < 3 {
        return Err(ImageError::Format);
    }
    let ghost scan = scan_tokens(content@, 0, 3);
    assert(token_bytes(head@)[0] == head[0]@);
    assert(token_bytes(head@)[1] == head[1]@);
    assert(token_bytes(head@)[2] == head[2]@);
    let magic: Magic = match read_magic(head[0].as_slice()) {
        Some(magic) => magic,
        None => {
            return Err(ImageError::Format);
        },
    };
    let mut offset: usize = after_dims;
    if magic != Magic::P4 {
        let (tail, after_max) = read_tokens(content, after_dims, 1);
        if tail.len() < 1 {
            return Err(ImageError::Format);
        }
        assert(token_bytes(tail@)[0] == tail[0]@);
        match parse_i32(tail[0].as_slice()) {
            Some(_) => {},
            None => {
                return Err(ImageError::Format);
            },
        }
        offset = after_max;
    }
    let width: i32 = match parse_i32(head[1].as_slice()) {
        Some(width) => width,
        None => {
            return Err(ImageError::Format);
        },
    };
    let height: i32 = match parse_i32(head[2].as_slice()) {
        Some(height) => height,
        None => {
            return Err(ImageError::Format);
        },
    };
    let payload: &[u8] = slice_subrange(content, offset, content.len());
    read_samples(magic, width, height, payload)
}

/// Writes the file that holds `image`, as bytes.
pub fn vc_write_image(image: IVC) -> (result: Result<Vec<u8>, ImageError>)
    ensures
        match result {
            Ok(bytes) => encode(image@) == Ok::<Seq<u8>, ImageError>(bytes@),
            Err(e) => encode(image@) == Err::<Seq<u8>, ImageError>(e),
        },
{
    if image.width <= 0 || image.height <= 0 || (image.channels != 1 && image.channels != 3) || (
    image.levels != 2 && image.levels != 256) {
        return Err(ImageError::Precondition);
    }
    assert(image.width * image.height * image.channels <= 0x7fff_ffff * 0x7fff_ffff * 3)
        by (nonlinear_arith)
        requires
            0 < image.width <= 0x7fff_ffff,
            0 < image.height <= 0x7fff_ffff,
            0 < image.channels <= 3,
    ;
    assert(0 <= image.width * image.height <= image.width * image.height * image.channels)
        by (nonlinear_arith)
        requires
            0 < image.width,
            0 < image.height,
            0 < image.channels,
    ;
    let count: u64 = (image.width as u64) * (image.height as u64) * (image.channels as u64);
    if count > MAX_SAMPLES as u64 {
        return Err(ImageError::Precondition);
    }
    proof {
        lemma_valid_shape_bounds(
            image.width as int,
            image.height as int,
            image.channels as int,
            image.levels as int,
        );
    }
    if image.bytesperline != image.width * image.channels {
        return Err(ImageError::Precondition);
    }
    if image.levels == 2 && image.channels != 1 {
        return Err(ImageError::Precondition);
    }
    if image.data.len() < count as usize {
        return Err(ImageError::BufferUnderrun);
    }
    let digit: u8 = if image.levels == 2 {
        52
    } else if image.channels == 1 {
        53
    } else {
        54
    };
    let ghost magic = magic_for(image.channels as int, image.levels as int);
    let mut bytes: Vec<u8> = Vec::new();
    bytes.push(80);
    bytes.push(digit);
    bytes.push(32);
    bytes.push(10);
    assert(bytes@ =~= magic.token() + seq![32u8, 10u8]);
    push_decimal(&mut bytes, image.width as u32);
    bytes.push(32);
    push_decimal(&mut bytes, image.height as u32);
    let ghost dims = magic.token() + seq![32u8, 10u8] + decimal(image.width as nat) + seq![32u8]
        + decimal(image.height as nat);
    assert(bytes@ =~= dims);
    let samples: &[u8] = slice_subrange(image.data.as_slice(), 0, count as usize);
    assert(samples@ == image@.data.subrange(0, image@.sample_count()));
    if image.levels == 2 {
        bytes.push(10);
        assert(bytes@ =~= header(image@));
        assert(image.width * image.height * 1 == image.width * image.height) by (nonlinear_arith);
        let mut packed: Vec<u8> = uchar_to_bit(samples, image.width as usize, image.height as usize);
        bytes.append(&mut packed);
        assert(bytes@ =~= header(image@) + stored_samples(image@));
    } else {
        bytes.push(32);
        bytes.push(10);
        push_decimal(&mut bytes, (image.levels - 1) as u32);
        bytes.push(10);
        assert(bytes@ =~= header(image@));
        bytes.extend_from_slice(samples);
        assert(bytes@ =~= header(image@) + stored_samples(image@));
    }
    Ok(bytes)
}

} // verus!
