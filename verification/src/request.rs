//! Checks and decoding of what the prediction service receives: the model
//! a request names, its base64 image payload, the pixels fed to the
//! classifiers, and the parameters of a training request.

use vstd::prelude::*;
use base64::Engine;
use crate::saved::{chars_of, trim, trim_exec};

verus! {

#[verifier::external_type_specification]
#[verifier::external_body]
pub struct ExDecodeError(base64::DecodeError);

/// Why a request is refused.
#[derive(Debug)]
pub enum RequestError {
    /// A prediction request carries no image.
    MissingImage,
    /// The image text is not valid base64.
    InvalidBase64(base64::DecodeError),
    /// A training request asks for no epoch.
    NoEpochs,
}

/// Side, in pixels, of the square thumbnails the classifiers read.
pub const THUMBNAIL_SIDE: u32 = 64;

/// Bytes in a thumbnail: three colour channels per pixel.
pub const THUMBNAIL_BYTES: usize = 12288;

/// Input size of a model trained without one being given.
pub const DEFAULT_INPUT_SIZE: usize = 128;

/// What the standard base64 alphabet, with padding, decodes `text` to;
/// `None` when `text` is no valid encoding.
pub uninterp spec fn standard_base64(text: Seq<char>) -> Option<Seq<u8>>;

/// `base64::engine::general_purpose::STANDARD.decode` on the UTF-8 text of
/// `text`. The result depends on the text alone: the decoded bytes, or the
/// decoding error exactly when the text is no valid encoding.
#[verifier::external_body]
fn decode_standard_base64(text: &Vec<char>) -> (r: Result<Vec<u8>, base64::DecodeError>)
    ensures
        match r {
            Ok(bytes) => standard_base64(text@) == Some(bytes@),
            Err(_) => standard_base64(text@) is None,
        },
{
    let utf8: String = text.iter().collect();
    base64::engine::general_purpose::STANDARD.decode(utf8)
}

/// The bytes of the `side` by `side` thumbnail of a `width` by `height`
/// RGB image whose bytes, three per pixel and row after row, start `rgb`:
/// resized by nearest-neighbour sampling, three bytes per pixel, row after
/// row.
pub uninterp spec fn nearest_rgb_thumbnail(width: u32, height: u32, rgb: Seq<u8>, side: u32) -> Seq<u8>;

/// `image::ImageReader::new(..).with_guessed_format()` followed by
/// `decode()`, on the bytes held in memory, then `to_rgb8()`: the width,
/// height and RGB bytes (`into_raw`) of the decoded image, or `None` when no
/// format is recognised or decoding fails. Which inputs decode is left
/// unstated, since the format guess also consults hooks registered at run
/// time; of a decoded image it is stated only that an `ImageBuffer` holds at
/// least three bytes per pixel.
#[verifier::external_body]
fn decode_rgb8(bytes: &[u8]) -> (r: Option<(u32, u32, Vec<u8>)>)
    ensures
        r matches Some((w, h, rgb)) ==> rgb@.len() >= 3 * w * h,
{
    match image::ImageReader::new(std::io::Cursor::new(bytes)).with_guessed_format() {
        Ok(reader) => match reader.decode() {
            Ok(img) => {
                let rgb = img.to_rgb8();
                Some((rgb.width(), rgb.height(), rgb.into_raw()))
            },
            Err(_) => None,
        },
        Err(_) => None,
    }
}

/// `image::imageops::resize` to `side` by `side` pixels with
/// `FilterType::Nearest`, on the RGB image `ImageBuffer::from_raw(width,
/// height, rgb)` (which the length requirement makes succeed), then
/// `into_raw()`. Nearest sampling copies one source pixel to each target
/// pixel, so resizing the RGB conversion gives the same bytes as converting
/// the resized image. The result is named, and has three bytes for each of
/// the `side * side` pixels.
#[verifier::external_body]
fn rgb_thumbnail_of(width: u32, height: u32, rgb: Vec<u8>, side: u32) -> (px: Vec<u8>)
    requires
        rgb@.len() >= 3 * width * height,
        side <= 256,
    ensures
        px@ == nearest_rgb_thumbnail(width, height, rgb@, side),
        px@.len() == 3 * side * side,
{
    let img: image::RgbImage = image::ImageBuffer::from_raw(width, height, rgb).unwrap();
    image::imageops::resize(&img, side, side, image::imageops::FilterType::Nearest).into_raw()
}

/// The model a prediction request names, `mlp` when it names none.
pub fn requested_model(model_name: Option<String>) -> (name: String)
    ensures
        name@ == match model_name {
            Some(n) => n@,
            None => "mlp"@,
        },
{
    match model_name {
        Some(n) => n,
        None => "mlp".to_owned(),
    }
}

/// The image a prediction request carries: its base64 text, trimmed of
/// white space at both ends, decoded.
pub fn decode_image_payload(image_base64: Option<String>) -> (r: Result<Vec<u8>, RequestError>)
    ensures
        match image_base64 {
            None => r matches Err(RequestError::MissingImage),
            Some(text) => match standard_base64(trim(text@)) {
                Some(bytes) => r matches Ok(v) && v@ == bytes,
                None => r matches Err(RequestError::InvalidBase64(_)),
            },
        },
{
    match image_base64 {
        None => Err(RequestError::MissingImage),
        Some(text) => {
            let chars = chars_of(text.as_str());
            let trimmed = trim_exec(&chars);
            match decode_standard_base64(&trimmed) {
                Ok(bytes) => Ok(bytes),
                Err(e) => Err(RequestError::InvalidBase64(e)),
            }
        },
    }
}

/// A thumbnail of zero bytes, used when an image cannot be read.
pub fn blank_thumbnail() -> (px: Vec<u8>)
    ensures
        px@.len() == THUMBNAIL_BYTES,
        forall|i: int| 0 <= i < px@.len() ==> px@[i] == 0,
{
    let mut px: Vec<u8> = Vec::new();
    while px.len() < THUMBNAIL_BYTES
        invariant
            px@.len() <= THUMBNAIL_BYTES,
            forall|i: int| 0 <= i < px@.len() ==> px@[i] == 0,
        decreases THUMBNAIL_BYTES - px@.len(),
    {
        px.push(0);
    }
    px
}

/// A decoding outcome that an image decoder can give: no image, or a
/// width, height and RGB bytes holding at least three bytes per pixel.
pub open spec fn decoding_outcome(d: Option<(u32, u32, Seq<u8>)>) -> bool {
    d matches Some((w, h, rgb)) ==> rgb.len() >= 3 * w * h
}

/// The pixels the classifiers read for a decoding outcome: the
/// `THUMBNAIL_SIDE`-pixel nearest-neighbour thumbnail of a decoded image,
/// rows from top to bottom, or `THUMBNAIL_BYTES` zero bytes when nothing
/// decoded.
pub open spec fn classifier_input(d: Option<(u32, u32, Seq<u8>)>) -> Seq<u8> {
    match d {
        None => Seq::new(THUMBNAIL_BYTES as nat, |i: int| 0u8),
        Some((w, h, rgb)) => nearest_rgb_thumbnail(w, h, rgb, THUMBNAIL_SIDE),
    }
}

/// A decoded image as plain values.
pub open spec fn decoded_view(img: Option<(u32, u32, Vec<u8>)>) -> Option<(u32, u32, Seq<u8>)> {
    match img {
        None => None,
        Some((w, h, rgb)) => Some((w, h, rgb@)),
    }
}

/// The pixels the classifiers read from a decoded image, given as its
/// width, height and RGB bytes: its `THUMBNAIL_SIDE`-pixel square thumbnail
/// by nearest-neighbour sampling, or, when there is no image, a blank
/// thumbnail of zero bytes. Either way the input has `THUMBNAIL_BYTES`
/// entries.
pub fn pixels_of_decoded(img: Option<(u32, u32, Vec<u8>)>) -> (px: Vec<u8>)
    requires
        img matches Some((w, h, rgb)) ==> rgb@.len() >= 3 * w * h,
    ensures
        px@.len() == THUMBNAIL_BYTES,
        img is None ==> forall|i: int| 0 <= i < px@.len() ==> px@[i] == 0,
        img matches Some((w, h, rgb)) ==> px@ == nearest_rgb_thumbnail(w, h, rgb@, THUMBNAIL_SIDE),
        px@ == classifier_input(decoded_view(img)),
{
    match img {
        Some((w, h, rgb)) => rgb_thumbnail_of(w, h, rgb, THUMBNAIL_SIDE),
        None => {
            let px = blank_thumbnail();
            assert(px@ =~= Seq::new(THUMBNAIL_BYTES as nat, |i: int| 0u8));
            px
        },
    }
}

/// The pixels the classifiers read from an image file held in memory: the
/// file is decoded to RGB, then `pixels_of_decoded` gives its thumbnail, or
/// a blank one when it cannot be decoded. The input has `THUMBNAIL_BYTES`
/// entries, and is exactly the classifier input of the outcome the decoder
/// gave: the nearest-neighbour thumbnail of the decoded image, rows in
/// order, or zeros. Which outcome the decoder gives is not stated, since its
/// format guess consults hooks registered at run time.
pub fn image_to_pixels(bytes: &[u8]) -> (px: Vec<u8>)
    ensures
        px@.len() == THUMBNAIL_BYTES,
        exists|d: Option<(u32, u32, Seq<u8>)>|
            decoding_outcome(d) && px@ == #[trigger] classifier_input(d),
{
    let decoded = decode_rgb8(bytes);
    let ghost d = decoded_view(decoded);
    let px = pixels_of_decoded(decoded);
    assert(decoding_outcome(d) && px@ == classifier_input(d));
    px
}

/// The input size of a training request, once its epoch count is checked:
/// `NoEpochs` when it asks for none, else the size it gives or
/// `DEFAULT_INPUT_SIZE`.
pub fn train_input_size(epochs: usize, input_size: Option<usize>) -> (r: Result<usize, RequestError>)
    ensures
        epochs == 0 ==> r matches Err(RequestError::NoEpochs),
        epochs > 0 ==> (r matches Ok(n) && n == match input_size {
            Some(k) => k,
            None => DEFAULT_INPUT_SIZE,
        }),
{
    if epochs == 0 {
        return Err(RequestError::NoEpochs);
    }
    match input_size {
        Some(k) => Ok(k),
        None => Ok(DEFAULT_INPUT_SIZE),
    }
}

} // verus!
