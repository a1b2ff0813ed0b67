//! Images: finding their encoded bytes, decoding them, describing their upload
//! to the GPU, and accepting a finished frame as an image.

use vstd::prelude::*;
use vstd::slice::slice_subrange;
use crate::formats::{asks_for_threads, decodable, is_decodable, memory_holds, PIXEL_LIMIT};
use crate::gpu::{TextureDesc, TextureRole};
use crate::readback::{holds_frame, lemma_unpad_returns_frame, padded_row_bytes, readable, row_bytes, unpadded};

verus! {

/// The error type of the `image` crate, carried through without being read.
#[verifier::external_type_specification]
#[verifier::external_body]
pub struct ExImageError(image::ImageError);

/// The image type of the `image` crate: pixels in one of several layouts.
#[verifier::external_type_specification]
#[verifier::external_body]
pub struct ExDynamicImage(image::DynamicImage);

/// The width and height of an image.
pub uninterp spec fn size_of_image(img: image::DynamicImage) -> (u32, u32);

/// The pixels of an image, as 8-bit RGBA.
pub uninterp spec fn rgba8_of_image(img: image::DynamicImage) -> Seq<u8>;

/// Calls `GenericImageView::dimensions`. Claimed: nothing but that it gives the
/// image's width and height, for which `size_of_image` is the name.
#[verifier::external_body]
fn dimensions(img: &image::DynamicImage) -> (r: (u32, u32))
    ensures
        r == size_of_image(*img),
{
    image::GenericImageView::dimensions(img)
}

/// Calls `DynamicImage::to_rgba8` and takes the bytes out of the buffer
/// (`ImageBuffer::into_raw`). Claimed: the bytes are the image's pixels as 8-bit
/// RGBA, for which `rgba8_of_image` is the name, and there are four for every
/// pixel, which is how the buffer is allocated.
#[verifier::external_body]
fn to_rgba8(img: &image::DynamicImage) -> (r: Vec<u8>)
    requires
        0 < size_of_image(*img).0 * size_of_image(*img).1 <= PIXEL_LIMIT,
        memory_holds(size_of_image(*img).0 * size_of_image(*img).1),
    ensures
        r@ == rgba8_of_image(*img),
        r@.len() == 4 * size_of_image(*img).0 * size_of_image(*img).1,
{
    img.to_rgba8().into_raw()
}

/// An image of 8-bit RGBA pixels, row by row from the top.
#[derive(Debug)]
pub struct Picture {
    pub width: u32,
    pub height: u32,
    pub pixels: Vec<u8>,
}

impl Picture {
    /// Four bytes for every pixel, and no others.
    pub open spec fn wf(&self) -> bool {
        self.pixels@.len() == 4 * self.width * self.height
    }
}

/// The image that `image::load_from_memory` makes of `data`, by its width, its
/// height and its pixels as 8-bit RGBA, or `None` where the data is refused. The
/// JPEG decoder is built with its feature `platform_independent`, without which
/// its results differ from machine to machine.
pub uninterp spec fn decoded(data: Seq<u8>) -> Option<(u32, u32, Seq<u8>)>;

/// Calls `image::load_from_memory`, which guesses the format of `data` from its
/// first bytes and decodes it. Claimed: an image that comes back depends on
/// `data` alone; it is not empty, since the decoders refuse sides of length zero;
/// it has no more pixels than the 512 MiB that the crate's limits allow have
/// bytes; and it has the size that its header names, which `decodable` bounds.
/// Whether one comes back depends on `data` alone too, unless the JPEG decoder
/// is to start threads, which the system may refuse. Which error comes back is
/// not stated.
#[verifier::external_body]
fn load_from_memory(data: &[u8]) -> (r: Result<image::DynamicImage, image::ImageError>)
    requires
        decodable(data@),
    ensures
        r matches Ok(img) ==> decoded(data@) == Some(
            (size_of_image(img).0, size_of_image(img).1, rgba8_of_image(img)),
        ),
        r matches Ok(img) ==> 0 < size_of_image(img).0 * size_of_image(img).1 <= PIXEL_LIMIT,
        r matches Ok(img) ==> memory_holds(size_of_image(img).0 * size_of_image(img).1),
        !asks_for_threads(data@) ==> (r is Ok <==> decoded(data@) is Some),
{
    image::load_from_memory(data)
}

/// Calls `ImageBuffer::from_raw` for 8-bit RGBA pixels and takes the container
/// back out of the buffer (`ImageBuffer::into_raw`). Claimed: the container is
/// accepted exactly if it holds at least four bytes for every pixel, and it
/// comes back unchanged.
#[verifier::external_body]
fn rgba_from_raw(width: u32, height: u32, pixels: Vec<u8>) -> (r: Option<Vec<u8>>)
    ensures
        r is Some <==> (4 * width <= usize::MAX && 4 * width * height <= pixels@.len()),
        r matches Some(v) ==> v@ == pixels@,
{
    image::RgbaImage::from_raw(width, height, pixels).map(|buffer| buffer.into_raw())
}

/// Where the encoded bytes of an image are.
#[derive(Debug)]
pub enum ImageSource {
    /// In a file, relative to the model.
    Uri(String),
    /// In a stretch of one of the model's buffers.
    View { buffer: usize, offset: usize, length: usize },
}

/// The encoded bytes of an image, or the file to read them from.
#[derive(Debug)]
pub enum ImageData {
    File(String),
    Bytes(Vec<u8>),
}

impl ImageSource {
    /// A stretch of a buffer lies within the buffer.
    pub open spec fn in_range(&self, buffers: Seq<Vec<u8>>) -> bool {
        match self {
            ImageSource::Uri(_) => true,
            ImageSource::View { buffer, offset, length } => *buffer < buffers.len() && *offset + *length
                <= buffers[*buffer as int]@.len(),
        }
    }

    /// Whether the image can be found.
    pub fn is_in_range(&self, buffers: &Vec<Vec<u8>>) -> (r: bool)
        ensures
            r == self.in_range(buffers@),
            self matches ImageSource::Uri(_) ==> r,
            self matches ImageSource::View { buffer, offset, length } ==> (r <==> *buffer < buffers@.len() && *offset
                + *length <= buffers@[*buffer as int]@.len()),
    {
        match self {
            ImageSource::Uri(_) => true,
            ImageSource::View { buffer, offset, length } => {
                *buffer < buffers.len() && *offset <= buffers[*buffer].len() && *length <= buffers[*buffer].len()
                    - *offset
            },
        }
    }

    /// Takes the bytes out of the buffer, or names the file that holds them.
    pub fn locate(self, buffers: &Vec<Vec<u8>>) -> (r: ImageData)
        requires
            self.in_range(buffers@),
        ensures
            self matches ImageSource::Uri(uri) ==> r == ImageData::File(uri),
            self matches ImageSource::View { buffer, offset, length } ==> (r matches ImageData::Bytes(bytes)
                && bytes@ == buffers@[buffer as int]@.subrange(offset as int, offset + length)),
    {
        match self {
            ImageSource::Uri(uri) => ImageData::File(uri),
            ImageSource::View { buffer, offset, length } => {
                let whole = &buffers[buffer];
                assert(whole.len() == whole@.len());
                let part = slice_subrange(whole.as_slice(), offset, offset + length);
                let mut bytes: Vec<u8> = Vec::new();
                bytes.extend_from_slice(part);
                assert(bytes@ =~= part@);
                ImageData::Bytes(bytes)
            },
        }
    }
}

/// Why an image did not become a texture.
#[derive(Debug)]
pub enum TextureError {
    /// The bytes could not be decoded.
    Decode(image::ImageError),
    /// The headers are such that a decoder could panic on the bytes.
    Unsupported,
}

/// A texture together with the pixels that are written to it.
#[derive(Debug)]
pub struct TextureUpload {
    pub desc: TextureDesc,
    pub pixels: Vec<u8>,
    pub bytes_per_row: u32,
    pub rows_per_image: u32,
}

/// `upload` writes `pixels`, packed row by row, to the whole of a texture of
/// their size.
pub open spec fn uploads(
    upload: TextureUpload,
    role: TextureRole,
    width: u32,
    height: u32,
    pixels: Seq<u8>,
) -> bool {
    &&& upload.desc == role.texture_spec(width, height)
    &&& upload.pixels@ == pixels
    &&& upload.bytes_per_row == 4 * width
    &&& upload.rows_per_image == height
}

/// Describes the upload of an image.
pub fn upload_texture(img: Picture) -> (r: TextureUpload)
    requires
        4 * img.width <= u32::MAX,
    ensures
        uploads(r, TextureRole::Image, img.width, img.height, img.pixels@),
        r.desc.width == img.width && r.desc.height == img.height,
        r.pixels@ == img.pixels@,
        r.bytes_per_row == 4 * img.width,
        r.rows_per_image == img.height,
{
    TextureUpload {
        desc: TextureRole::Image.texture(img.width, img.height),
        pixels: img.pixels,
        bytes_per_row: 4 * img.width,
        rows_per_image: img.height,
    }
}

/// Describes the upload of the white texture: a single white pixel.
pub fn white_texture() -> (r: TextureUpload)
    ensures
        uploads(r, TextureRole::White, 1, 1, seq![255u8, 255u8, 255u8, 255u8]),
        r.desc.width == 1 && r.desc.height == 1 && r.bytes_per_row == 4 && r.rows_per_image == 1,
        r.pixels@.len() == 4,
        forall|i: int| 0 <= i < 4 ==> #[trigger] r.pixels@[i] == 255,
{
    let pixels: Vec<u8> = vec![255u8, 255u8, 255u8, 255u8];
    assert(pixels@ =~= seq![255u8, 255u8, 255u8, 255u8]);
    TextureUpload {
        desc: TextureRole::White.texture(1, 1),
        pixels,
        bytes_per_row: 4,
        rows_per_image: 1,
    }
}

/// Decodes an image and describes its upload. Where the decoder needs threads
/// and the system refuses them, an image that could be decoded is an error too.
pub fn load_texture(data: &[u8]) -> (r: Result<TextureUpload, TextureError>)
    ensures
        !decodable(data@) <==> (r matches Err(e) && e is Unsupported),
        decodable(data@) ==> match decoded(data@) {
            Some((width, height, pixels)) => {
                &&& r matches Ok(upload) ==> {
                    &&& uploads(upload, TextureRole::Image, width, height, pixels)
                    &&& upload.desc.width == width && upload.desc.height == height && upload.pixels@ == pixels
                    &&& upload.bytes_per_row == 4 * width && upload.rows_per_image == height
                    &&& pixels.len() == 4 * width * height
                    &&& 0 < width * height
                }
                &&& !asks_for_threads(data@) ==> r is Ok
            },
            None => r is Err,
        },
{
    if !is_decodable(data) {
        return Err(TextureError::Unsupported);
    }
    match load_from_memory(data) {
        Ok(img) => {
            let (width, height) = dimensions(&img);
            assert(width <= width * height) by (nonlinear_arith)
                requires
                    0 < width * height,
                    0 <= height,
                    0 <= width,
            ;
            let pixels = to_rgba8(&img);
            Ok(upload_texture(Picture { width, height, pixels }))
        },
        Err(e) => Err(TextureError::Decode(e)),
    }
}

/// An upload whose pixels are four bytes each fills its texture: as many bytes
/// are written as its rows take up.
pub proof fn lemma_upload_fills_texture(
    upload: TextureUpload,
    role: TextureRole,
    width: u32,
    height: u32,
    pixels: Seq<u8>,
)
    requires
        uploads(upload, role, width, height, pixels),
        pixels.len() == 4 * width * height,
    ensures
        upload.pixels@.len() == upload.bytes_per_row * upload.rows_per_image,
        upload.rows_per_image == upload.desc.height,
        upload.bytes_per_row == 4 * upload.desc.width,
        upload.desc.width == width && upload.desc.height == height,
        upload.pixels@ == pixels,
        upload.desc.usages.texture_binding <==> role is Image || role is White,
{
}

/// Why a frame is not an image.
#[derive(Clone, Copy, Debug, PartialEq, Eq, Structural)]
pub enum FrameError {
    /// There are too few bytes for the size.
    InvalidBuffer,
}

impl FrameError {
    /// The error in words.
    pub fn message(&self) -> (r: &'static str)
        ensures
            r == "Invalid image buffer",
    {
        "Invalid image buffer"
    }
}

/// `len` bytes are enough for the pixels of an image of the given size.
pub open spec fn covers_image(len: nat, width: u32, height: u32) -> bool {
    4 * width <= usize::MAX && 4 * width * height <= len
}

/// Accepts a frame as an image. Bytes beyond the last pixel are not part of it.
pub fn picture_from_frame(width: u32, height: u32, pixels: Vec<u8>) -> (r: Result<Picture, FrameError>)
    ensures
        r is Ok <==> covers_image(pixels@.len(), width, height),
        r is Ok <==> 4 * width <= usize::MAX && 4 * width * height <= pixels@.len(),
        r matches Ok(p) ==> {
            &&& p.pixels@.len() == 4 * width * height
            &&& forall|i: int| 0 <= i < p.pixels@.len() ==> #[trigger] p.pixels@[i] == pixels@[i]
        },
        r matches Ok(p) ==> p.wf() && p.width == width && p.height == height && p.pixels@ == pixels@.take(
            4 * width * height,
        ),
        r matches Err(e) ==> e == FrameError::InvalidBuffer,
{
    match rgba_from_raw(width, height, pixels) {
        Some(bytes) => {
            let mut kept = bytes;
            assert(kept.len() == kept@.len());
            assert(0 <= 4 * width * height) by (nonlinear_arith)
                requires
                    0 <= width,
                    0 <= height,
            ;
            let len: usize = 4 * (width as usize) * (height as usize);
            kept.truncate(len);
            assert(kept@ =~= pixels@.take(4 * width * height));
            Ok(Picture { width, height, pixels: kept })
        },
        None => Err(FrameError::InvalidBuffer),
    }
}

/// A frame that has been read back is always accepted as an image, and the
/// image is the frame that was rendered.
pub proof fn lemma_rendered_frame_is_accepted(data: Seq<u8>, frame: Seq<u8>, width: u32, height: u32)
    requires
        readable(width as int, height as int),
        holds_frame(data, frame, width as int, height as int),
    ensures
        ({
            let pixels = unpadded(data, row_bytes(width as int), padded_row_bytes(width as int), height as int);
            &&& covers_image(pixels.len(), width, height)
            &&& pixels.take(4 * width * height) == frame
        }),
{
    lemma_unpad_returns_frame(data, frame, width as int, height as int);
    assert(row_bytes(width as int) * height == 4 * width * height);
    assert(frame.take(4 * width * height) =~= frame);
}

} // verus!
