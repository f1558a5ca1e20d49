use vstd::prelude::*;

verus! {

/// The PNG file that the `image` crate's encoder writes for a `width` x
/// `height` image of 8-bit RGB triples `raw`, row-major; empty when the
/// encoder refuses the buffer.
pub uninterp spec fn png_rgb_of(width: u32, height: u32, raw: Seq<u8>) -> Seq<u8>;

/// The standard, padded base64 text of `bytes`.
pub uninterp spec fn base64_of(bytes: Seq<u8>) -> Seq<char>;

/// The bytes that the `base64` crate's decoder gives for `text`, or `None`
/// where it refuses the text.
pub uninterp spec fn base64_decoded(text: Seq<char>) -> Option<Seq<u8>>;

/// Width, height and row-major RGB triples of the picture that the `image`
/// crate decodes from the PNG file `bytes`, or `None` where it refuses them.
pub uninterp spec fn png_decoded(bytes: Seq<u8>) -> Option<(u32, u32, Seq<u8>)>;

/// Relies on `image::codecs::png::PngEncoder::encode` with `ColorType::Rgb8`:
/// the PNG bytes of the buffer, deterministic in its arguments.
#[verifier::external_body]
pub(crate) fn encode_png_rgb(raw: &Vec<u8>, width: u32, height: u32) -> (r: Vec<u8>)
    ensures
        r@ == png_rgb_of(width, height, raw@),
{
    let mut buf: Vec<u8> = Vec::new();
    let encoder = image::codecs::png::PngEncoder::new(&mut buf);
    match encoder.encode(raw, width, height, image::ColorType::Rgb8) {
        Ok(()) => buf,
        Err(_) => Vec::new(),
    }
}

/// Relies on `base64::encode`: standard alphabet with padding; the empty
/// input gives the empty text.
#[verifier::external_body]
pub(crate) fn encode_base64(bytes: &Vec<u8>) -> (r: String)
    ensures
        r@ == base64_of(bytes@),
        bytes@.len() == 0 ==> r@.len() == 0,
{
    base64::encode(bytes)
}

/// Relies on `base64::decode`: the bytes of standard base64 text, or the
/// decoder's message; the result depends on the text alone.
#[verifier::external_body]
pub(crate) fn decode_base64(text: &str) -> (r: Result<Vec<u8>, String>)
    ensures
        r is Ok <==> base64_decoded(text@) is Some,
        r matches Ok(b) ==> base64_decoded(text@) == Some(b@),
{
    base64::decode(text).map_err(|e| e.to_string())
}

/// Relies on `image::load_from_memory_with_format` with `ImageFormat::Png`
/// and `DynamicImage::into_rgb8`, which depend on the bytes alone: width,
/// height and the row-major RGB
/// triples of the decoded picture (the buffer holds at least that many
/// bytes), or the decoder's message.
#[verifier::external_body]
pub(crate) fn decode_png_rgb(bytes: &Vec<u8>) -> (r: Result<(u32, u32, Vec<u8>), String>)
    ensures
        r is Ok <==> png_decoded(bytes@) is Some,
        r matches Ok((w, h, raw)) ==> png_decoded(bytes@) == Some((w, h, raw@)) && raw@.len() >= w as int * h as int * 3,
{
    match image::load_from_memory_with_format(bytes, image::ImageFormat::Png) {
        Ok(img) => {
            let rgb = img.into_rgb8();
            Ok((rgb.width(), rgb.height(), rgb.into_raw()))
        },
        Err(e) => Err(e.to_string()),
    }
}

} // verus!
