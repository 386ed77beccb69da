//! Screenshots handed to the language model as base64 data URLs. Capturing
//! the screen happens outside the library; it hands in the PNG bytes.
use vstd::prelude::*;
use crate::text::{chars_of, string_of};

verus! {

/// A captured screen, base64-encoded.
#[derive(Debug)]
pub struct ScreenshotResult {
    pub base64_data: String,
    pub width: u32,
    pub height: u32,
    pub format: String,
}

/// The standard, padded base64 encoding of some bytes.
pub uninterp spec fn base64_of(bytes: Seq<u8>) -> Seq<char>;

/// Relies on `base64::Engine::encode` with the standard padded alphabet:
/// the encoding of the bytes, four characters for every three bytes or part
/// of three.
#[verifier::external_body]
fn encode_base64(bytes: &Vec<u8>) -> (r: String)
    requires
        bytes@.len() < usize::MAX / 4,
    ensures
        r@ == base64_of(bytes@),
        r@.len() == 4 * ((bytes@.len() + 2) / 3),
{
    base64::Engine::encode(&base64::engine::general_purpose::STANDARD, bytes)
}

/// A PNG screenshot, encoded for transport.
pub fn encode_screenshot(png: &Vec<u8>, width: u32, height: u32) -> (r: ScreenshotResult)
    requires
        png@.len() < usize::MAX / 4,
    ensures
        r.base64_data@ == base64_of(png@),
        r.width == width,
        r.height == height,
        r.format@ == "png"@,
{
    ScreenshotResult {
        base64_data: encode_base64(png),
        width,
        height,
        format: string_of(&chars_of("png")),
    }
}

/// The data URL of an encoded PNG screenshot.
pub fn capture_screen_as_data_url(shot: &ScreenshotResult) -> (r: String)
    ensures
        r@ == "data:image/png;base64,"@ + shot.base64_data@,
{
    let mut v = chars_of("data:image/png;base64,");
    let mut d = chars_of(shot.base64_data.as_str());
    v.append(&mut d);
    string_of(&v)
}

} // verus!
