//! Embedding cover art: turning the bytes of an already-encoded image into
//! a `data:` URL that a renderer can display inline. Reading and re-encoding
//! the image file itself is the caller's business; this module owns the
//! URL's shape.

use vstd::prelude::*;
use vstd::string::StringExecFns;
use base64::Engine;

verus! {

/// A cover image on its way to the renderer.
#[derive(Debug)]
pub enum Image {
    /// The finished `data:` URL.
    Ready(String),
    /// Decoding is still under way.
    Loading,
    /// No cover art exists for this track.
    Absent,
}

/// What can go wrong preparing a cover image.
#[derive(Debug)]
pub enum ImageError {
    /// The image could not be decoded or re-encoded; the message says why.
    ImageError(String),
}

/// What base64's standard alphabet, with padding, encodes the given bytes
/// to.
pub uninterp spec fn base64_of(bytes: Seq<u8>) -> Seq<char>;

/// Relies on base64's `STANDARD` engine: `encode` writes the standard
/// alphabet with padding, four characters for every started group of three
/// input bytes. It panics only when that length overflows `usize`, which
/// the bound on the input rules out.
#[verifier::external_body]
fn base64_encode(bytes: &Vec<u8>) -> (r: String)
    requires
        bytes@.len() <= 0x1000_0000_0000_0000,
    ensures
        r@ == base64_of(bytes@),
        r@.len() == 4 * ((bytes@.len() + 2) / 3),
{
    base64::engine::general_purpose::STANDARD.encode(bytes.as_slice())
}

/// The `data:` URL embedding an image already encoded as webp: the fixed
/// scheme-and-type prefix followed by the base64 rendering of the bytes.
pub fn image_to_url(webp: &Vec<u8>) -> (r: String)
    requires
        webp@.len() <= 0x1000_0000_0000_0000,
    ensures
        r@ == "data:image/webp;base64,"@ + base64_of(webp@),
{
    let mut url = String::new();
    url.append("data:image/webp;base64,");
    let encoded = base64_encode(webp);
    url.append(encoded.as_str());
    proof {
        assert(url@ =~= "data:image/webp;base64,"@ + base64_of(webp@));
    }
    url
}

} // verus!
