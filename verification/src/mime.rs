//! Mimetype inference and the small mimetype tables of the vault.

use vstd::prelude::*;

verus! {

/// The mimetype that content sniffing assigns to a byte string, if any.
/// It depends on the bytes alone, so it only carries a name here.
pub uninterp spec fn inferred_mime(bytes: Seq<u8>) -> Option<Seq<char>>;

/// Relies on `infer::get`: the mimetype matched from magic bytes; a
/// function of the buffer alone.
#[verifier::external_body]
pub(crate) fn infer_mimetype(data: &Vec<u8>) -> (r: Option<String>)
    ensures
        r matches Some(s) ==> inferred_mime(data@) == Some(s@),
        r is None ==> inferred_mime(data@) is None,
{
    infer::get(data.as_slice()).map(|t| t.mime_type().to_string())
}

/// The raster formats the image pipeline can decode.
pub open spec fn spec_supported_raster(mime: Seq<char>) -> bool {
    mime == "image/jpeg"@ || mime == "image/png"@ || mime == "image/gif"@
}

/// Whether the derivative subflow runs for this mimetype.
pub fn is_supported_raster(mime: &str) -> (r: bool)
    ensures
        r == spec_supported_raster(mime@),
{
    crate::text::str_eq(mime, "image/jpeg") || crate::text::str_eq(mime, "image/png")
        || crate::text::str_eq(mime, "image/gif")
}

/// The filename extension the proxy advertises for `mime`, if the
/// mimetype is one of the supported set.
pub open spec fn spec_mimetype_extension(mime: Seq<char>) -> Option<Seq<char>> {
    if mime == "image/jpeg"@ {
        Some("jpeg"@)
    } else if mime == "image/png"@ {
        Some("png"@)
    } else if mime == "image/gif"@ {
        Some("gif"@)
    } else if mime == "video/mp4"@ {
        Some("mp4"@)
    } else {
        None
    }
}

/// Extension for a mimetype: `jpeg`, `png`, `gif` or `mp4`.
pub fn mimetype_extension(mimetype: &str) -> (r: Option<String>)
    ensures
        r matches Some(e) ==> spec_mimetype_extension(mimetype@) == Some(e@),
        r is None <==> spec_mimetype_extension(mimetype@) is None,
{
    if crate::text::str_eq(mimetype, "image/jpeg") {
        Some(String::from_str("jpeg"))
    } else if crate::text::str_eq(mimetype, "image/png") {
        Some(String::from_str("png"))
    } else if crate::text::str_eq(mimetype, "image/gif") {
        Some(String::from_str("gif"))
    } else if crate::text::str_eq(mimetype, "video/mp4") {
        Some(String::from_str("mp4"))
    } else {
        None
    }
}

} // verus!
