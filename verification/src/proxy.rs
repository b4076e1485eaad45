//! The computing parts of the read-only browser façade: best-fit
//! thumbnail selection and response-header text.

use vstd::prelude::*;

use crate::local::{thumb_long_edge, ThumbnailRow, ThumbnailRowV};
use crate::numstr::spec_dec;

verus! {

/// Long edge the `medium` shortcut aims for.
pub const MEDIUM_TARGET: i64 = 1280;

/// Long edge the `small` shortcut aims for.
pub const SMALL_TARGET: i64 = 640;

/// How far a thumbnail's long edge is from the wanted size.
pub open spec fn spec_dist(t: ThumbnailRowV, target: int) -> int {
    let d = thumb_long_edge(t) - target;
    if d < 0 {
        -d
    } else {
        d
    }
}

/// The thumbnail whose long edge is closest to `long_edge`; among equals
/// the one standing last.  Pixel dimensions and target are bounded so
/// that no distance overflows.
pub fn closest_thumbnail<'a>(thumbnails: &'a Vec<ThumbnailRow>, long_edge: i64) -> (r:
    &'a ThumbnailRow)
    requires
        thumbnails@.len() > 0,
        0 <= long_edge <= u32::MAX,
        forall|j: int|
            0 <= j < thumbnails@.len() ==> 0 <= (#[trigger] thumbnails@[j]@).height <= u32::MAX
                && 0 <= thumbnails@[j]@.width <= u32::MAX,
    ensures
        exists|i: int|
            0 <= i < thumbnails@.len() && *r == #[trigger] thumbnails@[i] && (forall|j: int|
                0 <= j < thumbnails@.len() ==> spec_dist(thumbnails@[i]@, long_edge as int)
                    <= spec_dist(#[trigger] thumbnails@[j]@, long_edge as int)) && (forall|j: int|
                i < j < thumbnails@.len() ==> spec_dist(#[trigger] thumbnails@[j]@,
                long_edge as int) > spec_dist(thumbnails@[i]@, long_edge as int)),
{
    let n = thumbnails.len();
    let mut best: usize = 0;
    let mut best_dist: i64 = dist_of(&thumbnails[0], long_edge);
    let mut j: usize = 1;
    while j < n
        invariant
            1 <= j <= n,
            n == thumbnails@.len(),
            best < j,
            0 <= long_edge <= u32::MAX,
            forall|k: int|
                0 <= k < thumbnails@.len() ==> 0 <= (#[trigger] thumbnails@[k]@).height
                    <= u32::MAX && 0 <= thumbnails@[k]@.width <= u32::MAX,
            best_dist == spec_dist(thumbnails@[best as int]@, long_edge as int),
            forall|k: int|
                0 <= k < j ==> best_dist <= spec_dist(
                    #[trigger] thumbnails@[k]@,
                    long_edge as int,
                ),
            forall|k: int|
                best < k < j ==> spec_dist(#[trigger] thumbnails@[k]@, long_edge as int)
                    > best_dist,
        decreases n - j,
    {
        let d = dist_of(&thumbnails[j], long_edge);
        if d <= best_dist {
            best = j;
            best_dist = d;
        }
        j = j + 1;
    }
    let r = &thumbnails[best];
    proof {
        assert(0 <= best < thumbnails@.len() && *r == thumbnails@[best as int] && (forall|k: int|
            0 <= k < thumbnails@.len() ==> spec_dist(thumbnails@[best as int]@, long_edge as int)
                <= spec_dist(#[trigger] thumbnails@[k]@, long_edge as int)) && (forall|k: int|
            best < k < thumbnails@.len() ==> spec_dist(#[trigger] thumbnails@[k]@,
            long_edge as int) > spec_dist(thumbnails@[best as int]@, long_edge as int)));
    }
    r
}

/// The distance of one row's long edge from the target.
fn dist_of(t: &ThumbnailRow, target: i64) -> (r: i64)
    requires
        0 <= t@.height <= u32::MAX,
        0 <= t@.width <= u32::MAX,
        0 <= target <= u32::MAX,
    ensures
        r == spec_dist(t@, target as int),
{
    let long: i64 = if t.width > t.height {
        t.width
    } else {
        t.height
    };
    if long >= target {
        long - target
    } else {
        target - long
    }
}

/// The immutable-cache header value every content response carries.
pub fn cache_control_value() -> (r: String)
    ensures
        r@ == "max-age=31536000, immutable"@,
{
    String::from_str("max-age=31536000, immutable")
}

/// The attachment filename header for a content or thumbnail response:
/// `inline; filename="<cid>[_thumb<L>].<ext>"`.
pub open spec fn spec_content_disposition(
    encoded_cid: Seq<char>,
    rung: Option<u32>,
    extension: Seq<char>,
) -> Seq<char> {
    let stem = match rung {
        Some(edge) => encoded_cid + "_thumb"@ + spec_dec(edge as int),
        None => encoded_cid,
    };
    "inline; filename=\""@ + stem + "."@ + extension + "\""@
}

/// Build the `Content-Disposition` value for a response.
pub fn content_disposition(encoded_cid: &str, rung: Option<u32>, extension: &str) -> (r: String)
    ensures
        r@ == spec_content_disposition(encoded_cid@, rung, extension@),
{
    let mut out = String::new();
    out.append("inline; filename=\"");
    out.append(encoded_cid);
    match rung {
        Some(edge) => {
            out.append("_thumb");
            let dec = crate::numstr::u64_to_dec(edge as u64);
            out.append(dec.as_str());
        },
        None => {},
    }
    out.append(".");
    out.append(extension);
    out.append("\"");
    out
}

} // verus!
