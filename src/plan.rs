//! The names that a run derives for each variant of a video.

use vstd::prelude::*;
use crate::playlist::{
    index_path, mp4_path, segment_base, segment_base_url, under, url_parts, variant_dir,
    variant_location, vod_dir, vod_directory,
};

verus! {

/// Everything a run needs to know of one variant before fetching it.
pub struct VariantPlan {
    /// Quality label, as the variant URL gives it.
    pub quality: String,
    /// Stream identifier, as the variant URL gives it.
    pub id: String,
    /// URL prefix of the segments.
    pub segment_base: String,
    /// Local directory of the variant.
    pub dir: String,
    /// Local copy of the variant playlist.
    pub playlist_path: String,
    /// Local single-file copy of the variant.
    pub mp4_path: String,
}

/// Plans the variant whose playlist is at `url`, for the video `vod_id`
/// stored under `root`. `None` when the URL has fewer than six
/// slash-separated pieces.
pub fn plan_variant(root: &str, vod_id: &str, url: &str) -> (r: Option<VariantPlan>)
    ensures
        r is Some <==> url_parts(url@).len() >= 6,
        r matches Some(p) ==> {
            let quality = url_parts(url@)[5];
            let id = url_parts(url@)[4];
            let dir = under(vod_directory(root@, vod_id@), quality);
            &&& p.quality@ == quality
            &&& p.id@ == id
            &&& p.segment_base@ == segment_base(id, quality)
            &&& p.dir@ == dir
            &&& p.playlist_path@ == under(dir, "index.m3u8"@)
            &&& p.mp4_path@ == under(vod_directory(root@, vod_id@), quality + ".mp4"@)
        },
{
    match variant_location(url) {
        None => None,
        Some((quality, id)) => {
            let segment_base = segment_base_url(id.as_str(), quality.as_str());
            let dir = variant_dir(root, vod_id, quality.as_str());
            let playlist_path = index_path(dir.as_str());
            let mp4_path = mp4_path(root, vod_id, quality.as_str());
            Some(VariantPlan { quality, id, segment_base, dir, playlist_path, mp4_path })
        },
    }
}

/// Where the master manifest of the video `vod_id` goes: `./ROOT/VOD/index.m3u8`.
pub fn master_playlist_path(root: &str, vod_id: &str) -> (r: String)
    ensures
        r@ == under(vod_directory(root@, vod_id@), "index.m3u8"@),
{
    let d = vod_dir(root, vod_id);
    index_path(d.as_str())
}

} // verus!
