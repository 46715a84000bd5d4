//! What the metadata service says of a video.

use vstd::prelude::*;
use crate::text::{signed_decimal, signed_decimal_text};

verus! {

/// Title, preview, creation time and episode number of a video.
pub struct VideoInfo {
    pub title: String,
    pub preview_url: String,
    pub created_at: String,
    pub episode: i32,
}

/// Where the master playlist of a video lives.
pub struct PlaylistInfo {
    pub playlist_url: String,
}

/// `VOD: [EPISODE] - "TITLE"`.
pub open spec fn summary_text(episode: int, title: Seq<char>) -> Seq<char> {
    "VOD: ["@ + signed_decimal(episode) + "] - \""@ + title + "\""@
}

impl VideoInfo {
    /// One line naming the video by episode and title.
    pub fn summary(&self) -> (r: String)
        ensures
            r@ == summary_text(self.episode as int, self.title@),
    {
        let mut r = "VOD: [".to_owned();
        let ep = signed_decimal_text(self.episode);
        r.append(ep.as_str());
        r.append("] - \"");
        r.append(self.title.as_str());
        r.append("\"");
        r
    }
}

} // verus!
