//! Mirrors an HLS video-on-demand stream to local storage: the text formats
//! and naming rules are here; the network, the disk and the remuxer stay with
//! the caller.

pub mod text;
pub mod variant;
pub mod playlist;
pub mod acquire;
pub mod video;
pub mod remux;
pub mod plan;
