use std::collections::HashMap;

use vod_fetch::acquire::{SegmentAcquisition, SegmentStep};
use vod_fetch::plan::{master_playlist_path, plan_variant};
use vod_fetch::playlist::{
    child_path, create_master_playlist, index_path, mp4_path, playlist_info_url, remux_args,
    segment_base_url, segment_files, variant_dir, variant_location, variant_urls, video_info_url,
    vod_dir,
};
use vod_fetch::remux::{is_progress_line, remux_decision, RemuxDecision};
use vod_fetch::text::{
    chars_of, decimal_text, ends_with, signed_decimal_text, split_text, starts_with,
};
use vod_fetch::variant::get_playlist_variant;
use vod_fetch::video::VideoInfo;

fn strings(v: &[&str]) -> Vec<String> {
    v.iter().map(|s| s.to_string()).collect()
}

#[test]
fn explicit_framerate_keeps_label() {
    let v = get_playlist_variant("1080p60");
    assert_eq!(v.name, "1080p60");
    assert_eq!(v.framerate, "60");
    assert_eq!(v.bandwidth, 6000000);
    assert_eq!(v.resolution, "1920x1080");
}

#[test]
fn missing_framerate_defaults() {
    let v = get_playlist_variant("720");
    assert_eq!(v.name, "720p");
    assert_eq!(v.framerate, "30");
}

#[test]
fn tier_1080() {
    let v = get_playlist_variant("1080");
    assert_eq!(v.bandwidth, 6000000);
    assert_eq!(v.resolution, "1920x1080");
    assert_eq!(v.name, "1080p");
}

#[test]
fn tier_720() {
    let v = get_playlist_variant("720p30");
    assert_eq!(v.bandwidth, 2600000);
    assert_eq!(v.resolution, "1080x720");
    assert_eq!(v.framerate, "30");
    assert_eq!(v.name, "720p30");
}

#[test]
fn fallback_tiers() {
    for label in ["360", "audio", ""] {
        let v = get_playlist_variant(label);
        assert_eq!(v.bandwidth, 1000000, "{}", label);
        assert_eq!(v.resolution, "640x360", "{}", label);
        assert_eq!(v.framerate, "30");
    }
    assert_eq!(get_playlist_variant("").name, "p");
}

#[test]
fn only_first_p_splits() {
    let v = get_playlist_variant("1080p6p0");
    assert_eq!(v.framerate, "6p0");
    assert_eq!(v.name, "1080p6p0");
    assert_eq!(v.bandwidth, 6000000);
    let w = get_playlist_variant("1p2p3");
    assert_eq!(w.framerate, "2p3");
    assert_eq!(w.name, "1p2p3");
    let x = get_playlist_variant("p60");
    assert_eq!(x.framerate, "60");
    assert_eq!(x.name, "p60");
    assert_eq!(x.bandwidth, 1000000);
}

#[test]
fn trailing_p_gives_empty_framerate() {
    let v = get_playlist_variant("480p");
    assert_eq!(v.framerate, "");
    assert_eq!(v.name, "480p");
    assert_eq!(v.bandwidth, 1000000);
}

#[test]
fn segment_lines_in_order() {
    let text = "#EXTINF:...\nseg0.ts\n#EXTINF:...\nseg1.ts\nnot-a-segment.m3u8";
    assert_eq!(segment_files(text), strings(&["seg0.ts", "seg1.ts"]));
}

#[test]
fn segment_lines_keep_repeats() {
    let text = "a.ts\nb.ts\na.ts\n";
    assert_eq!(segment_files(text), strings(&["a.ts", "b.ts", "a.ts"]));
    assert!(segment_files("").is_empty());
    assert!(segment_files("x.ts\r\n").is_empty());
}

#[test]
fn variant_lines_start_with_https() {
    let master = "#EXTM3U\r\nhttps://cdn/transcode/XYZ/720/index.m3u8\r\n#X\r\nhttps://cdn/transcode/XYZ/1080p60/index.m3u8\r\nhttp://other";
    assert_eq!(
        variant_urls(master),
        strings(&[
            "https://cdn/transcode/XYZ/720/index.m3u8",
            "https://cdn/transcode/XYZ/1080p60/index.m3u8"
        ])
    );
}

#[test]
fn location_from_url() {
    let (q, id) = variant_location("https://cdn/transcode/XYZ/720/index.m3u8").unwrap();
    assert_eq!(q, "720");
    assert_eq!(id, "XYZ");
    assert!(variant_location("https://cdn/transcode/XYZ").is_none());
}

#[test]
fn master_manifest_text() {
    let text = create_master_playlist(&strings(&["1080p60", "720"]));
    let expected = "#EXTM3U\r\n#EXT-X-VERSION:3\r\n\
#EXT-X-STREAM-INF:BANDWIDTH=6000000,RESOLUTION=1920x1080,FRAMERATE=60,CODECS=\"avc1.4D402A,mp4a.40.2\",NAME=\"1080p60\"\r\n\
1080p60/index.m3u8\r\n\
#EXT-X-STREAM-INF:BANDWIDTH=2600000,RESOLUTION=1080x720,FRAMERATE=30,CODECS=\"avc1.4D402A,mp4a.40.2\",NAME=\"720p\"\r\n\
720/index.m3u8";
    assert_eq!(text, expected);
    assert!(text.starts_with("#EXTM3U\r\n#EXT-X-VERSION:3\r\n"));
}

#[test]
fn master_manifest_without_variants() {
    assert_eq!(create_master_playlist(&Vec::new()), "#EXTM3U\r\n#EXT-X-VERSION:3");
}

/// Runs one acquisition against a simulated disk, fetching from `remote`;
/// returns the URLs fetched.
fn run_acquisition(
    playlist: &str,
    base: &str,
    dir: &str,
    disk: &mut HashMap<String, Vec<u8>>,
    remote: &HashMap<String, Vec<u8>>,
) -> Vec<String> {
    let mut acq = SegmentAcquisition::new(playlist, base, dir);
    let mut fetched = Vec::new();
    while let Some(path) = acq.pending_path() {
        match acq.step(disk.contains_key(&path)) {
            SegmentStep::Fetch { url, path } => {
                disk.insert(path, remote[&url].clone());
                fetched.push(url);
            }
            SegmentStep::Keep { path: kept } => assert!(disk.contains_key(&kept)),
        }
    }
    assert!(acq.is_done());
    fetched
}

#[test]
fn second_acquisition_fetches_nothing() {
    let base = "https://cdn/transcode/XYZ/720/";
    let mut remote = HashMap::new();
    remote.insert(format!("{}seg0.ts", base), vec![0u8, 1]);
    remote.insert(format!("{}seg1.ts", base), vec![2u8]);
    let playlist = "#EXTINF:1\nseg0.ts\n#EXTINF:1\nseg1.ts\nseg0.ts";
    let mut disk = HashMap::new();
    let first = run_acquisition(playlist, base, "./out/1/720", &mut disk, &remote);
    assert_eq!(first.len(), 2);
    let after_first = disk.clone();
    let second = run_acquisition(playlist, base, "./out/1/720", &mut disk, &remote);
    assert!(second.is_empty());
    assert_eq!(disk, after_first);
}

#[test]
fn acquisition_skips_present_files() {
    let mut acq = SegmentAcquisition::new("a.ts\nb.ts", "https://h/", "d");
    assert_eq!(acq.total(), 2);
    match acq.step(true) {
        SegmentStep::Keep { path } => assert_eq!(path, "d/a.ts"),
        _ => panic!("a present file is kept"),
    }
    match acq.step(false) {
        SegmentStep::Fetch { url, path } => {
            assert_eq!(url, "https://h/b.ts");
            assert_eq!(path, "d/b.ts");
        }
        _ => panic!("a missing file is fetched"),
    }
    assert!(acq.pending_path().is_none());
}

#[test]
fn end_to_end_single_variant() {
    let root = "root";
    let vod = "4242";
    let master = "#EXTM3U\r\n#EXT-X-STREAM-INF:BANDWIDTH=1\r\nhttps://cdn/transcode/XYZ/720/index.m3u8";
    let urls = variant_urls(master);
    assert_eq!(urls.len(), 1);
    let plan = plan_variant(root, vod, &urls[0]).unwrap();
    assert_eq!(plan.quality, "720");
    assert_eq!(plan.dir, "./root/4242/720");
    assert_eq!(plan.playlist_path, "./root/4242/720/index.m3u8");
    assert_eq!(plan.mp4_path, "./root/4242/720.mp4");
    assert_eq!(plan.segment_base, "https://01.cdn.vod.farm/transcode/XYZ/720/");

    let variant_text = "#EXTM3U\n#EXTINF:2\nseg0.ts\n#EXTINF:2\nseg1.ts\n";
    let mut remote = HashMap::new();
    remote.insert(format!("{}seg0.ts", plan.segment_base), vec![7u8]);
    remote.insert(format!("{}seg1.ts", plan.segment_base), vec![8u8]);
    let mut disk: HashMap<String, Vec<u8>> = HashMap::new();
    disk.insert(plan.playlist_path.clone(), variant_text.as_bytes().to_vec());
    let fetched =
        run_acquisition(variant_text, &plan.segment_base, &plan.dir, &mut disk, &remote);
    assert_eq!(fetched.len(), 2);
    assert_eq!(disk["./root/4242/720/seg0.ts"], vec![7u8]);
    assert_eq!(disk["./root/4242/720/seg1.ts"], vec![8u8]);
    assert_eq!(disk["./root/4242/720/index.m3u8"], variant_text.as_bytes());

    let manifest = create_master_playlist(&vec![plan.quality.clone()]);
    assert_eq!(master_playlist_path(root, vod), "./root/4242/index.m3u8");
    assert!(manifest.contains("\r\n720/index.m3u8"));
    assert!(manifest.contains("BANDWIDTH=2600000"));
}

#[test]
fn plan_rejects_short_url() {
    assert!(plan_variant("r", "1", "https://cdn/720").is_none());
}

#[test]
fn names_and_addresses() {
    assert_eq!(video_info_url("77"), "https://api.gronkh.tv/v1/video/info?episode=77");
    assert_eq!(playlist_info_url("77"), "https://api.gronkh.tv/v1/video/playlist?episode=77");
    assert_eq!(segment_base_url("ID", "360"), "https://01.cdn.vod.farm/transcode/ID/360/");
    assert_eq!(vod_dir("gronkhtv", "77"), "./gronkhtv/77");
    assert_eq!(variant_dir("gronkhtv", "77", "360"), "./gronkhtv/77/360");
    assert_eq!(mp4_path("gronkhtv", "77", "360"), "./gronkhtv/77/360.mp4");
    assert_eq!(index_path("./a/b"), "./a/b/index.m3u8");
    assert_eq!(child_path("a", "b"), "a/b");
}

#[test]
fn remux_arguments() {
    assert_eq!(
        remux_args("in.m3u8", "out.mp4"),
        strings(&["-y", "-hide_banner", "-i", "in.m3u8", "-c", "copy", "out.mp4"])
    );
}

#[test]
fn remux_decisions() {
    assert!(matches!(remux_decision(true, true), RemuxDecision::SkipExisting));
    assert!(matches!(remux_decision(true, false), RemuxDecision::SkipExisting));
    assert!(matches!(remux_decision(false, true), RemuxDecision::Run));
    assert!(matches!(remux_decision(false, false), RemuxDecision::SkipNoTool));
}

#[test]
fn progress_lines() {
    assert!(is_progress_line("[hls @ 0x1] Opening 'seg0.ts' for reading"));
    assert!(is_progress_line("Opening"));
    assert!(!is_progress_line("Openin"));
    assert!(!is_progress_line(""));
}

#[test]
fn decimal_rendering() {
    assert_eq!(decimal_text(0), "0");
    assert_eq!(decimal_text(7), "7");
    assert_eq!(decimal_text(6000000), "6000000");
    assert_eq!(decimal_text(u64::MAX), u64::MAX.to_string());
    assert_eq!(signed_decimal_text(-45), "-45");
    assert_eq!(signed_decimal_text(i32::MIN), i32::MIN.to_string());
    assert_eq!(signed_decimal_text(12), "12");
}

#[test]
fn video_summary() {
    let info = VideoInfo {
        title: "Title".to_string(),
        preview_url: String::new(),
        created_at: String::new(),
        episode: 815,
    };
    assert_eq!(info.summary(), "VOD: [815] - \"Title\"");
}

#[test]
fn splitting() {
    assert_eq!(split_text("", "p"), strings(&[""]));
    assert_eq!(split_text("a\r\n", "\r\n"), strings(&["a", ""]));
    assert_eq!(split_text("a\r\r\nb", "\r\n"), strings(&["a\r", "b"]));
    assert_eq!(split_text("https://x/y", "/"), strings(&["https:", "", "x", "y"]));
    assert_eq!(split_text("ünï/cödé", "/"), strings(&["ünï", "cödé"]));
    assert_eq!(chars_of("ab"), vec!['a', 'b']);
}

#[test]
fn prefixes_and_suffixes() {
    assert!(starts_with("https://x", "https"));
    assert!(!starts_with("http", "https"));
    assert!(ends_with("x.ts", ".ts"));
    assert!(!ends_with("x.ts\r", ".ts"));
    assert!(ends_with("", ""));
}

#[test]
fn master_manifest_splits_into_its_lines() {
    let labels = strings(&["1080p60", "720", "odd\r"]);
    let text = create_master_playlist(&labels);
    let lines = split_text(&text, "\r\n");
    assert_eq!(lines.len(), 2 + 2 * labels.len());
    assert_eq!(lines[0], "#EXTM3U");
    assert_eq!(lines[1], "#EXT-X-VERSION:3");
    for (i, label) in labels.iter().enumerate() {
        assert!(lines[2 + 2 * i].starts_with("#EXT-X-STREAM-INF:"));
        assert_eq!(lines[3 + 2 * i], format!("{}/index.m3u8", label));
    }
}
