//! Reading and writing playlist text, and the names of what is fetched and
//! stored for a video.

use vstd::prelude::*;
use crate::text::{
    decimal, decimal_text, ends_with, has_prefix, has_suffix, lacks, lemma_split_at_sep,
    lemma_split_nonempty, lemma_split_prefix, occurs_at, split_by, split_text, starts_with, views,
};
use crate::variant::{
    display_name, first_p, framerate_of, get_playlist_variant, has_framerate, quality_of,
    tier_bandwidth, tier_resolution,
};

verus! {

/// A line of a variant playlist that names a media segment.
pub open spec fn is_segment_line(line: Seq<char>) -> bool {
    has_suffix(line, ".ts"@)
}

/// A line of a master playlist that names a variant playlist.
pub open spec fn is_variant_line(line: Seq<char>) -> bool {
    has_prefix(line, "https"@)
}

/// The segment file names of a variant playlist, in order.
pub open spec fn segment_names(playlist: Seq<char>) -> Seq<Seq<char>> {
    split_by(playlist, "\n"@).filter(|l: Seq<char>| is_segment_line(l))
}

/// The variant playlist URLs of a master playlist, in order.
pub open spec fn variant_url_lines(master: Seq<char>) -> Seq<Seq<char>> {
    split_by(master, "\r\n"@).filter(|l: Seq<char>| is_variant_line(l))
}

/// Every line of `playlist` (split at `\n`) that ends in `.ts`, in order,
/// repeats included.
pub fn segment_files(playlist: &str) -> (r: Vec<String>)
    ensures
        views(r@) == segment_names(playlist@),
{
    proof {
        reveal_strlit("\n");
    }
    let lines = split_text(playlist, "\n");
    let ghost all = split_by(playlist@, "\n"@);
    let mut out: Vec<String> = Vec::new();
    let mut k: usize = 0;
    while k < lines.len()
        invariant
            k <= lines.len(),
            views(lines@) == all,
            views(out@) == all.take(k as int).filter(|l: Seq<char>| is_segment_line(l)),
        decreases lines.len() - k,
    {
        let keep = ends_with(lines[k].as_str(), ".ts");
        let ghost prev = out@;
        proof {
            reveal(Seq::filter);
            assert(lines@[k as int]@ == views(lines@)[k as int]);
            assert(all.take(k + 1).drop_last() =~= all.take(k as int));
            assert(all.take(k + 1).last() == all[k as int]);
            assert(keep == is_segment_line(all[k as int]));
            assert(all.take(k + 1).filter(|l: Seq<char>| is_segment_line(l)) == if is_segment_line(all[k as int]) {
                all.take(k as int).filter(|l: Seq<char>| is_segment_line(l)).push(all[k as int])
            } else {
                all.take(k as int).filter(|l: Seq<char>| is_segment_line(l))
            });
        }
        if keep {
            out.push(lines[k].clone());
            assert(views(out@) =~= views(prev).push(all[k as int]));
        }
        k = k + 1;
    }
    assert(all.take(k as int) =~= all);
    out
}

/// Every line of `master` (split at CR LF) that starts with `https`, in
/// order.
pub fn variant_urls(master: &str) -> (r: Vec<String>)
    ensures
        views(r@) == variant_url_lines(master@),
{
    proof {
        reveal_strlit("\r\n");
    }
    let lines = split_text(master, "\r\n");
    let ghost all = split_by(master@, "\r\n"@);
    let mut out: Vec<String> = Vec::new();
    let mut k: usize = 0;
    while k < lines.len()
        invariant
            k <= lines.len(),
            views(lines@) == all,
            views(out@) == all.take(k as int).filter(|l: Seq<char>| is_variant_line(l)),
        decreases lines.len() - k,
    {
        let keep = starts_with(lines[k].as_str(), "https");
        let ghost prev = out@;
        proof {
            reveal(Seq::filter);
            assert(lines@[k as int]@ == views(lines@)[k as int]);
            assert(all.take(k + 1).drop_last() =~= all.take(k as int));
            assert(all.take(k + 1).last() == all[k as int]);
            assert(keep == is_variant_line(all[k as int]));
            assert(all.take(k + 1).filter(|l: Seq<char>| is_variant_line(l)) == if is_variant_line(all[k as int]) {
                all.take(k as int).filter(|l: Seq<char>| is_variant_line(l)).push(all[k as int])
            } else {
                all.take(k as int).filter(|l: Seq<char>| is_variant_line(l))
            });
        }
        if keep {
            out.push(lines[k].clone());
            assert(views(out@) =~= views(prev).push(all[k as int]));
        }
        k = k + 1;
    }
    assert(all.take(k as int) =~= all);
    out
}


/// The pieces of a URL between slashes.
pub open spec fn url_parts(url: Seq<char>) -> Seq<Seq<char>> {
    split_by(url, "/"@)
}

/// The quality label and the stream identifier that a variant playlist URL
/// holds in its sixth and fifth slash-separated pieces
/// (`https://host/transcode/ID/QUALITY/...`). `None` when it has fewer than
/// six pieces.
pub fn variant_location(url: &str) -> (r: Option<(String, String)>)
    ensures
        r is Some <==> url_parts(url@).len() >= 6,
        r matches Some((quality, id)) ==> quality@ == url_parts(url@)[5] && id@
            == url_parts(url@)[4],
{
    proof {
        reveal_strlit("/");
    }
    let parts = split_text(url, "/");
    if parts.len() < 6 {
        return None;
    }
    proof {
        assert(parts@[5]@ == views(parts@)[5]);
        assert(parts@[4]@ == views(parts@)[4]);
    }
    Some((parts[5].clone(), parts[4].clone()))
}

/// The URL prefix under which the segments of one variant are served.
pub open spec fn segment_base(id: Seq<char>, quality: Seq<char>) -> Seq<char> {
    "https://01.cdn.vod.farm/transcode/"@ + id + "/"@ + quality + "/"@
}

pub fn segment_base_url(id: &str, quality: &str) -> (r: String)
    ensures
        r@ == segment_base(id@, quality@),
{
    let mut r = "https://01.cdn.vod.farm/transcode/".to_owned();
    r.append(id);
    r.append("/");
    r.append(quality);
    r.append("/");
    assert(r@ =~= segment_base(id@, quality@));
    r
}

/// The address of the metadata of a video.
pub open spec fn video_info_address(vod_id: Seq<char>) -> Seq<char> {
    "https://api.gronkh.tv/v1/video/info?episode="@ + vod_id
}

/// The address that answers with a video's master playlist URL.
pub open spec fn playlist_info_address(vod_id: Seq<char>) -> Seq<char> {
    "https://api.gronkh.tv/v1/video/playlist?episode="@ + vod_id
}

pub fn video_info_url(vod_id: &str) -> (r: String)
    ensures
        r@ == video_info_address(vod_id@),
{
    let mut r = "https://api.gronkh.tv/v1/video/info?episode=".to_owned();
    r.append(vod_id);
    r
}

pub fn playlist_info_url(vod_id: &str) -> (r: String)
    ensures
        r@ == playlist_info_address(vod_id@),
{
    let mut r = "https://api.gronkh.tv/v1/video/playlist?episode=".to_owned();
    r.append(vod_id);
    r
}

/// `a`, a slash, then `b`.
pub open spec fn under(a: Seq<char>, b: Seq<char>) -> Seq<char> {
    a + "/"@ + b
}

/// The local directory of a video: `./ROOT/VOD`.
pub open spec fn vod_directory(root: Seq<char>, vod_id: Seq<char>) -> Seq<char> {
    under("."@ + "/"@ + root, vod_id)
}

/// Joins `name` under `dir` with a slash.
pub fn child_path(dir: &str, name: &str) -> (r: String)
    ensures
        r@ == under(dir@, name@),
{
    let mut r = dir.to_owned();
    r.append("/");
    r.append(name);
    r
}

pub fn vod_dir(root: &str, vod_id: &str) -> (r: String)
    ensures
        r@ == vod_directory(root@, vod_id@),
{
    let mut r = "./".to_owned();
    r.append(root);
    let r2 = child_path(r.as_str(), vod_id);
    proof {
        reveal_strlit("./");
        reveal_strlit(".");
        reveal_strlit("/");
        assert("./"@ =~= "."@ + "/"@);
    }
    r2
}

/// The local directory of one variant: `./ROOT/VOD/QUALITY`.
pub fn variant_dir(root: &str, vod_id: &str, quality: &str) -> (r: String)
    ensures
        r@ == under(vod_directory(root@, vod_id@), quality@),
{
    let d = vod_dir(root, vod_id);
    child_path(d.as_str(), quality)
}

/// Where the single-file copy of one variant goes: `./ROOT/VOD/QUALITY.mp4`.
pub fn mp4_path(root: &str, vod_id: &str, quality: &str) -> (r: String)
    ensures
        r@ == under(vod_directory(root@, vod_id@), quality@ + ".mp4"@),
{
    let d = vod_dir(root, vod_id);
    let mut name = quality.to_owned();
    name.append(".mp4");
    child_path(d.as_str(), name.as_str())
}

/// The playlist file of a directory: `DIR/index.m3u8`.
pub fn index_path(dir: &str) -> (r: String)
    ensures
        r@ == under(dir@, "index.m3u8"@),
{
    child_path(dir, "index.m3u8")
}

/// The arguments that remux the playlist at `input` into the file `output`
/// without re-encoding.
pub fn remux_args(input: &str, output: &str) -> (r: Vec<String>)
    ensures
        views(r@) == seq!["-y"@, "-hide_banner"@, "-i"@, input@, "-c"@, "copy"@, output@],
{
    let mut r: Vec<String> = Vec::new();
    r.push("-y".to_owned());
    r.push("-hide_banner".to_owned());
    r.push("-i".to_owned());
    r.push(input.to_owned());
    r.push("-c".to_owned());
    r.push("copy".to_owned());
    r.push(output.to_owned());
    assert(views(r@) =~= seq!["-y"@, "-hide_banner"@, "-i"@, input@, "-c"@, "copy"@, output@]);
    r
}


/// The `#EXT-X-STREAM-INF` line that announces the variant `label`.
pub open spec fn stream_inf_line(label: Seq<char>) -> Seq<char> {
    "#EXT-X-STREAM-INF:BANDWIDTH="@ + decimal(tier_bandwidth(quality_of(label)) as nat)
        + ",RESOLUTION="@ + tier_resolution(quality_of(label)) + ",FRAMERATE="@
        + framerate_of(label) + ",CODECS=\"avc1.4D402A,mp4a.40.2\",NAME=\""@ + display_name(label)
        + "\""@
}

/// The relative location of the playlist of the variant `label`.
pub open spec fn entry_line(label: Seq<char>) -> Seq<char> {
    label + "/index.m3u8"@
}

/// The lines of the master manifest for the variants `labels`: a header of
/// two lines, then two lines per variant, in order.
pub open spec fn master_lines(labels: Seq<Seq<char>>) -> Seq<Seq<char>>
    decreases labels.len(),
{
    if labels.len() == 0 {
        seq!["#EXTM3U"@, "#EXT-X-VERSION:3"@]
    } else {
        master_lines(labels.drop_last()) + seq![
            stream_inf_line(labels.last()),
            entry_line(labels.last()),
        ]
    }
}

/// `lines` joined by `sep` (nothing between a single line, and nothing for
/// none).
pub open spec fn join_lines(lines: Seq<Seq<char>>, sep: Seq<char>) -> Seq<char>
    decreases lines.len(),
{
    if lines.len() == 0 {
        Seq::empty()
    } else if lines.len() == 1 {
        lines[0]
    } else {
        join_lines(lines.drop_last(), sep) + sep + lines.last()
    }
}

/// The text of the master manifest for the variants `labels`.
pub open spec fn master_text(labels: Seq<Seq<char>>) -> Seq<char> {
    join_lines(master_lines(labels), "\r\n"@)
}

pub proof fn lemma_master_lines_len(labels: Seq<Seq<char>>)
    ensures
        master_lines(labels).len() == 2 + 2 * labels.len(),
    decreases labels.len(),
{
    if labels.len() > 0 {
        lemma_master_lines_len(labels.drop_last());
    }
}

/// Synthesizes the master manifest that lists the variants `variants`, in
/// order, with lines joined by CR LF.
pub fn create_master_playlist(variants: &Vec<String>) -> (r: String)
    ensures
        r@ == master_text(views(variants@)),
{
    let ghost labels = views(variants@);
    let mut out = "#EXTM3U".to_owned();
    out.append("\r\n");
    out.append("#EXT-X-VERSION:3");
    proof {
        assert(labels.take(0) =~= Seq::<Seq<char>>::empty());
        let two = seq!["#EXTM3U"@, "#EXT-X-VERSION:3"@];
        assert(two.drop_last() =~= seq!["#EXTM3U"@]);
        assert(join_lines(seq!["#EXTM3U"@], "\r\n"@) == "#EXTM3U"@);
        assert(master_lines(labels.take(0)) == two);
        assert(join_lines(two, "\r\n"@) == "#EXTM3U"@ + "\r\n"@ + "#EXT-X-VERSION:3"@);
        assert(out@ =~= master_text(labels.take(0)));
    }
    let mut k: usize = 0;
    while k < variants.len()
        invariant
            k <= variants.len(),
            labels == views(variants@),
            out@ == master_text(labels.take(k as int)),
        decreases variants.len() - k,
    {
        let label: &str = variants[k].as_str();
        let details = get_playlist_variant(label);
        let ghost before = out@;
        out.append("\r\n");
        out.append("#EXT-X-STREAM-INF:BANDWIDTH=");
        let bw = decimal_text(details.bandwidth);
        out.append(bw.as_str());
        out.append(",RESOLUTION=");
        out.append(details.resolution.as_str());
        out.append(",FRAMERATE=");
        out.append(details.framerate.as_str());
        out.append(",CODECS=\"avc1.4D402A,mp4a.40.2\",NAME=\"");
        out.append(details.name.as_str());
        out.append("\"");
        let ghost mid = out@;
        out.append("\r\n");
        out.append(label);
        out.append("/index.m3u8");
        proof {
            let l = labels[k as int];
            assert(label@ == l);
            let prev = labels.take(k as int);
            let cur = labels.take(k + 1);
            assert(cur.drop_last() =~= prev);
            assert(cur.last() == l);
            lemma_master_lines_len(prev);
            let ml = master_lines(prev);
            let ml1 = ml + seq![stream_inf_line(l)];
            let ml2 = ml1 + seq![entry_line(l)];
            assert(master_lines(cur) =~= ml2);
            assert(ml2.drop_last() =~= ml1);
            assert(ml1.drop_last() =~= ml);
            assert(join_lines(ml1, "\r\n"@) == join_lines(ml, "\r\n"@) + "\r\n"@ + stream_inf_line(l));
            assert(join_lines(ml2, "\r\n"@) == join_lines(ml1, "\r\n"@) + "\r\n"@ + entry_line(l));
            assert(mid =~= before + "\r\n"@ + stream_inf_line(l));
            assert(out@ =~= mid + "\r\n"@ + entry_line(l));
        }
        k = k + 1;
    }
    proof {
        assert(labels.take(k as int) =~= labels);
    }
    out
}


spec fn crlf() -> Seq<char> {
    seq!['\r', '\n']
}

spec fn no_cr(s: Seq<char>) -> bool {
    forall|i: int| 0 <= i < s.len() ==> s[i] != '\r'
}

proof fn lemma_crlf()
    ensures
        "\r\n"@ == crlf(),
{
    reveal_strlit("\r\n");
    assert("\r\n"@ =~= crlf());
}

proof fn lemma_no_cr_lacks(s: Seq<char>)
    requires
        no_cr(s),
    ensures
        lacks(s, crlf()),
{
    assert forall|i: int| !#[trigger] occurs_at(s, crlf(), i) by {
        if occurs_at(s, crlf(), i) {
            assert(s.subrange(i, i + 2)[0] == '\r');
        }
    }
}

/// Text without CR LF stays so when it is cut.
proof fn lemma_lacks_cut(s: Seq<char>, from: int, to: int)
    requires
        lacks(s, crlf()),
        0 <= from <= to <= s.len(),
    ensures
        lacks(s.subrange(from, to), crlf()),
{
    let c = s.subrange(from, to);
    assert forall|i: int| !#[trigger] occurs_at(c, crlf(), i) by {
        if occurs_at(c, crlf(), i) {
            assert(c.subrange(i, i + 2) =~= s.subrange(from + i, from + i + 2));
            assert(occurs_at(s, crlf(), from + i));
        }
    }
}

/// Two texts without CR LF, joined where no CR meets an LF, have none.
proof fn lemma_lacks_concat(a: Seq<char>, b: Seq<char>)
    requires
        lacks(a, crlf()),
        lacks(b, crlf()),
        a.len() == 0 || b.len() == 0 || a.last() != '\r' || b[0] != '\n',
    ensures
        lacks(a + b, crlf()),
{
    let s = a + b;
    assert forall|i: int| !#[trigger] occurs_at(s, crlf(), i) by {
        if occurs_at(s, crlf(), i) {
            let w = s.subrange(i, i + 2);
            assert(w[0] == '\r' && w[1] == '\n');
            if i + 2 <= a.len() {
                assert(a.subrange(i, i + 2) =~= w);
                assert(occurs_at(a, crlf(), i));
            } else if i >= a.len() {
                assert(b.subrange(i - a.len(), i - a.len() + 2) =~= w);
                assert(occurs_at(b, crlf(), i - a.len()));
            } else {
                assert(a.last() == s[i]);
                assert(b[0] == s[i + 1]);
            }
        }
    }
}

proof fn lemma_decimal_no_cr(n: nat)
    ensures
        no_cr(decimal(n)),
    decreases n,
{
    if n >= 10 {
        lemma_decimal_no_cr(n / 10);
    }
}

proof fn lemma_literals_no_cr()
    ensures
        no_cr("#EXTM3U"@),
        no_cr("#EXT-X-VERSION:3"@),
        no_cr("#EXT-X-STREAM-INF:BANDWIDTH="@),
        no_cr(",RESOLUTION="@),
        no_cr(",FRAMERATE="@),
        no_cr(",CODECS=\"avc1.4D402A,mp4a.40.2\",NAME=\""@),
        no_cr("\""@),
        no_cr("/index.m3u8"@),
        no_cr("1920x1080"@),
        no_cr("1080x720"@),
        no_cr("640x360"@),
        no_cr("30"@),
        no_cr("p"@),
        ",RESOLUTION="@[0] == ',',
        ",FRAMERATE="@[0] == ',',
        ",CODECS=\"avc1.4D402A,mp4a.40.2\",NAME=\""@[0] == ',',
        "\""@[0] == '"',
        "/index.m3u8"@[0] == '/',
        "p"@[0] == 'p',
        ",CODECS=\"avc1.4D402A,mp4a.40.2\",NAME=\""@.len() > 0,
{
    reveal_strlit("#EXTM3U");
    reveal_strlit("#EXT-X-VERSION:3");
    reveal_strlit("#EXT-X-STREAM-INF:BANDWIDTH=");
    reveal_strlit(",RESOLUTION=");
    reveal_strlit(",FRAMERATE=");
    reveal_strlit(",CODECS=\"avc1.4D402A,mp4a.40.2\",NAME=\"");
    reveal_strlit("\"");
    reveal_strlit("/index.m3u8");
    reveal_strlit("1920x1080");
    reveal_strlit("1080x720");
    reveal_strlit("640x360");
    reveal_strlit("30");
    reveal_strlit("p");
}


proof fn lemma_no_cr_concat(a: Seq<char>, b: Seq<char>)
    requires
        no_cr(a),
        no_cr(b),
    ensures
        no_cr(a + b),
{
    assert forall|i: int| 0 <= i < (a + b).len() implies (a + b)[i] != '\r' by {
        if i >= a.len() {
            assert((a + b)[i] == b[i - a.len()]);
        }
    }
}

proof fn lemma_first_p_bounds(label: Seq<char>)
    ensures
        0 <= first_p(label) <= label.len(),
    decreases label.len(),
{
    if label.len() > 0 && label[0] != 'p' {
        lemma_first_p_bounds(label.skip(1));
    }
}

/// The lines announcing a variant whose label has no CR LF have none.
proof fn lemma_variant_lines_lack(label: Seq<char>)
    requires
        lacks(label, crlf()),
    ensures
        lacks(stream_inf_line(label), crlf()),
        lacks(entry_line(label), crlf()),
{
    lemma_literals_no_cr();
    lemma_first_p_bounds(label);
    let q = quality_of(label);
    let l1 = "#EXT-X-STREAM-INF:BANDWIDTH="@;
    let d = decimal(tier_bandwidth(q) as nat);
    let l2 = ",RESOLUTION="@;
    let r = tier_resolution(q);
    let l3 = ",FRAMERATE="@;
    let f = framerate_of(label);
    let l4 = ",CODECS=\"avc1.4D402A,mp4a.40.2\",NAME=\""@;
    let n = display_name(label);
    let qt = "\""@;
    lemma_decimal_no_cr(tier_bandwidth(q) as nat);
    let p5 = l1 + d + l2 + r + l3;
    lemma_no_cr_concat(l1, d);
    lemma_no_cr_concat(l1 + d, l2);
    lemma_no_cr_concat(l1 + d + l2, r);
    lemma_no_cr_concat(l1 + d + l2 + r, l3);
    lemma_no_cr_lacks(p5);
    if has_framerate(label) {
        lemma_lacks_cut(label, first_p(label) + 1, label.len() as int);
        assert(label.subrange(first_p(label) + 1, label.len() as int) =~= f);
    } else {
        lemma_no_cr_lacks("30"@);
    }
    lemma_lacks_concat(p5, f);
    lemma_no_cr_lacks(l4);
    lemma_lacks_concat(p5 + f, l4);
    if has_framerate(label) {
    } else {
        lemma_lacks_cut(label, 0, first_p(label));
        assert(label.subrange(0, first_p(label)) =~= q);
        lemma_no_cr_lacks("p"@);
        lemma_lacks_concat(q, "p"@);
    }
    assert((p5 + f + l4).last() == l4.last());
    lemma_lacks_concat(p5 + f + l4, n);
    lemma_no_cr_lacks(qt);
    lemma_lacks_concat(p5 + f + l4 + n, qt);
    assert(stream_inf_line(label) =~= p5 + f + l4 + n + qt);
    lemma_no_cr_lacks("/index.m3u8"@);
    lemma_lacks_concat(label, "/index.m3u8"@);
}

proof fn lemma_master_lines_lack(labels: Seq<Seq<char>>)
    requires
        forall|k: int| 0 <= k < labels.len() ==> lacks(#[trigger] labels[k], crlf()),
    ensures
        forall|k: int|
            0 <= k < master_lines(labels).len() ==> lacks(#[trigger] master_lines(labels)[k], crlf()),
    decreases labels.len(),
{
    lemma_literals_no_cr();
    if labels.len() == 0 {
        lemma_no_cr_lacks("#EXTM3U"@);
        lemma_no_cr_lacks("#EXT-X-VERSION:3"@);
    } else {
        let init = labels.drop_last();
        assert forall|k: int| 0 <= k < init.len() implies lacks(#[trigger] init[k], crlf()) by {
            assert(init[k] == labels[k]);
        }
        lemma_master_lines_lack(init);
        lemma_variant_lines_lack(labels.last());
        let ml = master_lines(init);
        assert forall|k: int| 0 <= k < master_lines(labels).len() implies lacks(
            #[trigger] master_lines(labels)[k],
            crlf(),
        ) by {
            if k < ml.len() {
                assert(master_lines(labels)[k] == ml[k]);
            }
        }
    }
}

/// Joining two or more lines is the first line, the separator, then the rest
/// joined.
proof fn lemma_join_front(lines: Seq<Seq<char>>, sep: Seq<char>)
    requires
        lines.len() >= 2,
    ensures
        join_lines(lines, sep) == lines[0] + sep + join_lines(lines.skip(1), sep),
    decreases lines.len(),
{
    let rest = lines.skip(1);
    let dl = lines.drop_last();
    if lines.len() == 2 {
        assert(join_lines(dl, sep) == dl[0]);
        assert(join_lines(rest, sep) == rest[0]);
        assert(join_lines(lines, sep) == join_lines(dl, sep) + sep + lines.last());
    } else {
        lemma_join_front(dl, sep);
        assert(dl.skip(1) =~= rest.drop_last());
        assert(rest.last() == lines.last());
        let j = join_lines(dl.skip(1), sep);
        assert(join_lines(rest, sep) == j + sep + lines.last());
        assert(join_lines(lines, sep) == join_lines(dl, sep) + sep + lines.last());
        assert(dl[0] + sep + j + sep + lines.last() =~= lines[0] + sep + (j + sep + lines.last()));
    }
}

/// Splitting lines without CR LF, joined by CR LF, gives them back.
proof fn lemma_split_join(lines: Seq<Seq<char>>)
    requires
        lines.len() >= 1,
        forall|k: int| 0 <= k < lines.len() ==> lacks(#[trigger] lines[k], crlf()),
    ensures
        split_by(join_lines(lines, crlf()), crlf()) == lines,
    decreases lines.len(),
{
    let a = lines[0];
    assert(lacks(a, crlf()));
    if lines.len() == 1 {
        let e = Seq::<char>::empty();
        assert forall|i: int| 0 <= i < a.len() implies !#[trigger] occurs_at(a + e, crlf(), i) by {
            assert(a + e =~= a);
        }
        lemma_split_prefix(a, e, crlf());
        assert(a + e =~= a);
        assert(split_by(e, crlf()) =~= seq![e]);
        assert(a + e =~= a);
        assert(seq![e].update(0, a) =~= lines);
    } else {
        let rest = lines.skip(1);
        assert forall|k: int| 0 <= k < rest.len() implies lacks(#[trigger] rest[k], crlf()) by {
            assert(rest[k] == lines[k + 1]);
        }
        lemma_split_join(rest);
        lemma_join_front(lines, crlf());
        let b = join_lines(rest, crlf());
        let t = crlf() + b;
        assert forall|i: int| 0 <= i < a.len() implies !#[trigger] occurs_at(a + t, crlf(), i) by {
            if i + 2 <= a.len() {
                assert((a + t).subrange(i, i + 2) =~= a.subrange(i, i + 2));
                assert(!occurs_at(a, crlf(), i));
            } else {
                assert((a + t)[i + 1] == '\r');
                assert((a + t).subrange(i, i + 2)[1] == '\r');
            }
        }
        lemma_split_prefix(a, t, crlf());
        lemma_split_at_sep(b, crlf());
        lemma_split_nonempty(b, crlf());
        assert(a + t =~= a + crlf() + b);
        assert(a + Seq::<char>::empty() =~= a);
        assert((seq![Seq::<char>::empty()] + split_by(b, crlf())).update(0, a) =~= seq![a] + rest);
        assert(seq![a] + rest =~= lines);
    }
}

proof fn lemma_master_lines_index(labels: Seq<Seq<char>>)
    ensures
        master_lines(labels)[0] == "#EXTM3U"@,
        master_lines(labels)[1] == "#EXT-X-VERSION:3"@,
        forall|i: int|
            0 <= i < labels.len() ==> master_lines(labels)[2 + 2 * i] == stream_inf_line(
                #[trigger] labels[i],
            ) && master_lines(labels)[3 + 2 * i] == entry_line(labels[i]),
    decreases labels.len(),
{
    lemma_master_lines_len(labels);
    if labels.len() > 0 {
        let init = labels.drop_last();
        lemma_master_lines_index(init);
        lemma_master_lines_len(init);
        assert forall|i: int| 0 <= i < labels.len() implies master_lines(labels)[2 + 2 * i]
            == stream_inf_line(#[trigger] labels[i]) && master_lines(labels)[3 + 2 * i] == entry_line(
            labels[i],
        ) by {
            if i < init.len() {
                assert(init[i] == labels[i]);
            }
        }
    }
}

/// Splitting the master manifest at CR LF gives back its lines: the two
/// header lines, then for each variant, in input order, its
/// `#EXT-X-STREAM-INF` line and its `LABEL/index.m3u8` line, with nothing
/// after the last. This holds whenever no label contains CR LF.
pub proof fn lemma_master_text_lines(labels: Seq<Seq<char>>)
    requires
        forall|k: int| 0 <= k < labels.len() ==> lacks(#[trigger] labels[k], "\r\n"@),
    ensures
        split_by(master_text(labels), "\r\n"@) == master_lines(labels),
        master_lines(labels).len() == 2 + 2 * labels.len(),
        master_lines(labels)[0] == "#EXTM3U"@,
        master_lines(labels)[1] == "#EXT-X-VERSION:3"@,
        forall|i: int|
            0 <= i < labels.len() ==> master_lines(labels)[2 + 2 * i] == stream_inf_line(
                #[trigger] labels[i],
            ) && master_lines(labels)[3 + 2 * i] == entry_line(labels[i]),
{
    lemma_crlf();
    lemma_master_lines_len(labels);
    lemma_master_lines_lack(labels);
    lemma_split_join(master_lines(labels));
    lemma_master_lines_index(labels);
}

} // verus!
