//! The stream attributes announced for a quality label such as `1080p60`.

use vstd::prelude::*;
use vstd::string::*;
use crate::text::chars_of;

verus! {

/// The position of the first `p` in a quality label, or its length if it
/// has none.
pub open spec fn first_p(label: Seq<char>) -> int
    decreases label.len(),
{
    if label.len() == 0 {
        0
    } else if label[0] == 'p' {
        0
    } else {
        1 + first_p(label.skip(1))
    }
}

/// `i` is the position of the first `p` of `label` (its length if none).
pub proof fn lemma_first_p(label: Seq<char>, i: int)
    requires
        0 <= i <= label.len(),
        forall|j: int| 0 <= j < i ==> label[j] != 'p',
        i < label.len() ==> label[i] == 'p',
    ensures
        first_p(label) == i,
    decreases i,
{
    if i > 0 {
        assert forall|j: int| 0 <= j < i - 1 implies label.skip(1)[j] != 'p' by {
            assert(label.skip(1)[j] == label[j + 1]);
        }
        lemma_first_p(label.skip(1), i - 1);
    }
}

/// The quality tier: what precedes the first `p` (the whole label if none).
pub open spec fn quality_of(label: Seq<char>) -> Seq<char> {
    label.take(first_p(label))
}

/// The label names a framerate: it holds a `p`.
pub open spec fn has_framerate(label: Seq<char>) -> bool {
    first_p(label) < label.len()
}

/// What follows the first `p`, or `30` when there is none.
pub open spec fn framerate_of(label: Seq<char>) -> Seq<char> {
    if has_framerate(label) {
        label.skip(first_p(label) + 1)
    } else {
        "30"@
    }
}

/// Estimated bits per second for a quality tier.
pub open spec fn tier_bandwidth(quality: Seq<char>) -> u64 {
    if quality == "1080"@ {
        6000000
    } else if quality == "720"@ {
        2600000
    } else {
        1000000
    }
}

/// Frame size (`WIDTHxHEIGHT`) announced for a quality tier.
pub open spec fn tier_resolution(quality: Seq<char>) -> Seq<char> {
    if quality == "1080"@ {
        "1920x1080"@
    } else if quality == "720"@ {
        "1080x720"@
    } else {
        "640x360"@
    }
}

/// The label itself when it names a framerate, else the tier followed by `p`.
pub open spec fn display_name(label: Seq<char>) -> Seq<char> {
    if has_framerate(label) {
        label
    } else {
        quality_of(label) + "p"@
    }
}

/// The attributes of one entry of a master manifest.
pub struct PlaylistVariant {
    pub bandwidth: u64,
    pub framerate: String,
    pub name: String,
    pub resolution: String,
}

/// Describes the variant with quality label `variant`, split at its first
/// `p` into tier and framerate. Any label is accepted: one of an unknown tier
/// gets the lowest tier's attributes.
pub fn get_playlist_variant(variant: &str) -> (r: PlaylistVariant)
    ensures
        r.bandwidth == tier_bandwidth(quality_of(variant@)),
        r.resolution@ == tier_resolution(quality_of(variant@)),
        r.framerate@ == framerate_of(variant@),
        r.name@ == display_name(variant@),
        has_framerate(variant@) ==> r.name@ == variant@,
        !has_framerate(variant@) ==> r.framerate@ == "30"@ && r.name@ == quality_of(variant@) + "p"@,
{
    let cs = chars_of(variant);
    let mut i: usize = 0;
    while i < cs.len() && cs[i] != 'p'
        invariant
            i <= cs.len(),
            cs@ == variant@,
            forall|j: int| 0 <= j < i ==> cs@[j] != 'p',
        decreases cs.len() - i,
    {
        i = i + 1;
    }
    proof {
        lemma_first_p(variant@, i as int);
    }
    let quality: String = variant.substring_char(0, i).to_owned();
    assert(quality@ =~= quality_of(variant@));
    let explicit = i < cs.len();
    let framerate: String = if explicit {
        let f = variant.substring_char(i + 1, cs.len()).to_owned();
        assert(f@ =~= framerate_of(variant@));
        f
    } else {
        "30".to_owned()
    };
    let tier_1080 = "1080".to_owned();
    let tier_720 = "720".to_owned();
    let bandwidth: u64 = if quality == tier_1080 {
        6000000
    } else if quality == tier_720 {
        2600000
    } else {
        1000000
    };
    let resolution: String = if quality == tier_1080 {
        "1920x1080".to_owned()
    } else if quality == tier_720 {
        "1080x720".to_owned()
    } else {
        "640x360".to_owned()
    };
    let name: String = if explicit {
        variant.to_owned()
    } else {
        let mut n = quality.clone();
        n.append("p");
        n
    };
    PlaylistVariant { bandwidth, framerate, name, resolution }
}

} // verus!
