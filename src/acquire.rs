//! Segment acquisition: which segments of a variant to fetch, one decision at
//! a time. The caller looks at the disk, fetches and writes; this module
//! decides, and a file already on disk is never fetched again.

use vstd::prelude::*;
use crate::playlist::{child_path, segment_files, segment_names, under};
use crate::text::views;

verus! {

/// Where a segment is stored locally.
pub open spec fn segment_path(dir: Seq<char>, file: Seq<char>) -> Seq<char> {
    under(dir, file)
}

/// Where a segment is served from.
pub open spec fn segment_url(base: Seq<char>, file: Seq<char>) -> Seq<char> {
    base + file
}

/// Acquiring the segments `files`, in order, against a disk that maps paths
/// to contents, where fetching a URL yields `remote(url)`: the URLs fetched,
/// in order, and the disk afterwards. A file is fetched only when its path is
/// not on the disk at that moment.
pub open spec fn acquire(
    files: Seq<Seq<char>>,
    base: Seq<char>,
    dir: Seq<char>,
    disk: Map<Seq<char>, Seq<u8>>,
    remote: spec_fn(Seq<char>) -> Seq<u8>,
) -> (Seq<Seq<char>>, Map<Seq<char>, Seq<u8>>)
    decreases files.len(),
{
    if files.len() == 0 {
        (Seq::empty(), disk)
    } else {
        let path = segment_path(dir, files[0]);
        if disk.contains_key(path) {
            acquire(files.skip(1), base, dir, disk, remote)
        } else {
            let url = segment_url(base, files[0]);
            let rest = acquire(files.skip(1), base, dir, disk.insert(path, remote(url)), remote);
            (seq![url] + rest.0, rest.1)
        }
    }
}

proof fn lemma_acquire_keeps(
    files: Seq<Seq<char>>,
    base: Seq<char>,
    dir: Seq<char>,
    disk: Map<Seq<char>, Seq<u8>>,
    remote: spec_fn(Seq<char>) -> Seq<u8>,
)
    ensures
        forall|p: Seq<char>|
            disk.contains_key(p) ==> #[trigger] acquire(files, base, dir, disk, remote).1.contains_key(p),
        forall|i: int|
            0 <= i < files.len() ==> acquire(files, base, dir, disk, remote).1.contains_key(
                #[trigger] segment_path(dir, files[i]),
            ),
    decreases files.len(),
{
    if files.len() > 0 {
        let path = segment_path(dir, files[0]);
        let next = if disk.contains_key(path) {
            disk
        } else {
            disk.insert(path, remote(segment_url(base, files[0])))
        };
        lemma_acquire_keeps(files.skip(1), base, dir, next, remote);
        assert(acquire(files, base, dir, disk, remote).1 == acquire(files.skip(1), base, dir, next, remote).1);
        assert(next.contains_key(path));
        assert forall|i: int| 0 <= i < files.len() implies acquire(files, base, dir, disk, remote).1.contains_key(
            #[trigger] segment_path(dir, files[i]),
        ) by {
            if i > 0 {
                assert(files.skip(1)[i - 1] == files[i]);
            }
        }
    }
}

proof fn lemma_acquire_all_present(
    files: Seq<Seq<char>>,
    base: Seq<char>,
    dir: Seq<char>,
    disk: Map<Seq<char>, Seq<u8>>,
    remote: spec_fn(Seq<char>) -> Seq<u8>,
)
    requires
        forall|i: int| 0 <= i < files.len() ==> disk.contains_key(#[trigger] segment_path(dir, files[i])),
    ensures
        acquire(files, base, dir, disk, remote) == (Seq::<Seq<char>>::empty(), disk),
    decreases files.len(),
{
    if files.len() > 0 {
        assert(disk.contains_key(segment_path(dir, files[0])));
        assert forall|i: int| 0 <= i < files.skip(1).len() implies disk.contains_key(
            #[trigger] segment_path(dir, files.skip(1)[i]),
        ) by {
            assert(files.skip(1)[i] == files[i + 1]);
        }
        lemma_acquire_all_present(files.skip(1), base, dir, disk, remote);
    }
}

/// Acquiring the same segments a second time against the disk that the first
/// run left fetches nothing and leaves the disk as it was.
pub proof fn lemma_acquire_idempotent(
    files: Seq<Seq<char>>,
    base: Seq<char>,
    dir: Seq<char>,
    disk: Map<Seq<char>, Seq<u8>>,
    remote: spec_fn(Seq<char>) -> Seq<u8>,
)
    ensures
        ({
            let first = acquire(files, base, dir, disk, remote);
            let second = acquire(files, base, dir, first.1, remote);
            second.0.len() == 0 && second.1 == first.1
        }),
{
    let first = acquire(files, base, dir, disk, remote);
    lemma_acquire_keeps(files, base, dir, disk, remote);
    lemma_acquire_all_present(files, base, dir, first.1, remote);
}


/// The decision for one segment.
pub enum SegmentStep {
    /// Fetch `url` and store the body at `path`.
    Fetch { url: String, path: String },
    /// The file at `path` is already there.
    Keep { path: String },
}

/// The segments of one variant and how far their acquisition has come.
pub struct SegmentAcquisition {
    /// URL prefix of the segments.
    pub base: String,
    /// Local directory of the segments.
    pub dir: String,
    /// Segment file names, in playlist order.
    pub files: Vec<String>,
    /// Index of the next segment to decide on.
    pub next: usize,
}

impl SegmentAcquisition {
    pub open spec fn wf(&self) -> bool {
        self.next <= self.files.len()
    }

    /// The segment names not yet decided on.
    pub open spec fn rest(&self) -> Seq<Seq<char>> {
        views(self.files@).skip(self.next as int)
    }

    /// Starts the acquisition of the segments that `playlist` names, served
    /// under `base` and stored in `dir`.
    pub fn new(playlist: &str, base: &str, dir: &str) -> (r: SegmentAcquisition)
        ensures
            r.wf(),
            views(r.files@) == segment_names(playlist@),
            r.base@ == base@,
            r.dir@ == dir@,
            r.next == 0,
    {
        SegmentAcquisition {
            base: base.to_owned(),
            dir: dir.to_owned(),
            files: segment_files(playlist),
            next: 0,
        }
    }

    /// The number of segments.
    pub fn total(&self) -> (r: usize)
        ensures
            r == self.files.len(),
    {
        self.files.len()
    }

    /// Whether every segment has been decided on.
    pub fn is_done(&self) -> (r: bool)
        requires
            self.wf(),
        ensures
            r == (self.next == self.files.len()),
    {
        self.next == self.files.len()
    }

    /// The local path of the next segment, if any is left.
    pub fn pending_path(&self) -> (r: Option<String>)
        requires
            self.wf(),
        ensures
            r is Some <==> self.next < self.files.len(),
            r matches Some(p) ==> p@ == segment_path(self.dir@, self.files@[self.next as int]@),
    {
        if self.next < self.files.len() {
            Some(child_path(self.dir.as_str(), self.files[self.next].as_str()))
        } else {
            None
        }
    }

    /// Decides on the next segment, `present` telling whether its file is
    /// already on disk: kept if so, fetched otherwise. This is the first step
    /// of [`acquire`] on the remaining segments, for any disk that agrees
    /// with `present`.
    pub fn step(&mut self, present: bool) -> (r: SegmentStep)
        requires
            old(self).wf(),
            old(self).next < old(self).files.len(),
        ensures
            final(self).wf(),
            final(self).next == old(self).next + 1,
            final(self).files == old(self).files,
            final(self).base == old(self).base,
            final(self).dir == old(self).dir,
            ({
                let file = old(self).files@[old(self).next as int]@;
                let path = segment_path(old(self).dir@, file);
                match r {
                    SegmentStep::Fetch { url, path: p } => !present && url@ == segment_url(
                        old(self).base@,
                        file,
                    ) && p@ == path,
                    SegmentStep::Keep { path: p } => present && p@ == path,
                }
            }),
            forall|disk: Map<Seq<char>, Seq<u8>>, remote: spec_fn(Seq<char>) -> Seq<u8>|
                disk.contains_key(segment_path(old(self).dir@, old(self).files@[old(self).next as int]@))
                    == present ==> #[trigger] acquire(old(self).rest(), old(self).base@, old(self).dir@, disk, remote)
                    == match r {
                    SegmentStep::Fetch { url, path } => {
                        let after = acquire(
                            final(self).rest(),
                            old(self).base@,
                            old(self).dir@,
                            disk.insert(path@, remote(url@)),
                            remote,
                        );
                        (seq![url@] + after.0, after.1)
                    },
                    SegmentStep::Keep { .. } => acquire(final(self).rest(), old(self).base@, old(self).dir@, disk, remote),
                },
    {
        let file: &str = self.files[self.next].as_str();
        let path = child_path(self.dir.as_str(), file);
        let r = if present {
            SegmentStep::Keep { path }
        } else {
            let mut url = self.base.clone();
            url.append(file);
            SegmentStep::Fetch { url, path }
        };
        proof {
            let rest = views(self.files@).skip(self.next as int);
            assert(rest.skip(1) =~= views(self.files@).skip(self.next + 1));
            assert(rest[0] == self.files@[self.next as int]@);
        }
        self.next = self.next + 1;
        r
    }
}

} // verus!
