//! Turning a variant's local playlist into one file: what to run, whether to
//! run it, and which lines of the tool's output mark progress.

use vstd::prelude::*;
use crate::text::{chars_of, occurs_at, occurs_at_exec};

verus! {

/// What becomes of the single-file copy of a variant.
pub enum RemuxDecision {
    /// Run the remuxer.
    Run,
    /// The output file exists already.
    SkipExisting,
    /// No remuxer is available.
    SkipNoTool,
}

/// An existing output is never redone; otherwise the remuxer runs when it is
/// there.
pub fn remux_decision(output_exists: bool, tool_exists: bool) -> (r: RemuxDecision)
    ensures
        output_exists ==> r is SkipExisting,
        !output_exists && tool_exists ==> r is Run,
        !output_exists && !tool_exists ==> r is SkipNoTool,
{
    if output_exists {
        RemuxDecision::SkipExisting
    } else if tool_exists {
        RemuxDecision::Run
    } else {
        RemuxDecision::SkipNoTool
    }
}

/// `pat` occurs somewhere in `s`.
pub open spec fn contains(s: Seq<char>, pat: Seq<char>) -> bool {
    exists|i: int| occurs_at(s, pat, i)
}

/// A line of the remuxer's output that marks one more segment read: it
/// mentions `Opening`.
pub fn is_progress_line(line: &str) -> (r: bool)
    ensures
        r == contains(line@, "Opening"@),
{
    let cs = chars_of(line);
    let pat = chars_of("Opening");
    let mut i: usize = 0;
    proof {
        reveal_strlit("Opening");
    }
    while i < cs.len()
        invariant
            i <= cs.len(),
            cs@ == line@,
            pat@ == "Opening"@,
            forall|j: int| 0 <= j < i ==> !occurs_at(line@, "Opening"@, j),
        decreases cs.len() - i,
    {
        if occurs_at_exec(&cs, &pat, i) {
            return true;
        }
        i = i + 1;
    }
    assert forall|j: int| !occurs_at(line@, "Opening"@, j) by {
        if 0 <= j && j < i {
        }
    }
    false
}

} // verus!
