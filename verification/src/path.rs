//! Structured field locators: an ordered, non-empty sequence of segment
//! names addressing a node in a nested record, and the covering relation
//! used by field projection.

use vstd::prelude::*;

verus! {

/// An owned, structured field locator.  Immutable once constructed.
pub struct Path {
    pub segments: Vec<String>,
}

/// Views of a segment sequence.
pub open spec fn seg_views(segs: Seq<String>) -> Seq<Seq<char>> {
    Seq::new(segs.len(), |i: int| segs[i]@)
}

impl View for Path {
    type V = Seq<Seq<char>>;

    open spec fn view(&self) -> Seq<Seq<char>> {
        seg_views(self.segments@)
    }
}

impl Path {
    /// A path has at least one segment.
    pub open spec fn wf(self) -> bool {
        self@.len() >= 1
    }

    /// Build a path from its segments.
    pub fn new(segments: Vec<String>) -> (r: Path)
        requires
            segments@.len() >= 1,
        ensures
            r@ == seg_views(segments@),
            r.wf(),
    {
        Path { segments }
    }

    /// Build a one-segment path.
    pub fn field(name: String) -> (r: Path)
        ensures
            r@ =~= seq![name@],
            r.wf(),
    {
        let mut segments: Vec<String> = Vec::new();
        segments.push(name);
        Path { segments }
    }

}

/// `p` is a (not necessarily proper) prefix of `k`: `k` equals `p` or is
/// a strict descendant of `p`.
pub open spec fn covered_by(k: Seq<Seq<char>>, p: Seq<Seq<char>>) -> bool {
    p.len() <= k.len() && forall|i: int| 0 <= i < p.len() ==> p[i] == k[i]
}

/// `k` is covered by at least one of the keep paths.
pub open spec fn covered(k: Seq<Seq<char>>, keeps: Seq<Seq<Seq<char>>>) -> bool {
    exists|i: int| 0 <= i < keeps.len() && covered_by(k, keeps[i])
}

/// Two paths disagree at some position present in both.
pub open spec fn paths_diverge(p: Seq<Seq<char>>, q: Seq<Seq<char>>) -> bool {
    exists|d: int|
        0 <= d < p.len() && d < q.len() && p[d] != q[d] && forall|e: int|
            0 <= e < d ==> p[e] == q[e]
}

} // verus!
