//! Paths in the TVG.

use vstd::prelude::*;

use crate::tvg::IntervalTvgEdge;
use crate::tvg::TvgEdge;

verus! {

/// A path in the TVG: `edges` holds one `TvgEdge` per hop, in order; each
/// `TvgEdge` is the snapshot of the edge slot joining two consecutive nodes
/// of the explored route.
#[derive(Debug, Clone)]
pub struct TvgPath {
    pub edges: Vec<TvgEdge>,
}

impl View for TvgPath {
    type V = Seq<Seq<IntervalTvgEdge>>;

    open spec fn view(&self) -> Seq<Seq<IntervalTvgEdge>> {
        Seq::new(self.edges@.len(), |i: int| self.edges@[i]@)
    }
}

impl TvgPath {
    /// Create a new, empty path.
    pub fn new() -> (r: TvgPath)
        ensures
            r@ == Seq::<Seq<IntervalTvgEdge>>::empty(),
    {
        let r = TvgPath { edges: Vec::new() };
        proof {
            assert(r@ =~= Seq::<Seq<IntervalTvgEdge>>::empty());
        }
        r
    }

    /// Create a path from an existing vector of `TvgEdge`s.
    pub fn from_vec(paths: Vec<TvgEdge>) -> (r: TvgPath)
        ensures
            r@.len() == paths@.len(),
            forall|i: int| 0 <= i < paths@.len() ==> r@[i] == #[trigger] paths@[i]@,
    {
        TvgPath { edges: paths }
    }
}

} // verus!
