//! The graph store and the interval-edge model.
//!
//! A `Tvg` owns a set of nodes (unique string labels, addressed by a dense
//! index) and a set of directed edge slots. Each slot is keyed by an ordered
//! `(source, target)` pair and holds the ordered sequence of interval edges
//! that arrived for that pair; repeated identical intervals are all retained.

use vstd::prelude::*;

verus! {

/// A time interval. `start` and `end` hold the IEEE-754 bit patterns of
/// single-precision values; no relation between them is enforced, malformed
/// intervals are accepted and propagate as data.
#[derive(Clone, Copy, Debug, PartialEq, Eq, Structural)]
pub struct Interval {
    pub start: u32,
    pub end: u32,
}

impl Interval {
    /// Create an interval from the bit patterns of its two endpoints.
    pub fn new(start: u32, end: u32) -> (r: Interval)
        ensures
            r.start == start,
            r.end == end,
    {
        Interval { start, end }
    }
}

/// One timed connectivity record on an edge slot. `BaseEdge` carries only an
/// interval; `DataEdge` also carries one numeric payload (as its bit pattern),
/// e.g. data sent during the interval.
#[derive(Clone, Copy, Debug, PartialEq, Eq, Structural)]
pub enum IntervalTvgEdge {
    /// Simple interval edge without data.
    BaseEdge(Interval),
    /// Interval edge with a payload.
    DataEdge(Interval, u32),
}

/// The error of comparing a `BaseEdge` against a `DataEdge`: caller misuse,
/// never turned into a silent `false`.
#[derive(Clone, Copy, Debug, PartialEq, Eq, Structural)]
pub struct TagMismatch;

/// True when both edges carry the same tag (both plain, or both with data).
pub open spec fn same_tag(a: IntervalTvgEdge, b: IntervalTvgEdge) -> bool {
    (a is BaseEdge) <==> (b is BaseEdge)
}

/// The interval carried by an edge, whatever its tag.
pub open spec fn interval_of(e: IntervalTvgEdge) -> Interval {
    match e {
        IntervalTvgEdge::BaseEdge(i) => i,
        IntervalTvgEdge::DataEdge(i, _) => i,
    }
}

/// Equality of two same-tag edges: both endpoints equal bit-for-bit; the
/// payload of a `DataEdge` is ignored.
pub open spec fn spec_edge_eq(a: IntervalTvgEdge, b: IntervalTvgEdge) -> bool {
    interval_of(a) == interval_of(b)
}

impl IntervalTvgEdge {
    /// Compare two edges of the same tag by their intervals alone.
    ///
    /// Comparing edges of different tags is a programming error, excluded
    /// here by precondition; `checked_eq` is the recoverable form.
    pub fn eq(self, other: &IntervalTvgEdge) -> (r: bool)
        requires
            same_tag(self, *other),
        ensures
            r == spec_edge_eq(self, *other),
    {
        let a = self.interval();
        let b = other.interval();
        a.start == b.start && a.end == b.end
    }

    /// Compare two edges, reporting a mixed-tag comparison as `TagMismatch`
    /// instead of answering; never silently `false` for mismatched tags.
    pub fn checked_eq(self, other: &IntervalTvgEdge) -> (r: Result<bool, TagMismatch>)
        ensures
            r is Ok <==> same_tag(self, *other),
            r matches Ok(b) ==> b == spec_edge_eq(self, *other),
    {
        match (&self, other) {
            (IntervalTvgEdge::BaseEdge(_), IntervalTvgEdge::BaseEdge(_)) => Ok(self.eq(other)),
            (IntervalTvgEdge::DataEdge(_, _), IntervalTvgEdge::DataEdge(_, _)) => Ok(self.eq(other)),
            _ => Err(TagMismatch),
        }
    }

    /// The interval carried by this edge.
    pub fn interval(&self) -> (r: Interval)
        ensures
            r == interval_of(*self),
    {
        match self {
            IntervalTvgEdge::BaseEdge(i) => *i,
            IntervalTvgEdge::DataEdge(i, _) => *i,
        }
    }
}

/// Mathematical model of one edge slot: the ordered pair of endpoint indices
/// and the ordered sequence of interval edges that arrived for it.
pub ghost struct SlotModel {
    pub src: usize,
    pub dst: usize,
    pub edges: Seq<IntervalTvgEdge>,
}

/// Mathematical model of the whole store: node labels by dense index, and
/// edge slots in creation order.
pub ghost struct GraphModel {
    pub nodes: Seq<String>,
    pub slots: Seq<SlotModel>,
}

/// No two nodes share a label.
pub open spec fn wf_nodes(nodes: Seq<String>) -> bool {
    forall|i: int, j: int| 0 <= i < j < nodes.len() ==> #[trigger] nodes[i]@ != #[trigger] nodes[j]@
}

/// No two slots share the same ordered `(src, dst)` key.
pub open spec fn slots_uniquely_keyed(slots: Seq<SlotModel>) -> bool {
    forall|k: int, l: int|
        0 <= k < l < slots.len() ==> !((#[trigger] slots[k]).src == (#[trigger] slots[l]).src
            && slots[k].dst == slots[l].dst)
}

/// Every slot joins two existing nodes, holds at least one edge, and no two
/// slots share the same ordered `(src, dst)` key.
pub open spec fn wf_slots(nodes: Seq<String>, slots: Seq<SlotModel>) -> bool {
    &&& forall|k: int|
        0 <= k < slots.len() ==> (#[trigger] slots[k]).src < nodes.len() && slots[k].dst
            < nodes.len() && slots[k].edges.len() > 0
    &&& slots_uniquely_keyed(slots)
}

impl GraphModel {
    /// Well-formedness of the store: unique labels, valid and uniquely keyed slots.
    pub open spec fn wf(self) -> bool {
        wf_nodes(self.nodes) && wf_slots(self.nodes, self.slots)
    }
}

/// Some node carries exactly this label.
pub open spec fn has_node(nodes: Seq<String>, label: Seq<char>) -> bool {
    exists|i: int| 0 <= i < nodes.len() && #[trigger] nodes[i]@ == label
}

/// The index of the node carrying this label (unique when labels are unique).
pub open spec fn node_id_of(nodes: Seq<String>, label: Seq<char>) -> int {
    choose|i: int| 0 <= i < nodes.len() && #[trigger] nodes[i]@ == label
}

/// Some slot is keyed by this ordered pair.
pub open spec fn has_slot(slots: Seq<SlotModel>, src: usize, dst: usize) -> bool {
    exists|k: int| 0 <= k < slots.len() && (#[trigger] slots[k]).src == src && slots[k].dst == dst
}

/// The index of the slot keyed by this ordered pair (unique when slots are
/// uniquely keyed).
pub open spec fn slot_id_of(slots: Seq<SlotModel>, src: usize, dst: usize) -> int {
    choose|k: int| 0 <= k < slots.len() && (#[trigger] slots[k]).src == src && slots[k].dst == dst
}

/// Node insertion: a label already present leaves the store unchanged,
/// otherwise the label is appended at the next dense index.
pub open spec fn spec_add_node(nodes: Seq<String>, label: String) -> Seq<String> {
    if has_node(nodes, label@) {
        nodes
    } else {
        nodes.push(label)
    }
}

/// Edge insertion: append to the slot keyed `(src, dst)` if one exists,
/// otherwise create that slot holding exactly this edge. Never overwrites.
pub open spec fn spec_append_edge(
    slots: Seq<SlotModel>,
    src: usize,
    dst: usize,
    e: IntervalTvgEdge,
) -> Seq<SlotModel> {
    if has_slot(slots, src, dst) {
        let k = slot_id_of(slots, src, dst);
        slots.update(k, SlotModel { src, dst, edges: slots[k].edges.push(e) })
    } else {
        slots.push(SlotModel { src, dst, edges: seq![e] })
    }
}

/// One directed edge slot: all interval edges for one ordered node pair, in
/// arrival order.
#[derive(Debug)]
pub struct EdgeSlot {
    pub(crate) src: usize,
    pub(crate) dst: usize,
    pub(crate) edges: Vec<IntervalTvgEdge>,
}

impl View for EdgeSlot {
    type V = SlotModel;

    closed spec fn view(&self) -> SlotModel {
        SlotModel { src: self.src, dst: self.dst, edges: self.edges@ }
    }
}

/// A time-varying graph: nodes under unique string labels and directed edge
/// slots, each holding the connection intervals (and optional payloads) for
/// one ordered node pair.
#[derive(Debug)]
pub struct Tvg {
    pub(crate) nodes: Vec<String>,
    pub(crate) slots: Vec<EdgeSlot>,
}

impl View for Tvg {
    type V = GraphModel;

    closed spec fn view(&self) -> GraphModel {
        GraphModel {
            nodes: self.nodes@,
            slots: Seq::new(self.slots@.len(), |k: int| self.slots@[k]@),
        }
    }
}

impl Tvg {
    /// Well-formedness of this store; established by `new` and preserved by
    /// every mutating operation.
    pub open spec fn wf(&self) -> bool {
        self@.wf()
    }

    /// Create an empty graph.
    pub fn new() -> (r: Tvg)
        ensures
            r.wf(),
            r@.nodes.len() == 0,
            r@.slots.len() == 0,
    {
        Tvg { nodes: Vec::new(), slots: Vec::new() }
    }

    /// How many nodes the store holds.
    pub fn node_count(&self) -> (r: usize)
        ensures
            r == self@.nodes.len(),
    {
        self.nodes.len()
    }

    /// How many edge slots the store holds.
    pub fn edge_slot_count(&self) -> (r: usize)
        ensures
            r == self@.slots.len(),
    {
        self.slots.len()
    }

    /// The label of the node at a dense index.
    pub fn node_label(&self, node: usize) -> (r: &String)
        requires
            node < self@.nodes.len(),
        ensures
            *r == self@.nodes[node as int],
    {
        &self.nodes[node]
    }

    /// The ordered pair of endpoint indices of an edge slot.
    pub fn slot_endpoints(&self, slot: usize) -> (r: (usize, usize))
        requires
            slot < self@.slots.len(),
        ensures
            r.0 == self@.slots[slot as int].src,
            r.1 == self@.slots[slot as int].dst,
    {
        (self.slots[slot].src, self.slots[slot].dst)
    }

    /// The interval edges held by an edge slot, in arrival order.
    pub fn slot_edges(&self, slot: usize) -> (r: &Vec<IntervalTvgEdge>)
        requires
            slot < self@.slots.len(),
        ensures
            r@ == self@.slots[slot as int].edges,
    {
        &self.slots[slot].edges
    }

    /// Insert a node unless its label is already present; either way, return
    /// the index of the node carrying the label. Idempotent under repeated
    /// identical labels.
    pub fn add_node_no_dup(&mut self, data: &String) -> (r: usize)
        requires
            old(self).wf(),
            old(self)@.nodes.len() < usize::MAX,
        ensures
            final(self).wf(),
            final(self)@.nodes == spec_add_node(old(self)@.nodes, *data),
            final(self)@.slots == old(self)@.slots,
            r < final(self)@.nodes.len(),
            final(self)@.nodes[r as int]@ == data@,
            final(self)@.nodes.len() == old(self)@.nodes.len() + (if has_node(
                old(self)@.nodes,
                data@,
            ) {
                0int
            } else {
                1int
            }),
    {
        let n = self.nodes.len();
        for i in 0..n
            invariant
                self@ == old(self)@,
                old(self).wf(),
                n == self@.nodes.len(),
                forall|j: int| 0 <= j < i ==> #[trigger] self@.nodes[j]@ != data@,
        {
            if self.nodes[i] == *data {
                return i;
            }
        }
        self.nodes.push(data.clone());
        self.nodes.len() - 1
    }

    /// Look a node up by its exact label; absence is "not found", never an
    /// error.
    pub fn find_node(&self, name: String) -> (r: Option<usize>)
        ensures
            r matches Some(i) ==> i < self@.nodes.len() && self@.nodes[i as int]@ == name@,
            r is None ==> !has_node(self@.nodes, name@),
    {
        let n = self.nodes.len();
        for i in 0..n
            invariant
                n == self@.nodes.len(),
                forall|j: int| 0 <= j < i ==> #[trigger] self@.nodes[j]@ != name@,
        {
            if self.nodes[i] == name {
                return Some(i);
            }
        }
        None
    }

    /// Look the slot for an ordered pair of node indices up; absence is "not
    /// found", never an error.
    pub fn find_slot(&self, src: usize, dst: usize) -> (r: Option<usize>)
        ensures
            r matches Some(k) ==> k < self@.slots.len() && self@.slots[k as int].src == src
                && self@.slots[k as int].dst == dst,
            r is None ==> !has_slot(self@.slots, src, dst),
    {
        let n = self.slots.len();
        for k in 0..n
            invariant
                n == self@.slots.len(),
                forall|l: int|
                    0 <= l < k ==> !((#[trigger] self@.slots[l]).src == src && self@.slots[l].dst
                        == dst),
        {
            if self.slots[k].src == src && self.slots[k].dst == dst {
                return Some(k);
            }
        }
        None
    }

    /// Look an edge slot up by the labels of its two endpoints. A label that
    /// resolves to no node, or two nodes with no slot between them, is "not
    /// found", never an error.
    pub fn find_edge(&self, start_name: String, end_name: String) -> (r: Option<usize>)
        requires
            self.wf(),
        ensures
            r matches Some(k) ==> {
                &&& k < self@.slots.len()
                &&& has_node(self@.nodes, start_name@)
                &&& has_node(self@.nodes, end_name@)
                &&& self@.slots[k as int].src == node_id_of(self@.nodes, start_name@)
                &&& self@.slots[k as int].dst == node_id_of(self@.nodes, end_name@)
            },
            r is None ==> !(has_node(self@.nodes, start_name@) && has_node(self@.nodes, end_name@)
                && has_slot(
                self@.slots,
                node_id_of(self@.nodes, start_name@) as usize,
                node_id_of(self@.nodes, end_name@) as usize,
            )),
    {
        let src = match self.find_node(start_name) {
            Some(i) => i,
            None => {
                return None;
            },
        };
        let dst = match self.find_node(end_name) {
            Some(j) => j,
            None => {
                return None;
            },
        };
        self.find_slot(src, dst)
    }

    /// Append an edge to the slot for `(start_node, end_node)`, creating the
    /// slot if this is the first edge for the pair. Existing entries are never
    /// overwritten, and repeated identical intervals are all retained.
    pub fn add_edge_no_dup(&mut self, start_node: usize, end_node: usize, edge: IntervalTvgEdge)
        requires
            old(self).wf(),
            start_node < old(self)@.nodes.len(),
            end_node < old(self)@.nodes.len(),
            old(self)@.slots.len() < usize::MAX,
        ensures
            final(self).wf(),
            final(self)@.nodes == old(self)@.nodes,
            final(self)@.slots == spec_append_edge(old(self)@.slots, start_node, end_node, edge),
    {
        match self.find_slot(start_node, end_node) {
            Some(k) => {
                let ghost pre = self@.slots;
                self.slots[k].edges.push(edge);
                proof {
                    let kk = slot_id_of(pre, start_node, end_node);
                    assert(pre[kk].src == start_node && pre[kk].dst == end_node);
                    assert(kk == k);
                    assert(self@.slots =~= spec_append_edge(pre, start_node, end_node, edge));
                }
            },
            None => {
                let mut edges: Vec<IntervalTvgEdge> = Vec::new();
                edges.push(edge);
                self.slots.push(EdgeSlot { src: start_node, dst: end_node, edges });
                proof {
                    assert(self@.slots =~= spec_append_edge(
                        old(self)@.slots,
                        start_node,
                        end_node,
                        edge,
                    ));
                }
            },
        }
    }

    /// Add edges (and their endpoints, deduplicated) from a vector of
    /// `TvgData` records, in order.
    pub fn add_edges_from_data(&mut self, edges: Vec<TvgData>)
        requires
            old(self).wf(),
            old(self)@.nodes.len() + 2 * edges@.len() <= usize::MAX,
            old(self)@.slots.len() + edges@.len() <= usize::MAX,
        ensures
            final(self).wf(),
            final(self)@ == spec_add_data(old(self)@, edges@),
    {
        let n = edges.len();
        proof {
            assert(edges@.skip(0) =~= edges@);
        }
        for i in 0..n
            invariant
                self.wf(),
                n == edges@.len(),
                self@.nodes.len() <= old(self)@.nodes.len() + 2 * i,
                self@.slots.len() <= old(self)@.slots.len() + i,
                old(self)@.nodes.len() + 2 * n <= usize::MAX,
                old(self)@.slots.len() + n <= usize::MAX,
                spec_add_data(self@, edges@.skip(i as int)) == spec_add_data(
                    old(self)@,
                    edges@,
                ),
        {
            let ghost pre = self@;
            let start_index = self.add_node_no_dup(&edges[i].start_node);
            let end_index = self.add_node_no_dup(&edges[i].end_node);
            self.add_edge_no_dup(start_index, end_index, edges[i].interval);
            proof {
                let rec = edges@[i as int];
                let nodes2 = spec_add_node(spec_add_node(pre.nodes, rec.start_node), rec.end_node);
                assert(self@.nodes == nodes2);
                lemma_unique_node_id(self@.nodes, rec.start_node@, start_index as int);
                lemma_unique_node_id(self@.nodes, rec.end_node@, end_index as int);
                assert(edges@.skip(i as int).drop_first() =~= edges@.skip(i + 1));
                assert(spec_add_data(pre, edges@.skip(i as int)) == spec_add_data(
                    self@,
                    edges@.skip(i + 1),
                ));
            }
        }
        proof {
            assert(edges@.skip(n as int) =~= Seq::<TvgData>::empty());
        }
    }
}

/// Under unique labels, any index holding a label is the index `node_id_of`
/// denotes.
pub proof fn lemma_unique_node_id(nodes: Seq<String>, label: Seq<char>, i: int)
    requires
        wf_nodes(nodes),
        0 <= i < nodes.len(),
        nodes[i]@ == label,
    ensures
        has_node(nodes, label),
        node_id_of(nodes, label) == i,
{
    assert(has_node(nodes, label));
    let j = node_id_of(nodes, label);
    if i < j {
        assert(nodes[i]@ != nodes[j]@);
    } else if j < i {
        assert(nodes[j]@ != nodes[i]@);
    }
}

/// Decoding a sequence of `TvgData` records into a graph: for each record in
/// order, both endpoints are inserted with deduplication, then the edge is
/// appended to their slot.
pub open spec fn spec_add_data(g: GraphModel, recs: Seq<TvgData>) -> GraphModel
    decreases recs.len(),
{
    if recs.len() == 0 {
        g
    } else {
        let rec = recs[0];
        let nodes2 = spec_add_node(spec_add_node(g.nodes, rec.start_node), rec.end_node);
        let slots2 = spec_append_edge(
            g.slots,
            node_id_of(nodes2, rec.start_node@) as usize,
            node_id_of(nodes2, rec.end_node@) as usize,
            rec.interval,
        );
        spec_add_data(GraphModel { nodes: nodes2, slots: slots2 }, recs.drop_first())
    }
}

/// Data container for `Tvg` construction: one directed interval edge between
/// two labelled endpoints.
#[derive(Debug, Clone)]
pub struct TvgData {
    pub start_node: String,
    pub end_node: String,
    pub interval: IntervalTvgEdge,
}

/// Struct containing multiple `IntervalTvgEdge`s: the snapshot of one edge
/// slot along an explored path.
#[derive(Debug, Clone)]
pub struct TvgEdge {
    pub edges: Vec<IntervalTvgEdge>,
}

impl View for TvgEdge {
    type V = Seq<IntervalTvgEdge>;

    open spec fn view(&self) -> Seq<IntervalTvgEdge> {
        self.edges@
    }
}

impl TvgEdge {
    /// Create an empty `TvgEdge`.
    pub fn new() -> (r: TvgEdge)
        ensures
            r@ == Seq::<IntervalTvgEdge>::empty(),
    {
        TvgEdge { edges: Vec::new() }
    }

    /// Create a `TvgEdge` from a vector of `IntervalTvgEdge`s.
    pub fn from_vec(edges: Vec<IntervalTvgEdge>) -> (r: TvgEdge)
        ensures
            r@ == edges@,
    {
        TvgEdge { edges }
    }
}

/// Equality contract: two same-tag edges are equal exactly when both interval
/// endpoints agree bit-for-bit — the payload of a `DataEdge` is excluded —
/// and a plain/timed pair carries no tag match whatever its interval values,
/// so it never compares as a boolean: `eq` excludes it by precondition and
/// `checked_eq` reports it as `TagMismatch`.
pub proof fn lemma_equality_contract(i1: Interval, i2: Interval, d1: u32, d2: u32)
    ensures
        spec_edge_eq(IntervalTvgEdge::BaseEdge(i1), IntervalTvgEdge::BaseEdge(i2)) <==> (i1.start
            == i2.start && i1.end == i2.end),
        spec_edge_eq(IntervalTvgEdge::DataEdge(i1, d1), IntervalTvgEdge::DataEdge(i2, d2)) <==> (
        i1.start == i2.start && i1.end == i2.end),
        !same_tag(IntervalTvgEdge::BaseEdge(i1), IntervalTvgEdge::DataEdge(i2, d2)),
        !same_tag(IntervalTvgEdge::DataEdge(i1, d1), IntervalTvgEdge::BaseEdge(i2)),
{
}

/// Node insertion is idempotent: inserting a label a second time leaves the
/// store unchanged, and the first insertion grows the node count by exactly
/// one when the label is new.
pub proof fn lemma_add_node_idempotent(nodes: Seq<String>, label: String)
    ensures
        spec_add_node(spec_add_node(nodes, label), label) == spec_add_node(nodes, label),
        has_node(nodes, label@) ==> spec_add_node(nodes, label) == nodes,
        !has_node(nodes, label@) ==> spec_add_node(nodes, label).len() == nodes.len() + 1,
        has_node(spec_add_node(nodes, label), label@),
{
    let ns1 = spec_add_node(nodes, label);
    if !has_node(nodes, label@) {
        assert(ns1[nodes.len() as int]@ == label@);
        assert(has_node(ns1, label@));
    }
}

/// Appending two edges for the same ordered pair lands both, in insertion
/// order, in one and the same slot; no second slot for the pair is created.
pub proof fn lemma_edge_append_dedup(
    slots: Seq<SlotModel>,
    src: usize,
    dst: usize,
    e1: IntervalTvgEdge,
    e2: IntervalTvgEdge,
)
    requires
        slots_uniquely_keyed(slots),
    ensures
        ({
            let s2 = spec_append_edge(spec_append_edge(slots, src, dst, e1), src, dst, e2);
            let prior: Seq<IntervalTvgEdge> = if has_slot(slots, src, dst) {
                slots[slot_id_of(slots, src, dst)].edges
            } else {
                Seq::empty()
            };
            &&& s2.len() == slots.len() + (if has_slot(slots, src, dst) {
                0int
            } else {
                1int
            })
            &&& has_slot(s2, src, dst)
            &&& s2[slot_id_of(s2, src, dst)].edges == prior + seq![e1, e2]
        }),
{
    let s1 = spec_append_edge(slots, src, dst, e1);
    let s2 = spec_append_edge(s1, src, dst, e2);
    if has_slot(slots, src, dst) {
        let k = slot_id_of(slots, src, dst);
        lemma_unique_slot_id(slots, src, dst, k);
        lemma_unique_slot_id(s1, src, dst, k);
        lemma_unique_slot_id(s2, src, dst, k);
        assert(s2[k].edges =~= slots[k].edges + seq![e1, e2]);
    } else {
        let k = slots.len() as int;
        assert(s1[k].src == src && s1[k].dst == dst);
        lemma_unique_slot_id(s1, src, dst, k);
        lemma_unique_slot_id(s2, src, dst, k);
        assert(s2[k].edges =~= Seq::<IntervalTvgEdge>::empty() + seq![e1, e2]);
    }
}

/// Under uniquely keyed slots, any index keyed by a pair is the index
/// `slot_id_of` denotes.
pub proof fn lemma_unique_slot_id(slots: Seq<SlotModel>, src: usize, dst: usize, k: int)
    requires
        slots_uniquely_keyed(slots),
        0 <= k < slots.len(),
        slots[k].src == src,
        slots[k].dst == dst,
    ensures
        has_slot(slots, src, dst),
        slot_id_of(slots, src, dst) == k,
{
    assert(has_slot(slots, src, dst));
    let l = slot_id_of(slots, src, dst);
    if k < l {
        assert(!(slots[k].src == slots[l].src && slots[k].dst == slots[l].dst));
    } else if l < k {
        assert(!(slots[l].src == slots[k].src && slots[l].dst == slots[k].dst));
    }
}

} // verus!
