//! The exchange codec surface: the flat node/edge list representation of a
//! graph, the decoding rule that builds a store from it, and the inverse
//! flattening.
//!
//! The textual (JSON) encoding and decoding of this shape is an external
//! collaborator: whatever parses or prints the format hands values of these
//! types over. Decoding into a store is this module's own rule: every listed
//! node is inserted (deduplicated), and every edge record must resolve both
//! its endpoints among the known nodes — a record that does not is malformed,
//! decoding aborts entirely and no partial graph is returned.

use vstd::prelude::*;
use vstd::multiset::Multiset;

use crate::tvg::GraphModel;
use crate::tvg::Interval;
use crate::tvg::IntervalTvgEdge;
use crate::tvg::SlotModel;
use crate::tvg::Tvg;
use crate::tvg::has_node;
use crate::tvg::node_id_of;
use crate::tvg::spec_add_node;
use crate::tvg::spec_append_edge;
use crate::tvg::lemma_unique_node_id;

verus! {

/// An exchange edge record references a node that is not declared, or the
/// payload does not match the declared shape: fatal at decode time, the
/// store is left untouched.
#[derive(Clone, Copy, Debug, PartialEq, Eq, Structural)]
pub struct MalformedExchangeData;

/// One flat exchange edge record: a directed connection `from -> to` active
/// over `[start, end]`, optionally carrying a payload. Endpoint and payload
/// values are IEEE-754 single-precision bit patterns.
#[derive(Debug, Clone)]
pub struct JsonTvgEdge {
    pub from: String,
    pub to: String,
    pub start: u32,
    pub end: u32,
    pub data: Option<u32>,
}

/// Mathematical reading of one exchange edge record: endpoint labels by
/// view, scalar fields as they stand.
pub ghost struct EdgeRecModel {
    pub from: Seq<char>,
    pub to: Seq<char>,
    pub start: u32,
    pub end: u32,
    pub data: Option<u32>,
}

impl View for JsonTvgEdge {
    type V = EdgeRecModel;

    open spec fn view(&self) -> EdgeRecModel {
        EdgeRecModel {
            from: self.from@,
            to: self.to@,
            start: self.start,
            end: self.end,
            data: self.data,
        }
    }
}

/// The whole exchange payload: the declared nodes, then the flat edge
/// records.
#[derive(Debug, Clone)]
pub struct JsonTvgData {
    pub nodes: Vec<String>,
    pub edges: Vec<JsonTvgEdge>,
}

/// Mathematical reading of an exchange payload.
pub ghost struct ExchangeModel {
    pub nodes: Seq<String>,
    pub edges: Seq<EdgeRecModel>,
}

impl View for JsonTvgData {
    type V = ExchangeModel;

    open spec fn view(&self) -> ExchangeModel {
        ExchangeModel {
            nodes: self.nodes@,
            edges: Seq::new(self.edges@.len(), |i: int| self.edges@[i]@),
        }
    }
}

/// The views of a sequence of labels.
pub open spec fn label_views(labels: Seq<String>) -> Seq<Seq<char>> {
    Seq::new(labels.len(), |i: int| labels[i]@)
}

/// Some listed label has this view.
pub open spec fn seq_has_label(labels: Seq<String>, v: Seq<char>) -> bool {
    exists|j: int| 0 <= j < labels.len() && #[trigger] labels[j]@ == v
}

/// Inserting a list of labels, in order, each with deduplication.
pub open spec fn spec_add_labels(nodes: Seq<String>, labels: Seq<String>) -> Seq<String>
    decreases labels.len(),
{
    if labels.len() == 0 {
        nodes
    } else {
        spec_add_labels(spec_add_node(nodes, labels[0]), labels.drop_first())
    }
}

/// Both endpoints of the record resolve among the nodes.
pub open spec fn edge_resolvable(nodes: Seq<String>, e: EdgeRecModel) -> bool {
    has_node(nodes, e.from) && has_node(nodes, e.to)
}

/// Every record resolves; the payload decodes without aborting exactly when
/// this holds of its records against its declared (and pre-existing) nodes.
pub open spec fn all_resolvable(nodes: Seq<String>, edges: Seq<EdgeRecModel>) -> bool {
    forall|j: int| 0 <= j < edges.len() ==> edge_resolvable(nodes, #[trigger] edges[j])
}

/// The interval edge a record constructs: `data` present gives a `DataEdge`,
/// absent a `BaseEdge`.
pub open spec fn rec_edge(e: EdgeRecModel) -> IntervalTvgEdge {
    match e.data {
        Some(d) => IntervalTvgEdge::DataEdge(Interval { start: e.start, end: e.end }, d),
        None => IntervalTvgEdge::BaseEdge(Interval { start: e.start, end: e.end }),
    }
}

/// Appending every record's edge, in order, to the slot of its resolved
/// endpoints.
pub open spec fn spec_decode_edges(
    nodes: Seq<String>,
    slots: Seq<SlotModel>,
    edges: Seq<EdgeRecModel>,
) -> Seq<SlotModel>
    decreases edges.len(),
{
    if edges.len() == 0 {
        slots
    } else {
        let e = edges[0];
        let slots2 = spec_append_edge(
            slots,
            node_id_of(nodes, e.from) as usize,
            node_id_of(nodes, e.to) as usize,
            rec_edge(e),
        );
        spec_decode_edges(nodes, slots2, edges.drop_first())
    }
}

/// The whole decoding rule: insert every declared node, then append every
/// record's edge between its resolved endpoints.
pub open spec fn spec_decode(g: GraphModel, d: ExchangeModel) -> GraphModel {
    let nodes2 = spec_add_labels(g.nodes, d.nodes);
    GraphModel { nodes: nodes2, slots: spec_decode_edges(nodes2, g.slots, d.edges) }
}

/// The record emitted for entry `j` of a slot: the endpoint labels and the
/// edge's interval, with `data` populated only for a `DataEdge`.
pub open spec fn rec_of(nodes: Seq<String>, slot: SlotModel, j: int) -> EdgeRecModel {
    let e = slot.edges[j];
    EdgeRecModel {
        from: nodes[slot.src as int]@,
        to: nodes[slot.dst as int]@,
        start: crate::tvg::interval_of(e).start,
        end: crate::tvg::interval_of(e).end,
        data: match e {
            IntervalTvgEdge::BaseEdge(_) => None,
            IntervalTvgEdge::DataEdge(_, d) => Some(d),
        },
    }
}

/// The flat records of one slot, in arrival order: one per stacked interval
/// edge, all sharing the slot's endpoints.
pub open spec fn slot_records(nodes: Seq<String>, slot: SlotModel) -> Seq<EdgeRecModel> {
    Seq::new(slot.edges.len(), |j: int| rec_of(nodes, slot, j))
}

/// The flat records of the first `upto` slots, in slot order.
pub open spec fn records_by_slot(nodes: Seq<String>, slots: Seq<SlotModel>, upto: int) -> Seq<
    EdgeRecModel,
>
    decreases upto,
{
    if upto <= 0 {
        Seq::empty()
    } else {
        records_by_slot(nodes, slots, upto - 1) + slot_records(nodes, slots[upto - 1])
    }
}

/// The flat records of node `v`'s outgoing slots among the first `upto`
/// slots, in slot order.
pub open spec fn node_slot_records(
    nodes: Seq<String>,
    slots: Seq<SlotModel>,
    v: int,
    upto: int,
) -> Seq<EdgeRecModel>
    decreases upto,
{
    if upto <= 0 {
        Seq::empty()
    } else {
        let p = node_slot_records(nodes, slots, v, upto - 1);
        if slots[upto - 1].src as int == v {
            p + slot_records(nodes, slots[upto - 1])
        } else {
            p
        }
    }
}

/// The flat records of the first `upto` nodes: walk every node, then every
/// outgoing slot, then every interval edge within the slot.
pub open spec fn records_by_node(nodes: Seq<String>, slots: Seq<SlotModel>, upto: int) -> Seq<
    EdgeRecModel,
>
    decreases upto,
{
    if upto <= 0 {
        Seq::empty()
    } else {
        records_by_node(nodes, slots, upto - 1) + node_slot_records(
            nodes,
            slots,
            upto - 1,
            slots.len() as int,
        )
    }
}

/// The inverse flattening of a whole store: every node, and one record per
/// stored interval edge, grouped by source node and then by slot.
pub open spec fn spec_encode(g: GraphModel) -> ExchangeModel {
    ExchangeModel {
        nodes: g.nodes,
        edges: records_by_node(g.nodes, g.slots, g.nodes.len() as int),
    }
}

/// The mathematical reading of an executable record vector.
pub open spec fn edge_views(edges: Seq<JsonTvgEdge>) -> Seq<EdgeRecModel> {
    Seq::new(edges.len(), |i: int| edges[i]@)
}

/// Whether a label with this view occurs in a vector of labels.
fn contains_label(labels: &Vec<String>, x: &String) -> (r: bool)
    ensures
        r == seq_has_label(labels@, x@),
{
    let n = labels.len();
    for i in 0..n
        invariant
            n == labels@.len(),
            forall|j: int| 0 <= j < i ==> #[trigger] labels@[j]@ != x@,
    {
        if labels[i] == *x {
            return true;
        }
    }
    false
}

impl Tvg {
    /// Decode an exchange payload into this store. Every declared node is
    /// inserted (deduplicated); then every edge record is appended between
    /// its endpoints, which must resolve among the known nodes. A record
    /// that does not resolve is malformed: the decode aborts as a whole and
    /// the store is left exactly as it was.
    pub fn add_edges_from_json(&mut self, data: JsonTvgData) -> (r: Result<
        (),
        MalformedExchangeData,
    >)
        requires
            old(self).wf(),
            old(self)@.nodes.len() + data@.nodes.len() <= usize::MAX,
            old(self)@.slots.len() + data@.edges.len() <= usize::MAX,
        ensures
            final(self).wf(),
            r is Ok <==> all_resolvable(
                spec_add_labels(old(self)@.nodes, data@.nodes),
                data@.edges,
            ),
            r is Ok ==> final(self)@ == spec_decode(old(self)@, data@),
            r is Err ==> final(self)@ == old(self)@,
    {
        let ghost nodes2 = spec_add_labels(old(self)@.nodes, data@.nodes);
        // Validate every record first, against the nodes the payload will
        // have declared, so that a malformed payload leaves no partial graph.
        let ne = data.edges.len();
        for j in 0..ne
            invariant
                self@ == old(self)@,
                self.wf(),
                ne == data@.edges.len(),
                nodes2 == spec_add_labels(old(self)@.nodes, data@.nodes),
                forall|l: int| 0 <= l < j ==> edge_resolvable(nodes2, #[trigger] data@.edges[l]),
        {
            proof {
                lemma_add_labels_membership(
                    old(self)@.nodes,
                    data@.nodes,
                    data@.edges[j as int].from,
                );
                lemma_add_labels_membership(
                    old(self)@.nodes,
                    data@.nodes,
                    data@.edges[j as int].to,
                );
            }
            let from_known = match self.find_node(data.edges[j].from.clone()) {
                Some(_) => true,
                None => contains_label(&data.nodes, &data.edges[j].from),
            };
            if !from_known {
                return Err(MalformedExchangeData);
            }
            let to_known = match self.find_node(data.edges[j].to.clone()) {
                Some(_) => true,
                None => contains_label(&data.nodes, &data.edges[j].to),
            };
            if !to_known {
                return Err(MalformedExchangeData);
            }
        }
        // Insert the declared nodes, deduplicated, in order.
        let nn = data.nodes.len();
        proof {
            assert(data@.nodes.skip(0) =~= data@.nodes);
        }
        for i in 0..nn
            invariant
                self.wf(),
                nn == data@.nodes.len(),
                self@.slots == old(self)@.slots,
                self@.nodes.len() <= old(self)@.nodes.len() + i,
                old(self)@.nodes.len() + nn <= usize::MAX,
                spec_add_labels(self@.nodes, data@.nodes.skip(i as int)) == nodes2,
                nodes2 == spec_add_labels(old(self)@.nodes, data@.nodes),
        {
            let ghost pre = self@.nodes;
            self.add_node_no_dup(&data.nodes[i]);
            proof {
                assert(data@.nodes.skip(i as int).drop_first() =~= data@.nodes.skip(i + 1));
                assert(spec_add_labels(pre, data@.nodes.skip(i as int)) == spec_add_labels(
                    self@.nodes,
                    data@.nodes.skip(i + 1),
                ));
            }
        }
        proof {
            assert(data@.nodes.skip(nn as int) =~= Seq::<String>::empty());
            assert(self@.nodes == nodes2);
        }
        // Append every record's edge between its resolved endpoints.
        let ghost slots0 = self@.slots;
        proof {
            assert(data@.edges.skip(0) =~= data@.edges);
        }
        for j in 0..ne
            invariant
                self.wf(),
                ne == data@.edges.len(),
                self@.nodes == nodes2,
                self@.slots.len() <= old(self)@.slots.len() + j,
                old(self)@.slots.len() + ne <= usize::MAX,
                forall|l: int| 0 <= l < ne ==> edge_resolvable(nodes2, #[trigger] data@.edges[l]),
                slots0 == old(self)@.slots,
                spec_decode_edges(nodes2, self@.slots, data@.edges.skip(j as int))
                    == spec_decode_edges(nodes2, slots0, data@.edges),
        {
            let ghost pre = self@.slots;
            let ghost erec = data@.edges[j as int];
            let from_index = match self.find_node(data.edges[j].from.clone()) {
                Some(i) => i,
                None => {
                    proof {
                        assert(edge_resolvable(nodes2, erec));
                        assert(false);
                    }
                    0
                },
            };
            let to_index = match self.find_node(data.edges[j].to.clone()) {
                Some(i) => i,
                None => {
                    proof {
                        assert(edge_resolvable(nodes2, erec));
                        assert(false);
                    }
                    0
                },
            };
            proof {
                lemma_unique_node_id(nodes2, erec.from, from_index as int);
                lemma_unique_node_id(nodes2, erec.to, to_index as int);
            }
            let iv = Interval::new(data.edges[j].start, data.edges[j].end);
            let edge = match data.edges[j].data {
                Some(d) => IntervalTvgEdge::DataEdge(iv, d),
                None => IntervalTvgEdge::BaseEdge(iv),
            };
            self.add_edge_no_dup(from_index, to_index, edge);
            proof {
                assert(edge == rec_edge(erec));
                assert(data@.edges.skip(j as int).drop_first() =~= data@.edges.skip(j + 1));
                assert(spec_decode_edges(nodes2, pre, data@.edges.skip(j as int))
                    == spec_decode_edges(nodes2, self@.slots, data@.edges.skip(j + 1)));
            }
        }
        proof {
            assert(data@.edges.skip(ne as int) =~= Seq::<EdgeRecModel>::empty());
        }
        Ok(())
    }

    /// Export the store as an exchange payload: every node, then one flat
    /// record per stored interval edge — a slot with several stacked
    /// intervals yields as many records sharing its endpoints. `data` is
    /// populated only for `DataEdge`s.
    pub fn export_to_json(&self) -> (r: JsonTvgData)
        requires
            self.wf(),
        ensures
            r@.nodes == spec_encode(self@).nodes,
            edge_views(r.edges@) == spec_encode(self@).edges,
    {
        let mut nodes_out: Vec<String> = Vec::new();
        let nn = self.node_count();
        for i in 0..nn
            invariant
                self.wf(),
                nn == self@.nodes.len(),
                nodes_out@ == self@.nodes.take(i as int),
        {
            nodes_out.push(self.node_label(i).clone());
            proof {
                assert(self@.nodes.take(i as int).push(self@.nodes[i as int]) =~= self@.nodes.take(
                    i + 1,
                ));
            }
        }
        proof {
            assert(self@.nodes.take(nn as int) =~= self@.nodes);
        }
        let mut edges_out: Vec<JsonTvgEdge> = Vec::new();
        let ns = self.edge_slot_count();
        for i in 0..nn
            invariant
                self.wf(),
                nn == self@.nodes.len(),
                ns == self@.slots.len(),
                edge_views(edges_out@) == records_by_node(self@.nodes, self@.slots, i as int),
        {
            for k in 0..ns
                invariant
                    self.wf(),
                    nn == self@.nodes.len(),
                    ns == self@.slots.len(),
                    i < nn,
                    edge_views(edges_out@) == records_by_node(self@.nodes, self@.slots, i as int)
                        + node_slot_records(self@.nodes, self@.slots, i as int, k as int),
            {
                let (src, dst) = self.slot_endpoints(k);
                if src == i {
                    let ghost slot = self@.slots[k as int];
                    let m = self.slot_edges(k).len();
                    for j in 0..m
                        invariant
                            self.wf(),
                            nn == self@.nodes.len(),
                            ns == self@.slots.len(),
                            i < nn,
                            k < ns,
                            slot == self@.slots[k as int],
                            src == slot.src && dst == slot.dst && src == i,
                            m == slot.edges.len(),
                            edge_views(edges_out@) == records_by_node(
                                self@.nodes,
                                self@.slots,
                                i as int,
                            ) + node_slot_records(self@.nodes, self@.slots, i as int, k as int)
                                + slot_records(self@.nodes, slot).take(j as int),
                    {
                        let e = self.slot_edges(k)[j];
                        let iv = e.interval();
                        let ghost pre_views = edge_views(edges_out@);
                        let rec = JsonTvgEdge {
                            from: self.node_label(src).clone(),
                            to: self.node_label(dst).clone(),
                            start: iv.start,
                            end: iv.end,
                            data: match e {
                                IntervalTvgEdge::BaseEdge(_) => None,
                                IntervalTvgEdge::DataEdge(_, d) => Some(d),
                            },
                        };
                        let ghost grec = rec@;
                        edges_out.push(rec);
                        proof {
                            let a = records_by_node(self@.nodes, self@.slots, i as int);
                            let b = node_slot_records(self@.nodes, self@.slots, i as int, k as int);
                            let c = slot_records(self@.nodes, slot);
                            assert(grec == rec_of(self@.nodes, slot, j as int));
                            assert(edge_views(edges_out@) =~= pre_views.push(grec));
                            assert(c.take(j as int).push(grec) =~= c.take(j + 1));
                            assert((a + b + c.take(j as int)).push(grec) =~= a + b + c.take(j + 1));
                        }
                    }
                    proof {
                        assert(slot_records(self@.nodes, slot).take(m as int) =~= slot_records(
                            self@.nodes,
                            slot,
                        ));
                        assert(node_slot_records(self@.nodes, self@.slots, i as int, k + 1)
                            == node_slot_records(self@.nodes, self@.slots, i as int, k as int)
                            + slot_records(self@.nodes, slot));
                        assert(records_by_node(self@.nodes, self@.slots, i as int)
                            + node_slot_records(self@.nodes, self@.slots, i as int, k as int)
                            + slot_records(self@.nodes, slot) =~= records_by_node(
                            self@.nodes,
                            self@.slots,
                            i as int,
                        ) + node_slot_records(self@.nodes, self@.slots, i as int, k + 1));
                    }
                } else {
                    proof {
                        assert(node_slot_records(self@.nodes, self@.slots, i as int, k + 1)
                            == node_slot_records(self@.nodes, self@.slots, i as int, k as int));
                    }
                }
            }
            proof {
                assert(records_by_node(self@.nodes, self@.slots, i + 1) == records_by_node(
                    self@.nodes,
                    self@.slots,
                    i as int,
                ) + node_slot_records(self@.nodes, self@.slots, i as int, ns as int));
            }
        }
        JsonTvgData { nodes: nodes_out, edges: edges_out }
    }
}

/// The record that appending edge `e` between nodes `src` and `dst` adds to
/// the flattened output.
pub open spec fn rec_for(nodes: Seq<String>, src: usize, dst: usize, e: IntervalTvgEdge) -> EdgeRecModel {
    EdgeRecModel {
        from: nodes[src as int]@,
        to: nodes[dst as int]@,
        start: crate::tvg::interval_of(e).start,
        end: crate::tvg::interval_of(e).end,
        data: match e {
            IntervalTvgEdge::BaseEdge(_) => None,
            IntervalTvgEdge::DataEdge(_, d) => Some(d),
        },
    }
}

/// Appending an edge keeps slot keys unique.
pub proof fn lemma_append_edge_unique(
    slots: Seq<SlotModel>,
    src: usize,
    dst: usize,
    e: IntervalTvgEdge,
)
    requires
        crate::tvg::slots_uniquely_keyed(slots),
    ensures
        crate::tvg::slots_uniquely_keyed(spec_append_edge(slots, src, dst, e)),
{
    let s2 = spec_append_edge(slots, src, dst, e);
    if crate::tvg::has_slot(slots, src, dst) {
        let k = crate::tvg::slot_id_of(slots, src, dst);
        assert(0 <= k < slots.len() && slots[k].src == src && slots[k].dst == dst);
        assert forall|a: int, b: int| 0 <= a < b < s2.len() implies !((#[trigger] s2[a]).src == (
        #[trigger] s2[b]).src && s2[a].dst == s2[b].dst) by {
            assert(s2[a].src == slots[a].src && s2[a].dst == slots[a].dst);
            assert(s2[b].src == slots[b].src && s2[b].dst == slots[b].dst);
        }
    } else {
        assert forall|a: int, b: int| 0 <= a < b < s2.len() implies !((#[trigger] s2[a]).src == (
        #[trigger] s2[b]).src && s2[a].dst == s2[b].dst) by {
            if b < slots.len() {
            } else {
                assert(s2[b].src == src && s2[b].dst == dst);
                assert(!(slots[a].src == src && slots[a].dst == dst));
            }
        }
    }
}

/// Appending a resolvable edge keeps the slots well formed.
pub proof fn lemma_append_edge_wf(
    nodes: Seq<String>,
    slots: Seq<SlotModel>,
    src: usize,
    dst: usize,
    e: IntervalTvgEdge,
)
    requires
        crate::tvg::wf_slots(nodes, slots),
        src < nodes.len(),
        dst < nodes.len(),
    ensures
        crate::tvg::wf_slots(nodes, spec_append_edge(slots, src, dst, e)),
{
    lemma_append_edge_unique(slots, src, dst, e);
    let s2 = spec_append_edge(slots, src, dst, e);
    if crate::tvg::has_slot(slots, src, dst) {
        let k = crate::tvg::slot_id_of(slots, src, dst);
        assert(0 <= k < slots.len() && slots[k].src == src && slots[k].dst == dst);
    }
}

/// Decoding a list of resolvable records keeps the slots well formed.
pub proof fn lemma_decode_edges_wf(
    nodes: Seq<String>,
    slots: Seq<SlotModel>,
    edges: Seq<EdgeRecModel>,
)
    requires
        crate::tvg::wf_slots(nodes, slots),
        all_resolvable(nodes, edges),
        nodes.len() <= usize::MAX,
    ensures
        crate::tvg::wf_slots(nodes, spec_decode_edges(nodes, slots, edges)),
    decreases edges.len(),
{
    if edges.len() > 0 {
        let e = edges[0];
        assert(edge_resolvable(nodes, e));
        let i_from = node_id_of(nodes, e.from);
        let i_to = node_id_of(nodes, e.to);
        assert(0 <= i_from < nodes.len() && nodes[i_from]@ == e.from);
        assert(0 <= i_to < nodes.len() && nodes[i_to]@ == e.to);
        let slots2 = spec_append_edge(slots, i_from as usize, i_to as usize, rec_edge(e));
        lemma_append_edge_wf(nodes, slots, i_from as usize, i_to as usize, rec_edge(e));
        assert(all_resolvable(nodes, edges.drop_first())) by {
            assert(forall|j: int|
                0 <= j < edges.drop_first().len() ==> #[trigger] edges.drop_first()[j] == edges[j
                    + 1]);
        }
        lemma_decode_edges_wf(nodes, slots2, edges.drop_first());
    }
}

/// Flattening reads only the slots it is told to read: equal prefixes give
/// equal records.
pub proof fn lemma_records_by_slot_prefix(
    nodes: Seq<String>,
    a: Seq<SlotModel>,
    b: Seq<SlotModel>,
    upto: int,
)
    requires
        upto <= a.len(),
        upto <= b.len(),
        forall|i: int| 0 <= i < upto ==> a[i] == #[trigger] b[i],
    ensures
        records_by_slot(nodes, a, upto) == records_by_slot(nodes, b, upto),
    decreases upto,
{
    if upto > 0 {
        lemma_records_by_slot_prefix(nodes, a, b, upto - 1);
    }
}

/// As `lemma_records_by_slot_prefix`, for one node's outgoing records.
pub proof fn lemma_node_slot_records_prefix(
    nodes: Seq<String>,
    a: Seq<SlotModel>,
    b: Seq<SlotModel>,
    v: int,
    upto: int,
)
    requires
        upto <= a.len(),
        upto <= b.len(),
        forall|i: int| 0 <= i < upto ==> a[i] == #[trigger] b[i],
    ensures
        node_slot_records(nodes, a, v, upto) == node_slot_records(nodes, b, v, upto),
    decreases upto,
{
    if upto > 0 {
        lemma_node_slot_records_prefix(nodes, a, b, v, upto - 1);
    }
}

/// Updating one slot's records by one pushed record inserts exactly that
/// record into the flattened multiset.
proof fn lemma_records_by_slot_update(
    nodes: Seq<String>,
    slots: Seq<SlotModel>,
    slots2: Seq<SlotModel>,
    k: int,
    rec: EdgeRecModel,
    upto: int,
)
    requires
        0 <= k < slots.len(),
        slots2.len() == slots.len(),
        forall|i: int| 0 <= i < slots.len() && i != k ==> slots2[i] == #[trigger] slots[i],
        slot_records(nodes, slots2[k]) == slot_records(nodes, slots[k]).push(rec),
        upto <= slots.len(),
    ensures
        records_by_slot(nodes, slots2, upto).to_multiset() == if k < upto {
            records_by_slot(nodes, slots, upto).to_multiset().insert(rec)
        } else {
            records_by_slot(nodes, slots, upto).to_multiset()
        },
    decreases upto,
{
    broadcast use vstd::seq_lib::group_to_multiset_ensures;
    broadcast use vstd::seq_lib::lemma_multiset_commutative;

    if upto > 0 {
        lemma_records_by_slot_update(nodes, slots, slots2, k, rec, upto - 1);
        let p2 = records_by_slot(nodes, slots2, upto - 1);
        let p1 = records_by_slot(nodes, slots, upto - 1);
        let seg2 = slot_records(nodes, slots2[upto - 1]);
        let seg1 = slot_records(nodes, slots[upto - 1]);
        if upto - 1 == k {
            assert(seg2 == seg1.push(rec));
            assert(seg2.to_multiset() == seg1.to_multiset().insert(rec));
            assert(p2.to_multiset().add(seg1.to_multiset().insert(rec)) =~= p1.to_multiset().add(
                seg1.to_multiset(),
            ).insert(rec));
        } else {
            assert(seg2 == seg1);
            if k < upto - 1 {
                assert(p2.to_multiset().add(seg1.to_multiset()) =~= p1.to_multiset().insert(
                    rec,
                ).add(seg1.to_multiset()));
                assert(p1.to_multiset().insert(rec).add(seg1.to_multiset()) =~= p1.to_multiset()
                    .add(seg1.to_multiset()).insert(rec));
            }
        }
    }
}

/// Appending one edge inserts exactly its record into the flattened
/// multiset.
pub proof fn lemma_append_edge_records(
    nodes: Seq<String>,
    slots: Seq<SlotModel>,
    src: usize,
    dst: usize,
    e: IntervalTvgEdge,
)
    requires
        crate::tvg::slots_uniquely_keyed(slots),
    ensures
        ({
            let s2 = spec_append_edge(slots, src, dst, e);
            records_by_slot(nodes, s2, s2.len() as int).to_multiset() == records_by_slot(
                nodes,
                slots,
                slots.len() as int,
            ).to_multiset().insert(rec_for(nodes, src, dst, e))
        }),
{
    broadcast use vstd::seq_lib::group_to_multiset_ensures;
    broadcast use vstd::seq_lib::lemma_multiset_commutative;

    let rec = rec_for(nodes, src, dst, e);
    let s2 = spec_append_edge(slots, src, dst, e);
    if crate::tvg::has_slot(slots, src, dst) {
        let k = crate::tvg::slot_id_of(slots, src, dst);
        assert(0 <= k < slots.len() && slots[k].src == src && slots[k].dst == dst);
        assert(slot_records(nodes, s2[k]) == slot_records(nodes, slots[k]).push(rec)) by {
            assert(s2[k].edges == slots[k].edges.push(e));
            assert(slot_records(nodes, s2[k]) =~= slot_records(nodes, slots[k]).push(rec));
        }
        lemma_records_by_slot_update(nodes, slots, s2, k, rec, slots.len() as int);
    } else {
        let newslot = SlotModel { src, dst, edges: seq![e] };
        assert(s2 == slots.push(newslot));
        assert(records_by_slot(nodes, s2, s2.len() as int) == records_by_slot(
            nodes,
            s2,
            slots.len() as int,
        ) + slot_records(nodes, newslot));
        lemma_records_by_slot_prefix(nodes, s2, slots, slots.len() as int);
        assert(slot_records(nodes, newslot) =~= Seq::<EdgeRecModel>::empty().push(rec));
        assert(records_by_slot(nodes, slots, slots.len() as int) + Seq::<
            EdgeRecModel,
        >::empty().push(rec) =~= records_by_slot(nodes, slots, slots.len() as int).push(rec));
    }
}

/// Decoding a list of resolvable records adds exactly those records to the
/// flattened multiset.
pub proof fn lemma_decode_edges_records(
    nodes: Seq<String>,
    slots: Seq<SlotModel>,
    edges: Seq<EdgeRecModel>,
)
    requires
        crate::tvg::slots_uniquely_keyed(slots),
        all_resolvable(nodes, edges),
        nodes.len() <= usize::MAX,
    ensures
        ({
            let s2 = spec_decode_edges(nodes, slots, edges);
            records_by_slot(nodes, s2, s2.len() as int).to_multiset() == records_by_slot(
                nodes,
                slots,
                slots.len() as int,
            ).to_multiset().add(edges.to_multiset())
        }),
    decreases edges.len(),
{
    broadcast use vstd::seq_lib::group_to_multiset_ensures;
    broadcast use vstd::seq_lib::lemma_multiset_commutative;

    let s2 = spec_decode_edges(nodes, slots, edges);
    if edges.len() == 0 {
        assert(edges.to_multiset() =~= Multiset::<EdgeRecModel>::empty()) by {
            assert(edges.to_multiset().len() == 0);
        }
        assert(records_by_slot(nodes, slots, slots.len() as int).to_multiset().add(
            Multiset::<EdgeRecModel>::empty(),
        ) =~= records_by_slot(nodes, slots, slots.len() as int).to_multiset());
    } else {
        let e0 = edges[0];
        assert(edge_resolvable(nodes, e0));
        let i_from = node_id_of(nodes, e0.from);
        let i_to = node_id_of(nodes, e0.to);
        assert(0 <= i_from < nodes.len() && nodes[i_from]@ == e0.from);
        assert(0 <= i_to < nodes.len() && nodes[i_to]@ == e0.to);
        let mid = spec_append_edge(slots, i_from as usize, i_to as usize, rec_edge(e0));
        assert(rec_for(nodes, i_from as usize, i_to as usize, rec_edge(e0)) == e0);
        lemma_append_edge_records(nodes, slots, i_from as usize, i_to as usize, rec_edge(e0));
        lemma_append_edge_unique(slots, i_from as usize, i_to as usize, rec_edge(e0));
        assert(all_resolvable(nodes, edges.drop_first())) by {
            assert(forall|j: int|
                0 <= j < edges.drop_first().len() ==> #[trigger] edges.drop_first()[j] == edges[j
                    + 1]);
        }
        lemma_decode_edges_records(nodes, mid, edges.drop_first());
        let base = records_by_slot(nodes, slots, slots.len() as int).to_multiset();
        assert(records_by_slot(nodes, s2, s2.len() as int).to_multiset() == base.insert(e0).add(
            edges.drop_first().to_multiset(),
        ));
        assert(edges =~= seq![e0] + edges.drop_first());
        assert(edges.to_multiset() == (seq![e0] + edges.drop_first()).to_multiset());
        assert(seq![e0] =~= Seq::<EdgeRecModel>::empty().push(e0));
        assert(seq![e0].to_multiset() == Seq::<EdgeRecModel>::empty().to_multiset().insert(e0));
        assert(Seq::<EdgeRecModel>::empty().to_multiset() =~= Multiset::<EdgeRecModel>::empty())
            by {
            assert(Seq::<EdgeRecModel>::empty().to_multiset().len() == 0);
        }
        assert(base.insert(e0).add(edges.drop_first().to_multiset()) =~= base.add(
            edges.to_multiset(),
        ));
    }
}

/// A store without slots flattens to no records.
proof fn lemma_by_node_empty(nodes: Seq<String>, slots: Seq<SlotModel>, upto: int)
    requires
        slots.len() == 0,
    ensures
        records_by_node(nodes, slots, upto) == Seq::<EdgeRecModel>::empty(),
    decreases upto,
{
    if upto > 0 {
        lemma_by_node_empty(nodes, slots, upto - 1);
        assert(records_by_node(nodes, slots, upto) =~= Seq::<EdgeRecModel>::empty());
    }
}

/// Dropping the final slot removes exactly its records from the node-major
/// flattening, provided its source node lies within the walked range.
proof fn lemma_by_node_drop_last(nodes: Seq<String>, slots: Seq<SlotModel>, upto: int)
    requires
        slots.len() >= 1,
    ensures
        ({
            let s0 = slots.drop_last();
            let last = slots[slots.len() - 1];
            records_by_node(nodes, slots, upto).to_multiset() == if (last.src as int) < upto {
                records_by_node(nodes, s0, upto).to_multiset().add(
                    slot_records(nodes, last).to_multiset(),
                )
            } else {
                records_by_node(nodes, s0, upto).to_multiset()
            }
        }),
    decreases upto,
{
    broadcast use vstd::seq_lib::group_to_multiset_ensures;
    broadcast use vstd::seq_lib::lemma_multiset_commutative;

    let s0 = slots.drop_last();
    let last = slots[slots.len() - 1];
    if upto > 0 {
        lemma_by_node_drop_last(nodes, slots, upto - 1);
        let v = upto - 1;
        lemma_node_slot_records_prefix(nodes, slots, s0, v, slots.len() - 1);
        let a2 = records_by_node(nodes, slots, v);
        let a1 = records_by_node(nodes, s0, v);
        let b2 = node_slot_records(nodes, slots, v, slots.len() as int);
        let b1 = node_slot_records(nodes, s0, v, s0.len() as int);
        let lm = slot_records(nodes, last).to_multiset();
        assert(records_by_node(nodes, slots, upto) == a2 + b2);
        assert(records_by_node(nodes, s0, upto) == a1 + b1);
        if last.src as int == v {
            assert(b2 == b1 + slot_records(nodes, last));
            assert(a2.to_multiset() == a1.to_multiset());
            assert((a2 + b2).to_multiset() =~= (a1 + b1).to_multiset().add(lm));
        } else {
            assert(b2 == b1);
            if (last.src as int) < v {
                assert(a2.to_multiset() == a1.to_multiset().add(lm));
                assert((a2 + b2).to_multiset() =~= (a1 + b1).to_multiset().add(lm));
            } else {
                assert(a2.to_multiset() == a1.to_multiset());
                assert((a2 + b2).to_multiset() =~= (a1 + b1).to_multiset());
            }
        }
    }
}

/// Walking records node by node and walking them slot by slot flatten the
/// same multiset of records: each slot's source is exactly one node of the
/// store.
pub proof fn lemma_records_partition(nodes: Seq<String>, slots: Seq<SlotModel>)
    requires
        crate::tvg::wf_slots(nodes, slots),
    ensures
        records_by_node(nodes, slots, nodes.len() as int).to_multiset() == records_by_slot(
            nodes,
            slots,
            slots.len() as int,
        ).to_multiset(),
    decreases slots.len(),
{
    broadcast use vstd::seq_lib::group_to_multiset_ensures;
    broadcast use vstd::seq_lib::lemma_multiset_commutative;

    if slots.len() == 0 {
        lemma_by_node_empty(nodes, slots, nodes.len() as int);
        assert(records_by_slot(nodes, slots, 0) == Seq::<EdgeRecModel>::empty());
    } else {
        let s0 = slots.drop_last();
        let last = slots[slots.len() - 1];
        assert(crate::tvg::wf_slots(nodes, s0)) by {
            assert(forall|i: int| 0 <= i < s0.len() ==> s0[i] == #[trigger] slots[i]);
        }
        lemma_records_partition(nodes, s0);
        lemma_by_node_drop_last(nodes, slots, nodes.len() as int);
        assert((last.src as int) < nodes.len());
        lemma_records_by_slot_prefix(nodes, slots, s0, slots.len() - 1);
        assert(records_by_slot(nodes, slots, slots.len() as int) == records_by_slot(
            nodes,
            s0,
            s0.len() as int,
        ) + slot_records(nodes, last));
    }
}

/// Inserting labels can only grow the node list by their number.
proof fn lemma_add_labels_len(nodes: Seq<String>, labels: Seq<String>)
    ensures
        spec_add_labels(nodes, labels).len() <= nodes.len() + labels.len(),
    decreases labels.len(),
{
    if labels.len() > 0 {
        lemma_add_labels_len(spec_add_node(nodes, labels[0]), labels.drop_first());
    }
}

/// A label view is listed among a label sequence's views exactly when some
/// entry carries it.
proof fn lemma_label_views_membership(a: Seq<String>, v: Seq<char>)
    ensures
        label_views(a).contains(v) <==> has_node(a, v),
{
    if label_views(a).contains(v) {
        let i = choose|i: int| 0 <= i < label_views(a).len() && label_views(a)[i] == v;
        assert(a[i]@ == v);
    }
    if has_node(a, v) {
        let i = node_id_of(a, v);
        assert(label_views(a)[i] == v);
        assert(label_views(a).contains(v));
    }
}

/// Round trip: decoding an exchange payload into an empty store, then
/// flattening the store back, yields a payload with the same node set
/// (order-insensitive, compared by label) and the same multiset of flat
/// edge records.
pub proof fn lemma_exchange_round_trip(d: ExchangeModel)
    requires
        d.nodes.len() <= usize::MAX,
        all_resolvable(spec_add_labels(Seq::<String>::empty(), d.nodes), d.edges),
    ensures
        ({
            let g = spec_decode(
                GraphModel { nodes: Seq::<String>::empty(), slots: Seq::<SlotModel>::empty() },
                d,
            );
            let out = spec_encode(g);
            &&& label_views(out.nodes).to_set() == label_views(d.nodes).to_set()
            &&& out.edges.to_multiset() == d.edges.to_multiset()
        }),
{
    broadcast use vstd::seq_lib::group_to_multiset_ensures;

    let g0 = GraphModel { nodes: Seq::<String>::empty(), slots: Seq::<SlotModel>::empty() };
    let nodes2 = spec_add_labels(g0.nodes, d.nodes);
    let g = spec_decode(g0, d);
    let out = spec_encode(g);
    assert(g.nodes == nodes2);
    // The node sets agree: membership through the dedup-insert fold.
    assert forall|v: Seq<char>|
        label_views(g.nodes).to_set().contains(v) == label_views(
            d.nodes,
        ).to_set().contains(v) by {
        lemma_label_views_membership(g.nodes, v);
        lemma_label_views_membership(d.nodes, v);
        lemma_add_labels_membership(g0.nodes, d.nodes, v);
        assert(!has_node(g0.nodes, v));
        assert(seq_has_label(d.nodes, v) <==> has_node(d.nodes, v));
    }
    assert(label_views(g.nodes).to_set() =~= label_views(d.nodes).to_set());
    // The record multisets agree: decoding adds exactly the input records to
    // the slot-major flattening, and the node-major flattening is a
    // permutation of the slot-major one.
    lemma_add_labels_len(g0.nodes, d.nodes);
    assert(crate::tvg::wf_slots(nodes2, g0.slots));
    lemma_decode_edges_wf(nodes2, g0.slots, d.edges);
    lemma_decode_edges_records(nodes2, g0.slots, d.edges);
    assert(records_by_slot(nodes2, g0.slots, 0) == Seq::<EdgeRecModel>::empty());
    assert(Seq::<EdgeRecModel>::empty().to_multiset() =~= Multiset::<EdgeRecModel>::empty()) by {
        assert(Seq::<EdgeRecModel>::empty().to_multiset().len() == 0);
    }
    assert(Multiset::<EdgeRecModel>::empty().add(d.edges.to_multiset())
        =~= d.edges.to_multiset());
    assert(records_by_slot(nodes2, g.slots, g.slots.len() as int).to_multiset()
        == d.edges.to_multiset());
    lemma_records_partition(nodes2, g.slots);
    assert(out.edges.to_multiset() == d.edges.to_multiset());
}

/// Membership after one deduplicated insertion: the label's own view joins
/// the set, nothing else changes.
pub proof fn lemma_add_node_membership(nodes: Seq<String>, label: String, v: Seq<char>)
    ensures
        has_node(spec_add_node(nodes, label), v) <==> (has_node(nodes, v) || label@ == v),
{
    let ns = spec_add_node(nodes, label);
    if has_node(nodes, label@) {
        if label@ == v {
            let i = node_id_of(nodes, label@);
            assert(nodes[i]@ == v);
        }
    } else {
        if has_node(nodes, v) {
            let i = node_id_of(nodes, v);
            assert(ns[i]@ == v);
        }
        if label@ == v {
            assert(ns[nodes.len() as int]@ == v);
        }
        if has_node(ns, v) && !(label@ == v) {
            let i = node_id_of(ns, v);
            assert(ns[i]@ == v);
            if i < nodes.len() {
                assert(nodes[i]@ == v);
            }
        }
    }
}

/// Membership after inserting a list of labels: the union of the old node
/// views and the listed label views.
pub proof fn lemma_add_labels_membership(nodes: Seq<String>, labels: Seq<String>, v: Seq<char>)
    ensures
        has_node(spec_add_labels(nodes, labels), v) <==> (has_node(nodes, v) || seq_has_label(
            labels,
            v,
        )),
    decreases labels.len(),
{
    if labels.len() == 0 {
        assert(!seq_has_label(labels, v));
    } else {
        lemma_add_node_membership(nodes, labels[0], v);
        lemma_add_labels_membership(spec_add_node(nodes, labels[0]), labels.drop_first(), v);
        assert(seq_has_label(labels, v) <==> (labels[0]@ == v || seq_has_label(
            labels.drop_first(),
            v,
        ))) by {
            if seq_has_label(labels, v) {
                let j = choose|j: int| 0 <= j < labels.len() && #[trigger] labels[j]@ == v;
                if j > 0 {
                    assert(labels.drop_first()[j - 1]@ == v);
                }
            }
            if seq_has_label(labels.drop_first(), v) {
                let j = choose|j: int|
                    0 <= j < labels.drop_first().len() && #[trigger] labels.drop_first()[j]@ == v;
                assert(labels[j + 1]@ == v);
            }
        }
    }
}

} // verus!
