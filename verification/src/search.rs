//! The path exploration engine: depth-bounded, depth-first search over the
//! graph store from a start node, with branch-local visited state.
//!
//! The search keeps a *branch-local* visited sequence (the nodes already on
//! the current branch, in visitation order): the same node may legitimately
//! be reached again on a disjoint branch, so visited state is copied, not
//! mutated in place, before each recursive step. The depth counter equals
//! the visited-sequence length, and a branch stops expanding once that
//! length exceeds the depth bound.

use vstd::prelude::*;

use crate::channel::ChannelClosed;
use crate::channel::send_result;
use crate::tvg::GraphModel;
use crate::tvg::IntervalTvgEdge;
use crate::tvg::SlotModel;
use crate::tvg::Tvg;
use crate::tvg::has_slot;
use crate::tvg::slot_id_of;
use crate::tvg::TvgEdge;
use crate::tvg_path::TvgPath;

verus! {

/// The outgoing neighbours contributed by the first `n` slots: for each slot
/// with source `v`, in slot (creation) order, its target.
pub open spec fn neighbors_up_to(slots: Seq<SlotModel>, v: usize, n: int) -> Seq<usize>
    decreases n,
{
    if n <= 0 {
        Seq::empty()
    } else {
        let p = neighbors_up_to(slots, v, n - 1);
        if slots[n - 1].src == v {
            p.push(slots[n - 1].dst)
        } else {
            p
        }
    }
}

/// All nodes reachable from `v` via one directed edge, in the store's
/// edge-insertion order.
pub open spec fn spec_neighbors(g: GraphModel, v: usize) -> Seq<usize> {
    neighbors_up_to(g.slots, v, g.slots.len() as int)
}

/// Every listed neighbour really is joined to `v` by a slot.
pub proof fn lemma_neighbors_connected(slots: Seq<SlotModel>, v: usize, n: int)
    requires
        n <= slots.len(),
    ensures
        forall|m: int|
            0 <= m < neighbors_up_to(slots, v, n).len() ==> has_slot(
                slots,
                v,
                #[trigger] neighbors_up_to(slots, v, n)[m],
            ),
    decreases n,
{
    if n > 0 {
        lemma_neighbors_connected(slots, v, n - 1);
        let nb = neighbors_up_to(slots, v, n);
        let p = neighbors_up_to(slots, v, n - 1);
        assert forall|m: int| 0 <= m < nb.len() implies has_slot(slots, v, #[trigger] nb[m]) by {
            if m < p.len() {
                assert(has_slot(slots, v, p[m]));
            } else {
                assert(slots[n - 1].src == v && slots[n - 1].dst == nb[m]);
            }
        }
    }
}

/// Every index in the sequence names an existing node.
pub open spec fn nodes_valid(g: GraphModel, chain: Seq<usize>) -> bool {
    forall|t: int| 0 <= t < chain.len() ==> (#[trigger] chain[t]) < g.nodes.len()
}

/// Each consecutive pair of the sequence is joined by a forward slot.
pub open spec fn chain_connected(g: GraphModel, chain: Seq<usize>) -> bool {
    forall|t: int| 0 <= t < chain.len() - 1 ==> has_slot(g.slots, #[trigger] chain[t], chain[t + 1])
}

/// Each consecutive pair of the sequence is joined by a backward slot.
pub open spec fn chain_connected_rev(g: GraphModel, chain: Seq<usize>) -> bool {
    forall|t: int| 0 <= t < chain.len() - 1 ==> has_slot(g.slots, chain[t + 1], #[trigger] chain[t])
}

/// The snapshot of one hop `a -> b`: every interval edge on the slot `a -> b`
/// and, if the bidirectional flag is set, also every interval edge on the
/// slot `b -> a`.
pub open spec fn spec_hop(g: GraphModel, a: usize, b: usize, bidirectional: bool) -> Seq<
    IntervalTvgEdge,
> {
    let fwd = g.slots[slot_id_of(g.slots, a, b)].edges;
    if bidirectional {
        fwd + g.slots[slot_id_of(g.slots, b, a)].edges
    } else {
        fwd
    }
}

/// The materialized path along a chain of nodes: one hop snapshot per
/// consecutive pair.
pub open spec fn spec_path(g: GraphModel, chain: Seq<usize>, bidirectional: bool) -> Seq<
    Seq<IntervalTvgEdge>,
> {
    Seq::new(
        if chain.len() == 0 {
            0
        } else {
            (chain.len() - 1) as nat
        },
        |t: int| spec_hop(g, chain[t], chain[t + 1], bidirectional),
    )
}

/// The remaining expansion budget of a branch whose visited sequence has the
/// given length: zero (stop, no expansion) once the length exceeds the depth
/// bound, and shrinking by one with every hop.
pub open spec fn budget_of(visited_len: nat, max_depth: nat) -> nat {
    if visited_len > max_depth {
        0
    } else {
        (max_depth + 1 - visited_len) as nat
    }
}

/// The depth bound the search runs under: the caller's, or 3 by default.
pub open spec fn depth_or_default(max_depth: Option<usize>) -> nat {
    match max_depth {
        Some(d) => d as nat,
        None => 3,
    }
}

/// The results of the depth-first search from `frontier` with the given
/// branch-local visited sequence, under per-node match flags: for each
/// not-yet-visited neighbour, in edge order, either the materialized path to
/// it (when its flag is set; the branch does not expand past a match), or
/// the results of recursing into it with one hop less budget.
pub open spec fn search_results(
    g: GraphModel,
    frontier: usize,
    visited: Seq<usize>,
    flags: Seq<bool>,
    budget: nat,
) -> Seq<(String, Seq<Seq<IntervalTvgEdge>>)>
    decreases budget, spec_neighbors(g, frontier).len() + 1,
{
    if budget == 0 {
        Seq::empty()
    } else {
        search_scan(g, frontier, visited, flags, budget, 0)
    }
}

/// The part of `search_results` contributed by the neighbours of `frontier`
/// from position `i` on.
pub open spec fn search_scan(
    g: GraphModel,
    frontier: usize,
    visited: Seq<usize>,
    flags: Seq<bool>,
    budget: nat,
    i: int,
) -> Seq<(String, Seq<Seq<IntervalTvgEdge>>)>
    decreases budget, spec_neighbors(g, frontier).len() - i,
{
    let nbrs = spec_neighbors(g, frontier);
    if budget == 0 || i < 0 || i >= nbrs.len() {
        Seq::empty()
    } else {
        let nb = nbrs[i];
        let here: Seq<(String, Seq<Seq<IntervalTvgEdge>>)> = if visited.contains(nb) {
            Seq::empty()
        } else if flags[nb as int] {
            seq![(g.nodes[nb as int], spec_path(g, visited.push(nb), false))]
        } else {
            search_results(g, nb, visited.push(nb), flags, (budget - 1) as nat)
        };
        here + search_scan(g, frontier, visited, flags, budget, i + 1)
    }
}

/// The mathematical reading of an executable result vector: each entry's
/// label together with its path's view.
pub open spec fn results_model(r: Seq<(String, TvgPath)>) -> Seq<
    (String, Seq<Seq<IntervalTvgEdge>>),
> {
    Seq::new(r.len(), |i: int| (r[i].0, r[i].1@))
}

/// The flags vector is one possible outcome of asking the stop predicate
/// about every node label.
pub open spec fn flags_consistent<F: Fn(&String) -> bool>(
    g: GraphModel,
    search_function: F,
    flags: Seq<bool>,
) -> bool {
    &&& flags.len() == g.nodes.len()
    &&& forall|i: int|
        0 <= i < flags.len() ==> call_ensures(
            search_function,
            (&g.nodes[i],),
            #[trigger] flags[i],
        )
}

/// A search whose predicate matched no node emits nothing, whatever the
/// depth bound: every branch halts without reaching a match.
pub proof fn lemma_no_match_no_results(
    g: GraphModel,
    frontier: usize,
    visited: Seq<usize>,
    flags: Seq<bool>,
    budget: nat,
)
    requires
        g.wf(),
        flags.len() == g.nodes.len(),
        forall|i: int| 0 <= i < flags.len() ==> !(#[trigger] flags[i]),
    ensures
        search_results(g, frontier, visited, flags, budget).len() == 0,
    decreases budget, spec_neighbors(g, frontier).len() + 1,
{
    if budget != 0 {
        lemma_no_match_scan(g, frontier, visited, flags, budget, 0);
    }
}

/// As `lemma_no_match_no_results`, from neighbour position `i` on.
proof fn lemma_no_match_scan(
    g: GraphModel,
    frontier: usize,
    visited: Seq<usize>,
    flags: Seq<bool>,
    budget: nat,
    i: int,
)
    requires
        g.wf(),
        flags.len() == g.nodes.len(),
        forall|i: int| 0 <= i < flags.len() ==> !(#[trigger] flags[i]),
    ensures
        search_scan(g, frontier, visited, flags, budget, i).len() == 0,
    decreases budget, spec_neighbors(g, frontier).len() - i,
{
    let nbrs = spec_neighbors(g, frontier);
    if budget != 0 && 0 <= i < nbrs.len() {
        lemma_neighbors_connected(g.slots, frontier, g.slots.len() as int);
        let nb = nbrs[i];
        assert(has_slot(g.slots, frontier, nb));
        let k = slot_id_of(g.slots, frontier, nb);
        assert(0 <= k < g.slots.len() && g.slots[k].src == frontier && g.slots[k].dst == nb);
        assert(!flags[nb as int]);
        if !visited.contains(nb) {
            lemma_no_match_no_results(g, nb, visited.push(nb), flags, (budget - 1) as nat);
        }
        lemma_no_match_scan(g, frontier, visited, flags, budget, i + 1);
    }
}

/// The smaller of two naturals.
pub open spec fn nat_min(a: nat, b: nat) -> nat {
    if a <= b {
        a
    } else {
        b
    }
}

/// Whether an index occurs in a vector of node indices.
fn contains_index(v: &Vec<usize>, x: usize) -> (r: bool)
    ensures
        r == v@.contains(x),
{
    let n = v.len();
    for i in 0..n
        invariant
            n == v@.len(),
            forall|j: int| 0 <= j < i ==> v@[j] != x,
    {
        if v[i] == x {
            return true;
        }
    }
    false
}

/// An owned copy of a vector of node indices.
fn copy_indices(v: &Vec<usize>) -> (r: Vec<usize>)
    ensures
        r@ == v@,
{
    let mut out: Vec<usize> = Vec::new();
    let n = v.len();
    for i in 0..n
        invariant
            n == v@.len(),
            out@ == v@.take(i as int),
    {
        out.push(v[i]);
        proof {
            assert(v@.take(i as int).push(v@[i as int]) =~= v@.take(i + 1));
        }
    }
    proof {
        assert(v@.take(n as int) =~= v@);
    }
    out
}

/// Saturating addition on `usize`.
fn sat_add(a: usize, b: usize) -> (r: usize)
    ensures
        r as nat == nat_min(a as nat + b as nat, usize::MAX as nat),
{
    if a <= usize::MAX - b {
        a + b
    } else {
        usize::MAX
    }
}

impl Tvg {
    /// All nodes reachable from `node` via one directed edge, in the store's
    /// edge-insertion order (not sorted, not deduplicated).
    pub fn neighbors_outgoing(&self, node: usize) -> (r: Vec<usize>)
        ensures
            r@ == spec_neighbors(self@, node),
    {
        let mut out: Vec<usize> = Vec::new();
        let n = self.edge_slot_count();
        for k in 0..n
            invariant
                n == self@.slots.len(),
                out@ == neighbors_up_to(self@.slots, node, k as int),
        {
            let (src, dst) = self.slot_endpoints(k);
            if src == node {
                out.push(dst);
            }
        }
        out
    }

    /// Materialize the path along `chain`: for each consecutive pair, the
    /// snapshot of every interval edge on their forward slot (and on their
    /// backward slot too when `bidirectional` is set).
    pub fn materialize_path(&self, chain: &Vec<usize>, bidirectional: bool) -> (r: TvgPath)
        requires
            self.wf(),
            chain_connected(self@, chain@),
            bidirectional ==> chain_connected_rev(self@, chain@),
        ensures
            r@ == spec_path(self@, chain@, bidirectional),
    {
        let mut hops: Vec<TvgEdge> = Vec::new();
        if chain.len() == 0 {
            let r = TvgPath::from_vec(hops);
            proof {
                assert(r@ =~= spec_path(self@, chain@, bidirectional));
            }
            return r;
        }
        let n = chain.len() - 1;
        for t in 0..n
            invariant
                self.wf(),
                chain_connected(self@, chain@),
                bidirectional ==> chain_connected_rev(self@, chain@),
                n == chain@.len() - 1,
                hops@.len() == t,
                forall|u: int|
                    0 <= u < t ==> #[trigger] hops@[u]@ == spec_hop(
                        self@,
                        chain@[u],
                        chain@[u + 1],
                        bidirectional,
                    ),
        {
            let mut i_edges: Vec<IntervalTvgEdge> = Vec::new();
            self.append_slot_edges(chain[t], chain[t + 1], &mut i_edges);
            if bidirectional {
                self.append_slot_edges(chain[t + 1], chain[t], &mut i_edges);
            }
            proof {
                assert(i_edges@ =~= spec_hop(self@, chain@[t as int], chain@[t + 1], bidirectional));
            }
            hops.push(TvgEdge::from_vec(i_edges));
        }
        let r = TvgPath::from_vec(hops);
        proof {
            let sp = spec_path(self@, chain@, bidirectional);
            assert forall|u: int| 0 <= u < n implies r@[u] == sp[u] by {
                assert(hops@[u]@ == spec_hop(self@, chain@[u], chain@[u + 1], bidirectional));
            }
            assert(r@ =~= sp);
        }
        r
    }

    /// Append every interval edge of the slot `from -> to` to `i_edges`, in
    /// arrival order. Stepping between two unconnected nodes would be a
    /// structural invariant violation, excluded here by precondition: the
    /// branch-building search only ever steps along real edges.
    fn append_slot_edges(&self, from: usize, to: usize, i_edges: &mut Vec<IntervalTvgEdge>)
        requires
            self.wf(),
            has_slot(self@.slots, from, to),
        ensures
            final(i_edges)@ == old(i_edges)@ + self@.slots[slot_id_of(self@.slots, from, to)].edges,
    {
        let k = match self.find_slot(from, to) {
            Some(k) => k,
            None => {
                proof {
                    assert(false);
                }
                0
            },
        };
        proof {
            crate::tvg::lemma_unique_slot_id(self@.slots, from, to, k as int);
        }
        let slot_edges = self.slot_edges(k);
        let m = slot_edges.len();
        for e in 0..m
            invariant
                m == slot_edges@.len(),
                i_edges@ == old(i_edges)@ + slot_edges@.take(e as int),
        {
            i_edges.push(slot_edges[e]);
            proof {
                assert(old(i_edges)@ + slot_edges@.take(e as int) + seq![slot_edges@[e as int]]
                    =~= old(i_edges)@ + slot_edges@.take(e + 1));
            }
        }
        proof {
            assert(slot_edges@.take(m as int) =~= slot_edges@);
        }
    }

    /// Ask the stop predicate about every node label, in index order; entry
    /// `i` of the result is the predicate's answer for node `i`.
    pub fn match_flags<F: Fn(&String) -> bool>(&self, search_function: F) -> (r: Vec<bool>)
        requires
            forall|s: &String| #[trigger] call_requires(search_function, (s,)),
        ensures
            flags_consistent(self@, search_function, r@),
    {
        let n = self.node_count();
        let mut flags: Vec<bool> = Vec::new();
        for i in 0..n
            invariant
                n == self@.nodes.len(),
                flags@.len() == i,
                forall|j: int|
                    0 <= j < i ==> call_ensures(
                        search_function,
                        (&self@.nodes[j],),
                        #[trigger] flags@[j],
                    ),
                forall|s: &String| #[trigger] call_requires(search_function, (s,)),
        {
            let b = search_function(self.node_label(i));
            flags.push(b);
        }
        flags
    }

    /// Depth-bounded, depth-first exploration from `start` under precomputed
    /// match flags, collecting every result in emission order.
    ///
    /// `visited` is the branch walked so far (each consecutive pair joined by
    /// an edge slot), ending at `start`; a caller beginning a fresh search
    /// passes the one-element branch holding `start` alone.
    pub fn explore_with_flags(
        &self,
        start: usize,
        visited: Vec<usize>,
        flags: &Vec<bool>,
        max_depth: usize,
    ) -> (r: Vec<(String, TvgPath)>)
        requires
            self.wf(),
            flags@.len() == self@.nodes.len(),
            visited@.len() >= 1,
            visited@[visited@.len() - 1] == start,
            nodes_valid(self@, visited@),
            chain_connected(self@, visited@),
        ensures
            results_model(r@) == search_results(
                self@,
                start,
                visited@,
                flags@,
                budget_of(visited@.len() as nat, max_depth as nat),
            ),
        decreases max_depth + 1 - visited@.len(),
    {
        let ghost budget = budget_of(visited@.len() as nat, max_depth as nat);
        let mut out: Vec<(String, TvgPath)> = Vec::new();
        if visited.len() > max_depth {
            proof {
                assert(results_model(out@) =~= search_results(
                    self@,
                    start,
                    visited@,
                    flags@,
                    budget,
                ));
            }
            return out;
        }
        let nbrs = self.neighbors_outgoing(start);
        proof {
            lemma_neighbors_connected(self@.slots, start, self@.slots.len() as int);
        }
        let n = nbrs.len();
        for idx in 0..n
            invariant
                self.wf(),
                flags@.len() == self@.nodes.len(),
                visited@.len() >= 1,
                visited@[visited@.len() - 1] == start,
                nodes_valid(self@, visited@),
                chain_connected(self@, visited@),
                visited@.len() <= max_depth,
                budget == budget_of(visited@.len() as nat, max_depth as nat),
                n == nbrs@.len(),
                nbrs@ == spec_neighbors(self@, start),
                forall|m: int|
                    0 <= m < nbrs@.len() ==> has_slot(self@.slots, start, #[trigger] nbrs@[m]),
                search_scan(self@, start, visited@, flags@, budget, 0) == results_model(out@)
                    + search_scan(self@, start, visited@, flags@, budget, idx as int),
        {
            let nb = nbrs[idx];
            proof {
                let k = slot_id_of(self@.slots, start, nb);
                assert(0 <= k < self@.slots.len() && self@.slots[k].src == start
                    && self@.slots[k].dst == nb);
            }
            let ghost pre_out = out@;
            if contains_index(&visited, nb) {
                proof {
                    assert(search_scan(self@, start, visited@, flags@, budget, idx as int)
                        =~= Seq::<(String, Seq<Seq<IntervalTvgEdge>>)>::empty() + search_scan(
                        self@,
                        start,
                        visited@,
                        flags@,
                        budget,
                        idx + 1,
                    ));
                    assert(results_model(out@) + search_scan(
                        self@,
                        start,
                        visited@,
                        flags@,
                        budget,
                        idx as int,
                    ) =~= results_model(out@) + search_scan(
                        self@,
                        start,
                        visited@,
                        flags@,
                        budget,
                        idx + 1,
                    ));
                }
            } else {
                let mut give_visited = copy_indices(&visited);
                give_visited.push(nb);
                proof {
                    assert(give_visited@ == visited@.push(nb));
                    assert(nodes_valid(self@, give_visited@)) by {
                        assert(forall|t: int|
                            0 <= t < visited@.len() ==> #[trigger] give_visited@[t] == visited@[t]);
                    }
                    assert(chain_connected(self@, give_visited@)) by {
                        assert forall|t: int| 0 <= t < give_visited@.len() - 1 implies has_slot(
                            self@.slots,
                            #[trigger] give_visited@[t],
                            give_visited@[t + 1],
                        ) by {
                            if t < visited@.len() - 1 {
                                assert(has_slot(self@.slots, visited@[t], visited@[t + 1]));
                            } else {
                                assert(give_visited@[t] == start && give_visited@[t + 1] == nb);
                            }
                        }
                    }
                }
                if flags[nb] {
                    let label = self.node_label(nb).clone();
                    let path = self.materialize_path(&give_visited, false);
                    out.push((label, path));
                    proof {
                        let one = seq![
                            (
                                self@.nodes[nb as int],
                                spec_path(self@, visited@.push(nb), false),
                            ),
                        ];
                        assert(search_scan(self@, start, visited@, flags@, budget, idx as int)
                            == one + search_scan(
                            self@,
                            start,
                            visited@,
                            flags@,
                            budget,
                            idx + 1,
                        ));
                        assert(results_model(out@) =~= results_model(pre_out) + one);
                        assert(results_model(pre_out) + (one + search_scan(
                            self@,
                            start,
                            visited@,
                            flags@,
                            budget,
                            idx + 1,
                        )) =~= results_model(out@) + search_scan(
                            self@,
                            start,
                            visited@,
                            flags@,
                            budget,
                            idx + 1,
                        ));
                    }
                } else {
                    proof {
                        assert(budget_of(give_visited@.len() as nat, max_depth as nat) == (budget
                            - 1) as nat);
                    }
                    let mut sub = self.explore_with_flags(nb, give_visited, flags, max_depth);
                    let ghost sub_model = results_model(sub@);
                    out.append(&mut sub);
                    proof {
                        assert(search_scan(self@, start, visited@, flags@, budget, idx as int)
                            == sub_model + search_scan(
                            self@,
                            start,
                            visited@,
                            flags@,
                            budget,
                            idx + 1,
                        ));
                        assert(results_model(out@) =~= results_model(pre_out) + sub_model);
                        assert(results_model(pre_out) + (sub_model + search_scan(
                            self@,
                            start,
                            visited@,
                            flags@,
                            budget,
                            idx + 1,
                        )) =~= results_model(out@) + search_scan(
                            self@,
                            start,
                            visited@,
                            flags@,
                            budget,
                            idx + 1,
                        ));
                    }
                }
            }
        }
        proof {
            assert(search_scan(self@, start, visited@, flags@, budget, n as int)
                =~= Seq::<(String, Seq<Seq<IntervalTvgEdge>>)>::empty());
            assert(results_model(out@) + Seq::<(String, Seq<Seq<IntervalTvgEdge>>)>::empty()
                =~= results_model(out@));
        }
        out
    }

    /// Depth-bounded, depth-first exploration from `start` under precomputed
    /// match flags, streaming each result to the bounded channel as it is
    /// found instead of buffering them.
    ///
    /// On success the result counts the emitted matches (saturating at
    /// `usize::MAX`); once the consumer disconnects, the search stops at the
    /// failed send and reports `ChannelClosed`. A search with nothing to
    /// send never touches the channel, so it always succeeds.
    pub fn stream_with_flags(
        &self,
        start: usize,
        visited: Vec<usize>,
        flags: &Vec<bool>,
        paths: &crossbeam_channel::Sender<(String, TvgPath)>,
        max_depth: usize,
    ) -> (r: Result<usize, ChannelClosed>)
        requires
            self.wf(),
            flags@.len() == self@.nodes.len(),
            visited@.len() >= 1,
            visited@[visited@.len() - 1] == start,
            nodes_valid(self@, visited@),
            chain_connected(self@, visited@),
        ensures
            r matches Ok(cnt) ==> cnt as nat == nat_min(
                search_results(
                    self@,
                    start,
                    visited@,
                    flags@,
                    budget_of(visited@.len() as nat, max_depth as nat),
                ).len(),
                usize::MAX as nat,
            ),
            search_results(
                self@,
                start,
                visited@,
                flags@,
                budget_of(visited@.len() as nat, max_depth as nat),
            ).len() == 0 ==> r is Ok,
        decreases max_depth + 1 - visited@.len(),
    {
        let ghost budget = budget_of(visited@.len() as nat, max_depth as nat);
        if visited.len() > max_depth {
            return Ok(0);
        }
        let nbrs = self.neighbors_outgoing(start);
        proof {
            lemma_neighbors_connected(self@.slots, start, self@.slots.len() as int);
        }
        let n = nbrs.len();
        let mut count: usize = 0;
        let ghost mut processed: nat = 0;
        for idx in 0..n
            invariant
                self.wf(),
                flags@.len() == self@.nodes.len(),
                visited@.len() >= 1,
                visited@[visited@.len() - 1] == start,
                nodes_valid(self@, visited@),
                chain_connected(self@, visited@),
                visited@.len() <= max_depth,
                budget == budget_of(visited@.len() as nat, max_depth as nat),
                n == nbrs@.len(),
                nbrs@ == spec_neighbors(self@, start),
                forall|m: int|
                    0 <= m < nbrs@.len() ==> has_slot(self@.slots, start, #[trigger] nbrs@[m]),
                search_scan(self@, start, visited@, flags@, budget, 0).len() == processed
                    + search_scan(self@, start, visited@, flags@, budget, idx as int).len(),
                count as nat == nat_min(processed, usize::MAX as nat),
        {
            let nb = nbrs[idx];
            proof {
                let k = slot_id_of(self@.slots, start, nb);
                assert(0 <= k < self@.slots.len() && self@.slots[k].src == start
                    && self@.slots[k].dst == nb);
            }
            if contains_index(&visited, nb) {
                proof {
                    assert(search_scan(self@, start, visited@, flags@, budget, idx as int)
                        =~= Seq::<(String, Seq<Seq<IntervalTvgEdge>>)>::empty() + search_scan(
                        self@,
                        start,
                        visited@,
                        flags@,
                        budget,
                        idx + 1,
                    ));
                }
            } else {
                let mut give_visited = copy_indices(&visited);
                give_visited.push(nb);
                proof {
                    assert(give_visited@ == visited@.push(nb));
                    assert(nodes_valid(self@, give_visited@)) by {
                        assert(forall|t: int|
                            0 <= t < visited@.len() ==> #[trigger] give_visited@[t] == visited@[t]);
                    }
                    assert(chain_connected(self@, give_visited@)) by {
                        assert forall|t: int| 0 <= t < give_visited@.len() - 1 implies has_slot(
                            self@.slots,
                            #[trigger] give_visited@[t],
                            give_visited@[t + 1],
                        ) by {
                            if t < visited@.len() - 1 {
                                assert(has_slot(self@.slots, visited@[t], visited@[t + 1]));
                            } else {
                                assert(give_visited@[t] == start && give_visited@[t + 1] == nb);
                            }
                        }
                    }
                }
                if flags[nb] {
                    proof {
                        // A match stands at this position: the whole result
                        // set cannot be empty, so an error return here keeps
                        // the promise of success on match-free searches.
                        let one = seq![
                            (
                                self@.nodes[nb as int],
                                spec_path(self@, visited@.push(nb), false),
                            ),
                        ];
                        assert(search_scan(self@, start, visited@, flags@, budget, idx as int)
                            == one + search_scan(
                            self@,
                            start,
                            visited@,
                            flags@,
                            budget,
                            idx + 1,
                        ));
                        assert(search_results(self@, start, visited@, flags@, budget).len() > 0);
                    }
                    let label = self.node_label(nb).clone();
                    let path = self.materialize_path(&give_visited, false);
                    match send_result(paths, label, path) {
                        Ok(()) => {},
                        Err(e) => {
                            return Err(e);
                        },
                    }
                    count = sat_add(count, 1);
                    proof {
                        processed = processed + 1;
                    }
                } else {
                    proof {
                        assert(budget_of(give_visited@.len() as nat, max_depth as nat) == (budget
                            - 1) as nat);
                    }
                    let ghost sub_results = search_results(
                        self@,
                        nb,
                        visited@.push(nb),
                        flags@,
                        (budget - 1) as nat,
                    );
                    let sub = match self.stream_with_flags(
                        nb,
                        give_visited,
                        flags,
                        paths,
                        max_depth,
                    ) {
                        Ok(c) => c,
                        Err(e) => {
                            proof {
                                // The callee only fails once something was to
                                // send: its branch, hence the whole result
                                // set, is non-empty.
                                assert(sub_results.len() > 0);
                                assert(search_scan(
                                    self@,
                                    start,
                                    visited@,
                                    flags@,
                                    budget,
                                    idx as int,
                                ) == sub_results + search_scan(
                                    self@,
                                    start,
                                    visited@,
                                    flags@,
                                    budget,
                                    idx + 1,
                                ));
                                assert(search_results(self@, start, visited@, flags@, budget).len()
                                    > 0);
                            }
                            return Err(e);
                        },
                    };
                    count = sat_add(count, sub);
                    proof {
                        assert(search_scan(self@, start, visited@, flags@, budget, idx as int)
                            == sub_results + search_scan(
                            self@,
                            start,
                            visited@,
                            flags@,
                            budget,
                            idx + 1,
                        ));
                        processed = processed + sub_results.len();
                    }
                }
            }
        }
        proof {
            assert(search_scan(self@, start, visited@, flags@, budget, n as int)
                =~= Seq::<(String, Seq<Seq<IntervalTvgEdge>>)>::empty());
        }
        Ok(count)
    }

    /// Walk through all paths from `start` whose length stays within
    /// `max_depth` (3 when unset), sending every branch that reaches a node
    /// accepted by `search_function` — as the pair of the matched node's
    /// label and the materialized path — to the supplied bounded channel.
    ///
    /// `visited` is the branch walked so far, ending at `start`; a caller
    /// beginning a fresh search passes the one-element branch holding `start`
    /// alone. On success the result counts the emitted matches (saturating
    /// at `usize::MAX`); once the consumer disconnects, the search stops at
    /// the failed send and reports `ChannelClosed`. A search with nothing to
    /// send — the depth budget exhausted, no reachable neighbours, or a
    /// predicate that never matches — never touches the channel and always
    /// succeeds with a count of zero.
    pub fn tvg_bfs<F: Fn(&String) -> bool>(
        &self,
        start: usize,
        visited: Vec<usize>,
        paths: &crossbeam_channel::Sender<(String, TvgPath)>,
        search_function: F,
        max_depth: Option<usize>,
    ) -> (r: Result<usize, ChannelClosed>)
        requires
            self.wf(),
            visited@.len() >= 1,
            visited@[visited@.len() - 1] == start,
            nodes_valid(self@, visited@),
            chain_connected(self@, visited@),
            forall|s: &String| #[trigger] call_requires(search_function, (s,)),
        ensures
            r matches Ok(cnt) ==> exists|flags: Seq<bool>|
                #[trigger] flags_consistent(self@, search_function, flags) && cnt as nat == nat_min(
                    search_results(
                        self@,
                        start,
                        visited@,
                        flags,
                        budget_of(visited@.len() as nat, depth_or_default(max_depth)),
                    ).len(),
                    usize::MAX as nat,
                ),
            (forall|flags: Seq<bool>|
                #[trigger] flags_consistent(self@, search_function, flags) ==> search_results(
                    self@,
                    start,
                    visited@,
                    flags,
                    budget_of(visited@.len() as nat, depth_or_default(max_depth)),
                ).len() == 0) ==> r is Ok,
    {
        let ghost gf = search_function;
        let ghost gvis = visited@;
        let depth = match max_depth {
            Some(d) => d,
            None => 3,
        };
        let flags = self.match_flags(search_function);
        let r = self.stream_with_flags(start, visited, &flags, paths, depth);
        proof {
            match r {
                Ok(cnt) => {
                    assert(flags_consistent(self@, gf, flags@) && cnt as nat == nat_min(
                        search_results(
                            self@,
                            start,
                            gvis,
                            flags@,
                            budget_of(gvis.len() as nat, depth_or_default(max_depth)),
                        ).len(),
                        usize::MAX as nat,
                    ));
                },
                Err(_) => {
                    // The callee fails only once something was to send, so
                    // the actual flags vector — one consistent outcome of the
                    // predicate — yields a non-empty result set.
                    assert(flags_consistent(self@, gf, flags@));
                    assert(search_results(
                        self@,
                        start,
                        gvis,
                        flags@,
                        budget_of(gvis.len() as nat, depth_or_default(max_depth)),
                    ).len() > 0);
                },
            }
        }
        r
    }
}

} // verus!
