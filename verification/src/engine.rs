//! The oscillator engine: node storage, CSR coupling topology, and the
//! integer phases of a simulation tick.

use crate::arena::{
    arena_get, arena_get_mut, arena_insert, arena_new, arena_nodes, handle_key,
    lemma_handle_key_injective, NodeId, NodeState,
};
use crate::bam::{
    lemma_advanced_is_wrapped_sum, lemma_signed_lag_is_shifted_difference, advance_phase, advanced, lemma_advance_composes, lemma_advance_step, lemma_lag_rotation_invariant,
    phase_add, phase_lag, signed_lag, turn,
};
use vstd::arithmetic::div_mod::{lemma_add_mod_noop, lemma_mod_bound, lemma_small_mod};
use ordex::prelude::OrdexArena;
use std::collections::HashSet;
use vstd::prelude::*;

verus! {

/// The number of times `id` occurs in `s`.
pub open spec fn occurrences(s: Seq<NodeId>, id: NodeId) -> nat
    decreases s.len(),
{
    if s.len() == 0 {
        0
    } else {
        occurrences(s.drop_last(), id) + if s.last() == id {
            1nat
        } else {
            0nat
        }
    }
}

/// The nodes after integrating every entry of `active` once by `dt`: each
/// node's phase advances by `d_theta * dt` per occurrence of its handle in
/// `active`, on the circle; velocities and the set of nodes do not change.
pub open spec fn integrated(nodes: Map<NodeId, NodeState>, active: Seq<NodeId>, dt: u32) -> Map<
    NodeId,
    NodeState,
> {
    Map::new(
        |id: NodeId| nodes.dom().contains(id),
        |id: NodeId|
            (NodeState {
                theta: advanced(nodes[id].theta, nodes[id].d_theta, dt, occurrences(active, id)),
                d_theta: nodes[id].d_theta,
            }),
    )
}

/// `after` is what integration leaves when `active` names a node that is
/// not live: the entries before the first such one have been integrated,
/// the rest not.
pub open spec fn first_unknown_active(
    nodes: Map<NodeId, NodeState>,
    active: Seq<NodeId>,
    dt: u32,
    after: Map<NodeId, NodeState>,
) -> bool {
    exists|k: int|
        0 <= k < active.len() && !nodes.dom().contains(#[trigger] active[k]) && (forall|j: int|
            0 <= j < k ==> nodes.dom().contains(#[trigger] active[j])) && after == integrated(
            nodes,
            active.take(k),
            dt,
        )
}

/// Where row `i` of a CSR topology begins in the flat edge order: the sum
/// of the first `i` counts.
pub open spec fn row_start(counts: Seq<u32>, i: int) -> int
    decreases i,
{
    if i <= 0 {
        0
    } else {
        row_start(counts, i - 1) + counts[i - 1]
    }
}

/// The position in the source list of the `j`-th source of row `i`.
pub open spec fn source_position(offsets: Seq<u32>, i: int, j: int) -> int {
    offsets[i] + j
}

/// The topology can be gathered without error: every row has an offset and
/// a count, every target and every referenced source is a live node, every
/// referenced source position exists, and the rows hold no more edges than
/// there are sources.
pub open spec fn topology_ready(
    nodes: Map<NodeId, NodeState>,
    targets: Seq<NodeId>,
    offsets: Seq<u32>,
    counts: Seq<u32>,
    sources: Seq<NodeId>,
) -> bool {
    &&& targets.len() <= offsets.len()
    &&& targets.len() <= counts.len()
    &&& forall|i: int| 0 <= i < targets.len() ==> nodes.dom().contains(#[trigger] targets[i])
    &&& forall|i: int, j: int|
        0 <= i < targets.len() && 0 <= j < counts[i] ==> {
            &&& 0 <= #[trigger] source_position(offsets, i, j) < sources.len()
            &&& nodes.dom().contains(sources[source_position(offsets, i, j)])
        }
    &&& row_start(counts, targets.len() as int) <= sources.len()
}

/// The phase lags of the first `j` edges of row `i`: for each, the signed
/// lag of the source's phase relative to the target's phase.
pub open spec fn row_lags(
    nodes: Map<NodeId, NodeState>,
    targets: Seq<NodeId>,
    offsets: Seq<u32>,
    sources: Seq<NodeId>,
    i: int,
    j: int,
) -> Seq<i32> {
    Seq::new(
        j as nat,
        |jj: int|
            signed_lag(
                nodes[sources[source_position(offsets, i, jj)]].theta,
                nodes[targets[i]].theta,
            ) as i32,
    )
}

/// The phase lags of the edges of the first `rows` rows, in flat edge order.
pub open spec fn gathered_lags(
    nodes: Map<NodeId, NodeState>,
    targets: Seq<NodeId>,
    offsets: Seq<u32>,
    counts: Seq<u32>,
    sources: Seq<NodeId>,
    rows: int,
) -> Seq<i32>
    decreases rows,
{
    if rows <= 0 {
        Seq::empty()
    } else {
        gathered_lags(nodes, targets, offsets, counts, sources, rows - 1) + row_lags(
            nodes,
            targets,
            offsets,
            sources,
            rows - 1,
            counts[rows - 1] as int,
        )
    }
}

proof fn lemma_row_start_monotone(counts: Seq<u32>, i: int, k: int)
    requires
        0 <= i <= k,
    ensures
        row_start(counts, i) <= row_start(counts, k),
    decreases k - i,
{
    if i < k {
        lemma_row_start_monotone(counts, i, k - 1);
    }
}

pub proof fn lemma_gathered_len(
    nodes: Map<NodeId, NodeState>,
    targets: Seq<NodeId>,
    offsets: Seq<u32>,
    counts: Seq<u32>,
    sources: Seq<NodeId>,
    rows: int,
)
    requires
        rows >= 0,
    ensures
        gathered_lags(nodes, targets, offsets, counts, sources, rows).len() == row_start(counts, rows),
    decreases rows,
{
    if rows > 0 {
        lemma_gathered_len(nodes, targets, offsets, counts, sources, rows - 1);
    }
}

/// The nodes after each target's phase has been advanced by its force, in
/// target order; every other node is kept. With no repeated target, node
/// `targets[i]` advances by exactly `forces[i]`.
pub open spec fn forced(nodes: Map<NodeId, NodeState>, targets: Seq<NodeId>, forces: Seq<u32>) -> Map<
    NodeId,
    NodeState,
> {
    Map::new(
        |id: NodeId| nodes.dom().contains(id),
        |id: NodeId|
            if targets.contains(id) {
                NodeState {
                    theta: phase_add(nodes[id].theta, forces[targets.index_of(id)]),
                    d_theta: nodes[id].d_theta,
                }
            } else {
                nodes[id]
            },
    )
}

/// The nodes with every phase rotated by the same angle `shift`.
pub open spec fn rotated(nodes: Map<NodeId, NodeState>, shift: u32) -> Map<NodeId, NodeState> {
    Map::new(
        |id: NodeId| nodes.dom().contains(id),
        |id: NodeId| (NodeState { theta: phase_add(nodes[id].theta, shift), d_theta: nodes[id].d_theta }),
    )
}

proof fn lemma_occurrences_absent(s: Seq<NodeId>, id: NodeId)
    requires
        !s.contains(id),
    ensures
        occurrences(s, id) == 0,
    decreases s.len(),
{
    if s.len() > 0 {
        assert(!s.drop_last().contains(id)) by {
            if s.drop_last().contains(id) {
                let k = choose|k: int| 0 <= k < s.drop_last().len() && s.drop_last()[k] == id;
                assert(s[k] == id);
            }
        }
        lemma_occurrences_absent(s.drop_last(), id);
        assert(s[s.len() - 1] != id);
    }
}

/// Integrating by `dt1` and then by `dt2` gives the same nodes as
/// integrating once by the wrapping sum of the two time steps.
pub proof fn lemma_integration_composes(
    nodes: Map<NodeId, NodeState>,
    active: Seq<NodeId>,
    dt1: u32,
    dt2: u32,
)
    ensures
        integrated(integrated(nodes, active, dt1), active, dt2) == integrated(nodes, active, phase_add(dt1, dt2)),
{
    let lhs = integrated(integrated(nodes, active, dt1), active, dt2);
    let rhs = integrated(nodes, active, phase_add(dt1, dt2));
    assert forall|id: NodeId| #[trigger] lhs.contains_key(id) implies lhs[id] == rhs[id] by {
        lemma_advance_composes(nodes[id].theta, nodes[id].d_theta, dt1, dt2, occurrences(active, id));
    }
    assert(lhs =~= rhs);
}

/// A zero time step leaves every node as it is.
pub proof fn lemma_zero_step_is_identity(nodes: Map<NodeId, NodeState>, active: Seq<NodeId>)
    ensures
        integrated(nodes, active, 0) == nodes,
{
    let m = integrated(nodes, active, 0);
    assert forall|id: NodeId| #[trigger] m.contains_key(id) implies m[id] == nodes[id] by {
        let c = occurrences(active, id);
        assert(c * (nodes[id].d_theta * 0) == 0) by (nonlinear_arith);
        lemma_small_mod(nodes[id].theta as nat, turn() as nat);
    }
    assert(m =~= nodes);
}

/// A node that is not active keeps its state through integration.
pub proof fn lemma_inactive_node_unchanged(
    nodes: Map<NodeId, NodeState>,
    active: Seq<NodeId>,
    dt: u32,
    id: NodeId,
)
    requires
        nodes.dom().contains(id),
        !active.contains(id),
    ensures
        integrated(nodes, active, dt)[id] == nodes[id],
{
    lemma_occurrences_absent(active, id);
    lemma_small_mod(nodes[id].theta as nat, turn() as nat);
}

/// Rotating every phase by the same angle leaves the gathered phase lags
/// unchanged: coupling depends only on phase differences.
pub proof fn lemma_gathered_lags_rotation_invariant(
    nodes: Map<NodeId, NodeState>,
    targets: Seq<NodeId>,
    offsets: Seq<u32>,
    counts: Seq<u32>,
    sources: Seq<NodeId>,
    rows: int,
    shift: u32,
)
    requires
        topology_ready(nodes, targets, offsets, counts, sources),
        0 <= rows <= targets.len(),
    ensures
        gathered_lags(rotated(nodes, shift), targets, offsets, counts, sources, rows) == gathered_lags(
            nodes,
            targets,
            offsets,
            counts,
            sources,
            rows,
        ),
    decreases rows,
{
    if rows > 0 {
        let i = rows - 1;
        lemma_gathered_lags_rotation_invariant(nodes, targets, offsets, counts, sources, i, shift);
        let a = row_lags(rotated(nodes, shift), targets, offsets, sources, i, counts[i] as int);
        let b = row_lags(nodes, targets, offsets, sources, i, counts[i] as int);
        assert forall|j: int| 0 <= j < a.len() implies a[j] == b[j] by {
            let src = sources[source_position(offsets, i, j)];
            assert(nodes.dom().contains(src));
            assert(nodes.dom().contains(targets[i]));
            lemma_lag_rotation_invariant(nodes[src].theta, nodes[targets[i]].theta, shift);
        }
        assert(a =~= b);
    }
}

/// Applying a set of forces and then their opposites to the same distinct
/// targets restores every node.
pub proof fn lemma_opposite_forces_cancel(
    nodes: Map<NodeId, NodeState>,
    targets: Seq<NodeId>,
    forces: Seq<u32>,
    opposite: Seq<u32>,
)
    requires
        targets.no_duplicates(),
        forces.len() == targets.len(),
        opposite.len() == targets.len(),
        forall|i: int| 0 <= i < forces.len() ==> (#[trigger] forces[i] + opposite[i]) % turn() == 0,
    ensures
        forced(forced(nodes, targets, forces), targets, opposite) == nodes,
{
    let once = forced(nodes, targets, forces);
    let twice = forced(once, targets, opposite);
    assert forall|id: NodeId| #[trigger] twice.contains_key(id) implies twice[id] == nodes[id] by {
        if targets.contains(id) {
            let k = targets.index_of(id);
            let t = nodes[id].theta;
            let f = forces[k];
            assert((t + f + opposite[k]) % turn() == t) by {
                lemma_add_mod_noop(t as int, f + opposite[k], turn());
                lemma_small_mod(t as nat, turn() as nat);
            }
            lemma_add_mod_noop(t + f, opposite[k] as int, turn());
            vstd::arithmetic::div_mod::lemma_mod_twice(t + f, turn());
        }
    }
    assert(twice =~= nodes);
}

/// `occurrences` counts exactly the copies of a handle in the sequence: it
/// is the multiplicity of the handle in the sequence's multiset.
pub proof fn lemma_occurrences_is_multiplicity(s: Seq<NodeId>, id: NodeId)
    ensures
        occurrences(s, id) == s.to_multiset().count(id),
    decreases s.len(),
{
    broadcast use vstd::seq_lib::group_to_multiset_ensures;

    if s.len() == 0 {
        assert(s.to_multiset().len() == 0);
    } else {
        lemma_occurrences_is_multiplicity(s.drop_last(), id);
        assert(s.drop_last().push(s.last()) =~= s);
    }
}

/// Integration moves each live node's phase by its own stored velocity
/// times the time step, once per copy of its handle in `active`, modulo a
/// full turn; velocities and the set of nodes are kept.
pub proof fn lemma_integrated_node(nodes: Map<NodeId, NodeState>, active: Seq<NodeId>, dt: u32, id: NodeId)
    requires
        nodes.dom().contains(id),
    ensures
        integrated(nodes, active, dt).dom() == nodes.dom(),
        integrated(nodes, active, dt)[id].d_theta == nodes[id].d_theta,
        integrated(nodes, active, dt)[id].theta as int == (nodes[id].theta + active.to_multiset().count(id)
            * nodes[id].d_theta * dt) % 0x1_0000_0000,
{
    lemma_occurrences_is_multiplicity(active, id);
    lemma_advanced_is_wrapped_sum(nodes[id].theta, nodes[id].d_theta, dt, occurrences(active, id));
    assert(integrated(nodes, active, dt).dom() =~= nodes.dom());
}

/// A successful scatter adds each target's own force to that target's
/// phase, modulo a full turn, and keeps its velocity.
pub proof fn lemma_forced_adds_each_force(
    nodes: Map<NodeId, NodeState>,
    targets: Seq<NodeId>,
    forces: Seq<u32>,
    i: int,
)
    requires
        targets.no_duplicates(),
        forces.len() == targets.len(),
        0 <= i < targets.len(),
        nodes.dom().contains(targets[i]),
    ensures
        forced(nodes, targets, forces).dom() == nodes.dom(),
        forced(nodes, targets, forces)[targets[i]].theta as int == (nodes[targets[i]].theta + forces[i])
            % 0x1_0000_0000,
        forced(nodes, targets, forces)[targets[i]].d_theta == nodes[targets[i]].d_theta,
{
    assert(targets.contains(targets[i]));
    let k = targets.index_of(targets[i]);
    assert(k == i);
    lemma_mod_bound(nodes[targets[i]].theta + forces[i], turn());
    assert(forced(nodes, targets, forces).dom() =~= nodes.dom());
}

/// A scatter leaves every node that is not a target as it was.
pub proof fn lemma_forced_keeps_non_targets(
    nodes: Map<NodeId, NodeState>,
    targets: Seq<NodeId>,
    forces: Seq<u32>,
    id: NodeId,
)
    requires
        nodes.dom().contains(id),
        !targets.contains(id),
    ensures
        forced(nodes, targets, forces)[id] == nodes[id],
{
}

/// The lag gathered for edge `j` of row `i` sits at flat position
/// `row_start(counts, i) + j` and is the phase of source
/// `sources[offsets[i] + j]` minus the phase of target `targets[i]`,
/// shifted by at most one full turn into `[-2^31, 2^31)`.
pub proof fn lemma_gathered_lag_of_edge(
    nodes: Map<NodeId, NodeState>,
    targets: Seq<NodeId>,
    offsets: Seq<u32>,
    counts: Seq<u32>,
    sources: Seq<NodeId>,
    rows: int,
    i: int,
    j: int,
)
    requires
        rows <= counts.len(),
        0 <= i < rows,
        0 <= j < counts[i],
    ensures
        ({
            let g = gathered_lags(nodes, targets, offsets, counts, sources, rows);
            let lag = g[row_start(counts, i) + j] as int;
            let d = nodes[sources[offsets[i] + j]].theta - nodes[targets[i]].theta;
            &&& 0 <= row_start(counts, i) + j < g.len()
            &&& -0x8000_0000 <= lag < 0x8000_0000
            &&& (lag == d || lag == d - 0x1_0000_0000 || lag == d + 0x1_0000_0000)
        }),
    decreases rows,
{
    lemma_gathered_len(nodes, targets, offsets, counts, sources, rows);
    let prev = gathered_lags(nodes, targets, offsets, counts, sources, rows - 1);
    lemma_gathered_len(nodes, targets, offsets, counts, sources, rows - 1);
    if i < rows - 1 {
        lemma_gathered_lag_of_edge(nodes, targets, offsets, counts, sources, rows - 1, i, j);
        lemma_row_start_monotone(counts, i + 1, rows - 1);
    } else {
        let src = sources[source_position(offsets, i, j)];
        lemma_signed_lag_is_shifted_difference(nodes[src].theta, nodes[targets[i]].theta);
    }
}

/// Position `p` of the source list exists and holds a live node.
pub open spec fn live_source(nodes: Map<NodeId, NodeState>, sources: Seq<NodeId>, p: int) -> bool {
    0 <= p < sources.len() && nodes.dom().contains(sources[p])
}

/// The conditions under which a CSR topology can be gathered, written
/// directly over the topology vectors.
pub open spec fn rows_well_formed(
    nodes: Map<NodeId, NodeState>,
    targets: Seq<NodeId>,
    offsets: Seq<u32>,
    counts: Seq<u32>,
    sources: Seq<NodeId>,
) -> bool {
    &&& targets.len() <= offsets.len()
    &&& targets.len() <= counts.len()
    &&& forall|i: int| 0 <= i < targets.len() ==> nodes.dom().contains(#[trigger] targets[i])
    &&& forall|i: int, p: int|
        #![trigger counts[i], live_source(nodes, sources, p)]
        0 <= i < targets.len() && offsets[i] <= p < offsets[i] + counts[i] ==> live_source(nodes, sources, p)
    &&& row_start(counts, targets.len() as int) <= sources.len()
}

proof fn lemma_well_formed_of_ready(
    nodes: Map<NodeId, NodeState>,
    targets: Seq<NodeId>,
    offsets: Seq<u32>,
    counts: Seq<u32>,
    sources: Seq<NodeId>,
)
    requires
        topology_ready(nodes, targets, offsets, counts, sources),
    ensures
        rows_well_formed(nodes, targets, offsets, counts, sources),
{
    assert forall|i: int, p: int|
        #![trigger counts[i], live_source(nodes, sources, p)]
        0 <= i < targets.len() && offsets[i] <= p < offsets[i] + counts[i] implies live_source(
            nodes,
            sources,
            p,
        ) by {
        let j = p - offsets[i];
        assert(source_position(offsets, i, j) == p);
        assert(0 <= j < counts[i]);
    }
}

proof fn lemma_ready_of_well_formed(
    nodes: Map<NodeId, NodeState>,
    targets: Seq<NodeId>,
    offsets: Seq<u32>,
    counts: Seq<u32>,
    sources: Seq<NodeId>,
)
    requires
        rows_well_formed(nodes, targets, offsets, counts, sources),
    ensures
        topology_ready(nodes, targets, offsets, counts, sources),
{
    assert forall|i: int, j: int| 0 <= i < targets.len() && 0 <= j < counts[i] implies {
        &&& 0 <= #[trigger] source_position(offsets, i, j) < sources.len()
        &&& nodes.dom().contains(sources[source_position(offsets, i, j)])
    } by {
        let p = source_position(offsets, i, j);
        assert(offsets[i] <= p < offsets[i] + counts[i]);
        assert(live_source(nodes, sources, p));
    }
}

/// The topology is ready exactly when every row has an offset and a count,
/// every target is live, every position `p` with
/// `offsets[i] <= p < offsets[i] + counts[i]` exists and names a live
/// source, and the
/// rows hold at most as many edges as there are sources, whatever the size
/// of each row.
pub proof fn lemma_topology_ready_iff(
    nodes: Map<NodeId, NodeState>,
    targets: Seq<NodeId>,
    offsets: Seq<u32>,
    counts: Seq<u32>,
    sources: Seq<NodeId>,
)
    ensures
        topology_ready(nodes, targets, offsets, counts, sources) <==> rows_well_formed(
            nodes,
            targets,
            offsets,
            counts,
            sources,
        ),
{
    if topology_ready(nodes, targets, offsets, counts, sources) {
        lemma_well_formed_of_ready(nodes, targets, offsets, counts, sources);
    }
    if rows_well_formed(nodes, targets, offsets, counts, sources) {
        lemma_ready_of_well_formed(nodes, targets, offsets, counts, sources);
    }
}

/// How far a tick got in the engine.
#[derive(Clone, Copy, Debug, PartialEq, Eq)]
pub enum TickStage {
    /// There are no edges: the tick is complete after integration.
    Settled,
    /// The phase lags of all edges were gathered; the coupling forces are to
    /// be computed from them and handed to `finish_tick`.
    Gathered,
}

/// Why a tick could not proceed.
#[derive(Clone, Copy, Debug, PartialEq, Eq)]
pub enum TickError {
    /// An entry of `active_nodes` is not a live node.
    UnknownActiveNode,
    /// There are more edges than the engine was created for.
    EdgeCapacityExceeded,
    /// There are more targets than the engine was created for.
    TargetCapacityExceeded,
    /// The CSR topology cannot be gathered (see `topology_ready`).
    MalformedTopology,
    /// The number of forces differs from the number of targets.
    ForceCountMismatch,
    /// A node occurs twice among the targets.
    AliasedTargets,
    /// A target is not a live node.
    UnknownTarget,
}

/// The simulation engine.
///
/// `target_nodes[i]` is influenced by the `edge_counts[i]` sources stored in
/// `edge_sources` from position `edge_offsets[i]` on (Compressed Sparse Row).
pub struct OrdentEngine {
    arena: OrdexArena<NodeState>,
    pub active_nodes: Vec<NodeId>,
    pub target_nodes: Vec<NodeId>,
    pub edge_offsets: Vec<u32>,
    pub edge_counts: Vec<u32>,
    pub edge_sources: Vec<NodeId>,
    phase_lags: Vec<i32>,
    target_capacity: usize,
    node_count: u64,
    alias_keys: HashSet<u64>,
}

impl OrdentEngine {
    /// The oscillators integrated by each tick, in order.
    pub closed spec fn active(&self) -> Seq<NodeId> {
        self.active_nodes@
    }

    /// The nodes that receive coupling forces, in CSR row order.
    pub closed spec fn targets(&self) -> Seq<NodeId> {
        self.target_nodes@
    }

    /// For each target, the position of its first source in `sources()`.
    pub closed spec fn offsets(&self) -> Seq<u32> {
        self.edge_offsets@
    }

    /// For each target, its number of sources.
    pub closed spec fn counts(&self) -> Seq<u32> {
        self.edge_counts@
    }

    /// The source node of each edge.
    pub closed spec fn sources(&self) -> Seq<NodeId> {
        self.edge_sources@
    }

    /// The live nodes of the engine.
    pub closed spec fn nodes(&self) -> Map<NodeId, NodeState> {
        arena_nodes(self.arena)
    }

    /// The per-edge phase lags of the last gathering; its length is the
    /// edge capacity.
    pub closed spec fn lags(&self) -> Seq<i32> {
        self.phase_lags@
    }

    /// The greatest number of edges a tick accepts.
    pub open spec fn edge_capacity(&self) -> nat {
        self.lags().len()
    }

    /// The greatest number of targets a tick accepts.
    pub closed spec fn target_capacity(&self) -> nat {
        self.target_capacity as nat
    }

    /// The engine's node set is finite (it only grows by insertion) and its
    /// size is tracked.
    pub closed spec fn wf(&self) -> bool {
        &&& self.nodes().dom().finite()
        &&& self.node_count == self.nodes().dom().len()
    }

    /// Every handle in `active_nodes` is live.
    pub closed spec fn active_live(&self) -> bool {
        forall|i: int| 0 <= i < self.active().len() ==> self.nodes().dom().contains(
            #[trigger] self.active()[i],
        )
    }

    /// Creates an engine with no nodes and an empty topology that accepts up
    /// to `max_edges` edges and `max_nodes` targets per tick.
    pub fn new(max_edges: usize, max_nodes: usize) -> (r: Self)
        ensures
            r.wf(),
            r.nodes().dom().is_empty(),
            r.active().len() == 0,
            r.targets().len() == 0,
            r.offsets().len() == 0,
            r.counts().len() == 0,
            r.sources().len() == 0,
            r.lags().len() == max_edges,
            r.edge_capacity() == max_edges,
            r.target_capacity() == max_nodes,
            forall|k: int| 0 <= k < max_edges ==> r.lags()[k] == 0,
    {
        let mut phase_lags: Vec<i32> = Vec::with_capacity(max_edges);
        let mut k: usize = 0;
        while k < max_edges
            invariant
                k <= max_edges,
                phase_lags@.len() == k,
                forall|kk: int| 0 <= kk < k ==> phase_lags@[kk] == 0,
            decreases max_edges - k,
        {
            phase_lags.push(0);
            k = k + 1;
        }
        OrdentEngine {
            arena: arena_new(),
            active_nodes: Vec::with_capacity(max_nodes),
            target_nodes: Vec::with_capacity(max_nodes),
            edge_offsets: Vec::with_capacity(max_nodes),
            edge_counts: Vec::with_capacity(max_nodes),
            edge_sources: Vec::with_capacity(max_edges),
            phase_lags,
            target_capacity: max_nodes,
            node_count: 0,
            alias_keys: HashSet::new(),
        }
    }

    /// The phase lags written by the last gathering, in flat edge order; the
    /// first `edge_sources.len()` entries are the current tick's.
    pub fn phase_lags(&self) -> (r: &Vec<i32>)
        ensures
            r@ == self.lags(),
    {
        &self.phase_lags
    }

    /// Whether the arena holds a node in every one of its `2^32` slots, so
    /// that no node can be added.
    pub fn is_full(&self) -> (r: bool)
        requires
            self.wf(),
        ensures
            r == (self.nodes().dom().len() >= 0x1_0000_0000),
    {
        self.node_count >= 0x1_0000_0000
    }

    /// Adds a node and returns its handle, which was not live before; every
    /// other node is kept as it was.
    pub fn insert_node(&mut self, state: NodeState) -> (id: NodeId)
        requires
            old(self).wf(),
            old(self).nodes().dom().len() < 0x1_0000_0000,
        ensures
            final(self).wf(),
            !old(self).nodes().dom().contains(id),
            final(self).nodes() == old(self).nodes().insert(id, state),
            final(self).active() == old(self).active(),
            final(self).targets() == old(self).targets(),
            final(self).offsets() == old(self).offsets(),
            final(self).counts() == old(self).counts(),
            final(self).sources() == old(self).sources(),
            final(self).lags() == old(self).lags(),
            final(self).edge_capacity() == old(self).edge_capacity(),
            final(self).target_capacity() == old(self).target_capacity(),
    {
        let id = arena_insert(&mut self.arena, state);
        self.node_count = self.node_count + 1;
        id
    }

    /// Replaces the whole coupling topology and the list of active nodes;
    /// the nodes, the gathered lags and the capacities are kept.
    pub fn set_topology(
        &mut self,
        active_nodes: Vec<NodeId>,
        target_nodes: Vec<NodeId>,
        edge_offsets: Vec<u32>,
        edge_counts: Vec<u32>,
        edge_sources: Vec<NodeId>,
    )
        requires
            old(self).wf(),
        ensures
            final(self).wf(),
            final(self).active() == active_nodes@,
            final(self).targets() == target_nodes@,
            final(self).offsets() == edge_offsets@,
            final(self).counts() == edge_counts@,
            final(self).sources() == edge_sources@,
            final(self).nodes() == old(self).nodes(),
            final(self).lags() == old(self).lags(),
            final(self).edge_capacity() == old(self).edge_capacity(),
            final(self).target_capacity() == old(self).target_capacity(),
    {
        self.active_nodes = active_nodes;
        self.target_nodes = target_nodes;
        self.edge_offsets = edge_offsets;
        self.edge_counts = edge_counts;
        self.edge_sources = edge_sources;
    }

    /// Replaces the state of a live node and returns `true`; returns `false`
    /// and changes nothing when the handle is not live.
    pub fn set_node(&mut self, id: NodeId, state: NodeState) -> (r: bool)
        requires
            old(self).wf(),
        ensures
            final(self).wf(),
            r == old(self).nodes().dom().contains(id),
            final(self).nodes() == (if r {
                old(self).nodes().insert(id, state)
            } else {
                old(self).nodes()
            }),
            final(self).active() == old(self).active(),
            final(self).targets() == old(self).targets(),
            final(self).offsets() == old(self).offsets(),
            final(self).counts() == old(self).counts(),
            final(self).sources() == old(self).sources(),
            final(self).lags() == old(self).lags(),
            final(self).edge_capacity() == old(self).edge_capacity(),
            final(self).target_capacity() == old(self).target_capacity(),
    {
        let r = match arena_get_mut(&mut self.arena, id) {
            Some(slot) => {
                *slot = state;
                true
            },
            None => false,
        };
        proof {
            assert(self.nodes().dom() =~= old(self).nodes().dom());
        }
        r
    }

    /// The state of a node, or `None` when the handle is not live.
    pub fn node(&self, id: NodeId) -> (r: Option<NodeState>)
        ensures
            r == (if self.nodes().dom().contains(id) {
                Some(self.nodes()[id])
            } else {
                None
            }),
    {
        arena_get(&self.arena, id)
    }

    /// Phase 1 of a tick: every active node, in order, advances its phase
    /// by its angular velocity times `dt_bam`. It stops at the first entry
    /// of `active_nodes` that is not a live node and returns `false`; the
    /// entries before it have been integrated.
    fn integrate(&mut self, dt_bam: u32) -> (ok: bool)
        ensures
            ok == old(self).active_live(),
            ok ==> final(self).nodes() == integrated(old(self).nodes(), old(self).active_nodes@, dt_bam),
            !ok ==> first_unknown_active(old(self).nodes(), old(self).active_nodes@, dt_bam, final(self).nodes()),
            final(self).active_nodes == old(self).active_nodes,
            final(self).target_nodes == old(self).target_nodes,
            final(self).edge_offsets == old(self).edge_offsets,
            final(self).edge_counts == old(self).edge_counts,
            final(self).edge_sources == old(self).edge_sources,
            final(self).phase_lags == old(self).phase_lags,
            final(self).target_capacity == old(self).target_capacity,
            final(self).node_count == old(self).node_count,
            final(self).alias_keys == old(self).alias_keys,
    {
        let ghost start = self.nodes();
        let ghost active = self.active_nodes@;
        let n = self.active_nodes.len();
        let mut i: usize = 0;
        assert(integrated(start, active.take(0), dt_bam) =~= start) by {
            assert forall|id: NodeId| start.dom().contains(id) implies integrated(
                start,
                active.take(0),
                dt_bam,
            )[id] == start[id] by {
                assert(occurrences(active.take(0), id) == 0);
                lemma_small_mod(start[id].theta as nat, turn() as nat);
            }
        }
        while i < n
            invariant
                n == active.len(),
                i <= n,
                self.active_nodes == old(self).active_nodes,
                active == old(self).active_nodes@,
                forall|j: int| 0 <= j < i ==> start.dom().contains(#[trigger] active[j]),
                start == old(self).nodes(),
                self.nodes() == integrated(start, active.take(i as int), dt_bam),
                self.target_nodes == old(self).target_nodes,
                self.edge_offsets == old(self).edge_offsets,
                self.edge_counts == old(self).edge_counts,
                self.edge_sources == old(self).edge_sources,
                self.phase_lags == old(self).phase_lags,
                self.target_capacity == old(self).target_capacity,
                self.node_count == old(self).node_count,
                self.alias_keys == old(self).alias_keys,
            decreases n - i,
        {
            let id = self.active_nodes[i];
            assert(active[i as int] == id);
            let ghost before = self.nodes();
            match arena_get_mut(&mut self.arena, id) {
                Some(state) => {
                    state.theta = advance_phase(state.theta, state.d_theta, dt_bam);
                },
                None => {
                    proof {
                        assert(!before.dom().contains(id));
                        assert(!start.dom().contains(id));
                        assert(!old(self).active_live()) by {
                            assert(old(self).active()[i as int] == id);
                        }
                        assert(self.nodes() == before);
                    }
                    return false;
                },
            }
            proof {
                let pre = active.take(i as int);
                let post = active.take(i + 1);
                assert(post.drop_last() =~= pre);
                assert(post.last() == id);
                lemma_advance_step(start[id].theta, start[id].d_theta, dt_bam, occurrences(pre, id));
                assert(self.nodes() =~= integrated(start, post, dt_bam)) by {
                    assert forall|k: NodeId| #[trigger] self.nodes().contains_key(k) <==> integrated(
                        start,
                        post,
                        dt_bam,
                    ).contains_key(k) by {}
                    assert forall|k: NodeId| self.nodes().contains_key(k) implies #[trigger] self.nodes()[k]
                        == integrated(start, post, dt_bam)[k] by {
                        if k != id {
                            assert(occurrences(post, k) == occurrences(pre, k));
                        } else {
                            assert(occurrences(post, k) == occurrences(pre, k) + 1);
                        }
                    }
                }
            }
            i = i + 1;
        }
        proof {
            assert(active.take(n as int) =~= active);
            assert forall|j: int| 0 <= j < self.active().len() implies start.dom().contains(
                #[trigger] self.active()[j],
            ) by {
                assert(self.active()[j] == active[j]);
            }
        }
        true
    }

    /// Whether the current topology can be gathered (see `topology_ready`).
    fn topology_is_ready(&self) -> (r: bool)
        ensures
            r == topology_ready(self.nodes(), self.targets(), self.offsets(), self.counts(), self.sources()),
    {
        let ghost nodes = self.nodes();
        let ghost targets = self.targets();
        let ghost offsets = self.offsets();
        let ghost counts = self.counts();
        let ghost sources = self.sources();
        let nt = self.target_nodes.len();
        if nt > self.edge_offsets.len() || nt > self.edge_counts.len() {
            return false;
        }
        let num_edges = self.edge_sources.len();
        let mut total: usize = 0;
        let mut i: usize = 0;
        while i < nt
            invariant
                nt == targets.len(),
                nt <= offsets.len(),
                nt <= counts.len(),
                num_edges == sources.len(),
                i <= nt,
                nodes == self.nodes(),
                targets == self.target_nodes@,
                offsets == self.edge_offsets@,
                counts == self.edge_counts@,
                sources == self.edge_sources@,
                total == row_start(counts, i as int),
                total <= num_edges,
                forall|ii: int| 0 <= ii < i ==> nodes.dom().contains(#[trigger] targets[ii]),
                forall|ii: int, j: int|
                    0 <= ii < i && 0 <= j < counts[ii] ==> {
                        &&& 0 <= #[trigger] source_position(offsets, ii, j) < sources.len()
                        &&& nodes.dom().contains(sources[source_position(offsets, ii, j)])
                    },
            decreases nt - i,
        {
            let target = self.target_nodes[i];
            if arena_get(&self.arena, target).is_none() {
                assert(!nodes.dom().contains(targets[i as int]));
                return false;
            }
            let offset = self.edge_offsets[i];
            let count = self.edge_counts[i];
            let mut j: u32 = 0;
            while j < count
                invariant
                    i < nt,
                    nt == targets.len(),
                    nt <= offsets.len(),
                    nt <= counts.len(),
                    num_edges == sources.len(),
                    nodes == self.nodes(),
                    targets == self.target_nodes@,
                    offsets == self.edge_offsets@,
                    counts == self.edge_counts@,
                    sources == self.edge_sources@,
                    offset == offsets[i as int],
                    count == counts[i as int],
                    j <= count,
                    forall|jj: int|
                        0 <= jj < j ==> {
                            &&& 0 <= #[trigger] source_position(offsets, i as int, jj) < sources.len()
                            &&& nodes.dom().contains(sources[source_position(offsets, i as int, jj)])
                        },
                decreases count - j,
            {
                if offset as usize >= num_edges || j as usize >= num_edges - offset as usize {
                    assert(!(0 <= source_position(offsets, i as int, j as int) < sources.len()));
                    return false;
                }
                let position = offset as usize + j as usize;
                assert(position == source_position(offsets, i as int, j as int));
                let source = self.edge_sources[position];
                if arena_get(&self.arena, source).is_none() {
                    assert(!nodes.dom().contains(sources[source_position(offsets, i as int, j as int)]));
                    return false;
                }
                j = j + 1;
            }
            if count as usize > num_edges - total {
                proof {
                    lemma_row_start_monotone(counts, i + 1, nt as int);
                }
                return false;
            }
            total = total + count as usize;
            i = i + 1;
        }
        true
    }

    /// Phase 2 of a tick: writes, in flat edge order, the phase lag of every
    /// edge's source relative to its target; later entries keep their values.
    fn gather(&mut self)
        requires
            topology_ready(old(self).nodes(), old(self).targets(), old(self).offsets(), old(self).counts(), old(self).sources()),
            old(self).sources().len() <= old(self).edge_capacity(),
        ensures
            final(self).phase_lags@.len() == old(self).phase_lags@.len(),
            final(self).phase_lags@.subrange(0, row_start(old(self).counts(), old(self).targets().len() as int))
                == gathered_lags(old(self).nodes(), old(self).targets(), old(self).offsets(), old(self).counts(), old(self).sources(), old(self).targets().len() as int),
            forall|k: int|
                row_start(old(self).counts(), old(self).targets().len() as int) <= k < old(self).phase_lags@.len()
                    ==> final(self).phase_lags@[k] == old(self).phase_lags@[k],
            final(self).arena == old(self).arena,
            final(self).active_nodes == old(self).active_nodes,
            final(self).target_nodes == old(self).target_nodes,
            final(self).edge_offsets == old(self).edge_offsets,
            final(self).edge_counts == old(self).edge_counts,
            final(self).edge_sources == old(self).edge_sources,
            final(self).target_capacity == old(self).target_capacity,
            final(self).node_count == old(self).node_count,
            final(self).alias_keys == old(self).alias_keys,
    {
        let ghost nodes = self.nodes();
        let ghost targets = self.targets();
        let ghost offsets = self.offsets();
        let ghost counts = self.counts();
        let ghost sources = self.sources();
        let ghost old_lags = self.phase_lags@;
        let nt = self.target_nodes.len();
        let num_edges = self.edge_sources.len();
        let mut edge_idx: usize = 0;
        let mut i: usize = 0;
        proof {
            lemma_row_start_monotone(counts, 0, nt as int);
        }
        assert(self.phase_lags@.subrange(0, 0) =~= gathered_lags(nodes, targets, offsets, counts, sources, 0));
        assert(row_start(counts, nt as int) <= sources.len());
        while i < nt
            invariant
                nt == targets.len(),
                i <= nt,
                topology_ready(nodes, targets, offsets, counts, sources),
                sources.len() <= old_lags.len(),
                self.arena == old(self).arena,
                nodes == self.nodes(),
                self.active_nodes == old(self).active_nodes,
                self.target_nodes == old(self).target_nodes,
                self.edge_offsets == old(self).edge_offsets,
                self.edge_counts == old(self).edge_counts,
                self.edge_sources == old(self).edge_sources,
                self.target_capacity == old(self).target_capacity,
                self.node_count == old(self).node_count,
                self.alias_keys == old(self).alias_keys,
                targets == self.target_nodes@,
                offsets == self.edge_offsets@,
                counts == self.edge_counts@,
                sources == self.edge_sources@,
                self.phase_lags@.len() == old_lags.len(),
                edge_idx == row_start(counts, i as int),
                num_edges == sources.len(),
                row_start(counts, i as int) <= row_start(counts, nt as int),
                row_start(counts, nt as int) <= sources.len(),
                self.phase_lags@.subrange(0, edge_idx as int) == gathered_lags(nodes, targets, offsets, counts, sources, i as int),
                forall|k: int| edge_idx <= k < old_lags.len() ==> self.phase_lags@[k] == old_lags[k],
            decreases nt - i,
        {
            let target = self.target_nodes[i];
            assert(nodes.dom().contains(targets[i as int]));
            let target_theta = arena_get(&self.arena, target).unwrap().theta;
            let offset = self.edge_offsets[i];
            let count = self.edge_counts[i];
            proof {
                lemma_row_start_monotone(counts, i + 1, nt as int);
            }
            let ghost row_begin = edge_idx as int;
            let mut j: u32 = 0;
            while j < count
                invariant
                    nt == targets.len(),
                    i < nt,
                    topology_ready(nodes, targets, offsets, counts, sources),
                    sources.len() <= old_lags.len(),
                    self.arena == old(self).arena,
                    nodes == self.nodes(),
                    self.active_nodes == old(self).active_nodes,
                    self.target_nodes == old(self).target_nodes,
                    self.edge_offsets == old(self).edge_offsets,
                    self.edge_counts == old(self).edge_counts,
                    self.edge_sources == old(self).edge_sources,
                    self.target_capacity == old(self).target_capacity,
                    self.node_count == old(self).node_count,
                    self.alias_keys == old(self).alias_keys,
                    targets == self.target_nodes@,
                    offsets == self.edge_offsets@,
                    counts == self.edge_counts@,
                    sources == self.edge_sources@,
                    self.phase_lags@.len() == old_lags.len(),
                    num_edges == sources.len(),
                    offset == offsets[i as int],
                    count == counts[i as int],
                    target_theta == nodes[targets[i as int]].theta,
                    row_begin == row_start(counts, i as int),
                    0 <= row_begin,
                    row_begin + count == row_start(counts, i + 1),
                    row_start(counts, i + 1) <= row_start(counts, nt as int),
                    row_start(counts, nt as int) <= sources.len(),
                    j <= count,
                    edge_idx == row_begin + j,
                    self.phase_lags@.subrange(0, row_begin) == gathered_lags(nodes, targets, offsets, counts, sources, i as int),
                    self.phase_lags@.subrange(row_begin, edge_idx as int) == row_lags(nodes, targets, offsets, sources, i as int, j as int),
                    forall|k: int| edge_idx <= k < old_lags.len() ==> self.phase_lags@[k] == old_lags[k],
                decreases count - j,
            {
                assert(0 <= j < counts[i as int]);
                assert(0 <= source_position(offsets, i as int, j as int) < sources.len());
                assert(nodes.dom().contains(sources[source_position(offsets, i as int, j as int)]));
                let position = offset as usize + j as usize;
                assert(position == source_position(offsets, i as int, j as int));
                let source = self.edge_sources[position];
                assert(source == sources[source_position(offsets, i as int, j as int)]);
                let source_theta = arena_get(&self.arena, source).unwrap().theta;
                let lag = phase_lag(source_theta, target_theta);
                assert(lag == signed_lag(
                    nodes[sources[source_position(offsets, i as int, j as int)]].theta,
                    nodes[targets[i as int]].theta,
                ) as i32);
                let ghost before = self.phase_lags@;
                assert(edge_idx < old_lags.len());
                self.phase_lags.set(edge_idx, lag);
                proof {
                    assert(0 <= row_begin <= edge_idx);
                    assert(self.phase_lags@.subrange(0, row_begin) =~= before.subrange(0, row_begin));
                    let rl = row_lags(nodes, targets, offsets, sources, i as int, j as int);
                    let rl1 = row_lags(nodes, targets, offsets, sources, i as int, j + 1);
                    assert forall|jj: int| 0 <= jj < j + 1 implies #[trigger] self.phase_lags@.subrange(row_begin, edge_idx + 1)[jj] == rl1[jj] by {
                        if jj < j {
                            assert(before.subrange(row_begin, edge_idx as int)[jj] == rl[jj]);
                            assert(self.phase_lags@[row_begin + jj] == before[row_begin + jj]);
                        } else {
                            assert(self.phase_lags@[edge_idx as int] == lag);
                        }
                    }
                    assert(self.phase_lags@.subrange(row_begin, edge_idx + 1) =~= row_lags(
                        nodes,
                        targets,
                        offsets,
                        sources,
                        i as int,
                        j + 1,
                    ));
                }
                edge_idx = edge_idx + 1;
                j = j + 1;
            }
            proof {
                assert(self.phase_lags@.subrange(0, edge_idx as int) =~= self.phase_lags@.subrange(0, row_begin)
                    + self.phase_lags@.subrange(row_begin, edge_idx as int));
            }
            proof {
                lemma_row_start_monotone(counts, 0, i as int);
            }
            i = i + 1;
        }
    }

    /// The integer part of a tick that comes before the force model.
    ///
    /// It first integrates: each entry of `active_nodes`, in order, advances
    /// its node's phase by `d_theta * dt_bam`. At an entry that is not a live
    /// node it stops with `UnknownActiveNode`, the earlier entries having been
    /// integrated. With no edges the tick is then complete (`Settled`).
    /// Otherwise it checks the edge capacity, the target capacity and the
    /// topology, in that order, and reports the first that fails; the
    /// integration is kept. When all hold, it gathers into `lags()` the phase
    /// lag of every edge, in flat edge order, from the integrated phases
    /// (`Gathered`). No error changes `lags()`.
    pub fn begin_tick(&mut self, dt_bam: u32) -> (r: Result<TickStage, TickError>)
        requires
            old(self).wf(),
        ensures
            final(self).wf(),
            final(self).active() == old(self).active(),
            final(self).targets() == old(self).targets(),
            final(self).offsets() == old(self).offsets(),
            final(self).counts() == old(self).counts(),
            final(self).sources() == old(self).sources(),
            final(self).edge_capacity() == old(self).edge_capacity(),
            final(self).target_capacity() == old(self).target_capacity(),
            r == Err::<TickStage, TickError>(TickError::UnknownActiveNode) <==> !old(self).active_live(),
            r == Ok::<TickStage, TickError>(TickStage::Settled) <==> old(self).active_live()
                && old(self).sources().len() == 0,
            r == Err::<TickStage, TickError>(TickError::EdgeCapacityExceeded) <==> old(self).active_live()
                && old(self).sources().len() > 0
                && old(self).sources().len() > old(self).edge_capacity(),
            r == Err::<TickStage, TickError>(TickError::TargetCapacityExceeded) <==> old(self).active_live()
                && 0 < old(self).sources().len() <= old(self).edge_capacity()
                && old(self).targets().len() > old(self).target_capacity(),
            r == Err::<TickStage, TickError>(TickError::MalformedTopology) <==> old(self).active_live()
                && 0 < old(self).sources().len() <= old(self).edge_capacity()
                && old(self).targets().len() <= old(self).target_capacity()
                && !topology_ready(old(self).nodes(), old(self).targets(), old(self).offsets(), old(self).counts(), old(self).sources()),
            r == Ok::<TickStage, TickError>(TickStage::Gathered) <==> old(self).active_live()
                && 0 < old(self).sources().len() <= old(self).edge_capacity()
                && old(self).targets().len() <= old(self).target_capacity()
                && topology_ready(old(self).nodes(), old(self).targets(), old(self).offsets(), old(self).counts(), old(self).sources()),
            r == Err::<TickStage, TickError>(TickError::UnknownActiveNode) ==> first_unknown_active(
                old(self).nodes(),
                old(self).active(),
                dt_bam,
                final(self).nodes(),
            ),
            r != Err::<TickStage, TickError>(TickError::UnknownActiveNode) ==> final(self).nodes()
                == integrated(old(self).nodes(), old(self).active(), dt_bam),
            r is Err ==> final(self).lags() == old(self).lags(),
            r == Ok::<TickStage, TickError>(TickStage::Settled) ==> final(self).lags() == old(self).lags(),
            r == Ok::<TickStage, TickError>(TickStage::Gathered) ==> {
                let total = row_start(old(self).counts(), old(self).targets().len() as int);
                &&& final(self).lags().len() == old(self).lags().len()
                &&& final(self).lags().subrange(0, total) == gathered_lags(
                    integrated(old(self).nodes(), old(self).active(), dt_bam),
                    old(self).targets(),
                    old(self).offsets(),
                    old(self).counts(),
                    old(self).sources(),
                    old(self).targets().len() as int,
                )
                &&& forall|k: int| total <= k < old(self).lags().len() ==> final(self).lags()[k] == old(self).lags()[k]
            },
    {
        let integrated_all = self.integrate(dt_bam);
        if !integrated_all {
            proof {
                let k = choose|k: int|
                    0 <= k < old(self).active_nodes@.len() && !old(self).nodes().dom().contains(
                        #[trigger] old(self).active_nodes@[k],
                    ) && (forall|j: int|
                        0 <= j < k ==> old(self).nodes().dom().contains(
                            #[trigger] old(self).active_nodes@[j],
                        )) && self.nodes() == integrated(
                        old(self).nodes(),
                        old(self).active_nodes@.take(k),
                        dt_bam,
                    );
                assert(self.nodes().dom() =~= old(self).nodes().dom());
            }
            return Err(TickError::UnknownActiveNode);
        }
        proof {
            assert(self.nodes().dom() =~= old(self).nodes().dom());
        }
        let num_edges = self.edge_sources.len();
        if num_edges == 0 {
            return Ok(TickStage::Settled);
        }
        if num_edges > self.phase_lags.len() {
            return Err(TickError::EdgeCapacityExceeded);
        }
        if self.target_nodes.len() > self.target_capacity {
            return Err(TickError::TargetCapacityExceeded);
        }
        if !self.topology_is_ready() {
            return Err(TickError::MalformedTopology);
        }
        self.gather();
        Ok(TickStage::Gathered)
    }

    /// The integer part of a tick that comes after the force model: adds
    /// `forces[i]` to the phase of `target_nodes[i]`, wrapping around the
    /// circle, and leaves every other node as it was. It fails, leaving the
    /// nodes as they were, when the number of forces differs from the
    /// number of targets, when a node is targeted twice, or when a target is
    /// not live, checked in that order.
    ///
    /// Forces are applied target by target through `OrdexArena::get_mut`,
    /// and repeated targets are detected with a set of packed handles. The
    /// arena's batch interface (`VerifiedIndices::clear_and_verify` and
    /// `OrdexArena::ordex`) is not used: it panics on repeated targets instead
    /// of reporting them, can panic on clustered targets in debug builds, hands
    /// out its elements in its own slot order rather than target order, and
    /// gives them as `&mut` references to a closure, so no trusted wrapper
    /// could give it the per-target contract stated here.
    pub fn finish_tick(&mut self, forces: &[u32]) -> (r: Result<(), TickError>)
        requires
            old(self).wf(),
        ensures
            final(self).wf(),
            final(self).active() == old(self).active(),
            final(self).targets() == old(self).targets(),
            final(self).offsets() == old(self).offsets(),
            final(self).counts() == old(self).counts(),
            final(self).sources() == old(self).sources(),
            final(self).lags() == old(self).lags(),
            final(self).edge_capacity() == old(self).edge_capacity(),
            final(self).target_capacity() == old(self).target_capacity(),
            r == Err::<(), TickError>(TickError::ForceCountMismatch) <==> forces@.len() != old(self).targets().len(),
            r == Err::<(), TickError>(TickError::AliasedTargets) <==> forces@.len() == old(self).targets().len()
                && !old(self).targets().no_duplicates(),
            r == Err::<(), TickError>(TickError::UnknownTarget) <==> forces@.len() == old(self).targets().len()
                && old(self).targets().no_duplicates()
                && exists|i: int| 0 <= i < old(self).targets().len()
                    && !old(self).nodes().dom().contains(#[trigger] old(self).targets()[i]),
            r is Ok <==> forces@.len() == old(self).targets().len()
                && old(self).targets().no_duplicates()
                && forall|i: int| 0 <= i < old(self).targets().len()
                    ==> old(self).nodes().dom().contains(#[trigger] old(self).targets()[i]),
            r is Err ==> final(self).nodes() == old(self).nodes(),
            r is Ok ==> final(self).nodes() == forced(old(self).nodes(), old(self).targets(), forces@),
    {
        broadcast use vstd::std_specs::hash::group_hash_axioms;

        let ghost targets = self.targets();
        let ghost start = self.nodes();
        let nt = self.target_nodes.len();
        if forces.len() != nt {
            return Err(TickError::ForceCountMismatch);
        }
        self.alias_keys.clear();
        let mut i: usize = 0;
        while i < nt
            invariant
                nt == targets.len(),
                i <= nt,
                targets == self.target_nodes@,
                nt == forces@.len(),
                start == self.nodes(),
                start == old(self).nodes(),
                start.dom().finite(),
                old(self).wf(),
                self.arena == old(self).arena,
                self.active_nodes == old(self).active_nodes,
                self.target_nodes == old(self).target_nodes,
                self.edge_offsets == old(self).edge_offsets,
                self.edge_counts == old(self).edge_counts,
                self.edge_sources == old(self).edge_sources,
                self.phase_lags == old(self).phase_lags,
                self.target_capacity == old(self).target_capacity,
                self.node_count == old(self).node_count,
                forall|k: u64| #[trigger] self.alias_keys@.contains(k) <==> exists|ii: int|
                    0 <= ii < i && handle_key(#[trigger] targets[ii]) == k,
                forall|a: int, b: int| 0 <= a < b < i ==> targets[a] != targets[b],
            decreases nt - i,
        {
            let key = self.target_nodes[i].key();
            let ghost keys_before = self.alias_keys@;
            if !self.alias_keys.insert(key) {
                proof {
                    assert(keys_before.contains(key));
                    let ii = choose|ii: int| 0 <= ii < i && handle_key(#[trigger] targets[ii]) == key;
                    lemma_handle_key_injective(targets[ii], targets[i as int]);
                    assert(!targets.no_duplicates());
                }
                return Err(TickError::AliasedTargets);
            }
            proof {
                assert forall|a: int, b: int| 0 <= a < b < i + 1 implies targets[a] != targets[b] by {
                    if b == i && targets[a] == targets[b] {
                        assert(keys_before.contains(handle_key(targets[a]) as u64));
                    }
                }
                assert forall|k: u64| #[trigger] self.alias_keys@.contains(k) <==> exists|ii: int|
                    0 <= ii < i + 1 && handle_key(#[trigger] targets[ii]) == k by {
                    if self.alias_keys@.contains(k) && k != key {
                        let ii = choose|ii: int| 0 <= ii < i && handle_key(#[trigger] targets[ii]) == k;
                        assert(0 <= ii < i + 1 && handle_key(targets[ii]) == k);
                    }
                    if k == key {
                        assert(handle_key(targets[i as int]) == k);
                    }
                }
            }
            i = i + 1;
        }
        assert(targets.no_duplicates());
        let mut i: usize = 0;
        while i < nt
            invariant
                nt == targets.len(),
                i <= nt,
                targets == self.target_nodes@,
                nt == forces@.len(),
                targets.no_duplicates(),
                start == self.nodes(),
                start == old(self).nodes(),
                start.dom().finite(),
                old(self).wf(),
                self.arena == old(self).arena,
                self.active_nodes == old(self).active_nodes,
                self.target_nodes == old(self).target_nodes,
                self.edge_offsets == old(self).edge_offsets,
                self.edge_counts == old(self).edge_counts,
                self.edge_sources == old(self).edge_sources,
                self.phase_lags == old(self).phase_lags,
                self.target_capacity == old(self).target_capacity,
                self.node_count == old(self).node_count,
                forall|ii: int| 0 <= ii < i ==> start.dom().contains(#[trigger] targets[ii]),
            decreases nt - i,
        {
            let id = self.target_nodes[i];
            if arena_get(&self.arena, id).is_none() {
                return Err(TickError::UnknownTarget);
            }
            i = i + 1;
        }
        let mut i: usize = 0;
        while i < nt
            invariant
                nt == targets.len(),
                nt == forces@.len(),
                i <= nt,
                targets.no_duplicates(),
                targets == self.target_nodes@,
                forall|ii: int| 0 <= ii < nt ==> start.dom().contains(#[trigger] targets[ii]),
                start == old(self).nodes(),
                self.active_nodes == old(self).active_nodes,
                self.target_nodes == old(self).target_nodes,
                self.edge_offsets == old(self).edge_offsets,
                self.edge_counts == old(self).edge_counts,
                self.edge_sources == old(self).edge_sources,
                self.phase_lags == old(self).phase_lags,
                self.target_capacity == old(self).target_capacity,
                self.node_count == old(self).node_count,
                self.nodes().dom() == start.dom(),
                forall|ii: int| 0 <= ii < i ==> self.nodes()[#[trigger] targets[ii]]
                    == (NodeState {
                        theta: phase_add(start[targets[ii]].theta, forces@[ii]),
                        d_theta: start[targets[ii]].d_theta,
                    }),
                forall|id: NodeId| #[trigger] start.dom().contains(id) && !targets.take(i as int).contains(id)
                    ==> self.nodes()[id] == start[id],
            decreases nt - i,
        {
            let id = self.target_nodes[i];
            let force = forces[i];
            let ghost before = self.nodes();
            assert(start.dom().contains(targets[i as int]));
            assert(!targets.take(i as int).contains(id)) by {
                if targets.take(i as int).contains(id) {
                    let a = choose|a: int| 0 <= a < i && targets.take(i as int)[a] == id;
                    assert(targets[a] == targets[i as int]);
                }
            }
            if let Some(state) = arena_get_mut(&mut self.arena, id) {
                state.theta = state.theta.wrapping_add(force);
            }
            proof {
                assert(self.nodes().dom() =~= start.dom());
                assert forall|ii: int| 0 <= ii < i + 1 implies self.nodes()[#[trigger] targets[ii]]
                    == (NodeState {
                        theta: phase_add(start[targets[ii]].theta, forces@[ii]),
                        d_theta: start[targets[ii]].d_theta,
                    }) by {
                    if ii < i {
                        assert(targets[ii] != targets[i as int]);
                    }
                }
                assert forall|k: NodeId| #[trigger] start.dom().contains(k) && !targets.take(i + 1).contains(k)
                    implies self.nodes()[k] == start[k] by {
                    assert(targets.take(i + 1)[i as int] == id);
                    if !targets.take(i as int).contains(k) {
                    } else {
                        let a = choose|a: int| 0 <= a < i && targets.take(i as int)[a] == k;
                        assert(targets.take(i + 1)[a] == k);
                    }
                }
            }
            i = i + 1;
        }
        proof {
            assert(targets.take(nt as int) =~= targets);
            assert(self.nodes() =~= forced(start, targets, forces@)) by {
                assert forall|id: NodeId| #[trigger] self.nodes().contains_key(id) implies self.nodes()[id]
                    == forced(start, targets, forces@)[id] by {
                    if targets.contains(id) {
                        let k = targets.index_of(id);
                        assert(self.nodes()[targets[k]] == (NodeState {
                            theta: phase_add(start[targets[k]].theta, forces@[k]),
                            d_theta: start[targets[k]].d_theta,
                        }));
                    }
                }
            }
        }
        Ok(())
    }
}

} // verus!
