//! The signal-flow graph: nodes in an arena keyed by stable ids, routing
//! edges, a cached deterministic topological order, and block-synchronous
//! evaluation.

use vstd::prelude::*;
use vstd::seq_lib::*;
use vstd::set_lib::*;
use crate::BUFFER_SIZE;
use crate::node::{NodeId, NodeIn, NodeOut, in_views, out_views, is_silent_block};
use crate::behavior::{NodeBehavior, behavior_post};

verus! {

/// Why an edit was rejected. Every edit error is recoverable: the graph is
/// left unchanged and the command is answered with the error.
#[derive(PartialEq, Eq, Structural, Copy, Clone, Debug)]
pub enum GraphError {
    /// A referenced node id does not exist.
    UnknownNode,
    /// A node type name is not in the recipe book.
    UnknownRecipe,
    /// An output or input index is at or beyond the node's declared count.
    PortOutOfRange,
    /// The target input port already has an edge.
    InputAlreadyConnected,
    /// No matching edge to disconnect.
    EdgeNotFound,
    /// The connection would close a directed cycle.
    WouldCreateCycle,
    /// The engine is shutting down and takes no more edits.
    Shuttingdown,
}

/// A directed routing record `(from, out_idx) -> (to, in_idx)`. It carries
/// no samples of its own: before the consumer evaluates, the producer's
/// output buffer is copied into the consumer's input buffer.
#[derive(PartialEq, Eq, Structural, Copy, Clone, Debug)]
pub struct NodeEdge {
    pub from: NodeId,
    pub from_out_idx: usize,
    pub to: NodeId,
    pub to_in_idx: usize,
}

/// Whether an edge touches the node with the given id at either end.
pub open spec fn edge_incident(e: NodeEdge, id: usize) -> bool {
    e.from.0 == id || e.to.0 == id
}

/// A live node: identity, per-port block buffers, and its behavior.
pub struct Node {
    pub name: String,
    pub id: NodeId,
    pub ins: Vec<NodeIn>,
    pub outs: Vec<NodeOut>,
    pub behavior: NodeBehavior,
}

impl Node {
    /// Port rows sized to the behavior's declared counts, every buffer one
    /// block long.
    pub open spec fn wf(&self) -> bool {
        &&& self.behavior.wf()
        &&& self.ins@.len() == self.behavior.spec_num_ins()
        &&& self.outs@.len() == self.behavior.spec_num_outs()
        &&& forall|i: int|
            0 <= i < self.ins@.len() ==> (#[trigger] self.ins@[i]).buffer@.len() == BUFFER_SIZE
        &&& forall|i: int|
            0 <= i < self.outs@.len() ==> (#[trigger] self.outs@[i]).buffer@.len() == BUFFER_SIZE
    }

    pub(crate) fn new(name: String, id: NodeId, behavior: NodeBehavior) -> (r: Node)
        requires
            behavior.wf(),
        ensures
            r.wf(),
            r.name == name,
            r.id == id,
            r.behavior == behavior,
            forall|i: int| 0 <= i < r.ins@.len() ==> is_silent_block((#[trigger] r.ins@[i]).buffer@),
            forall|i: int|
                0 <= i < r.outs@.len() ==> is_silent_block((#[trigger] r.outs@[i]).buffer@),
    {
        let info = behavior.get_info();
        let mut ins: Vec<NodeIn> = Vec::new();
        let mut k: usize = 0;
        while k < info.num_ins
            invariant
                k <= info.num_ins,
                ins@.len() == k,
                forall|i: int| 0 <= i < k ==> is_silent_block((#[trigger] ins@[i]).buffer@),
            decreases info.num_ins - k,
        {
            ins.push(NodeIn::new());
            k += 1;
        }
        let mut outs: Vec<NodeOut> = Vec::new();
        let mut k2: usize = 0;
        while k2 < info.num_outs
            invariant
                k2 <= info.num_outs,
                outs@.len() == k2,
                forall|i: int| 0 <= i < k2 ==> is_silent_block((#[trigger] outs@[i]).buffer@),
            decreases info.num_outs - k2,
        {
            outs.push(NodeOut::new());
            k2 += 1;
        }
        Node { name, id, ins, outs, behavior }
    }
}

// ------------------------------------------------------------------
// The deterministic schedule, specified.
// ------------------------------------------------------------------

/// The edges into `v` whose producers have not been emitted yet.
pub open spec fn unpopped_in_edges(edges: Set<NodeEdge>, v: usize, popped: Set<usize>) -> Set<
    NodeEdge,
> {
    edges.filter(|e: NodeEdge| e.to.0 == v && !popped.contains(e.from.0))
}

/// The remaining in-degree of `v` once the nodes in `popped` have been
/// emitted.
pub open spec fn rem_degree(edges: Set<NodeEdge>, v: usize, popped: Set<usize>) -> nat {
    unpopped_in_edges(edges, v, popped).len()
}

/// The ids, scanned in `ids` order, whose remaining in-degree reaches zero
/// when the emitted set grows from `pre` to `post`.
pub open spec fn ready_list(
    ids: Seq<usize>,
    edges: Set<NodeEdge>,
    pre: Set<usize>,
    post: Set<usize>,
) -> Seq<usize>
    decreases ids.len(),
{
    if ids.len() == 0 {
        Seq::empty()
    } else {
        let rest = ready_list(ids.drop_last(), edges, pre, post);
        if rem_degree(edges, ids.last(), post) == 0 && rem_degree(edges, ids.last(), pre) > 0 {
            rest.push(ids.last())
        } else {
            rest
        }
    }
}

/// The ids, scanned in `ids` order, with no incoming edges at all: the
/// seeds of the schedule.
pub open spec fn seed_list(ids: Seq<usize>, edges: Set<NodeEdge>) -> Seq<usize>
    decreases ids.len(),
{
    if ids.len() == 0 {
        Seq::empty()
    } else {
        let rest = seed_list(ids.drop_last(), edges);
        if rem_degree(edges, ids.last(), Set::empty()) == 0 {
            rest.push(ids.last())
        } else {
            rest
        }
    }
}

/// One FIFO round of the schedule: pop the front of the queue, emit it,
/// and enqueue the ids that this emission made ready, in ascending-id
/// order. The `out.len() >= ids.len()` guard can only be reached from
/// states no run of the algorithm produces.
pub open spec fn kahn_rec(
    ids: Seq<usize>,
    edges: Set<NodeEdge>,
    queue: Seq<usize>,
    out: Seq<usize>,
) -> Seq<usize>
    decreases ids.len() - out.len(),
{
    if queue.len() == 0 {
        out
    } else if out.len() >= ids.len() {
        out
    } else {
        let u = queue[0];
        let out2 = out.push(u);
        let newly = ready_list(ids, edges, out.to_set(), out2.to_set());
        kahn_rec(ids, edges, queue.subrange(1, queue.len() as int) + newly, out2)
    }
}

/// The one schedule of a graph: Kahn's algorithm with a FIFO seeded and
/// fed in ascending-id order. A function of the id sequence and the edge
/// set alone.
pub open spec fn kahn_spec(ids: Seq<usize>, edges: Set<NodeEdge>) -> Seq<usize> {
    kahn_rec(ids, edges, seed_list(ids, edges), Seq::empty())
}

/// `order` lists exactly the ids of `ids`, once each, and every edge goes
/// forward in it.
pub open spec fn is_topo_over(order: Seq<usize>, ids: Seq<usize>, edges: Seq<NodeEdge>) -> bool {
    &&& order.no_duplicates()
    &&& forall|x: usize| order.contains(x) <==> ids.contains(x)
    &&& forall|e: NodeEdge, i: int, j: int|
        #![trigger edges.contains(e), order[i], order[j]]
        edges.contains(e) && 0 <= i < order.len() && 0 <= j < order.len() && order[i]
            == e.from.0 && order[j] == e.to.0 ==> i < j
}

/// Some topological order exists: the graph is a DAG.
pub open spec fn acyclic(ids: Seq<usize>, edges: Seq<NodeEdge>) -> bool {
    exists|ord: Seq<usize>| is_topo_over(ord, ids, edges)
}

/// The edge list with every edge incident to `id` dropped, order kept.
pub open spec fn edges_without(edges: Seq<NodeEdge>, id: usize) -> Seq<NodeEdge>
    decreases edges.len(),
{
    if edges.len() == 0 {
        Seq::empty()
    } else {
        let rest = edges_without(edges.drop_last(), id);
        if edge_incident(edges.last(), id) {
            rest
        } else {
            rest.push(edges.last())
        }
    }
}

/// Membership in `edges_without`: exactly the surviving edges, and an
/// edge survives at most as often as it occurred.
pub proof fn lemma_edges_without(edges: Seq<NodeEdge>, id: usize)
    ensures
        forall|e: NodeEdge|
            #[trigger] edges_without(edges, id).contains(e) <==> edges.contains(e)
                && !edge_incident(e, id),
        edges.no_duplicates() ==> edges_without(edges, id).no_duplicates(),
    decreases edges.len(),
{
    broadcast use vstd::seq_lib::lemma_seq_contains_after_push;

    if edges.len() == 0 {
    } else {
        let prefix = edges.drop_last();
        let last = edges.last();
        lemma_edges_without(prefix, id);
        let rest = edges_without(prefix, id);
        assert(prefix.push(last) =~= edges);
        if edges.no_duplicates() {
            assert(prefix.no_duplicates());
            if !edge_incident(last, id) {
                assert(forall|k: int| 0 <= k < prefix.len() ==> prefix[k] != last);
                assert(!rest.contains(last));
                let rp = rest.push(last);
                assert forall|i: int, j: int| 0 <= i < j < rp.len() implies rp[i] != rp[j] by {
                    if j == rp.len() - 1 {
                        assert(rp[i] == rest[i]);
                        if rp[i] == last {
                            assert(rest.contains(last));
                        }
                    }
                }
            }
        }
    }
}

// ------------------------------------------------------------------
// The graph.
// ------------------------------------------------------------------

/// A collection of nodes keyed by `NodeId`, the routing edges between
/// them, a cached topological order, and a dirty flag.
pub struct NodeGraph {
    nodes: Vec<Node>,
    edges: Vec<NodeEdge>,
    sorted: Vec<NodeId>,
    prev_node_id_val: usize,
    is_dirty: bool,
}

impl NodeGraph {
    /// The live nodes, in ascending-id storage order.
    pub closed spec fn spec_nodes(&self) -> Seq<Node> {
        self.nodes@
    }

    /// The live edges, in insertion order.
    pub closed spec fn spec_edges(&self) -> Seq<NodeEdge> {
        self.edges@
    }

    /// The cached schedule.
    pub closed spec fn spec_sorted(&self) -> Seq<NodeId> {
        self.sorted@
    }

    /// Whether a structural edit has happened since the last sort.
    pub closed spec fn spec_dirty(&self) -> bool {
        self.is_dirty
    }

    /// The value of the most recently assigned id.
    pub closed spec fn spec_prev_id(&self) -> usize {
        self.prev_node_id_val
    }

    /// The ids of the live nodes, ascending.
    pub open spec fn spec_ids(&self) -> Seq<usize> {
        self.spec_nodes().map_values(|n: Node| n.id.0)
    }

    /// The live edges as a set.
    pub open spec fn edge_set(&self) -> Set<NodeEdge> {
        self.spec_edges().to_set()
    }

    /// Whether a node with this id is live.
    pub open spec fn contains_id(&self, id: usize) -> bool {
        self.spec_ids().contains(id)
    }

    /// The storage index of the live node with this id.
    pub open spec fn node_index_of(&self, id: usize) -> int {
        choose|k: int| 0 <= k < self.spec_nodes().len() && self.spec_nodes()[k].id.0 == id
    }

    /// The live node with this id.
    pub open spec fn spec_node(&self, id: usize) -> Node {
        self.spec_nodes()[self.node_index_of(id)]
    }

    /// Ids strictly increase along storage order.
    pub open spec fn ids_ascending(&self) -> bool {
        forall|i: int, j: int|
            0 <= i < j < self.spec_nodes().len() ==> (#[trigger] self.spec_nodes()[i]).id.0 < (
            #[trigger] self.spec_nodes()[j]).id.0
    }

    /// Every edge joins live nodes on ports within their declared counts.
    pub open spec fn edges_wf(&self) -> bool {
        forall|e: NodeEdge| #[trigger] self.spec_edges().contains(e) ==> {
            &&& self.contains_id(e.from.0)
            &&& self.contains_id(e.to.0)
            &&& e.from_out_idx < self.spec_node(e.from.0).behavior.spec_num_outs()
            &&& e.to_in_idx < self.spec_node(e.to.0).behavior.spec_num_ins()
        }
    }

    /// Every input port has at most one incoming edge.
    pub open spec fn inputs_unique(&self) -> bool {
        forall|e1: NodeEdge, e2: NodeEdge|
            #[trigger] self.spec_edges().contains(e1) && #[trigger] self.spec_edges().contains(e2)
                && e1.to == e2.to && e1.to_in_idx == e2.to_in_idx ==> e1 == e2
    }

    /// The structural part of the graph invariant: sound nodes in
    /// ascending-id order with ids drawn from the allocator, and sound
    /// unique edges.
    pub open spec fn wf_core(&self) -> bool {
        &&& self.ids_ascending()
        &&& forall|i: int|
            0 <= i < self.spec_nodes().len() ==> (#[trigger] self.spec_nodes()[i]).wf()
        &&& forall|i: int|
            0 <= i < self.spec_nodes().len() ==> 1 <= (#[trigger] self.spec_nodes()[i]).id.0
                <= self.spec_prev_id()
        &&& self.spec_edges().no_duplicates()
        &&& self.edges_wf()
        &&& self.inputs_unique()
    }

    /// The graph invariant: the structural part, no directed cycle, and,
    /// when clean, the cached schedule.
    pub open spec fn wf(&self) -> bool {
        &&& self.wf_core()
        &&& acyclic(self.spec_ids(), self.spec_edges())
        &&& (!self.spec_dirty() ==> id_vals(self.spec_sorted()) == kahn_spec(
            self.spec_ids(),
            self.edge_set(),
        ))
    }

    /// An empty graph: no nodes, no edges, clean, ids not yet begun.
    pub fn new() -> (g: NodeGraph)
        ensures
            g.wf(),
            g.spec_nodes().len() == 0,
            g.spec_edges().len() == 0,
            g.spec_prev_id() == 0,
            !g.spec_dirty(),
    {
        let g = NodeGraph {
            nodes: Vec::new(),
            edges: Vec::new(),
            sorted: Vec::new(),
            prev_node_id_val: 0,
            is_dirty: false,
        };
        proof {
            let empty_ord = Seq::<usize>::empty();
            assert(is_topo_over(empty_ord, g.spec_ids(), g.spec_edges()));
            assert(g.spec_sorted().map_values(|id: NodeId| id.0) =~= Seq::<usize>::empty());
            reveal_with_fuel(kahn_rec, 2);
            assert(seed_list(g.spec_ids(), g.edge_set()) =~= Seq::<usize>::empty());
            assert(kahn_spec(g.spec_ids(), g.edge_set()) =~= Seq::<usize>::empty());
        }
        g
    }

    /// The storage index of the node with this id, if it is live.
    pub(crate) fn find_index(&self, id: NodeId) -> (r: Option<usize>)
        requires
            self.ids_ascending(),
        ensures
            match r {
                Some(k) => {
                    &&& k < self.spec_nodes().len()
                    &&& self.spec_nodes()[k as int].id == id
                    &&& self.node_index_of(id.0) == k as int
                    &&& self.contains_id(id.0)
                },
                None => !self.contains_id(id.0),
            },
    {
        let n = self.nodes.len();
        let mut k: usize = 0;
        while k < n
            invariant
                n == self.spec_nodes().len(),
                k <= n,
                self.ids_ascending(),
                forall|j: int| 0 <= j < k ==> (#[trigger] self.spec_nodes()[j]).id.0 != id.0,
            decreases n - k,
        {
            if self.nodes[k].id.0 == id.0 {
                proof {
                    assert forall|j: int|
                        0 <= j < self.spec_nodes().len() && self.spec_nodes()[j].id.0 == id.0
                        implies j == k as int by {
                        if j < k as int {
                            assert(self.spec_nodes()[j].id.0 != id.0);
                        }
                        if j > k as int {
                            assert(self.spec_nodes()[k as int].id.0 < self.spec_nodes()[j].id.0);
                        }
                    }
                    assert(self.spec_ids()[k as int] == id.0);
                }
                return Some(k);
            }
            k += 1;
        }
        proof {
            if self.spec_ids().contains(id.0) {
                let j = choose|j: int|
                    0 <= j < self.spec_ids().len() && self.spec_ids()[j] == id.0;
                assert(self.spec_nodes()[j].id.0 == id.0);
                assert(false);
            }
        }
        None
    }

    /// Add a node with the next fresh id; its ports and silent buffers are
    /// sized by the behavior's descriptor. Always succeeds, and marks the
    /// graph dirty.
    pub fn add_node(&mut self, name: &str, behavior: NodeBehavior) -> (r: NodeId)
        requires
            old(self).wf(),
            behavior.wf(),
            old(self).spec_prev_id() < usize::MAX,
        ensures
            final(self).wf(),
            r.0 == old(self).spec_prev_id() + 1,
            final(self).spec_prev_id() == r.0,
            final(self).spec_dirty(),
            final(self).spec_edges() == old(self).spec_edges(),
            final(self).spec_nodes().len() == old(self).spec_nodes().len() + 1,
            forall|k: int|
                0 <= k < old(self).spec_nodes().len() ==> final(self).spec_nodes()[k] == old(
                    self,
                ).spec_nodes()[k],
            final(self).spec_nodes().last().id == r,
            final(self).spec_nodes().last().name@ == name@,
            final(self).spec_nodes().last().behavior == behavior,
            forall|i: int|
                0 <= i < final(self).spec_nodes().last().ins@.len() ==> is_silent_block(
                    (#[trigger] final(self).spec_nodes().last().ins@[i]).buffer@,
                ),
            forall|i: int|
                0 <= i < final(self).spec_nodes().last().outs@.len() ==> is_silent_block(
                    (#[trigger] final(self).spec_nodes().last().outs@[i]).buffer@,
                ),
    {
        let ghost pre = *self;
        self.prev_node_id_val = self.prev_node_id_val + 1;
        let id = NodeId(self.prev_node_id_val);
        let node = Node::new(name.to_owned(), id, behavior);
        self.nodes.push(node);
        self.is_dirty = true;
        proof {
            let ord = choose|ord: Seq<usize>| is_topo_over(ord, pre.spec_ids(), pre.spec_edges());
            let ord2 = ord.push(id.0);
            assert(self.spec_ids() =~= pre.spec_ids().push(id.0));
            assert forall|x: usize| ord2.contains(x) <==> self.spec_ids().contains(x) by {
                if ord2.contains(x) {
                    let k = choose|k: int| 0 <= k < ord2.len() && ord2[k] == x;
                    if k < ord.len() {
                        assert(ord.contains(x));
                        assert(pre.spec_ids().contains(x));
                        let j = choose|j: int|
                            0 <= j < pre.spec_ids().len() && pre.spec_ids()[j] == x;
                        assert(self.spec_ids()[j] == x);
                    } else {
                        assert(self.spec_ids().last() == x);
                    }
                }
                if self.spec_ids().contains(x) {
                    let k = choose|k: int|
                        0 <= k < self.spec_ids().len() && self.spec_ids()[k] == x;
                    if k < pre.spec_ids().len() {
                        assert(pre.spec_ids()[k] == x);
                        assert(ord.contains(x));
                        let j = choose|j: int| 0 <= j < ord.len() && ord[j] == x;
                        assert(ord2[j] == x);
                    } else {
                        assert(ord2[ord2.len() - 1] == x);
                    }
                }
            }
            assert forall|x: usize| pre.spec_ids().contains(x) implies x < id.0 by {
                let k = choose|k: int| 0 <= k < pre.spec_ids().len() && pre.spec_ids()[k] == x;
                assert(pre.spec_nodes()[k].id.0 <= pre.spec_prev_id());
            }
            assert(!ord.contains(id.0));
            assert(ord2.no_duplicates());
            assert forall|e: NodeEdge, i: int, j: int|
                #![trigger self.spec_edges().contains(e), ord2[i], ord2[j]]
                self.spec_edges().contains(e) && 0 <= i < ord2.len() && 0 <= j
                    < ord2.len() && ord2[i] == e.from.0 && ord2[j] == e.to.0 implies i < j by {
                assert(pre.spec_edges().contains(e));
                assert(pre.contains_id(e.from.0) && pre.contains_id(e.to.0));
                assert(e.from.0 < id.0 && e.to.0 < id.0);
                assert(i < ord.len() && j < ord.len());
                assert(ord[i] == e.from.0 && ord[j] == e.to.0);
            }
            assert(is_topo_over(ord2, self.spec_ids(), self.spec_edges()));
            assert forall|e: NodeEdge| #[trigger] self.spec_edges().contains(e) implies {
                &&& self.contains_id(e.from.0)
                &&& self.contains_id(e.to.0)
                &&& e.from_out_idx < self.spec_node(e.from.0).behavior.spec_num_outs()
                &&& e.to_in_idx < self.spec_node(e.to.0).behavior.spec_num_ins()
            } by {
                assert(pre.spec_edges().contains(e));
                lemma_node_lookup_extend(pre, *self, e.from.0);
                lemma_node_lookup_extend(pre, *self, e.to.0);
            }
        }
        id
    }
}

/// After pushing a fresh node with a larger id, every old id still looks
/// up the same node.
proof fn lemma_node_lookup_extend(pre: NodeGraph, post: NodeGraph, id: usize)
    requires
        pre.ids_ascending(),
        pre.contains_id(id),
        post.spec_nodes().len() == pre.spec_nodes().len() + 1,
        forall|k: int|
            0 <= k < pre.spec_nodes().len() ==> post.spec_nodes()[k] == pre.spec_nodes()[k],
        post.spec_nodes().last().id.0 > id,
    ensures
        post.contains_id(id),
        post.spec_node(id) == pre.spec_node(id),
        post.node_index_of(id) == pre.node_index_of(id),
{
    let k = choose|k: int| 0 <= k < pre.spec_nodes().len() && pre.spec_nodes()[k].id.0 == id;
    assert(pre.spec_ids().contains(id));
    assert(pre.spec_ids()[pre.node_index_of(id)] == id) by {
        let j = pre.node_index_of(id);
        assert(0 <= j < pre.spec_nodes().len() && pre.spec_nodes()[j].id.0 == id);
    }
    assert(post.spec_nodes()[k].id.0 == id);
    assert(post.spec_ids()[k] == id);
    assert(post.contains_id(id));
    let j1 = pre.node_index_of(id);
    let j2 = post.node_index_of(id);
    assert(0 <= j2 < post.spec_nodes().len() && post.spec_nodes()[j2].id.0 == id);
    if j2 == post.spec_nodes().len() - 1 {
        assert(post.spec_nodes().last().id.0 == id);
        assert(false);
    }
    assert(pre.spec_nodes()[j2].id.0 == id);
    lemma_ascending_unique(pre, j1, j2);
}

/// In an ascending graph two storage slots cannot hold the same id.
pub(crate) proof fn lemma_ascending_unique(g: NodeGraph, i: int, j: int)
    requires
        g.ids_ascending(),
        0 <= i < g.spec_nodes().len(),
        0 <= j < g.spec_nodes().len(),
        g.spec_nodes()[i].id.0 == g.spec_nodes()[j].id.0,
    ensures
        i == j,
{
    if i < j {
        assert(g.spec_nodes()[i].id.0 < g.spec_nodes()[j].id.0);
    }
    if j < i {
        assert(g.spec_nodes()[j].id.0 < g.spec_nodes()[i].id.0);
    }
}

// ------------------------------------------------------------------
// Removal.
// ------------------------------------------------------------------

/// Pointwise shape, membership and uniqueness of `Seq::remove`.
pub proof fn lemma_seq_remove_properties<A>(s: Seq<A>, k: int)
    requires
        0 <= k < s.len(),
    ensures
        s.remove(k).len() == s.len() - 1,
        forall|i: int| 0 <= i < k ==> #[trigger] s.remove(k)[i] == s[i],
        forall|i: int| k <= i < s.len() - 1 ==> #[trigger] s.remove(k)[i] == s[i + 1],
        s.no_duplicates() ==> s.remove(k).no_duplicates(),
        s.no_duplicates() ==> forall|x: A|
            #[trigger] s.remove(k).contains(x) <==> s.contains(x) && x != s[k],
{
    let t = s.remove(k);
    assert forall|i: int| 0 <= i < k implies #[trigger] t[i] == s[i] by {}
    assert forall|i: int| k <= i < s.len() - 1 implies #[trigger] t[i] == s[i + 1] by {}
    if s.no_duplicates() {
        assert forall|i: int, j: int| 0 <= i < j < t.len() implies t[i] != t[j] by {
            let i2 = if i < k { i } else { i + 1 };
            let j2 = if j < k { j } else { j + 1 };
            assert(t[i] == s[i2] && t[j] == s[j2]);
        }
        assert forall|x: A| #[trigger] t.contains(x) implies s.contains(x) && x != s[k] by {
            let i = choose|i: int| 0 <= i < t.len() && t[i] == x;
            let i2 = if i < k { i } else { i + 1 };
            assert(s[i2] == x);
            if x == s[k] {
                assert(i2 != k);
            }
        }
        assert forall|x: A| s.contains(x) && x != s[k] implies #[trigger] t.contains(x) by {
            let i = choose|i: int| 0 <= i < s.len() && s[i] == x;
            if i < k {
                assert(t[i] == x);
            } else {
                assert(i > k);
                assert(t[i - 1] == x);
            }
        }
    }
}

/// Taking one slot out and putting a replacement back at the same spot
/// changes exactly that slot.
proof fn lemma_slot_back<A>(pre: Seq<A>, post: Seq<A>, i: int, x: A)
    requires
        0 <= i < pre.len(),
        post == pre.remove(i).insert(i, x),
    ensures
        post.len() == pre.len(),
        post[i] == x,
        forall|j: int| 0 <= j < pre.len() && j != i ==> post[j] == pre[j],
{
    lemma_seq_remove_properties(pre, i);
    pre.remove(i).insert_ensures(i, x);
    assert forall|j: int| 0 <= j < pre.len() && j != i implies post[j] == pre[j] by {
        if j < i {
            assert(post[j] == pre.remove(i)[j]);
        } else {
            assert(post[j] == pre.remove(i)[j - 1]);
        }
    }
}

/// A topological order stays one when edges are only taken away.
pub proof fn lemma_topo_edge_subset(
    ord: Seq<usize>,
    ids: Seq<usize>,
    edges: Seq<NodeEdge>,
    edges2: Seq<NodeEdge>,
)
    requires
        is_topo_over(ord, ids, edges),
        forall|e: NodeEdge| #[trigger] edges2.contains(e) ==> edges.contains(e),
    ensures
        is_topo_over(ord, ids, edges2),
{
}

/// Removing one node, with every edge that touched it, keeps the graph a
/// DAG: the witness order with that node struck out still works.
pub proof fn lemma_topo_remove_id(
    ord: Seq<usize>,
    ids: Seq<usize>,
    edges: Seq<NodeEdge>,
    ids2: Seq<usize>,
    edges2: Seq<NodeEdge>,
    id: usize,
)
    requires
        is_topo_over(ord, ids, edges),
        forall|x: usize| #[trigger] ids2.contains(x) <==> ids.contains(x) && x != id,
        forall|e: NodeEdge|
            #[trigger] edges2.contains(e) ==> edges.contains(e) && !edge_incident(e, id),
    ensures
        acyclic(ids2, edges2),
{
    if !ord.contains(id) {
        assert forall|x: usize| ord.contains(x) <==> ids2.contains(x) by {
            if ord.contains(x) {
                assert(x != id);
            }
        }
        assert(is_topo_over(ord, ids2, edges2));
    } else {
        let k = choose|k: int| 0 <= k < ord.len() && ord[k] == id;
        let ord2 = ord.remove(k);
        lemma_seq_remove_properties(ord, k);
        assert forall|x: usize| ord2.contains(x) <==> ids2.contains(x) by {
            if ord2.contains(x) {
                assert(ord.contains(x) && x != id);
            }
            if ids2.contains(x) {
                assert(ord.contains(x) && x != ord[k]);
            }
        }
        assert forall|e: NodeEdge, i: int, j: int|
            #![trigger edges2.contains(e), ord2[i], ord2[j]]
            edges2.contains(e) && 0 <= i < ord2.len() && 0 <= j < ord2.len() && ord2[i]
                == e.from.0 && ord2[j] == e.to.0 implies i < j by {
            let i2 = if i < k { i } else { i + 1 };
            let j2 = if j < k { j } else { j + 1 };
            assert(ord[i2] == e.from.0 && ord[j2] == e.to.0);
            assert(edges.contains(e));
            assert(i2 < j2);
        }
        assert(is_topo_over(ord2, ids2, edges2));
    }
}

impl NodeGraph {
    /// The ids of the live nodes never repeat.
    pub proof fn lemma_ids_no_dup(&self)
        requires
            self.ids_ascending(),
        ensures
            self.spec_ids().no_duplicates(),
    {
        assert forall|i: int, j: int|
            0 <= i < j < self.spec_ids().len() implies self.spec_ids()[i] != self.spec_ids()[j] by {
            assert(self.spec_nodes()[i].id.0 < self.spec_nodes()[j].id.0);
        }
    }

    /// Remove a live node: first every edge incident to it goes, then the
    /// node itself, after its behavior's drop hook has run. Fails with
    /// `UnknownNode` exactly when the id is not live; an error leaves the
    /// graph untouched.
    pub fn remove_node(&mut self, node_id: NodeId) -> (r: Result<(), GraphError>)
        requires
            old(self).wf(),
        ensures
            final(self).wf(),
            r is Ok <==> old(self).contains_id(node_id.0),
            r is Err ==> *final(self) == *old(self) && r == Err::<(), GraphError>(
                GraphError::UnknownNode,
            ),
            r is Ok ==> {
                &&& final(self).spec_nodes() == old(self).spec_nodes().remove(
                    old(self).node_index_of(node_id.0),
                )
                &&& final(self).spec_edges() == edges_without(old(self).spec_edges(), node_id.0)
                &&& forall|e: NodeEdge|
                    #[trigger] final(self).spec_edges().contains(e) <==> old(
                        self,
                    ).spec_edges().contains(e) && !edge_incident(e, node_id.0)
                &&& final(self).spec_prev_id() == old(self).spec_prev_id()
                &&& final(self).spec_dirty()
            },
    {
        let ghost pre = *self;
        let idx_opt = self.find_index(node_id);
        match idx_opt {
            None => Err(GraphError::UnknownNode),
            Some(idx) => {
                let mut node = self.nodes.remove(idx);
                node.behavior.before_drop();
                let ghost old_edges = pre.spec_edges();
                let mut kept: Vec<NodeEdge> = Vec::new();
                let mut k: usize = 0;
                while k < self.edges.len()
                    invariant
                        pre == *old(self),
                        k <= self.edges@.len(),
                        self.edges@ == old_edges,
                        old_edges == pre.spec_edges(),
                        self.spec_nodes() == pre.spec_nodes().remove(idx as int),
                        self.spec_prev_id() == pre.spec_prev_id(),
                        kept@ == edges_without(old_edges.take(k as int), node_id.0),
                    decreases self.edges@.len() - k,
                {
                    let e = self.edges[k];
                    proof {
                        assert(old_edges.take(k + 1).drop_last() =~= old_edges.take(k as int));
                        assert(old_edges.take(k + 1).last() == old_edges[k as int]);
                    }
                    if !(e.from.0 == node_id.0 || e.to.0 == node_id.0) {
                        kept.push(e);
                    }
                    k += 1;
                }
                proof {
                    assert(old_edges.take(old_edges.len() as int) =~= old_edges);
                }
                self.edges = kept;
                self.is_dirty = true;
                proof {
                    lemma_edges_without(pre.spec_edges(), node_id.0);
                    self.lemma_remove_restores_wf(pre, node_id.0, idx as int);
                }
                Ok(())
            },
        }
    }

    /// After removing a node and its incident edges the invariant holds
    /// again.
    proof fn lemma_remove_restores_wf(&self, pre: NodeGraph, id: usize, idx: int)
        requires
            pre.wf(),
            0 <= idx < pre.spec_nodes().len(),
            pre.spec_nodes()[idx].id.0 == id,
            self.spec_nodes() == pre.spec_nodes().remove(idx),
            self.spec_edges() == edges_without(pre.spec_edges(), id),
            self.spec_prev_id() == pre.spec_prev_id(),
            self.spec_dirty(),
        ensures
            self.wf(),
    {
        lemma_seq_remove_properties(pre.spec_nodes(), idx);
        lemma_edges_without(pre.spec_edges(), id);
        pre.lemma_ids_no_dup();
        assert forall|i: int, j: int|
            0 <= i < j < self.spec_nodes().len() implies (#[trigger] self.spec_nodes()[i]).id.0 < (
            #[trigger] self.spec_nodes()[j]).id.0 by {
            let i2 = if i < idx { i } else { i + 1 };
            let j2 = if j < idx { j } else { j + 1 };
            assert(self.spec_nodes()[i] == pre.spec_nodes()[i2]);
            assert(self.spec_nodes()[j] == pre.spec_nodes()[j2]);
        }
        assert forall|i: int|
            0 <= i < self.spec_nodes().len() implies (#[trigger] self.spec_nodes()[i]).wf() && 1 <= self.spec_nodes()[i].id.0 <= self.spec_prev_id() by {
            let i2 = if i < idx { i } else { i + 1 };
            assert(self.spec_nodes()[i] == pre.spec_nodes()[i2]);
        }
        // membership of the new id sequence
        assert forall|x: usize| #[trigger] self.spec_ids().contains(x) implies pre.spec_ids().contains(x)
            && x != id by {
            let i = choose|i: int| 0 <= i < self.spec_ids().len() && self.spec_ids()[i] == x;
            let i2 = if i < idx { i } else { i + 1 };
            assert(self.spec_nodes()[i] == pre.spec_nodes()[i2]);
            assert(pre.spec_ids()[i2] == x);
            if x == id {
                lemma_ascending_unique(pre, i2, idx);
            }
        }
        assert forall|x: usize| pre.spec_ids().contains(x) && x != id implies
            #[trigger] self.spec_ids().contains(x) by {
            let i2 = choose|i: int| 0 <= i < pre.spec_ids().len() && pre.spec_ids()[i] == x;
            if i2 < idx {
                assert(self.spec_nodes()[i2] == pre.spec_nodes()[i2]);
                assert(self.spec_ids()[i2] == x);
            } else {
                assert(i2 != idx);
                assert(self.spec_nodes()[i2 - 1] == pre.spec_nodes()[i2]);
                assert(self.spec_ids()[i2 - 1] == x);
            }
        }
        // lookups for surviving ids agree
        assert forall|x: usize| #[trigger] self.contains_id(x) implies self.spec_node(x)
            == pre.spec_node(x) by {
            self.lemma_lookup_agrees(pre, idx, x);
        }
        assert forall|e: NodeEdge| #[trigger] self.spec_edges().contains(e) implies {
            &&& self.contains_id(e.from.0)
            &&& self.contains_id(e.to.0)
            &&& e.from_out_idx < self.spec_node(e.from.0).behavior.spec_num_outs()
            &&& e.to_in_idx < self.spec_node(e.to.0).behavior.spec_num_ins()
        } by {
            assert(pre.spec_edges().contains(e) && !edge_incident(e, id));
            assert(self.contains_id(e.from.0));
            assert(self.contains_id(e.to.0));
            self.lemma_lookup_agrees(pre, idx, e.from.0);
            self.lemma_lookup_agrees(pre, idx, e.to.0);
        }
        let ord = choose|ord: Seq<usize>| is_topo_over(ord, pre.spec_ids(), pre.spec_edges());
        lemma_topo_remove_id(
            ord,
            pre.spec_ids(),
            pre.spec_edges(),
            self.spec_ids(),
            self.spec_edges(),
            id,
        );
    }

    /// A lookup of a surviving id lands on the same node before and after
    /// one slot was removed.
    proof fn lemma_lookup_agrees(&self, pre: NodeGraph, idx: int, x: usize)
        requires
            pre.ids_ascending(),
            self.ids_ascending(),
            0 <= idx < pre.spec_nodes().len(),
            self.spec_nodes() == pre.spec_nodes().remove(idx),
            self.contains_id(x),
        ensures
            pre.contains_id(x),
            self.spec_node(x) == pre.spec_node(x),
    {
        lemma_seq_remove_properties(pre.spec_nodes(), idx);
        let i = self.node_index_of(x);
        assert(0 <= i < self.spec_nodes().len() && self.spec_nodes()[i].id.0 == x) by {
            let w = choose|k: int|
                0 <= k < self.spec_ids().len() && self.spec_ids()[k] == x;
            assert(self.spec_nodes()[w].id.0 == x);
        }
        let i2 = if i < idx { i } else { i + 1 };
        assert(self.spec_nodes()[i] == pre.spec_nodes()[i2]);
        assert(pre.spec_ids()[i2] == x);
        let j = pre.node_index_of(x);
        assert(0 <= j < pre.spec_nodes().len() && pre.spec_nodes()[j].id.0 == x);
        lemma_ascending_unique(pre, i2, j);
    }

    /// Remove the edge `(from, out_idx) -> (to, in_idx)`. Fails with
    /// `EdgeNotFound` exactly when no such edge is live; an error leaves
    /// the graph untouched.
    pub fn disconnect(
        &mut self,
        from: NodeId,
        from_out_idx: usize,
        to: NodeId,
        to_in_idx: usize,
    ) -> (r: Result<(), GraphError>)
        requires
            old(self).wf(),
        ensures
            final(self).wf(),
            ({
                let e = NodeEdge { from, from_out_idx, to, to_in_idx };
                &&& (r is Ok <==> old(self).spec_edges().contains(e))
                &&& (r is Err ==> *final(self) == *old(self) && r == Err::<(), GraphError>(
                    GraphError::EdgeNotFound,
                ))
                &&& (r is Ok ==> {
                    &&& final(self).spec_nodes() == old(self).spec_nodes()
                    &&& final(self).spec_edges() == old(self).spec_edges().remove(
                        old(self).spec_edges().index_of(e),
                    )
                    &&& forall|e2: NodeEdge|
                        #[trigger] final(self).spec_edges().contains(e2) <==> old(
                            self,
                        ).spec_edges().contains(e2) && e2 != e
                    &&& final(self).spec_prev_id() == old(self).spec_prev_id()
                    &&& final(self).spec_dirty()
                })
            }),
    {
        let ghost pre = *self;
        let e = NodeEdge { from, from_out_idx, to, to_in_idx };
        let n = self.edges.len();
        let mut k: usize = 0;
        while k < n
            invariant
                pre == *old(self),
                n == self.spec_edges().len(),
                k <= n,
                *self == pre,
                pre.wf(),
                e == (NodeEdge { from, from_out_idx, to, to_in_idx }),
                forall|j: int| 0 <= j < k ==> self.spec_edges()[j] != e,
            decreases n - k,
        {
            if self.edges[k] == e {
                proof {
                    assert(pre.spec_edges()[k as int] == e);
                    assert(pre.spec_edges().contains(e));
                    let w = pre.spec_edges().index_of(e);
                    assert(0 <= w < pre.spec_edges().len() && pre.spec_edges()[w] == e) by {
                        assert(pre.spec_edges().contains(e));
                    }
                    assert(w == k as int) by {
                        if w != k as int {
                            assert(pre.spec_edges()[w] == pre.spec_edges()[k as int]);
                        }
                    }
                    lemma_seq_remove_properties(pre.spec_edges(), k as int);
                }
                self.edges.remove(k);
                self.is_dirty = true;
                proof {
                    assert(self.spec_nodes() == pre.spec_nodes());
                    assert forall|e2: NodeEdge|
                        #[trigger] self.spec_edges().contains(e2) implies pre.spec_edges().contains(
                        e2,
                    ) by {}
                    let ord = choose|ord: Seq<usize>|
                        is_topo_over(ord, pre.spec_ids(), pre.spec_edges());
                    lemma_topo_edge_subset(ord, pre.spec_ids(), pre.spec_edges(), self.spec_edges());
                }
                return Ok(());
            }
            k += 1;
        }
        proof {
            if pre.spec_edges().contains(e) {
                let j = choose|j: int|
                    0 <= j < pre.spec_edges().len() && pre.spec_edges()[j] == e;
                assert(false);
            }
        }
        Err(GraphError::EdgeNotFound)
    }
}


// ------------------------------------------------------------------
// Properties of the schedule.
// ------------------------------------------------------------------

/// The edges from `u` into `v`.
pub open spec fn uv_edges(edges: Set<NodeEdge>, u: usize, v: usize) -> Set<NodeEdge> {
    edges.filter(|e: NodeEdge| e.from.0 == u && e.to.0 == v)
}

/// Two disjoint finite sets add their sizes under union.
proof fn lemma_disjoint_union_len<A>(s1: Set<A>, s2: Set<A>)
    requires
        s1.finite(),
        s2.finite(),
        s1.intersect(s2) =~= Set::<A>::empty(),
    ensures
        s1.union(s2).len() == s1.len() + s2.len(),
    decreases s2.len(),
{
    if s2.len() == 0 {
        s2.lemma_len0_is_empty();
        assert(s1.union(s2) =~= s1);
    } else {
        assert(exists|x: A| s2.contains(x)) by {
            if !(exists|x: A| s2.contains(x)) {
                assert(s2 =~= Set::<A>::empty());
            }
        }
        let a = choose|a: A| s2.contains(a);
        let s2r = s2.remove(a);
        assert(s1.union(s2) =~= s1.union(s2r).insert(a));
        assert(s1.intersect(s2r) =~= Set::<A>::empty());
        lemma_disjoint_union_len(s1, s2r);
        assert(!s1.contains(a)) by {
            if s1.contains(a) {
                assert(s1.intersect(s2).contains(a));
                assert(Set::<A>::empty().contains(a));
            }
        }
        assert(!s1.union(s2r).contains(a));
    }
}

/// A remaining in-degree of zero says exactly that every producer feeding
/// `x` has been emitted.
proof fn lemma_rem_degree_zero(edges: Set<NodeEdge>, x: usize, popped: Set<usize>)
    requires
        edges.finite(),
    ensures
        (rem_degree(edges, x, popped) == 0) <==> (forall|e: NodeEdge|
            edges.contains(e) && e.to.0 == x ==> popped.contains(e.from.0)),
{
    let f = unpopped_in_edges(edges, x, popped);
    edges.lemma_len_filter(|e: NodeEdge| e.to.0 == x && !popped.contains(e.from.0));
    if rem_degree(edges, x, popped) == 0 {
        f.lemma_len0_is_empty();
        assert forall|e: NodeEdge| edges.contains(e) && e.to.0 == x implies popped.contains(
            e.from.0,
        ) by {
            if !popped.contains(e.from.0) {
                assert(f.contains(e));
            }
        }
    } else {
        if forall|e: NodeEdge| edges.contains(e) && e.to.0 == x ==> popped.contains(e.from.0) {
            assert(f =~= Set::<NodeEdge>::empty());
        }
    }
}

/// Emitting more nodes can only lower a remaining in-degree.
proof fn lemma_rem_degree_mono(edges: Set<NodeEdge>, x: usize, p1: Set<usize>, p2: Set<usize>)
    requires
        edges.finite(),
        p1.subset_of(p2),
    ensures
        rem_degree(edges, x, p2) <= rem_degree(edges, x, p1),
{
    let f1 = unpopped_in_edges(edges, x, p1);
    let f2 = unpopped_in_edges(edges, x, p2);
    edges.lemma_len_filter(|e: NodeEdge| e.to.0 == x && !p1.contains(e.from.0));
    assert(f2.subset_of(f1));
    lemma_len_subset(f2, f1);
}

/// Emitting `u` lowers the remaining in-degree of `x` by exactly the
/// number of edges from `u` into `x`.
proof fn lemma_rem_degree_insert(edges: Set<NodeEdge>, x: usize, popped: Set<usize>, u: usize)
    requires
        edges.finite(),
        !popped.contains(u),
    ensures
        rem_degree(edges, x, popped) == rem_degree(edges, x, popped.insert(u)) + uv_edges(
            edges,
            u,
            x,
        ).len(),
{
    let b = unpopped_in_edges(edges, x, popped.insert(u));
    let c = uv_edges(edges, u, x);
    edges.lemma_len_filter(|e: NodeEdge| e.to.0 == x && !popped.insert(u).contains(e.from.0));
    edges.lemma_len_filter(|e: NodeEdge| e.from.0 == u && e.to.0 == x);
    assert(unpopped_in_edges(edges, x, popped) =~= b.union(c));
    assert(b.intersect(c) =~= Set::<NodeEdge>::empty());
    lemma_disjoint_union_len(b, c);
}

/// What `ready_list` holds: exactly the ids whose degree reached zero in
/// the step, in their `ids` order, without repeats.
proof fn lemma_ready_list_props(
    ids: Seq<usize>,
    edges: Set<NodeEdge>,
    pre: Set<usize>,
    post: Set<usize>,
)
    ensures
        forall|x: usize|
            #[trigger] ready_list(ids, edges, pre, post).contains(x) <==> ids.contains(x)
                && rem_degree(edges, x, post) == 0 && rem_degree(edges, x, pre) > 0,
        ids.no_duplicates() ==> ready_list(ids, edges, pre, post).no_duplicates(),
    decreases ids.len(),
{
    broadcast use vstd::seq_lib::lemma_seq_contains_after_push;

    if ids.len() == 0 {
    } else {
        let prefix = ids.drop_last();
        lemma_ready_list_props(prefix, edges, pre, post);
        let rest = ready_list(prefix, edges, pre, post);
        assert(prefix.push(ids.last()) =~= ids);
        if ids.no_duplicates() {
            assert(prefix.no_duplicates());
            if rem_degree(edges, ids.last(), post) == 0 && rem_degree(edges, ids.last(), pre)
                > 0 {
                assert(forall|k: int| 0 <= k < prefix.len() ==> prefix[k] != ids.last());
                assert(!rest.contains(ids.last()));
                let rp = rest.push(ids.last());
                assert forall|i: int, j: int| 0 <= i < j < rp.len() implies rp[i] != rp[j] by {
                    if j == rp.len() - 1 {
                        assert(rp[i] == rest[i]);
                        if rp[i] == ids.last() {
                            assert(rest.contains(ids.last()));
                        }
                    }
                }
            }
        }
    }
}

/// What `seed_list` holds: exactly the ids with no incoming edges, in
/// their `ids` order, without repeats.
proof fn lemma_seed_list_props(ids: Seq<usize>, edges: Set<NodeEdge>)
    ensures
        forall|x: usize|
            #[trigger] seed_list(ids, edges).contains(x) <==> ids.contains(x) && rem_degree(
                edges,
                x,
                Set::empty(),
            ) == 0,
        ids.no_duplicates() ==> seed_list(ids, edges).no_duplicates(),
    decreases ids.len(),
{
    broadcast use vstd::seq_lib::lemma_seq_contains_after_push;

    if ids.len() == 0 {
    } else {
        let prefix = ids.drop_last();
        lemma_seed_list_props(prefix, edges);
        let rest = seed_list(prefix, edges);
        assert(prefix.push(ids.last()) =~= ids);
        if ids.no_duplicates() {
            assert(prefix.no_duplicates());
            if rem_degree(edges, ids.last(), Set::empty()) == 0 {
                assert(forall|k: int| 0 <= k < prefix.len() ==> prefix[k] != ids.last());
                assert(!rest.contains(ids.last()));
                let rp = rest.push(ids.last());
                assert forall|i: int, j: int| 0 <= i < j < rp.len() implies rp[i] != rp[j] by {
                    if j == rp.len() - 1 {
                        assert(rp[i] == rest[i]);
                        if rp[i] == ids.last() {
                            assert(rest.contains(ids.last()));
                        }
                    }
                }
            }
        }
    }
}

/// The running state of the schedule: what holds of the emitted list and
/// the queue at every step.
pub open spec fn kahn_state_inv(
    ids: Seq<usize>,
    edges: Set<NodeEdge>,
    queue: Seq<usize>,
    out: Seq<usize>,
) -> bool {
    &&& ids.no_duplicates()
    &&& (out + queue).no_duplicates()
    &&& forall|x: usize| #[trigger] (out + queue).contains(x) ==> ids.contains(x)
    &&& forall|x: usize|
        ids.contains(x) && !(out + queue).contains(x) ==> rem_degree(edges, x, out.to_set()) > 0
    &&& forall|x: usize| #[trigger] queue.contains(x) ==> rem_degree(edges, x, out.to_set()) == 0
    &&& forall|e: NodeEdge, i: int|
        #![trigger edges.contains(e), out[i]]
        edges.contains(e) && 0 <= i < out.len() && out[i] == e.to.0 ==> exists|j: int|
            0 <= j < i && out[j] == e.from.0
}

/// A duplicate-free sequence drawn from the elements of another cannot be
/// longer.
proof fn lemma_no_dup_len_bound(s: Seq<usize>, ids: Seq<usize>)
    requires
        s.no_duplicates(),
        ids.no_duplicates(),
        forall|x: usize| #[trigger] s.contains(x) ==> ids.contains(x),
    ensures
        s.len() <= ids.len(),
{
    s.unique_seq_to_set();
    ids.unique_seq_to_set();
    assert(s.to_set().subset_of(ids.to_set()));
    lemma_len_subset(s.to_set(), ids.to_set());
}

/// One emission step keeps the schedule state sound.
proof fn lemma_kahn_step(ids: Seq<usize>, edges: Set<NodeEdge>, queue: Seq<usize>, out: Seq<usize>)
    requires
        edges.finite(),
        forall|e: NodeEdge|
            #[trigger] edges.contains(e) ==> ids.contains(e.from.0) && ids.contains(e.to.0),
        kahn_state_inv(ids, edges, queue, out),
        queue.len() > 0,
    ensures
        out.len() < ids.len(),
        out.push(queue[0]).to_set() =~= out.to_set().insert(queue[0]),
        kahn_state_inv(
            ids,
            edges,
            queue.subrange(1, queue.len() as int) + ready_list(
                ids,
                edges,
                out.to_set(),
                out.push(queue[0]).to_set(),
            ),
            out.push(queue[0]),
        ),
{
    broadcast use vstd::seq_lib::lemma_seq_contains_after_push;

    lemma_no_dup_len_bound(out + queue, ids);
    assert((out + queue).len() == out.len() + queue.len());
    assert(out.len() < ids.len());
    let u = queue[0];
    let out2 = out.push(u);
    let qrest = queue.subrange(1, queue.len() as int);
    let newly = ready_list(ids, edges, out.to_set(), out2.to_set());
    let q2 = qrest + newly;
    lemma_ready_list_props(ids, edges, out.to_set(), out2.to_set());
    assert(out2.to_set() =~= out.to_set().insert(u)) by {
        assert forall|x: usize| out2.to_set().contains(x) <==> out.to_set().contains(x) || x
            == u by {
            if out2.contains(x) {
                let k = choose|k: int| 0 <= k < out2.len() && out2[k] == x;
                if k < out.len() {
                    assert(out[k] == x);
                }
            }
            if out.contains(x) {
                let k = choose|k: int| 0 <= k < out.len() && out[k] == x;
                assert(out2[k] == x);
            }
            if x == u {
                assert(out2[out.len() as int] == x);
            }
        }
    }
    assert(queue.contains(u));
    assert((out + queue).contains(u)) by {
        assert((out + queue)[out.len() as int] == u);
    }
    // membership helpers between concatenations
    assert forall|x: usize| #[trigger] (out + queue).contains(x) <==> out.contains(x) || x == u
        || qrest.contains(x) by {
        if (out + queue).contains(x) {
            let k = choose|k: int| 0 <= k < (out + queue).len() && (out + queue)[k] == x;
            if k < out.len() {
                assert(out[k] == x);
            } else if k == out.len() {
                assert(x == u);
            } else {
                assert(qrest[k - out.len() - 1] == x);
            }
        }
        if out.contains(x) {
            let k = choose|k: int| 0 <= k < out.len() && out[k] == x;
            assert((out + queue)[k] == x);
        }
        if x == u {
            assert((out + queue)[out.len() as int] == x);
        }
        if qrest.contains(x) {
            let k = choose|k: int| 0 <= k < qrest.len() && qrest[k] == x;
            assert((out + queue)[out.len() + 1 + k] == x);
        }
    }
    assert forall|x: usize| #[trigger] (out2 + q2).contains(x) <==> out.contains(x) || x == u
        || qrest.contains(x) || newly.contains(x) by {
        if (out2 + q2).contains(x) {
            let k = choose|k: int| 0 <= k < (out2 + q2).len() && (out2 + q2)[k] == x;
            if k < out.len() {
                assert(out[k] == x);
            } else if k == out.len() {
                assert(x == u);
            } else if k < out2.len() + qrest.len() {
                assert(qrest[k - out.len() - 1] == x);
            } else {
                assert(newly[k - out2.len() - qrest.len()] == x);
            }
        }
        if out.contains(x) {
            let k = choose|k: int| 0 <= k < out.len() && out[k] == x;
            assert((out2 + q2)[k] == x);
        }
        if x == u {
            assert((out2 + q2)[out.len() as int] == x);
        }
        if qrest.contains(x) {
            let k = choose|k: int| 0 <= k < qrest.len() && qrest[k] == x;
            assert((out2 + q2)[out2.len() + k] == x);
        }
        if newly.contains(x) {
            let k = choose|k: int| 0 <= k < newly.len() && newly[k] == x;
            assert((out2 + q2)[out2.len() + qrest.len() + k] == x);
        }
    }
    // newly is fresh: none of its members sit in out, u, or qrest
    assert forall|x: usize| #[trigger] newly.contains(x) implies !out.contains(x) && x != u
        && !qrest.contains(x) by {
        assert(rem_degree(edges, x, out.to_set()) > 0);
        if out.contains(x) {
            lemma_rem_degree_zero(edges, x, out.to_set());
            assert forall|e: NodeEdge| edges.contains(e) && e.to.0 == x implies out.to_set()
                .contains(e.from.0) by {
                let i = choose|i: int| 0 <= i < out.len() && out[i] == x;
                let j = choose|j: int| 0 <= j < i && out[j] == e.from.0;
                assert(out.to_set().contains(e.from.0));
            }
            assert(rem_degree(edges, x, out.to_set()) == 0);
        }
        if x == u || qrest.contains(x) {
            assert(queue.contains(x)) by {
                if qrest.contains(x) {
                    let k = choose|k: int| 0 <= k < qrest.len() && qrest[k] == x;
                    assert(queue[k + 1] == x);
                }
            }
            assert(rem_degree(edges, x, out.to_set()) == 0);
        }
    }
    // no duplicates in the new state
    assert((out2 + q2).no_duplicates()) by {
        let old_all = out + queue;
        assert(old_all.no_duplicates());
        let new_all = out2 + q2;
        assert forall|i: int, j: int| 0 <= i < j < new_all.len() implies new_all[i]
            != new_all[j] by {
            let base = out2.len() + qrest.len();
            assert(forall|k: int|
                0 <= k < base ==> #[trigger] new_all[k] == old_all[k]) by {
                assert forall|k: int| 0 <= k < base implies #[trigger] new_all[k] == old_all[k] by {
                    if k < out.len() {
                        assert(new_all[k] == out[k] && old_all[k] == out[k]);
                    } else if k == out.len() {
                        assert(new_all[k] == u && old_all[k] == queue[0]);
                    } else {
                        assert(new_all[k] == qrest[k - out.len() - 1]);
                        assert(old_all[k] == queue[k - out.len()]);
                        assert(qrest[k - out.len() - 1] == queue[k - out.len()]);
                    }
                }
            }
            if j < base {
                assert(new_all[i] == old_all[i] && new_all[j] == old_all[j]);
            } else {
                assert(new_all[j] == newly[j - base]);
                assert(newly.contains(new_all[j]));
                if i >= base {
                    assert(new_all[i] == newly[i - base]);
                    assert(newly.no_duplicates());
                } else {
                    assert(new_all[i] == old_all[i]);
                    if i < out.len() {
                        assert(out[i] == new_all[i]);
                    } else if i == out.len() {
                        assert(new_all[i] == u);
                    } else {
                        assert(qrest[i - out.len() - 1] == new_all[i]);
                    }
                }
            }
        }
    }
    // degrees of queue members in the new state
    assert forall|x: usize| #[trigger] q2.contains(x) implies rem_degree(
        edges,
        x,
        out2.to_set(),
    ) == 0 by {
        let k = choose|k: int| 0 <= k < q2.len() && q2[k] == x;
        if k < qrest.len() {
            assert(qrest[k] == x);
            assert(queue[k + 1] == x);
            assert(queue.contains(x));
            assert(rem_degree(edges, x, out.to_set()) == 0);
            lemma_rem_degree_mono(edges, x, out.to_set(), out2.to_set());
        } else {
            assert(newly[k - qrest.len()] == x);
            assert(newly.contains(x));
        }
    }
    // unseen nodes still have positive degree
    assert forall|x: usize| ids.contains(x) && !(out2 + q2).contains(x) implies rem_degree(
        edges,
        x,
        out2.to_set(),
    ) > 0 by {
        assert(!out.contains(x) && x != u && !qrest.contains(x) && !newly.contains(x));
        assert(!(out + queue).contains(x));
        assert(rem_degree(edges, x, out.to_set()) > 0);
        if rem_degree(edges, x, out2.to_set()) == 0 {
            assert(newly.contains(x));
        }
    }
    // the ordering clause for the extended emitted list
    assert forall|e: NodeEdge, i: int|
        #![trigger edges.contains(e), out2[i]]
        edges.contains(e) && 0 <= i < out2.len() && out2[i] == e.to.0 implies exists|j: int|
        0 <= j < i && out2[j] == e.from.0 by {
        if i < out.len() {
            assert(out[i] == e.to.0);
            let j = choose|j: int| 0 <= j < i && out[j] == e.from.0;
            assert(out2[j] == e.from.0);
        } else {
            assert(out2[i] == u);
            assert(rem_degree(edges, u, out.to_set()) == 0);
            lemma_rem_degree_zero(edges, u, out.to_set());
            assert(out.to_set().contains(e.from.0));
            let j = choose|j: int| 0 <= j < out.len() && out[j] == e.from.0;
            assert(out2[j] == e.from.0);
        }
    }
    assert forall|x: usize| #[trigger] (out2 + q2).contains(x) implies ids.contains(x) by {
        if out.contains(x) || x == u || qrest.contains(x) {
            assert((out + queue).contains(x));
        } else {
            assert(newly.contains(x));
        }
    }
    assert(kahn_state_inv(ids, edges, q2, out2));
}

/// Running the schedule from any sound state ends with an empty queue, in
/// a sound state whose emitted list extends the one it started from.
proof fn lemma_kahn_rec_props(
    ids: Seq<usize>,
    edges: Set<NodeEdge>,
    queue: Seq<usize>,
    out: Seq<usize>,
)
    requires
        edges.finite(),
        forall|e: NodeEdge|
            #[trigger] edges.contains(e) ==> ids.contains(e.from.0) && ids.contains(e.to.0),
        kahn_state_inv(ids, edges, queue, out),
    ensures
        ({
            let res = kahn_rec(ids, edges, queue, out);
            &&& res.len() >= out.len()
            &&& res.subrange(0, out.len() as int) == out
            &&& kahn_state_inv(ids, edges, Seq::empty(), res)
        }),
    decreases ids.len() - out.len(),
{
    if queue.len() == 0 {
        assert(kahn_rec(ids, edges, queue, out) == out);
        assert(out.subrange(0, out.len() as int) =~= out);
        assert(out + Seq::<usize>::empty() =~= out + queue);
        assert(kahn_state_inv(ids, edges, Seq::empty(), out));
    } else {
        lemma_kahn_step(ids, edges, queue, out);
        let u = queue[0];
        let out2 = out.push(u);
        let qrest = queue.subrange(1, queue.len() as int);
        let newly = ready_list(ids, edges, out.to_set(), out2.to_set());
        let q2 = qrest + newly;
        assert(kahn_rec(ids, edges, queue, out) == kahn_rec(ids, edges, q2, out2));
        lemma_kahn_rec_props(ids, edges, q2, out2);
        let res = kahn_rec(ids, edges, q2, out2);
        assert(res.subrange(0, out2.len() as int) == out2);
        assert(res.subrange(0, out.len() as int) =~= out) by {
            assert forall|k: int| 0 <= k < out.len() implies res[k] == out[k] by {
                assert(res.subrange(0, out2.len() as int)[k] == out2[k]);
            }
        }
    }
}

/// The initial schedule state is sound.
proof fn lemma_kahn_initial(ids: Seq<usize>, edges: Set<NodeEdge>)
    requires
        edges.finite(),
        ids.no_duplicates(),
        forall|e: NodeEdge|
            #[trigger] edges.contains(e) ==> ids.contains(e.from.0) && ids.contains(e.to.0),
    ensures
        kahn_state_inv(ids, edges, seed_list(ids, edges), Seq::empty()),
{
    let seeds = seed_list(ids, edges);
    lemma_seed_list_props(ids, edges);
    assert(Seq::<usize>::empty() + seeds =~= seeds);
    assert(Seq::<usize>::empty().to_set() =~= Set::<usize>::empty());
    assert forall|x: usize|
        ids.contains(x) && !(Seq::<usize>::empty() + seeds).contains(x) implies rem_degree(
        edges,
        x,
        Seq::<usize>::empty().to_set(),
    ) > 0 by {
        assert(!seeds.contains(x));
        if rem_degree(edges, x, Set::empty()) == 0 {
            assert(seeds.contains(x));
        }
    }
}

/// Soundness: the schedule has no repeats, draws only live ids, and, when
/// it covers every node, is a topological order of the graph.
pub proof fn lemma_kahn_sound(ids: Seq<usize>, edges: Seq<NodeEdge>)
    requires
        ids.no_duplicates(),
        edges.no_duplicates(),
        forall|e: NodeEdge|
            #[trigger] edges.contains(e) ==> ids.contains(e.from.0) && ids.contains(e.to.0),
    ensures
        kahn_spec(ids, edges.to_set()).no_duplicates(),
        forall|x: usize| #[trigger] kahn_spec(ids, edges.to_set()).contains(x) ==> ids.contains(x),
        kahn_spec(ids, edges.to_set()).len() == ids.len() ==> is_topo_over(
            kahn_spec(ids, edges.to_set()),
            ids,
            edges,
        ),
{
    let eset = edges.to_set();
    edges.unique_seq_to_set();
    assert forall|e: NodeEdge| #[trigger] eset.contains(e) implies ids.contains(e.from.0)
        && ids.contains(e.to.0) by {
        assert(edges.contains(e));
    }
    lemma_kahn_initial(ids, eset);
    lemma_kahn_rec_props(ids, eset, seed_list(ids, eset), Seq::empty());
    let res = kahn_spec(ids, eset);
    assert(res + Seq::<usize>::empty() =~= res);
    assert(res.no_duplicates());
    assert forall|x: usize| #[trigger] res.contains(x) implies ids.contains(x) by {
        assert((res + Seq::<usize>::empty()).contains(x));
    }
    if res.len() == ids.len() {
        res.unique_seq_to_set();
        ids.unique_seq_to_set();
        assert(res.to_set().subset_of(ids.to_set()));
        lemma_subset_equality(res.to_set(), ids.to_set());
        assert forall|x: usize| res.contains(x) <==> ids.contains(x) by {
            if ids.contains(x) {
                assert(ids.to_set().contains(x));
                assert(res.to_set().contains(x));
            }
        }
        assert forall|e: NodeEdge, i: int, j: int|
            #![trigger edges.contains(e), res[i], res[j]]
            edges.contains(e) && 0 <= i < res.len() && 0 <= j < res.len() && res[i] == e.from.0
                && res[j] == e.to.0 implies i < j by {
            assert(eset.contains(e));
            let j2 = choose|j2: int| 0 <= j2 < j && res[j2] == e.from.0;
            if i != j2 {
                assert(res[i] == res[j2]);
                assert(false);
            }
        }
        assert(is_topo_over(res, ids, edges));
    }
}

/// The least `ord`-position member of a nonempty set of listed ids.
proof fn lemma_min_ord_pos(ord: Seq<usize>, r: Set<usize>, x0: usize) -> (m: usize)
    requires
        r.contains(x0),
        forall|x: usize| #[trigger] r.contains(x) ==> ord.contains(x),
        ord.no_duplicates(),
    ensures
        r.contains(m),
        forall|x: usize| #[trigger] r.contains(x) ==> ord.index_of(m) <= ord.index_of(x),
    decreases ord.index_of(x0),
{
    assert(ord.contains(x0));
    assert(0 <= ord.index_of(x0) < ord.len() && ord[ord.index_of(x0)] == x0);
    if exists|x: usize| #[trigger] r.contains(x) && ord.index_of(x) < ord.index_of(x0) {
        let x1 = choose|x: usize| #[trigger] r.contains(x) && ord.index_of(x) < ord.index_of(x0);
        assert(ord.contains(x1));
        assert(0 <= ord.index_of(x1) < ord.len() && ord[ord.index_of(x1)] == x1);
        let m = lemma_min_ord_pos(ord, r, x1);
        m
    } else {
        x0
    }
}

/// Completeness: if the graph has any topological order, the schedule
/// reaches every node.
pub proof fn lemma_kahn_complete(ids: Seq<usize>, edges: Seq<NodeEdge>, ord: Seq<usize>)
    requires
        ids.no_duplicates(),
        edges.no_duplicates(),
        forall|e: NodeEdge|
            #[trigger] edges.contains(e) ==> ids.contains(e.from.0) && ids.contains(e.to.0),
        is_topo_over(ord, ids, edges),
    ensures
        kahn_spec(ids, edges.to_set()).len() == ids.len(),
{
    let eset = edges.to_set();
    edges.unique_seq_to_set();
    assert forall|e: NodeEdge| #[trigger] eset.contains(e) implies ids.contains(e.from.0)
        && ids.contains(e.to.0) by {
        assert(edges.contains(e));
    }
    lemma_kahn_initial(ids, eset);
    lemma_kahn_rec_props(ids, eset, seed_list(ids, eset), Seq::empty());
    let res = kahn_spec(ids, eset);
    assert(res + Seq::<usize>::empty() =~= res);
    lemma_no_dup_len_bound(res, ids);
    if res.len() < ids.len() {
        res.unique_seq_to_set();
        ids.unique_seq_to_set();
        let rset = ids.to_set().difference(res.to_set());
        assert(rset.subset_of(ids.to_set()));
        lemma_len_subset(rset, ids.to_set());
        assert(exists|x0: usize| rset.contains(x0)) by {
            if rset.len() == 0 {
                rset.lemma_len0_is_empty();
                assert forall|x: usize| ids.to_set().contains(x) implies res.to_set().contains(
                    x,
                ) by {
                    if !res.to_set().contains(x) {
                        assert(rset.contains(x));
                    }
                }
                assert(ids.to_set().subset_of(res.to_set()));
                lemma_len_subset(ids.to_set(), res.to_set());
                assert(false);
            } else {
                if rset =~= Set::<usize>::empty() {
                    assert(rset.len() == 0);
                }
            }
        }
        let x0 = choose|x0: usize| rset.contains(x0);
        assert forall|x: usize| #[trigger] rset.contains(x) implies ord.contains(x) by {
            assert(ids.to_set().contains(x));
            assert(ids.contains(x));
        }
        let m = lemma_min_ord_pos(ord, rset, x0);
        assert(ids.contains(m) && !res.contains(m)) by {
            assert(rset.contains(m));
            assert(ids.to_set().contains(m));
            if res.contains(m) {
                assert(res.to_set().contains(m));
            }
        }
        assert(!(res + Seq::<usize>::empty()).contains(m)) by {
            if (res + Seq::<usize>::empty()).contains(m) {
                let k = choose|k: int|
                    0 <= k < (res + Seq::<usize>::empty()).len() && (res
                        + Seq::<usize>::empty())[k] == m;
                assert(res[k] == m);
            }
        }
        assert(rem_degree(eset, m, res.to_set()) > 0);
        let f = unpopped_in_edges(eset, m, res.to_set());
        assert(exists|e: NodeEdge| f.contains(e)) by {
            eset.lemma_len_filter(|e: NodeEdge| e.to.0 == m && !res.to_set().contains(e.from.0));
            if f =~= Set::<NodeEdge>::empty() {
                assert(f.len() == 0);
            }
        }
        let e = choose|e: NodeEdge| f.contains(e);
        assert(eset.contains(e) && e.to.0 == m && !res.to_set().contains(e.from.0));
        assert(ids.contains(e.from.0));
        assert(ids.to_set().contains(e.from.0));
        assert(rset.contains(e.from.0));
        let pi = ord.index_of(e.from.0);
        let pj = ord.index_of(m);
        assert(ord.contains(e.from.0) && ord.contains(m));
        assert(0 <= pi < ord.len() && ord[pi] == e.from.0);
        assert(0 <= pj < ord.len() && ord[pj] == m);
        assert(edges.contains(e));
        assert(pi < pj);
        assert(ord.index_of(m) <= ord.index_of(e.from.0));
        assert(false);
    }
}


// ------------------------------------------------------------------
// Running the schedule.
// ------------------------------------------------------------------

/// The ids behind a row of node handles.
pub open spec fn id_vals(s: Seq<NodeId>) -> Seq<usize> {
    s.map_values(|id: NodeId| id.0)
}

/// Growing a duplicate-free prefix by one element grows its set by that
/// element, which is fresh.
proof fn lemma_prefix_to_set_step(s: Seq<NodeEdge>, k: int)
    requires
        0 <= k < s.len(),
        s.no_duplicates(),
    ensures
        s.take(k + 1).to_set() =~= s.take(k).to_set().insert(s[k]),
        !s.take(k).to_set().contains(s[k]),
        s.take(k).to_set().finite(),
{
    broadcast use vstd::seq_lib::seq_to_set_is_finite;

    let t1 = s.take(k + 1);
    let t0 = s.take(k);
    assert forall|e: NodeEdge| t1.to_set().contains(e) <==> t0.to_set().insert(s[k]).contains(
        e,
    ) by {
        if t1.contains(e) {
            let i = choose|i: int| 0 <= i < t1.len() && t1[i] == e;
            if i < k {
                assert(t0[i] == e);
            }
        }
        if t0.contains(e) {
            let i = choose|i: int| 0 <= i < t0.len() && t0[i] == e;
            assert(t1[i] == e);
        }
        if e == s[k] {
            assert(t1[k] == e);
        }
    }
    if t0.contains(s[k]) {
        let i = choose|i: int| 0 <= i < t0.len() && t0[i] == s[k];
        assert(s[i] == s[k]);
    }
}

/// One scanned edge raises the counted in-degree of `v` by one exactly
/// when it feeds `v` from an unemitted producer.
proof fn lemma_degree_count_step(s: Seq<NodeEdge>, k: int, v: usize, popped: Set<usize>)
    requires
        0 <= k < s.len(),
        s.no_duplicates(),
    ensures
        rem_degree(s.take(k + 1).to_set(), v, popped) == rem_degree(s.take(k).to_set(), v, popped)
            + (if s[k].to.0 == v && !popped.contains(s[k].from.0) {
            1int
        } else {
            0int
        }),
{
    lemma_prefix_to_set_step(s, k);
    let a = s.take(k).to_set();
    let e = s[k];
    let f0 = unpopped_in_edges(a, v, popped);
    let f1 = unpopped_in_edges(a.insert(e), v, popped);
    a.lemma_len_filter(|e2: NodeEdge| e2.to.0 == v && !popped.contains(e2.from.0));
    if e.to.0 == v && !popped.contains(e.from.0) {
        assert(f1 =~= f0.insert(e));
        assert(!f0.contains(e));
    } else {
        assert(f1 =~= f0);
    }
    assert(s.take(k + 1).to_set() == a.insert(e));
}

/// One scanned edge raises the count of edges from `u` into `v` by one
/// exactly when it is such an edge.
proof fn lemma_uv_count_step(s: Seq<NodeEdge>, k: int, u: usize, v: usize)
    requires
        0 <= k < s.len(),
        s.no_duplicates(),
    ensures
        uv_edges(s.take(k + 1).to_set(), u, v).len() == uv_edges(s.take(k).to_set(), u, v).len()
            + (if s[k].from.0 == u && s[k].to.0 == v {
            1int
        } else {
            0int
        }),
{
    lemma_prefix_to_set_step(s, k);
    let a = s.take(k).to_set();
    let e = s[k];
    let f0 = uv_edges(a, u, v);
    let f1 = uv_edges(a.insert(e), u, v);
    a.lemma_len_filter(|e2: NodeEdge| e2.from.0 == u && e2.to.0 == v);
    if e.from.0 == u && e.to.0 == v {
        assert(f1 =~= f0.insert(e));
        assert(!f0.contains(e));
    } else {
        assert(f1 =~= f0);
    }
    assert(s.take(k + 1).to_set() == a.insert(e));
}

impl NodeGraph {
    /// Count the edges into `v`.
    fn count_edges_into(&self, v: usize) -> (c: usize)
        requires
            self.spec_edges().no_duplicates(),
        ensures
            c as nat == rem_degree(self.edge_set(), v, Set::empty()),
    {
        let n = self.edges.len();
        let mut c: usize = 0;
        let mut k: usize = 0;
        proof {
            assert(self.spec_edges().take(0) =~= Seq::<NodeEdge>::empty());
            assert(self.spec_edges().take(0).to_set() =~= Set::<NodeEdge>::empty());
            assert(unpopped_in_edges(Set::empty(), v, Set::empty()) =~= Set::<NodeEdge>::empty());
        }
        while k < n
            invariant
                k <= n,
                n == self.spec_edges().len(),
                self.spec_edges().no_duplicates(),
                c <= k,
                c as nat == rem_degree(self.spec_edges().take(k as int).to_set(), v, Set::empty()),
            decreases n - k,
        {
            proof {
                lemma_degree_count_step(self.spec_edges(), k as int, v, Set::empty());
            }
            if self.edges[k].to.0 == v {
                c += 1;
            }
            k += 1;
        }
        proof {
            assert(self.spec_edges().take(n as int) =~= self.spec_edges());
        }
        c
    }

    /// Count the edges from `u` into `v`.
    pub(crate) fn count_edges_between(&self, u: usize, v: usize) -> (c: usize)
        requires
            self.spec_edges().no_duplicates(),
        ensures
            c as nat == uv_edges(self.edge_set(), u, v).len(),
    {
        let n = self.edges.len();
        let mut c: usize = 0;
        let mut k: usize = 0;
        proof {
            assert(self.spec_edges().take(0) =~= Seq::<NodeEdge>::empty());
            assert(self.spec_edges().take(0).to_set() =~= Set::<NodeEdge>::empty());
            assert(uv_edges(Set::empty(), u, v) =~= Set::<NodeEdge>::empty());
        }
        while k < n
            invariant
                k <= n,
                n == self.spec_edges().len(),
                self.spec_edges().no_duplicates(),
                c <= k,
                c as nat == uv_edges(self.spec_edges().take(k as int).to_set(), u, v).len(),
            decreases n - k,
        {
            proof {
                lemma_uv_count_step(self.spec_edges(), k as int, u, v);
            }
            if self.edges[k].from.0 == u && self.edges[k].to.0 == v {
                c += 1;
            }
            k += 1;
        }
        proof {
            assert(self.spec_edges().take(n as int) =~= self.spec_edges());
        }
        c
    }

    /// Run Kahn's schedule on the current graph: FIFO, seeded and fed in
    /// ascending-id order. Returns the emitted order and whether it covers
    /// every live node.
    fn run_schedule(&self) -> (res: (Vec<NodeId>, bool))
        requires
            self.ids_ascending(),
            self.spec_edges().no_duplicates(),
            self.edges_wf(),
        ensures
            id_vals(res.0@) == kahn_spec(self.spec_ids(), self.edge_set()),
            res.1 <==> res.0@.len() == self.spec_nodes().len(),
    {
        let ghost ids = self.spec_ids();
        let ghost eset = self.edge_set();
        proof {
            broadcast use vstd::seq_lib::seq_to_set_is_finite;

            self.lemma_ids_no_dup();
            assert(eset.finite());
            assert forall|e: NodeEdge| #[trigger] eset.contains(e) implies ids.contains(e.from.0)
                && ids.contains(e.to.0) by {
                assert(self.spec_edges().contains(e));
            }
        }
        let n = self.nodes.len();

        // remaining in-degree of every node, by storage slot
        let mut deg: Vec<usize> = Vec::new();
        let mut j: usize = 0;
        while j < n
            invariant
                j <= n,
                n == self.spec_nodes().len(),
                ids == self.spec_ids(),
                eset == self.edge_set(),
                self.spec_edges().no_duplicates(),
                deg@.len() == j,
                forall|i: int|
                    0 <= i < j ==> (#[trigger] deg@[i]) as nat == rem_degree(
                        eset,
                        ids[i],
                        Set::empty(),
                    ),
            decreases n - j,
        {
            let c = self.count_edges_into(self.nodes[j].id.0);
            deg.push(c);
            j += 1;
        }

        // seed the FIFO in ascending-id order
        let mut queue: Vec<NodeId> = Vec::new();
        let mut j2: usize = 0;
        proof {
            assert(ids.take(0) =~= Seq::<usize>::empty());
        }
        while j2 < n
            invariant
                j2 <= n,
                n == self.spec_nodes().len(),
                ids == self.spec_ids(),
                eset == self.edge_set(),
                deg@.len() == n,
                forall|i: int|
                    0 <= i < n ==> (#[trigger] deg@[i]) as nat == rem_degree(
                        eset,
                        ids[i],
                        Set::empty(),
                    ),
                id_vals(queue@) == seed_list(ids.take(j2 as int), eset),
            decreases n - j2,
        {
            proof {
                assert(ids.take(j2 + 1).drop_last() =~= ids.take(j2 as int));
                assert(ids.take(j2 + 1).last() == ids[j2 as int]);
            }
            let ghost qpre = queue@;
            if deg[j2] == 0 {
                queue.push(self.nodes[j2].id);
                proof {
                    assert(id_vals(queue@) =~= id_vals(qpre).push(ids[j2 as int]));
                }
            }
            j2 += 1;
        }
        proof {
            assert(ids.take(n as int) =~= ids);
        }

        // pop, emit, decrement, enqueue the newly ready, ascending
        let mut out: Vec<NodeId> = Vec::new();
        let mut qh: usize = 0;
        proof {
            lemma_kahn_initial(ids, eset);
            assert(id_vals(queue@).subrange(0, id_vals(queue@).len() as int) =~= id_vals(queue@));
            assert(id_vals(out@) =~= Seq::<usize>::empty());
            assert(id_vals(out@).to_set() =~= Set::<usize>::empty());
        }
        while qh < queue.len()
            invariant
                qh <= queue@.len(),
                n == self.spec_nodes().len(),
                ids == self.spec_ids(),
                eset == self.edge_set(),
                self.ids_ascending(),
                self.spec_edges().no_duplicates(),
                eset.finite(),
                forall|e: NodeEdge|
                    #[trigger] eset.contains(e) ==> ids.contains(e.from.0) && ids.contains(
                        e.to.0,
                    ),
                deg@.len() == n,
                forall|i: int|
                    0 <= i < n ==> (#[trigger] deg@[i]) as nat == rem_degree(
                        eset,
                        ids[i],
                        id_vals(out@).to_set(),
                    ),
                kahn_state_inv(
                    ids,
                    eset,
                    id_vals(queue@).subrange(qh as int, queue@.len() as int),
                    id_vals(out@),
                ),
                kahn_rec(
                    ids,
                    eset,
                    id_vals(queue@).subrange(qh as int, queue@.len() as int),
                    id_vals(out@),
                ) == kahn_spec(ids, eset),
                out@.len() <= n,
            decreases n - out@.len(),
        {
            let ghost qspec0 = id_vals(queue@).subrange(qh as int, queue@.len() as int);
            let ghost ospec0 = id_vals(out@);
            let ghost qall0 = id_vals(queue@);
            let u = queue[qh];
            qh += 1;
            proof {
                assert(qspec0[0] == u.0);
                lemma_kahn_step(ids, eset, qspec0, ospec0);
            }
            out.push(u);
            let ghost ospec1 = ospec0.push(u.0);
            proof {
                assert(id_vals(out@) =~= ospec1);
                assert(!ospec0.to_set().contains(u.0)) by {
                    if ospec0.to_set().contains(u.0) {
                        assert((ospec0 + qspec0).no_duplicates());
                        let i = choose|i: int| 0 <= i < ospec0.len() && ospec0[i] == u.0;
                        assert((ospec0 + qspec0)[i] == u.0);
                        assert((ospec0 + qspec0)[ospec0.len() as int] == u.0);
                    }
                }
                assert(ospec1.to_set() == ospec0.to_set().insert(u.0));
            }
            let ghost newly = ready_list(ids, eset, ospec0.to_set(), ospec1.to_set());
            let mut v: usize = 0;
            proof {
                assert(ids.take(0) =~= Seq::<usize>::empty());
                assert(id_vals(queue@) =~= qall0 + ready_list(
                    ids.take(0),
                    eset,
                    ospec0.to_set(),
                    ospec1.to_set(),
                ));
            }
            while v < n
                invariant
                    v <= n,
                    n == self.spec_nodes().len(),
                    ids == self.spec_ids(),
                    eset == self.edge_set(),
                    self.ids_ascending(),
                    self.spec_edges().no_duplicates(),
                    eset.finite(),
                    id_vals(out@) == ospec1,
                    ospec1 == ospec0.push(u.0),
                    !ospec0.to_set().contains(u.0),
                    ospec1.to_set() == ospec0.to_set().insert(u.0),
                    deg@.len() == n,
                    forall|i: int|
                        0 <= i < v ==> (#[trigger] deg@[i]) as nat == rem_degree(
                            eset,
                            ids[i],
                            ospec1.to_set(),
                        ),
                    forall|i: int|
                        v <= i < n ==> (#[trigger] deg@[i]) as nat == rem_degree(
                            eset,
                            ids[i],
                            ospec0.to_set(),
                        ),
                    id_vals(queue@) == qall0 + ready_list(
                        ids.take(v as int),
                        eset,
                        ospec0.to_set(),
                        ospec1.to_set(),
                    ),
                decreases n - v,
            {
                proof {
                    assert(ids.take(v + 1).drop_last() =~= ids.take(v as int));
                    assert(ids.take(v + 1).last() == ids[v as int]);
                    lemma_rem_degree_insert(eset, ids[v as int], ospec0.to_set(), u.0);
                }
                let ghost qmid = queue@;
                let c = self.count_edges_between(u.0, self.nodes[v].id.0);
                if c > 0 {
                    let dv = deg[v];
                    let nd = dv - c;
                    deg.set(v, nd);
                    if nd == 0 {
                        queue.push(self.nodes[v].id);
                        proof {
                            assert(id_vals(queue@) =~= id_vals(qmid).push(ids[v as int]));
                        }
                    }
                }
                v += 1;
            }
            proof {
                assert(ids.take(n as int) =~= ids);
                let qall1 = id_vals(queue@);
                assert(qall1 == qall0 + newly);
                let qspec1 = qall1.subrange(qh as int, queue@.len() as int);
                assert(qspec1 =~= qspec0.subrange(1, qspec0.len() as int) + newly) by {
                    assert(qall1.len() == qall0.len() + newly.len());
                    assert forall|i: int| 0 <= i < qspec1.len() implies qspec1[i]
                        == (qspec0.subrange(1, qspec0.len() as int) + newly)[i] by {
                        if i < qspec0.len() - 1 {
                            assert(qspec1[i] == qall1[qh + i]);
                            assert(qall1[qh + i] == qall0[qh + i]);
                            assert(qspec0.subrange(1, qspec0.len() as int)[i] == qspec0[i + 1]);
                            assert(qspec0[i + 1] == qall0[qh + i]);
                        } else {
                            assert(qspec1[i] == qall1[qh + i]);
                            assert(qall1[qh + i] == newly[qh + i - qall0.len()]);
                        }
                    }
                }
                assert(kahn_rec(ids, eset, qspec0, ospec0) == kahn_rec(ids, eset, qspec1, ospec1));
                assert(ospec1.len() <= ids.len()) by {
                    assert(kahn_state_inv(ids, eset, qspec1, ospec1));
                    assert(ospec1.no_duplicates() && forall|x: usize|
                        #[trigger] ospec1.contains(x) ==> ids.contains(x)) by {
                        assert((ospec1 + qspec1).no_duplicates());
                        assert forall|i: int, j: int|
                            0 <= i < j < ospec1.len() implies ospec1[i] != ospec1[j] by {
                            assert((ospec1 + qspec1)[i] == ospec1[i]);
                            assert((ospec1 + qspec1)[j] == ospec1[j]);
                        }
                        assert forall|x: usize| #[trigger] ospec1.contains(x) implies ids.contains(
                            x,
                        ) by {
                            let i = choose|i: int| 0 <= i < ospec1.len() && ospec1[i] == x;
                            assert((ospec1 + qspec1)[i] == x);
                            assert((ospec1 + qspec1).contains(x));
                        }
                    }
                    lemma_no_dup_len_bound(ospec1, ids);
                }
            }
        }
        proof {
            let qspec = id_vals(queue@).subrange(qh as int, queue@.len() as int);
            assert(qspec.len() == 0);
            assert(kahn_rec(ids, eset, qspec, id_vals(out@)) == id_vals(out@));
        }
        let covered = out.len() == n;
        (out, covered)
    }
}


// ------------------------------------------------------------------
// Connecting, and keeping the schedule fresh.
// ------------------------------------------------------------------

/// Whether two graph values carry the same observable state.
pub open spec fn same_state(a: NodeGraph, b: NodeGraph) -> bool {
    &&& a.spec_nodes() == b.spec_nodes()
    &&& a.spec_edges() == b.spec_edges()
    &&& a.spec_sorted() == b.spec_sorted()
    &&& a.spec_prev_id() == b.spec_prev_id()
    &&& a.spec_dirty() == b.spec_dirty()
}

/// The one reply `connect` gives on a graph, checked in this order:
/// unknown producer, unknown consumer, producer port out of range,
/// consumer port out of range, consumer input already fed, cycle.
pub open spec fn connect_outcome(
    g: NodeGraph,
    from: NodeId,
    from_out_idx: usize,
    to: NodeId,
    to_in_idx: usize,
) -> Result<(), GraphError> {
    let e = NodeEdge { from, from_out_idx, to, to_in_idx };
    if !g.contains_id(from.0) {
        Err(GraphError::UnknownNode)
    } else if !g.contains_id(to.0) {
        Err(GraphError::UnknownNode)
    } else if from_out_idx >= g.spec_node(from.0).behavior.spec_num_outs() {
        Err(GraphError::PortOutOfRange)
    } else if to_in_idx >= g.spec_node(to.0).behavior.spec_num_ins() {
        Err(GraphError::PortOutOfRange)
    } else if exists|e2: NodeEdge|
        #[trigger] g.spec_edges().contains(e2) && e2.to == to && e2.to_in_idx == to_in_idx {
        Err(GraphError::InputAlreadyConnected)
    } else if !acyclic(g.spec_ids(), g.spec_edges().push(e)) {
        Err(GraphError::WouldCreateCycle)
    } else {
        Ok(())
    }
}

impl NodeGraph {
    /// Run the schedule and cache it. Only called when the graph is known
    /// to be a DAG, so the schedule always covers every node.
    pub(crate) fn sort(&mut self)
        requires
            old(self).wf_core(),
            acyclic(old(self).spec_ids(), old(self).spec_edges()),
        ensures
            final(self).wf(),
            same_state_but_schedule(*final(self), *old(self)),
            !final(self).spec_dirty(),
            id_vals(final(self).spec_sorted()) == kahn_spec(
                old(self).spec_ids(),
                old(self).edge_set(),
            ),
            final(self).spec_sorted().len() == final(self).spec_nodes().len(),
            is_topo_over(
                id_vals(final(self).spec_sorted()),
                final(self).spec_ids(),
                final(self).spec_edges(),
            ),
    {
        let ghost pre = *self;
        let (order, ok) = self.run_schedule();
        self.sorted = order;
        self.is_dirty = false;
        proof {
            pre.lemma_ids_no_dup();
            let ord = choose|ord: Seq<usize>| is_topo_over(ord, pre.spec_ids(), pre.spec_edges());
            lemma_kahn_complete(pre.spec_ids(), pre.spec_edges(), ord);
            lemma_kahn_sound(pre.spec_ids(), pre.spec_edges());
            assert(id_vals(self.spec_sorted()).len() == self.spec_sorted().len());
        }
    }

    /// Record the edge `(from, out_idx) -> (to, in_idx)` on the graph.
    /// The reply is exactly `connect_outcome`; on any error the graph is
    /// left as it was.
    pub fn connect(
        &mut self,
        from: NodeId,
        from_out_idx: usize,
        to: NodeId,
        to_in_idx: usize,
    ) -> (r: Result<(), GraphError>)
        requires
            old(self).wf(),
        ensures
            final(self).wf(),
            r == connect_outcome(*old(self), from, from_out_idx, to, to_in_idx),
            r is Err ==> same_state(*final(self), *old(self)),
            r is Ok ==> {
                &&& final(self).spec_nodes() == old(self).spec_nodes()
                &&& final(self).spec_edges() == old(self).spec_edges().push(
                    NodeEdge { from, from_out_idx, to, to_in_idx },
                )
                &&& final(self).spec_prev_id() == old(self).spec_prev_id()
                &&& final(self).spec_dirty()
            },
    {
        let ghost pre = *self;
        let e = NodeEdge { from, from_out_idx, to, to_in_idx };
        let from_idx: usize;
        match self.find_index(from) {
            None => {
                return Err(GraphError::UnknownNode);
            },
            Some(i) => {
                from_idx = i;
            },
        }
        let to_idx: usize;
        match self.find_index(to) {
            None => {
                return Err(GraphError::UnknownNode);
            },
            Some(i) => {
                to_idx = i;
            },
        }
        if from_out_idx >= self.nodes[from_idx].outs.len() {
            return Err(GraphError::PortOutOfRange);
        }
        if to_in_idx >= self.nodes[to_idx].ins.len() {
            return Err(GraphError::PortOutOfRange);
        }
        let n = self.edges.len();
        let mut k: usize = 0;
        while k < n
            invariant
                pre == *old(self),
                *self == pre,
                pre.wf(),
                pre.contains_id(from.0),
                pre.contains_id(to.0),
                from_out_idx < pre.spec_node(from.0).behavior.spec_num_outs(),
                to_in_idx < pre.spec_node(to.0).behavior.spec_num_ins(),
                n == self.spec_edges().len(),
                k <= n,
                forall|j: int|
                    0 <= j < k ==> !((#[trigger] self.spec_edges()[j]).to == to
                        && self.spec_edges()[j].to_in_idx == to_in_idx),
            decreases n - k,
        {
            if self.edges[k].to.0 == to.0 && self.edges[k].to_in_idx == to_in_idx {
                proof {
                    assert(self.spec_edges().contains(self.spec_edges()[k as int]));
                }
                return Err(GraphError::InputAlreadyConnected);
            }
            k += 1;
        }
        proof {
            if exists|e2: NodeEdge|
                #[trigger] pre.spec_edges().contains(e2) && e2.to == to && e2.to_in_idx
                    == to_in_idx {
                let e2 = choose|e2: NodeEdge|
                    #[trigger] pre.spec_edges().contains(e2) && e2.to == to && e2.to_in_idx
                        == to_in_idx;
                let j = choose|j: int|
                    0 <= j < pre.spec_edges().len() && pre.spec_edges()[j] == e2;
                assert(false);
            }
        }
        // trial: record the edge, then check that a full schedule exists
        let was_dirty = self.is_dirty;
        self.edges.push(e);
        proof {
            broadcast use vstd::seq_lib::lemma_seq_contains_after_push;

            assert(!pre.spec_edges().contains(e));
            assert(self.spec_edges().no_duplicates());
            assert forall|e2: NodeEdge| #[trigger] self.spec_edges().contains(e2) implies {
                &&& self.contains_id(e2.from.0)
                &&& self.contains_id(e2.to.0)
                &&& e2.from_out_idx < self.spec_node(e2.from.0).behavior.spec_num_outs()
                &&& e2.to_in_idx < self.spec_node(e2.to.0).behavior.spec_num_ins()
            } by {
                if e2 == e {
                    assert(self.spec_node(from.0) == pre.spec_nodes()[from_idx as int]);
                    assert(self.spec_node(to.0) == pre.spec_nodes()[to_idx as int]);
                } else {
                    assert(pre.spec_edges().contains(e2));
                }
            }
            assert forall|e1: NodeEdge, e2: NodeEdge|
                #[trigger] self.spec_edges().contains(e1) && #[trigger] self.spec_edges().contains(
                    e2,
                ) && e1.to == e2.to && e1.to_in_idx == e2.to_in_idx implies e1 == e2 by {
                if e1 != e && e2 != e {
                    assert(pre.spec_edges().contains(e1) && pre.spec_edges().contains(e2));
                } else if e1 == e && e2 != e {
                    assert(pre.spec_edges().contains(e2));
                    let j = choose|j: int|
                        0 <= j < pre.spec_edges().len() && pre.spec_edges()[j] == e2;
                    assert(false);
                } else if e2 == e && e1 != e {
                    assert(pre.spec_edges().contains(e1));
                    let j = choose|j: int|
                        0 <= j < pre.spec_edges().len() && pre.spec_edges()[j] == e1;
                    assert(false);
                }
            }
        }
        let (trial, ok) = self.run_schedule();
        if ok {
            self.is_dirty = true;
            proof {
                self.lemma_ids_no_dup();
                lemma_kahn_sound(self.spec_ids(), self.spec_edges());
                assert(is_topo_over(
                    id_vals(trial@),
                    self.spec_ids(),
                    self.spec_edges(),
                ));
                assert(acyclic(self.spec_ids(), self.spec_edges()));
                assert(self.spec_edges() == pre.spec_edges().push(e));
            }
            Ok(())
        } else {
            self.edges.pop();
            self.is_dirty = was_dirty;
            proof {
                assert(self.spec_edges() =~= pre.spec_edges());
                assert(self.edge_set() =~= pre.edge_set());
                self.lemma_ids_no_dup();
                if acyclic(pre.spec_ids(), pre.spec_edges().push(e)) {
                    let ord = choose|ord: Seq<usize>|
                        is_topo_over(ord, pre.spec_ids(), pre.spec_edges().push(e));
                    lemma_kahn_complete(pre.spec_ids(), pre.spec_edges().push(e), ord);
                    assert(false);
                }
            }
            Err(GraphError::WouldCreateCycle)
        }
    }
}

/// Whether two graph values agree on everything but the cached schedule
/// and the dirty flag.
pub open spec fn same_state_but_schedule(a: NodeGraph, b: NodeGraph) -> bool {
    &&& a.spec_nodes() == b.spec_nodes()
    &&& a.spec_edges() == b.spec_edges()
    &&& a.spec_prev_id() == b.spec_prev_id()
}


// ------------------------------------------------------------------
// Evaluating one block.
// ------------------------------------------------------------------

/// After a tick, what holds of the node stored at slot `k`: every
/// connected input carries its producer's output block, every
/// unconnected input carries silence, and the outputs and behavior state
/// step by `behavior_post` on exactly those inputs.
pub open spec fn tick_node_post(pre: NodeGraph, post: NodeGraph, k: int) -> bool {
    let v0 = pre.spec_nodes()[k];
    let v = post.spec_nodes()[k];
    &&& forall|e: NodeEdge|
        #[trigger] post.spec_edges().contains(e) && e.to == v.id ==> v.ins@[e.to_in_idx as int].buffer@
            == post.spec_node(e.from.0).outs@[e.from_out_idx as int].buffer@
    &&& forall|i: int|
        0 <= i < v.ins@.len() && (forall|e: NodeEdge|
            #[trigger] post.spec_edges().contains(e) ==> !(e.to == v.id && e.to_in_idx as int
                == i)) ==> is_silent_block(v.ins@[i].buffer@)
    &&& behavior_post(
        v0.behavior,
        v.behavior,
        in_views(v.ins@),
        out_views(v0.outs@),
        out_views(v.outs@),
    )
}

/// The same statement, keyed by node id: the shape the evaluation loop
/// maintains for every node already visited.
pub open spec fn tick_id_done(mid: NodeGraph, cur: NodeGraph, vid: usize) -> bool {
    let v = cur.spec_node(vid);
    let v0 = mid.spec_node(vid);
    &&& forall|e: NodeEdge|
        #[trigger] cur.spec_edges().contains(e) && e.to.0 == vid ==> v.ins@[e.to_in_idx as int].buffer@
            == cur.spec_node(e.from.0).outs@[e.from_out_idx as int].buffer@
    &&& forall|i: int|
        0 <= i < v.ins@.len() && (forall|e: NodeEdge|
            #[trigger] cur.spec_edges().contains(e) ==> !(e.to.0 == vid && e.to_in_idx as int
                == i)) ==> is_silent_block(v.ins@[i].buffer@)
    &&& behavior_post(
        v0.behavior,
        v.behavior,
        in_views(v.ins@),
        out_views(v0.outs@),
        out_views(v.outs@),
    )
}

impl NodeGraph {
    /// Where a live id sits, and that the slot is the only one.
    pub(crate) proof fn lemma_lookup_props(&self, x: usize)
        requires
            self.ids_ascending(),
            self.contains_id(x),
        ensures
            0 <= self.node_index_of(x) < self.spec_nodes().len(),
            self.spec_nodes()[self.node_index_of(x)].id.0 == x,
            forall|k: int|
                0 <= k < self.spec_nodes().len() && (#[trigger] self.spec_nodes()[k]).id.0 == x
                    ==> k == self.node_index_of(x),
    {
        let j = choose|j: int| 0 <= j < self.spec_ids().len() && self.spec_ids()[j] == x;
        assert(self.spec_nodes()[j].id.0 == x);
        let i = self.node_index_of(x);
        assert(0 <= i < self.spec_nodes().len() && self.spec_nodes()[i].id.0 == x);
        assert forall|k: int|
            0 <= k < self.spec_nodes().len() && (#[trigger] self.spec_nodes()[k]).id.0 == x
                implies k == i by {
            lemma_ascending_unique(*self, k, i);
        }
    }

    /// Two graphs whose slots carry the same ids resolve every id to the
    /// same slot.
    pub(crate) proof fn lemma_lookup_same(a: NodeGraph, b: NodeGraph, x: usize)
        requires
            a.ids_ascending(),
            b.ids_ascending(),
            a.contains_id(x),
            a.spec_nodes().len() == b.spec_nodes().len(),
            forall|k: int|
                0 <= k < a.spec_nodes().len() ==> (#[trigger] a.spec_nodes()[k]).id == (
                #[trigger] b.spec_nodes()[k]).id,
        ensures
            b.contains_id(x),
            a.node_index_of(x) == b.node_index_of(x),
    {
        a.lemma_lookup_props(x);
        let i = a.node_index_of(x);
        assert(b.spec_nodes()[i].id.0 == x);
        assert(b.spec_ids()[i] == x);
        assert(b.contains_id(x));
        b.lemma_lookup_props(x);
        assert(a.spec_nodes()[b.node_index_of(x)].id.0 == x);
    }

    /// Evaluate one block. If the graph is dirty the schedule is
    /// refreshed first; then every node, in schedule order, gets its
    /// connected inputs copied from their producers, its unconnected
    /// inputs silenced, and its behavior run.
    pub fn update(&mut self)
        requires
            old(self).wf(),
        ensures
            final(self).wf(),
            !final(self).spec_dirty(),
            final(self).spec_edges() == old(self).spec_edges(),
            final(self).spec_prev_id() == old(self).spec_prev_id(),
            final(self).spec_nodes().len() == old(self).spec_nodes().len(),
            forall|k: int|
                0 <= k < final(self).spec_nodes().len()
                    ==> (#[trigger] final(self).spec_nodes()[k]).id
                    == old(self).spec_nodes()[k].id
                    && final(self).spec_nodes()[k].name == old(self).spec_nodes()[k].name,
            final(self).spec_ids() == old(self).spec_ids(),
            id_vals(final(self).spec_sorted()) == kahn_spec(
                old(self).spec_ids(),
                old(self).edge_set(),
            ),
            final(self).spec_sorted().len() == final(self).spec_nodes().len(),
            is_topo_over(
                id_vals(final(self).spec_sorted()),
                final(self).spec_ids(),
                final(self).spec_edges(),
            ),
            forall|k: int|
                0 <= k < final(self).spec_nodes().len() ==> tick_node_post(
                    *old(self),
                    *final(self),
                    k,
                ),
    {
        let ghost pre = *self;
        if self.is_dirty {
            self.sort();
        } else {
            proof {
                self.lemma_ids_no_dup();
                let ord = choose|ord: Seq<usize>|
                    is_topo_over(ord, self.spec_ids(), self.spec_edges());
                lemma_kahn_complete(self.spec_ids(), self.spec_edges(), ord);
                lemma_kahn_sound(self.spec_ids(), self.spec_edges());
                assert(id_vals(self.spec_sorted()).len() == self.spec_sorted().len());
            }
        }
        let ghost mid = *self;
        proof {
            assert(mid.spec_nodes() == pre.spec_nodes());
            assert(mid.spec_sorted().len() == mid.spec_nodes().len());
            assert(is_topo_over(id_vals(mid.spec_sorted()), mid.spec_ids(), mid.spec_edges()));
        }
        let n_sorted = self.sorted.len();
        let mut s: usize = 0;
        while s < n_sorted
            invariant
                pre == *old(self),
                mid.wf(),
                !mid.spec_dirty(),
                mid.spec_sorted().len() == mid.spec_nodes().len(),
                is_topo_over(id_vals(mid.spec_sorted()), mid.spec_ids(), mid.spec_edges()),
                id_vals(mid.spec_sorted()) == kahn_spec(mid.spec_ids(), mid.edge_set()),
                mid.spec_nodes() == pre.spec_nodes(),
                mid.spec_edges() == pre.spec_edges(),
                mid.spec_prev_id() == pre.spec_prev_id(),
                id_vals(mid.spec_sorted()) == kahn_spec(pre.spec_ids(), pre.edge_set()),
                self.wf(),
                !self.spec_dirty(),
                self.spec_sorted() == mid.spec_sorted(),
                self.spec_edges() == mid.spec_edges(),
                self.spec_prev_id() == mid.spec_prev_id(),
                self.spec_nodes().len() == mid.spec_nodes().len(),
                forall|k: int|
                    0 <= k < self.spec_nodes().len() ==> (#[trigger] self.spec_nodes()[k]).id
                        == mid.spec_nodes()[k].id && self.spec_nodes()[k].name
                        == mid.spec_nodes()[k].name,
                self.spec_ids() == mid.spec_ids(),
                s <= n_sorted,
                n_sorted == mid.spec_sorted().len(),
                forall|t: int|
                    0 <= t < s ==> tick_id_done(mid, *self, (#[trigger] mid.spec_sorted()[t]).0),
                forall|t: int|
                    s <= t < n_sorted ==> self.spec_node((#[trigger] mid.spec_sorted()[t]).0)
                        == mid.spec_node(mid.spec_sorted()[t].0),
            decreases n_sorted - s,
        {
            let id = self.sorted[s];
            proof {
                assert(id_vals(mid.spec_sorted())[s as int] == id.0);
                assert(id_vals(mid.spec_sorted()).contains(id.0));
                assert(mid.spec_ids().contains(id.0));
                assert(self.spec_ids().contains(id.0));
            }
            let idx: usize;
            match self.find_index(id) {
                None => {
                    proof {
                        assert(false);
                    }
                    return ;
                },
                Some(i2) => {
                    idx = i2;
                },
            }
            let ghost cur = *self;
            proof {
                cur.lemma_lookup_props(id.0);
            }
            // refresh the node's inputs in place: take it out of the
            // arena, then copy each connected producer's block, or
            // silence, into its existing buffers; nothing is allocated
            let mut node = self.nodes.remove(idx);
            proof {
                lemma_seq_remove_properties(cur.spec_nodes(), idx as int);
                assert(node == cur.spec_nodes()[idx as int]);
                assert(node.wf());
                assert forall|i2: int, j2: int|
                    0 <= i2 < j2 < self.spec_nodes().len() implies (#[trigger] self.spec_nodes()[i2]).id.0
                    < (#[trigger] self.spec_nodes()[j2]).id.0 by {
                    let a2 = if i2 < idx as int { i2 } else { i2 + 1 };
                    let b2 = if j2 < idx as int { j2 } else { j2 + 1 };
                    assert(self.spec_nodes()[i2] == cur.spec_nodes()[a2]);
                    assert(self.spec_nodes()[j2] == cur.spec_nodes()[b2]);
                }
                assert(self.ids_ascending());
            }
            let num_ins = node.ins.len();
            let mut i: usize = 0;
            while i < num_ins
                invariant
                    cur.wf(),
                    idx < cur.spec_nodes().len(),
                    cur.spec_nodes()[idx as int].id == id,
                    cur.node_index_of(id.0) == idx as int,
                    cur.contains_id(id.0),
                    mid.spec_edges() == cur.spec_edges(),
                    is_topo_over(id_vals(mid.spec_sorted()), mid.spec_ids(), mid.spec_edges()),
                    s < n_sorted,
                    n_sorted == mid.spec_sorted().len(),
                    id_vals(mid.spec_sorted())[s as int] == id.0,
                    self.spec_nodes() == cur.spec_nodes().remove(idx as int),
                    self.spec_edges() == cur.spec_edges(),
                    self.ids_ascending(),
                    node.id == id,
                    node.name == cur.spec_nodes()[idx as int].name,
                    node.behavior == cur.spec_nodes()[idx as int].behavior,
                    node.outs == cur.spec_nodes()[idx as int].outs,
                    node.ins@.len() == num_ins,
                    num_ins == cur.spec_nodes()[idx as int].ins@.len(),
                    forall|i2: int|
                        0 <= i2 < num_ins ==> (#[trigger] node.ins@[i2]).buffer@.len()
                            == BUFFER_SIZE,
                    i <= num_ins,
                    forall|e: NodeEdge|
                        #[trigger] cur.spec_edges().contains(e) && e.to == id && (
                        e.to_in_idx as int) < i ==> node.ins@[e.to_in_idx as int].buffer@
                            == cur.spec_node(e.from.0).outs@[e.from_out_idx as int].buffer@,
                    forall|i2: int|
                        0 <= i2 < i && (forall|e: NodeEdge|
                            #[trigger] cur.spec_edges().contains(e) ==> !(e.to == id
                                && e.to_in_idx as int == i2)) ==> is_silent_block(
                            node.ins@[i2].buffer@,
                        ),
                decreases num_ins - i,
            {
                let mut found: bool = false;
                let mut found_p: usize = 0;
                let mut found_o: usize = 0;
                let ghost mut g_e: NodeEdge = arbitrary();
                let ne = self.edges.len();
                let mut k: usize = 0;
                while k < ne
                    invariant
                        cur.wf(),
                        idx < cur.spec_nodes().len(),
                        cur.spec_nodes()[idx as int].id == id,
                        cur.node_index_of(id.0) == idx as int,
                        mid.spec_edges() == cur.spec_edges(),
                        is_topo_over(
                            id_vals(mid.spec_sorted()),
                            mid.spec_ids(),
                            mid.spec_edges(),
                        ),
                        s < n_sorted,
                        n_sorted == mid.spec_sorted().len(),
                        id_vals(mid.spec_sorted())[s as int] == id.0,
                        self.spec_nodes() == cur.spec_nodes().remove(idx as int),
                        self.spec_edges() == cur.spec_edges(),
                        self.ids_ascending(),
                        ne == cur.spec_edges().len(),
                        k <= ne,
                        !found ==> forall|j: int|
                            0 <= j < k ==> !((#[trigger] cur.spec_edges()[j]).to == id
                                && cur.spec_edges()[j].to_in_idx == i),
                        found ==> {
                            &&& cur.spec_edges().contains(g_e)
                            &&& g_e.to == id
                            &&& g_e.to_in_idx == i
                            &&& found_p < self.spec_nodes().len()
                            &&& self.spec_nodes()[found_p as int] == cur.spec_node(g_e.from.0)
                            &&& found_o == g_e.from_out_idx
                        },
                    decreases ne - k,
                {
                    if !found && self.edges[k].to.0 == id.0 && self.edges[k].to_in_idx == i {
                        let e2 = self.edges[k];
                        proof {
                            assert(cur.spec_edges()[k as int] == e2);
                            assert(cur.spec_edges().contains(e2));
                            assert(e2.to == id);
                            // the schedule orders every edge, so none
                            // loops back into its own node
                            assert(e2.from.0 != id.0) by {
                                if e2.from.0 == id.0 {
                                    let ord = id_vals(mid.spec_sorted());
                                    assert(mid.spec_edges().contains(e2));
                                    assert(ord[s as int] == e2.from.0 && ord[s as int]
                                        == e2.to.0);
                                    assert((s as int) < (s as int));
                                }
                            }
                            // the producer is still in the reduced arena
                            assert(cur.contains_id(e2.from.0));
                            cur.lemma_lookup_props(e2.from.0);
                            let p0 = cur.node_index_of(e2.from.0);
                            assert(p0 != idx as int) by {
                                assert(cur.spec_nodes()[p0].id.0 == e2.from.0);
                            }
                            let p1: int = if p0 < idx as int {
                                p0
                            } else {
                                p0 - 1
                            };
                            assert(self.spec_nodes()[p1] == cur.spec_nodes()[p0]);
                            assert(self.spec_ids()[p1] == e2.from.0);
                            assert(self.contains_id(e2.from.0));
                        }
                        match self.find_index(e2.from) {
                            None => {
                                proof {
                                    assert(false);
                                }
                                return ;
                            },
                            Some(p) => {
                                found = true;
                                found_p = p;
                                found_o = e2.from_out_idx;
                                proof {
                                    g_e = e2;
                                    self.lemma_lookup_agrees(cur, idx as int, e2.from.0);
                                    assert(self.spec_nodes()[p as int] == self.spec_node(
                                        e2.from.0,
                                    ));
                                }
                            },
                        }
                    }
                    k += 1;
                }
                let ghost ins0 = node.ins@;
                if found {
                    proof {
                        assert(cur.spec_node(g_e.from.0).wf());
                        assert(self.spec_nodes()[found_p as int].wf());
                        assert(found_o < self.spec_nodes()[found_p as int].outs@.len());
                    }
                    let mut port = node.ins.remove(i);
                    let mut m: usize = 0;
                    while m < BUFFER_SIZE
                        invariant
                            m <= BUFFER_SIZE,
                            port.buffer@.len() == BUFFER_SIZE,
                            found_p < self.spec_nodes().len(),
                            found_o < self.spec_nodes()[found_p as int].outs@.len(),
                            self.spec_nodes()[found_p as int].outs@[found_o as int].buffer@.len()
                                == BUFFER_SIZE,
                            forall|m2: int|
                                0 <= m2 < m ==> port.buffer@[m2] == self.spec_nodes()[found_p as int].outs@[found_o as int].buffer@[m2],
                        decreases BUFFER_SIZE - m,
                    {
                        port.buffer.set(m, self.nodes[found_p].outs[found_o].buffer[m]);
                        m += 1;
                    }
                    proof {
                        assert(port.buffer@ =~= self.spec_nodes()[found_p as int].outs@[found_o as int].buffer@);
                    }
                    let ghost port_done = port;
                    node.ins.insert(i, port);
                    proof {
                        lemma_slot_back(ins0, node.ins@, i as int, port_done);
                        assert forall|e: NodeEdge|
                            #[trigger] cur.spec_edges().contains(e) && e.to == id && (
                            e.to_in_idx as int) < i + 1 implies node.ins@[e.to_in_idx as int].buffer@
                            == cur.spec_node(e.from.0).outs@[e.from_out_idx as int].buffer@ by {
                            if e.to_in_idx as int == i as int {
                                assert(e == g_e);
                                assert(node.ins@[i as int] == port_done);
                            } else {
                                assert(node.ins@[e.to_in_idx as int] == ins0[e.to_in_idx as int]);
                            }
                        }
                        assert forall|i2: int|
                            0 <= i2 < i + 1 && (forall|e: NodeEdge|
                                #[trigger] cur.spec_edges().contains(e) ==> !(e.to == id
                                    && e.to_in_idx as int == i2)) implies is_silent_block(
                            node.ins@[i2].buffer@,
                        ) by {
                            if i2 == i as int {
                                assert(cur.spec_edges().contains(g_e) && g_e.to == id
                                    && g_e.to_in_idx as int == i2);
                            } else {
                                assert(node.ins@[i2] == ins0[i2]);
                            }
                        }
                    }
                } else {
                    proof {
                        assert forall|e: NodeEdge| #[trigger] cur.spec_edges().contains(e)
                            implies !(e.to == id && e.to_in_idx as int == i as int) by {
                            if e.to == id && e.to_in_idx as int == i as int {
                                let j = choose|j: int|
                                    0 <= j < cur.spec_edges().len() && cur.spec_edges()[j] == e;
                                assert(false);
                            }
                        }
                    }
                    let mut port = node.ins.remove(i);
                    let mut m: usize = 0;
                    while m < BUFFER_SIZE
                        invariant
                            m <= BUFFER_SIZE,
                            port.buffer@.len() == BUFFER_SIZE,
                            forall|m2: int|
                                0 <= m2 < m ==> port.buffer@[m2] == crate::sample::ZERO_BITS,
                        decreases BUFFER_SIZE - m,
                    {
                        port.buffer.set(m, crate::sample::ZERO_BITS);
                        m += 1;
                    }
                    proof {
                        assert(is_silent_block(port.buffer@));
                    }
                    let ghost port_done = port;
                    node.ins.insert(i, port);
                    proof {
                        lemma_slot_back(ins0, node.ins@, i as int, port_done);
                        assert forall|e: NodeEdge|
                            #[trigger] cur.spec_edges().contains(e) && e.to == id && (
                            e.to_in_idx as int) < i + 1 implies node.ins@[e.to_in_idx as int].buffer@
                            == cur.spec_node(e.from.0).outs@[e.from_out_idx as int].buffer@ by {
                            assert(e.to_in_idx as int != i as int);
                            assert(node.ins@[e.to_in_idx as int] == ins0[e.to_in_idx as int]);
                        }
                        assert forall|i2: int|
                            0 <= i2 < i + 1 && (forall|e: NodeEdge|
                                #[trigger] cur.spec_edges().contains(e) ==> !(e.to == id
                                    && e.to_in_idx as int == i2)) implies is_silent_block(
                            node.ins@[i2].buffer@,
                        ) by {
                            if i2 == i as int {
                                assert(node.ins@[i2] == port_done);
                            } else {
                                assert(node.ins@[i2] == ins0[i2]);
                            }
                        }
                    }
                }
                i += 1;
            }
            // run the behavior on the refreshed inputs
            node.behavior.update(&node.ins, &mut node.outs);
            self.nodes.insert(idx, node);
            proof {
                let v2 = node;
                cur.spec_nodes().remove(idx as int).insert_ensures(idx as int, v2);
                assert(self.spec_nodes() =~= cur.spec_nodes().update(idx as int, v2)) by {
                    assert forall|k: int|
                        0 <= k < self.spec_nodes().len() implies self.spec_nodes()[k]
                        == cur.spec_nodes().update(idx as int, v2)[k] by {
                        if k < idx as int {
                            assert(self.spec_nodes()[k] == cur.spec_nodes().remove(idx as int)[k]);
                        } else if k > idx as int {
                            assert(self.spec_nodes()[k] == cur.spec_nodes().remove(
                                idx as int,
                            )[k - 1]);
                        }
                    }
                }
                let post = *self;
                // ids and names are untouched, so every lookup is stable
                assert(v2.id == id);
                assert forall|k: int|
                    0 <= k < post.spec_nodes().len() implies (#[trigger] post.spec_nodes()[k]).id
                    == cur.spec_nodes()[k].id && post.spec_nodes()[k].name
                    == cur.spec_nodes()[k].name by {}
                assert(post.spec_ids() =~= cur.spec_ids());
                assert(post.ids_ascending());
                assert forall|k: int|
                    0 <= k < post.spec_nodes().len() implies (#[trigger] post.spec_nodes()[k]).wf()
                    && 1 <= post.spec_nodes()[k].id.0 <= post.spec_prev_id() by {}
                assert(post.wf()) by {
                    assert(post.edge_set() =~= cur.edge_set());
                    assert forall|e: NodeEdge| #[trigger] post.spec_edges().contains(e) implies {
                        &&& post.contains_id(e.from.0)
                        &&& post.contains_id(e.to.0)
                        &&& e.from_out_idx < post.spec_node(e.from.0).behavior.spec_num_outs()
                        &&& e.to_in_idx < post.spec_node(e.to.0).behavior.spec_num_ins()
                    } by {
                        NodeGraph::lemma_lookup_same(cur, post, e.from.0);
                        NodeGraph::lemma_lookup_same(cur, post, e.to.0);
                        assert(post.spec_node(e.from.0).behavior.spec_num_outs()
                            == cur.spec_node(e.from.0).behavior.spec_num_outs());
                        assert(post.spec_node(e.to.0).behavior.spec_num_ins() == cur.spec_node(
                            e.to.0,
                        ).behavior.spec_num_ins());
                    }
                }
                // the node just run satisfies its per-id statement
                cur.lemma_lookup_props(id.0);
                NodeGraph::lemma_lookup_same(cur, post, id.0);
                assert(post.spec_node(id.0) == v2);
                assert(tick_id_done(mid, post, id.0)) by {
                    assert(cur.spec_node(id.0) == mid.spec_node(id.0)) by {
                        assert(mid.spec_sorted()[s as int].0 == id.0);
                    }
                    assert forall|e: NodeEdge|
                        #[trigger] post.spec_edges().contains(e) && e.to.0 == id.0 implies v2.ins@[e.to_in_idx as int].buffer@
                        == post.spec_node(e.from.0).outs@[e.from_out_idx as int].buffer@ by {
                        assert(cur.spec_edges().contains(e));
                        assert(e.to == id);
                        // no self loop: the schedule orders every edge
                        assert(e.from.0 != id.0) by {
                            if e.from.0 == id.0 {
                                let ord = id_vals(mid.spec_sorted());
                                assert(mid.spec_edges().contains(e));
                                assert(ord[s as int] == e.from.0 && ord[s as int] == e.to.0);
                                assert((s as int) < (s as int));
                            }
                        }
                        NodeGraph::lemma_lookup_same(cur, post, e.from.0);
                        cur.lemma_lookup_props(e.from.0);
                        assert(cur.node_index_of(e.from.0) != idx as int);
                        assert(post.spec_node(e.from.0) == cur.spec_node(e.from.0));
                        assert(v2.ins@[e.to_in_idx as int].buffer@ == cur.spec_node(
                            e.from.0,
                        ).outs@[e.from_out_idx as int].buffer@);
                    }
                    assert forall|i2: int|
                        0 <= i2 < v2.ins@.len() && (forall|e: NodeEdge|
                            #[trigger] post.spec_edges().contains(e) ==> !(e.to.0 == id.0
                                && e.to_in_idx as int == i2)) implies is_silent_block(
                        v2.ins@[i2].buffer@,
                    ) by {
                        assert forall|e: NodeEdge| #[trigger] cur.spec_edges().contains(e)
                            implies !(e.to == id && e.to_in_idx as int == i2) by {
                            assert(post.spec_edges().contains(e));
                        }
                    }
                }
                // nodes already visited are untouched, and so are their
                // producers, which the schedule puts even earlier
                assert forall|t: int|
                    0 <= t < s + 1 implies tick_id_done(
                    mid,
                    post,
                    (#[trigger] mid.spec_sorted()[t]).0,
                ) by {
                    let vid = mid.spec_sorted()[t].0;
                    let ord = id_vals(mid.spec_sorted());
                    if t < s {
                        assert(tick_id_done(mid, cur, vid));
                        assert(vid != id.0) by {
                            assert(ord[t] == vid && ord[s as int] == id.0);
                        }
                        assert(cur.contains_id(vid)) by {
                            assert(ord[t] == vid);
                            assert(ord.contains(vid));
                            assert(mid.spec_ids().contains(vid));
                        }
                        cur.lemma_lookup_props(vid);
                        NodeGraph::lemma_lookup_same(cur, post, vid);
                        assert(cur.node_index_of(vid) != idx as int);
                        assert(post.spec_node(vid) == cur.spec_node(vid));
                        let v = post.spec_node(vid);
                        assert forall|e: NodeEdge|
                            #[trigger] post.spec_edges().contains(e) && e.to.0 == vid implies v.ins@[e.to_in_idx as int].buffer@
                            == post.spec_node(e.from.0).outs@[e.from_out_idx as int].buffer@ by {
                            assert(cur.spec_edges().contains(e));
                            // the producer sits before t in the schedule
                            assert(mid.spec_edges().contains(e));
                            assert(ord.contains(e.from.0)) by {
                                assert(mid.spec_ids().contains(e.from.0));
                            }
                            let p = choose|p: int| 0 <= p < ord.len() && ord[p] == e.from.0;
                            assert(p < t) by {
                                assert(ord[t] == e.to.0);
                            }
                            assert(e.from.0 != id.0) by {
                                if e.from.0 == id.0 {
                                    assert(ord[p] == ord[s as int]);
                                    assert(p == s as int);
                                }
                            }
                            cur.lemma_lookup_props(e.from.0);
                            NodeGraph::lemma_lookup_same(cur, post, e.from.0);
                            assert(cur.node_index_of(e.from.0) != idx as int);
                            assert(post.spec_node(e.from.0) == cur.spec_node(e.from.0));
                        }
                        assert forall|i2: int|
                            0 <= i2 < v.ins@.len() && (forall|e: NodeEdge|
                                #[trigger] post.spec_edges().contains(e) ==> !(e.to.0 == vid
                                    && e.to_in_idx as int == i2)) implies is_silent_block(
                            v.ins@[i2].buffer@,
                        ) by {
                            assert forall|e: NodeEdge| #[trigger] cur.spec_edges().contains(e)
                                implies !(e.to.0 == vid && e.to_in_idx as int == i2) by {
                                assert(post.spec_edges().contains(e));
                            }
                        }
                    } else {
                        assert(vid == id.0);
                    }
                }
                // nodes not yet visited are untouched
                assert forall|t: int|
                    s + 1 <= t < n_sorted implies post.spec_node(
                    (#[trigger] mid.spec_sorted()[t]).0,
                ) == mid.spec_node(mid.spec_sorted()[t].0) by {
                    let vid = mid.spec_sorted()[t].0;
                    let ord = id_vals(mid.spec_sorted());
                    assert(vid != id.0) by {
                        assert(ord[t] == vid && ord[s as int] == id.0);
                    }
                    assert(mid.spec_ids().contains(vid)) by {
                        assert(ord.contains(vid)) by {
                            assert(ord[t] == vid);
                        }
                    }
                    assert(cur.contains_id(vid));
                    cur.lemma_lookup_props(vid);
                    NodeGraph::lemma_lookup_same(cur, post, vid);
                    assert(cur.node_index_of(vid) != idx as int);
                    assert(post.spec_node(vid) == cur.spec_node(vid));
                    assert(cur.spec_node(vid) == mid.spec_node(vid));
                }
            }
            s += 1;
        }
        proof {
            let fin = *self;
            let ord = id_vals(mid.spec_sorted());
            assert forall|k: int|
                0 <= k < fin.spec_nodes().len() implies tick_node_post(
                *old(self),
                fin,
                k,
            ) by {
                let vid = mid.spec_nodes()[k].id.0;
                assert(mid.spec_ids()[k] == vid);
                assert(mid.spec_ids().contains(vid));
                assert(ord.contains(vid));
                let t = choose|t: int| 0 <= t < ord.len() && ord[t] == vid;
                assert(mid.spec_sorted()[t].0 == vid);
                assert(tick_id_done(mid, fin, vid));
                mid.lemma_lookup_props(vid);
                NodeGraph::lemma_lookup_same(mid, fin, vid);
                assert(mid.node_index_of(vid) == k);
                assert(fin.spec_node(vid) == fin.spec_nodes()[k]);
                assert(mid.spec_node(vid) == mid.spec_nodes()[k]);
                let v = fin.spec_nodes()[k];
                assert(v.id.0 == vid);
                assert forall|e: NodeEdge|
                    #[trigger] fin.spec_edges().contains(e) && e.to == v.id implies v.ins@[e.to_in_idx as int].buffer@
                    == fin.spec_node(e.from.0).outs@[e.from_out_idx as int].buffer@ by {
                    assert(e.to.0 == vid);
                }
                assert(old(self).spec_nodes()[k] == mid.spec_nodes()[k]);
            }
            assert(id_vals(fin.spec_sorted()) == kahn_spec(old(self).spec_ids(), old(self).edge_set()));
            assert(is_topo_over(id_vals(fin.spec_sorted()), fin.spec_ids(), fin.spec_edges())) by {
                assert(fin.spec_ids() == mid.spec_ids());
                assert(fin.spec_edges() == mid.spec_edges());
            }
        }
    }
}


// ------------------------------------------------------------------
// The captured stereo block.
// ------------------------------------------------------------------

/// Whether a behavior is the output-capture generator.
pub open spec fn is_output_behavior(b: NodeBehavior) -> bool {
    b matches NodeBehavior::InterleavingOutput(_)
}

impl NodeGraph {
    /// Borrow the captured stereo block: the capture buffer of the first
    /// output node in storage (ascending-id) order, if the graph has one.
    /// The generator reads this after each tick and pushes it into the
    /// ring without copying anything.
    pub fn capture_ref(&self) -> (r: Option<&Vec<u32>>)
        requires
            self.wf(),
        ensures
            r is None <==> (forall|k: int|
                0 <= k < self.spec_nodes().len() ==> !is_output_behavior(
                    (#[trigger] self.spec_nodes()[k]).behavior,
                )),
            r matches Some(c) ==> c@.len() == 2 * BUFFER_SIZE && (forall|k: int|
                0 <= k < self.spec_nodes().len() && is_output_behavior(
                    (#[trigger] self.spec_nodes()[k]).behavior,
                ) && (forall|j: int|
                    0 <= j < k ==> !is_output_behavior(
                        (#[trigger] self.spec_nodes()[j]).behavior,
                    )) ==> c@ == self.spec_nodes()[k].behavior->InterleavingOutput_0.capture@),
    {
        let n = self.nodes.len();
        let mut k: usize = 0;
        while k < n
            invariant
                k <= n,
                n == self.spec_nodes().len(),
                self.wf(),
                forall|j: int|
                    0 <= j < k ==> !is_output_behavior((#[trigger] self.spec_nodes()[j]).behavior),
            decreases n - k,
        {
            match &self.nodes[k].behavior {
                NodeBehavior::InterleavingOutput(b) => {
                    proof {
                        assert(self.spec_nodes()[k as int].wf());
                        assert(is_output_behavior(self.spec_nodes()[k as int].behavior));
                        assert forall|k2: int|
                            0 <= k2 < self.spec_nodes().len() && is_output_behavior(
                                (#[trigger] self.spec_nodes()[k2]).behavior,
                            ) && (forall|j: int|
                                0 <= j < k2 ==> !is_output_behavior(
                                    (#[trigger] self.spec_nodes()[j]).behavior,
                                )) implies b.capture@
                            == self.spec_nodes()[k2].behavior->InterleavingOutput_0.capture@ by {
                            if k2 < k as int {
                                assert(!is_output_behavior(self.spec_nodes()[k2].behavior));
                            }
                            if k2 > k as int {
                                assert(is_output_behavior(self.spec_nodes()[k as int].behavior));
                            }
                        }
                    }
                    return Some(&b.capture);
                },
                _ => {},
            }
            k += 1;
        }
        None
    }

    /// The interleaved stereo block the graph produced: the capture
    /// buffer of its first output node in storage (ascending-id) order,
    /// or one block of silence when the graph has no output node. This is
    /// the only data the generator ever hands to the ring.
    pub fn output_block(&self) -> (r: Vec<u32>)
        requires
            self.wf(),
        ensures
            r@.len() == 2 * BUFFER_SIZE,
            (forall|k: int|
                0 <= k < self.spec_nodes().len() ==> !is_output_behavior(
                    (#[trigger] self.spec_nodes()[k]).behavior,
                )) ==> forall|i: int| 0 <= i < r@.len() ==> r@[i] == crate::sample::ZERO_BITS,
            forall|k: int|
                0 <= k < self.spec_nodes().len() && is_output_behavior(
                    (#[trigger] self.spec_nodes()[k]).behavior,
                ) && (forall|j: int|
                    0 <= j < k ==> !is_output_behavior(
                        (#[trigger] self.spec_nodes()[j]).behavior,
                    )) ==> r@ == self.spec_nodes()[k].behavior->InterleavingOutput_0.capture@,
    {
        let n = self.nodes.len();
        let mut k: usize = 0;
        while k < n
            invariant
                k <= n,
                n == self.spec_nodes().len(),
                self.wf(),
                forall|j: int|
                    0 <= j < k ==> !is_output_behavior((#[trigger] self.spec_nodes()[j]).behavior),
            decreases n - k,
        {
            match &self.nodes[k].behavior {
                NodeBehavior::InterleavingOutput(b) => {
                    let r = crate::node::copy_samples(&b.capture);
                    proof {
                        assert(self.spec_nodes()[k as int].wf());
                        assert(is_output_behavior(self.spec_nodes()[k as int].behavior));
                        assert forall|k2: int|
                            0 <= k2 < self.spec_nodes().len() && is_output_behavior(
                                (#[trigger] self.spec_nodes()[k2]).behavior,
                            ) && (forall|j: int|
                                0 <= j < k2 ==> !is_output_behavior(
                                    (#[trigger] self.spec_nodes()[j]).behavior,
                                )) implies r@
                            == self.spec_nodes()[k2].behavior->InterleavingOutput_0.capture@ by {
                            if k2 < k as int {
                                assert(!is_output_behavior(self.spec_nodes()[k2].behavior));
                            }
                            if k2 > k as int {
                                assert(is_output_behavior(self.spec_nodes()[k as int].behavior));
                            }
                        }
                    }
                    return r;
                },
                _ => {},
            }
            k += 1;
        }
        crate::node::zero_samples(2 * BUFFER_SIZE)
    }
}


impl NodeGraph {
    /// How many nodes are live.
    pub fn node_count(&self) -> (n: usize)
        ensures
            n == self.spec_nodes().len(),
    {
        self.nodes.len()
    }

    /// Read a node by storage slot.
    pub fn node_ref(&self, k: usize) -> (r: &Node)
        requires
            k < self.spec_nodes().len(),
        ensures
            *r == self.spec_nodes()[k as int],
    {
        &self.nodes[k]
    }

    /// The value of the most recently assigned id.
    pub fn prev_id(&self) -> (r: usize)
        ensures
            r == self.spec_prev_id(),
    {
        self.prev_node_id_val
    }

    /// Whether a structural edit has happened since the last sort.
    pub fn dirty(&self) -> (r: bool)
        ensures
            r == self.spec_dirty(),
    {
        self.is_dirty
    }

    /// How many edges are live.
    pub fn edge_count(&self) -> (n: usize)
        ensures
            n == self.spec_edges().len(),
    {
        self.edges.len()
    }

    /// Read an edge by storage slot.
    pub fn edge_ref(&self, k: usize) -> (r: &NodeEdge)
        requires
            k < self.spec_edges().len(),
        ensures
            *r == self.spec_edges()[k as int],
    {
        &self.edges[k]
    }

    /// Read the cached schedule by position.
    pub(crate) fn sorted_at(&self, t: usize) -> (r: NodeId)
        requires
            t < self.spec_sorted().len(),
        ensures
            r == self.spec_sorted()[t as int],
    {
        self.sorted[t]
    }

    /// The cached schedule's length.
    pub(crate) fn sorted_len(&self) -> (n: usize)
        ensures
            n == self.spec_sorted().len(),
    {
        self.sorted.len()
    }
}

} // verus!
