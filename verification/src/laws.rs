//! Laws that hold across the graph's operations: each is stated over the
//! same state relations the operations' own contracts establish, so a
//! caller chains an operation's postcondition straight into the law.

use vstd::prelude::*;
use vstd::seq_lib::*;
use crate::graph::{
    NodeGraph, NodeEdge, GraphError, connect_outcome, edges_without, edge_incident,
    lemma_seq_remove_properties, kahn_spec, tick_node_post,
};
use crate::node::{NodeId, out_views};
use crate::behavior::{NodeBehavior, SinNode, waveform_block, behavior_post, behavior_like};
use crate::sample::{SAMPLE_RATE_BITS, sine_at_phase};
use crate::node::{in_views, is_silent_block};
use crate::BUFFER_SIZE;
use crate::dot::{dot_text, names_seq};

verus! {

/// Dropping the edges of an id that no edge touches drops nothing.
proof fn lemma_edges_without_absent(edges: Seq<NodeEdge>, id: usize)
    requires
        forall|k: int| 0 <= k < edges.len() ==> !edge_incident(#[trigger] edges[k], id),
    ensures
        edges_without(edges, id) == edges,
    decreases edges.len(),
{
    if edges.len() == 0 {
        assert(edges_without(edges, id) =~= edges);
    } else {
        let prefix = edges.drop_last();
        lemma_edges_without_absent(prefix, id);
        assert(!edge_incident(edges.last(), id)) by {
            assert(edges[edges.len() - 1] == edges.last());
        }
        assert(edges_without(edges, id) =~= edges) by {
            assert(edges_without(edges, id) == prefix.push(edges.last()));
            assert(prefix.push(edges.last()) =~= edges);
        }
    }
}

/// Adding a node and then removing it leaves the node row and the edge
/// row exactly as they were; only the consumed id is gone for good.
///
/// `g1` is any state related to `g` as `add_node`'s contract relates its
/// final state to its initial one, and `g2` is related to `g1` as
/// `remove_node`'s contract on the fresh id relates its states.
pub proof fn lemma_add_remove_round_trip(g: NodeGraph, g1: NodeGraph, g2: NodeGraph)
    requires
        g.wf(),
        g1.wf(),
        g1.spec_nodes().len() == g.spec_nodes().len() + 1,
        forall|k: int|
            0 <= k < g.spec_nodes().len() ==> #[trigger] g1.spec_nodes()[k] == g.spec_nodes()[k],
        g1.spec_nodes().last().id.0 == g.spec_prev_id() + 1,
        g1.spec_edges() == g.spec_edges(),
        g2.spec_nodes() == g1.spec_nodes().remove(
            g1.node_index_of((g.spec_prev_id() + 1) as usize),
        ),
        g2.spec_edges() == edges_without(g1.spec_edges(), (g.spec_prev_id() + 1) as usize),
    ensures
        g2.spec_nodes() == g.spec_nodes(),
        g2.spec_edges() == g.spec_edges(),
{
    let fresh = (g.spec_prev_id() + 1) as usize;
    assert(g1.spec_nodes().last().id.0 == fresh);
    assert(g1.spec_ids()[g1.spec_nodes().len() - 1] == fresh);
    assert(g1.contains_id(fresh));
    g1.lemma_lookup_props(fresh);
    assert(g1.node_index_of(fresh) == g1.spec_nodes().len() - 1);
    assert(g2.spec_nodes() =~= g.spec_nodes()) by {
        lemma_seq_remove_properties(g1.spec_nodes(), g1.spec_nodes().len() - 1);
        assert(g1.spec_nodes().remove(g1.spec_nodes().len() - 1) =~= g1.spec_nodes().drop_last());
        assert(g1.spec_nodes().drop_last() =~= g.spec_nodes());
    }
    assert forall|k: int| 0 <= k < g.spec_edges().len() implies !edge_incident(
        #[trigger] g.spec_edges()[k],
        fresh,
    ) by {
        let e = g.spec_edges()[k];
        assert(g.spec_edges().contains(e));
        assert(g.contains_id(e.from.0) && g.contains_id(e.to.0));
        assert forall|x: usize| g.contains_id(x) implies x < fresh by {
            let j = choose|j: int| 0 <= j < g.spec_ids().len() && g.spec_ids()[j] == x;
            assert(g.spec_nodes()[j].id.0 <= g.spec_prev_id());
        }
    }
    lemma_edges_without_absent(g.spec_edges(), fresh);
}

/// Connecting two ports and then disconnecting the same ports leaves the
/// graph structurally identical: the same node row and the same edge row.
pub proof fn lemma_connect_disconnect_round_trip(
    g: NodeGraph,
    g1: NodeGraph,
    g2: NodeGraph,
    from: NodeId,
    from_out_idx: usize,
    to: NodeId,
    to_in_idx: usize,
)
    requires
        g.wf(),
        g1.wf(),
        connect_outcome(g, from, from_out_idx, to, to_in_idx) is Ok,
        g1.spec_nodes() == g.spec_nodes(),
        g1.spec_edges() == g.spec_edges().push(
            NodeEdge { from, from_out_idx, to, to_in_idx },
        ),
        g2.spec_nodes() == g1.spec_nodes(),
        g2.spec_edges() == g1.spec_edges().remove(
            g1.spec_edges().index_of(NodeEdge { from, from_out_idx, to, to_in_idx }),
        ),
    ensures
        g2.spec_nodes() == g.spec_nodes(),
        g2.spec_edges() == g.spec_edges(),
{
    let e = NodeEdge { from, from_out_idx, to, to_in_idx };
    assert(!g.spec_edges().contains(e)) by {
        if g.spec_edges().contains(e) {
            assert(exists|e2: NodeEdge|
                #[trigger] g.spec_edges().contains(e2) && e2.to == to && e2.to_in_idx
                    == to_in_idx);
        }
    }
    let w = g1.spec_edges().index_of(e);
    assert(g1.spec_edges().contains(e)) by {
        assert(g1.spec_edges()[g.spec_edges().len() as int] == e);
    }
    assert(0 <= w < g1.spec_edges().len() && g1.spec_edges()[w] == e);
    assert(w == g.spec_edges().len() as int) by {
        if w < g.spec_edges().len() {
            assert(g.spec_edges()[w] == e);
            assert(g.spec_edges().contains(e));
        }
    }
    assert(g2.spec_edges() =~= g.spec_edges()) by {
        lemma_seq_remove_properties(g1.spec_edges(), w);
    }
}

/// Once an input port is fed, connecting anything else into that port is
/// refused as already connected, whichever producer and output port try.
/// A producer that is itself unknown, or an out-of-range output port, is
/// refused earlier, so those are assumed sound here.
pub proof fn lemma_connect_occupied(
    g: NodeGraph,
    g1: NodeGraph,
    from: NodeId,
    from_out_idx: usize,
    to: NodeId,
    to_in_idx: usize,
    from2: NodeId,
    from_out_idx2: usize,
)
    requires
        g.wf(),
        g1.wf(),
        connect_outcome(g, from, from_out_idx, to, to_in_idx) is Ok,
        g1.spec_nodes() == g.spec_nodes(),
        g1.spec_edges() == g.spec_edges().push(
            NodeEdge { from, from_out_idx, to, to_in_idx },
        ),
        g1.contains_id(from2.0),
        from_out_idx2 < g1.spec_node(from2.0).behavior.spec_num_outs(),
    ensures
        connect_outcome(g1, from2, from_out_idx2, to, to_in_idx) == Err::<(), GraphError>(
            GraphError::InputAlreadyConnected,
        ),
{
    let e = NodeEdge { from, from_out_idx, to, to_in_idx };
    assert(g.contains_id(to.0));
    NodeGraph::lemma_lookup_same(g, g1, to.0);
    assert(g1.spec_node(to.0) == g.spec_node(to.0));
    assert(g1.contains_id(to.0));
    assert(to_in_idx < g1.spec_node(to.0).behavior.spec_num_ins());
    assert(g1.spec_edges().contains(e)) by {
        assert(g1.spec_edges()[g.spec_edges().len() as int] == e);
    }
    assert(exists|e2: NodeEdge|
        #[trigger] g1.spec_edges().contains(e2) && e2.to == to && e2.to_in_idx == to_in_idx);
}

/// Port indices are zero-based: connecting into the input whose index
/// equals the declared input count is out of range, and the same for an
/// output index equal to the declared output count.
pub proof fn lemma_connect_port_boundary(
    g: NodeGraph,
    from: NodeId,
    from_out_idx: usize,
    to: NodeId,
    to_in_idx: usize,
)
    requires
        g.wf(),
        g.contains_id(from.0),
        g.contains_id(to.0),
        from_out_idx == g.spec_node(from.0).behavior.spec_num_outs() || to_in_idx == g.spec_node(
            to.0,
        ).behavior.spec_num_ins(),
    ensures
        connect_outcome(g, from, from_out_idx, to, to_in_idx) == Err::<(), GraphError>(
            GraphError::PortOutOfRange,
        ),
{
}

/// Two strictly ascending rows with the same members are the same row.
proof fn lemma_ascending_set_equal(a: Seq<usize>, b: Seq<usize>)
    requires
        forall|i: int, j: int| 0 <= i < j < a.len() ==> a[i] < a[j],
        forall|i: int, j: int| 0 <= i < j < b.len() ==> b[i] < b[j],
        forall|x: usize| a.contains(x) <==> b.contains(x),
    ensures
        a == b,
    decreases a.len(),
{
    assert(a.no_duplicates());
    assert(b.no_duplicates());
    a.unique_seq_to_set();
    b.unique_seq_to_set();
    assert(a.to_set() =~= b.to_set());
    assert(a.len() == b.len());
    if a.len() == 0 {
        assert(a =~= b);
    } else {
        let la = a.last();
        let lb = b.last();
        assert(a.contains(la)) by {
            assert(a[a.len() - 1] == la);
        }
        assert(b.contains(lb)) by {
            assert(b[b.len() - 1] == lb);
        }
        assert(la <= lb) by {
            assert(b.contains(la));
            let j = choose|j: int| 0 <= j < b.len() && b[j] == la;
            if j < b.len() - 1 {
                assert(b[j] < b[b.len() - 1]);
            }
        }
        assert(lb <= la) by {
            assert(a.contains(lb));
            let j = choose|j: int| 0 <= j < a.len() && a[j] == lb;
            if j < a.len() - 1 {
                assert(a[j] < a[a.len() - 1]);
            }
        }
        assert(la == lb);
        let a2 = a.drop_last();
        let b2 = b.drop_last();
        assert forall|x: usize| a2.contains(x) <==> b2.contains(x) by {
            if a2.contains(x) {
                let j = choose|j: int| 0 <= j < a2.len() && a2[j] == x;
                assert(a[j] == x);
                assert(x < la);
                assert(b.contains(x));
                let j2 = choose|j2: int| 0 <= j2 < b.len() && b[j2] == x;
                assert(j2 != b.len() - 1);
                assert(b2[j2] == x);
            }
            if b2.contains(x) {
                let j = choose|j: int| 0 <= j < b2.len() && b2[j] == x;
                assert(b[j] == x);
                assert(x < lb);
                assert(a.contains(x));
                let j2 = choose|j2: int| 0 <= j2 < a.len() && a[j2] == x;
                assert(j2 != a.len() - 1);
                assert(a2[j2] == x);
            }
        }
        lemma_ascending_set_equal(a2, b2);
        assert(a =~= b) by {
            assert forall|k: int| 0 <= k < a.len() implies a[k] == b[k] by {
                if k < a.len() - 1 {
                    assert(a2[k] == b2[k]);
                }
            }
        }
    }
}

/// The snapshot is a function of the topology alone: two graphs with the
/// same node set (by id and name) and the same edge set print the same
/// text, whatever order their nodes and edges were added in.
pub proof fn lemma_snapshot_deterministic(g1: NodeGraph, g2: NodeGraph)
    requires
        g1.wf(),
        g2.wf(),
        forall|x: usize| g1.contains_id(x) <==> g2.contains_id(x),
        forall|x: usize|
            g1.contains_id(x) ==> g1.spec_node(x).name@ == g2.spec_node(x).name@,
        g1.edge_set() == g2.edge_set(),
    ensures
        dot_text(
            kahn_spec(g1.spec_ids(), g1.edge_set()),
            g1.spec_ids(),
            names_seq(g1),
            g1.edge_set(),
        ) == dot_text(
            kahn_spec(g2.spec_ids(), g2.edge_set()),
            g2.spec_ids(),
            names_seq(g2),
            g2.edge_set(),
        ),
{
    assert(g1.spec_ids() == g2.spec_ids()) by {
        assert forall|i: int, j: int| 0 <= i < j < g1.spec_ids().len() implies g1.spec_ids()[i]
            < g1.spec_ids()[j] by {
            assert(g1.spec_nodes()[i].id.0 < g1.spec_nodes()[j].id.0);
        }
        assert forall|i: int, j: int| 0 <= i < j < g2.spec_ids().len() implies g2.spec_ids()[i]
            < g2.spec_ids()[j] by {
            assert(g2.spec_nodes()[i].id.0 < g2.spec_nodes()[j].id.0);
        }
        assert forall|x: usize|
            g1.spec_ids().contains(x) <==> g2.spec_ids().contains(x) by {
            assert(g1.contains_id(x) <==> g2.contains_id(x));
        }
        lemma_ascending_set_equal(g1.spec_ids(), g2.spec_ids());
    }
    assert(names_seq(g1) =~= names_seq(g2)) by {
        assert forall|k: int| 0 <= k < g1.spec_nodes().len() implies names_seq(g1)[k]
            == names_seq(g2)[k] by {
            let x = g1.spec_ids()[k];
            assert(g1.contains_id(x)) by {
                assert(g1.spec_ids()[k] == x);
            }
            g1.lemma_lookup_props(x);
            g2.lemma_lookup_props(x);
            assert(g1.spec_nodes()[k].id.0 == x);
            assert(g2.spec_nodes()[k].id.0 == x) by {
                assert(g2.spec_ids()[k] == x);
            }
            assert(g1.node_index_of(x) == k);
            assert(g2.node_index_of(x) == k);
            assert(g1.spec_node(x).name@ == g2.spec_node(x).name@);
            assert(names_seq(g1)[k] == g1.spec_nodes()[k].name@);
        }
    }
}

/// A tick of a graph whose behaviors are all waveform tables is
/// independent of any earlier tick: every output block is the table read
/// cyclically, a function of the table alone, and the behavior state is
/// untouched. Oscillators are the stated exception: their block depends
/// only on the accumulated phase and the frequency input, as
/// `behavior_post` spells out.
pub proof fn lemma_constant_behaviors_tick(pre: NodeGraph, post: NodeGraph, k: int)
    requires
        0 <= k < pre.spec_nodes().len(),
        post.spec_nodes().len() == pre.spec_nodes().len(),
        crate::graph::tick_node_post(pre, post, k),
        pre.spec_nodes()[k].behavior matches NodeBehavior::Waveform(_),
    ensures
        post.spec_nodes()[k].behavior == pre.spec_nodes()[k].behavior,
        out_views(post.spec_nodes()[k].outs@) == out_views(pre.spec_nodes()[k].outs@).update(
            0,
            waveform_block(pre.spec_nodes()[k].behavior->Waveform_0.waveform@),
        ),
{
}

/// An oscillator whose frequency input lost its edge freezes from the
/// next block on: the tick feeds the unconnected port silence, the
/// accumulator stays where it was, and the whole output block is DC at
/// that phase. Holds for any accumulator inside its working range
/// `[0, 44100)`; the range is where the engine keeps it, since every
/// phase step ends in a reduction by the sample rate.
pub proof fn lemma_silent_oscillator_dc(pre: NodeGraph, post: NodeGraph, k: int)
    requires
        0 <= k < pre.spec_nodes().len(),
        post.spec_nodes().len() == pre.spec_nodes().len(),
        crate::graph::tick_node_post(pre, post, k),
        post.spec_nodes()[k].wf(),
        pre.spec_nodes()[k].behavior matches NodeBehavior::Sin(b) && b.clock < SAMPLE_RATE_BITS,
        forall|e: NodeEdge|
            #[trigger] post.spec_edges().contains(e) ==> !(e.to == post.spec_nodes()[k].id
                && e.to_in_idx == 0),
    ensures
        post.spec_nodes()[k].behavior == pre.spec_nodes()[k].behavior,
        forall|m: int|
            0 <= m < BUFFER_SIZE ==> post.spec_nodes()[k].outs@[0].buffer@[m] == sine_at_phase(
                pre.spec_nodes()[k].behavior->Sin_0.clock,
            ),
{
    let v0 = pre.spec_nodes()[k];
    let v = post.spec_nodes()[k];
    let b = v0.behavior->Sin_0;
    assert(behavior_post(
        v0.behavior,
        v.behavior,
        in_views(v.ins@),
        crate::node::out_views(v0.outs@),
        crate::node::out_views(v.outs@),
    ));
    // the behavior step forces the post variant, so the port counts are known
    assert(v.behavior matches NodeBehavior::Sin(_));
    assert(v.ins@.len() == 1);
    assert(v.outs@.len() == 1);
    // the unconnected frequency port read silence during the tick
    assert(is_silent_block(v.ins@[0].buffer@)) by {
        assert(forall|e: NodeEdge|
            #[trigger] post.spec_edges().contains(e) ==> !(e.to == v.id && e.to_in_idx as int
                == 0));
    }
    assert(in_views(v.ins@)[0] == v.ins@[0].buffer@);
    // the freeze clause of the behavior step
    assert(v.behavior == NodeBehavior::Sin(SinNode { clock: b.clock }));
    assert forall|m: int| 0 <= m < BUFFER_SIZE implies v.outs@[0].buffer@[m] == sine_at_phase(
        b.clock,
    ) by {
        assert(crate::node::out_views(v.outs@)[0] == v.outs@[0].buffer@);
    }
}

/// What one tick leaves behind, as `update`'s contract states it: the
/// edges survive, every slot keeps its id, and every node steps by
/// `tick_node_post`.
pub open spec fn tick_rel(pre: NodeGraph, post: NodeGraph) -> bool {
    &&& post.spec_edges() == pre.spec_edges()
    &&& post.spec_nodes().len() == pre.spec_nodes().len()
    &&& forall|k: int|
        0 <= k < pre.spec_nodes().len() ==> (#[trigger] post.spec_nodes()[k]).id
            == pre.spec_nodes()[k].id
    &&& forall|k: int| 0 <= k < pre.spec_nodes().len() ==> tick_node_post(pre, post, k)
}

/// Whether two graphs hold the same node under an id: equal input and
/// output blocks, and the same behavior with the same state.
pub open spec fn nodes_agree(a: NodeGraph, b: NodeGraph, vid: usize) -> bool {
    let v1 = a.spec_node(vid);
    let v2 = b.spec_node(vid);
    &&& in_views(v1.ins@) == in_views(v2.ins@)
    &&& out_views(v1.outs@) == out_views(v2.outs@)
    &&& behavior_like(v1.behavior, v2.behavior)
}

/// The nodes at the first `t` positions of a topological order agree
/// after any two ticks of the same graph.
proof fn lemma_tick_agree_upto(
    pre: NodeGraph,
    post1: NodeGraph,
    post2: NodeGraph,
    ord: Seq<usize>,
    t: int,
)
    requires
        pre.wf(),
        post1.wf(),
        post2.wf(),
        tick_rel(pre, post1),
        tick_rel(pre, post2),
        crate::graph::is_topo_over(ord, pre.spec_ids(), pre.spec_edges()),
        0 <= t <= ord.len(),
    ensures
        forall|t2: int| 0 <= t2 < t ==> nodes_agree(post1, post2, #[trigger] ord[t2]),
    decreases t,
{
    if t > 0 {
        lemma_tick_agree_upto(pre, post1, post2, ord, t - 1);
        let vid = ord[t - 1];
        assert(ord.contains(vid));
        assert(pre.contains_id(vid));
        pre.lemma_lookup_props(vid);
        let k = pre.node_index_of(vid);
        NodeGraph::lemma_lookup_same(pre, post1, vid);
        NodeGraph::lemma_lookup_same(pre, post2, vid);
        let v0 = pre.spec_nodes()[k];
        let v1 = post1.spec_nodes()[k];
        let v2 = post2.spec_nodes()[k];
        assert(post1.spec_node(vid) == v1 && post2.spec_node(vid) == v2);
        assert(v0.wf() && v1.wf() && v2.wf());
        assert(tick_node_post(pre, post1, k) && tick_node_post(pre, post2, k));
        assert(v1.id == v0.id && v2.id == v0.id);
        assert(v0.id.0 == vid);
        // the behavior step keeps the declared input count, so the two
        // runs have port rows of one length
        assert(v1.behavior.spec_num_ins() == v0.behavior.spec_num_ins()
            && v2.behavior.spec_num_ins() == v0.behavior.spec_num_ins()) by {
            match v0.behavior {
                NodeBehavior::Sum(_) => {},
                NodeBehavior::Product(_) => {},
                NodeBehavior::Waveform(_) => {},
                NodeBehavior::Sin(_) => {},
                NodeBehavior::InterleavingOutput(_) => {},
            }
        }
        assert(v1.ins@.len() == v2.ins@.len());
        // each port read the same block: its producer's (already agreed)
        // output if an edge feeds it, silence otherwise
        assert forall|i: int| 0 <= i < v1.ins@.len() implies v1.ins@[i].buffer@
            == v2.ins@[i].buffer@ by {
            if exists|e: NodeEdge|
                #[trigger] pre.spec_edges().contains(e) && e.to.0 == vid && e.to_in_idx as int
                    == i {
                let e = choose|e: NodeEdge|
                    #[trigger] pre.spec_edges().contains(e) && e.to.0 == vid
                        && e.to_in_idx as int == i;
                assert(post1.spec_edges().contains(e) && post2.spec_edges().contains(e));
                assert(e.to == v1.id && e.to == v2.id);
                assert(v1.ins@[i].buffer@ == post1.spec_node(e.from.0).outs@[e.from_out_idx as int].buffer@);
                assert(v2.ins@[i].buffer@ == post2.spec_node(e.from.0).outs@[e.from_out_idx as int].buffer@);
                // the producer sits strictly earlier in the order
                assert(pre.contains_id(e.from.0));
                assert(ord.contains(e.from.0));
                let p = choose|p: int| 0 <= p < ord.len() && ord[p] == e.from.0;
                assert(p < t - 1) by {
                    assert(ord[t - 1] == e.to.0);
                }
                assert(nodes_agree(post1, post2, ord[p]));
                assert(out_views(post1.spec_node(e.from.0).outs@) == out_views(
                    post2.spec_node(e.from.0).outs@,
                ));
                // the port index is inside the producer's output row
                pre.lemma_lookup_props(e.from.0);
                NodeGraph::lemma_lookup_same(pre, post1, e.from.0);
                NodeGraph::lemma_lookup_same(pre, post2, e.from.0);
                assert(e.from_out_idx < post1.spec_node(e.from.0).behavior.spec_num_outs());
                assert(post1.spec_node(e.from.0).wf());
                assert(out_views(post1.spec_node(e.from.0).outs@)[e.from_out_idx as int]
                    == post1.spec_node(e.from.0).outs@[e.from_out_idx as int].buffer@);
                assert(e.from_out_idx < post2.spec_node(e.from.0).behavior.spec_num_outs());
                assert(post2.spec_node(e.from.0).wf());
                assert(out_views(post2.spec_node(e.from.0).outs@)[e.from_out_idx as int]
                    == post2.spec_node(e.from.0).outs@[e.from_out_idx as int].buffer@);
            } else {
                assert forall|e: NodeEdge| #[trigger] post1.spec_edges().contains(e)
                    implies !(e.to == v1.id && e.to_in_idx as int == i) by {
                    if e.to == v1.id && e.to_in_idx as int == i {
                        assert(pre.spec_edges().contains(e) && e.to.0 == vid
                            && e.to_in_idx as int == i);
                    }
                }
                assert forall|e: NodeEdge| #[trigger] post2.spec_edges().contains(e)
                    implies !(e.to == v2.id && e.to_in_idx as int == i) by {
                    if e.to == v2.id && e.to_in_idx as int == i {
                        assert(pre.spec_edges().contains(e) && e.to.0 == vid
                            && e.to_in_idx as int == i);
                    }
                }
                assert(is_silent_block(v1.ins@[i].buffer@));
                assert(is_silent_block(v2.ins@[i].buffer@));
                assert(v1.ins@[i].buffer@ =~= v2.ins@[i].buffer@);
            }
        }
        assert(in_views(v1.ins@) =~= in_views(v2.ins@));
        // equal inputs drive the behavior step to one outcome
        assert(behavior_post(
            v0.behavior,
            v1.behavior,
            in_views(v1.ins@),
            out_views(v0.outs@),
            out_views(v1.outs@),
        ));
        assert(behavior_post(
            v0.behavior,
            v2.behavior,
            in_views(v2.ins@),
            out_views(v0.outs@),
            out_views(v2.outs@),
        ));
        assert(out_views(v1.outs@) == out_views(v2.outs@) && behavior_like(
            v1.behavior,
            v2.behavior,
        )) by {
            match v0.behavior {
                NodeBehavior::Sum(_) => {},
                NodeBehavior::Product(_) => {},
                NodeBehavior::Waveform(_) => {},
                NodeBehavior::Sin(_) => {},
                NodeBehavior::InterleavingOutput(_) => {},
            }
        }
        assert(nodes_agree(post1, post2, vid));
        assert forall|t2: int| 0 <= t2 < t implies nodes_agree(
            post1,
            post2,
            #[trigger] ord[t2],
        ) by {
            if t2 == t - 1 {
                assert(ord[t2] == vid);
            }
        }
    }
}

/// One tick is a function of the graph before it. Any two post-states
/// standing in the tick relation to one pre-state agree on every live
/// node: the same input blocks, the same output blocks, the same
/// behavior state. So a block's samples depend only on the structure,
/// the behavior parameters and each oscillator's accumulated phase —
/// never on when or how often the graph was ticked before.
pub proof fn lemma_tick_deterministic(
    pre: NodeGraph,
    post1: NodeGraph,
    post2: NodeGraph,
    ord: Seq<usize>,
)
    requires
        pre.wf(),
        post1.wf(),
        post2.wf(),
        tick_rel(pre, post1),
        tick_rel(pre, post2),
        crate::graph::is_topo_over(ord, pre.spec_ids(), pre.spec_edges()),
    ensures
        forall|x: usize| #[trigger] pre.contains_id(x) ==> nodes_agree(post1, post2, x),
{
    lemma_tick_agree_upto(pre, post1, post2, ord, ord.len() as int);
    assert forall|x: usize| #[trigger] pre.contains_id(x) implies nodes_agree(
        post1,
        post2,
        x,
    ) by {
        assert(ord.contains(x));
        let t = choose|t: int| 0 <= t < ord.len() && ord[t] == x;
        assert(nodes_agree(post1, post2, ord[t]));
    }
}

} // verus!
