//! The recipe book and the edit dispatcher: one reply per command, and
//! the graph changes exactly as the command's own operation says.

use vstd::prelude::*;
use crate::graph::{
    NodeGraph, GraphError, NodeEdge, connect_outcome, same_state, edges_without,
};
use crate::node::NodeId;
use crate::behavior::{NodeBehavior, behavior_like};
use crate::message::{ClientMessage, ServerMessage, AlrightMessage, FailureMessage};

verus! {

/// A process-wide table from a behavior type name to a template behavior;
/// adding a node by recipe hands out a fresh copy of the template. It is
/// filled during startup and read-only afterwards.
pub struct RecipeBook {
    names: Vec<String>,
    templates: Vec<NodeBehavior>,
}

impl RecipeBook {
    /// The registered names, in registration order.
    pub closed spec fn spec_names(&self) -> Seq<Seq<char>> {
        self.names@.map_values(|s: String| s@)
    }

    /// The registered templates, in registration order.
    pub closed spec fn spec_templates(&self) -> Seq<NodeBehavior> {
        self.templates@
    }

    /// One template per name, every template sound, no name registered
    /// twice.
    pub open spec fn wf(&self) -> bool {
        &&& self.spec_names().len() == self.spec_templates().len()
        &&& forall|i: int|
            0 <= i < self.spec_templates().len() ==> (#[trigger] self.spec_templates()[i]).wf()
        &&& forall|i: int, j: int|
            0 <= i < j < self.spec_names().len() ==> self.spec_names()[i] != self.spec_names()[j]
    }

    /// Whether a name is registered.
    pub open spec fn has_recipe(&self, name: Seq<char>) -> bool {
        self.spec_names().contains(name)
    }

    /// An empty book.
    pub fn new() -> (r: RecipeBook)
        ensures
            r.wf(),
            r.spec_names().len() == 0,
    {
        RecipeBook { names: Vec::new(), templates: Vec::new() }
    }
}

/// Register a recipe under a name. Returns false, registering nothing,
/// when the name is already taken.
pub fn register_node_recipe(book: &mut RecipeBook, name: &str, template: NodeBehavior) -> (r: bool)
    requires
        old(book).wf(),
        template.wf(),
    ensures
        final(book).wf(),
        r <==> !old(book).has_recipe(name@),
        !r ==> *final(book) == *old(book),
        r ==> {
            &&& final(book).spec_names() == old(book).spec_names().push(name@)
            &&& final(book).spec_templates() == old(book).spec_templates().push(template)
        },
{
    let name_s = name.to_owned();
    let n = book.names.len();
    let mut i: usize = 0;
    while i < n
        invariant
            i <= n,
            n == book.spec_names().len(),
            book.wf(),
            *book == *old(book),
            name_s@ == name@,
            forall|j: int| 0 <= j < i ==> (#[trigger] book.spec_names()[j]) != name@,
        decreases n - i,
    {
        if book.names[i] == name_s {
            proof {
                assert(book.spec_names()[i as int] == name@);
                assert(book.has_recipe(name@));
            }
            return false;
        }
        i += 1;
    }
    proof {
        if book.has_recipe(name@) {
            let j = choose|j: int|
                0 <= j < book.spec_names().len() && book.spec_names()[j] == name@;
            assert(false);
        }
    }
    let ghost pre = *book;
    book.names.push(name.to_owned());
    book.templates.push(template);
    proof {
        assert(book.spec_names() =~= pre.spec_names().push(name@));
        assert forall|i2: int, j2: int|
            0 <= i2 < j2 < book.spec_names().len() implies book.spec_names()[i2]
            != book.spec_names()[j2] by {
            if j2 == book.spec_names().len() - 1 {
                assert(book.spec_names()[i2] == pre.spec_names()[i2]);
            }
        }
    }
    true
}

/// Look a recipe up and hand out a fresh copy of its template. Returns
/// `None` exactly when the name is not registered.
pub fn get_node_by_recipe(book: &RecipeBook, name: &str) -> (r: Option<NodeBehavior>)
    requires
        book.wf(),
    ensures
        r is Some <==> book.has_recipe(name@),
        r matches Some(b) ==> b.wf() && forall|i: int|
            0 <= i < book.spec_names().len() && (#[trigger] book.spec_names()[i]) == name@
                ==> behavior_like(b, book.spec_templates()[i]),
{
    let name_s = name.to_owned();
    let n = book.names.len();
    let mut i: usize = 0;
    while i < n
        invariant
            i <= n,
            n == book.spec_names().len(),
            book.wf(),
            name_s@ == name@,
            forall|j: int| 0 <= j < i ==> (#[trigger] book.spec_names()[j]) != name@,
        decreases n - i,
    {
        if book.names[i] == name_s {
            let b = book.templates[i].duplicate();
            proof {
                assert(book.spec_names()[i as int] == name@);
                assert(book.has_recipe(name@));
                assert forall|i2: int|
                    0 <= i2 < book.spec_names().len() && (#[trigger] book.spec_names()[i2])
                        == name@ implies behavior_like(b, book.spec_templates()[i2]) by {
                    if i2 != i as int {
                        assert(book.spec_names()[i2] != book.spec_names()[i as int]);
                    }
                }
            }
            return Some(b);
        }
        i += 1;
    }
    proof {
        if book.has_recipe(name@) {
            let j = choose|j: int|
                0 <= j < book.spec_names().len() && book.spec_names()[j] == name@;
            assert(false);
        }
    }
    None
}

/// The book the engine starts with: the built-in unit generators, keyed
/// by their descriptor names. Sum and product recipes come with two
/// inputs; the waveform recipe holds one silent sample.
pub fn default_recipe_book() -> (r: RecipeBook)
    ensures
        r.wf(),
        r.has_recipe("SumNode"@),
        r.has_recipe("ProductNode"@),
        r.has_recipe("WaveformNode"@),
        r.has_recipe("SinNode"@),
        r.has_recipe("InterleavingOutputNode"@),
        r.spec_names() == seq![
            "SumNode"@,
            "ProductNode"@,
            "WaveformNode"@,
            "SinNode"@,
            "InterleavingOutputNode"@,
        ],
        r.spec_templates().len() == 5,
        r.spec_templates()[0] == NodeBehavior::Sum(crate::behavior::SumNode { num_ins: 2 }),
        r.spec_templates()[1] == NodeBehavior::Product(
            crate::behavior::ProductNode { num_ins: 2 },
        ),
        r.spec_templates()[2] matches NodeBehavior::Waveform(w) && w.waveform@ == seq![
            crate::sample::ZERO_BITS,
        ],
        r.spec_templates()[3] == NodeBehavior::Sin(
            crate::behavior::SinNode { clock: crate::sample::ZERO_BITS },
        ),
        r.spec_templates()[4] matches NodeBehavior::InterleavingOutput(o) && o.capture@.len() == 2
            * crate::BUFFER_SIZE && forall|i: int|
            0 <= i < o.capture@.len() ==> o.capture@[i] == crate::sample::ZERO_BITS,
{
    proof {
        reveal_strlit("SumNode");
        reveal_strlit("ProductNode");
        reveal_strlit("WaveformNode");
        reveal_strlit("SinNode");
        reveal_strlit("InterleavingOutputNode");
    }
    let mut book = RecipeBook::new();
    let ok1 = register_node_recipe(
        &mut book,
        "SumNode",
        NodeBehavior::Sum(crate::behavior::SumNode::new(2)),
    );
    let ok2 = register_node_recipe(
        &mut book,
        "ProductNode",
        NodeBehavior::Product(crate::behavior::ProductNode::new(2)),
    );
    let wave: Vec<u32> = vec![crate::sample::ZERO_BITS];
    let ok3 = register_node_recipe(
        &mut book,
        "WaveformNode",
        NodeBehavior::Waveform(crate::behavior::WaveformNode::new(wave)),
    );
    let ok4 = register_node_recipe(
        &mut book,
        "SinNode",
        NodeBehavior::Sin(crate::behavior::SinNode::new()),
    );
    let ok5 = register_node_recipe(
        &mut book,
        "InterleavingOutputNode",
        NodeBehavior::InterleavingOutput(crate::behavior::InterleavingOutputNode::new()),
    );
    proof {
        broadcast use vstd::seq_lib::lemma_seq_contains_after_push;

        assert("SumNode"@.len() == 7);
        assert("ProductNode"@.len() == 11);
        assert("WaveformNode"@.len() == 12);
        assert("SinNode"@.len() == 7);
        assert("InterleavingOutputNode"@.len() == 22);
        assert("SumNode"@[1] == 'u');
        assert("SinNode"@[1] == 'i');
        assert(ok1 && ok2 && ok3 && ok4 && ok5);
        assert(book.has_recipe("SumNode"@));
        assert(book.has_recipe("ProductNode"@));
        assert(book.has_recipe("WaveformNode"@));
        assert(book.has_recipe("SinNode"@));
        assert(book.has_recipe("InterleavingOutputNode"@));
        assert(book.spec_names() =~= seq![
            "SumNode"@,
            "ProductNode"@,
            "WaveformNode"@,
            "SinNode"@,
            "InterleavingOutputNode"@,
        ]);
        assert(wave@ =~= seq![crate::sample::ZERO_BITS]);
    }
    book
}

/// The kind tag a graph error is reported under.
pub open spec fn error_kind_view(e: GraphError) -> Seq<char> {
    match e {
        GraphError::UnknownNode => "UnknownNode"@,
        GraphError::UnknownRecipe => "UnknownRecipe"@,
        GraphError::PortOutOfRange => "PortOutOfRange"@,
        GraphError::InputAlreadyConnected => "InputAlreadyConnected"@,
        GraphError::EdgeNotFound => "EdgeNotFound"@,
        GraphError::WouldCreateCycle => "WouldCreateCycle"@,
        GraphError::Shuttingdown => "Shuttingdown"@,
    }
}

/// The kind tag, as a string to put on the wire.
pub fn error_kind(e: GraphError) -> (r: String)
    ensures
        r@ == error_kind_view(e),
{
    match e {
        GraphError::UnknownNode => "UnknownNode".to_owned(),
        GraphError::UnknownRecipe => "UnknownRecipe".to_owned(),
        GraphError::PortOutOfRange => "PortOutOfRange".to_owned(),
        GraphError::InputAlreadyConnected => "InputAlreadyConnected".to_owned(),
        GraphError::EdgeNotFound => "EdgeNotFound".to_owned(),
        GraphError::WouldCreateCycle => "WouldCreateCycle".to_owned(),
        GraphError::Shuttingdown => "Shuttingdown".to_owned(),
    }
}

/// A rejection reply carrying the error's kind tag.
fn failure_reply(e: GraphError, detail: &str) -> (r: ServerMessage)
    ensures
        r matches ServerMessage::Failure(f) && f.kind@ == error_kind_view(e) && f.detail@
            == detail@,
{
    ServerMessage::Failure(
        FailureMessage { kind: error_kind(e), detail: detail.to_owned() },
    )
}

/// An acknowledgement reply.
fn alright_reply(message: &str) -> (r: ServerMessage)
    ensures
        r matches ServerMessage::Alright(a) && a.message@ == message@,
{
    ServerMessage::Alright(AlrightMessage { message: message.to_owned() })
}

/// What one command does: how the graph steps and which reply comes back.
pub open spec fn apply_command_post(
    pre: NodeGraph,
    post: NodeGraph,
    book: RecipeBook,
    cmd: ClientMessage,
    shutting_down: bool,
    reply: ServerMessage,
) -> bool {
    if shutting_down {
        &&& same_state(post, pre)
        &&& reply matches ServerMessage::Failure(f) && f.kind@ == error_kind_view(
            GraphError::Shuttingdown,
        )
    } else {
        match cmd {
            ClientMessage::AddNode(m) => {
                if book.has_recipe(m.node_type@) {
                    &&& reply is Alright
                    &&& post.spec_nodes().len() == pre.spec_nodes().len() + 1
                    &&& forall|k: int|
                        0 <= k < pre.spec_nodes().len() ==> post.spec_nodes()[k]
                            == pre.spec_nodes()[k]
                    &&& post.spec_nodes().last().id.0 == pre.spec_prev_id() + 1
                    &&& post.spec_nodes().last().name@ == m.node_type@
                    &&& (forall|i: int|
                        0 <= i < book.spec_names().len() && (#[trigger] book.spec_names()[i])
                            == m.node_type@ ==> behavior_like(
                            post.spec_nodes().last().behavior,
                            book.spec_templates()[i],
                        ))
                    &&& post.spec_edges() == pre.spec_edges()
                    &&& post.spec_prev_id() == pre.spec_prev_id() + 1
                } else {
                    &&& same_state(post, pre)
                    &&& reply matches ServerMessage::Failure(f) && f.kind@ == error_kind_view(
                        GraphError::UnknownRecipe,
                    )
                }
            },
            ClientMessage::RemoveNode(m) => {
                if pre.contains_id(m.node_id) {
                    &&& reply is Alright
                    &&& post.spec_nodes() == pre.spec_nodes().remove(
                        pre.node_index_of(m.node_id),
                    )
                    &&& post.spec_edges() == edges_without(pre.spec_edges(), m.node_id)
                    &&& post.spec_prev_id() == pre.spec_prev_id()
                } else {
                    &&& same_state(post, pre)
                    &&& reply matches ServerMessage::Failure(f) && f.kind@ == error_kind_view(
                        GraphError::UnknownNode,
                    )
                }
            },
            ClientMessage::ConnectNodes(m) => {
                let outcome = connect_outcome(
                    pre,
                    NodeId(m.from_id),
                    m.output_idx,
                    NodeId(m.to_id),
                    m.input_idx,
                );
                match outcome {
                    Ok(_) => {
                        &&& reply is Alright
                        &&& post.spec_nodes() == pre.spec_nodes()
                        &&& post.spec_edges() == pre.spec_edges().push(
                            NodeEdge {
                                from: NodeId(m.from_id),
                                from_out_idx: m.output_idx,
                                to: NodeId(m.to_id),
                                to_in_idx: m.input_idx,
                            },
                        )
                        &&& post.spec_prev_id() == pre.spec_prev_id()
                    },
                    Err(e) => {
                        &&& same_state(post, pre)
                        &&& reply matches ServerMessage::Failure(f) && f.kind@ == error_kind_view(
                            e,
                        )
                    },
                }
            },
            ClientMessage::DisconnectNodes(m) => {
                let e = NodeEdge {
                    from: NodeId(m.from_id),
                    from_out_idx: m.output_idx,
                    to: NodeId(m.to_id),
                    to_in_idx: m.input_idx,
                };
                if pre.spec_edges().contains(e) {
                    &&& reply is Alright
                    &&& post.spec_nodes() == pre.spec_nodes()
                    &&& post.spec_edges() == pre.spec_edges().remove(
                        pre.spec_edges().index_of(e),
                    )
                    &&& post.spec_prev_id() == pre.spec_prev_id()
                } else {
                    &&& same_state(post, pre)
                    &&& reply matches ServerMessage::Failure(f) && f.kind@ == error_kind_view(
                        GraphError::EdgeNotFound,
                    )
                }
            },
        }
    }
}

/// Apply one edit command to the graph and produce its one reply. The
/// generator drains the inbound queue through this between blocks, never
/// mid-block; after shutdown has begun every command is refused.
pub fn apply_command(
    graph: &mut NodeGraph,
    book: &RecipeBook,
    cmd: &ClientMessage,
    shutting_down: bool,
) -> (reply: ServerMessage)
    requires
        old(graph).wf(),
        book.wf(),
        old(graph).spec_prev_id() < usize::MAX,
    ensures
        final(graph).wf(),
        apply_command_post(*old(graph), *final(graph), *book, *cmd, shutting_down, reply),
{
    if shutting_down {
        return failure_reply(GraphError::Shuttingdown, "the engine is shutting down");
    }
    match cmd {
        ClientMessage::AddNode(m) => {
            match get_node_by_recipe(book, m.node_type.as_str()) {
                None => failure_reply(GraphError::UnknownRecipe, "no recipe under that name"),
                Some(behavior) => {
                    graph.add_node(m.node_type.as_str(), behavior);
                    alright_reply("add node ok!")
                },
            }
        },
        ClientMessage::RemoveNode(m) => {
            match graph.remove_node(NodeId(m.node_id)) {
                Ok(_) => alright_reply("remove node ok!"),
                Err(e) => failure_reply(e, "no node with that id"),
            }
        },
        ClientMessage::ConnectNodes(m) => {
            match graph.connect(NodeId(m.from_id), m.output_idx, NodeId(m.to_id), m.input_idx) {
                Ok(_) => alright_reply("connect nodes ok!"),
                Err(e) => failure_reply(e, "cannot connect those ports"),
            }
        },
        ClientMessage::DisconnectNodes(m) => {
            match graph.disconnect(
                NodeId(m.from_id),
                m.output_idx,
                NodeId(m.to_id),
                m.input_idx,
            ) {
                Ok(_) => alright_reply("disconnect nodes ok!"),
                Err(e) => failure_reply(e, "no such edge"),
            }
        },
    }
}

} // verus!
