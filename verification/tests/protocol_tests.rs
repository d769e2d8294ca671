use flowsynth::behavior::{NodeBehavior, SumNode};
use flowsynth::engine::{
    apply_command, default_recipe_book, get_node_by_recipe, register_node_recipe, RecipeBook,
};
use flowsynth::graph::NodeGraph;
use flowsynth::message::{
    AddNodeMessage, ClientMessage, ConnectNodesMessage, DisconnectNodesMessage,
    RemoveNodeMessage, ServerMessage,
};

fn expect_ok(reply: &ServerMessage) {
    match reply {
        ServerMessage::Alright(_) => {},
        ServerMessage::Failure(f) => panic!("expected success, got {}: {}", f.kind, f.detail),
    }
}

fn expect_failure(reply: &ServerMessage, kind: &str) {
    match reply {
        ServerMessage::Alright(a) => panic!("expected {}, got success: {}", kind, a.message),
        ServerMessage::Failure(f) => assert_eq!(f.kind, kind),
    }
}

fn add(node_type: &str) -> ClientMessage {
    ClientMessage::AddNode(AddNodeMessage { node_type: node_type.to_string() })
}

fn connect(from_id: usize, output_idx: usize, to_id: usize, input_idx: usize) -> ClientMessage {
    ClientMessage::ConnectNodes(ConnectNodesMessage { from_id, to_id, output_idx, input_idx })
}

fn disconnect(from_id: usize, output_idx: usize, to_id: usize, input_idx: usize) -> ClientMessage {
    ClientMessage::DisconnectNodes(DisconnectNodesMessage {
        from_id,
        to_id,
        output_idx,
        input_idx,
    })
}

#[test]
fn add_node_by_recipe() {
    let mut g = NodeGraph::new();
    let book = default_recipe_book();
    let reply = apply_command(&mut g, &book, &add("SinNode"), false);
    expect_ok(&reply);
    assert_eq!(g.node_count(), 1);
    assert_eq!(g.node_ref(0).name, "SinNode");
    assert!(matches!(g.node_ref(0).behavior, NodeBehavior::Sin(_)));
}

#[test]
fn unknown_recipe_is_refused() {
    let mut g = NodeGraph::new();
    let book = default_recipe_book();
    let reply = apply_command(&mut g, &book, &add("NoSuchThing"), false);
    expect_failure(&reply, "UnknownRecipe");
    assert_eq!(g.node_count(), 0);
}

#[test]
fn remove_by_command() {
    let mut g = NodeGraph::new();
    let book = default_recipe_book();
    expect_ok(&apply_command(&mut g, &book, &add("SumNode"), false));
    let id = g.node_ref(0).id.0;
    expect_ok(&apply_command(
        &mut g,
        &book,
        &ClientMessage::RemoveNode(RemoveNodeMessage { node_id: id }),
        false,
    ));
    assert_eq!(g.node_count(), 0);
    expect_failure(
        &apply_command(
            &mut g,
            &book,
            &ClientMessage::RemoveNode(RemoveNodeMessage { node_id: id }),
            false,
        ),
        "UnknownNode",
    );
}

#[test]
fn connect_and_disconnect_by_command() {
    let mut g = NodeGraph::new();
    let book = default_recipe_book();
    expect_ok(&apply_command(&mut g, &book, &add("WaveformNode"), false));
    expect_ok(&apply_command(&mut g, &book, &add("SinNode"), false));
    let w = g.node_ref(0).id.0;
    let s = g.node_ref(1).id.0;
    expect_failure(&apply_command(&mut g, &book, &connect(s, 0, s, 0), false), "WouldCreateCycle");
    expect_ok(&apply_command(&mut g, &book, &connect(w, 0, s, 0), false));
    assert_eq!(g.edge_count(), 1);
    expect_failure(&apply_command(&mut g, &book, &connect(w, 0, s, 0), false), "InputAlreadyConnected");
    expect_failure(&apply_command(&mut g, &book, &connect(s, 0, w, 5), false), "PortOutOfRange");
    expect_failure(&apply_command(&mut g, &book, &connect(99, 0, s, 0), false), "UnknownNode");
    expect_ok(&apply_command(&mut g, &book, &disconnect(w, 0, s, 0), false));
    assert_eq!(g.edge_count(), 0);
    expect_failure(&apply_command(&mut g, &book, &disconnect(w, 0, s, 0), false), "EdgeNotFound");
}

#[test]
fn shutdown_refuses_every_command() {
    let mut g = NodeGraph::new();
    let book = default_recipe_book();
    let reply = apply_command(&mut g, &book, &add("SumNode"), true);
    expect_failure(&reply, "Shuttingdown");
    assert_eq!(g.node_count(), 0);
}

#[test]
fn recipes_register_once() {
    let mut book = RecipeBook::new();
    assert!(register_node_recipe(
        &mut book,
        "SumNode",
        NodeBehavior::Sum(SumNode::new(2)),
    ));
    assert!(!register_node_recipe(
        &mut book,
        "SumNode",
        NodeBehavior::Sum(SumNode::new(4)),
    ));
    assert!(get_node_by_recipe(&book, "SumNode").is_some());
    assert!(get_node_by_recipe(&book, "Missing").is_none());
}

#[test]
fn recipe_hands_out_copies() {
    let book = default_recipe_book();
    let a = get_node_by_recipe(&book, "SumNode").unwrap();
    match a {
        NodeBehavior::Sum(s) => assert_eq!(s.num_ins, 2),
        _ => panic!("wrong behavior"),
    }
    let b = get_node_by_recipe(&book, "InterleavingOutputNode").unwrap();
    assert!(matches!(b, NodeBehavior::InterleavingOutput(_)));
}
