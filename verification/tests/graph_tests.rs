use aurion::artifact::Artifact;
use aurion::capability::{Capability, ConstNode, ImageNode, InvertNode};
use aurion::artifact::{ImageBuf, Pixel};
use aurion::error::NodeError;
use aurion::graph::NodeGraph;
use aurion::ids::NodeId;
use aurion::node::Node;

fn const_node(value: i64) -> Node {
    Node::new(Capability::Const(ConstNode::new(value)))
}

#[test]
fn test_create_graph() {
    let graph = NodeGraph::new();
    assert!(graph.nodes.is_empty());
}

#[test]
fn test_add_node() {
    let mut graph = NodeGraph::new();
    let node = const_node(42);
    let id = graph.add_node(node);
    assert!(graph.get_node(&id).is_some());
}

#[test]
fn test_node_not_found() {
    let graph = NodeGraph::new();
    let id = NodeId(12345);
    let result = graph.evaluate(&id);
    assert!(matches!(result, Err(NodeError::NodeNotFound(_))));
}

#[test]
fn test_cycle_detection() {
    let mut graph = NodeGraph::new();
    let node1 = const_node(1);
    let node2 = const_node(2);

    let id1 = graph.add_node(node1);
    let id2 = graph.add_node(node2);

    // Create a cycle
    assert!(graph.connect(&id1, &id2, "input").is_ok());
    assert!(matches!(
        graph.connect(&id2, &id1, "input"),
        Err(NodeError::CycleDetected { .. })
    ));
}

#[test]
fn test_missing_input_validation() {
    let mut graph = NodeGraph::new();
    let mut node = const_node(1);
    node.connect_input("required_input", NodeId(9999));

    graph.add_node(node);
    assert!(matches!(graph.validate(), Err(NodeError::NodeNotFound(_))));
}

#[test]
fn test_invalid_input_type() {
    let mut graph = NodeGraph::new();
    let node = const_node(1);
    let id = graph.add_node(node);

    let result = graph.evaluate(&id);
    assert!(result.is_ok());

    // Now add an input when the node doesn't expect any
    let node2 = const_node(2);
    let id2 = graph.add_node(node2);
    graph.connect(&id2, &id, "input").unwrap();

    let result = graph.evaluate(&id);
    assert!(matches!(result, Err(NodeError::InvalidInputType { .. })));
}

#[test]
fn test_node_validation() {
    let node = const_node(1);
    assert!(node.validate().is_ok());

    // A node's own validation only checks its map resolves its names, so
    // a binding to a node outside any graph still passes here; the graph
    // level validation is what rejects it (see
    // test_missing_input_validation).
    let mut node = const_node(1);
    node.connect_input("required_input", NodeId(9999));
    assert!(node.validate().is_ok());
}

// A connect call that would close a cycle leaves every node's input map
// and the edge set exactly as they were, and reports CycleDetected.
#[test]
fn cycle_rejection_leaves_graph_unchanged() {
    let mut graph = NodeGraph::new();
    let a = graph.add_node(const_node(1));
    let b = graph.add_node(const_node(2));
    let c = graph.add_node(const_node(3));
    graph.connect(&a, &b, "x").unwrap();
    graph.connect(&b, &c, "y").unwrap();

    let edges_before = graph.edges.clone();
    let inputs_before: Vec<Vec<(String, NodeId)>> =
        graph.nodes.iter().map(|n| n.inputs.clone()).collect();

    let result = graph.connect(&c, &a, "z");
    assert!(matches!(result, Err(NodeError::CycleDetected { .. })));

    assert_eq!(graph.edges, edges_before);
    let inputs_after: Vec<Vec<(String, NodeId)>> =
        graph.nodes.iter().map(|n| n.inputs.clone()).collect();
    assert_eq!(inputs_after, inputs_before);
}

// A node with zero declared inputs computes immediately.
#[test]
fn leaf_node_evaluates_directly() {
    let mut graph = NodeGraph::new();
    let id = graph.add_node(const_node(42));
    let result = graph.evaluate(&id).unwrap();
    assert!(matches!(result, Artifact::Int(42)));
}

#[test]
fn rebinding_overwrites_input_in_place() {
    let mut node = const_node(0);
    node.connect_input("source", NodeId(5));
    node.connect_input("mask", NodeId(6));
    node.connect_input("source", NodeId(7));
    assert_eq!(node.inputs.len(), 2);
    assert_eq!(node.inputs[0].0, "source");
    assert_eq!(node.inputs[0].1, NodeId(7));
    assert_eq!(node.inputs[1].0, "mask");
}

#[test]
fn invert_node_inverts_colors() {
    let mut graph = NodeGraph::new();
    let image = ImageBuf {
        width: 2,
        height: 1,
        pixels: vec![Pixel::rgba(10, 20, 30, 40), Pixel::rgba(0, 255, 128, 200)],
    };
    let source = graph.add_node(Node::new(Capability::Image(ImageNode::with_image(image))));
    let invert = graph.add_node(Node::new(Capability::Invert(InvertNode::new())));
    graph.connect(&source, &invert, "input").unwrap();

    let result = graph.evaluate(&invert).unwrap();
    match result {
        Artifact::Image(img) => {
            assert_eq!(img.get_pixel(0, 0), Pixel::rgba(245, 235, 225, 40));
            assert_eq!(img.get_pixel(1, 0), Pixel::rgba(255, 0, 127, 200));
        }
        Artifact::Int(_) => panic!("expected an image artifact"),
    }
}

#[test]
fn image_node_without_image_reports_missing_input() {
    let mut graph = NodeGraph::new();
    let id = graph.add_node(Node::new(Capability::Image(ImageNode::new())));
    let result = graph.evaluate(&id);
    assert!(matches!(result, Err(NodeError::MissingInput(name)) if name == "image"));
}

#[test]
fn node_dependencies_list_consumers() {
    let mut graph = NodeGraph::new();
    let a = graph.add_node(const_node(1));
    let b = graph.add_node(const_node(2));
    let c = graph.add_node(const_node(3));
    graph.connect(&a, &b, "x").unwrap();
    graph.connect(&a, &c, "y").unwrap();
    let deps = graph.get_node_dependencies(&a).unwrap();
    assert_eq!(deps, vec![b, c]);
    assert!(matches!(
        graph.get_node_dependencies(&NodeId(999)),
        Err(NodeError::NodeNotFound(_))
    ));
}

#[test]
fn node_id_renders_in_decimal() {
    assert_eq!(NodeId(42).to_string(), "42");
    assert_eq!(NodeId(0).to_string(), "0");
    assert_eq!(NodeId(1007).to_string(), "1007");
}

#[test]
fn error_messages_render() {
    let err = NodeError::MissingInput("image".to_string());
    assert_eq!(err.message(), "Missing required input: image");
    let err = NodeError::NodeNotFound(NodeId(7));
    assert_eq!(err.message(), "Node not found: 7");
}
