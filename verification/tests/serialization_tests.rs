use aurion::blend::BlendMode;
use aurion::document::Document;
use aurion::params::{ParamScalar, ParamValue};
use aurion::registry::{register_standard_nodes, NodeRegistry};

#[test]
fn test_document_serialization() {
    let mut doc = Document::new();
    doc.add_layer();

    let serialized = doc.serialize();
    assert_eq!(serialized.layers.len(), 1);
    assert_eq!(serialized.layer_order.len(), 1);

    let registry = NodeRegistry::new();
    let deserialized = Document::deserialize(&serialized, &registry).unwrap();
    assert_eq!(deserialized.layers.len(), 1);
    assert_eq!(deserialized.layer_order.len(), 1);
}

// Serializing then deserializing reproduces the layer order, every
// layer's scalar attributes, and a graph with the same node kinds,
// parameters and connection topology.
#[test]
fn round_trip_reproduces_document() {
    let mut registry = NodeRegistry::new();
    register_standard_nodes(&mut registry);

    let mut doc = Document::new();
    let layer = doc.add_layer();
    doc.set_layer_name(&layer, "Background".to_string()).unwrap();
    doc.set_layer_opacity(&layer, 200).unwrap();
    doc.set_layer_blend_mode(&layer, BlendMode::Screen).unwrap();

    let const_params = ParamValue::Object(vec![("value".to_string(), ParamScalar::Int(9))]);
    let source = registry.create_node("ConstNode", &const_params).unwrap();
    let source_id = doc.layer_add_node(&layer, source).unwrap();
    let invert = registry.create_node("InvertNode", &ParamValue::Null).unwrap();
    let invert_id = doc.layer_add_node(&layer, invert).unwrap();
    doc.layer_connect(&layer, &source_id, &invert_id, "input").unwrap();
    doc.set_layer_output(&layer, Some(invert_id)).unwrap();

    let second = doc.add_layer();
    doc.move_layer(&second, 0).unwrap();

    let serialized = doc.serialize();
    let rebuilt = Document::deserialize(&serialized, &registry).unwrap();

    // Layer order and identities come back verbatim.
    assert_eq!(rebuilt.layers(), doc.layers());
    assert_eq!(rebuilt.layer_count(), doc.layer_count());

    // Scalar attributes survive.
    let l1 = rebuilt.get_layer(&layer).unwrap();
    assert_eq!(l1.name(), "Background");
    assert_eq!(l1.opacity(), 200);
    assert_eq!(l1.blend_mode(), BlendMode::Screen);
    assert!(l1.is_visible());

    // The graph comes back with the same kinds, parameters and topology.
    let graph = l1.node_graph();
    assert_eq!(graph.nodes.len(), 2);
    assert_eq!(graph.nodes[0].kind_name, "ConstNode");
    assert_eq!(graph.nodes[0].parameters, const_params);
    assert_eq!(graph.nodes[1].kind_name, "InvertNode");
    assert_eq!(graph.nodes[1].inputs.len(), 1);
    assert_eq!(graph.nodes[1].inputs[0].0, "input");
    assert_eq!(graph.nodes[1].inputs[0].1, graph.nodes[0].id);
    assert_eq!(l1.output_node(), Some(graph.nodes[1].id));
}

#[test]
fn corrupt_blend_mode_is_rejected() {
    let mut doc = Document::new();
    doc.add_layer();
    let mut serialized = doc.serialize();
    serialized.layers[0].blend_mode = "Diagonal".to_string();
    let registry = NodeRegistry::new();
    assert!(Document::deserialize(&serialized, &registry).is_err());
}

#[test]
fn duplicate_layer_order_is_rejected() {
    let mut doc = Document::new();
    doc.add_layer();
    doc.add_layer();
    let mut serialized = doc.serialize();
    let first = serialized.layer_order[0];
    serialized.layer_order[1] = first;
    let registry = NodeRegistry::new();
    assert!(Document::deserialize(&serialized, &registry).is_err());
}

#[test]
fn unregistered_node_kind_fails_reconstruction() {
    let mut registry = NodeRegistry::new();
    register_standard_nodes(&mut registry);
    let mut doc = Document::new();
    let layer = doc.add_layer();
    let node = registry.create_node("ImageNode", &ParamValue::Null).unwrap();
    doc.layer_add_node(&layer, node).unwrap();

    let serialized = doc.serialize();
    let empty = NodeRegistry::new();
    assert!(Document::deserialize(&serialized, &empty).is_err());
}

#[test]
fn unknown_connection_endpoint_is_rejected() {
    let mut registry = NodeRegistry::new();
    register_standard_nodes(&mut registry);
    let mut doc = Document::new();
    let layer = doc.add_layer();
    let a = registry.create_node("ConstNode", &ParamValue::Null).unwrap();
    let a_id = doc.layer_add_node(&layer, a).unwrap();
    let b = registry.create_node("InvertNode", &ParamValue::Null).unwrap();
    let b_id = doc.layer_add_node(&layer, b).unwrap();
    doc.layer_connect(&layer, &a_id, &b_id, "input").unwrap();

    let mut serialized = doc.serialize();
    serialized.layers[0].node_graph.connections[0].from_node = 999;
    assert!(Document::deserialize(&serialized, &registry).is_err());
}

#[test]
fn factory_free_document_always_rebuilds() {
    // Empty graphs consult no factory, so reconstruction succeeds even
    // against an empty registry.
    let mut doc = Document::new();
    doc.add_layer();
    doc.add_layer();
    let serialized = doc.serialize();
    let registry = NodeRegistry::new();
    assert!(Document::deserialize(&serialized, &registry).is_ok());
}
