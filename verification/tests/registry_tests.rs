use aurion::capability::Capability;
use aurion::error::NodeError;
use aurion::params::{ParamScalar, ParamValue};
use aurion::registry::{register_standard_nodes, NodeFactory, NodeRegistry};

struct TestFactory;

impl NodeFactory for TestFactory {
    fn kind_name(&self) -> String {
        "test".to_string()
    }

    fn validate_parameters(&self, parameters: &ParamValue) -> Result<(), NodeError> {
        if parameters.get("required_param").is_none() {
            return Err(NodeError::InvalidParameter {
                name: "required_param".to_string(),
                reason: "Missing required parameter".to_string(),
            });
        }
        Ok(())
    }

    fn create(&self, parameters: &ParamValue) -> Result<Capability, NodeError> {
        Err(NodeError::Debug {
            message: "Test factory create".to_string(),
            context: format!("Parameters: {:?}", parameters),
        })
    }
}

#[test]
fn test_debug_mode() {
    let mut registry = NodeRegistry::new();
    registry.register(Box::new(TestFactory));

    let result = registry.create_node("test", &ParamValue::Object(Vec::new()));
    assert!(matches!(result,
        Err(NodeError::InvalidParameter { name, reason })
        if name == "required_param" && reason == "Missing required parameter"
    ));
}

#[test]
fn test_registry_info() {
    let mut registry = NodeRegistry::new();
    registry.register(Box::new(TestFactory));

    let info = registry.dump_registry_info();
    assert!(info.contains("test"));
    assert!(info.contains("Total registered factories: 1"));
}

// Creating a node of an unregistered kind always fails, and the message
// enumerates every registered kind name.
#[test]
fn unregistered_kind_error_enumerates_kinds() {
    let mut registry = NodeRegistry::new();
    register_standard_nodes(&mut registry);

    let result = registry.create_node("NoSuchNode", &ParamValue::Null);
    match result {
        Err(NodeError::ValidationError(message)) => {
            assert!(message.contains("NoSuchNode"));
            assert!(message.contains("ImageNode"));
            assert!(message.contains("OutputNode"));
            assert!(message.contains("BlendNode"));
            assert!(message.contains("InvertNode"));
            assert!(message.contains("ConstNode"));
        }
        other => panic!("expected a validation failure, got {:?}", other.is_ok()),
    }
}

#[test]
fn created_node_keeps_kind_and_parameters() {
    let mut registry = NodeRegistry::new();
    register_standard_nodes(&mut registry);

    let params = ParamValue::Object(vec![("value".to_string(), ParamScalar::Int(7))]);
    let node = registry.create_node("ConstNode", &params).unwrap();
    assert_eq!(node.kind(), "ConstNode");
    assert_eq!(node.parameters, params);
    assert!(node.inputs.is_empty());
    assert!(matches!(node.data, Capability::Const(c) if c.value == 7));
}

#[test]
fn registered_kinds_are_listed_once() {
    let mut registry = NodeRegistry::new();
    register_standard_nodes(&mut registry);
    register_standard_nodes(&mut registry);
    let kinds = registry.get_available_node_kinds();
    assert_eq!(kinds.len(), 5);
    assert!(registry.has_factory("ImageNode"));
    assert!(!registry.has_factory("GaussianBlur"));
}

#[test]
fn blend_factory_validates_mode_names() {
    let mut registry = NodeRegistry::new();
    register_standard_nodes(&mut registry);
    let bad = ParamValue::Object(vec![(
        "mode".to_string(),
        ParamScalar::Text("Sideways".to_string()),
    )]);
    assert!(matches!(
        registry.create_node("BlendNode", &bad),
        Err(NodeError::InvalidParameter { .. })
    ));
    let good = ParamValue::Object(vec![(
        "mode".to_string(),
        ParamScalar::Text("Add".to_string()),
    )]);
    assert!(registry.create_node("BlendNode", &good).is_ok());
}

struct RenamedConstFactory;

impl NodeFactory for RenamedConstFactory {
    fn kind_name(&self) -> String {
        "ConstNode".to_string()
    }

    fn validate_parameters(&self, _parameters: &ParamValue) -> Result<(), NodeError> {
        Ok(())
    }

    fn create(&self, _parameters: &ParamValue) -> Result<Capability, NodeError> {
        // Ignores the parameters: always the value 41.
        Ok(Capability::Const(aurion::capability::ConstNode::new(41)))
    }
}

#[test]
fn re_registering_a_name_replaces_the_factory() {
    let mut registry = NodeRegistry::new();
    register_standard_nodes(&mut registry);
    assert_eq!(registry.get_available_node_kinds().len(), 5);

    registry.register(Box::new(RenamedConstFactory));
    // No new name appeared: the prior ConstNode factory was replaced.
    assert_eq!(registry.get_available_node_kinds().len(), 5);
    let node = registry.create_node("ConstNode", &ParamValue::Null).unwrap();
    assert!(matches!(node.data, Capability::Const(c) if c.value == 41));
}
