//! Plain state carried for an editing surface: the node kinds it can
//! offer interactively, and its panel toggles.

use vstd::prelude::*;
use crate::capability::{Capability, CapabilityView, ImageNode};
use crate::node::Node;

verus! {

/// A node kind the editor offers for interactive creation.
#[derive(Clone, Copy, Debug, PartialEq, Eq, Structural)]
pub enum NodeType {
    Image,
}

impl NodeType {
    /// Every kind the editor offers.
    pub fn all() -> (r: Vec<NodeType>)
        ensures
            r@.len() == 1,
            r@[0] == NodeType::Image,
    {
        let mut kinds: Vec<NodeType> = Vec::new();
        kinds.push(NodeType::Image);
        kinds
    }

    pub fn name(&self) -> (r: &'static str)
        ensures
            self is Image ==> r@ == "Image"@,
    {
        match self {
            NodeType::Image => "Image",
        }
    }

    /// A fresh node of this kind: the Image kind yields an image-source
    /// node with no stored image and no input bindings.
    pub fn create(&self) -> (r: Option<Node>)
        ensures
            r matches Some(n) && (n@.data matches CapabilityView::Image(stored) && stored is None)
                && n@.inputs.len() == 0 && n@.kind_name == "ImageNode"@,
    {
        match self {
            NodeType::Image => Some(Node::new(Capability::Image(ImageNode::new()))),
        }
    }
}

/// The panel state of an editing surface.
#[derive(Debug)]
pub struct UiState {
    pub selected_layer: Option<String>,
    pub show_save_dialog: bool,
    pub show_load_dialog: bool,
    pub show_node_creation_menu: bool,
}

impl UiState {
    pub fn new() -> (s: UiState)
        ensures
            s.selected_layer is None,
            !s.show_save_dialog,
            !s.show_load_dialog,
            !s.show_node_creation_menu,
    {
        UiState {
            selected_layer: None,
            show_save_dialog: false,
            show_load_dialog: false,
            show_node_creation_menu: false,
        }
    }
}

} // verus!
