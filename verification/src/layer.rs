//! A layer: one node graph plus the attributes the compositor reads — a
//! name, visibility, opacity, a blend mode and a designated output node.

use vstd::prelude::*;
use crate::blend::BlendMode;
use crate::graph::{GraphView, NodeGraph};
use crate::ids::{LayerId, NodeId};

verus! {

/// The model of a layer.
pub struct LayerView {
    pub id: LayerId,
    pub name: Seq<char>,
    pub visible: bool,
    pub opacity: u8,
    pub blend_mode: BlendMode,
    pub graph: GraphView,
    pub output_node: Option<NodeId>,
}

/// One visual element of a document.  Opacity runs from 0 (transparent)
/// to 255 (opaque).
#[derive(Debug)]
pub struct Layer {
    pub id: LayerId,
    pub name: String,
    pub visible: bool,
    pub opacity: u8,
    pub blend_mode: BlendMode,
    pub node_graph: NodeGraph,
    pub output_node: Option<NodeId>,
}

impl View for Layer {
    type V = LayerView;

    open spec fn view(&self) -> LayerView {
        LayerView {
            id: self.id,
            name: self.name@,
            visible: self.visible,
            opacity: self.opacity,
            blend_mode: self.blend_mode,
            graph: self.node_graph@,
            output_node: self.output_node,
        }
    }
}

impl LayerView {
    pub open spec fn wf(self) -> bool {
        self.graph.wf()
    }
}

impl Layer {
    /// A fresh, fully opaque, visible layer with an empty graph.  Its
    /// identity is assigned when a document admits it.
    pub fn new() -> (l: Layer)
        ensures
            l@.wf(),
            l@.id == LayerId(0),
            l@.name == "New Layer"@,
            l@.visible == true,
            l@.opacity == 255,
            l@.blend_mode == BlendMode::Normal,
            l@.graph.nodes.len() == 0,
            l@.graph.edges.len() == 0,
            l@.graph.next_id == 1,
            l@.output_node is None,
    {
        Layer {
            id: LayerId(0),
            name: "New Layer".to_owned(),
            visible: true,
            opacity: 255,
            blend_mode: BlendMode::Normal,
            node_graph: NodeGraph::new(),
            output_node: None,
        }
    }

    pub fn node_graph(&self) -> (r: &NodeGraph)
        ensures
            r@ == self@.graph,
    {
        &self.node_graph
    }

    pub fn opacity(&self) -> (r: u8)
        ensures
            r == self@.opacity,
    {
        self.opacity
    }

    pub fn set_opacity(&mut self, opacity: u8)
        ensures
            final(self)@ == (LayerView { opacity, ..old(self)@ }),
    {
        self.opacity = opacity;
    }

    pub fn is_visible(&self) -> (r: bool)
        ensures
            r == self@.visible,
    {
        self.visible
    }

    pub fn set_visible(&mut self, visible: bool)
        ensures
            final(self)@ == (LayerView { visible, ..old(self)@ }),
    {
        self.visible = visible;
    }

    pub fn name(&self) -> (r: &String)
        ensures
            r@ == self@.name,
    {
        &self.name
    }

    pub fn set_name(&mut self, name: String)
        ensures
            final(self)@ == (LayerView { name: name@, ..old(self)@ }),
    {
        self.name = name;
    }

    pub fn blend_mode(&self) -> (r: BlendMode)
        ensures
            r == self@.blend_mode,
    {
        self.blend_mode
    }

    pub fn set_blend_mode(&mut self, mode: BlendMode)
        ensures
            final(self)@ == (LayerView { blend_mode: mode, ..old(self)@ }),
    {
        self.blend_mode = mode;
    }

    pub fn output_node(&self) -> (r: Option<NodeId>)
        ensures
            r == self@.output_node,
    {
        self.output_node
    }

    pub fn set_output_node(&mut self, output: Option<NodeId>)
        ensures
            final(self)@ == (LayerView { output_node: output, ..old(self)@ }),
    {
        self.output_node = output;
    }
}

} // verus!
