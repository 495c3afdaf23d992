//! The persisted form of a document, and the conversions to and from it.
//!
//! Nodes persist as {identity, kind name, parameters}; connections persist
//! one entry per input binding.  Reconstruction routes every node through
//! the registry's validation path and every connection through the graph's
//! own cycle check, so a corrupt or cyclic persisted form is rejected with
//! the same errors interactive editing would produce.

use vstd::prelude::*;
use crate::blend::{BlendMode, spec_mode_name, spec_parse_mode};
use crate::document::{Document, DocumentError, DocumentView};
use crate::error::NodeError;
use crate::graph::{acyclic, Edge, GraphView, NodeGraph};
use crate::history::History;
use crate::ids::{LayerId, NodeId};
use crate::layer::{Layer, LayerView};
use crate::node::{NodeView, spec_bind};
use crate::params::{ParamValue, ParamValueView};
use crate::registry::NodeRegistry;

verus! {

/// One persisted node.
pub struct SerializedNode {
    pub id: u64,
    pub kind_name: String,
    pub parameters: ParamValue,
}

/// The model of a persisted node.
pub struct SerializedNodeView {
    pub id: int,
    pub kind_name: Seq<char>,
    pub parameters: ParamValueView,
}

impl View for SerializedNode {
    type V = SerializedNodeView;

    open spec fn view(&self) -> SerializedNodeView {
        SerializedNodeView {
            id: self.id as int,
            kind_name: self.kind_name@,
            parameters: self.parameters@,
        }
    }
}

/// One persisted input binding.
pub struct SerializedConnection {
    pub from_node: u64,
    pub from_slot: String,
    pub to_node: u64,
    pub to_slot: String,
}

/// The model of a persisted connection.
pub struct SerializedConnectionView {
    pub from_node: int,
    pub from_slot: Seq<char>,
    pub to_node: int,
    pub to_slot: Seq<char>,
}

impl View for SerializedConnection {
    type V = SerializedConnectionView;

    open spec fn view(&self) -> SerializedConnectionView {
        SerializedConnectionView {
            from_node: self.from_node as int,
            from_slot: self.from_slot@,
            to_node: self.to_node as int,
            to_slot: self.to_slot@,
        }
    }
}

/// One persisted node graph.
pub struct SerializedGraph {
    pub nodes: Vec<SerializedNode>,
    pub connections: Vec<SerializedConnection>,
}

/// The model of a persisted node graph.
pub struct SerializedGraphView {
    pub nodes: Seq<SerializedNodeView>,
    pub connections: Seq<SerializedConnectionView>,
}

impl View for SerializedGraph {
    type V = SerializedGraphView;

    open spec fn view(&self) -> SerializedGraphView {
        SerializedGraphView {
            nodes: self.nodes@.map_values(|n: SerializedNode| n@),
            connections: self.connections@.map_values(|c: SerializedConnection| c@),
        }
    }
}

/// One persisted layer.
pub struct SerializedLayer {
    pub id: u64,
    pub name: String,
    pub visible: bool,
    pub opacity: u8,
    pub blend_mode: String,
    pub output_node: Option<u64>,
    pub node_graph: SerializedGraph,
}

/// The model of a persisted layer.
pub struct SerializedLayerView {
    pub id: int,
    pub name: Seq<char>,
    pub visible: bool,
    pub opacity: u8,
    pub blend_mode: Seq<char>,
    pub output_node: Option<int>,
    pub node_graph: SerializedGraphView,
}

impl View for SerializedLayer {
    type V = SerializedLayerView;

    open spec fn view(&self) -> SerializedLayerView {
        SerializedLayerView {
            id: self.id as int,
            name: self.name@,
            visible: self.visible,
            opacity: self.opacity,
            blend_mode: self.blend_mode@,
            output_node: match self.output_node {
                Some(v) => Some(v as int),
                None => None,
            },
            node_graph: self.node_graph@,
        }
    }
}

/// A whole persisted document.
pub struct SerializedDocument {
    pub layers: Vec<SerializedLayer>,
    pub layer_order: Vec<u64>,
}

/// The model of a persisted document.
pub struct SerializedDocumentView {
    pub layers: Seq<SerializedLayerView>,
    pub layer_order: Seq<int>,
}

impl View for SerializedDocument {
    type V = SerializedDocumentView;

    open spec fn view(&self) -> SerializedDocumentView {
        SerializedDocumentView {
            layers: self.layers@.map_values(|l: SerializedLayer| l@),
            layer_order: self.layer_order@.map_values(|v: u64| v as int),
        }
    }
}

/// The persisted form of one node.
pub open spec fn spec_serialize_node(n: NodeView) -> SerializedNodeView {
    SerializedNodeView { id: n.id.0 as int, kind_name: n.kind_name, parameters: n.parameters }
}

/// The persisted connections of a binding list, in binding order, each
/// from the producer's single output slot.
pub open spec fn spec_connections_of_bindings(
    inputs: Seq<(Seq<char>, NodeId)>,
    to: int,
) -> Seq<SerializedConnectionView>
    decreases inputs.len(),
{
    if inputs.len() == 0 {
        Seq::<SerializedConnectionView>::empty()
    } else {
        spec_connections_of_bindings(inputs.drop_last(), to).push(
            SerializedConnectionView {
                from_node: inputs.last().1.0 as int,
                from_slot: "output"@,
                to_node: to,
                to_slot: inputs.last().0,
            },
        )
    }
}

/// The persisted connections of one node: one entry per input binding.
pub open spec fn spec_connections_of_node(n: NodeView) -> Seq<SerializedConnectionView> {
    spec_connections_of_bindings(n.inputs, n.id.0 as int)
}

/// The models of a connection list.
pub open spec fn conn_views(cs: Seq<SerializedConnection>) -> Seq<SerializedConnectionView> {
    cs.map_values(|c: SerializedConnection| c@)
}

proof fn lemma_conn_views_push(cs: Seq<SerializedConnection>, c: SerializedConnection)
    ensures
        conn_views(cs.push(c)) == conn_views(cs).push(c@),
{
    assert(conn_views(cs.push(c)) =~= conn_views(cs).push(c@));
}

/// The persisted connections of a node list, node by node.
pub open spec fn spec_connections_of(nodes: Seq<NodeView>) -> Seq<SerializedConnectionView>
    decreases nodes.len(),
{
    if nodes.len() == 0 {
        Seq::<SerializedConnectionView>::empty()
    } else {
        spec_connections_of(nodes.drop_last()) + spec_connections_of_node(nodes.last())
    }
}

/// The persisted form of one graph.
pub open spec fn spec_serialize_graph(g: GraphView) -> SerializedGraphView {
    SerializedGraphView {
        nodes: g.nodes.map_values(|n: NodeView| spec_serialize_node(n)),
        connections: spec_connections_of(g.nodes),
    }
}

/// The persisted form of one layer.
pub open spec fn spec_serialize_layer(l: LayerView) -> SerializedLayerView {
    SerializedLayerView {
        id: l.id.0 as int,
        name: l.name,
        visible: l.visible,
        opacity: l.opacity,
        blend_mode: spec_mode_name(l.blend_mode),
        output_node: match l.output_node {
            Some(nid) => Some(nid.0 as int),
            None => None,
        },
        node_graph: spec_serialize_graph(l.graph),
    }
}

/// The persisted form of a document.
pub open spec fn spec_serialize(d: DocumentView) -> SerializedDocumentView {
    SerializedDocumentView {
        layers: d.layers.map_values(|l: LayerView| spec_serialize_layer(l)),
        layer_order: d.layer_order.map_values(|id: LayerId| id.0 as int),
    }
}

/// Serializes one graph.
fn serialize_graph(g: &NodeGraph) -> (r: SerializedGraph)
    ensures
        r@ == spec_serialize_graph(g@),
{
    let node_count = g.nodes.len();
    let mut nodes: Vec<SerializedNode> = Vec::new();
    let mut connections: Vec<SerializedConnection> = Vec::new();
    let mut i: usize = 0;
    proof {
        assert(g@.nodes.take(0) =~= Seq::<NodeView>::empty());
        assert(conn_views(connections@) =~= spec_connections_of(g@.nodes.take(0)));
    }
    while i < node_count
        invariant
            node_count == g.nodes@.len(),
            i <= node_count,
            g@.nodes.len() == node_count,
            nodes@.len() == i,
            forall|j: int| 0 <= j < i ==> (#[trigger] nodes@[j])@ == spec_serialize_node(
                g@.nodes[j],
            ),
            conn_views(connections@) == spec_connections_of(g@.nodes.take(i as int)),
        decreases node_count - i,
    {
        proof {
            assert(g@.nodes[i as int] == g.nodes@[i as int]@);
        }
        let node = &g.nodes[i];
        nodes.push(
            SerializedNode {
                id: node.id.0,
                kind_name: node.kind_name.clone(),
                parameters: node.parameters.clone_value(),
            },
        );
        proof {
            assert(nodes@[i as int]@ == spec_serialize_node(g@.nodes[i as int]));
        }
        let binding_count = node.inputs.len();
        let ghost conns_before = conn_views(connections@);
        let ghost to_raw = g@.nodes[i as int].id.0 as int;
        let mut k: usize = 0;
        proof {
            assert(g@.nodes[i as int].inputs.take(0) =~= Seq::<(Seq<char>, NodeId)>::empty());
            assert(conns_before + spec_connections_of_bindings(
                g@.nodes[i as int].inputs.take(0),
                to_raw,
            ) =~= conns_before);
        }
        while k < binding_count
            invariant
                node_count == g.nodes@.len(),
                i < node_count,
                g@.nodes[i as int] == g.nodes@[i as int]@,
                node == g.nodes@[i as int],
                binding_count == g@.nodes[i as int].inputs.len(),
                k <= binding_count,
                to_raw == g@.nodes[i as int].id.0 as int,
                conn_views(connections@) == conns_before + spec_connections_of_bindings(
                    g@.nodes[i as int].inputs.take(k as int),
                    to_raw,
                ),
            decreases binding_count - k,
        {
            proof {
                assert(g@.nodes[i as int].inputs[k as int] == (node.inputs@[k as int].0@,
                node.inputs@[k as int].1));
            }
            let binding_name = node.inputs[k].0.clone();
            let producer = node.inputs[k].1;
            let ghost pre_conns = connections@;
            let conn = SerializedConnection {
                from_node: producer.0,
                from_slot: "output".to_owned(),
                to_node: node.id.0,
                to_slot: binding_name,
            };
            proof {
                lemma_conn_views_push(pre_conns, conn);
            }
            connections.push(conn);
            proof {
                let inputs = g@.nodes[i as int].inputs;
                assert(inputs.take(k as int + 1) =~= inputs.take(k as int).push(inputs[k as int]));
                assert(inputs.take(k as int + 1).drop_last() =~= inputs.take(k as int));
                assert(inputs.take(k as int + 1).last() == inputs[k as int]);
                assert(conn@ == (SerializedConnectionView {
                    from_node: inputs[k as int].1.0 as int,
                    from_slot: "output"@,
                    to_node: to_raw,
                    to_slot: inputs[k as int].0,
                }));
                assert(spec_connections_of_bindings(inputs.take(k as int + 1), to_raw)
                    == spec_connections_of_bindings(inputs.take(k as int), to_raw).push(conn@));
                assert(conn_views(connections@) =~= conns_before + spec_connections_of_bindings(
                    inputs.take(k as int + 1),
                    to_raw,
                ));
            }
            k = k + 1;
        }
        proof {
            let inputs = g@.nodes[i as int].inputs;
            assert(inputs.take(binding_count as int) =~= inputs);
            assert(g@.nodes.take(i as int + 1).drop_last() =~= g@.nodes.take(i as int));
            assert(g@.nodes.take(i as int + 1).last() == g@.nodes[i as int]);
            assert(conn_views(connections@) =~= spec_connections_of(g@.nodes.take(i as int + 1)));
        }
        i = i + 1;
    }
    let r = SerializedGraph { nodes, connections };
    proof {
        assert(g@.nodes.take(node_count as int) =~= g@.nodes);
        assert(r@.nodes =~= spec_serialize_graph(g@).nodes);
        assert(r@.connections =~= conn_views(connections@));
        assert(r@.connections =~= spec_serialize_graph(g@).connections);
        assert(r@ =~~= spec_serialize_graph(g@));
    }
    r
}

impl Document {
    /// Converts the document to its persisted form.
    pub fn serialize(&self) -> (r: SerializedDocument)
        requires
            self.wf(),
        ensures
            r@ == spec_serialize(self@),
    {
        let layer_count = self.layers.len();
        let mut layers: Vec<SerializedLayer> = Vec::new();
        let mut i: usize = 0;
        while i < layer_count
            invariant
                layer_count == self.layers@.len(),
                i <= layer_count,
                layers@.len() == i,
                forall|j: int| 0 <= j < i ==> (#[trigger] layers@[j])@ == spec_serialize_layer(
                    self@.layers[j],
                ),
            decreases layer_count - i,
        {
            proof {
                assert(self@.layers[i as int] == self.layers@[i as int]@);
            }
            let layer = &self.layers[i];
            let graph = serialize_graph(&layer.node_graph);
            let mode_name = layer.blend_mode.name();
            layers.push(
                SerializedLayer {
                    id: layer.id.0,
                    name: layer.name.clone(),
                    visible: layer.visible,
                    opacity: layer.opacity,
                    blend_mode: mode_name.to_owned(),
                    output_node: match layer.output_node {
                        Some(nid) => Some(nid.0),
                        None => None,
                    },
                    node_graph: graph,
                },
            );
            proof {
                assert(layers@[i as int]@ =~~= spec_serialize_layer(self@.layers[i as int]));
            }
            i = i + 1;
        }
        let order_count = self.layer_order.len();
        let mut layer_order: Vec<u64> = Vec::new();
        let mut k: usize = 0;
        while k < order_count
            invariant
                order_count == self.layer_order@.len(),
                k <= order_count,
                layer_order@.len() == k,
                forall|j: int| 0 <= j < k ==> (#[trigger] layer_order@[j]) == self@.layer_order[
                    j].0,
            decreases order_count - k,
        {
            layer_order.push(self.layer_order[k].0);
            k = k + 1;
        }
        let r = SerializedDocument { layers, layer_order };
        proof {
            assert(r@.layers =~~= spec_serialize(self@).layers);
            assert(r@.layer_order =~= spec_serialize(self@).layer_order);
            assert(r@ =~~= spec_serialize(self@));
        }
        r
    }
}

/// The position of the serialized node carrying an identity, if any.
pub open spec fn spos(nodes: Seq<SerializedNodeView>, raw: int) -> Option<int>
    decreases nodes.len(),
{
    if nodes.len() == 0 {
        None
    } else if nodes[0].id == raw {
        Some(0int)
    } else {
        match spos(nodes.drop_first(), raw) {
            Some(p) => Some(p + 1),
            None => None,
        }
    }
}

proof fn lemma_spos_bounds(nodes: Seq<SerializedNodeView>, raw: int)
    ensures
        spos(nodes, raw) matches Some(p) ==> 0 <= p < nodes.len() && nodes[p].id == raw,
    decreases nodes.len(),
{
    if nodes.len() > 0 && nodes[0].id != raw {
        lemma_spos_bounds(nodes.drop_first(), raw);
        if spos(nodes.drop_first(), raw) is Some {
            let p = spos(nodes.drop_first(), raw)->Some_0;
            assert(nodes.drop_first()[p] == nodes[p + 1]);
        }
    }
}

proof fn lemma_spos_skip(nodes: Seq<SerializedNodeView>, raw: int, i: int)
    requires
        0 <= i <= nodes.len(),
        forall|j: int| 0 <= j < i ==> (#[trigger] nodes[j]).id != raw,
    ensures
        spos(nodes, raw) == match spos(nodes.skip(i), raw) {
            Some(p) => Some(p + i),
            None => None::<int>,
        },
    decreases i,
{
    if i == 0 {
        assert(nodes.skip(0) =~= nodes);
        if spos(nodes, raw) is Some {
        }
    } else {
        assert forall|j: int| 0 <= j < i - 1 implies (#[trigger] nodes.drop_first()[j]).id != raw
            by {
            assert(nodes.drop_first()[j] == nodes[j + 1]);
        }
        lemma_spos_skip(nodes.drop_first(), raw, i - 1);
        assert(nodes.drop_first().skip(i - 1) =~= nodes.skip(i));
    }
}

/// The input bindings a node at a position accumulates when the given
/// connections are applied in order to a freshly rebuilt graph whose
/// node at position p carries identity p + 1.
pub open spec fn rebuilt_inputs(
    snodes: Seq<SerializedNodeView>,
    conns: Seq<SerializedConnectionView>,
    j: int,
) -> Seq<(Seq<char>, NodeId)>
    decreases conns.len(),
{
    if conns.len() == 0 {
        Seq::<(Seq<char>, NodeId)>::empty()
    } else {
        let prev = rebuilt_inputs(snodes, conns.drop_last(), j);
        let c = conns.last();
        if spos(snodes, c.to_node) == Some(j) && spos(snodes, c.from_node) is Some {
            spec_bind(prev, c.to_slot, NodeId((spos(snodes, c.from_node)->Some_0 + 1) as u64))
        } else {
            prev
        }
    }
}

/// A connection's producer and consumer under the positional identities
/// reconstruction assigns.
pub open spec fn remapped_edge(
    snodes: Seq<SerializedNodeView>,
    c: SerializedConnectionView,
) -> Edge {
    Edge {
        from: NodeId((spos(snodes, c.from_node)->Some_0 + 1) as u64),
        to: NodeId((spos(snodes, c.to_node)->Some_0 + 1) as u64),
    }
}

/// The edges a connection list yields under the positional remap, in
/// connection order.
pub open spec fn remapped_edges(
    snodes: Seq<SerializedNodeView>,
    conns: Seq<SerializedConnectionView>,
) -> Seq<Edge>
    decreases conns.len(),
{
    if conns.len() == 0 {
        Seq::<Edge>::empty()
    } else {
        remapped_edges(snodes, conns.drop_last()).push(remapped_edge(snodes, conns.last()))
    }
}

/// Every connection names nodes that are present.
pub open spec fn conns_resolved(
    snodes: Seq<SerializedNodeView>,
    conns: Seq<SerializedConnectionView>,
) -> bool {
    forall|k: int|
        0 <= k < conns.len() ==> spos(snodes, (#[trigger] conns[k]).from_node) is Some && spos(
            snodes,
            conns[k].to_node,
        ) is Some
}

/// What the library itself checks of a persisted graph, factories aside:
/// every connection endpoint is present, and the connection list is
/// acyclic under the positional remap.
pub open spec fn spec_graph_accepted(sg: SerializedGraphView) -> bool {
    &&& conns_resolved(sg.nodes, sg.connections)
    &&& acyclic(remapped_edges(sg.nodes, sg.connections))
}

/// Finds the position of a serialized node by identity.
fn find_snode_pos(nodes: &Vec<SerializedNode>, raw: u64) -> (r: Option<usize>)
    ensures
        match r {
            Some(p) => spos(nodes@.map_values(|n: SerializedNode| n@), raw as int) == Some(
                p as int,
            ),
            None => spos(nodes@.map_values(|n: SerializedNode| n@), raw as int) is None,
        },
{
    let ghost mapped = nodes@.map_values(|n: SerializedNode| n@);
    let n = nodes.len();
    let mut i: usize = 0;
    while i < n
        invariant
            n == nodes@.len(),
            i <= n,
            mapped == nodes@.map_values(|n: SerializedNode| n@),
            forall|j: int| 0 <= j < i ==> (#[trigger] mapped[j]).id != raw as int,
        decreases n - i,
    {
        proof {
            assert(mapped[i as int] == nodes@[i as int]@);
        }
        if nodes[i].id == raw {
            proof {
                lemma_spos_skip(mapped, raw as int, i as int);
                assert(mapped.skip(i as int)[0] == mapped[i as int]);
            }
            return Some(i);
        }
        i = i + 1;
    }
    proof {
        lemma_spos_skip(mapped, raw as int, n as int);
        assert(mapped.skip(n as int) =~= Seq::<SerializedNodeView>::empty());
    }
    None
}

/// Rebuilds one graph from its persisted form: every node goes through
/// the registry's validation path under a fresh positional identity, and
/// every connection goes through the graph's own checks.
fn deserialize_graph(data: &SerializedGraph, registry: &NodeRegistry) -> (r: Result<
    NodeGraph,
    DocumentError,
>)
    requires
        registry.wf(),
    ensures
        r matches Ok(g) ==> {
            let sg = data@;
            &&& g@.wf()
            &&& g@.nodes.len() == sg.nodes.len()
            &&& g@.edges == remapped_edges(sg.nodes, sg.connections)
            &&& spec_graph_accepted(sg)
            &&& forall|j: int|
                0 <= j < sg.nodes.len() ==> {
                    &&& (#[trigger] g@.nodes[j]).id == NodeId((j + 1) as u64)
                    &&& g@.nodes[j].kind_name == sg.nodes[j].kind_name
                    &&& g@.nodes[j].parameters == sg.nodes[j].parameters
                    &&& g@.nodes[j].inputs == rebuilt_inputs(sg.nodes, sg.connections, j)
                }
        },
        data@.nodes.len() == 0 && data@.connections.len() == 0 ==> r is Ok,
{
    let ghost snodes = data@.nodes;
    let ghost sconns = data@.connections;
    let mut graph = NodeGraph::new();
    let node_count = data.nodes.len();
    let mut j: usize = 0;
    while j < node_count
        invariant
            registry.wf(),
            node_count == data.nodes@.len(),
            snodes == data@.nodes,
            j <= node_count,
            graph@.wf(),
            graph@.nodes.len() == j,
            graph@.edges.len() == 0,
            graph@.next_id == j + 1,
            forall|p: int|
                0 <= p < j ==> {
                    &&& (#[trigger] graph@.nodes[p]).id == NodeId((p + 1) as u64)
                    &&& graph@.nodes[p].kind_name == snodes[p].kind_name
                    &&& graph@.nodes[p].parameters == snodes[p].parameters
                    &&& graph@.nodes[p].inputs.len() == 0
                },
        decreases node_count - j,
    {
        proof {
            assert(snodes[j as int] == data.nodes@[j as int]@);
        }
        if graph.nodes.len() + 1 >= usize::MAX || graph.next_id == u64::MAX {
            return Err(DocumentError::Other("persisted graph is too large".to_owned()));
        }
        let snode = &data.nodes[j];
        let node = match registry.create_node(snode.kind_name.as_str(), &snode.parameters) {
            Ok(n) => n,
            Err(e) => {
                return Err(DocumentError::NodeError(e));
            },
        };
        graph.add_node(node);
        j = j + 1;
    }
    let conn_count = data.connections.len();
    let mut c: usize = 0;
    proof {
        assert forall|p: int| 0 <= p < node_count implies (#[trigger] graph@.nodes[p]).inputs
            == rebuilt_inputs(snodes, sconns.take(0), p) by {
            assert(sconns.take(0) =~= Seq::<SerializedConnectionView>::empty());
            assert(graph@.nodes[p].inputs =~= Seq::<(Seq<char>, NodeId)>::empty());
        }
        assert(sconns.take(0) =~= Seq::<SerializedConnectionView>::empty());
        assert(graph@.edges =~= remapped_edges(snodes, sconns.take(0)));
    }
    while c < conn_count
        invariant
            conn_count == data.connections@.len(),
            snodes == data@.nodes,
            sconns == data@.connections,
            node_count == snodes.len(),
            c <= conn_count,
            graph@.wf(),
            graph@.nodes.len() == node_count,
            graph@.edges == remapped_edges(snodes, sconns.take(c as int)),
            forall|kk: int|
                0 <= kk < c ==> spos(snodes, (#[trigger] sconns[kk]).from_node) is Some && spos(
                    snodes,
                    sconns[kk].to_node,
                ) is Some,
            forall|p: int|
                0 <= p < node_count ==> {
                    &&& (#[trigger] graph@.nodes[p]).id == NodeId((p + 1) as u64)
                    &&& graph@.nodes[p].kind_name == snodes[p].kind_name
                    &&& graph@.nodes[p].parameters == snodes[p].parameters
                    &&& graph@.nodes[p].inputs == rebuilt_inputs(snodes, sconns.take(c as int), p)
                },
        decreases conn_count - c,
    {
        proof {
            assert(sconns[c as int] == data.connections@[c as int]@);
        }
        let sconn = &data.connections[c];
        let from_pos = match find_snode_pos(&data.nodes, sconn.from_node) {
            Some(p) => p,
            None => {
                return Err(
                    DocumentError::Other("a connection names an unknown producer".to_owned()),
                );
            },
        };
        let to_pos = match find_snode_pos(&data.nodes, sconn.to_node) {
            Some(p) => p,
            None => {
                return Err(
                    DocumentError::Other("a connection names an unknown consumer".to_owned()),
                );
            },
        };
        proof {
            lemma_spos_bounds(snodes, sconn.from_node as int);
            lemma_spos_bounds(snodes, sconn.to_node as int);
            assert(from_pos < node_count);
            assert(to_pos < node_count);
            assert(graph@.nodes.len() < usize::MAX);
        }
        let from_id = NodeId((from_pos as u64) + 1);
        let to_id = NodeId((to_pos as u64) + 1);
        let ghost pre_nodes = graph@.nodes;
        proof {
            crate::graph::lemma_find_node_exists(graph@.nodes, from_id);
            crate::graph::lemma_find_node_exists(graph@.nodes, to_id);
        }
        match graph.connect(&from_id, &to_id, sconn.to_slot.as_str()) {
            Ok(()) => {},
            Err(e) => {
                return Err(DocumentError::NodeError(e));
            },
        }
        proof {
            assert(remapped_edge(snodes, sconns[c as int]) == (Edge { from: from_id, to: to_id }));
            assert(sconns.take(c as int + 1).drop_last() =~= sconns.take(c as int));
            assert(sconns.take(c as int + 1).last() == sconns[c as int]);
            assert(graph@.edges == remapped_edges(snodes, sconns.take(c as int + 1)));
            let bound = crate::graph::bind_consumer(pre_nodes, to_id, sconns[c as int].to_slot,
            from_id);
            assert(graph@.nodes == bound);
            assert forall|p: int| 0 <= p < node_count implies (#[trigger] graph@.nodes[p]).id
                == NodeId((p + 1) as u64) && graph@.nodes[p].kind_name == snodes[p].kind_name
                && graph@.nodes[p].parameters == snodes[p].parameters && graph@.nodes[p].inputs
                == rebuilt_inputs(snodes, sconns.take(c as int + 1), p) by {
                assert(bound[p] == if pre_nodes[p].id == to_id {
                    NodeView {
                        id: pre_nodes[p].id,
                        data: pre_nodes[p].data,
                        kind_name: pre_nodes[p].kind_name,
                        parameters: pre_nodes[p].parameters,
                        inputs: spec_bind(pre_nodes[p].inputs, sconns[c as int].to_slot, from_id),
                    }
                } else {
                    pre_nodes[p]
                });
                assert(sconns.take(c as int + 1).drop_last() =~= sconns.take(c as int));
                assert(sconns.take(c as int + 1).last() == sconns[c as int]);
                if p == to_pos as int {
                    assert(pre_nodes[p].id == to_id);
                    assert(spos(snodes, sconns[c as int].to_node) == Some(p));
                } else {
                    assert(pre_nodes[p].id != to_id);
                    assert(spos(snodes, sconns[c as int].to_node) != Some(p));
                }
            }
        }
        c = c + 1;
    }
    proof {
        assert(sconns.take(conn_count as int) =~= sconns);
        assert(spec_graph_accepted(data@));
    }
    Ok(graph)
}

/// A persisted document the library can rebuild without consulting any
/// factory: every graph is empty, every blend mode parses, no layer
/// designates an output node, identities are distinct and below the
/// counter limit, and the order is a permutation of the layer list.
pub open spec fn spec_factory_free(sd: SerializedDocumentView) -> bool {
    &&& forall|i: int|
        0 <= i < sd.layers.len() ==> {
            let sl = #[trigger] sd.layers[i];
            &&& sl.node_graph.nodes.len() == 0
            &&& sl.node_graph.connections.len() == 0
            &&& spec_parse_mode(sl.blend_mode) is Some
            &&& sl.output_node is None
            &&& 0 <= sl.id < u64::MAX
        }
    &&& forall|i: int, j: int|
        0 <= i < j < sd.layers.len() ==> (#[trigger] sd.layers[i]).id != (
        #[trigger] sd.layers[j]).id
    &&& sd.layer_order.len() == sd.layers.len()
    &&& forall|p: int, q: int|
        0 <= p < q < sd.layer_order.len() ==> (#[trigger] sd.layer_order[p]) != (
        #[trigger] sd.layer_order[q])
    &&& sd_order_covered(sd)
    &&& sd_layers_covered(sd)
}

/// Whether some persisted layer carries the identity.
pub open spec fn sd_has_layer_id(sd: SerializedDocumentView, raw: int) -> bool {
    exists|i: int| 0 <= i < sd.layers.len() && (#[trigger] sd.layers[i]).id == raw
}

/// Whether the persisted order holds the identity.
pub open spec fn sd_order_has(sd: SerializedDocumentView, raw: int) -> bool {
    exists|k: int| 0 <= k < sd.layer_order.len() && (#[trigger] sd.layer_order[k]) == raw
}

/// Every entry of the persisted order names some persisted layer.
pub open spec fn sd_order_covered(sd: SerializedDocumentView) -> bool {
    forall|k: int|
        0 <= k < sd.layer_order.len() ==> sd_has_layer_id(sd, #[trigger] sd.layer_order[k])
}

/// Every persisted layer appears in the persisted order.
pub open spec fn sd_layers_covered(sd: SerializedDocumentView) -> bool {
    forall|i: int|
        0 <= i < sd.layers.len() ==> sd_order_has(sd, (#[trigger] sd.layers[i]).id)
}

/// The rebuilt layers carry the persisted identities, position by
/// position.
pub open spec fn built_id_links(views: Seq<LayerView>, sd: SerializedDocumentView) -> bool {
    &&& views.len() == sd.layers.len()
    &&& forall|x: int|
        0 <= x < views.len() ==> (#[trigger] views[x]).id.0 as int == sd.layers[x].id
}

/// The rebuilt order carries the persisted order, position by position.
pub open spec fn order_id_links(order: Seq<LayerId>, sd: SerializedDocumentView) -> bool {
    &&& order.len() == sd.layer_order.len()
    &&& forall|p: int| 0 <= p < order.len() ==> (#[trigger] order[p]).0 as int == sd.layer_order[p]
}

impl Document {
    /// Rebuilds a document from its persisted form.  Every node is routed
    /// through the registry's validation path; every connection is
    /// re-checked by the graph, so a cyclic persisted graph is rejected
    /// with the same error interactive editing produces; the layer order
    /// and layer identities are restored verbatim and re-validated.
    /// Node identities are reassigned positionally: the node at position
    /// p of a persisted graph comes back with identity p + 1.
    pub fn deserialize(data: &SerializedDocument, registry: &NodeRegistry) -> (r: Result<
        Document,
        DocumentError,
    >)
        requires
            registry.wf(),
        ensures
            r matches Ok(doc) ==> {
                let sd = data@;
                &&& doc.wf()
                &&& doc.history.commands@.len() == 0
                &&& doc.history.current_index == 0
                &&& doc@.layer_order.len() == sd.layer_order.len()
                &&& forall|k: int|
                    0 <= k < sd.layer_order.len() ==> (#[trigger] doc@.layer_order[k]).0 as int
                        == sd.layer_order[k]
                &&& doc@.layers.len() == sd.layers.len()
                &&& forall|i: int|
                    0 <= i < sd.layers.len() ==> {
                        let sl = sd.layers[i];
                        let l = #[trigger] doc@.layers[i];
                        &&& l.id.0 as int == sl.id
                        &&& l.name == sl.name
                        &&& l.visible == sl.visible
                        &&& l.opacity == sl.opacity
                        &&& spec_parse_mode(sl.blend_mode) == Some(l.blend_mode)
                        &&& (match sl.output_node {
                            None => l.output_node is None,
                            Some(raw) => spos(sl.node_graph.nodes, raw) matches Some(p)
                                && l.output_node == Some(NodeId((p + 1) as u64)),
                        })
                        &&& spec_graph_accepted(sl.node_graph)
                        &&& l.graph.nodes.len() == sl.node_graph.nodes.len()
                        &&& forall|j: int|
                            0 <= j < sl.node_graph.nodes.len() ==> {
                                &&& (#[trigger] l.graph.nodes[j]).id == NodeId((j + 1) as u64)
                                &&& l.graph.nodes[j].kind_name == sl.node_graph.nodes[j].kind_name
                                &&& l.graph.nodes[j].parameters
                                    == sl.node_graph.nodes[j].parameters
                                &&& l.graph.nodes[j].inputs == rebuilt_inputs(
                                    sl.node_graph.nodes,
                                    sl.node_graph.connections,
                                    j,
                                )
                            }
                    }
            },
            (exists|i: int|
                0 <= i < data@.layers.len() && spec_parse_mode(
                    (#[trigger] data@.layers[i]).blend_mode,
                ) is None) ==> r is Err,
            (exists|i: int, j: int|
                0 <= i < j < data@.layers.len() && (#[trigger] data@.layers[i]).id == (
                #[trigger] data@.layers[j]).id) ==> r is Err,
            data@.layer_order.len() != data@.layers.len() ==> r is Err,
            (exists|p: int, q: int|
                0 <= p < q < data@.layer_order.len() && (#[trigger] data@.layer_order[p]) == (
                #[trigger] data@.layer_order[q])) ==> r is Err,
            !sd_order_covered(data@) ==> r is Err,
            !sd_layers_covered(data@) ==> r is Err,
            (exists|i: int|
                0 <= i < data@.layers.len() && !spec_graph_accepted(
                    (#[trigger] data@.layers[i]).node_graph,
                )) ==> r is Err,
            (exists|i: int|
                0 <= i < data@.layers.len() && ((#[trigger] data@.layers[i]).output_node matches
                Some(raw) && spos(data@.layers[i].node_graph.nodes, raw) is None)) ==> r is Err,
            spec_factory_free(data@) ==> r is Ok,
    {
        let ghost sd = data@;
        let layer_count = data.layers.len();
        let mut layers: Vec<Layer> = Vec::new();
        let mut i: usize = 0;
        while i < layer_count
            invariant
                registry.wf(),
                layer_count == data.layers@.len(),
                sd == data@,
                i <= layer_count,
                layers@.len() == i,
                forall|x: int|
                    0 <= x < i ==> {
                        let sl = sd.layers[x];
                        let l = (#[trigger] layers@[x])@;
                        &&& l.wf()
                        &&& spec_graph_accepted(sl.node_graph)
                        &&& l.id.0 as int == sl.id
                        &&& l.name == sl.name
                        &&& l.visible == sl.visible
                        &&& l.opacity == sl.opacity
                        &&& spec_parse_mode(sl.blend_mode) == Some(l.blend_mode)
                        &&& (match sl.output_node {
                            None => l.output_node is None,
                            Some(raw) => spos(sl.node_graph.nodes, raw) matches Some(p)
                                && l.output_node == Some(NodeId((p + 1) as u64)),
                        })
                        &&& l.graph.nodes.len() == sl.node_graph.nodes.len()
                        &&& forall|j: int|
                            0 <= j < sl.node_graph.nodes.len() ==> {
                                &&& (#[trigger] l.graph.nodes[j]).id == NodeId((j + 1) as u64)
                                &&& l.graph.nodes[j].kind_name == sl.node_graph.nodes[j].kind_name
                                &&& l.graph.nodes[j].parameters
                                    == sl.node_graph.nodes[j].parameters
                                &&& l.graph.nodes[j].inputs == rebuilt_inputs(
                                    sl.node_graph.nodes,
                                    sl.node_graph.connections,
                                    j,
                                )
                            }
                    },
            decreases layer_count - i,
        {
            proof {
                assert(sd.layers[i as int] == data.layers@[i as int]@);
            }
            let slayer = &data.layers[i];
            let mode = match BlendMode::parse(&slayer.blend_mode) {
                Some(m) => m,
                None => {
                    proof {
                        if spec_factory_free(sd) {
                            assert(spec_parse_mode(sd.layers[i as int].blend_mode) is Some);
                            assert(false);
                        }
                    }
                    return Err(DocumentError::Other("unknown blend mode name".to_owned()));
                },
            };
            let graph = match deserialize_graph(&slayer.node_graph, registry) {
                Ok(g) => g,
                Err(e) => {
                    proof {
                        if spec_factory_free(sd) {
                            assert(sd.layers[i as int].node_graph.nodes.len() == 0
                                && sd.layers[i as int].node_graph.connections.len() == 0);
                            assert(false);
                        }
                    }
                    return Err(e);
                },
            };
            let output_node = match slayer.output_node {
                None => None,
                Some(raw) => match find_snode_pos(&slayer.node_graph.nodes, raw) {
                    Some(p) => {
                        proof {
                            lemma_spos_bounds(sd.layers[i as int].node_graph.nodes, raw as int);
                            assert(p < graph@.nodes.len());
                            assert(graph@.nodes.len() < usize::MAX);
                        }
                        Some(NodeId((p as u64) + 1))
                    },
                    None => {
                        proof {
                            if spec_factory_free(sd) {
                                assert(sd.layers[i as int].output_node == Some(raw as int));
                                assert(false);
                            }
                        }
                        return Err(
                            DocumentError::Other(
                                "the designated output node is not in the graph".to_owned(),
                            ),
                        );
                    },
                },
            };
            let layer = Layer {
                id: LayerId(slayer.id),
                name: slayer.name.clone(),
                visible: slayer.visible,
                opacity: slayer.opacity,
                blend_mode: mode,
                node_graph: graph,
                output_node,
            };
            layers.push(layer);
            i = i + 1;
        }
        // Re-validate the restored identities: the arena must be free of
        // duplicates and the order must be a permutation of it.
        let ghost layer_views = layers@.map_values(|l: Layer| l@);
        proof {
            assert forall|x: int| 0 <= x < layer_count implies (#[trigger] layer_views[x]).id.0
                as int == sd.layers[x].id by {
                assert(layer_views[x] == layers@[x]@);
            }
        }
        let mut a: usize = 0;
        while a < layer_count
            invariant
                layer_count == layers@.len(),
                sd == data@,
                layer_views == layers@.map_values(|l: Layer| l@),
                built_id_links(layer_views, sd),
                a <= layer_count,
                forall|p: int, q: int|
                    0 <= p < q < layer_count && p < a ==> (#[trigger] layers@[p])@.id != (
                    #[trigger] layers@[q])@.id,
            decreases layer_count - a,
        {
            let mut b: usize = a + 1;
            while b < layer_count
                invariant
                    layer_count == layers@.len(),
                    sd == data@,
                    layer_views == layers@.map_values(|l: Layer| l@),
                    built_id_links(layer_views, sd),
                    a < layer_count || a == layer_count,
                    a < b || b == a + 1,
                    b <= layer_count,
                    a <= layer_count,
                    forall|p: int, q: int|
                        0 <= p < q < layer_count && p < a ==> (#[trigger] layers@[p])@.id != (
                        #[trigger] layers@[q])@.id,
                    forall|q: int|
                        a < q < b ==> (#[trigger] layers@[q])@.id != layers@[a as int]@.id,
                decreases layer_count - b,
            {
                if layers[a].id.0 == layers[b].id.0 {
                    proof {
                        if spec_factory_free(sd) {
                            assert(layer_views[a as int] == layers@[a as int]@);
                            assert(layer_views[b as int] == layers@[b as int]@);
                            assert(sd.layers[a as int].id != sd.layers[b as int].id);
                            assert(false);
                        }
                    }
                    return Err(DocumentError::Other("duplicate layer identity".to_owned()));
                }
                b = b + 1;
            }
            a = a + 1;
        }
        if data.layer_order.len() != layer_count {
            proof {
                if spec_factory_free(sd) {
                    assert(sd.layer_order.len() == data.layer_order@.len());
                    assert(false);
                }
            }
            return Err(
                DocumentError::Other("layer order does not cover the layer set".to_owned()),
            );
        }
        let mut layer_order: Vec<LayerId> = Vec::new();
        let mut k: usize = 0;
        while k < layer_count
            invariant
                layer_count == data.layer_order@.len(),
                sd == data@,
                k <= layer_count,
                layer_order@.len() == k,
                forall|p: int|
                    0 <= p < k ==> (#[trigger] layer_order@[p]).0 == data.layer_order@[p],
            decreases layer_count - k,
        {
            layer_order.push(LayerId(data.layer_order[k]));
            k = k + 1;
        }
        // The order must itself be duplicate-free ...
        let mut a2: usize = 0;
        proof {
            assert forall|p: int| 0 <= p < layer_count implies (#[trigger] layer_order@[p]).0
                as int == sd.layer_order[p] by {
                assert(sd.layer_order[p] == data.layer_order@[p] as int);
            }
        }
        while a2 < layer_count
            invariant
                layer_count == layer_order@.len(),
                sd == data@,
                order_id_links(layer_order@, sd),
                a2 <= layer_count,
                forall|p: int, q: int|
                    0 <= p < q < layer_count && p < a2 ==> (#[trigger] layer_order@[p]) != (
                    #[trigger] layer_order@[q]),
            decreases layer_count - a2,
        {
            let mut b2: usize = a2 + 1;
            while b2 < layer_count
                invariant
                    layer_count == layer_order@.len(),
                    sd == data@,
                    order_id_links(layer_order@, sd),
                    b2 <= layer_count,
                    a2 < b2 || b2 == a2 + 1,
                    a2 <= layer_count,
                    forall|p: int, q: int|
                        0 <= p < q < layer_count && p < a2 ==> (#[trigger] layer_order@[p]) != (
                        #[trigger] layer_order@[q]),
                    forall|q: int|
                        a2 < q < b2 ==> (#[trigger] layer_order@[q]) != layer_order@[a2 as int],
                decreases layer_count - b2,
            {
                if layer_order[a2].0 == layer_order[b2].0 {
                    proof {
                        if spec_factory_free(sd) {
                            assert(sd.layer_order[a2 as int] != sd.layer_order[b2 as int]);
                            assert(false);
                        }
                    }
                    return Err(DocumentError::Other("duplicate layer order entry".to_owned()));
                }
                b2 = b2 + 1;
            }
            a2 = a2 + 1;
        }
        // ... and each direction of the permutation must close.
        let mut k2: usize = 0;
        while k2 < layer_count
            invariant
                layer_count == layer_order@.len(),
                layer_count == layers@.len(),
                sd == data@,
                layer_views == layers@.map_values(|l: Layer| l@),
                built_id_links(layer_views, sd),
                order_id_links(layer_order@, sd),
                k2 <= layer_count,
                forall|p: int|
                    0 <= p < k2 ==> id_present(layer_views, #[trigger] layer_order@[p]),
            decreases layer_count - k2,
        {
            let mut w: usize = 0;
            let mut seen = false;
            while w < layer_count
                invariant
                    layer_count == layers@.len(),
                    layer_views == layers@.map_values(|l: Layer| l@),
                    k2 < layer_count || k2 == layer_count,
                    k2 < layer_order@.len(),
                    w <= layer_count,
                    seen ==> id_present(layer_views, layer_order@[k2 as int]),
                    !seen ==> forall|x: int|
                        0 <= x < w ==> (#[trigger] layer_views[x]).id.0 != layer_order@[
                        k2 as int].0,
                decreases layer_count - w,
            {
                proof {
                    assert(layer_views[w as int] == layers@[w as int]@);
                }
                if layers[w].id.0 == layer_order[k2].0 {
                    seen = true;
                }
                w = w + 1;
            }
            if !seen {
                proof {
                    if spec_factory_free(sd) {
                        assert(sd_order_covered(sd));
                        assert(0 <= (k2 as int) && (k2 as int) < sd.layer_order.len());
                        assert(sd_has_layer_id(sd, sd.layer_order[k2 as int]));
                        let ii = choose|ii: int|
                            0 <= ii < sd.layers.len() && (#[trigger] sd.layers[ii]).id
                                == sd.layer_order[k2 as int];
                        assert(layer_views[ii].id.0 as int == sd.layers[ii].id);
                        assert(layer_order@[k2 as int].0 as int == sd.layer_order[k2 as int]);
                        assert(layer_views[ii].id.0 == layer_order@[k2 as int].0);
                        assert(false);
                    }
                }
                return Err(
                    DocumentError::Other("layer order names an unknown layer".to_owned()),
                );
            }
            k2 = k2 + 1;
        }
        let mut k3: usize = 0;
        while k3 < layer_count
            invariant
                layer_count == layer_order@.len(),
                layer_count == layers@.len(),
                sd == data@,
                layer_views == layers@.map_values(|l: Layer| l@),
                built_id_links(layer_views, sd),
                order_id_links(layer_order@, sd),
                k3 <= layer_count,
                forall|p: int|
                    0 <= p < k3 ==> layer_order@.contains((#[trigger] layer_views[p]).id),
            decreases layer_count - k3,
        {
            let mut w: usize = 0;
            let mut seen = false;
            while w < layer_count
                invariant
                    layer_count == layers@.len(),
                    layer_count == layer_order@.len(),
                    layer_views == layers@.map_values(|l: Layer| l@),
                    k3 < layer_count,
                    w <= layer_count,
                    seen ==> layer_order@.contains(layer_views[k3 as int].id),
                    !seen ==> forall|x: int|
                        0 <= x < w ==> (#[trigger] layer_order@[x]).0 != layer_views[
                        k3 as int].id.0,
                decreases layer_count - w,
            {
                proof {
                    assert(layer_views[k3 as int] == layers@[k3 as int]@);
                }
                if layer_order[w].0 == layers[k3].id.0 {
                    proof {
                        assert(layer_order@[w as int] == layer_views[k3 as int].id);
                    }
                    seen = true;
                }
                w = w + 1;
            }
            if !seen {
                proof {
                    if spec_factory_free(sd) {
                        assert(sd_layers_covered(sd));
                        assert(0 <= (k3 as int) && (k3 as int) < sd.layers.len());
                        assert(sd_order_has(sd, sd.layers[k3 as int].id));
                        let kk = choose|kk: int|
                            0 <= kk < sd.layer_order.len() && (#[trigger] sd.layer_order[kk]) == (
                            sd.layers[k3 as int].id);
                        assert(layer_order@[kk].0 as int == sd.layer_order[kk]);
                        assert(layer_views[k3 as int].id.0 as int == sd.layers[k3 as int].id);
                        assert(layer_order@[kk].0 == layer_views[k3 as int].id.0);
                        assert(false);
                    }
                }
                return Err(
                    DocumentError::Other("a layer is missing from the layer order".to_owned()),
                );
            }
            k3 = k3 + 1;
        }
        // A fresh counter above every restored identity.
        let mut highest: u64 = 0;
        let mut k4: usize = 0;
        while k4 < layer_count
            invariant
                layer_count == layers@.len(),
                sd == data@,
                layer_views == layers@.map_values(|l: Layer| l@),
                built_id_links(layer_views, sd),
                k4 <= layer_count,
                forall|p: int| 0 <= p < k4 ==> (#[trigger] layer_views[p]).id.0 <= highest,
                highest == 0 || (exists|p: int|
                    0 <= p < k4 && (#[trigger] layer_views[p]).id.0 == highest),
            decreases layer_count - k4,
        {
            proof {
                assert(layer_views[k4 as int] == layers@[k4 as int]@);
            }
            if layers[k4].id.0 > highest {
                highest = layers[k4].id.0;
            }
            k4 = k4 + 1;
        }
        if highest == u64::MAX {
            proof {
                if spec_factory_free(sd) {
                    let p = choose|p: int|
                        0 <= p < layer_count && (#[trigger] layer_views[p]).id.0 == highest;
                    assert(layer_views[p].id.0 as int == sd.layers[p].id);
                    assert(sd.layers[p].id < u64::MAX);
                    assert(false);
                }
            }
            return Err(DocumentError::Other("layer identity space exhausted".to_owned()));
        }
        let doc = Document {
            layers,
            layer_order,
            history: History::new(),
            next_layer_id: highest + 1,
        };
        proof {
            // The library-side rejections did not fire: derive the
            // negation of each rejection premise from the checks above.
            assert forall|x: int| 0 <= x < sd.layers.len() implies {
                let sl = #[trigger] sd.layers[x];
                &&& spec_parse_mode(sl.blend_mode) is Some
                &&& spec_graph_accepted(sl.node_graph)
                &&& (sl.output_node matches Some(raw) ==> spos(sl.node_graph.nodes, raw) is Some)
            } by {
                assert(layers@[x]@ == layer_views[x]);
            }
            assert forall|p: int, q: int|
                0 <= p < q < sd.layers.len() implies (#[trigger] sd.layers[p]).id != (
            #[trigger] sd.layers[q]).id by {
                assert(layer_views[p] == layers@[p]@);
                assert(layer_views[q] == layers@[q]@);
                assert(layers@[p]@.id != layers@[q]@.id);
            }
            assert forall|p: int, q: int|
                0 <= p < q < sd.layer_order.len() implies (#[trigger] sd.layer_order[p]) != (
            #[trigger] sd.layer_order[q]) by {
                assert(layer_order@[p] != layer_order@[q]);
            }
            assert forall|k: int| 0 <= k < sd.layer_order.len() implies sd_has_layer_id(
                sd,
                #[trigger] sd.layer_order[k],
            ) by {
                assert(id_present(layer_views, layer_order@[k]));
                let w = choose|w: int|
                    0 <= w < layer_views.len() && (#[trigger] layer_views[w]).id == layer_order@[k];
                assert(sd.layers[w].id == sd.layer_order[k]);
            }
            assert(sd_order_covered(sd));
            assert forall|i: int| 0 <= i < sd.layers.len() implies sd_order_has(
                sd,
                (#[trigger] sd.layers[i]).id,
            ) by {
                assert(layer_order@.contains(layer_views[i].id));
                let w = choose|w: int|
                    0 <= w < layer_order@.len() && layer_order@[w] == layer_views[i].id;
                assert(layer_order@[w].0 as int == sd.layer_order[w]);
                assert(sd.layer_order[w] == sd.layers[i].id);
            }
            assert(sd_layers_covered(sd));
            assert(doc@.layers == layer_views);
            assert forall|p: int, q: int|
                0 <= p < q < doc@.layers.len() implies (#[trigger] doc@.layers[p]).id != (
            #[trigger] doc@.layers[q]).id by {}
            assert forall|x: int| 0 <= x < doc@.layers.len() implies (#[trigger] doc@.layers[x]).wf()
                && doc@.layers[x].id.0 < doc@.next_layer_id by {}
            assert forall|k: int| 0 <= k < doc@.layer_order.len() implies
                crate::document::has_layer(doc@.layers, #[trigger] doc@.layer_order[k]) by {
                assert(id_present(layer_views, doc@.layer_order[k]));
                crate::document::lemma_find_layer_exists(doc@.layers, doc@.layer_order[k]);
            }
        }
        Ok(doc)
    }
}

/// Whether some arena entry carries the identity.
pub open spec fn id_present(layers: Seq<LayerView>, id: LayerId) -> bool {
    exists|w: int| 0 <= w < layers.len() && (#[trigger] layers[w]).id == id
}

/// The reconstruction relation: what `deserialize` promises of any
/// document it returns, stated of the persisted form it was given.
pub open spec fn reconstruction_matches(sd: SerializedDocumentView, doc: DocumentView) -> bool {
    &&& doc.layer_order.len() == sd.layer_order.len()
    &&& forall|k: int|
        0 <= k < sd.layer_order.len() ==> (#[trigger] doc.layer_order[k]).0 as int
            == sd.layer_order[k]
    &&& doc.layers.len() == sd.layers.len()
    &&& forall|i: int|
        0 <= i < sd.layers.len() ==> {
            let sl = sd.layers[i];
            let l = #[trigger] doc.layers[i];
            &&& l.id.0 as int == sl.id
            &&& l.name == sl.name
            &&& l.visible == sl.visible
            &&& l.opacity == sl.opacity
            &&& spec_parse_mode(sl.blend_mode) == Some(l.blend_mode)
            &&& l.graph.nodes.len() == sl.node_graph.nodes.len()
            &&& forall|j: int|
                0 <= j < sl.node_graph.nodes.len() ==> {
                    &&& (#[trigger] l.graph.nodes[j]).id == NodeId((j + 1) as u64)
                    &&& l.graph.nodes[j].kind_name == sl.node_graph.nodes[j].kind_name
                    &&& l.graph.nodes[j].parameters == sl.node_graph.nodes[j].parameters
                    &&& l.graph.nodes[j].inputs == rebuilt_inputs(
                        sl.node_graph.nodes,
                        sl.node_graph.connections,
                        j,
                    )
                }
        }
}

/// A binding list whose producers are all present in the node list, with
/// no name bound twice.
pub open spec fn bindings_resolved(nodes: Seq<NodeView>, inputs: Seq<(Seq<char>, NodeId)>) -> bool {
    &&& forall|k: int|
        0 <= k < inputs.len() ==> crate::graph::has_node(nodes, (#[trigger] inputs[k]).1)
    &&& forall|p: int, q: int| 0 <= p < q < inputs.len() ==> (#[trigger] inputs[p]).0 != (
    #[trigger] inputs[q]).0
}

/// A binding with its producer identity remapped to the position the
/// producer comes back under after a round trip.
pub open spec fn remap_binding(
    snodes: Seq<SerializedNodeView>,
    b: (Seq<char>, NodeId),
) -> (Seq<char>, NodeId) {
    (b.0, NodeId((spos(snodes, b.1.0 as int)->Some_0 + 1) as u64))
}

/// Serialized node p of a graph with unique node identities is found at
/// its own position.
proof fn lemma_spos_of_serialized(nodes: Seq<NodeView>, p: int)
    requires
        forall|a: int, b: int| 0 <= a < b < nodes.len() ==> (#[trigger] nodes[a]).id != (
        #[trigger] nodes[b]).id,
        0 <= p < nodes.len(),
    ensures
        spos(nodes.map_values(|n: NodeView| spec_serialize_node(n)), nodes[p].id.0 as int) == Some(
            p,
        ),
    decreases p,
{
    let ser = nodes.map_values(|n: NodeView| spec_serialize_node(n));
    if p == 0 {
        assert(ser[0].id == nodes[0].id.0 as int);
    } else {
        assert(ser[0].id == nodes[0].id.0 as int);
        assert(nodes[0].id != nodes[p].id);
        assert(nodes[0].id.0 != nodes[p].id.0);
        assert forall|a: int, b: int|
            0 <= a < b < nodes.drop_first().len() implies (#[trigger] nodes.drop_first()[a]).id
            != (#[trigger] nodes.drop_first()[b]).id by {
            assert(nodes.drop_first()[a] == nodes[a + 1]);
            assert(nodes.drop_first()[b] == nodes[b + 1]);
        }
        lemma_spos_of_serialized(nodes.drop_first(), p - 1);
        assert(nodes.drop_first().map_values(|n: NodeView| spec_serialize_node(n))
            =~= ser.drop_first());
        assert(nodes.drop_first()[p - 1] == nodes[p]);
    }
}

/// Connections that never target position j leave its rebuilt bindings
/// unchanged.
proof fn lemma_rebuilt_skips(
    snodes: Seq<SerializedNodeView>,
    prefix: Seq<SerializedConnectionView>,
    cs: Seq<SerializedConnectionView>,
    j: int,
)
    requires
        forall|k: int| 0 <= k < cs.len() ==> spos(snodes, (#[trigger] cs[k]).to_node) != Some(j),
    ensures
        rebuilt_inputs(snodes, prefix + cs, j) == rebuilt_inputs(snodes, prefix, j),
    decreases cs.len(),
{
    if cs.len() == 0 {
        assert(prefix + cs =~= prefix);
    } else {
        assert(prefix + cs.drop_last() =~= (prefix + cs).drop_last());
        assert((prefix + cs).last() == cs.last());
        lemma_rebuilt_skips(snodes, prefix, cs.drop_last(), j);
    }
}

/// Folding a node's own serialized connections from an empty binding
/// list rebuilds exactly its bindings, producers remapped positionally.
proof fn lemma_rebuilt_own(
    snodes: Seq<SerializedNodeView>,
    prefix: Seq<SerializedConnectionView>,
    inputs: Seq<(Seq<char>, NodeId)>,
    to_raw: int,
    j: int,
)
    requires
        rebuilt_inputs(snodes, prefix, j) == inputs.map_values(
            |b: (Seq<char>, NodeId)| remap_binding(snodes, b),
        ).take(0),
        spos(snodes, to_raw) == Some(j),
        forall|p: int, q: int| 0 <= p < q < inputs.len() ==> (#[trigger] inputs[p]).0 != (
        #[trigger] inputs[q]).0,
        forall|k: int|
            0 <= k < inputs.len() ==> spos(snodes, ((#[trigger] inputs[k]).1.0) as int) is Some,
    ensures
        rebuilt_inputs(snodes, prefix + spec_connections_of_bindings(inputs, to_raw), j)
            == inputs.map_values(|b: (Seq<char>, NodeId)| remap_binding(snodes, b)),
{
    lemma_rebuilt_own_step(snodes, prefix, inputs, to_raw, j, inputs.len() as int);
    assert(inputs.map_values(|b: (Seq<char>, NodeId)| remap_binding(snodes, b)).take(
        inputs.len() as int,
    ) =~= inputs.map_values(|b: (Seq<char>, NodeId)| remap_binding(snodes, b)));
    assert(spec_connections_of_bindings(inputs.take(inputs.len() as int), to_raw)
        == spec_connections_of_bindings(inputs, to_raw)) by {
        assert(inputs.take(inputs.len() as int) =~= inputs);
    }
}

/// Induction step for the rebuild-own lemma, over the first m bindings.
proof fn lemma_rebuilt_own_step(
    snodes: Seq<SerializedNodeView>,
    prefix: Seq<SerializedConnectionView>,
    inputs: Seq<(Seq<char>, NodeId)>,
    to_raw: int,
    j: int,
    m: int,
)
    requires
        0 <= m <= inputs.len(),
        rebuilt_inputs(snodes, prefix, j) == inputs.map_values(
            |b: (Seq<char>, NodeId)| remap_binding(snodes, b),
        ).take(0),
        spos(snodes, to_raw) == Some(j),
        forall|p: int, q: int| 0 <= p < q < inputs.len() ==> (#[trigger] inputs[p]).0 != (
        #[trigger] inputs[q]).0,
        forall|k: int|
            0 <= k < inputs.len() ==> spos(snodes, ((#[trigger] inputs[k]).1.0) as int) is Some,
    ensures
        rebuilt_inputs(snodes, prefix + spec_connections_of_bindings(inputs.take(m), to_raw), j)
            == inputs.map_values(|b: (Seq<char>, NodeId)| remap_binding(snodes, b)).take(m),
    decreases m,
{
    let mapped = inputs.map_values(|b: (Seq<char>, NodeId)| remap_binding(snodes, b));
    if m == 0 {
        assert(spec_connections_of_bindings(inputs.take(0), to_raw)
            =~= Seq::<SerializedConnectionView>::empty()) by {
            assert(inputs.take(0) =~= Seq::<(Seq<char>, NodeId)>::empty());
        }
        assert(prefix + spec_connections_of_bindings(inputs.take(0), to_raw) =~= prefix);
    } else {
        lemma_rebuilt_own_step(snodes, prefix, inputs, to_raw, j, m - 1);
        assert(inputs.take(m).drop_last() =~= inputs.take(m - 1));
        assert(inputs.take(m).last() == inputs[m - 1]);
        let conns_m = spec_connections_of_bindings(inputs.take(m), to_raw);
        let conns_m1 = spec_connections_of_bindings(inputs.take(m - 1), to_raw);
        let c = SerializedConnectionView {
            from_node: inputs[m - 1].1.0 as int,
            from_slot: "output"@,
            to_node: to_raw,
            to_slot: inputs[m - 1].0,
        };
        assert(conns_m == conns_m1.push(c));
        assert(prefix + conns_m =~= (prefix + conns_m1).push(c));
        assert((prefix + conns_m1).push(c).drop_last() =~= prefix + conns_m1);
        assert((prefix + conns_m1).push(c).last() == c);
        assert(rebuilt_inputs(snodes, prefix + conns_m, j) == spec_bind(
            rebuilt_inputs(snodes, prefix + conns_m1, j),
            c.to_slot,
            NodeId((spos(snodes, c.from_node)->Some_0 + 1) as u64),
        ));
        // Binding a name absent from the accumulated prefix appends it.
        lemma_bind_fresh_appends(mapped.take(m - 1), inputs, m - 1, snodes);
        assert(mapped.take(m) =~= mapped.take(m - 1).push(mapped[m - 1]));
        assert(mapped[m - 1] == remap_binding(snodes, inputs[m - 1]));
    }
}

/// Binding a name that no earlier binding carries appends it.
proof fn lemma_bind_fresh_appends(
    acc: Seq<(Seq<char>, NodeId)>,
    inputs: Seq<(Seq<char>, NodeId)>,
    m: int,
    snodes: Seq<SerializedNodeView>,
)
    requires
        0 <= m < inputs.len(),
        acc == inputs.map_values(|b: (Seq<char>, NodeId)| remap_binding(snodes, b)).take(m),
        forall|p: int, q: int| 0 <= p < q < inputs.len() ==> (#[trigger] inputs[p]).0 != (
        #[trigger] inputs[q]).0,
    ensures
        spec_bind(acc, inputs[m].0, NodeId((spos(snodes, inputs[m].1.0 as int)->Some_0 + 1) as u64))
            == acc.push(remap_binding(snodes, inputs[m])),
{
    let mapped = inputs.map_values(|b: (Seq<char>, NodeId)| remap_binding(snodes, b));
    assert forall|p: int| 0 <= p < acc.len() implies (#[trigger] acc[p]).0 != inputs[m].0 by {
        assert(acc[p] == mapped[p]);
        assert(mapped[p].0 == inputs[p].0);
        assert(inputs[p].0 != inputs[m].0);
    }
    lemma_bind_all_fresh(acc, inputs[m].0, NodeId((spos(snodes, inputs[m].1.0 as int)->Some_0
        + 1) as u64));
}

/// `spec_bind` with a name bound nowhere in the list appends the binding.
proof fn lemma_bind_all_fresh(acc: Seq<(Seq<char>, NodeId)>, name: Seq<char>, src: NodeId)
    requires
        forall|p: int| 0 <= p < acc.len() ==> (#[trigger] acc[p]).0 != name,
    ensures
        spec_bind(acc, name, src) == acc.push((name, src)),
    decreases acc.len(),
{
    if acc.len() == 0 {
        assert(spec_bind(acc, name, src) =~= acc.push((name, src)));
    } else {
        assert forall|p: int| 0 <= p < acc.drop_first().len() implies (
        #[trigger] acc.drop_first()[p]).0 != name by {
            assert(acc.drop_first()[p] == acc[p + 1]);
        }
        lemma_bind_all_fresh(acc.drop_first(), name, src);
        assert(seq![acc[0]] + acc.drop_first().push((name, src)) =~= acc.push((name, src)));
    }
}

/// Every connection generated from a binding list targets the node the
/// list belongs to.
proof fn lemma_bindings_conns_target(inputs: Seq<(Seq<char>, NodeId)>, to: int)
    ensures
        spec_connections_of_bindings(inputs, to).len() == inputs.len(),
        forall|k: int|
            0 <= k < inputs.len() ==> (#[trigger] spec_connections_of_bindings(inputs, to)[
            k]).to_node == to,
    decreases inputs.len(),
{
    if inputs.len() > 0 {
        lemma_bindings_conns_target(inputs.drop_last(), to);
        let cs = spec_connections_of_bindings(inputs, to);
        assert forall|k: int| 0 <= k < inputs.len() implies (#[trigger] cs[k]).to_node == to by {
            if k < inputs.len() - 1 {
                assert(cs[k] == spec_connections_of_bindings(inputs.drop_last(), to)[k]);
            }
        }
    }
}

/// Walking the serialized connections node segment by node segment: the
/// rebuilt bindings of position j stay empty until node j's own segment
/// is folded, which rebuilds exactly its bindings, remapped.
proof fn lemma_rebuilt_segments(nodes: Seq<NodeView>, j: int, m: int)
    requires
        forall|a: int, b: int| 0 <= a < b < nodes.len() ==> (#[trigger] nodes[a]).id != (
        #[trigger] nodes[b]).id,
        0 <= j < nodes.len(),
        forall|x: int|
            0 <= x < nodes.len() ==> bindings_resolved(nodes, (#[trigger] nodes[x]).inputs),
        0 <= m <= nodes.len(),
    ensures
        ({
            let snodes = nodes.map_values(|n: NodeView| spec_serialize_node(n));
            let mapped = nodes[j].inputs.map_values(
                |b: (Seq<char>, NodeId)| remap_binding(snodes, b),
            );
            rebuilt_inputs(snodes, spec_connections_of(nodes.take(m)), j) == if m <= j {
                mapped.take(0)
            } else {
                mapped
            }
        }),
    decreases m,
{
    let snodes = nodes.map_values(|n: NodeView| spec_serialize_node(n));
    let mapped = nodes[j].inputs.map_values(|b: (Seq<char>, NodeId)| remap_binding(snodes, b));
    if m == 0 {
        assert(nodes.take(0) =~= Seq::<NodeView>::empty());
        assert(mapped.take(0) =~= Seq::<(Seq<char>, NodeId)>::empty());
        assert(rebuilt_inputs(snodes, spec_connections_of(nodes.take(0)), j) =~= mapped.take(0));
    } else {
        lemma_rebuilt_segments(nodes, j, m - 1);
        assert(nodes.take(m).drop_last() =~= nodes.take(m - 1));
        assert(nodes.take(m).last() == nodes[m - 1]);
        let prefix = spec_connections_of(nodes.take(m - 1));
        let segment = spec_connections_of_node(nodes[m - 1]);
        assert(spec_connections_of(nodes.take(m)) == prefix + segment);
        lemma_bindings_conns_target(nodes[m - 1].inputs, nodes[m - 1].id.0 as int);
        lemma_spos_of_serialized(nodes, m - 1);
        if m - 1 == j {
            assert forall|k: int|
                0 <= k < nodes[j].inputs.len() implies spos(
                snodes,
                ((#[trigger] nodes[j].inputs[k]).1.0) as int,
            ) is Some by {
                assert(bindings_resolved(nodes, nodes[j].inputs));
                assert(crate::graph::has_node(nodes, nodes[j].inputs[k].1));
                crate::graph::lemma_find_node_exists(nodes, nodes[j].inputs[k].1);
                let w = choose|w: int|
                    0 <= w < nodes.len() && (#[trigger] nodes[w]).id == nodes[j].inputs[k].1;
                lemma_spos_of_serialized(nodes, w);
            }
            assert(bindings_resolved(nodes, nodes[j].inputs));
            lemma_rebuilt_own(snodes, prefix, nodes[j].inputs, nodes[j].id.0 as int, j);
        } else {
            assert forall|k: int| 0 <= k < segment.len() implies spos(
                snodes,
                (#[trigger] segment[k]).to_node,
            ) != Some(j) by {
                assert(segment[k].to_node == nodes[m - 1].id.0 as int);
                assert(spos(snodes, nodes[m - 1].id.0 as int) == Some(m - 1));
            }
            lemma_rebuilt_skips(snodes, prefix, segment, j);
            if m - 1 < j {
            } else {
                assert(m - 1 > j);
            }
        }
    }
}

/// Serializing a document and rebuilding from the persisted form
/// reproduces the layer order and identities verbatim, every layer's
/// scalar attributes, and per node its kind name, parameters and input
/// bindings — the bindings with their producer identities remapped to
/// the positional identities reconstruction assigns.  Holds of any
/// rebuilt document the reconstruction relation admits, for a document
/// whose bindings all resolve and bind each input name once.
pub proof fn lemma_serialize_round_trip(d: DocumentView, d2: DocumentView)
    requires
        d.wf(),
        reconstruction_matches(spec_serialize(d), d2),
        forall|i: int, j: int|
            0 <= i < d.layers.len() && 0 <= j < (#[trigger] d.layers[i]).graph.nodes.len()
                ==> bindings_resolved(
                d.layers[i].graph.nodes,
                (#[trigger] d.layers[i].graph.nodes[j]).inputs,
            ),
    ensures
        d2.layer_order == d.layer_order,
        d2.layers.len() == d.layers.len(),
        forall|i: int|
            0 <= i < d.layers.len() ==> {
                let l = #[trigger] d.layers[i];
                let l2 = d2.layers[i];
                &&& l2.id == l.id
                &&& l2.name == l.name
                &&& l2.visible == l.visible
                &&& l2.opacity == l.opacity
                &&& l2.blend_mode == l.blend_mode
                &&& l2.graph.nodes.len() == l.graph.nodes.len()
                &&& forall|j: int|
                    0 <= j < l.graph.nodes.len() ==> {
                        let n = #[trigger] l.graph.nodes[j];
                        let n2 = l2.graph.nodes[j];
                        &&& n2.kind_name == n.kind_name
                        &&& n2.parameters == n.parameters
                        &&& n2.inputs == n.inputs.map_values(
                            |b: (Seq<char>, NodeId)| remap_binding(
                                l.graph.nodes.map_values(|m: NodeView| spec_serialize_node(m)),
                                b,
                            ),
                        )
                    }
            },
{
    let sd = spec_serialize(d);
    assert forall|k: int| 0 <= k < d.layer_order.len() implies (#[trigger] d2.layer_order[k])
        == d.layer_order[k] by {
        assert(sd.layer_order[k] == d.layer_order[k].0 as int);
    }
    assert(d2.layer_order =~= d.layer_order);
    assert forall|i: int| 0 <= i < d.layers.len() implies {
        let l = #[trigger] d.layers[i];
        let l2 = d2.layers[i];
        &&& l2.id == l.id
        &&& l2.name == l.name
        &&& l2.visible == l.visible
        &&& l2.opacity == l.opacity
        &&& l2.blend_mode == l.blend_mode
        &&& l2.graph.nodes.len() == l.graph.nodes.len()
        &&& forall|j: int|
            0 <= j < l.graph.nodes.len() ==> {
                let n = #[trigger] l.graph.nodes[j];
                let n2 = l2.graph.nodes[j];
                &&& n2.kind_name == n.kind_name
                &&& n2.parameters == n.parameters
                &&& n2.inputs == n.inputs.map_values(
                    |b: (Seq<char>, NodeId)| remap_binding(
                        l.graph.nodes.map_values(|m: NodeView| spec_serialize_node(m)),
                        b,
                    ),
                )
            }
    } by {
        let l = d.layers[i];
        let l2 = d2.layers[i];
        let sl = sd.layers[i];
        assert(sl == spec_serialize_layer(l));
        crate::blend::lemma_mode_name_round_trip(l.blend_mode);
        assert(l.wf());
        let nodes = l.graph.nodes;
        let snodes = nodes.map_values(|n: NodeView| spec_serialize_node(n));
        assert(sl.node_graph.nodes == snodes);
        assert forall|j: int| 0 <= j < nodes.len() implies {
            let n = #[trigger] nodes[j];
            let n2 = l2.graph.nodes[j];
            &&& n2.kind_name == n.kind_name
            &&& n2.parameters == n.parameters
            &&& n2.inputs == n.inputs.map_values(
                |b: (Seq<char>, NodeId)| remap_binding(snodes, b),
            )
        } by {
            assert(snodes[j] == spec_serialize_node(nodes[j]));
            assert(l2.graph.nodes[j].inputs == rebuilt_inputs(
                snodes,
                sl.node_graph.connections,
                j,
            ));
            assert(sl.node_graph.connections == spec_connections_of(nodes));
            lemma_rebuilt_segments(nodes, j, nodes.len() as int);
            assert(nodes.take(nodes.len() as int) =~= nodes);
        }
    }
}

} // verus!
