//! The node graph: an arena of nodes addressed by identity, a producer to
//! consumer edge list kept acyclic, and recursive evaluation.

use vstd::prelude::*;
use crate::artifact::{Artifact, ArtifactView};
use crate::capability::{
    artifact_views, artifact_wf, cap_wf, compute_spec, lemma_compute_spec_wf, view_result,
};
use crate::error::{NodeError, NodeErrorView};
use crate::ids::NodeId;
use crate::node::{Node, NodeView};
use crate::textfmt::dec_digits;

verus! {

/// One producer-to-consumer dependency.
#[derive(Clone, Copy, Debug, PartialEq, Eq, Structural)]
pub struct Edge {
    pub from: NodeId,
    pub to: NodeId,
}

/// Whether the edge list holds an edge from a to b.
pub open spec fn edge_in(edges: Seq<Edge>, a: NodeId, b: NodeId) -> bool {
    exists|k: int| 0 <= k < edges.len() && (#[trigger] edges[k]).from == a && edges[k].to == b
}

/// A walk along edges, named node by node.
pub open spec fn is_path(edges: Seq<Edge>, ps: Seq<NodeId>) -> bool {
    ps.len() >= 1 && forall|i: int|
        0 <= i < ps.len() - 1 ==> #[trigger] edge_in(edges, ps[i], ps[i + 1])
}

/// Whether b can be reached from a along edges, in zero or more steps.
pub open spec fn reaches(edges: Seq<Edge>, a: NodeId, b: NodeId) -> bool {
    exists|ps: Seq<NodeId>| #[trigger] is_path(edges, ps) && ps.first() == a && ps.last() == b
}

/// No edge closes a walk back to its own producer.
pub open spec fn acyclic(edges: Seq<Edge>) -> bool {
    forall|a: NodeId, b: NodeId| #[trigger] edge_in(edges, a, b) ==> !reaches(edges, b, a)
}

pub proof fn lemma_reaches_self(edges: Seq<Edge>, a: NodeId)
    ensures
        reaches(edges, a, a),
{
    let ps = seq![a];
    assert(is_path(edges, ps));
    assert(ps.first() == a && ps.last() == a);
}

pub proof fn lemma_reaches_extend(edges: Seq<Edge>, a: NodeId, b: NodeId, c: NodeId)
    requires
        reaches(edges, a, b),
        edge_in(edges, b, c),
    ensures
        reaches(edges, a, c),
{
    let ps = choose|ps: Seq<NodeId>| is_path(edges, ps) && ps.first() == a && ps.last() == b;
    let qs = ps.push(c);
    assert forall|i: int| 0 <= i < qs.len() - 1 implies #[trigger] edge_in(
        edges,
        qs[i],
        qs[i + 1],
    ) by {
        if i < ps.len() - 1 {
            assert(qs[i] == ps[i] && qs[i + 1] == ps[i + 1]);
        } else {
            assert(qs[i] == ps.last() && qs[i + 1] == c);
        }
    }
    assert(is_path(edges, qs) && qs.first() == a && qs.last() == c);
}

pub proof fn lemma_reaches_trans(edges: Seq<Edge>, a: NodeId, b: NodeId, c: NodeId)
    requires
        reaches(edges, a, b),
        reaches(edges, b, c),
    ensures
        reaches(edges, a, c),
{
    let ps1 = choose|ps: Seq<NodeId>| is_path(edges, ps) && ps.first() == a && ps.last() == b;
    let ps2 = choose|ps: Seq<NodeId>| is_path(edges, ps) && ps.first() == b && ps.last() == c;
    if ps2.len() == 1 {
        assert(b == c);
    } else {
        let qs = ps1 + ps2.drop_first();
        assert forall|i: int| 0 <= i < qs.len() - 1 implies #[trigger] edge_in(
            edges,
            qs[i],
            qs[i + 1],
        ) by {
            if i < ps1.len() - 1 {
                assert(qs[i] == ps1[i] && qs[i + 1] == ps1[i + 1]);
            } else if i == ps1.len() - 1 {
                assert(qs[i] == ps1.last());
                assert(qs[i + 1] == ps2.drop_first()[0]);
                assert(ps2.drop_first()[0] == ps2[1]);
                assert(edge_in(edges, ps2[0], ps2[1]));
            } else {
                let j = i - ps1.len();
                assert(qs[i] == ps2.drop_first()[j]);
                assert(qs[i + 1] == ps2.drop_first()[j + 1]);
                assert(ps2.drop_first()[j] == ps2[j + 1]);
                assert(ps2.drop_first()[j + 1] == ps2[j + 2]);
                assert(edge_in(edges, ps2[j + 1], ps2[j + 2]));
            }
        }
        assert(qs.first() == a);
        assert(qs.last() == ps2.drop_first().last());
        assert(ps2.drop_first().last() == ps2.last());
        assert(is_path(edges, qs) && qs.first() == a && qs.last() == c);
    }
}

/// Any walk in a graph extended by one safe edge decomposes: either it
/// already ran along the old edges, or it passed through the new edge.
proof fn lemma_path_decompose(edges: Seq<Edge>, enew: Edge, ps: Seq<NodeId>)
    requires
        is_path(edges.push(enew), ps),
        !reaches(edges, enew.to, enew.from),
    ensures
        reaches(edges, ps.first(), ps.last()) || (reaches(edges, ps.first(), enew.from)
            && reaches(edges, enew.to, ps.last())),
    decreases ps.len(),
{
    if ps.len() == 1 {
        lemma_reaches_self(edges, ps.first());
    } else {
        let rest = ps.drop_first();
        assert forall|i: int| 0 <= i < rest.len() - 1 implies #[trigger] edge_in(
            edges.push(enew),
            rest[i],
            rest[i + 1],
        ) by {
            assert(rest[i] == ps[i + 1] && rest[i + 1] == ps[i + 2]);
            assert(edge_in(edges.push(enew), ps[i + 1], ps[i + 2]));
        }
        assert(is_path(edges.push(enew), rest));
        lemma_path_decompose(edges, enew, rest);
        assert(edge_in(edges.push(enew), ps[0], ps[1]));
        let k = choose|k: int|
            0 <= k < edges.push(enew).len() && (#[trigger] edges.push(enew)[k]).from == ps[0]
                && edges.push(enew)[k].to == ps[1];
        assert(rest.first() == ps[1] && rest.last() == ps.last());
        if k < edges.len() {
            assert(edges.push(enew)[k] == edges[k]);
            assert(edge_in(edges, ps[0], ps[1]));
            lemma_reaches_self(edges, ps[0]);
            lemma_reaches_extend(edges, ps[0], ps[0], ps[1]);
            if reaches(edges, ps[1], ps.last()) {
                lemma_reaches_trans(edges, ps[0], ps[1], ps.last());
            } else {
                lemma_reaches_trans(edges, ps[0], ps[1], enew.from);
            }
        } else {
            assert(edges.push(enew)[k] == enew);
            assert(ps[0] == enew.from && ps[1] == enew.to);
            lemma_reaches_self(edges, ps[0]);
        }
    }
}

/// Appending an edge whose consumer does not already reach its producer
/// keeps the graph acyclic.
pub proof fn lemma_acyclic_push(edges: Seq<Edge>, enew: Edge)
    requires
        acyclic(edges),
        !reaches(edges, enew.to, enew.from),
    ensures
        acyclic(edges.push(enew)),
{
    assert forall|a: NodeId, b: NodeId| #[trigger] edge_in(edges.push(enew), a, b) implies
        !reaches(edges.push(enew), b, a) by {
        if reaches(edges.push(enew), b, a) {
            let ps = choose|ps: Seq<NodeId>|
                #[trigger] is_path(edges.push(enew), ps) && ps.first() == b && ps.last() == a;
            lemma_path_decompose(edges, enew, ps);
            let k = choose|k: int|
                0 <= k < edges.push(enew).len() && (#[trigger] edges.push(enew)[k]).from == a
                    && edges.push(enew)[k].to == b;
            if k < edges.len() {
                assert(edges.push(enew)[k] == edges[k]);
                assert(edge_in(edges, a, b));
                if reaches(edges, b, a) {
                    assert(false);
                } else {
                    assert(reaches(edges, b, enew.from) && reaches(edges, enew.to, a));
                    lemma_reaches_extend(edges, enew.to, a, b);
                    lemma_reaches_trans(edges, enew.to, b, enew.from);
                    assert(false);
                }
            } else {
                assert(edges.push(enew)[k] == enew);
                assert(a == enew.from && b == enew.to);
                if reaches(edges, b, a) {
                    assert(false);
                } else {
                    assert(reaches(edges, b, enew.from));
                    assert(false);
                }
            }
        }
    }
}

/// The first node with an identity, if any.
pub open spec fn find_node(nodes: Seq<NodeView>, id: NodeId) -> Option<NodeView>
    decreases nodes.len(),
{
    if nodes.len() == 0 {
        None
    } else if nodes[0].id == id {
        Some(nodes[0])
    } else {
        find_node(nodes.drop_first(), id)
    }
}

pub open spec fn has_node(nodes: Seq<NodeView>, id: NodeId) -> bool {
    find_node(nodes, id) is Some
}

/// Finding succeeds exactly when some entry carries the identity.
pub proof fn lemma_find_node_exists(nodes: Seq<NodeView>, id: NodeId)
    ensures
        has_node(nodes, id) <==> exists|j: int| 0 <= j < nodes.len() && (#[trigger] nodes[j]).id
            == id,
        find_node(nodes, id) matches Some(v) ==> exists|j: int|
            0 <= j < nodes.len() && #[trigger] nodes[j] == v && v.id == id,
    decreases nodes.len(),
{
    if nodes.len() > 0 && nodes[0].id != id {
        lemma_find_node_exists(nodes.drop_first(), id);
        if has_node(nodes.drop_first(), id) {
            let j = choose|j: int|
                0 <= j < nodes.drop_first().len() && (#[trigger] nodes.drop_first()[j]).id == id;
            assert(nodes[j + 1] == nodes.drop_first()[j]);
        }
        if exists|j: int| 0 <= j < nodes.len() && (#[trigger] nodes[j]).id == id {
            let j = choose|j: int| 0 <= j < nodes.len() && (#[trigger] nodes[j]).id == id;
            assert(nodes.drop_first()[j - 1] == nodes[j]);
        }
        if find_node(nodes.drop_first(), id) is Some {
            let v = find_node(nodes.drop_first(), id)->Some_0;
            let j = choose|j: int|
                0 <= j < nodes.drop_first().len() && #[trigger] nodes.drop_first()[j] == v
                    && v.id == id;
            assert(nodes[j + 1] == nodes.drop_first()[j]);
        }
    }
}

/// When every identity is unique, finding returns the entry at any index
/// that carries the identity.
pub proof fn lemma_find_node_at(nodes: Seq<NodeView>, i: int)
    requires
        forall|p: int, q: int| 0 <= p < q < nodes.len() ==> (#[trigger] nodes[p]).id != (
        #[trigger] nodes[q]).id,
        0 <= i < nodes.len(),
    ensures
        find_node(nodes, nodes[i].id) == Some(nodes[i]),
    decreases i,
{
    if i > 0 {
        assert(nodes[0].id != nodes[i].id);
        assert forall|p: int, q: int|
            0 <= p < q < nodes.drop_first().len() implies (#[trigger] nodes.drop_first()[p]).id
            != (#[trigger] nodes.drop_first()[q]).id by {
            assert(nodes.drop_first()[p] == nodes[p + 1]);
            assert(nodes.drop_first()[q] == nodes[q + 1]);
        }
        lemma_find_node_at(nodes.drop_first(), i - 1);
        assert(nodes.drop_first()[i - 1] == nodes[i]);
    }
}

/// The model of a node graph.
pub struct GraphView {
    pub nodes: Seq<NodeView>,
    pub edges: Seq<Edge>,
    pub next_id: nat,
}

impl GraphView {
    /// Identities are unique and below the allocation counter, every edge
    /// endpoint is present, every payload is well formed, and the edge
    /// set is acyclic.
    pub open spec fn wf(self) -> bool {
        &&& self.nodes.len() < usize::MAX
        &&& forall|p: int, q: int|
            0 <= p < q < self.nodes.len() ==> (#[trigger] self.nodes[p]).id != (
            #[trigger] self.nodes[q]).id
        &&& forall|i: int|
            0 <= i < self.nodes.len() ==> (#[trigger] self.nodes[i]).id.0 < self.next_id
        &&& forall|k: int|
            0 <= k < self.edges.len() ==> has_node(self.nodes, (#[trigger] self.edges[k]).from)
                && has_node(self.nodes, self.edges[k].to)
        &&& forall|i: int| 0 <= i < self.nodes.len() ==> cap_wf((#[trigger] self.nodes[i]).data)
        &&& acyclic(self.edges)
    }
}

/// A directed acyclic graph of nodes and producer-to-consumer edges.
#[derive(Debug)]
pub struct NodeGraph {
    pub nodes: Vec<Node>,
    pub edges: Vec<Edge>,
    pub next_id: u64,
}

impl View for NodeGraph {
    type V = GraphView;

    open spec fn view(&self) -> GraphView {
        GraphView {
            nodes: self.nodes@.map_values(|n: Node| n@),
            edges: self.edges@,
            next_id: self.next_id as nat,
        }
    }
}

impl NodeGraph {
    pub fn new() -> (g: NodeGraph)
        ensures
            g@.wf(),
            g@.nodes.len() == 0,
            g@.edges.len() == 0,
            g@.next_id == 1,
    {
        let g = NodeGraph { nodes: Vec::new(), edges: Vec::new(), next_id: 1 };
        proof {
            assert(g@.nodes =~= Seq::<NodeView>::empty());
            assert forall|a: NodeId, b: NodeId| #[trigger] edge_in(g@.edges, a, b) implies
                !reaches(g@.edges, b, a) by {
                assert(!edge_in(g@.edges, a, b));
            }
        }
        g
    }

    /// The index holding an identity, by linear search.
    fn find_index(&self, id: &NodeId) -> (r: Option<usize>)
        ensures
            match r {
                Some(i) => i < self@.nodes.len() && self@.nodes[i as int].id == *id,
                None => forall|j: int|
                    0 <= j < self@.nodes.len() ==> (#[trigger] self@.nodes[j]).id != *id,
            },
    {
        let n = self.nodes.len();
        let mut i: usize = 0;
        while i < n
            invariant
                n == self.nodes@.len(),
                i <= n,
                forall|j: int| 0 <= j < i ==> (#[trigger] self@.nodes[j]).id != *id,
            decreases n - i,
        {
            proof {
                assert(self@.nodes[i as int] == self.nodes@[i as int]@);
            }
            if self.nodes[i].id.0 == id.0 {
                return Some(i);
            }
            i = i + 1;
        }
        None
    }

    /// Admits a node, assigning it a fresh identity, which is returned.
    pub fn add_node(&mut self, node: Node) -> (id: NodeId)
        requires
            old(self)@.wf(),
            cap_wf(node@.data),
            old(self).next_id < u64::MAX,
            old(self)@.nodes.len() + 1 < usize::MAX,
        ensures
            final(self)@.wf(),
            id == NodeId(old(self)@.next_id as u64),
            final(self)@.nodes == old(self)@.nodes.push(
                NodeView {
                    id,
                    data: node@.data,
                    kind_name: node@.kind_name,
                    parameters: node@.parameters,
                    inputs: node@.inputs,
                },
            ),
            final(self)@.edges == old(self)@.edges,
            final(self)@.next_id == old(self)@.next_id + 1,
    {
        let id = NodeId(self.next_id);
        let mut node = node;
        node.id = id;
        self.next_id = self.next_id + 1;
        self.nodes.push(node);
        proof {
            let nv = final(self)@.nodes;
            let ov = old(self)@.nodes;
            assert(nv =~= ov.push(
                NodeView {
                    id,
                    data: node@.data,
                    kind_name: node@.kind_name,
                    parameters: node@.parameters,
                    inputs: node@.inputs,
                },
            ));
            assert forall|p: int, q: int| 0 <= p < q < nv.len() implies (#[trigger] nv[p]).id != (
            #[trigger] nv[q]).id by {
                if q < ov.len() {
                } else {
                    assert(nv[q].id.0 == old(self)@.next_id);
                    assert(nv[p].id.0 < old(self)@.next_id);
                }
            }
            assert forall|k: int| 0 <= k < final(self)@.edges.len() implies has_node(
                nv,
                (#[trigger] final(self)@.edges[k]).from,
            ) && has_node(nv, final(self)@.edges[k].to) by {
                lemma_find_node_exists(ov, final(self)@.edges[k].from);
                lemma_find_node_exists(ov, final(self)@.edges[k].to);
                lemma_find_node_exists(nv, final(self)@.edges[k].from);
                lemma_find_node_exists(nv, final(self)@.edges[k].to);
                let jf = choose|j: int|
                    0 <= j < ov.len() && (#[trigger] ov[j]).id == final(self)@.edges[k].from;
                let jt = choose|j: int|
                    0 <= j < ov.len() && (#[trigger] ov[j]).id == final(self)@.edges[k].to;
                assert(nv[jf] == ov[jf]);
                assert(nv[jt] == ov[jt]);
            }
        }
        id
    }

    /// The node with an identity, if present.
    pub fn get_node(&self, id: &NodeId) -> (r: Option<&Node>)
        requires
            self@.wf(),
        ensures
            match r {
                Some(n) => find_node(self@.nodes, *id) == Some(n@),
                None => !has_node(self@.nodes, *id),
            },
    {
        let found = self.find_index(id);
        proof {
            lemma_find_node_exists(self@.nodes, *id);
        }
        match found {
            Some(i) => {
                proof {
                    lemma_find_node_at(self@.nodes, i as int);
                    assert(self@.nodes[i as int] == self.nodes@[i as int]@);
                }
                Some(&self.nodes[i])
            },
            None => None,
        }
    }

    /// The identities of all nodes, in admission order.
    pub fn get_node_ids(&self) -> (r: Vec<NodeId>)
        ensures
            r@ == self@.nodes.map_values(|n: NodeView| n.id),
    {
        let n = self.nodes.len();
        let mut ids: Vec<NodeId> = Vec::new();
        let mut i: usize = 0;
        while i < n
            invariant
                n == self.nodes@.len(),
                i <= n,
                ids@.len() == i,
                forall|j: int| 0 <= j < i ==> ids@[j] == (#[trigger] self@.nodes[j]).id,
            decreases n - i,
        {
            proof {
                assert(self@.nodes[i as int] == self.nodes@[i as int]@);
            }
            ids.push(self.nodes[i].id);
            i = i + 1;
        }
        proof {
            assert(ids@ =~= self@.nodes.map_values(|n: NodeView| n.id));
        }
        ids
    }

    /// Whether target can be reached from start along the current edges,
    /// by worklist search.
    fn reach_exec(&self, start: NodeId, target: NodeId) -> (r: bool)
        requires
            self@.wf(),
            has_node(self@.nodes, start),
        ensures
            r == reaches(self@.edges, start, target),
    {
        let ghost nodes = self@.nodes;
        let ghost edges = self@.edges;
        if start.0 == target.0 {
            proof {
                lemma_reaches_self(edges, start);
            }
            return true;
        }
        let target_index = match self.find_index(&target) {
            Some(i) => i,
            None => {
                proof {
                    if reaches(edges, start, target) {
                        let ps = choose|ps: Seq<NodeId>|
                            #[trigger] is_path(edges, ps) && ps.first() == start && ps.last()
                                == target;
                        if ps.len() == 1 {
                            assert(start == target);
                        } else {
                            let m = ps.len() - 2;
                            assert(edge_in(edges, ps[m], ps[m + 1]));
                            let k = choose|k: int|
                                0 <= k < edges.len() && (#[trigger] edges[k]).from == ps[m]
                                    && edges[k].to == ps[m + 1];
                            assert(ps[m + 1] == target);
                            assert(has_node(nodes, target));
                            lemma_find_node_exists(nodes, target);
                        }
                    }
                }
                return false;
            },
        };
        let start_index = match self.find_index(&start) {
            Some(i) => i,
            None => {
                proof {
                    lemma_find_node_exists(nodes, start);
                }
                proof {
                    assert(false);
                }
                return false;
            },
        };
        let n = self.nodes.len();
        let mut visited: Vec<bool> = vec![false; n];
        proof {
            lemma_count_trues_zero(visited@);
            lemma_count_trues_update(visited@, start_index as int);
            lemma_reaches_self(edges, start);
        }
        let mut visited_count: usize = 1;
        let mut stack: Vec<usize> = Vec::new();
        visited.set(start_index, true);
        stack.push(start_index);
        proof {
            assert(stack@[0] == start_index);
            assert(stack@.contains(start_index));
        }
        while stack.len() > 0
            invariant
                nodes == self@.nodes,
                edges == self@.edges,
                self@.wf(),
                n == nodes.len(),
                visited@.len() == n,
                target_index < n,
                start_index < n,
                nodes[target_index as int].id == target,
                nodes[start_index as int].id == start,
                start.0 != target.0,
                visited@[start_index as int],
                !visited@[target_index as int],
                visited_count == count_trues(visited@),
                visited_count <= n,
                forall|s: int| 0 <= s < stack@.len() ==> (#[trigger] stack@[s]) < n,
                forall|s: int| 0 <= s < stack@.len() ==> visited@[#[trigger] stack@[s] as int],
                forall|i: int|
                    0 <= i < n && visited@[i] ==> reaches(edges, start, (#[trigger] nodes[i]).id),
                forall|i: int, k: int|
                    (0 <= i < n && visited@[i] && !stack@.contains(i as usize) && 0 <= k
                        < edges.len() && (#[trigger] edges[k]).from == (#[trigger] nodes[i]).id)
                        ==> marked(nodes, visited@, edges[k].to),
            decreases 2 * (n - visited_count) + stack@.len(),
        {
            let ghost measure_start = 2 * (n - visited_count) + stack@.len();
            let ghost pre_stack = stack@;
            let u = stack.pop().unwrap();
            let u_id = self.nodes[u].id;
            proof {
                assert(self@.nodes[u as int] == self.nodes@[u as int]@);
                assert(pre_stack[pre_stack.len() - 1] == u);
                assert(stack@ =~= pre_stack.drop_last());
                assert forall|x: usize| x != u && #[trigger] pre_stack.contains(x) implies
                    stack@.contains(x) by {
                    let si = choose|si: int| 0 <= si < pre_stack.len() && pre_stack[si] == x;
                    assert(si < pre_stack.len() - 1);
                    assert(stack@[si] == x);
                }
            }
            let edge_count = self.edges.len();
            let mut k: usize = 0;
            while k < edge_count
                invariant
                    nodes == self@.nodes,
                    edges == self@.edges,
                    self@.wf(),
                    n == nodes.len(),
                    visited@.len() == n,
                    target_index < n,
                    start_index < n,
                    nodes[target_index as int].id == target,
                    nodes[start_index as int].id == start,
                    start.0 != target.0,
                    edge_count == edges.len(),
                    k <= edge_count,
                    u < n,
                    u_id == nodes[u as int].id,
                    visited@[u as int],
                    visited@[start_index as int],
                    !visited@[target_index as int],
                    visited_count == count_trues(visited@),
                    visited_count <= n,
                    forall|s: int| 0 <= s < stack@.len() ==> (#[trigger] stack@[s]) < n,
                    forall|s: int| 0 <= s < stack@.len() ==> visited@[#[trigger] stack@[s] as int],
                    forall|i: int|
                        0 <= i < n && visited@[i] ==> reaches(
                            edges,
                            start,
                            (#[trigger] nodes[i]).id,
                        ),
                    forall|i: int, kk: int|
                        (0 <= i < n && visited@[i] && i != u as int && !stack@.contains(i as usize)
                            && 0 <= kk < edges.len() && (#[trigger] edges[kk]).from == (
                        #[trigger] nodes[i]).id) ==> marked(nodes, visited@, edges[kk].to),
                    forall|kk: int|
                        (0 <= kk < k && (#[trigger] edges[kk]).from == nodes[u as int].id)
                            ==> marked(nodes, visited@, edges[kk].to),
                    2 * (n - visited_count) + stack@.len() <= measure_start - 1,
                decreases edge_count - k,
            {
                if self.edges[k].from.0 == u_id.0 {
                    let to_id = self.edges[k].to;
                    proof {
                        assert(edges[k as int].from == u_id);
                        lemma_find_node_exists(nodes, to_id);
                    }
                    let w = match self.find_index(&to_id) {
                        Some(w) => w,
                        None => {
                            proof {
                                assert(has_node(nodes, to_id));
                                lemma_find_node_exists(nodes, to_id);
                                assert(false);
                            }
                            0
                        },
                    };
                    if w == target_index {
                        proof {
                            assert(reaches(edges, start, nodes[u as int].id));
                            lemma_reaches_extend(edges, start, nodes[u as int].id, to_id);
                        }
                        return true;
                    }
                    if !visited[w] {
                        let ghost pre_visited = visited@;
                        let ghost pre_inner_stack = stack@;
                        proof {
                            lemma_count_trues_update(visited@, w as int);
                        }
                        visited.set(w, true);
                        visited_count = visited_count + 1;
                        stack.push(w);
                        proof {
                            assert(reaches(edges, start, nodes[u as int].id));
                            lemma_reaches_extend(edges, start, nodes[u as int].id, to_id);
                            assert(nodes[w as int].id == to_id);
                            assert(stack@[stack@.len() - 1] == w);
                            assert(stack@.contains(w));
                            assert forall|x: usize| #[trigger] pre_inner_stack.contains(x)
                                implies stack@.contains(x) by {
                                let si = choose|si: int|
                                    0 <= si < pre_inner_stack.len() && pre_inner_stack[si] == x;
                                assert(stack@[si] == x);
                            }
                            assert forall|id: NodeId| #[trigger] marked(nodes, pre_visited, id)
                                implies marked(nodes, visited@, id) by {
                                let j = choose|j: int|
                                    0 <= j < nodes.len() && (#[trigger] nodes[j]).id == id
                                        && pre_visited[j];
                                assert(visited@[j]);
                            }
                            assert forall|i: int|
                                0 <= i < n && visited@[i] implies reaches(
                                edges,
                                start,
                                (#[trigger] nodes[i]).id,
                            ) by {
                                if i != w as int {
                                    assert(pre_visited[i]);
                                }
                            }
                        }
                    }
                }
                k = k + 1;
            }
            proof {
                assert forall|i: int, kk: int|
                    (0 <= i < n && visited@[i] && !stack@.contains(i as usize) && 0 <= kk
                        < edges.len() && (#[trigger] edges[kk]).from == (#[trigger] nodes[i]).id)
                        implies marked(nodes, visited@, edges[kk].to) by {}
            }
        }
        proof {
            if reaches(edges, start, target) {
                let ps = choose|ps: Seq<NodeId>|
                    #[trigger] is_path(edges, ps) && ps.first() == start && ps.last() == target;
                lemma_closed_walk_marked(nodes, edges, visited@, ps);
                let j = choose|j: int|
                    0 <= j < nodes.len() && (#[trigger] nodes[j]).id == target && visited@[j];
                if j != target_index as int {
                    assert(nodes[j].id == nodes[target_index as int].id);
                }
                assert(false);
            }
        }
        false
    }

    /// Inserts a producer-to-consumer edge and binds the consumer's named
    /// input to the producer.  Fails with `NodeNotFound` when either end
    /// is absent, and with `CycleDetected` when the edge would close a
    /// cycle; any failure leaves the graph exactly as it was.
    pub fn connect(&mut self, from: &NodeId, to: &NodeId, input_name: &str) -> (r: Result<
        (),
        NodeError,
    >)
        requires
            old(self)@.wf(),
        ensures
            final(self)@.wf(),
            !has_node(old(self)@.nodes, *from) ==> *final(self) == *old(self) && (
            r matches Err(e) && e@ == NodeErrorView::NodeNotFound(*from)),
            has_node(old(self)@.nodes, *from) && !has_node(old(self)@.nodes, *to) ==> *final(self)
                == *old(self) && (r matches Err(e) && e@ == NodeErrorView::NodeNotFound(*to)),
            has_node(old(self)@.nodes, *from) && has_node(old(self)@.nodes, *to) && reaches(
                old(self)@.edges,
                *to,
                *from,
            ) ==> *final(self) == *old(self) && (r matches Err(e) && e@
                == NodeErrorView::CycleDetected {
                from: dec_digits(from.0 as int),
                to: dec_digits(to.0 as int),
            }),
            has_node(old(self)@.nodes, *from) && has_node(old(self)@.nodes, *to) && !reaches(
                old(self)@.edges,
                *to,
                *from,
            ) ==> r is Ok && final(self)@.edges == old(self)@.edges.push(
                Edge { from: *from, to: *to },
            ) && final(self)@.next_id == old(self)@.next_id && final(self)@.nodes
                == bind_consumer(old(self)@.nodes, *to, input_name@, *from),
    {
        let ghost old_nodes = self@.nodes;
        let from_index = match self.find_index(from) {
            Some(i) => i,
            None => {
                proof {
                    lemma_find_node_exists(self@.nodes, *from);
                }
                return Err(NodeError::NodeNotFound(*from));
            },
        };
        let to_index = match self.find_index(to) {
            Some(i) => i,
            None => {
                proof {
                    lemma_find_node_exists(self@.nodes, *from);
                    lemma_find_node_exists(self@.nodes, *to);
                }
                return Err(NodeError::NodeNotFound(*to));
            },
        };
        proof {
            lemma_find_node_exists(self@.nodes, *from);
            lemma_find_node_exists(self@.nodes, *to);
        }
        if self.reach_exec(*to, *from) {
            let from_text = from.to_string();
            let to_text = to.to_string();
            return Err(NodeError::CycleDetected { from: from_text, to: to_text });
        }
        self.edges.push(Edge { from: *from, to: *to });
        let mut consumer = self.nodes.remove(to_index);
        consumer.connect_input(input_name, *from);
        self.nodes.insert(to_index, consumer);
        proof {
            let new_nodes = final(self)@.nodes;
            assert(new_nodes =~= old_nodes.update(
                to_index as int,
                NodeView {
                    id: old_nodes[to_index as int].id,
                    data: old_nodes[to_index as int].data,
                    kind_name: old_nodes[to_index as int].kind_name,
                    parameters: old_nodes[to_index as int].parameters,
                    inputs: crate::node::spec_bind(
                        old_nodes[to_index as int].inputs,
                        input_name@,
                        *from,
                    ),
                },
            ));
            lemma_bind_consumer_at(old_nodes, to_index as int, *to, input_name@, *from);
            lemma_acyclic_push(old(self)@.edges, Edge { from: *from, to: *to });
            assert(final(self)@.edges =~= old(self)@.edges.push(Edge { from: *from, to: *to }));
            assert forall|k: int| 0 <= k < final(self)@.edges.len() implies has_node(
                old(self)@.nodes,
                (#[trigger] final(self)@.edges[k]).from,
            ) && has_node(old(self)@.nodes, final(self)@.edges[k].to) by {
                if k < old(self)@.edges.len() {
                    assert(final(self)@.edges[k] == old(self)@.edges[k]);
                } else {
                    assert(final(self)@.edges[k] == Edge { from: *from, to: *to });
                }
            }
            lemma_wf_after_connect(old(self)@, final(self)@, to_index as int, input_name@, *from);
        }
        Ok(())
    }
}

/// Whether an identity is carried by a visited node.
pub open spec fn marked(nodes: Seq<NodeView>, visited: Seq<bool>, id: NodeId) -> bool {
    exists|j: int| 0 <= j < nodes.len() && (#[trigger] nodes[j]).id == id && visited[j]
}

/// How many entries are set.
pub open spec fn count_trues(s: Seq<bool>) -> int
    decreases s.len(),
{
    if s.len() == 0 {
        0int
    } else if s.last() {
        count_trues(s.drop_last()) + 1
    } else {
        count_trues(s.drop_last())
    }
}

proof fn lemma_count_trues_zero(s: Seq<bool>)
    requires
        forall|i: int| 0 <= i < s.len() ==> !s[i],
    ensures
        count_trues(s) == 0,
    decreases s.len(),
{
    if s.len() > 0 {
        lemma_count_trues_zero(s.drop_last());
    }
}

proof fn lemma_count_trues_bound(s: Seq<bool>)
    ensures
        0 <= count_trues(s) <= s.len(),
    decreases s.len(),
{
    if s.len() > 0 {
        lemma_count_trues_bound(s.drop_last());
    }
}

/// Setting a clear entry raises the count by one.
proof fn lemma_count_trues_update(s: Seq<bool>, i: int)
    requires
        0 <= i < s.len(),
    ensures
        !s[i] ==> count_trues(s.update(i, true)) == count_trues(s) + 1,
        s[i] ==> count_trues(s.update(i, true)) == count_trues(s),
        0 <= count_trues(s) <= s.len(),
        0 <= count_trues(s.update(i, true)) <= s.len(),
    decreases s.len(),
{
    lemma_count_trues_bound(s);
    lemma_count_trues_bound(s.update(i, true));
    if s.len() > 0 {
        if i == s.len() - 1 {
            assert(s.update(i, true).drop_last() =~= s.drop_last());
            assert(s.update(i, true).last());
        } else {
            lemma_count_trues_update(s.drop_last(), i);
            assert(s.update(i, true).drop_last() =~= s.drop_last().update(i, true));
            assert(s.update(i, true).last() == s.last());
        }
    }
}

/// A walk whose start is visited, in a graph whose visited set is closed
/// under edges, stays visited to its end.
proof fn lemma_closed_walk_marked(
    nodes: Seq<NodeView>,
    edges: Seq<Edge>,
    visited: Seq<bool>,
    ps: Seq<NodeId>,
)
    requires
        visited.len() == nodes.len(),
        is_path(edges, ps),
        marked(nodes, visited, ps.first()),
        forall|i: int, k: int|
            (0 <= i < nodes.len() && visited[i] && 0 <= k < edges.len() && (#[trigger] edges[k]).from
                == (#[trigger] nodes[i]).id) ==> marked(nodes, visited, edges[k].to),
    ensures
        marked(nodes, visited, ps.last()),
    decreases ps.len(),
{
    if ps.len() > 1 {
        let rest = ps.drop_first();
        let zero: int = 0;
        assert(edge_in(edges, ps[zero], ps[zero + 1]));
        assert(edge_in(edges, ps[0], ps[1]));
        let k = choose|k: int|
            0 <= k < edges.len() && (#[trigger] edges[k]).from == ps[0] && edges[k].to == ps[1];
        assert(ps.first() == ps[0]);
        let j = choose|j: int|
            0 <= j < nodes.len() && (#[trigger] nodes[j]).id == ps[0] && visited[j];
        assert(edges[k].from == nodes[j].id);
        assert(marked(nodes, visited, edges[k].to));
        assert(marked(nodes, visited, ps[1]));
        assert forall|i: int| 0 <= i < rest.len() - 1 implies #[trigger] edge_in(
            edges,
            rest[i],
            rest[i + 1],
        ) by {
            assert(rest[i] == ps[i + 1] && rest[i + 1] == ps[i + 2]);
            assert(edge_in(edges, ps[i + 1], ps[i + 2]));
        }
        assert(is_path(edges, rest));
        assert(rest.first() == ps[1]);
        lemma_closed_walk_marked(nodes, edges, visited, rest);
        assert(rest.last() == ps.last());
    }
}

/// The node list after binding the consumer's input.
pub open spec fn bind_consumer(
    nodes: Seq<NodeView>,
    to: NodeId,
    name: Seq<char>,
    source: NodeId,
) -> Seq<NodeView> {
    nodes.map(
        |i: int, n: NodeView| if n.id == to {
            NodeView {
                id: n.id,
                data: n.data,
                kind_name: n.kind_name,
                parameters: n.parameters,
                inputs: crate::node::spec_bind(n.inputs, name, source),
            }
        } else {
            n
        },
    )
}

/// With unique identities, binding the consumer is exactly an update at
/// its index.
proof fn lemma_bind_consumer_at(
    nodes: Seq<NodeView>,
    t: int,
    to: NodeId,
    name: Seq<char>,
    source: NodeId,
)
    requires
        forall|p: int, q: int| 0 <= p < q < nodes.len() ==> (#[trigger] nodes[p]).id != (
        #[trigger] nodes[q]).id,
        0 <= t < nodes.len(),
        nodes[t].id == to,
    ensures
        bind_consumer(nodes, to, name, source) == nodes.update(
            t,
            NodeView {
                id: nodes[t].id,
                data: nodes[t].data,
                kind_name: nodes[t].kind_name,
                parameters: nodes[t].parameters,
                inputs: crate::node::spec_bind(nodes[t].inputs, name, source),
            },
        ),
{
    assert forall|i: int| 0 <= i < nodes.len() && i != t implies (#[trigger] nodes[i]).id != to
        by {
        if i < t {
            assert(nodes[i].id != nodes[t].id);
        } else {
            assert(nodes[t].id != nodes[i].id);
        }
    }
    assert(bind_consumer(nodes, to, name, source) =~= nodes.update(
        t,
        NodeView {
            id: nodes[t].id,
            data: nodes[t].data,
            kind_name: nodes[t].kind_name,
            parameters: nodes[t].parameters,
            inputs: crate::node::spec_bind(nodes[t].inputs, name, source),
        },
    ));
}

/// Adding a checked edge and binding the consumer's input keeps the graph
/// well formed.
proof fn lemma_wf_after_connect(
    old_view: GraphView,
    new_view: GraphView,
    t: int,
    name: Seq<char>,
    source: NodeId,
)
    requires
        old_view.wf(),
        0 <= t < old_view.nodes.len(),
        new_view.nodes == old_view.nodes.update(
            t,
            NodeView {
                id: old_view.nodes[t].id,
                data: old_view.nodes[t].data,
                kind_name: old_view.nodes[t].kind_name,
                parameters: old_view.nodes[t].parameters,
                inputs: crate::node::spec_bind(old_view.nodes[t].inputs, name, source),
            },
        ),
        new_view.next_id == old_view.next_id,
        acyclic(new_view.edges),
        forall|k: int|
            0 <= k < new_view.edges.len() ==> has_node(
                old_view.nodes,
                (#[trigger] new_view.edges[k]).from,
            ) && has_node(old_view.nodes, new_view.edges[k].to),
    ensures
        new_view.wf(),
{
    let nv = new_view.nodes;
    let ov = old_view.nodes;
    assert forall|p: int, q: int| 0 <= p < q < nv.len() implies (#[trigger] nv[p]).id != (
    #[trigger] nv[q]).id by {
        assert(nv[p].id == ov[p].id && nv[q].id == ov[q].id);
    }
    assert forall|i: int| 0 <= i < nv.len() implies (#[trigger] nv[i]).id.0 < new_view.next_id by {
        assert(nv[i].id == ov[i].id);
    }
    assert forall|k: int| 0 <= k < new_view.edges.len() implies has_node(
        nv,
        (#[trigger] new_view.edges[k]).from,
    ) && has_node(nv, new_view.edges[k].to) by {
        lemma_find_node_exists(ov, new_view.edges[k].from);
        lemma_find_node_exists(ov, new_view.edges[k].to);
        let jf = choose|j: int|
            0 <= j < ov.len() && (#[trigger] ov[j]).id == new_view.edges[k].from;
        let jt = choose|j: int| 0 <= j < ov.len() && (#[trigger] ov[j]).id == new_view.edges[k].to;
        assert(nv[jf].id == ov[jf].id);
        assert(nv[jt].id == ov[jt].id);
        lemma_find_node_exists(nv, new_view.edges[k].from);
        lemma_find_node_exists(nv, new_view.edges[k].to);
    }
    assert forall|i: int| 0 <= i < nv.len() implies cap_wf((#[trigger] nv[i]).data) by {
        assert(nv[i].data == ov[i].data);
    }
}

/// The failure returned when evaluation runs out of recursion budget.
pub open spec fn depth_error() -> NodeErrorView {
    NodeErrorView::ComputationError {
        context: "evaluate"@,
        message: "recursion depth limit exceeded"@,
    }
}

/// Unmemoized depth-first evaluation: a node's declared inputs are
/// evaluated in binding order, each result collected, and the node's own
/// capability applied to the list.  Failures propagate unchanged.
pub open spec fn spec_evaluate(nodes: Seq<NodeView>, id: NodeId, fuel: nat) -> Result<
    ArtifactView,
    NodeErrorView,
>
    decreases fuel, 1int, 0int,
{
    if fuel == 0 {
        Err(depth_error())
    } else {
        match find_node(nodes, id) {
            None => Err(NodeErrorView::NodeNotFound(id)),
            Some(n) => match spec_eval_inputs(nodes, n.inputs, fuel) {
                Err(e) => Err(e),
                Ok(vals) => compute_spec(n.data, vals),
            },
        }
    }
}

/// The evaluated inputs, in binding order; the first failure propagates.
pub open spec fn spec_eval_inputs(
    nodes: Seq<NodeView>,
    inputs: Seq<(Seq<char>, NodeId)>,
    fuel: nat,
) -> Result<Seq<ArtifactView>, NodeErrorView>
    decreases fuel, 0int, inputs.len(),
{
    if inputs.len() == 0 {
        Ok(Seq::<ArtifactView>::empty())
    } else if fuel == 0 {
        Err(depth_error())
    } else {
        match spec_evaluate(nodes, inputs[0].1, (fuel - 1) as nat) {
            Err(e) => Err(e),
            Ok(v) => match spec_eval_inputs(nodes, inputs.drop_first(), fuel) {
                Err(e) => Err(e),
                Ok(rest) => Ok(seq![v] + rest),
            },
        }
    }
}

/// Evaluating a node with no declared inputs applies its capability to the
/// empty input list at once: the result is the same under every positive
/// recursion budget, so the evaluation never recurses.
pub proof fn lemma_evaluate_leaf(nodes: Seq<NodeView>, id: NodeId, fuel: nat)
    requires
        fuel >= 1,
        find_node(nodes, id) is Some,
        find_node(nodes, id)->Some_0.inputs.len() == 0,
    ensures
        spec_evaluate(nodes, id, fuel) == compute_spec(
            find_node(nodes, id)->Some_0.data,
            Seq::<ArtifactView>::empty(),
        ),
{
}

/// In a graph whose payloads are well formed, every successful evaluation
/// yields a well-formed artifact.
pub proof fn lemma_spec_evaluate_wf(nodes: Seq<NodeView>, id: NodeId, fuel: nat)
    requires
        forall|i: int| 0 <= i < nodes.len() ==> cap_wf((#[trigger] nodes[i]).data),
    ensures
        spec_evaluate(nodes, id, fuel) matches Ok(a) ==> artifact_wf(a),
    decreases fuel, 1int, 0int,
{
    if fuel > 0 {
        if find_node(nodes, id) is Some {
            let n = find_node(nodes, id)->Some_0;
            lemma_find_node_exists(nodes, id);
            lemma_eval_inputs_wf(nodes, n.inputs, fuel);
            if spec_eval_inputs(nodes, n.inputs, fuel) is Ok {
                let vals = spec_eval_inputs(nodes, n.inputs, fuel)->Ok_0;
                lemma_compute_spec_wf(n.data, vals);
            }
        }
    }
}

/// Companion to the evaluation lemma, for input lists.
pub proof fn lemma_eval_inputs_wf(
    nodes: Seq<NodeView>,
    inputs: Seq<(Seq<char>, NodeId)>,
    fuel: nat,
)
    requires
        forall|i: int| 0 <= i < nodes.len() ==> cap_wf((#[trigger] nodes[i]).data),
    ensures
        spec_eval_inputs(nodes, inputs, fuel) matches Ok(vals) ==> forall|j: int|
            0 <= j < vals.len() ==> artifact_wf(#[trigger] vals[j]),
    decreases fuel, 0int, inputs.len(),
{
    if inputs.len() > 0 && fuel > 0 {
        lemma_spec_evaluate_wf(nodes, inputs[0].1, (fuel - 1) as nat);
        lemma_eval_inputs_wf(nodes, inputs.drop_first(), fuel);
        if spec_eval_inputs(nodes, inputs, fuel) is Ok {
            let vals = spec_eval_inputs(nodes, inputs, fuel)->Ok_0;
            let v = spec_evaluate(nodes, inputs[0].1, (fuel - 1) as nat)->Ok_0;
            let rest = spec_eval_inputs(nodes, inputs.drop_first(), fuel)->Ok_0;
            assert forall|j: int| 0 <= j < vals.len() implies artifact_wf(#[trigger] vals[j]) by {
                if j == 0 {
                    assert(vals[0] == v);
                } else {
                    assert(vals[j] == rest[j - 1]);
                }
            }
        }
    }
}

/// The consumers fed by a producer, in edge-insertion order.
pub open spec fn consumers_of(edges: Seq<Edge>, id: NodeId) -> Seq<NodeId>
    decreases edges.len(),
{
    if edges.len() == 0 {
        Seq::<NodeId>::empty()
    } else if edges.last().from == id {
        consumers_of(edges.drop_last(), id).push(edges.last().to)
    } else {
        consumers_of(edges.drop_last(), id)
    }
}

/// The first input binding, scanning nodes in admission order and
/// bindings in binding order, whose producer is absent from the graph.
pub open spec fn missing_in(
    nodes: Seq<NodeView>,
    inputs: Seq<(Seq<char>, NodeId)>,
) -> Option<NodeId>
    decreases inputs.len(),
{
    if inputs.len() == 0 {
        None
    } else if !has_node(nodes, inputs[0].1) {
        Some(inputs[0].1)
    } else {
        missing_in(nodes, inputs.drop_first())
    }
}

/// Graph validation over a suffix of the node list.
pub open spec fn spec_validate_from(nodes: Seq<NodeView>, rest: Seq<NodeView>) -> Result<
    (),
    NodeErrorView,
>
    decreases rest.len(),
{
    if rest.len() == 0 {
        Ok(())
    } else {
        match missing_in(nodes, rest[0].inputs) {
            Some(id) => Err(NodeErrorView::NodeNotFound(id)),
            None => spec_validate_from(nodes, rest.drop_first()),
        }
    }
}

impl NodeGraph {
    /// Evaluates a node: depth-first recursion over its declared inputs in
    /// binding order, then its capability on the collected results.  The
    /// recursion budget of one more than the node count can only run out
    /// on an input chain that revisits a node; bindings made through
    /// `connect` cannot form one, since each comes with an edge the cycle
    /// check admitted, while a chain hand-bound past the graph hits the
    /// budget instead of recursing forever.
    pub fn evaluate(&self, node_id: &NodeId) -> (r: Result<Artifact, NodeError>)
        requires
            self@.wf(),
        ensures
            view_result(r) == spec_evaluate(
                self@.nodes,
                *node_id,
                (self@.nodes.len() + 1) as nat,
            ),
    {
        let fuel = self.nodes.len() + 1;
        self.evaluate_fuel(node_id, fuel)
    }

    /// Evaluation under an explicit recursion budget.
    fn evaluate_fuel(&self, id: &NodeId, fuel: usize) -> (r: Result<Artifact, NodeError>)
        requires
            self@.wf(),
        ensures
            view_result(r) == spec_evaluate(self@.nodes, *id, fuel as nat),
        decreases fuel,
    {
        let ghost nodes = self@.nodes;
        if fuel == 0 {
            return Err(
                NodeError::ComputationError {
                    context: "evaluate".to_owned(),
                    message: "recursion depth limit exceeded".to_owned(),
                },
            );
        }
        let node = match self.get_node(id) {
            Some(n) => n,
            None => {
                return Err(NodeError::NodeNotFound(*id));
            },
        };
        let ghost nview = node@;
        let ghost bindings = nview.inputs;
        let input_count = node.inputs.len();
        let mut values: Vec<Artifact> = Vec::new();
        let mut i: usize = 0;
        proof {
            assert(bindings.skip(0) =~= bindings);
            assert(artifact_views(values@) =~= Seq::<ArtifactView>::empty());
        }
        while i < input_count
            invariant
                self@.wf(),
                nodes == self@.nodes,
                fuel >= 1,
                find_node(nodes, *id) == Some(nview),
                bindings == nview.inputs,
                input_count == bindings.len(),
                i <= input_count,
                values@.len() == i,
                forall|j: int| 0 <= j < i ==> artifact_wf(#[trigger] values@[j]@),
                spec_eval_inputs(nodes, bindings, fuel as nat) == (match spec_eval_inputs(
                    nodes,
                    bindings.skip(i as int),
                    fuel as nat,
                ) {
                    Ok(rest) => Ok::<Seq<ArtifactView>, NodeErrorView>(
                        artifact_views(values@) + rest,
                    ),
                    Err(e) => Err(e),
                }),
                node@ == nview,
            decreases input_count - i,
        {
            let input_id = node.inputs[i].1;
            proof {
                assert(bindings[i as int] == (node.inputs@[i as int].0@, node.inputs@[i as int].1));
                assert(bindings.skip(i as int)[0] == bindings[i as int]);
                assert(bindings.skip(i as int).drop_first() =~= bindings.skip(i as int + 1));
            }
            match self.evaluate_fuel(&input_id, fuel - 1) {
                Err(e) => {
                    proof {
                        assert(spec_eval_inputs(nodes, bindings.skip(i as int), fuel as nat)
                            == Err::<Seq<ArtifactView>, NodeErrorView>(e@));
                    }
                    return Err(e);
                },
                Ok(v) => {
                    proof {
                        lemma_spec_evaluate_wf(nodes, input_id, (fuel - 1) as nat);
                        let ghost pre_views = artifact_views(values@);
                        assert(artifact_views(values@.push(v)) =~= pre_views.push(v@));
                    }
                    let ghost pre_values = values@;
                    values.push(v);
                    proof {
                        assert(artifact_views(values@) =~= artifact_views(pre_values).push(v@));
                        if spec_eval_inputs(nodes, bindings.skip(i as int + 1), fuel as nat)
                            is Ok {
                            let rest = spec_eval_inputs(
                                nodes,
                                bindings.skip(i as int + 1),
                                fuel as nat,
                            )->Ok_0;
                            assert(seq![v@] + rest =~= (seq![v@] + rest));
                            assert(artifact_views(pre_values) + (seq![v@] + rest)
                                =~= artifact_views(values@) + rest);
                        }
                    }
                },
            }
            i = i + 1;
        }
        proof {
            assert(bindings.skip(input_count as int) =~= Seq::<(Seq<char>, NodeId)>::empty());
            assert(spec_eval_inputs(nodes, bindings.skip(input_count as int), fuel as nat)
                == Ok::<Seq<ArtifactView>, NodeErrorView>(Seq::<ArtifactView>::empty()));
            assert(artifact_views(values@) + Seq::<ArtifactView>::empty() =~= artifact_views(
                values@,
            ));
            lemma_find_node_exists(nodes, *id);
            let j = choose|j: int|
                0 <= j < nodes.len() && #[trigger] nodes[j] == nview && nview.id == *id;
            assert(cap_wf(nview.data));
        }
        node.data.compute(&values)
    }

    /// Confirms every input binding of every node names a producer that is
    /// present, returning the first violation in admission and binding
    /// order.
    pub fn validate(&self) -> (r: Result<(), NodeError>)
        requires
            self@.wf(),
        ensures
            match r {
                Ok(()) => spec_validate_from(self@.nodes, self@.nodes) is Ok,
                Err(e) => spec_validate_from(self@.nodes, self@.nodes) == Err::<
                    (),
                    NodeErrorView,
                >(e@),
            },
    {
        let ghost nodes = self@.nodes;
        let n = self.nodes.len();
        let mut i: usize = 0;
        proof {
            assert(nodes.skip(0) =~= nodes);
        }
        while i < n
            invariant
                nodes == self@.nodes,
                self@.wf(),
                n == nodes.len(),
                i <= n,
                spec_validate_from(nodes, nodes) == spec_validate_from(
                    nodes,
                    nodes.skip(i as int),
                ),
            decreases n - i,
        {
            proof {
                assert(nodes[i as int] == self.nodes@[i as int]@);
                assert(nodes.skip(i as int)[0] == nodes[i as int]);
                assert(nodes.skip(i as int).drop_first() =~= nodes.skip(i as int + 1));
            }
            let ghost bindings = nodes[i as int].inputs;
            let input_count = self.nodes[i].inputs.len();
            let mut k: usize = 0;
            proof {
                assert(bindings.skip(0) =~= bindings);
            }
            while k < input_count
                invariant
                    nodes == self@.nodes,
                    self@.wf(),
                    n == nodes.len(),
                    i < n,
                    nodes[i as int] == self.nodes@[i as int]@,
                    bindings == nodes[i as int].inputs,
                    input_count == bindings.len(),
                    k <= input_count,
                    missing_in(nodes, bindings) == missing_in(nodes, bindings.skip(k as int)),
                    spec_validate_from(nodes, nodes) == spec_validate_from(
                        nodes,
                        nodes.skip(i as int),
                    ),
                decreases input_count - k,
            {
                proof {
                    assert(bindings[k as int] == (self.nodes@[i as int].inputs@[k as int].0@,
                    self.nodes@[i as int].inputs@[k as int].1));
                    assert(bindings.skip(k as int)[0] == bindings[k as int]);
                    assert(bindings.skip(k as int).drop_first() =~= bindings.skip(k as int + 1));
                }
                let producer = self.nodes[i].inputs[k].1;
                let present = self.find_index(&producer);
                proof {
                    lemma_find_node_exists(nodes, producer);
                }
                match present {
                    Some(_) => {},
                    None => {
                        proof {
                            assert(!has_node(nodes, producer));
                            assert(missing_in(nodes, bindings.skip(k as int)) == Some(producer));
                            assert(nodes.skip(i as int)[0] == nodes[i as int]);
                            assert(spec_validate_from(nodes, nodes.skip(i as int)) == Err::<
                                (),
                                NodeErrorView,
                            >(NodeErrorView::NodeNotFound(producer)));
                        }
                        return Err(NodeError::NodeNotFound(producer));
                    },
                }
                k = k + 1;
            }
            proof {
                assert(bindings.skip(input_count as int) =~= Seq::<(Seq<char>, NodeId)>::empty());
            }
            i = i + 1;
        }
        proof {
            assert(nodes.skip(n as int) =~= Seq::<NodeView>::empty());
        }
        Ok(())
    }

    /// The consumers directly fed by a node.
    pub fn get_node_dependencies(&self, node_id: &NodeId) -> (r: Result<Vec<NodeId>, NodeError>)
        requires
            self@.wf(),
        ensures
            has_node(self@.nodes, *node_id) ==> (r matches Ok(deps) && deps@ == consumers_of(
                self@.edges,
                *node_id,
            )),
            !has_node(self@.nodes, *node_id) ==> (r matches Err(e) && e@
                == NodeErrorView::NodeNotFound(*node_id)),
    {
        let ghost edges = self@.edges;
        proof {
            lemma_find_node_exists(self@.nodes, *node_id);
        }
        if self.find_index(node_id).is_none() {
            return Err(NodeError::NodeNotFound(*node_id));
        }
        let n = self.edges.len();
        let mut deps: Vec<NodeId> = Vec::new();
        let mut k: usize = 0;
        proof {
            assert(edges.take(0) =~= Seq::<Edge>::empty());
        }
        while k < n
            invariant
                edges == self@.edges,
                n == edges.len(),
                k <= n,
                deps@ == consumers_of(edges.take(k as int), *node_id),
            decreases n - k,
        {
            proof {
                assert(edges.take(k as int + 1).drop_last() =~= edges.take(k as int));
                assert(edges.take(k as int + 1).last() == edges[k as int]);
            }
            if self.edges[k].from.0 == node_id.0 {
                deps.push(self.edges[k].to);
            }
            k = k + 1;
        }
        proof {
            assert(edges.take(n as int) =~= edges);
        }
        Ok(deps)
    }
}

} // verus!
