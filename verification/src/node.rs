//! A node: a capability payload under a stable identity, with named input
//! bindings that each name a producer node.

use vstd::prelude::*;
use crate::capability::{cap_wf, Capability, CapabilityView, spec_kind_name};
use crate::error::NodeError;
use crate::ids::NodeId;
use crate::params::{ParamValue, ParamValueView};

verus! {

/// The model of a node.
pub struct NodeView {
    pub id: NodeId,
    pub data: CapabilityView,
    pub kind_name: Seq<char>,
    pub parameters: ParamValueView,
    pub inputs: Seq<(Seq<char>, NodeId)>,
}

/// An identified computation unit with named input bindings.
#[derive(Debug)]
pub struct Node {
    pub id: NodeId,
    pub data: Capability,
    pub kind_name: String,
    pub parameters: ParamValue,
    pub inputs: Vec<(String, NodeId)>,
}

impl View for Node {
    type V = NodeView;

    open spec fn view(&self) -> NodeView {
        NodeView {
            id: self.id,
            data: self.data@,
            kind_name: self.kind_name@,
            parameters: self.parameters@,
            inputs: self.inputs@.map_values(|p: (String, NodeId)| (p.0@, p.1)),
        }
    }
}

/// Binding a name: the first binding with that name is overwritten in
/// place; a fresh name is appended, fixing the iteration order evaluation
/// uses.
pub open spec fn spec_bind(
    inputs: Seq<(Seq<char>, NodeId)>,
    name: Seq<char>,
    source: NodeId,
) -> Seq<(Seq<char>, NodeId)>
    decreases inputs.len(),
{
    if inputs.len() == 0 {
        seq![(name, source)]
    } else if inputs[0].0 == name {
        seq![(name, source)] + inputs.drop_first()
    } else {
        seq![inputs[0]] + spec_bind(inputs.drop_first(), name, source)
    }
}

/// The producer bound to a name: the first binding wins.
pub open spec fn spec_lookup(inputs: Seq<(Seq<char>, NodeId)>, name: Seq<char>) -> Option<NodeId>
    decreases inputs.len(),
{
    if inputs.len() == 0 {
        None
    } else if inputs[0].0 == name {
        Some(inputs[0].1)
    } else {
        spec_lookup(inputs.drop_first(), name)
    }
}

/// Where no binding in the first i entries carries the name, binding walks
/// past them unchanged.
proof fn lemma_bind_skip(
    inputs: Seq<(Seq<char>, NodeId)>,
    name: Seq<char>,
    source: NodeId,
    i: int,
)
    requires
        0 <= i <= inputs.len(),
        forall|j: int| 0 <= j < i ==> inputs[j].0 != name,
    ensures
        spec_bind(inputs, name, source) == inputs.take(i) + spec_bind(
            inputs.skip(i),
            name,
            source,
        ),
    decreases i,
{
    if i == 0 {
        assert(inputs.take(0) =~= Seq::<(Seq<char>, NodeId)>::empty());
        assert(inputs.skip(0) =~= inputs);
        assert(inputs.take(0) + spec_bind(inputs, name, source) =~= spec_bind(
            inputs,
            name,
            source,
        ));
    } else {
        assert forall|j: int| 0 <= j < i - 1 implies inputs.drop_first()[j].0 != name by {
            assert(inputs.drop_first()[j] == inputs[j + 1]);
        }
        lemma_bind_skip(inputs.drop_first(), name, source, i - 1);
        assert(inputs.drop_first().take(i - 1) =~= inputs.take(i).drop_first());
        assert(inputs.drop_first().skip(i - 1) =~= inputs.skip(i));
        assert(seq![inputs[0]] + (inputs.take(i).drop_first() + spec_bind(
            inputs.skip(i),
            name,
            source,
        )) =~= inputs.take(i) + spec_bind(inputs.skip(i), name, source));
    }
}

/// Likewise for lookups.
proof fn lemma_lookup_skip(inputs: Seq<(Seq<char>, NodeId)>, name: Seq<char>, i: int)
    requires
        0 <= i <= inputs.len(),
        forall|j: int| 0 <= j < i ==> inputs[j].0 != name,
    ensures
        spec_lookup(inputs, name) == spec_lookup(inputs.skip(i), name),
    decreases i,
{
    if i == 0 {
        assert(inputs.skip(0) =~= inputs);
    } else {
        assert forall|j: int| 0 <= j < i - 1 implies inputs.drop_first()[j].0 != name by {
            assert(inputs.drop_first()[j] == inputs[j + 1]);
        }
        lemma_lookup_skip(inputs.drop_first(), name, i - 1);
        assert(inputs.drop_first().skip(i - 1) =~= inputs.skip(i));
    }
}

impl Node {
    /// A fresh node around a payload.  Its identity is assigned when a
    /// graph admits it; until then it carries the null identity.
    pub fn new(data: Capability) -> (n: Node)
        requires
            cap_wf(data@),
        ensures
            n@.id == NodeId(0),
            n@.data == data@,
            n@.kind_name == spec_kind_name(data@),
            n@.parameters is Null,
            n@.inputs.len() == 0,
            cap_wf(n@.data),
    {
        let kind_name = data.kind_name().to_owned();
        let n = Node {
            id: NodeId(0),
            data,
            kind_name,
            parameters: ParamValue::Null,
            inputs: Vec::new(),
        };
        proof {
            assert(n@.inputs =~= Seq::<(Seq<char>, NodeId)>::empty());
        }
        n
    }

    /// A fresh node that remembers the name and parameters it was built
    /// from, for the persisted form.
    pub fn from_parts(data: Capability, kind_name: String, parameters: ParamValue) -> (n: Node)
        requires
            cap_wf(data@),
        ensures
            n@.id == NodeId(0),
            n@.data == data@,
            n@.kind_name == kind_name@,
            n@.parameters == parameters@,
            n@.inputs.len() == 0,
            cap_wf(n@.data),
    {
        let n = Node { id: NodeId(0), data, kind_name, parameters, inputs: Vec::new() };
        proof {
            assert(n@.inputs =~= Seq::<(Seq<char>, NodeId)>::empty());
        }
        n
    }

    pub fn id(&self) -> (r: &NodeId)
        ensures
            *r == self@.id,
    {
        &self.id
    }

    pub fn data(&self) -> (r: &Capability)
        ensures
            r@ == self@.data,
    {
        &self.data
    }

    /// The name this node was created under.
    pub fn kind(&self) -> (r: &String)
        ensures
            r@ == self@.kind_name,
    {
        &self.kind_name
    }

    /// Binds an input name to a producer.  Rebinding a bound name
    /// overwrites that binding in place.
    pub fn connect_input(&mut self, input_name: &str, source_id: NodeId)
        ensures
            final(self)@.inputs == spec_bind(old(self)@.inputs, input_name@, source_id),
            final(self)@.id == old(self)@.id,
            final(self)@.data == old(self)@.data,
            final(self)@.kind_name == old(self)@.kind_name,
            final(self)@.parameters == old(self)@.parameters,
    {
        let name_string = input_name.to_owned();
        let n = self.inputs.len();
        let ghost mapped = self.inputs@.map_values(|p: (String, NodeId)| (p.0@, p.1));
        let mut i: usize = 0;
        while i < n
            invariant
                *self == *old(self),
                n == self.inputs@.len(),
                i <= n,
                name_string@ == input_name@,
                mapped == self.inputs@.map_values(|p: (String, NodeId)| (p.0@, p.1)),
                forall|j: int| 0 <= j < i ==> mapped[j].0 != input_name@,
            decreases n - i,
        {
            if self.inputs[i].0 == name_string {
                proof {
                    assert(mapped[i as int] == (self.inputs@[i as int].0@, self.inputs@[
                        i as int].1));
                    lemma_bind_skip(mapped, input_name@, source_id, i as int);
                    assert(mapped.skip(i as int)[0] == mapped[i as int]);
                }
                self.inputs.set(i, (name_string, source_id));
                proof {
                    let updated = self.inputs@.map_values(|p: (String, NodeId)| (p.0@, p.1));
                    assert(updated =~= mapped.update(i as int, (input_name@, source_id)));
                    assert(mapped.skip(i as int).drop_first() =~= mapped.skip(i as int + 1));
                    assert(spec_bind(mapped.skip(i as int), input_name@, source_id)
                        == seq![(input_name@, source_id)] + mapped.skip(i as int + 1));
                    assert(mapped.take(i as int) + (seq![(input_name@, source_id)] + mapped.skip(
                        i as int + 1,
                    )) =~= updated);
                    assert(spec_bind(mapped, input_name@, source_id) == updated);
                }
                return ;
            }
            proof {
                assert(mapped[i as int] == (self.inputs@[i as int].0@, self.inputs@[i as int].1));
            }
            i = i + 1;
        }
        proof {
            lemma_bind_skip(mapped, input_name@, source_id, n as int);
            assert(mapped.skip(n as int) =~= Seq::<(Seq<char>, NodeId)>::empty());
            assert(mapped.take(n as int) =~= mapped);
        }
        self.inputs.push((name_string, source_id));
        proof {
            let updated = self.inputs@.map_values(|p: (String, NodeId)| (p.0@, p.1));
            assert(updated =~= mapped + seq![(input_name@, source_id)]);
            assert(spec_bind(mapped.skip(n as int), input_name@, source_id) == seq![(
                input_name@,
                source_id,
            )]);
            assert(mapped.take(n as int) + seq![(input_name@, source_id)] =~= updated);
            assert(spec_bind(mapped, input_name@, source_id) == updated);
        }
    }

    /// The producer bound to a name, if any.
    pub fn get_input(&self, name: &str) -> (r: Option<&NodeId>)
        ensures
            match r {
                Some(id) => spec_lookup(self@.inputs, name@) == Some(*id),
                None => spec_lookup(self@.inputs, name@) is None,
            },
    {
        let name_string = name.to_owned();
        let n = self.inputs.len();
        let ghost mapped = self.inputs@.map_values(|p: (String, NodeId)| (p.0@, p.1));
        let mut i: usize = 0;
        while i < n
            invariant
                n == self.inputs@.len(),
                i <= n,
                name_string@ == name@,
                mapped == self.inputs@.map_values(|p: (String, NodeId)| (p.0@, p.1)),
                forall|j: int| 0 <= j < i ==> mapped[j].0 != name@,
            decreases n - i,
        {
            proof {
                assert(mapped[i as int] == (self.inputs@[i as int].0@, self.inputs@[i as int].1));
            }
            if self.inputs[i].0 == name_string {
                proof {
                    lemma_lookup_skip(mapped, name@, i as int);
                    assert(mapped.skip(i as int)[0] == mapped[i as int]);
                }
                return Some(&self.inputs[i].1);
            }
            i = i + 1;
        }
        proof {
            lemma_lookup_skip(mapped, name@, n as int);
            assert(mapped.skip(n as int) =~= Seq::<(Seq<char>, NodeId)>::empty());
        }
        None
    }

    /// Every name bound in a node's input map resolves; self-validation of
    /// a node in isolation therefore always passes.
    pub fn validate(&self) -> (r: Result<(), NodeError>)
        ensures
            r is Ok,
    {
        let n = self.inputs.len();
        let ghost mapped = self.inputs@.map_values(|p: (String, NodeId)| (p.0@, p.1));
        let mut i: usize = 0;
        while i < n
            invariant
                n == self.inputs@.len(),
                mapped == self.inputs@.map_values(|p: (String, NodeId)| (p.0@, p.1)),
                i <= n,
            decreases n - i,
        {
            proof {
                assert(mapped[i as int] == (self.inputs@[i as int].0@, self.inputs@[i as int].1));
                lemma_lookup_present(mapped, i as int);
            }
            let bound = self.get_input(self.inputs[i].0.as_str());
            if bound.is_none() {
                return Err(NodeError::MissingInput(self.inputs[i].0.clone()));
            }
            i = i + 1;
        }
        Ok(())
    }
}

/// A name that appears in the bindings looks up to something.
proof fn lemma_lookup_present(inputs: Seq<(Seq<char>, NodeId)>, i: int)
    requires
        0 <= i < inputs.len(),
    ensures
        spec_lookup(inputs, inputs[i].0) is Some,
    decreases i,
{
    if inputs[0].0 != inputs[i].0 {
        lemma_lookup_present(inputs.drop_first(), i - 1);
    }
}

} // verus!
