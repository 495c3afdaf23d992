//! The node factory registry: kind names mapped to constructors, so nodes
//! can be built dynamically from interactive edits or the persisted form.

use vstd::prelude::*;
use crate::capability::{BlendNode, BlendMode, Capability, cap_wf, ConstNode, ImageNode, InvertNode, OutputNode};
use crate::error::{NodeError, NodeErrorView};
use crate::node::Node;
use crate::params::{ParamScalar, ParamValue};
use crate::textfmt::{dec_digits, usize_to_dec};

verus! {

/// A constructor for one node kind.  Implementations come from the
/// application as well as from this crate, so the methods carry no
/// contracts; what the registry guarantees it checks itself.
pub trait NodeFactory {
    /// The kind name the factory registers under.
    fn kind_name(&self) -> String;

    /// Checks the parameters before any construction happens.
    fn validate_parameters(&self, parameters: &ParamValue) -> Result<(), NodeError>;

    /// Builds the capability payload from the parameters.
    fn create(&self, parameters: &ParamValue) -> Result<Capability, NodeError>;
}

/// A name-keyed set of node factories: the factory at an index is
/// registered under the name at that index.
pub struct NodeRegistry {
    pub kind_names: Vec<String>,
    pub factories: Vec<Box<dyn NodeFactory>>,
}

proof fn lemma_push_len<T>(s: Seq<T>, v: T)
    ensures
        s.push(v).len() == s.len() + 1,
{
}

proof fn lemma_remove_insert_is_update<T>(s: Seq<T>, i: int, v: T)
    requires
        0 <= i < s.len(),
    ensures
        s.remove(i).insert(i, v) == s.update(i, v),
        s.remove(i).insert(i, v).len() == s.len(),
{
    assert(s.remove(i).insert(i, v) =~= s.update(i, v));
}

/// Whether a name is among the registered names.
pub open spec fn spec_has_name(names: Seq<Seq<char>>, name: Seq<char>) -> bool {
    exists|i: int| 0 <= i < names.len() && names[i] == name
}

/// The registered names joined with a comma and a space.
pub open spec fn spec_join_names(names: Seq<Seq<char>>) -> Seq<char>
    decreases names.len(),
{
    if names.len() == 0 {
        Seq::<char>::empty()
    } else if names.len() == 1 {
        names[0]
    } else {
        spec_join_names(names.drop_last()) + ", "@ + names.last()
    }
}

/// The failure text for an unregistered kind name: it names the kind and
/// enumerates every currently registered name.
pub open spec fn spec_unregistered_message(name: Seq<char>, names: Seq<Seq<char>>) -> Seq<char> {
    "No factory registered for node kind: "@ + name + ". Available kinds: "@ + spec_join_names(
        names,
    )
}

impl NodeRegistry {
    /// The registered names, in registration order.
    pub open spec fn names(&self) -> Seq<Seq<char>> {
        self.kind_names@.map_values(|s: String| s@)
    }

    /// Registered names are unique, and each has its factory.
    pub open spec fn wf(&self) -> bool {
        &&& forall|i: int, j: int|
            0 <= i < j < self.names().len() ==> self.names()[i] != self.names()[j]
        &&& self.factories@.len() == self.kind_names@.len()
    }

    pub fn new() -> (r: NodeRegistry)
        ensures
            r.wf(),
            r.names().len() == 0,
    {
        let r = NodeRegistry { kind_names: Vec::new(), factories: Vec::new() };
        proof {
            assert(r.names() =~= Seq::<Seq<char>>::empty());
        }
        r
    }

    /// The index registered under a name, if any.
    fn find_entry(&self, name: &String) -> (r: Option<usize>)
        ensures
            match r {
                Some(i) => i < self.names().len() && self.names()[i as int] == name@,
                None => !spec_has_name(self.names(), name@),
            },
    {
        let n = self.kind_names.len();
        let mut i: usize = 0;
        while i < n
            invariant
                n == self.kind_names@.len(),
                i <= n,
                forall|j: int| 0 <= j < i ==> self.names()[j] != name@,
            decreases n - i,
        {
            proof {
                assert(self.names()[i as int] == self.kind_names@[i as int]@);
            }
            if self.kind_names[i] == *name {
                return Some(i);
            }
            i = i + 1;
        }
        None
    }

    /// Stores a factory under an explicit name; a factory already
    /// registered under that name is replaced in place, and every other
    /// registration is left as it was.
    pub fn register_named(&mut self, name: String, factory: Box<dyn NodeFactory>)
        requires
            old(self).wf(),
        ensures
            final(self).wf(),
            spec_has_name(final(self).names(), name@),
            forall|nm: Seq<char>|
                #[trigger] spec_has_name(old(self).names(), nm) ==> spec_has_name(
                    final(self).names(),
                    nm,
                ),
            spec_has_name(old(self).names(), name@) ==> final(self).kind_names@
                == old(self).kind_names@ && (exists|i: int|
                0 <= i < old(self).names().len() && old(self).names()[i] == name@ && final(self).factories@ == old(self).factories@.update(i, factory)),
            !spec_has_name(old(self).names(), name@) ==> final(self).names() == old(self).names().push(name@) && final(self).factories@ == old(self).factories@.push(factory),
    {
        let found = self.find_entry(&name);
        match found {
            Some(i) => {
                let ghost old_factories = self.factories@;
                proof {
                    lemma_remove_insert_is_update(self.factories@, i as int, factory);
                }
                self.factories.remove(i);
                self.factories.insert(i, factory);
                proof {
                    assert(self.factories@ == old_factories.update(i as int, factory));
                    assert(spec_has_name(self.names(), name@));
                }
            },
            None => {
                let ghost old_names = self.names();
                let ghost nm = name@;
                proof {
                    lemma_push_len(self.factories@, factory);
                }
                self.kind_names.push(name);
                self.factories.push(factory);
                proof {
                    assert(self.names() =~= old_names.push(nm));
                    assert forall|i: int, j: int|
                        0 <= i < j < self.names().len() implies self.names()[i]
                        != self.names()[j] by {
                        if j < old_names.len() {
                        } else {
                            assert(self.names()[j] == nm);
                            assert(self.names()[i] == old_names[i]);
                            assert(!spec_has_name(old_names, nm));
                        }
                    }
                    assert forall|x: Seq<char>| #[trigger] spec_has_name(old_names, x) implies
                        spec_has_name(self.names(), x) by {
                        let w = choose|w: int|
                            0 <= w < old_names.len() && (#[trigger] old_names[w]) == x;
                        assert(self.names()[w] == x);
                    }
                    assert(self.names()[self.names().len() - 1] == nm);
                }
            },
        }
    }

    /// Stores a factory under its own kind name; a factory already
    /// registered under that name is replaced in place.
    pub fn register(&mut self, factory: Box<dyn NodeFactory>)
        requires
            old(self).wf(),
        ensures
            final(self).wf(),
            forall|nm: Seq<char>|
                #[trigger] spec_has_name(old(self).names(), nm) ==> spec_has_name(
                    final(self).names(),
                    nm,
                ),
            (final(self).kind_names@ == old(self).kind_names@ && (exists|i: int|
                0 <= i < old(self).factories@.len() && final(self).factories@ == #[trigger] old(self).factories@.update(i, factory))) || (final(self).factories@ == old(self).factories@.push(factory) && (exists|nm: Seq<char>|
                final(self).names() == #[trigger] old(self).names().push(nm) && !spec_has_name(
                    old(self).names(),
                    nm,
                ))),
    {
        let name = factory.kind_name();
        let found = self.find_entry(&name);
        match found {
            Some(i) => {
                let ghost old_factories = self.factories@;
                proof {
                    lemma_remove_insert_is_update(self.factories@, i as int, factory);
                }
                self.factories.remove(i);
                self.factories.insert(i, factory);
                proof {
                    assert(self.factories@ == old_factories.update(i as int, factory));
                }
            },
            None => {
                let ghost old_names = self.names();
                let ghost nm = name@;
                proof {
                    lemma_push_len(self.factories@, factory);
                }
                self.kind_names.push(name);
                self.factories.push(factory);
                proof {
                    assert(self.names() =~= old_names.push(nm));
                    assert forall|i: int, j: int|
                        0 <= i < j < self.names().len() implies self.names()[i]
                        != self.names()[j] by {
                        if j < old_names.len() {
                        } else {
                            assert(self.names()[j] == nm);
                            assert(self.names()[i] == old_names[i]);
                            assert(!spec_has_name(old_names, nm));
                        }
                    }
                    assert forall|x: Seq<char>| #[trigger] spec_has_name(old_names, x) implies
                        spec_has_name(self.names(), x) by {
                        let w = choose|w: int|
                            0 <= w < old_names.len() && (#[trigger] old_names[w]) == x;
                        assert(self.names()[w] == x);
                    }
                }
            },
        }
    }

    pub fn has_factory(&self, kind_name: &str) -> (r: bool)
        ensures
            r == spec_has_name(self.names(), kind_name@),
    {
        let owned = kind_name.to_owned();
        self.find_entry(&owned).is_some()
    }

    /// The registered kind names, in registration order.
    pub fn get_available_node_kinds(&self) -> (r: Vec<String>)
        ensures
            r@.map_values(|s: String| s@) == self.names(),
    {
        let n = self.kind_names.len();
        let mut names: Vec<String> = Vec::new();
        let mut i: usize = 0;
        while i < n
            invariant
                n == self.kind_names@.len(),
                i <= n,
                names@.len() == i,
                forall|j: int| 0 <= j < i ==> (#[trigger] names@[j])@ == self.names()[j],
            decreases n - i,
        {
            proof {
                assert(self.names()[i as int] == self.kind_names@[i as int]@);
            }
            names.push(self.kind_names[i].clone());
            proof {
                assert(names@[i as int]@ == self.kind_names@[i as int]@);
            }
            i = i + 1;
        }
        proof {
            assert(names@.map_values(|s: String| s@) =~= self.names());
        }
        names
    }

    /// The registered names joined with a comma and a space.
    fn join_names(&self) -> (r: String)
        ensures
            r@ == spec_join_names(self.names()),
    {
        let n = self.kind_names.len();
        let mut joined = String::new();
        let mut i: usize = 0;
        proof {
            if n == 0 {
                assert(self.names().take(0) =~= Seq::<Seq<char>>::empty());
            }
        }
        while i < n
            invariant
                n == self.kind_names@.len(),
                i <= n,
                joined@ == spec_join_names(self.names().take(i as int)),
                i == 0 ==> joined@.len() == 0,
            decreases n - i,
        {
            proof {
                assert(self.names()[i as int] == self.kind_names@[i as int]@);
                assert(self.names().take(i as int + 1).drop_last() =~= self.names().take(i as int));
                assert(self.names().take(i as int + 1).last() == self.names()[i as int]);
                if i == 0 {
                    assert(spec_join_names(self.names().take(1)) == self.names()[0]);
                }
            }
            if i > 0 {
                joined.append(", ");
            }
            joined.append(self.kind_names[i].as_str());
            i = i + 1;
        }
        proof {
            assert(self.names().take(n as int) =~= self.names());
        }
        joined
    }

    /// A description of the registry: how many factories it holds, and
    /// every registered kind name.
    pub fn dump_registry_info(&self) -> (r: String)
        ensures
            r@ == spec_registry_info(self.names()),
    {
        let mut info = String::new();
        info.append("Node Registry Information:\nTotal registered factories: ");
        let count = usize_to_dec(self.kind_names.len());
        info.append(count.as_str());
        info.append("\n\nRegistered Node Types:\n");
        let n = self.kind_names.len();
        let mut i: usize = 0;
        let ghost header = info@;
        proof {
            assert(header + spec_name_lines(self.names().take(0)) =~= header) by {
                assert(self.names().take(0) =~= Seq::<Seq<char>>::empty());
            }
        }
        while i < n
            invariant
                n == self.kind_names@.len(),
                i <= n,
                info@ == header + spec_name_lines(self.names().take(i as int)),
            decreases n - i,
        {
            proof {
                assert(self.names()[i as int] == self.kind_names@[i as int]@);
                assert(self.names().take(i as int + 1).drop_last() =~= self.names().take(i as int));
                assert(self.names().take(i as int + 1).last() == self.names()[i as int]);
            }
            info.append("- ");
            info.append(self.kind_names[i].as_str());
            info.append("\n");
            i = i + 1;
        }
        proof {
            assert(self.names().take(n as int) =~= self.names());
        }
        info
    }

    /// Builds a node of a registered kind: the factory's parameter
    /// validation runs first, then construction, then the node's own
    /// self-validation; any failure aborts with no partial node.  An
    /// unregistered kind fails with a message enumerating every
    /// registered kind name.  A successful node carries the requested
    /// kind name and parameters verbatim, no input bindings, and the
    /// null identity until a graph admits it.
    pub fn create_node(&self, kind_name: &str, parameters: &ParamValue) -> (r: Result<
        Node,
        NodeError,
    >)
        requires
            self.wf(),
        ensures
            !spec_has_name(self.names(), kind_name@) ==> (r matches Err(e) && e@
                == NodeErrorView::ValidationError(
                spec_unregistered_message(kind_name@, self.names()),
            )),
            r matches Ok(node) ==> {
                &&& spec_has_name(self.names(), kind_name@)
                &&& node@.id == crate::ids::NodeId(0)
                &&& node@.kind_name == kind_name@
                &&& node@.parameters == parameters@
                &&& node@.inputs.len() == 0
                &&& cap_wf(node@.data)
            },
    {
        let owned = kind_name.to_owned();
        let found = self.find_entry(&owned);
        let index = match found {
            Some(i) => i,
            None => {
                let mut message = String::new();
                message.append("No factory registered for node kind: ");
                message.append(kind_name);
                message.append(". Available kinds: ");
                let joined = self.join_names();
                message.append(joined.as_str());
                return Err(NodeError::ValidationError(message));
            },
        };
        let factory = &self.factories[index];
        match factory.validate_parameters(parameters) {
            Ok(()) => {},
            Err(e) => {
                return Err(e);
            },
        }
        let capability = match factory.create(parameters) {
            Ok(c) => c,
            Err(e) => {
                return Err(e);
            },
        };
        if !capability.is_wf() {
            return Err(
                NodeError::ValidationError("factory produced a malformed image payload".to_owned()),
            );
        }
        let node = Node::from_parts(capability, owned, parameters.clone_value());
        match node.validate() {
            Ok(()) => Ok(node),
            Err(e) => Err(e),
        }
    }
}

/// The per-name lines of the registry description.
pub open spec fn spec_name_lines(names: Seq<Seq<char>>) -> Seq<char>
    decreases names.len(),
{
    if names.len() == 0 {
        Seq::<char>::empty()
    } else {
        spec_name_lines(names.drop_last()) + "- "@ + names.last() + "\n"@
    }
}

/// The descriptive text `dump_registry_info` renders.
pub open spec fn spec_registry_info(names: Seq<Seq<char>>) -> Seq<char> {
    "Node Registry Information:\nTotal registered factories: "@ + dec_digits(names.len() as int)
        + "\n\nRegistered Node Types:\n"@ + spec_name_lines(names)
}

/// Builds image source nodes.
pub struct ImageNodeFactory;

impl NodeFactory for ImageNodeFactory {
    fn kind_name(&self) -> String {
        "ImageNode".to_owned()
    }

    fn validate_parameters(&self, _parameters: &ParamValue) -> Result<(), NodeError> {
        Ok(())
    }

    fn create(&self, _parameters: &ParamValue) -> Result<Capability, NodeError> {
        Ok(Capability::Image(ImageNode::new()))
    }
}

/// Builds pass-through output nodes.
pub struct OutputNodeFactory;

impl NodeFactory for OutputNodeFactory {
    fn kind_name(&self) -> String {
        "OutputNode".to_owned()
    }

    fn validate_parameters(&self, _parameters: &ParamValue) -> Result<(), NodeError> {
        Ok(())
    }

    fn create(&self, _parameters: &ParamValue) -> Result<Capability, NodeError> {
        Ok(Capability::Output(OutputNode::new()))
    }
}

/// Builds pixel-blend nodes; the optional "mode" parameter names one of
/// Normal, Add and Multiply.
pub struct BlendNodeFactory;

impl NodeFactory for BlendNodeFactory {
    fn kind_name(&self) -> String {
        "BlendNode".to_owned()
    }

    fn validate_parameters(&self, parameters: &ParamValue) -> Result<(), NodeError> {
        match parameters.get("mode") {
            None => Ok(()),
            Some(ParamScalar::Text(s)) => {
                if *s == "Normal".to_owned() || *s == "Add".to_owned() || *s
                    == "Multiply".to_owned() {
                    Ok(())
                } else {
                    Err(
                        NodeError::InvalidParameter {
                            name: "mode".to_owned(),
                            reason: "unknown blend mode name".to_owned(),
                        },
                    )
                }
            },
            Some(_) => Err(
                NodeError::InvalidParameter {
                    name: "mode".to_owned(),
                    reason: "expected a mode name".to_owned(),
                },
            ),
        }
    }

    fn create(&self, parameters: &ParamValue) -> Result<Capability, NodeError> {
        let mode = match parameters.get("mode") {
            Some(ParamScalar::Text(s)) => {
                if *s == "Add".to_owned() {
                    BlendMode::Add
                } else if *s == "Multiply".to_owned() {
                    BlendMode::Multiply
                } else {
                    BlendMode::Normal
                }
            },
            _ => BlendMode::Normal,
        };
        Ok(Capability::Blend(BlendNode::new(mode)))
    }
}

/// Builds color-inversion nodes.
pub struct InvertNodeFactory;

impl NodeFactory for InvertNodeFactory {
    fn kind_name(&self) -> String {
        "InvertNode".to_owned()
    }

    fn validate_parameters(&self, _parameters: &ParamValue) -> Result<(), NodeError> {
        Ok(())
    }

    fn create(&self, _parameters: &ParamValue) -> Result<Capability, NodeError> {
        Ok(Capability::Invert(InvertNode::new()))
    }
}

/// Builds constant value nodes from the "value" parameter.
pub struct ConstNodeFactory;

impl NodeFactory for ConstNodeFactory {
    fn kind_name(&self) -> String {
        "ConstNode".to_owned()
    }

    fn validate_parameters(&self, _parameters: &ParamValue) -> Result<(), NodeError> {
        Ok(())
    }

    fn create(&self, parameters: &ParamValue) -> Result<Capability, NodeError> {
        let value = match parameters.get("value") {
            Some(ParamScalar::Int(v)) => *v,
            _ => 0,
        };
        Ok(Capability::Const(ConstNode::new(value)))
    }
}

/// Registers every factory this crate ships, each under its kind name;
/// registrations made under other names beforehand are kept.
pub fn register_standard_nodes(registry: &mut NodeRegistry)
    requires
        old(registry).wf(),
    ensures
        final(registry).wf(),
        spec_has_name(final(registry).names(), "ImageNode"@),
        spec_has_name(final(registry).names(), "OutputNode"@),
        spec_has_name(final(registry).names(), "BlendNode"@),
        spec_has_name(final(registry).names(), "InvertNode"@),
        spec_has_name(final(registry).names(), "ConstNode"@),
        forall|nm: Seq<char>|
            #[trigger] spec_has_name(old(registry).names(), nm) ==> spec_has_name(
                final(registry).names(),
                nm,
            ),
{
    registry.register_named("ImageNode".to_owned(), Box::new(ImageNodeFactory));
    registry.register_named("OutputNode".to_owned(), Box::new(OutputNodeFactory));
    registry.register_named("BlendNode".to_owned(), Box::new(BlendNodeFactory));
    registry.register_named("InvertNode".to_owned(), Box::new(InvertNodeFactory));
    registry.register_named("ConstNode".to_owned(), Box::new(ConstNodeFactory));
}

} // verus!
