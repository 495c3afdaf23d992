//! The document: an ordered arena of layers plus the undo history, and the
//! compositor that folds the visible layers' outputs front to back.

use vstd::prelude::*;
use crate::artifact::{Artifact, ImageBuf, ImageView};
use crate::blend::{blend_images, BlendMode, spec_blend_images};
use crate::capability::{artifact_wf, cap_wf};
use crate::error::{NodeError, NodeErrorView};
use crate::graph::{
    bind_consumer, Edge, GraphView, has_node, lemma_spec_evaluate_wf, NodeGraph, reaches,
    spec_evaluate,
};
use crate::history::{Command, History, HistoryError, HistoryErrorView};
use crate::ids::{LayerId, NodeId};
use crate::layer::{Layer, LayerView};
use crate::node::{Node, NodeView};

verus! {

/// A failure of a document operation.
#[derive(Debug)]
pub enum DocumentError {
    LayerNotFound(LayerId),
    NodeError(NodeError),
    HistoryError(HistoryError),
    Other(String),
}

/// The model of a document failure.
pub enum DocumentErrorView {
    LayerNotFound(LayerId),
    NodeError(NodeErrorView),
    HistoryError(HistoryErrorView),
    Other(Seq<char>),
}

impl View for DocumentError {
    type V = DocumentErrorView;

    open spec fn view(&self) -> DocumentErrorView {
        match self {
            DocumentError::LayerNotFound(id) => DocumentErrorView::LayerNotFound(*id),
            DocumentError::NodeError(e) => DocumentErrorView::NodeError(e@),
            DocumentError::HistoryError(e) => DocumentErrorView::HistoryError(e@),
            DocumentError::Other(s) => DocumentErrorView::Other(s@),
        }
    }
}

/// The first layer with an identity, if any.
pub open spec fn find_layer(layers: Seq<LayerView>, id: LayerId) -> Option<LayerView>
    decreases layers.len(),
{
    if layers.len() == 0 {
        None
    } else if layers[0].id == id {
        Some(layers[0])
    } else {
        find_layer(layers.drop_first(), id)
    }
}

pub open spec fn has_layer(layers: Seq<LayerView>, id: LayerId) -> bool {
    find_layer(layers, id) is Some
}

/// Finding succeeds exactly when some entry carries the identity.
pub proof fn lemma_find_layer_exists(layers: Seq<LayerView>, id: LayerId)
    ensures
        has_layer(layers, id) <==> exists|j: int| 0 <= j < layers.len() && (#[trigger] layers[j]).id
            == id,
        find_layer(layers, id) matches Some(v) ==> exists|j: int|
            0 <= j < layers.len() && #[trigger] layers[j] == v && v.id == id,
    decreases layers.len(),
{
    if layers.len() > 0 && layers[0].id != id {
        lemma_find_layer_exists(layers.drop_first(), id);
        if has_layer(layers.drop_first(), id) {
            let j = choose|j: int|
                0 <= j < layers.drop_first().len() && (#[trigger] layers.drop_first()[j]).id == id;
            assert(layers[j + 1] == layers.drop_first()[j]);
        }
        if exists|j: int| 0 <= j < layers.len() && (#[trigger] layers[j]).id == id {
            let j = choose|j: int| 0 <= j < layers.len() && (#[trigger] layers[j]).id == id;
            assert(layers.drop_first()[j - 1] == layers[j]);
        }
        if find_layer(layers.drop_first(), id) is Some {
            let v = find_layer(layers.drop_first(), id)->Some_0;
            let j = choose|j: int|
                0 <= j < layers.drop_first().len() && #[trigger] layers.drop_first()[j] == v
                    && v.id == id;
            assert(layers[j + 1] == layers.drop_first()[j]);
        }
    }
}

/// When every identity is unique, finding returns the entry at any index
/// carrying the identity.
pub proof fn lemma_find_layer_at(layers: Seq<LayerView>, i: int)
    requires
        forall|p: int, q: int| 0 <= p < q < layers.len() ==> (#[trigger] layers[p]).id != (
        #[trigger] layers[q]).id,
        0 <= i < layers.len(),
    ensures
        find_layer(layers, layers[i].id) == Some(layers[i]),
    decreases i,
{
    if i > 0 {
        assert(layers[0].id != layers[i].id);
        assert forall|p: int, q: int|
            0 <= p < q < layers.drop_first().len() implies (#[trigger] layers.drop_first()[p]).id
            != (#[trigger] layers.drop_first()[q]).id by {
            assert(layers.drop_first()[p] == layers[p + 1]);
            assert(layers.drop_first()[q] == layers[q + 1]);
        }
        lemma_find_layer_at(layers.drop_first(), i - 1);
        assert(layers.drop_first()[i - 1] == layers[i]);
    }
}

/// The model of a document: the layer arena, the compositing order, and
/// the identity counter.  The history is modelled separately.
pub struct DocumentView {
    pub layers: Seq<LayerView>,
    pub layer_order: Seq<LayerId>,
    pub next_layer_id: nat,
}

impl DocumentView {
    /// Identities are unique and below the counter, every layer is well
    /// formed, and the compositing order is a permutation of the arena.
    pub open spec fn wf(self) -> bool {
        &&& forall|p: int, q: int|
            0 <= p < q < self.layers.len() ==> (#[trigger] self.layers[p]).id != (
            #[trigger] self.layers[q]).id
        &&& forall|i: int|
            0 <= i < self.layers.len() ==> (#[trigger] self.layers[i]).id.0 < self.next_layer_id
        &&& forall|i: int| 0 <= i < self.layers.len() ==> (#[trigger] self.layers[i]).wf()
        &&& forall|p: int, q: int|
            0 <= p < q < self.layer_order.len() ==> (#[trigger] self.layer_order[p]) != (
            #[trigger] self.layer_order[q])
        &&& self.layer_order.len() == self.layers.len()
        &&& forall|k: int|
            0 <= k < self.layer_order.len() ==> has_layer(
                self.layers,
                #[trigger] self.layer_order[k],
            )
        &&& forall|i: int|
            0 <= i < self.layers.len() ==> self.layer_order.contains(
                (#[trigger] self.layers[i]).id,
            )
    }
}

/// What a layer contributes to the composite: the image its designated
/// output node evaluates to, for a visible layer; nothing otherwise, and
/// nothing on any evaluation failure — the tolerant policy.
pub open spec fn layer_contribution(l: LayerView) -> Option<ImageView> {
    if !l.visible {
        None
    } else {
        match l.output_node {
            None => None,
            Some(oid) => match spec_evaluate(l.graph.nodes, oid, (l.graph.nodes.len() + 1) as nat) {
                Ok(crate::artifact::ArtifactView::Image(img)) => Some(img),
                _ => None,
            },
        }
    }
}

/// The composite of the first k layers of the order, front to back: the
/// first contribution seeds the accumulator, each further one is blended
/// over it with the layer's mode and opacity.
pub open spec fn composite_upto(
    layers: Seq<LayerView>,
    order: Seq<LayerId>,
    k: int,
) -> Option<ImageView>
    decreases k,
{
    if k <= 0 {
        None
    } else {
        let prev = composite_upto(layers, order, k - 1);
        match find_layer(layers, order[k - 1]) {
            None => prev,
            Some(l) => match layer_contribution(l) {
                None => prev,
                Some(img) => match prev {
                    None => Some(img),
                    Some(acc) => Some(spec_blend_images(acc, img, l.blend_mode, l.opacity as int)),
                },
            },
        }
    }
}

/// The strict composite of the first k layers: as the tolerant one, but
/// the first evaluation failure of a visible layer with a designated
/// output node propagates.
pub open spec fn strict_composite_upto(
    layers: Seq<LayerView>,
    order: Seq<LayerId>,
    k: int,
) -> Result<Option<ImageView>, NodeErrorView>
    decreases k,
{
    if k <= 0 {
        Ok(None)
    } else {
        match strict_composite_upto(layers, order, k - 1) {
            Err(e) => Err(e),
            Ok(prev) => match find_layer(layers, order[k - 1]) {
                None => Ok(prev),
                Some(l) => {
                    if !l.visible {
                        Ok(prev)
                    } else {
                        match l.output_node {
                            None => Ok(prev),
                            Some(oid) => match spec_evaluate(
                                l.graph.nodes,
                                oid,
                                (l.graph.nodes.len() + 1) as nat,
                            ) {
                                Err(e) => Err(e),
                                Ok(crate::artifact::ArtifactView::Image(img)) => match prev {
                                    None => Ok(Some(img)),
                                    Some(acc) => Ok(
                                        Some(
                                            spec_blend_images(
                                                acc,
                                                img,
                                                l.blend_mode,
                                                l.opacity as int,
                                            ),
                                        ),
                                    ),
                                },
                                Ok(_) => Ok(prev),
                            },
                        }
                    }
                },
            },
        }
    }
}

/// Once the strict composite has failed, folding further layers keeps
/// the same failure.
proof fn lemma_strict_error_persists(layers: Seq<LayerView>, order: Seq<LayerId>, k: int, m: int)
    requires
        0 <= k <= m,
        strict_composite_upto(layers, order, k) is Err,
    ensures
        strict_composite_upto(layers, order, m) == strict_composite_upto(layers, order, k),
    decreases m - k,
{
    if m > k {
        lemma_strict_error_persists(layers, order, k, m - 1);
    }
}

/// The model of an optional image.
pub open spec fn opt_image_view(r: Option<ImageBuf>) -> Option<ImageView> {
    match r {
        Some(img) => Some(img@),
        None => None,
    }
}

/// An ordered set of layers with a bounded undo history.
pub struct Document {
    pub layers: Vec<Layer>,
    pub layer_order: Vec<LayerId>,
    pub history: History,
    pub next_layer_id: u64,
}

impl View for Document {
    type V = DocumentView;

    open spec fn view(&self) -> DocumentView {
        DocumentView {
            layers: self.layers@.map_values(|l: Layer| l@),
            layer_order: self.layer_order@,
            next_layer_id: self.next_layer_id as nat,
        }
    }
}

impl Document {
    /// The document invariant: the layer model is well formed and the
    /// history is structurally sound.
    pub open spec fn wf(&self) -> bool {
        &&& self@.wf()
        &&& self.history.wf()
    }

    pub fn new() -> (d: Document)
        ensures
            d.wf(),
            d@.layers.len() == 0,
            d@.layer_order.len() == 0,
            d@.next_layer_id == 1,
            d.history.commands@.len() == 0,
            d.history.current_index == 0,
    {
        let d = Document {
            layers: Vec::new(),
            layer_order: Vec::new(),
            history: History::new(),
            next_layer_id: 1,
        };
        proof {
            assert(d@.layers =~= Seq::<LayerView>::empty());
        }
        d
    }

    pub fn layer_count(&self) -> (r: usize)
        ensures
            r == self@.layers.len(),
    {
        self.layers.len()
    }

    /// The compositing order, front to back.
    pub fn layers(&self) -> (r: Vec<LayerId>)
        ensures
            r@ == self@.layer_order,
    {
        let n = self.layer_order.len();
        let mut ids: Vec<LayerId> = Vec::new();
        let mut i: usize = 0;
        while i < n
            invariant
                n == self.layer_order@.len(),
                i <= n,
                ids@ == self.layer_order@.take(i as int),
            decreases n - i,
        {
            proof {
                assert(self.layer_order@.take(i as int + 1).drop_last() =~= self.layer_order@.take(
                    i as int,
                ));
            }
            ids.push(self.layer_order[i]);
            i = i + 1;
        }
        proof {
            assert(self.layer_order@.take(n as int) =~= self.layer_order@);
        }
        ids
    }

    /// The index of a layer in the arena, by linear search.
    fn find_index(&self, id: &LayerId) -> (r: Option<usize>)
        ensures
            match r {
                Some(i) => i < self@.layers.len() && self@.layers[i as int].id == *id,
                None => forall|j: int|
                    0 <= j < self@.layers.len() ==> (#[trigger] self@.layers[j]).id != *id,
            },
    {
        let n = self.layers.len();
        let mut i: usize = 0;
        while i < n
            invariant
                n == self.layers@.len(),
                i <= n,
                forall|j: int| 0 <= j < i ==> (#[trigger] self@.layers[j]).id != *id,
            decreases n - i,
        {
            proof {
                assert(self@.layers[i as int] == self.layers@[i as int]@);
            }
            if self.layers[i].id.0 == id.0 {
                return Some(i);
            }
            i = i + 1;
        }
        None
    }

    /// Admits a fresh layer at the top of the order and returns its
    /// identity.
    pub fn add_layer(&mut self) -> (id: LayerId)
        requires
            old(self).wf(),
            old(self).next_layer_id < u64::MAX,
        ensures
            final(self).wf(),
            id == LayerId(old(self)@.next_layer_id as u64),
            final(self)@.layer_order == old(self)@.layer_order.push(id),
            final(self)@.layers == old(self)@.layers.push(
                LayerView {
                    id,
                    name: "New Layer"@,
                    visible: true,
                    opacity: 255,
                    blend_mode: BlendMode::Normal,
                    graph: GraphView {
                        nodes: Seq::<NodeView>::empty(),
                        edges: Seq::<Edge>::empty(),
                        next_id: 1,
                    },
                    output_node: None,
                },
            ),
            final(self)@.next_layer_id == old(self)@.next_layer_id + 1,
            final(self).history == old(self).history,
    {
        let id = LayerId(self.next_layer_id);
        self.next_layer_id = self.next_layer_id + 1;
        let mut layer = Layer::new();
        layer.id = id;
        let ghost old_layers = self@.layers;
        let ghost old_order = self@.layer_order;
        self.layers.push(layer);
        self.layer_order.push(id);
        proof {
            let nv = self@.layers;
            assert(layer@.graph.nodes =~= Seq::<NodeView>::empty());
            assert(layer@.graph.edges =~= Seq::<Edge>::empty());
            assert(layer@ =~~= (LayerView {
                id,
                name: "New Layer"@,
                visible: true,
                opacity: 255,
                blend_mode: BlendMode::Normal,
                graph: GraphView {
                    nodes: Seq::<NodeView>::empty(),
                    edges: Seq::<Edge>::empty(),
                    next_id: 1,
                },
                output_node: None,
            }));
            assert(nv =~= old_layers.push(layer@));
            assert(nv.take(old_layers.len() as int) =~= old_layers);
            assert forall|p: int, q: int| 0 <= p < q < nv.len() implies (#[trigger] nv[p]).id != (
            #[trigger] nv[q]).id by {
                if q == nv.len() - 1 {
                    assert(nv[p].id.0 < id.0);
                }
            }
            assert(self@.layer_order =~= old_order.push(id));
            assert forall|p: int, q: int|
                0 <= p < q < self@.layer_order.len() implies (#[trigger] self@.layer_order[p]) != (
            #[trigger] self@.layer_order[q]) by {
                if q == self@.layer_order.len() - 1 {
                    lemma_find_layer_exists(old_layers, old_order[p]);
                    let w = choose|w: int|
                        0 <= w < old_layers.len() && (#[trigger] old_layers[w]).id == old_order[p];
                    assert(old_order[p].0 < id.0);
                }
            }
            assert forall|k: int| 0 <= k < self@.layer_order.len() implies has_layer(
                nv,
                #[trigger] self@.layer_order[k],
            ) by {
                if k < old_order.len() {
                    lemma_find_layer_exists(old_layers, old_order[k]);
                    let j = choose|j: int|
                        0 <= j < old_layers.len() && (#[trigger] old_layers[j]).id == old_order[k];
                    assert(nv[j] == old_layers[j]);
                    lemma_find_layer_exists(nv, old_order[k]);
                } else {
                    assert(self@.layer_order[k] == id);
                    assert(nv[nv.len() - 1].id == id);
                    lemma_find_layer_exists(nv, id);
                }
            }
            assert forall|i: int| 0 <= i < nv.len() implies self@.layer_order.contains(
                (#[trigger] nv[i]).id,
            ) by {
                if i < old_layers.len() {
                    assert(old_order.contains(old_layers[i].id));
                    let k = choose|k: int|
                        0 <= k < old_order.len() && (#[trigger] old_order[k]) == old_layers[i].id;
                    assert(self@.layer_order[k] == old_layers[i].id);
                } else {
                    assert(self@.layer_order[self@.layer_order.len() - 1] == id);
                }
            }
        }
        id
    }

    /// Removes a layer from the arena and the order; absent identities
    /// fail with `LayerNotFound`, changing nothing.
    pub fn remove_layer(&mut self, id: &LayerId) -> (r: Result<(), DocumentError>)
        requires
            old(self).wf(),
        ensures
            final(self).wf(),
            final(self).history == old(self).history,
            !has_layer(old(self)@.layers, *id) ==> *final(self) == *old(self) && (r matches Err(e)
                && e@ == DocumentErrorView::LayerNotFound(*id)),
            has_layer(old(self)@.layers, *id) ==> r is Ok && (exists|i: int, j: int|
                0 <= i < old(self)@.layers.len() && 0 <= j < old(self)@.layer_order.len()
                    && old(self)@.layers[i].id == *id && old(self)@.layer_order[j] == *id && final(self)@.layers == old(self)@.layers.remove(i) && final(self)@.layer_order == old(self)@.layer_order.remove(j)),
    {
        proof {
            lemma_find_layer_exists(self@.layers, *id);
        }
        let arena_index = match self.find_index(id) {
            Some(i) => i,
            None => {
                return Err(DocumentError::LayerNotFound(*id));
            },
        };
        let ghost old_layers = self@.layers;
        let ghost old_order = self@.layer_order;
        proof {
            assert(old_order.contains(old_layers[arena_index as int].id));
        }
        let n = self.layer_order.len();
        let mut j: usize = 0;
        let mut order_index: usize = 0;
        let mut found = false;
        while j < n
            invariant
                n == self.layer_order@.len(),
                j <= n,
                old_order == self.layer_order@,
                found ==> order_index < n && old_order[order_index as int] == *id,
                !found ==> forall|p: int| 0 <= p < j ==> old_order[p] != *id,
                *self == *old(self),
            decreases n - j,
        {
            if !found && self.layer_order[j].0 == id.0 {
                order_index = j;
                found = true;
                proof {
                    assert(old_order[j as int] == *id);
                }
            }
            j = j + 1;
        }
        proof {
            if !found {
                assert(old_order.contains(old_layers[arena_index as int].id));
                let k = choose|k: int|
                    0 <= k < old_order.len() && (#[trigger] old_order[k]) == old_layers[
                    arena_index as int].id;
                assert(false);
            }
        }
        self.layers.remove(arena_index);
        self.layer_order.remove(order_index);
        proof {
            let nv = self@.layers;
            let no = self@.layer_order;
            assert(nv =~= old_layers.map_values(|l: LayerView| l).remove(arena_index as int));
            assert(nv =~= old_layers.remove(arena_index as int));
            lemma_remove_keeps_wf(old(self)@, final(self)@, arena_index as int, order_index as int);
        }
        Ok(())
    }

    /// Read access to a layer.
    pub fn get_layer(&self, id: &LayerId) -> (r: Option<&Layer>)
        requires
            self.wf(),
        ensures
            match r {
                Some(l) => find_layer(self@.layers, *id) == Some(l@),
                None => !has_layer(self@.layers, *id),
            },
    {
        proof {
            lemma_find_layer_exists(self@.layers, *id);
        }
        match self.find_index(id) {
            Some(i) => {
                proof {
                    lemma_find_layer_at(self@.layers, i as int);
                    assert(self@.layers[i as int] == self.layers@[i as int]@);
                }
                Some(&self.layers[i])
            },
            None => None,
        }
    }

    /// Moves a layer to a new position in the order.
    pub fn move_layer(&mut self, id: &LayerId, new_index: usize) -> (r: Result<(), DocumentError>)
        requires
            old(self).wf(),
        ensures
            final(self).wf(),
            final(self)@.layers == old(self)@.layers,
            final(self).history == old(self).history,
            !has_layer(old(self)@.layers, *id) ==> *final(self) == *old(self) && (r matches Err(e)
                && e@ == DocumentErrorView::LayerNotFound(*id)),
            has_layer(old(self)@.layers, *id) && new_index >= old(self)@.layer_order.len()
                ==> *final(self) == *old(self) && (r matches Err(e) && e@ matches
            DocumentErrorView::Other(_)),
            has_layer(old(self)@.layers, *id) && new_index < old(self)@.layer_order.len() ==> r
                is Ok && (exists|j: int|
                0 <= j < old(self)@.layer_order.len() && old(self)@.layer_order[j] == *id && final(self)@.layer_order == old(self)@.layer_order.remove(j).insert(new_index as int, *id)),
    {
        proof {
            lemma_find_layer_exists(self@.layers, *id);
        }
        if self.find_index(id).is_none() {
            return Err(DocumentError::LayerNotFound(*id));
        }
        if new_index >= self.layer_order.len() {
            return Err(DocumentError::Other("invalid layer position".to_owned()));
        }
        let ghost old_order = self@.layer_order;
        let n = self.layer_order.len();
        let mut j: usize = 0;
        let mut order_index: usize = 0;
        let mut found = false;
        while j < n
            invariant
                n == self.layer_order@.len(),
                j <= n,
                old_order == self.layer_order@,
                found ==> order_index < n && old_order[order_index as int] == *id,
                !found ==> forall|p: int| 0 <= p < j ==> old_order[p] != *id,
                *self == *old(self),
            decreases n - j,
        {
            if !found && self.layer_order[j].0 == id.0 {
                order_index = j;
                found = true;
            }
            j = j + 1;
        }
        proof {
            if !found {
                let i = choose|i: int|
                    0 <= i < self@.layers.len() && (#[trigger] self@.layers[i]).id == *id;
                assert(old_order.contains(self@.layers[i].id));
                let k = choose|k: int|
                    0 <= k < old_order.len() && (#[trigger] old_order[k]) == self@.layers[i].id;
                assert(false);
            }
        }
        let moved = self.layer_order.remove(order_index);
        self.layer_order.insert(new_index, moved);
        proof {
            lemma_move_keeps_wf(old(self)@, final(self)@, order_index as int, new_index as int);
        }
        Ok(())
    }


    /// Sets a layer's opacity.
    pub fn set_layer_opacity(&mut self, id: &LayerId, opacity: u8) -> (r: Result<
        (),
        DocumentError,
    >)
        requires
            old(self).wf(),
        ensures
            final(self).wf(),
            final(self)@.layer_order == old(self)@.layer_order,
            final(self).history == old(self).history,
            !has_layer(old(self)@.layers, *id) ==> *final(self) == *old(self) && (r matches Err(e)
                && e@ == DocumentErrorView::LayerNotFound(*id)),
            has_layer(old(self)@.layers, *id) ==> r is Ok && (exists|i: int|
                0 <= i < old(self)@.layers.len() && old(self)@.layers[i].id == *id && final(self)@.layers == old(self)@.layers.update(
                    i,
                    LayerView { opacity, ..old(self)@.layers[i] },
                )),
    {
        proof {
            lemma_find_layer_exists(self@.layers, *id);
        }
        let index = match self.find_index(id) {
            Some(i) => i,
            None => {
                return Err(DocumentError::LayerNotFound(*id));
            },
        };
        let mut layer = self.layers.remove(index);
        let ghost old_layers = self@.layers;
        layer.set_opacity(opacity);
        self.layers.insert(index, layer);
        proof {
            lemma_mutate_layer_wf(old(self)@, final(self)@, index as int);
        }
        Ok(())
    }

    /// Sets a layer's visibility.
    pub fn set_layer_visible(&mut self, id: &LayerId, visible: bool) -> (r: Result<
        (),
        DocumentError,
    >)
        requires
            old(self).wf(),
        ensures
            final(self).wf(),
            final(self)@.layer_order == old(self)@.layer_order,
            final(self).history == old(self).history,
            !has_layer(old(self)@.layers, *id) ==> *final(self) == *old(self) && (r matches Err(e)
                && e@ == DocumentErrorView::LayerNotFound(*id)),
            has_layer(old(self)@.layers, *id) ==> r is Ok && (exists|i: int|
                0 <= i < old(self)@.layers.len() && old(self)@.layers[i].id == *id && final(self)@.layers == old(self)@.layers.update(
                    i,
                    LayerView { visible, ..old(self)@.layers[i] },
                )),
    {
        proof {
            lemma_find_layer_exists(self@.layers, *id);
        }
        let index = match self.find_index(id) {
            Some(i) => i,
            None => {
                return Err(DocumentError::LayerNotFound(*id));
            },
        };
        let mut layer = self.layers.remove(index);
        layer.set_visible(visible);
        self.layers.insert(index, layer);
        proof {
            lemma_mutate_layer_wf(old(self)@, final(self)@, index as int);
        }
        Ok(())
    }

    /// Sets a layer's name.
    pub fn set_layer_name(&mut self, id: &LayerId, name: String) -> (r: Result<(), DocumentError>)
        requires
            old(self).wf(),
        ensures
            final(self).wf(),
            final(self)@.layer_order == old(self)@.layer_order,
            final(self).history == old(self).history,
            !has_layer(old(self)@.layers, *id) ==> *final(self) == *old(self) && (r matches Err(e)
                && e@ == DocumentErrorView::LayerNotFound(*id)),
            has_layer(old(self)@.layers, *id) ==> r is Ok && (exists|i: int|
                0 <= i < old(self)@.layers.len() && old(self)@.layers[i].id == *id && final(self)@.layers == old(self)@.layers.update(
                    i,
                    LayerView { name: name@, ..old(self)@.layers[i] },
                )),
    {
        proof {
            lemma_find_layer_exists(self@.layers, *id);
        }
        let index = match self.find_index(id) {
            Some(i) => i,
            None => {
                return Err(DocumentError::LayerNotFound(*id));
            },
        };
        let mut layer = self.layers.remove(index);
        layer.set_name(name);
        self.layers.insert(index, layer);
        proof {
            lemma_mutate_layer_wf(old(self)@, final(self)@, index as int);
        }
        Ok(())
    }

    /// Sets a layer's blend mode.
    pub fn set_layer_blend_mode(&mut self, id: &LayerId, mode: BlendMode) -> (r: Result<
        (),
        DocumentError,
    >)
        requires
            old(self).wf(),
        ensures
            final(self).wf(),
            final(self)@.layer_order == old(self)@.layer_order,
            final(self).history == old(self).history,
            !has_layer(old(self)@.layers, *id) ==> *final(self) == *old(self) && (r matches Err(e)
                && e@ == DocumentErrorView::LayerNotFound(*id)),
            has_layer(old(self)@.layers, *id) ==> r is Ok && (exists|i: int|
                0 <= i < old(self)@.layers.len() && old(self)@.layers[i].id == *id && final(self)@.layers == old(self)@.layers.update(
                    i,
                    LayerView { blend_mode: mode, ..old(self)@.layers[i] },
                )),
    {
        proof {
            lemma_find_layer_exists(self@.layers, *id);
        }
        let index = match self.find_index(id) {
            Some(i) => i,
            None => {
                return Err(DocumentError::LayerNotFound(*id));
            },
        };
        let mut layer = self.layers.remove(index);
        layer.set_blend_mode(mode);
        self.layers.insert(index, layer);
        proof {
            lemma_mutate_layer_wf(old(self)@, final(self)@, index as int);
        }
        Ok(())
    }

    /// Designates a layer's output node.
    pub fn set_layer_output(&mut self, id: &LayerId, output: Option<NodeId>) -> (r: Result<
        (),
        DocumentError,
    >)
        requires
            old(self).wf(),
        ensures
            final(self).wf(),
            final(self)@.layer_order == old(self)@.layer_order,
            final(self).history == old(self).history,
            !has_layer(old(self)@.layers, *id) ==> *final(self) == *old(self) && (r matches Err(e)
                && e@ == DocumentErrorView::LayerNotFound(*id)),
            has_layer(old(self)@.layers, *id) ==> r is Ok && (exists|i: int|
                0 <= i < old(self)@.layers.len() && old(self)@.layers[i].id == *id && final(self)@.layers == old(self)@.layers.update(
                    i,
                    LayerView { output_node: output, ..old(self)@.layers[i] },
                )),
    {
        proof {
            lemma_find_layer_exists(self@.layers, *id);
        }
        let index = match self.find_index(id) {
            Some(i) => i,
            None => {
                return Err(DocumentError::LayerNotFound(*id));
            },
        };
        let mut layer = self.layers.remove(index);
        layer.set_output_node(output);
        self.layers.insert(index, layer);
        proof {
            lemma_mutate_layer_wf(old(self)@, final(self)@, index as int);
        }
        Ok(())
    }

    /// Admits a node into a layer's graph, returning the identity the
    /// graph assigned.
    pub fn layer_add_node(&mut self, id: &LayerId, node: Node) -> (r: Result<
        NodeId,
        DocumentError,
    >)
        requires
            old(self).wf(),
            cap_wf(node@.data),
        ensures
            final(self).wf(),
            final(self)@.layer_order == old(self)@.layer_order,
            final(self).history == old(self).history,
            !has_layer(old(self)@.layers, *id) ==> *final(self) == *old(self) && (r matches Err(e)
                && e@ == DocumentErrorView::LayerNotFound(*id)),
            r matches Ok(nid) ==> (exists|i: int|
                0 <= i < old(self)@.layers.len() && old(self)@.layers[i].id == *id && nid
                    == NodeId(old(self)@.layers[i].graph.next_id as u64) && final(self)@.layers
                    == old(self)@.layers.update(
                    i,
                    LayerView {
                        graph: final(self)@.layers[i].graph,
                        ..old(self)@.layers[i]
                    },
                ) && final(self)@.layers[i].graph.nodes == old(self)@.layers[i].graph.nodes.push(
                    NodeView {
                        id: nid,
                        data: node@.data,
                        kind_name: node@.kind_name,
                        parameters: node@.parameters,
                        inputs: node@.inputs,
                    },
                ) && final(self)@.layers[i].graph.edges == old(self)@.layers[i].graph.edges),
    {
        proof {
            lemma_find_layer_exists(self@.layers, *id);
        }
        let index = match self.find_index(id) {
            Some(i) => i,
            None => {
                return Err(DocumentError::LayerNotFound(*id));
            },
        };
        let mut layer = self.layers.remove(index);
        if layer.node_graph.next_id == u64::MAX || layer.node_graph.nodes.len() + 1 == usize::MAX {
            let put_back = layer;
            self.layers.insert(index, put_back);
            proof {
                assert(self@.layers =~= old(self)@.layers);
                assert(self@ =~~= old(self)@);
            }
            return Err(DocumentError::Other("graph is full".to_owned()));
        }
        let nid = layer.node_graph.add_node(node);
        self.layers.insert(index, layer);
        proof {
            lemma_mutate_layer_wf(old(self)@, final(self)@, index as int);
            assert(final(self)@.layers[index as int] == self.layers@[index as int]@);
        }
        Ok(nid)
    }

    /// Connects two nodes inside a layer's graph; the graph's own cycle
    /// prevention and rollback apply unchanged.
    pub fn layer_connect(
        &mut self,
        id: &LayerId,
        from: &NodeId,
        to: &NodeId,
        input_name: &str,
    ) -> (r: Result<(), DocumentError>)
        requires
            old(self).wf(),
        ensures
            final(self).wf(),
            final(self)@.layer_order == old(self)@.layer_order,
            final(self).history == old(self).history,
            !has_layer(old(self)@.layers, *id) ==> *final(self) == *old(self) && (r matches Err(e)
                && e@ == DocumentErrorView::LayerNotFound(*id)),
            has_layer(old(self)@.layers, *id) ==> (exists|i: int|
                {
                    &&& 0 <= i < old(self)@.layers.len()
                    &&& old(self)@.layers[i].id == *id
                    &&& {
                        let g = old(self)@.layers[i].graph;
                        let ok_case = has_node(g.nodes, *from) && has_node(g.nodes, *to)
                            && !reaches(g.edges, *to, *from);
                        if ok_case {
                            r is Ok && final(self)@.layers == old(self)@.layers.update(
                                i,
                                LayerView {
                                    graph: GraphView {
                                        nodes: bind_consumer(g.nodes, *to, input_name@, *from),
                                        edges: g.edges.push(Edge { from: *from, to: *to }),
                                        next_id: g.next_id,
                                    },
                                    ..old(self)@.layers[i]
                                },
                            )
                        } else {
                            r is Err && final(self)@.layers == old(self)@.layers
                        }
                    }
                }),
    {
        proof {
            lemma_find_layer_exists(self@.layers, *id);
        }
        let index = match self.find_index(id) {
            Some(i) => i,
            None => {
                return Err(DocumentError::LayerNotFound(*id));
            },
        };
        let mut layer = self.layers.remove(index);
        let outcome = layer.node_graph.connect(from, to, input_name);
        self.layers.insert(index, layer);
        proof {
            lemma_mutate_layer_wf(old(self)@, final(self)@, index as int);
            assert(final(self)@.layers[index as int] == self.layers@[index as int]@);
            if r_is_err_helper(&outcome) {
                assert(final(self)@.layers =~= old(self)@.layers);
            }
        }
        match outcome {
            Ok(()) => Ok(()),
            Err(e) => Err(DocumentError::NodeError(e)),
        }
    }

    /// Runs a command through the history: recorded only when its own
    /// execution succeeds.
    pub fn execute_command(&mut self, command: Box<dyn Command>) -> (r: Result<(), DocumentError>)
        requires
            old(self).wf(),
        ensures
            final(self).wf(),
            final(self)@ == old(self)@,
            r is Ok ==> final(self).history.current_index as int == (if old(self).history.current_index + 1 > old(self).history.max_steps {
                old(self).history.current_index as int
            } else {
                old(self).history.current_index + 1
            }),
            r is Ok ==> final(self).history.commands@.len() == (if old(self).history.current_index + 1 > old(self).history.max_steps {
                old(self).history.max_steps as int
            } else {
                old(self).history.current_index + 1
            }),
            r is Err ==> final(self).history == old(self).history && (r matches Err(e) && e@
                matches DocumentErrorView::HistoryError(_)),
    {
        let outcome = self.history.execute(command);
        match outcome {
            Ok(()) => {
                Ok(())
            },
            Err(e) => Err(DocumentError::HistoryError(e)),
        }
    }

    /// Steps the history back one command.
    pub fn undo(&mut self) -> (r: Result<(), DocumentError>)
        requires
            old(self).wf(),
        ensures
            final(self).wf(),
            final(self)@ == old(self)@,
            final(self).history.commands@ == old(self).history.commands@,
            old(self).history.current_index == 0 ==> final(self).history == old(self).history && (
            r matches Err(e) && e@ == DocumentErrorView::HistoryError(
                HistoryErrorView::NoUndoAvailable,
            )),
            old(self).history.current_index > 0 ==> final(self).history.current_index == old(self).history.current_index - 1,
    {
        match self.history.undo() {
            Ok(()) => Ok(()),
            Err(e) => Err(DocumentError::HistoryError(e)),
        }
    }

    /// Replays the first redoable command.
    pub fn redo(&mut self) -> (r: Result<(), DocumentError>)
        requires
            old(self).wf(),
        ensures
            final(self).wf(),
            final(self)@ == old(self)@,
            final(self).history.commands@ == old(self).history.commands@,
            old(self).history.current_index == old(self).history.commands@.len() ==> final(self).history == old(self).history && (r matches Err(e) && e@
                == DocumentErrorView::HistoryError(HistoryErrorView::NoRedoAvailable)),
            old(self).history.current_index < old(self).history.commands@.len() && r is Ok
                ==> final(self).history.current_index == old(self).history.current_index + 1,
    {
        match self.history.redo() {
            Ok(()) => Ok(()),
            Err(e) => Err(DocumentError::HistoryError(e)),
        }
    }

    pub fn can_undo(&self) -> (r: bool)
        ensures
            r == (self.history.current_index > 0),
    {
        self.history.can_undo()
    }

    pub fn can_redo(&self) -> (r: bool)
        ensures
            r == (self.history.current_index < self.history.commands@.len()),
    {
        self.history.can_redo()
    }

    /// Composites the visible layers front to back: each visible layer
    /// with a designated output node whose evaluation yields an image is
    /// folded into the accumulator; failed or invisible layers contribute
    /// nothing.
    pub fn render(&self) -> (r: Option<ImageBuf>)
        requires
            self.wf(),
        ensures
            opt_image_view(r) == composite_upto(
                self@.layers,
                self@.layer_order,
                self@.layer_order.len() as int,
            ),
            r matches Some(img) ==> img@.wf(),
    {
        let ghost layers = self@.layers;
        let ghost order = self@.layer_order;
        let n = self.layer_order.len();
        let mut acc: Option<ImageBuf> = None;
        let mut k: usize = 0;
        while k < n
            invariant
                self.wf(),
                layers == self@.layers,
                order == self@.layer_order,
                n == order.len(),
                k <= n,
                opt_image_view(acc) == composite_upto(layers, order, k as int),
                acc matches Some(img) ==> img@.wf(),
            decreases n - k,
        {
            let layer_id = self.layer_order[k];
            match self.get_layer(&layer_id) {
                None => {},
                Some(layer) => {
                    if layer.is_visible() {
                        match layer.output_node() {
                            None => {},
                            Some(oid) => {
                                proof {
                                    lemma_find_layer_exists(layers, layer_id);
                                    let j = choose|j: int|
                                        0 <= j < layers.len() && #[trigger] layers[j] == layer@
                                            && layer@.id == layer_id;
                                }
                                match layer.node_graph().evaluate(&oid) {
                                    Ok(Artifact::Image(img)) => {
                                        proof {
                                            lemma_spec_evaluate_wf(
                                                layer@.graph.nodes,
                                                oid,
                                                (layer@.graph.nodes.len() + 1) as nat,
                                            );
                                            assert(artifact_wf(
                                                crate::artifact::ArtifactView::Image(img@),
                                            ));
                                        }
                                        match acc {
                                            None => {
                                                acc = Some(img);
                                            },
                                            Some(bottom) => {
                                                let blended = blend_images(
                                                    &bottom,
                                                    &img,
                                                    layer.blend_mode(),
                                                    layer.opacity(),
                                                );
                                                acc = Some(blended);
                                            },
                                        }
                                    },
                                    _ => {},
                                }
                            },
                        }
                    }
                },
            }
            k = k + 1;
        }
        acc
    }

    /// The strict composite used for export: the first evaluation failure
    /// of a visible layer with a designated output node propagates to the
    /// caller instead of being skipped.
    pub fn render_strict(&self) -> (r: Result<Option<ImageBuf>, DocumentError>)
        requires
            self.wf(),
        ensures
            match r {
                Ok(img) => strict_composite_upto(
                    self@.layers,
                    self@.layer_order,
                    self@.layer_order.len() as int,
                ) == Ok::<Option<ImageView>, NodeErrorView>(opt_image_view(img)),
                Err(e) => e@ matches DocumentErrorView::NodeError(ne) && strict_composite_upto(
                    self@.layers,
                    self@.layer_order,
                    self@.layer_order.len() as int,
                ) == Err::<Option<ImageView>, NodeErrorView>(ne),
            },
    {
        let ghost layers = self@.layers;
        let ghost order = self@.layer_order;
        let n = self.layer_order.len();
        let mut acc: Option<ImageBuf> = None;
        let mut k: usize = 0;
        while k < n
            invariant
                self.wf(),
                layers == self@.layers,
                order == self@.layer_order,
                n == order.len(),
                k <= n,
                strict_composite_upto(layers, order, k as int) == Ok::<
                    Option<ImageView>,
                    NodeErrorView,
                >(opt_image_view(acc)),
                acc matches Some(img) ==> img@.wf(),
            decreases n - k,
        {
            let layer_id = self.layer_order[k];
            match self.get_layer(&layer_id) {
                None => {},
                Some(layer) => {
                    if layer.is_visible() {
                        match layer.output_node() {
                            None => {},
                            Some(oid) => {
                                proof {
                                    lemma_find_layer_exists(layers, layer_id);
                                    let j = choose|j: int|
                                        0 <= j < layers.len() && #[trigger] layers[j] == layer@
                                            && layer@.id == layer_id;
                                }
                                match layer.node_graph().evaluate(&oid) {
                                    Ok(Artifact::Image(img)) => {
                                        proof {
                                            lemma_spec_evaluate_wf(
                                                layer@.graph.nodes,
                                                oid,
                                                (layer@.graph.nodes.len() + 1) as nat,
                                            );
                                            assert(artifact_wf(
                                                crate::artifact::ArtifactView::Image(img@),
                                            ));
                                        }
                                        match acc {
                                            None => {
                                                acc = Some(img);
                                            },
                                            Some(bottom) => {
                                                let blended = blend_images(
                                                    &bottom,
                                                    &img,
                                                    layer.blend_mode(),
                                                    layer.opacity(),
                                                );
                                                acc = Some(blended);
                                            },
                                        }
                                    },
                                    Ok(Artifact::Int(_)) => {},
                                    Err(e) => {
                                        proof {
                                            assert(strict_composite_upto(
                                                layers,
                                                order,
                                                k as int + 1,
                                            ) == Err::<Option<ImageView>, NodeErrorView>(e@));
                                            lemma_strict_error_persists(
                                                layers,
                                                order,
                                                k as int + 1,
                                                order.len() as int,
                                            );
                                        }
                                        return Err(DocumentError::NodeError(e));
                                    },
                                }
                            },
                        }
                    }
                },
            }
            k = k + 1;
        }
        Ok(acc)
    }

    /// The tolerant composite; the name the presentation surface calls.
    pub fn evaluate_all(&self) -> (r: Option<ImageBuf>)
        requires
            self.wf(),
        ensures
            opt_image_view(r) == composite_upto(
                self@.layers,
                self@.layer_order,
                self@.layer_order.len() as int,
            ),
    {
        self.render()
    }
}

/// Whether an outcome is a failure, readable from ghost code.
spec fn r_is_err_helper(r: &Result<(), NodeError>) -> bool {
    r is Err
}

/// Replacing a layer with one of the same identity, itself well formed,
/// keeps the document well formed.
proof fn lemma_mutate_layer_wf(old_view: DocumentView, new_view: DocumentView, i: int)
    requires
        old_view.wf(),
        0 <= i < old_view.layers.len(),
        new_view.layers.len() == old_view.layers.len(),
        forall|x: int| 0 <= x < new_view.layers.len() && x != i ==> #[trigger] new_view.layers[x]
            == old_view.layers[x],
        new_view.layers[i].id == old_view.layers[i].id,
        new_view.layers[i].wf(),
        new_view.layer_order == old_view.layer_order,
        new_view.next_layer_id == old_view.next_layer_id,
    ensures
        new_view.wf(),
{
    let nl = new_view.layers;
    let ol = old_view.layers;
    assert forall|p: int, q: int| 0 <= p < q < nl.len() implies (#[trigger] nl[p]).id != (
    #[trigger] nl[q]).id by {
        assert(nl[p].id == ol[p].id);
        assert(nl[q].id == ol[q].id);
    }
    assert forall|x: int| 0 <= x < nl.len() implies (#[trigger] nl[x]).id.0
        < new_view.next_layer_id && nl[x].wf() by {
        assert(nl[x].id == ol[x].id);
        if x != i {
            assert(nl[x] == ol[x]);
        }
    }
    assert forall|k: int| 0 <= k < new_view.layer_order.len() implies has_layer(
        nl,
        #[trigger] new_view.layer_order[k],
    ) by {
        lemma_find_layer_exists(ol, new_view.layer_order[k]);
        let j = choose|j: int|
            0 <= j < ol.len() && (#[trigger] ol[j]).id == new_view.layer_order[k];
        assert(nl[j].id == ol[j].id);
        lemma_find_layer_exists(nl, new_view.layer_order[k]);
    }
    assert forall|x: int| 0 <= x < nl.len() implies new_view.layer_order.contains(
        (#[trigger] nl[x]).id,
    ) by {
        assert(nl[x].id == ol[x].id);
        assert(old_view.layer_order.contains(ol[x].id));
    }
}

/// Removing the same identity from the arena and the order keeps the
/// document well formed.
proof fn lemma_remove_keeps_wf(old_view: DocumentView, new_view: DocumentView, i: int, j: int)
    requires
        old_view.wf(),
        0 <= i < old_view.layers.len(),
        0 <= j < old_view.layer_order.len(),
        old_view.layers[i].id == old_view.layer_order[j],
        new_view.layers == old_view.layers.remove(i),
        new_view.layer_order == old_view.layer_order.remove(j),
        new_view.next_layer_id == old_view.next_layer_id,
    ensures
        new_view.wf(),
{
    let id = old_view.layers[i].id;
    let nl = new_view.layers;
    let no = new_view.layer_order;
    assert forall|p: int, q: int| 0 <= p < q < nl.len() implies (#[trigger] nl[p]).id != (
    #[trigger] nl[q]).id by {
        let op = if p < i {
            p
        } else {
            p + 1
        };
        let oq = if q < i {
            q
        } else {
            q + 1
        };
        assert(nl[p] == old_view.layers[op]);
        assert(nl[q] == old_view.layers[oq]);
    }
    assert forall|x: int| 0 <= x < nl.len() implies (#[trigger] nl[x]).id.0
        < new_view.next_layer_id && nl[x].wf() by {
        let ox = if x < i {
            x
        } else {
            x + 1
        };
        assert(nl[x] == old_view.layers[ox]);
    }
    assert forall|p: int, q: int| 0 <= p < q < no.len() implies (#[trigger] no[p]) != (
    #[trigger] no[q]) by {
        let op = if p < j {
            p
        } else {
            p + 1
        };
        let oq = if q < j {
            q
        } else {
            q + 1
        };
        assert(no[p] == old_view.layer_order[op]);
        assert(no[q] == old_view.layer_order[oq]);
    }
    assert forall|k: int| 0 <= k < no.len() implies has_layer(nl, #[trigger] no[k]) by {
        let ok = if k < j {
            k
        } else {
            k + 1
        };
        assert(no[k] == old_view.layer_order[ok]);
        assert(no[k] != id);
        lemma_find_layer_exists(old_view.layers, no[k]);
        let oi = choose|oi: int|
            0 <= oi < old_view.layers.len() && (#[trigger] old_view.layers[oi]).id == no[k];
        assert(oi != i);
        if oi < i {
            assert(nl[oi] == old_view.layers[oi]);
        } else {
            assert(nl[oi - 1] == old_view.layers[oi]);
        }
        lemma_find_layer_exists(nl, no[k]);
    }
    assert forall|x: int| 0 <= x < nl.len() implies no.contains((#[trigger] nl[x]).id) by {
        let ox = if x < i {
            x
        } else {
            x + 1
        };
        assert(nl[x] == old_view.layers[ox]);
        assert(nl[x].id != id);
        assert(old_view.layer_order.contains(old_view.layers[ox].id));
        let ok = choose|ok: int|
            0 <= ok < old_view.layer_order.len() && (#[trigger] old_view.layer_order[ok])
                == old_view.layers[ox].id;
        assert(ok != j);
        if ok < j {
            assert(no[ok] == old_view.layer_order[ok]);
        } else {
            assert(no[ok - 1] == old_view.layer_order[ok]);
        }
    }
}

/// Moving an entry of the order keeps the document well formed.
proof fn lemma_move_keeps_wf(old_view: DocumentView, new_view: DocumentView, j: int, t: int)
    requires
        old_view.wf(),
        0 <= j < old_view.layer_order.len(),
        0 <= t < old_view.layer_order.len(),
        new_view.layers == old_view.layers,
        new_view.layer_order == old_view.layer_order.remove(j).insert(t, old_view.layer_order[j]),
        new_view.next_layer_id == old_view.next_layer_id,
    ensures
        new_view.wf(),
{
    let oo = old_view.layer_order;
    let no = new_view.layer_order;
    // Each position of the new order carries some entry of the old order,
    // and every old entry lands somewhere: membership is unchanged.
    assert(no.len() == oo.len());
    assert forall|x: LayerId| no.contains(x) implies oo.contains(x) by {
        let p = choose|p: int| 0 <= p < no.len() && no[p] == x;
        if p == t {
            assert(oo[j] == x);
        } else {
            let shifted = if p < t {
                p
            } else {
                p - 1
            };
            assert(no[p] == oo.remove(j)[shifted]);
            let op = if shifted < j {
                shifted
            } else {
                shifted + 1
            };
            assert(oo.remove(j)[shifted] == oo[op]);
        }
    }
    assert forall|x: LayerId| oo.contains(x) implies no.contains(x) by {
        let op = choose|op: int| 0 <= op < oo.len() && oo[op] == x;
        if op == j {
            assert(no[t] == x);
        } else {
            let shifted = if op < j {
                op
            } else {
                op - 1
            };
            assert(oo.remove(j)[shifted] == oo[op]);
            let p = if shifted < t {
                shifted
            } else {
                shifted + 1
            };
            assert(no[p] == oo.remove(j)[shifted]);
        }
    }
    assert forall|p: int, q: int| 0 <= p < q < no.len() implies (#[trigger] no[p]) != (
    #[trigger] no[q]) by {
        let sp = if p == t {
            j
        } else {
            let shifted = if p < t {
                p
            } else {
                p - 1
            };
            if shifted < j {
                shifted
            } else {
                shifted + 1
            }
        };
        let sq = if q == t {
            j
        } else {
            let shifted = if q < t {
                q
            } else {
                q - 1
            };
            if shifted < j {
                shifted
            } else {
                shifted + 1
            }
        };
        assert(no[p] == oo[sp]);
        assert(no[q] == oo[sq]);
        assert(sp != sq);
        if sp < sq {
            assert(oo[sp] != oo[sq]);
        } else {
            assert(oo[sq] != oo[sp]);
        }
    }
    assert forall|k: int| 0 <= k < no.len() implies has_layer(new_view.layers, #[trigger] no[k])
        by {
        assert(no.contains(no[k]));
        assert(oo.contains(no[k]));
        let op = choose|op: int| 0 <= op < oo.len() && oo[op] == no[k];
        assert(has_layer(old_view.layers, oo[op]));
    }
    assert forall|x: int| 0 <= x < new_view.layers.len() implies no.contains(
        (#[trigger] new_view.layers[x]).id,
    ) by {
        assert(oo.contains(old_view.layers[x].id));
    }
}

} // verus!
