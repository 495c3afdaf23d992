//! The computation payloads a node can carry, as a tagged union: an image
//! source, a pass-through output, a two-input pixel blend, an inversion
//! filter, and a constant value producer.  Each payload's `compute` is
//! specified exactly.

use vstd::prelude::*;
use crate::artifact::{Artifact, ArtifactView, ImageBuf, ImageView, Pixel};
use crate::error::{NodeError, NodeErrorView};
use crate::textfmt::{dec_digits, usize_to_dec};

verus! {

/// The per-pixel combination a `BlendNode` applies; unlike the layer
/// compositing algebra this one has no opacity and no alpha compositing.
#[derive(Clone, Copy, Debug, PartialEq, Eq, Structural)]
pub enum BlendMode {
    Normal,
    Add,
    Multiply,
}

/// A node that hands out a stored image.
#[derive(Clone, Debug, PartialEq)]
pub struct ImageNode {
    pub image: Option<ImageBuf>,
}

/// A node that passes its single image input through.
#[derive(Clone, Copy, Debug, PartialEq, Eq, Structural)]
pub struct OutputNode;

/// A node that combines two equally sized image inputs pixel by pixel.
#[derive(Clone, Copy, Debug, PartialEq, Eq, Structural)]
pub struct BlendNode {
    pub mode: BlendMode,
}

/// A node that inverts the color channels of its image input.
#[derive(Clone, Copy, Debug, PartialEq, Eq, Structural)]
pub struct InvertNode;

/// A node that produces a fixed integer value, for wiring and testing.
#[derive(Clone, Copy, Debug, PartialEq, Eq, Structural)]
pub struct ConstNode {
    pub value: i64,
}

impl ImageNode {
    pub fn new() -> (n: ImageNode)
        ensures
            n.image is None,
    {
        ImageNode { image: None }
    }

    pub fn with_image(image: ImageBuf) -> (n: ImageNode)
        requires
            image@.wf(),
        ensures
            n.image matches Some(img) && img@ == image@,
    {
        ImageNode { image: Some(image) }
    }
}

impl OutputNode {
    pub fn new() -> (n: OutputNode) {
        OutputNode
    }
}

impl BlendNode {
    pub fn new(mode: BlendMode) -> (n: BlendNode)
        ensures
            n.mode == mode,
    {
        BlendNode { mode }
    }
}

impl InvertNode {
    pub fn new() -> (n: InvertNode) {
        InvertNode
    }
}

impl ConstNode {
    pub fn new(value: i64) -> (n: ConstNode)
        ensures
            n.value == value,
    {
        ConstNode { value }
    }
}

/// A node's computation payload.
#[derive(Clone, Debug, PartialEq)]
pub enum Capability {
    Image(ImageNode),
    Output(OutputNode),
    Blend(BlendNode),
    Invert(InvertNode),
    Const(ConstNode),
}

/// The model of a capability.
pub enum CapabilityView {
    Image(Option<ImageView>),
    Output,
    Blend(BlendMode),
    Invert,
    Const(int),
}

impl View for Capability {
    type V = CapabilityView;

    open spec fn view(&self) -> CapabilityView {
        match self {
            Capability::Image(n) => CapabilityView::Image(
                match n.image {
                    Some(img) => Some(img@),
                    None => None,
                },
            ),
            Capability::Output(_) => CapabilityView::Output,
            Capability::Blend(n) => CapabilityView::Blend(n.mode),
            Capability::Invert(_) => CapabilityView::Invert,
            Capability::Const(n) => CapabilityView::Const(n.value as int),
        }
    }
}

/// A capability's stored data is well formed.
pub open spec fn cap_wf(c: CapabilityView) -> bool {
    match c {
        CapabilityView::Image(Some(img)) => img.wf(),
        _ => true,
    }
}

/// An artifact's stored data is well formed.
pub open spec fn artifact_wf(a: ArtifactView) -> bool {
    match a {
        ArtifactView::Image(img) => img.wf(),
        ArtifactView::Int(_) => true,
    }
}

/// The models of a list of artifacts.
pub open spec fn artifact_views(s: Seq<Artifact>) -> Seq<ArtifactView> {
    s.map_values(|a: Artifact| a@)
}

/// The model of a computation result.
pub open spec fn view_result(r: Result<Artifact, NodeError>) -> Result<ArtifactView, NodeErrorView> {
    match r {
        Ok(a) => Ok(a@),
        Err(e) => Err(e@),
    }
}

/// Saturating eight-bit addition.
pub open spec fn sat_add(a: int, b: int) -> int {
    if a + b > 255 {
        255
    } else {
        a + b
    }
}

/// The per-pixel combination of a `BlendNode`.
pub open spec fn node_blend_pixel(mode: BlendMode, a: Pixel, b: Pixel) -> Pixel {
    match mode {
        BlendMode::Normal => b,
        BlendMode::Add => Pixel {
            r: sat_add(a.r as int, b.r as int) as u8,
            g: sat_add(a.g as int, b.g as int) as u8,
            b: sat_add(a.b as int, b.b as int) as u8,
            a: sat_add(a.a as int, b.a as int) as u8,
        },
        BlendMode::Multiply => Pixel {
            r: ((a.r as int) * (b.r as int) / 255) as u8,
            g: ((a.g as int) * (b.g as int) / 255) as u8,
            b: ((a.b as int) * (b.b as int) / 255) as u8,
            a: ((a.a as int) * (b.a as int) / 255) as u8,
        },
    }
}

/// The inversion of a pixel's color channels; alpha is kept.
pub open spec fn invert_pixel(p: Pixel) -> Pixel {
    Pixel { r: (255 - p.r as int) as u8, g: (255 - p.g as int) as u8, b: (255 - p.b as int) as u8, a: p.a }
}

/// The wrong-arity error: how many inputs came, against what was expected.
pub open spec fn arity_error(expected: Seq<char>, count: int) -> NodeErrorView {
    NodeErrorView::InvalidInputType { expected, actual: dec_digits(count) + " inputs"@ }
}

/// The wrong-kind error: an input was not an image artifact.
pub open spec fn non_image_error() -> NodeErrorView {
    NodeErrorView::InvalidInputType {
        expected: "an image artifact"@,
        actual: "a non-image artifact"@,
    }
}

/// What each capability computes from its evaluated inputs.
pub open spec fn compute_spec(c: CapabilityView, inputs: Seq<ArtifactView>) -> Result<
    ArtifactView,
    NodeErrorView,
> {
    match c {
        CapabilityView::Image(stored) => {
            if inputs.len() != 0 {
                Err(arity_error("none"@, inputs.len() as int))
            } else {
                match stored {
                    Some(img) => Ok(ArtifactView::Image(img)),
                    None => Err(NodeErrorView::MissingInput("image"@)),
                }
            }
        },
        CapabilityView::Output => {
            if inputs.len() != 1 {
                Err(arity_error("one image input"@, inputs.len() as int))
            } else {
                match inputs[0] {
                    ArtifactView::Image(img) => Ok(ArtifactView::Image(img)),
                    _ => Err(non_image_error()),
                }
            }
        },
        CapabilityView::Blend(mode) => {
            if inputs.len() != 2 {
                Err(arity_error("two image inputs"@, inputs.len() as int))
            } else {
                match (inputs[0], inputs[1]) {
                    (ArtifactView::Image(a), ArtifactView::Image(b)) => {
                        if a.width != b.width || a.height != b.height {
                            Err(
                                NodeErrorView::ComputationError {
                                    context: "blend"@,
                                    message: "input image dimensions differ"@,
                                },
                            )
                        } else {
                            Ok(
                                ArtifactView::Image(
                                    ImageView {
                                        width: a.width,
                                        height: a.height,
                                        pixels: Seq::new(
                                            (a.width * a.height) as nat,
                                            |k: int| node_blend_pixel(mode, a.pixels[k], b.pixels[k]),
                                        ),
                                    },
                                ),
                            )
                        }
                    },
                    _ => Err(non_image_error()),
                }
            }
        },
        CapabilityView::Invert => {
            if inputs.len() != 1 {
                Err(arity_error("one image input"@, inputs.len() as int))
            } else {
                match inputs[0] {
                    ArtifactView::Image(a) => Ok(
                        ArtifactView::Image(
                            ImageView {
                                width: a.width,
                                height: a.height,
                                pixels: Seq::new(
                                    (a.width * a.height) as nat,
                                    |k: int| invert_pixel(a.pixels[k]),
                                ),
                            },
                        ),
                    ),
                    _ => Err(non_image_error()),
                }
            }
        },
        CapabilityView::Const(value) => {
            if inputs.len() != 0 {
                Err(NodeErrorView::InvalidInputType { expected: "none"@, actual: "some"@ })
            } else {
                Ok(ArtifactView::Int(value))
            }
        },
    }
}

/// A well-formed capability computes well-formed artifacts from
/// well-formed inputs.
pub proof fn lemma_compute_spec_wf(c: CapabilityView, inputs: Seq<ArtifactView>)
    requires
        cap_wf(c),
        forall|i: int| 0 <= i < inputs.len() ==> artifact_wf(#[trigger] inputs[i]),
    ensures
        compute_spec(c, inputs) matches Ok(a) ==> artifact_wf(a),
{
}

/// The display name of each capability kind.
pub open spec fn spec_kind_name(c: CapabilityView) -> Seq<char> {
    match c {
        CapabilityView::Image(_) => "ImageNode"@,
        CapabilityView::Output => "OutputNode"@,
        CapabilityView::Blend(_) => "BlendNode"@,
        CapabilityView::Invert => "InvertNode"@,
        CapabilityView::Const(_) => "ConstNode"@,
    }
}

impl Capability {
    /// Whether the stored data satisfies the payload invariant; only an
    /// image payload stores anything with one.
    pub fn is_wf(&self) -> (r: bool)
        ensures
            r == cap_wf(self@),
    {
        match self {
            Capability::Image(node) => match &node.image {
                Some(img) => {
                    let n = img.pixels.len();
                    proof {
                        assert((img.width as int) * (img.height as int)
                            < 18446744073709551616) by (nonlinear_arith)
                            requires
                                0 <= img.width < 4294967296,
                                0 <= img.height < 4294967296,
                        ;
                    }
                    (img.width as u64) * (img.height as u64) == (n as u64)
                },
                None => true,
            },
            _ => true,
        }
    }

    pub fn kind_name(&self) -> (r: &'static str)
        ensures
            r@ == spec_kind_name(self@),
    {
        match self {
            Capability::Image(_) => "ImageNode",
            Capability::Output(_) => "OutputNode",
            Capability::Blend(_) => "BlendNode",
            Capability::Invert(_) => "InvertNode",
            Capability::Const(_) => "ConstNode",
        }
    }

    /// Runs this capability on already evaluated inputs.
    pub fn compute(&self, inputs: &Vec<Artifact>) -> (r: Result<Artifact, NodeError>)
        requires
            cap_wf(self@),
            forall|i: int| 0 <= i < inputs@.len() ==> artifact_wf(#[trigger] inputs@[i]@),
        ensures
            view_result(r) == compute_spec(self@, artifact_views(inputs@)),
    {
        let n = inputs.len();
        match self {
            Capability::Image(node) => {
                if n != 0 {
                    let mut actual = usize_to_dec(n);
                    actual.append(" inputs");
                    Err(NodeError::InvalidInputType { expected: "none".to_owned(), actual })
                } else {
                    match &node.image {
                        Some(img) => Ok(Artifact::Image(img.duplicate())),
                        None => Err(NodeError::MissingInput("image".to_owned())),
                    }
                }
            },
            Capability::Output(_) => {
                if n != 1 {
                    let mut actual = usize_to_dec(n);
                    actual.append(" inputs");
                    Err(
                        NodeError::InvalidInputType {
                            expected: "one image input".to_owned(),
                            actual,
                        },
                    )
                } else {
                    match &inputs[0] {
                        Artifact::Image(img) => Ok(Artifact::Image(img.duplicate())),
                        _ => Err(
                            NodeError::InvalidInputType {
                                expected: "an image artifact".to_owned(),
                                actual: "a non-image artifact".to_owned(),
                            },
                        ),
                    }
                }
            },
            Capability::Blend(node) => {
                if n != 2 {
                    let mut actual = usize_to_dec(n);
                    actual.append(" inputs");
                    return Err(
                        NodeError::InvalidInputType {
                            expected: "two image inputs".to_owned(),
                            actual,
                        },
                    );
                }
                let first_image = matches!(&inputs[0], Artifact::Image(_));
                let second_image = matches!(&inputs[1], Artifact::Image(_));
                if !first_image || !second_image {
                    return Err(
                        NodeError::InvalidInputType {
                            expected: "an image artifact".to_owned(),
                            actual: "a non-image artifact".to_owned(),
                        },
                    );
                }
                let (a, b) = match (&inputs[0], &inputs[1]) {
                    (Artifact::Image(a), Artifact::Image(b)) => (a, b),
                    _ => {
                        return Err(
                            NodeError::InvalidInputType {
                                expected: "an image artifact".to_owned(),
                                actual: "a non-image artifact".to_owned(),
                            },
                        );
                    },
                };
                if a.width != b.width || a.height != b.height {
                    return Err(
                        NodeError::ComputationError {
                            context: "blend".to_owned(),
                            message: "input image dimensions differ".to_owned(),
                        },
                    );
                }
                let count = a.pixels.len();
                let mut pixels: Vec<Pixel> = Vec::new();
                let mut k: usize = 0;
                let ghost target = Seq::new(
                    (a@.width * a@.height) as nat,
                    |k: int| node_blend_pixel(node.mode, a@.pixels[k], b@.pixels[k]),
                );
                while k < count
                    invariant
                        count == a@.pixels.len(),
                        a@.wf(),
                        b@.wf(),
                        a@.width == b@.width,
                        a@.height == b@.height,
                        k <= count,
                        target == Seq::new(
                            (a@.width * a@.height) as nat,
                            |k: int| node_blend_pixel(node.mode, a@.pixels[k], b@.pixels[k]),
                        ),
                        target.len() == count,
                        pixels@.len() == k,
                        forall|j: int| 0 <= j < k ==> pixels@[j] == target[j],
                    decreases count - k,
                {
                    let pa = a.pixels[k];
                    let pb = b.pixels[k];
                    pixels.push(blend_node_pixel_exec(node.mode, pa, pb));
                    k = k + 1;
                }
                let out = ImageBuf { width: a.width, height: a.height, pixels };
                proof {
                    assert(out@.pixels =~= target);
                    let expected = compute_spec(self@, artifact_views(inputs@));
                    assert(artifact_views(inputs@)[0] == inputs@[0]@);
                    assert(artifact_views(inputs@)[1] == inputs@[1]@);
                    assert(expected matches Ok(av) && av matches ArtifactView::Image(iv)
                        && iv =~~= out@);
                }
                Ok(Artifact::Image(out))
            },
            Capability::Invert(_) => {
                if n != 1 {
                    let mut actual = usize_to_dec(n);
                    actual.append(" inputs");
                    return Err(
                        NodeError::InvalidInputType {
                            expected: "one image input".to_owned(),
                            actual,
                        },
                    );
                }
                let a = match &inputs[0] {
                    Artifact::Image(a) => a,
                    _ => {
                        return Err(
                            NodeError::InvalidInputType {
                                expected: "an image artifact".to_owned(),
                                actual: "a non-image artifact".to_owned(),
                            },
                        );
                    },
                };
                let count = a.pixels.len();
                let mut pixels: Vec<Pixel> = Vec::new();
                let mut k: usize = 0;
                let ghost target = Seq::new(
                    (a@.width * a@.height) as nat,
                    |k: int| invert_pixel(a@.pixels[k]),
                );
                while k < count
                    invariant
                        count == a@.pixels.len(),
                        a@.wf(),
                        k <= count,
                        target == Seq::new(
                            (a@.width * a@.height) as nat,
                            |k: int| invert_pixel(a@.pixels[k]),
                        ),
                        target.len() == count,
                        pixels@.len() == k,
                        forall|j: int| 0 <= j < k ==> pixels@[j] == target[j],
                    decreases count - k,
                {
                    let p = a.pixels[k];
                    pixels.push(Pixel { r: 255 - p.r, g: 255 - p.g, b: 255 - p.b, a: p.a });
                    k = k + 1;
                }
                let out = ImageBuf { width: a.width, height: a.height, pixels };
                proof {
                    assert(out@.pixels =~= target);
                    let expected = compute_spec(self@, artifact_views(inputs@));
                    assert(artifact_views(inputs@)[0] == inputs@[0]@);
                    assert(expected matches Ok(av) && av matches ArtifactView::Image(iv)
                        && iv =~~= out@);
                }
                Ok(Artifact::Image(out))
            },
            Capability::Const(node) => {
                if n != 0 {
                    Err(
                        NodeError::InvalidInputType {
                            expected: "none".to_owned(),
                            actual: "some".to_owned(),
                        },
                    )
                } else {
                    Ok(Artifact::Int(node.value))
                }
            },
        }
    }
}

/// One pixel of a `BlendNode` combination, executable.
fn blend_node_pixel_exec(mode: BlendMode, a: Pixel, b: Pixel) -> (r: Pixel)
    ensures
        r == node_blend_pixel(mode, a, b),
{
    match mode {
        BlendMode::Normal => b,
        BlendMode::Add => Pixel {
            r: sat_add_exec(a.r, b.r),
            g: sat_add_exec(a.g, b.g),
            b: sat_add_exec(a.b, b.b),
            a: sat_add_exec(a.a, b.a),
        },
        BlendMode::Multiply => Pixel {
            r: mul_unit_exec(a.r, b.r),
            g: mul_unit_exec(a.g, b.g),
            b: mul_unit_exec(a.b, b.b),
            a: mul_unit_exec(a.a, b.a),
        },
    }
}

fn sat_add_exec(a: u8, b: u8) -> (r: u8)
    ensures
        r as int == sat_add(a as int, b as int),
{
    let sum = (a as u16) + (b as u16);
    if sum > 255 {
        255
    } else {
        sum as u8
    }
}

fn mul_unit_exec(a: u8, b: u8) -> (r: u8)
    ensures
        r as int == (a as int) * (b as int) / 255,
{
    proof {
        assert(0 <= (a as int) * (b as int) <= 65025) by (nonlinear_arith)
            requires
                0 <= a <= 255,
                0 <= b <= 255,
        ;
        assert((a as int) * (b as int) / 255 <= 255) by (nonlinear_arith)
            requires
                0 <= (a as int) * (b as int) <= 65025,
        ;
    }
    (((a as u32) * (b as u32)) / 255) as u8
}

} // verus!
