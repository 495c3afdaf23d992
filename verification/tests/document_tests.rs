use aurion::artifact::{ImageBuf, Pixel};
use aurion::history::Command;
use std::sync::atomic::{AtomicI64, Ordering};
use std::sync::Arc;
use aurion::blend::BlendMode;
use aurion::capability::{Capability, ImageNode};
use aurion::document::{Document, DocumentError};
use aurion::ids::LayerId;
use aurion::node::Node;

#[test]
fn test_create_document() {
    let doc = Document::new();
    assert_eq!(doc.layer_count(), 0);
}

#[test]
fn test_add_layer() {
    let mut doc = Document::new();
    let id = doc.add_layer();
    assert_eq!(doc.layer_count(), 1);
    assert!(doc.get_layer(&id).is_some());
}

#[test]
fn test_layer_operations() {
    let mut doc = Document::new();
    let id = doc.add_layer();

    doc.set_layer_opacity(&id, 128).unwrap();
    assert_eq!(doc.get_layer(&id).unwrap().opacity(), 128);

    doc.set_layer_visible(&id, false).unwrap();
    assert!(!doc.get_layer(&id).unwrap().is_visible());
}

#[test]
fn remove_layer_drops_it_from_the_order() {
    let mut doc = Document::new();
    let first = doc.add_layer();
    let second = doc.add_layer();
    doc.remove_layer(&first).unwrap();
    assert_eq!(doc.layer_count(), 1);
    assert_eq!(doc.layers(), vec![second]);
    assert!(matches!(
        doc.remove_layer(&first),
        Err(DocumentError::LayerNotFound(_))
    ));
}

#[test]
fn move_layer_reorders() {
    let mut doc = Document::new();
    let a = doc.add_layer();
    let b = doc.add_layer();
    let c = doc.add_layer();
    doc.move_layer(&c, 0).unwrap();
    assert_eq!(doc.layers(), vec![c, a, b]);
    assert!(doc.move_layer(&a, 9).is_err());
    assert!(matches!(
        doc.move_layer(&LayerId(999), 0),
        Err(DocumentError::LayerNotFound(_))
    ));
}

fn solid_image(r: u8, g: u8, b: u8, a: u8) -> ImageBuf {
    ImageBuf {
        width: 1,
        height: 1,
        pixels: vec![Pixel::rgba(r, g, b, a)],
    }
}

#[test]
fn render_composites_visible_layers_in_order() {
    let mut doc = Document::new();

    // Bottom layer: opaque white.
    let bottom = doc.add_layer();
    let white = Node::new(Capability::Image(ImageNode::with_image(solid_image(
        255, 255, 255, 255,
    ))));
    let white_id = doc.layer_add_node(&bottom, white).unwrap();
    doc.set_layer_output(&bottom, Some(white_id)).unwrap();

    // Top layer: mid grey, multiplied over the bottom.
    let top = doc.add_layer();
    let grey = Node::new(Capability::Image(ImageNode::with_image(solid_image(
        128, 128, 128, 255,
    ))));
    let grey_id = doc.layer_add_node(&top, grey).unwrap();
    doc.set_layer_output(&top, Some(grey_id)).unwrap();
    doc.set_layer_blend_mode(&top, BlendMode::Multiply).unwrap();

    let out = doc.render().unwrap();
    assert_eq!(out.get_pixel(0, 0), Pixel::rgba(128, 128, 128, 255));
}

#[test]
fn render_skips_invisible_and_outputless_layers() {
    let mut doc = Document::new();
    // A layer with no designated output contributes nothing.
    doc.add_layer();
    assert!(doc.render().is_none());

    let visible = doc.add_layer();
    let img = Node::new(Capability::Image(ImageNode::with_image(solid_image(
        10, 20, 30, 255,
    ))));
    let img_id = doc.layer_add_node(&visible, img).unwrap();
    doc.set_layer_output(&visible, Some(img_id)).unwrap();
    let out = doc.evaluate_all().unwrap();
    assert_eq!(out.get_pixel(0, 0), Pixel::rgba(10, 20, 30, 255));

    // Hiding the contributing layer empties the composite again.
    doc.set_layer_visible(&visible, false).unwrap();
    assert!(doc.render().is_none());
}

struct Bump {
    counter: Arc<AtomicI64>,
}

impl Command for Bump {
    fn execute(&self) -> Result<(), String> {
        self.counter.fetch_add(1, Ordering::SeqCst);
        Ok(())
    }

    fn undo(&self) -> Result<(), String> {
        self.counter.fetch_sub(1, Ordering::SeqCst);
        Ok(())
    }
}

#[test]
fn document_commands_route_through_history() {
    let counter = Arc::new(AtomicI64::new(0));
    let mut doc = Document::new();
    assert!(!doc.can_undo());
    doc.execute_command(Box::new(Bump { counter: counter.clone() }))
        .unwrap();
    assert_eq!(counter.load(Ordering::SeqCst), 1);
    assert!(doc.can_undo());
    doc.undo().unwrap();
    assert_eq!(counter.load(Ordering::SeqCst), 0);
    assert!(doc.can_redo());
    doc.redo().unwrap();
    assert_eq!(counter.load(Ordering::SeqCst), 1);
    assert!(doc.undo().is_ok());
    assert!(doc.undo().is_err());
}

#[test]
fn strict_render_propagates_evaluation_failures() {
    let mut doc = Document::new();
    let layer = doc.add_layer();
    // An image node with no stored image fails to evaluate.
    let empty = Node::new(Capability::Image(ImageNode::new()));
    let empty_id = doc.layer_add_node(&layer, empty).unwrap();
    doc.set_layer_output(&layer, Some(empty_id)).unwrap();

    // The tolerant composite skips the failed layer ...
    assert!(doc.render().is_none());
    // ... while the strict one surfaces the failure.
    assert!(matches!(
        doc.render_strict(),
        Err(DocumentError::NodeError(_))
    ));
}
