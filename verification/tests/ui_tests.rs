use aurion::ui::{NodeType, UiState};

#[test]
fn editor_offers_the_image_kind() {
    let kinds = NodeType::all();
    assert_eq!(kinds.len(), 1);
    assert_eq!(kinds[0].name(), "Image");
    let node = kinds[0].create().unwrap();
    assert_eq!(node.kind(), "ImageNode");
    assert!(node.inputs.is_empty());
}

#[test]
fn ui_state_starts_with_everything_closed() {
    let state = UiState::new();
    assert!(state.selected_layer.is_none());
    assert!(!state.show_save_dialog);
    assert!(!state.show_load_dialog);
    assert!(!state.show_node_creation_menu);
}
