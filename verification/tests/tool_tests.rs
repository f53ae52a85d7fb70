use cipollino::panels::{active_frame_proj_layer_frame, ActiveFrame, NewGraphicDialog};

#[test]
fn active_frame_without_layer() {
    assert_eq!(active_frame_proj_layer_frame(None, 3), None);
}

#[test]
fn active_frame_found_exactly() {
    let frames = vec![(10u64, 0i32), (11, 4), (12, 8)];
    assert_eq!(active_frame_proj_layer_frame(Some(&frames), 4), Some(ActiveFrame::Existing(11)));
    assert_eq!(active_frame_proj_layer_frame(Some(&frames), 0), Some(ActiveFrame::Existing(10)));
}

#[test]
fn active_frame_between_frames_is_added() {
    let frames = vec![(10u64, 0i32), (11, 4), (12, 8)];
    assert_eq!(active_frame_proj_layer_frame(Some(&frames), 5), Some(ActiveFrame::AddAt(5)));
    let empty: Vec<(u64, i32)> = Vec::new();
    assert_eq!(active_frame_proj_layer_frame(Some(&empty), -2), Some(ActiveFrame::AddAt(-2)));
}

#[test]
fn new_graphic_dialog_starts_from_defaults() {
    let dialog = NewGraphicDialog::new(("Graphic".to_string(), 100u32, 1920u32, 1080u32));
    assert_eq!(dialog.create_graphic_data.0, "Graphic");
    assert_eq!(dialog.create_graphic_data.1, 100);
}
