use cipollino::new_project::{classify_new_project, clean_project_name, new_project_status, NewProjectStatus};
use cipollino::panels::{Bucket, ColorPanel, ExportOptionsDialog, GraphicPropertiesDialog, LayerPropertyDialog, PrefsDialog, SplashScreen, ToolPanel};

#[test]
fn project_name_loses_slashes() {
    assert_eq!(clean_project_name("a/b/"), "ab");
    assert_eq!(clean_project_name("My Film"), "My Film");
    assert_eq!(clean_project_name("//"), "");
}

#[test]
fn new_project_ready_shows_relative_path() {
    let status = new_project_status(&"Film".to_string(), &"/home/u/Docs/Film".to_string(), &"/home/u".to_string(), false);
    assert_eq!(status, NewProjectStatus::Ready("Docs/Film".to_string()));
    assert!(status.can_create());
}

#[test]
fn new_project_folder_exists() {
    let status = new_project_status(&"Film".to_string(), &"/home/u/Film".to_string(), &"/home/u".to_string(), true);
    assert_eq!(status, NewProjectStatus::FolderExists("Film".to_string()));
    assert!(!status.can_create());
}

#[test]
fn new_project_needs_name() {
    let status = new_project_status(&"".to_string(), &"/home/u".to_string(), &"/home/u".to_string(), false);
    assert_eq!(status, NewProjectStatus::EmptyName);
    assert!(!status.can_create());
}

#[test]
fn new_project_invalid_location() {
    let status = new_project_status(&"Film".to_string(), &"rel/Film".to_string(), &"/home/u".to_string(), false);
    assert_eq!(status, NewProjectStatus::InvalidLocation);
}

#[test]
fn classify_from_display_path() {
    assert_eq!(classify_new_project(true, Some("x".to_string()), false), NewProjectStatus::EmptyName);
    assert_eq!(classify_new_project(false, None, false), NewProjectStatus::InvalidLocation);
    assert_eq!(classify_new_project(false, Some("x".to_string()), true), NewProjectStatus::FolderExists("x".to_string()));
    assert_eq!(classify_new_project(false, Some("x".to_string()), false), NewProjectStatus::Ready("x".to_string()));
}

#[test]
fn prefs_dialog_binding_flow() {
    let mut prefs = PrefsDialog::new();
    assert_eq!(prefs.keybind_binding, "");
    let undo = "Undo".to_string();
    assert!(!prefs.key_pressed(&undo, true));
    prefs.start_binding(undo.clone());
    assert!(prefs.is_binding(&undo));
    assert!(!prefs.key_pressed(&"Redo".to_string(), true));
    assert!(!prefs.key_pressed(&undo, false));
    assert!(prefs.key_pressed(&undo, true));
    assert_eq!(prefs.keybind_binding, "");
}

#[test]
fn constructors_start_empty() {
    let _ = ToolPanel::new();
    let _ = Bucket::new();
    let _ = SplashScreen::new();
    assert_eq!(ExportOptionsDialog::new().path, "");
    assert!(ColorPanel::<u8>::new().curr_act.is_none());
    let layer = LayerPropertyDialog::<u8>::new(4);
    assert_eq!(layer.layer, 4);
    assert!(layer.set_alpha_action.is_none());
    let gfx = GraphicPropertiesDialog::<u8>::new(6);
    assert_eq!(gfx.gfx_ptr, 6);
    assert!(gfx.len_action.is_none() && gfx.w_action.is_none() && gfx.h_action.is_none());
}
