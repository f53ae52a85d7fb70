use cipollino::clipboard::{Clipboard, SelectionCopies};
use cipollino::dialog::{DialogEntry, DialogManager, DialogsToOpen};
use cipollino::recent::push_recent_project;
use cipollino::selection::Selection;

#[test]
fn recent_project_moves_to_front() {
    let mut recents = vec!["a".to_string(), "b".to_string(), "c".to_string()];
    push_recent_project(&mut recents, "b".to_string());
    assert_eq!(recents, vec!["b".to_string(), "a".to_string(), "c".to_string()]);
}

#[test]
fn new_recent_project_goes_first() {
    let mut recents = vec!["a".to_string(), "b".to_string()];
    push_recent_project(&mut recents, "d".to_string());
    assert_eq!(recents, vec!["d".to_string(), "a".to_string(), "b".to_string()]);
    push_recent_project(&mut recents, "d".to_string());
    assert_eq!(recents, vec!["d".to_string(), "a".to_string(), "b".to_string()]);
}

#[test]
fn recent_project_into_empty_list() {
    let mut recents = Vec::new();
    push_recent_project(&mut recents, "/home/u/proj.cip".to_string());
    assert_eq!(recents, vec!["/home/u/proj.cip".to_string()]);
}

#[test]
fn unique_dialog_opens_once() {
    let mut dialogs = DialogManager::new();
    assert_eq!(dialogs.open_dialog(7, true), Some(0));
    assert_eq!(dialogs.open_dialog(7, true), None);
    assert_eq!(dialogs.open_dialog(8, false), Some(1));
    assert_eq!(dialogs.open_dialog(8, false), Some(2));
    assert_eq!(dialogs.len(), 3);
    assert_eq!(dialogs.entry(0), DialogEntry { type_id: 7, id: 0, unique: true });
    assert_eq!(dialogs.entry(2), DialogEntry { type_id: 8, id: 2, unique: false });
}

#[test]
fn dialogs_open_in_request_order() {
    let mut dialogs = DialogManager::new();
    let mut to_open = DialogsToOpen::new();
    to_open.open_dialog(1, true);
    to_open.open_dialog(2, false);
    to_open.open_dialog(1, true);
    assert_eq!(to_open.len(), 3);
    assert_eq!(dialogs.open_dialogs(&to_open), vec![Some(0), Some(1), None]);
    assert_eq!(dialogs.len(), 2);
}

#[test]
fn closed_dialogs_are_removed() {
    let mut dialogs = DialogManager::new();
    for t in 0..4 {
        dialogs.open_dialog(t, false);
    }
    dialogs.close_dialogs(&vec![true, false, true, false]);
    assert_eq!(dialogs.len(), 2);
    assert_eq!(dialogs.entry(0).id, 1);
    assert_eq!(dialogs.entry(1).id, 3);
    assert_eq!(dialogs.open_dialog(9, false), Some(4));
}

#[test]
fn unique_dialog_opens_again_after_closing() {
    let mut dialogs = DialogManager::new();
    dialogs.open_dialog(5, true);
    dialogs.close_dialogs(&vec![true]);
    assert_eq!(dialogs.open_dialog(5, true), Some(1));
}

#[test]
fn clipboard_keeps_copies_made() {
    let sel = Selection::Scene(vec![1, 2, 3]);
    let copies = SelectionCopies { strokes: vec![Some(10), None, Some(12)], frames: vec![], sounds: vec![] };
    assert_eq!(Clipboard::from_selection(&sel, &copies), Clipboard::Scene(vec![10, 12]));
}

#[test]
fn clipboard_of_timeline_selection() {
    let sel = Selection::Timeline(vec![1], vec![2, 3]);
    let copies = SelectionCopies { strokes: vec![], frames: vec![Some(4)], sounds: vec![Some(5), Some(6)] };
    assert_eq!(Clipboard::from_selection(&sel, &copies), Clipboard::Timeline(vec![4], vec![5, 6]));
}

#[test]
fn clipboard_of_nothing() {
    let copies = SelectionCopies { strokes: vec![], frames: vec![], sounds: vec![] };
    assert_eq!(Clipboard::from_selection(&Selection::Empty, &copies), Clipboard::Empty);
}
