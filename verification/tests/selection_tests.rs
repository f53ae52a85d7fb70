use cipollino::selection::Selection;

#[test]
fn clear_empties_any_selection() {
    let mut sel = Selection::Timeline(vec![1, 2], vec![3]);
    sel.clear();
    assert_eq!(sel, Selection::Empty);
    assert!(sel.is_empty());
}

#[test]
fn kind_queries() {
    let scene = Selection::Scene(vec![4]);
    let timeline = Selection::Timeline(vec![], vec![]);
    assert!(scene.is_scene());
    assert!(!scene.is_frames());
    assert!(!scene.is_empty());
    assert!(timeline.is_frames());
    assert!(!timeline.is_scene());
    assert!(!timeline.is_empty());
    assert!(Selection::Empty.is_empty());
}

#[test]
fn membership_queries() {
    let scene = Selection::Scene(vec![4, 5]);
    assert!(scene.stroke_selected(5));
    assert!(!scene.stroke_selected(6));
    assert!(!scene.frame_selected(4));
    let timeline = Selection::Timeline(vec![7], vec![8]);
    assert!(timeline.frame_selected(7));
    assert!(!timeline.frame_selected(8));
    assert!(timeline.sound_selected(8));
    assert!(!timeline.sound_selected(7));
    assert!(!timeline.stroke_selected(7));
}

#[test]
fn stroke_inverting_starts_scene_selection() {
    let mut sel = Selection::Timeline(vec![1], vec![2]);
    sel.select_stroke_inverting(9);
    assert_eq!(sel, Selection::Scene(vec![9]));
}

#[test]
fn stroke_inverting_flips_membership() {
    let mut sel = Selection::Scene(vec![1, 2, 3]);
    sel.select_stroke_inverting(2);
    assert_eq!(sel, Selection::Scene(vec![1, 3]));
    assert!(!sel.stroke_selected(2));
    sel.select_stroke_inverting(2);
    assert_eq!(sel, Selection::Scene(vec![1, 3, 2]));
    assert!(sel.stroke_selected(2));
}

#[test]
fn stroke_inverting_twice_restores_when_absent() {
    let mut sel = Selection::Scene(vec![1, 3]);
    sel.select_stroke_inverting(7);
    sel.select_stroke_inverting(7);
    assert_eq!(sel, Selection::Scene(vec![1, 3]));
}

#[test]
fn stroke_inverting_removes_first_of_repeats() {
    let mut sel = Selection::Scene(vec![5, 1, 5]);
    sel.select_stroke_inverting(5);
    assert_eq!(sel, Selection::Scene(vec![1, 5]));
}

#[test]
fn select_frame_adds_once() {
    let mut sel = Selection::Empty;
    sel.select_frame(3);
    assert_eq!(sel, Selection::Timeline(vec![3], vec![]));
    sel.select_frame(4);
    sel.select_frame(3);
    assert_eq!(sel, Selection::Timeline(vec![3, 4], vec![]));
}

#[test]
fn select_frame_keeps_sounds() {
    let mut sel = Selection::Timeline(vec![], vec![11]);
    sel.select_frame(3);
    assert_eq!(sel, Selection::Timeline(vec![3], vec![11]));
}

#[test]
fn frame_inverting() {
    let mut sel = Selection::Scene(vec![1]);
    sel.select_frame_inverting(6);
    assert_eq!(sel, Selection::Timeline(vec![6], vec![]));
    sel.select_frame_inverting(8);
    sel.select_frame_inverting(6);
    assert_eq!(sel, Selection::Timeline(vec![8], vec![]));
}

#[test]
fn select_sound_adds_once() {
    let mut sel = Selection::Scene(vec![1]);
    sel.select_sound(2);
    assert_eq!(sel, Selection::Timeline(vec![], vec![2]));
    sel.select_sound(2);
    sel.select_sound(5);
    assert_eq!(sel, Selection::Timeline(vec![], vec![2, 5]));
}

#[test]
fn sound_inverting() {
    let mut sel = Selection::Timeline(vec![1], vec![2, 3]);
    sel.select_sound_inverting(2);
    assert_eq!(sel, Selection::Timeline(vec![1], vec![3]));
    sel.select_sound_inverting(4);
    assert_eq!(sel, Selection::Timeline(vec![1], vec![3, 4]));
    let mut fresh = Selection::Empty;
    fresh.select_sound_inverting(9);
    assert_eq!(fresh, Selection::Timeline(vec![], vec![9]));
}

#[test]
fn position_of_finds_first() {
    assert_eq!(cipollino::keys::position_of(&vec![4, 2, 4], 4), Some(0));
    assert_eq!(cipollino::keys::position_of(&vec![4, 2, 4], 2), Some(1));
    assert_eq!(cipollino::keys::position_of(&vec![4, 2, 4], 9), None);
}

#[test]
fn timeline_deletion_takes_frames_and_sounds() {
    let mut sel = Selection::Timeline(vec![4, 5], vec![9]);
    assert_eq!(sel.take_timeline_deletion(), Some((vec![4, 5], vec![9])));
    assert_eq!(sel, Selection::Empty);
    let mut scene = Selection::Scene(vec![1]);
    assert_eq!(scene.take_timeline_deletion(), None);
    assert_eq!(scene, Selection::Scene(vec![1]));
}

#[test]
fn scene_deletion_takes_strokes() {
    let mut sel = Selection::Scene(vec![1, 2]);
    assert_eq!(sel.take_scene_deletion(), Some(vec![1, 2]));
    assert_eq!(sel, Selection::Empty);
    let mut timeline = Selection::Timeline(vec![3], vec![]);
    assert_eq!(timeline.take_scene_deletion(), None);
    assert_eq!(timeline, Selection::Timeline(vec![3], vec![]));
}

#[test]
fn paste_selects_the_pasted_strokes() {
    assert_eq!(Selection::paste_selection(&vec![Some(7), None, Some(8)]), Selection::Scene(vec![7, 8]));
    assert_eq!(Selection::paste_selection(&vec![None]), Selection::Empty);
    assert_eq!(Selection::paste_selection(&vec![]), Selection::Empty);
}
