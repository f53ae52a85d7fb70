use cipollino::timeline::{clamp_frame_shift, clamp_sound_shift, frame_move_order, plan_frame_moves};
use cipollino::panels::{calc_grid_rows, layer_drop_target, FrameGridRow, FrameGridRowKind, LayerKind, LayerParent};

#[test]
fn frame_shift_clamped_at_zero() {
    assert_eq!(clamp_frame_shift(-5, &vec![3, 10]), -3);
    assert_eq!(clamp_frame_shift(-2, &vec![3, 10]), -2);
    assert_eq!(clamp_frame_shift(4, &vec![0]), 4);
    assert_eq!(clamp_frame_shift(-7, &vec![]), -7);
}

#[test]
fn clamped_shift_keeps_times_nonnegative() {
    let times = vec![6, 2, 9];
    let shift = clamp_frame_shift(-100, &times);
    for t in times {
        assert!(t + shift >= 0);
    }
    assert_eq!(shift, -2);
}

#[test]
fn sound_shift_clamped_at_zero() {
    assert_eq!(clamp_sound_shift(-50_000, &vec![44_100, 1_000]), -1_000);
    assert_eq!(clamp_sound_shift(10, &vec![0]), 10);
}

#[test]
fn later_frames_move_first_when_shifting_later() {
    let frames = vec![(1, 0), (2, 5), (3, 5)];
    assert_eq!(plan_frame_moves(&frames, 2), vec![(2, 7), (3, 7), (1, 2)]);
}

#[test]
fn earlier_frames_move_first_when_shifting_earlier() {
    let frames = vec![(1, 3), (2, 1), (3, 3)];
    assert_eq!(plan_frame_moves(&frames, -1), vec![(2, 0), (1, 2), (3, 2)]);
}

#[test]
fn no_move_lands_on_an_unmoved_frame() {
    let frames = vec![(1, 1), (2, 2), (3, 3)];
    for shift in [-1, 1, 2] {
        let moves = plan_frame_moves(&frames, shift);
        for i in 0..moves.len() {
            for j in (i + 1)..moves.len() {
                assert_ne!(moves[i].1, moves[j].1 - shift);
            }
        }
    }
}

#[test]
fn move_order_indices() {
    assert_eq!(frame_move_order(&vec![4, 1, 4], 1), vec![0, 2, 1]);
    assert_eq!(frame_move_order(&vec![4, 1, 4], 0), vec![1, 0, 2]);
}

#[test]
fn grid_rows_follow_layers() {
    let rows = calc_grid_rows(&vec![(10, LayerKind::Animation), (11, LayerKind::Audio)]);
    assert_eq!(rows, vec![
        FrameGridRow { kind: FrameGridRowKind::AnimationLayer(10), idx: 0 },
        FrameGridRow { kind: FrameGridRowKind::AudioLayer(11), idx: 1 },
    ]);
}

#[test]
fn layer_drop_positions() {
    let parent = LayerParent::Graphic(1);
    assert_eq!(layer_drop_target(5, 2, parent, false, true, 9), Some((2, parent)));
    assert_eq!(layer_drop_target(5, 2, parent, false, false, 9), Some((3, parent)));
    assert_eq!(layer_drop_target(5, 2, parent, true, false, 9), Some((0, LayerParent::Layer(5))));
    assert_eq!(layer_drop_target(5, 2, parent, true, true, 5), None);
}
