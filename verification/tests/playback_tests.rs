use cipollino::audio::{clip_sample_index, export_block_size, wrap_playback_time};
use cipollino::export::{advance_video_frame, video_export_action, VideoExportAction};
use cipollino::pick::pick_stroke;

#[test]
fn clip_sample_inside_clip() {
    assert_eq!(clip_sample_index(5, 2, 10, 1, 100), Some(4));
    assert_eq!(clip_sample_index(2, 2, 10, 0, 100), Some(0));
}

#[test]
fn clip_sample_outside_clip() {
    assert_eq!(clip_sample_index(1, 2, 10, 0, 100), None);
    assert_eq!(clip_sample_index(10, 2, 10, 0, 100), None);
}

#[test]
fn clip_sample_before_or_past_audio() {
    assert_eq!(clip_sample_index(2, 2, 10, -1, 100), None);
    assert_eq!(clip_sample_index(9, 2, 10, 0, 7), None);
    assert_eq!(clip_sample_index(8, 2, 10, 0, 7), Some(6));
}

#[test]
fn clip_samples_advance_one_by_one() {
    for t in 3..8 {
        let a = clip_sample_index(t, 2, 10, 5, 100).unwrap();
        let b = clip_sample_index(t + 1, 2, 10, 5, 100).unwrap();
        assert_eq!(b, a + 1);
    }
}

#[test]
fn playback_time_wraps() {
    assert_eq!(wrap_playback_time(-3, 100), 0);
    assert_eq!(wrap_playback_time(101, 100), 0);
    assert_eq!(wrap_playback_time(100, 100), 100);
    assert_eq!(wrap_playback_time(42, 100), 42);
}

#[test]
fn export_blocks_of_1024() {
    assert_eq!(export_block_size(0, 5000), 1024);
    assert_eq!(export_block_size(4096, 5000), 904);
    assert_eq!(export_block_size(4999, 5000), 1);
}

#[test]
fn video_export_steps() {
    assert_eq!(video_export_action(0, 3, false), VideoExportAction::RenderFrame);
    assert_eq!(video_export_action(3, 3, false), VideoExportAction::WaitForEncoder);
    assert_eq!(video_export_action(3, 3, true), VideoExportAction::Finish);
    assert_eq!(advance_video_frame(0, 3), (1, false));
    assert_eq!(advance_video_frame(2, 3), (3, true));
}

#[test]
fn export_renders_each_frame_once() {
    let mut frame = 0;
    let mut rendered = Vec::new();
    let mut closes = 0;
    while video_export_action(frame, 4, false) == VideoExportAction::RenderFrame {
        rendered.push(frame);
        let (next, close) = advance_video_frame(frame, 4);
        if close {
            closes += 1;
        }
        frame = next;
    }
    assert_eq!(rendered, vec![0, 1, 2, 3]);
    assert_eq!(closes, 1);
    assert_eq!(video_export_action(frame, 4, true), VideoExportAction::Finish);
}

#[test]
fn pick_reads_little_endian_key() {
    let map = vec![7, 8, 9];
    assert_eq!(pick_stroke([2, 0, 0, 0], &map), Some(8));
    assert_eq!(pick_stroke([3, 0, 0, 0], &map), Some(9));
    assert_eq!(pick_stroke([0, 0, 0, 0], &map), None);
    assert_eq!(pick_stroke([4, 0, 0, 0], &map), None);
    assert_eq!(pick_stroke([1, 1, 0, 0], &map), None);
}

#[test]
fn pick_uses_upper_bytes() {
    let map: Vec<u64> = (0..300).map(|i| i + 1000).collect();
    assert_eq!(pick_stroke([1, 1, 0, 0], &map), Some(1256));
}
