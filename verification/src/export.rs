use vstd::prelude::*;

verus! {

/// What the export dialog does next while encoding video.
#[derive(Debug, Clone, Copy, PartialEq, Eq, Structural)]
pub enum VideoExportAction {
    /// Every frame was written and the encoder is done: delete the temporary
    /// audio file and close the dialog.
    Finish,
    /// Every frame was written; wait for the encoder.
    WaitForEncoder,
    /// Render frame `curr_frame` and hand it to the encoder.
    RenderFrame,
}

/// The frame count of a graphic as the export loop counts frames (`as i32`).
pub open spec fn export_frame_count(graphic_len: u32) -> i32 {
    graphic_len as i32
}

/// The next step of the video export at frame `curr_frame`.
pub open spec fn next_video_action(curr_frame: i32, graphic_len: u32, encoder_done: bool) -> VideoExportAction {
    if curr_frame == export_frame_count(graphic_len) {
        if encoder_done {
            VideoExportAction::Finish
        } else {
            VideoExportAction::WaitForEncoder
        }
    } else {
        VideoExportAction::RenderFrame
    }
}

/// Writing frame `curr_frame` was the last frame to write.
pub open spec fn closes_encoder(curr_frame: i32, graphic_len: u32) -> bool {
    curr_frame + 1 == export_frame_count(graphic_len)
}

/// The next step of the video export, at frame `curr_frame` of a graphic of
/// `graphic_len` frames, given whether the encoder has finished.
pub fn video_export_action(curr_frame: i32, graphic_len: u32, encoder_done: bool) -> (res: VideoExportAction)
    ensures
        res == next_video_action(curr_frame, graphic_len, encoder_done),
{
    if curr_frame == graphic_len as i32 {
        if encoder_done {
            VideoExportAction::Finish
        } else {
            VideoExportAction::WaitForEncoder
        }
    } else {
        VideoExportAction::RenderFrame
    }
}

/// After frame `curr_frame` was written: the next frame, and whether that
/// was the last one, so that the encoder's input must be closed.
pub fn advance_video_frame(curr_frame: i32, graphic_len: u32) -> (res: (i32, bool))
    requires
        curr_frame < i32::MAX,
    ensures
        res.0 == curr_frame + 1,
        res.1 == closes_encoder(curr_frame, graphic_len),
{
    let next = curr_frame + 1;
    (next, next == graphic_len as i32)
}

/// Exporting a graphic of `n` frames from frame zero: each frame from zero
/// up to `n - 1` is rendered when the export reaches it, the encoder's input
/// is closed after frame `n - 1` is written and after no other frame, and
/// at frame `n` the dialog only waits for the encoder and then finishes.
pub proof fn law_export_renders_each_frame_once(graphic_len: u32, curr_frame: i32, encoder_done: bool)
    requires
        0 <= curr_frame <= export_frame_count(graphic_len),
    ensures
        curr_frame < export_frame_count(graphic_len) ==> next_video_action(curr_frame, graphic_len, encoder_done)
            == VideoExportAction::RenderFrame,
        curr_frame < export_frame_count(graphic_len) ==> (closes_encoder(curr_frame, graphic_len)
            <==> curr_frame == export_frame_count(graphic_len) - 1),
        curr_frame == export_frame_count(graphic_len) ==> next_video_action(curr_frame, graphic_len, encoder_done)
            == (if encoder_done {
            VideoExportAction::Finish
        } else {
            VideoExportAction::WaitForEncoder
        }),
{
}

} // verus!
