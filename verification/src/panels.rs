use vstd::prelude::*;

use crate::assets::AssetsPanel;

verus! {

/// The tool options panel; it keeps no state of its own.
pub struct ToolPanel {}

impl ToolPanel {
    pub fn new() -> (res: Self) {
        ToolPanel {  }
    }
}

/// The bucket fill tool; it keeps no state of its own.
pub struct Bucket {}

impl Bucket {
    pub fn new() -> (res: Self) {
        Bucket {  }
    }
}

/// The lasso part of the select tool.
pub struct Lasso;

/// The rotate part of the select tool.
pub struct Rotate;

/// The translate part of the select tool.
pub struct Translate;

/// The splash screen shown at start; it keeps no state of its own.
pub struct SplashScreen {}

impl SplashScreen {
    pub fn new() -> (res: Self) {
        SplashScreen {  }
    }
}

/// The export options dialog: the path to export to, empty at first.
pub struct ExportOptionsDialog {
    pub path: String,
}

impl ExportOptionsDialog {
    pub fn new() -> (res: Self)
        ensures
            res.path@ == Seq::<char>::empty(),
    {
        ExportOptionsDialog { path: String::new() }
    }
}

/// The palette panel, with the color edit being previewed, if any (an
/// action of type `A` that is undone before the next preview).
pub struct ColorPanel<A> {
    pub curr_act: Option<A>,
}

impl<A> ColorPanel<A> {
    pub fn new() -> (res: Self)
        ensures
            res.curr_act is None,
    {
        ColorPanel { curr_act: None }
    }
}

/// The layer properties dialog for the layer with key `layer`, with the
/// alpha change being previewed, if any.
pub struct LayerPropertyDialog<A> {
    pub layer: u64,
    pub set_alpha_action: Option<A>,
}

impl<A> LayerPropertyDialog<A> {
    pub fn new(layer: u64) -> (res: Self)
        ensures
            res.layer == layer,
            res.set_alpha_action is None,
    {
        LayerPropertyDialog { layer, set_alpha_action: None }
    }
}

/// The properties dialog of the graphic with key `gfx_ptr`, with the length,
/// width and height changes being previewed, if any.
pub struct GraphicPropertiesDialog<A> {
    pub gfx_ptr: u64,
    pub len_action: Option<A>,
    pub w_action: Option<A>,
    pub h_action: Option<A>,
}

impl<A> GraphicPropertiesDialog<A> {
    pub fn new(gfx_ptr: u64) -> (res: Self)
        ensures
            res.gfx_ptr == gfx_ptr,
            res.len_action is None,
            res.w_action is None,
            res.h_action is None,
    {
        GraphicPropertiesDialog { gfx_ptr, len_action: None, w_action: None, h_action: None }
    }
}

/// The dialog that creates a graphic, holding the settings of the graphic
/// to create (of type `G`), which start at the defaults given.
pub struct NewGraphicDialog<G> {
    pub create_graphic_data: G,
}

impl<G> NewGraphicDialog<G> {
    pub fn new(create_graphic_data: G) -> (res: Self)
        ensures
            res.create_graphic_data == create_graphic_data,
    {
        NewGraphicDialog { create_graphic_data }
    }
}

/// A dockable panel of the editor window. The timeline (`T`) and the scene
/// view (`S`) hold drawing state of the window; the color panel previews
/// actions of type `A`.
pub enum Panel<T, S, A> {
    Assets(AssetsPanel),
    Timeline(T),
    Scene(S),
    Tool(ToolPanel),
    Color(ColorPanel<A>),
}

/// The preferences dialog: the display name of the keybind waiting for a
/// key press, or the empty string when none is.
pub struct PrefsDialog {
    pub keybind_binding: String,
}

impl PrefsDialog {
    pub fn new() -> (res: Self)
        ensures
            res.keybind_binding@ == Seq::<char>::empty(),
    {
        PrefsDialog { keybind_binding: String::new() }
    }

    /// Whether the keybind named `name` is waiting for a key press.
    pub fn is_binding(&self, name: &String) -> (res: bool)
        ensures
            res == (self.keybind_binding@ == name@),
    {
        self.keybind_binding == *name
    }

    /// The keybind's button was clicked: it now waits for a key press.
    pub fn start_binding(&mut self, name: String)
        ensures
            final(self).keybind_binding@ == name@,
    {
        self.keybind_binding = name;
    }

    /// A key went down while the keybind named `name` was drawn: when that
    /// keybind was waiting, it takes the key (the result is true) and no
    /// keybind waits any more.
    pub fn key_pressed(&mut self, name: &String, key_down: bool) -> (take_key: bool)
        ensures
            take_key == (key_down && old(self).keybind_binding@ == name@),
            final(self).keybind_binding@ == (if take_key {
                Seq::<char>::empty()
            } else {
                old(self).keybind_binding@
            }),
    {
        if key_down && self.keybind_binding == *name {
            self.keybind_binding = String::new();
            true
        } else {
            false
        }
    }
}

/// The kind of a layer.
#[derive(Debug, Clone, Copy, PartialEq, Eq, Structural)]
pub enum LayerKind {
    Animation,
    Audio,
}

/// What a timeline row shows: the frames of an animation layer, or the sound
/// instances of an audio layer (layers named by key).
#[derive(Debug, Clone, Copy, PartialEq, Eq, Structural)]
pub enum FrameGridRowKind {
    AnimationLayer(u64),
    AudioLayer(u64),
}

/// A row of the timeline grid and its position among the graphic's layers.
#[derive(Debug, Clone, Copy, PartialEq, Eq, Structural)]
pub struct FrameGridRow {
    pub kind: FrameGridRowKind,
    pub idx: usize,
}

/// The row a layer gets in the timeline: animation layers show frames,
/// audio layers show sounds.
pub open spec fn row_kind(layer: u64, kind: LayerKind) -> FrameGridRowKind {
    match kind {
        LayerKind::Animation => FrameGridRowKind::AnimationLayer(layer),
        LayerKind::Audio => FrameGridRowKind::AudioLayer(layer),
    }
}

/// The timeline rows for the layers of the open graphic (key and kind of
/// each layer, top to bottom), one row per layer, in order.
pub fn calc_grid_rows(layers: &Vec<(u64, LayerKind)>) -> (rows: Vec<FrameGridRow>)
    ensures
        rows@.len() == layers@.len(),
        forall|i: int|
            0 <= i < rows@.len() ==> #[trigger] rows@[i] == (FrameGridRow {
                kind: row_kind(layers@[i].0, layers@[i].1),
                idx: i as usize,
            }),
{
    let mut rows: Vec<FrameGridRow> = Vec::new();
    let mut i: usize = 0;
    while i < layers.len()
        invariant
            i <= layers@.len(),
            rows@.len() == i,
            forall|k: int|
                0 <= k < i ==> #[trigger] rows@[k] == (FrameGridRow {
                    kind: row_kind(layers@[k].0, layers@[k].1),
                    idx: k as usize,
                }),
        decreases layers@.len() - i,
    {
        let (layer, kind) = layers[i];
        let k = match kind {
            LayerKind::Animation => FrameGridRowKind::AnimationLayer(layer),
            LayerKind::Audio => FrameGridRowKind::AudioLayer(layer),
        };
        rows.push(FrameGridRow { kind: k, idx: i });
        i += 1;
    }
    rows
}

/// The frame a drawing tool draws on, in the active layer at the current
/// time: the frame that starts exactly there, or a new frame to be added
/// there.
#[derive(Debug, Clone, Copy, PartialEq, Eq, Structural)]
pub enum ActiveFrame {
    Existing(u64),
    AddAt(i32),
}

/// `i` is the first of `frames` (key, start time) that starts at `time`.
pub open spec fn first_starting_at(frames: Seq<(u64, i32)>, time: i32, i: int) -> bool {
    &&& 0 <= i < frames.len()
    &&& frames[i].1 == time
    &&& forall|j: int| 0 <= j < i ==> (#[trigger] frames[j]).1 != time
}

/// No frame of `frames` (key, start time) starts at `time`.
pub open spec fn no_frame_at(frames: Seq<(u64, i32)>, time: i32) -> bool {
    forall|j: int| 0 <= j < frames.len() ==> (#[trigger] frames[j]).1 != time
}

/// `key` names the first frame of `frames` that starts at `time`.
pub open spec fn first_frame_at(frames: Seq<(u64, i32)>, time: i32, key: u64) -> bool {
    exists|i: int| #[trigger] first_starting_at(frames, time, i) && frames[i].0 == key
}

/// The active frame for a layer given by the key and start time of each of
/// its frames (`None` when the active layer does not exist) at time
/// `frame`: `None` without a layer; else the first frame that starts exactly
/// at `frame`, or a frame to add there when none does.
pub fn active_frame_proj_layer_frame(layer_frames: Option<&Vec<(u64, i32)>>, frame: i32) -> (res:
    Option<ActiveFrame>)
    ensures
        match layer_frames {
            None => res is None,
            Some(frames) => match res {
                Some(ActiveFrame::Existing(k)) => first_frame_at(frames@, frame, k),
                Some(ActiveFrame::AddAt(t)) => t == frame && no_frame_at(frames@, frame),
                None => false,
            },
        },
{
    match layer_frames {
        None => None,
        Some(frames) => {
            let mut i: usize = 0;
            while i < frames.len() && frames[i].1 != frame
                invariant
                    i <= frames@.len(),
                    forall|j: int| 0 <= j < i ==> (#[trigger] frames@[j]).1 != frame,
                decreases frames@.len() - i,
            {
                i += 1;
            }
            if i < frames.len() {
                proof {
                    assert(first_starting_at(frames@, frame, i as int));
                }
                Some(ActiveFrame::Existing(frames[i].0))
            } else {
                Some(ActiveFrame::AddAt(frame))
            }
        },
    }
}

/// Whether the new-frame command adds a frame at time `frame` to the active
/// layer, given its kind and the key and start time of each of its frames
/// (`None` when there is no active layer): only an animation layer gets one,
/// and only where no frame starts exactly at `frame`.
pub fn new_frame(active_layer: Option<(LayerKind, &Vec<(u64, i32)>)>, frame: i32) -> (add: bool)
    ensures
        add == match active_layer {
            Some((LayerKind::Animation, frames)) => no_frame_at(frames@, frame),
            _ => false,
        },
{
    match active_layer {
        Some((LayerKind::Animation, frames)) => {
            let mut i: usize = 0;
            while i < frames.len() && frames[i].1 != frame
                invariant
                    i <= frames@.len(),
                    forall|j: int| 0 <= j < i ==> (#[trigger] frames@[j]).1 != frame,
                decreases frames@.len() - i,
            {
                i += 1;
            }
            i == frames.len()
        },
        _ => false,
    }
}

/// What holds a layer: the graphic itself, or a group layer.
#[derive(Debug, Clone, Copy, PartialEq, Eq, Structural)]
pub enum LayerParent {
    Graphic(u64),
    Layer(u64),
}

/// Where a layer dragged over a row of the layer list would be dropped.
/// Over the upper half of the row it goes before the row's layer; over the
/// lower half it goes into a group as its first layer, or after any other
/// layer. A layer dropped on its own row goes nowhere.
pub open spec fn drop_target(
    layer: u64,
    local_idx: int,
    parent: LayerParent,
    is_group: bool,
    upper_half: bool,
    dragged: u64,
) -> Option<(int, LayerParent)> {
    if dragged == layer {
        None
    } else if upper_half {
        Some((local_idx, parent))
    } else if is_group {
        Some((0, LayerParent::Layer(layer)))
    } else {
        Some((local_idx + 1, parent))
    }
}

/// Computes `drop_target` for the row of `layer`, which is the
/// `local_idx`-th child of `parent`.
pub fn layer_drop_target(
    layer: u64,
    local_idx: usize,
    parent: LayerParent,
    is_group: bool,
    upper_half: bool,
    dragged: u64,
) -> (res: Option<(usize, LayerParent)>)
    requires
        local_idx < usize::MAX,
    ensures
        match drop_target(layer, local_idx as int, parent, is_group, upper_half, dragged) {
            Some((i, p)) => res == Some((i as usize, p)),
            None => res is None,
        },
        dragged == layer ==> res is None,
        dragged != layer && !upper_half && is_group ==> res == Some((0usize, LayerParent::Layer(layer))),
{
    if dragged == layer {
        None
    } else if upper_half {
        Some((local_idx, parent))
    } else if is_group {
        Some((0, LayerParent::Layer(layer)))
    } else {
        Some((local_idx + 1, parent))
    }
}

/// A layer is never dropped onto its own row: when the dragged layer is the
/// row's layer nothing happens, over either half of the row, so no group is
/// ever dropped into itself. Any other layer lands somewhere: over the upper
/// half just before the row's layer under the same parent, over the lower
/// half of a group as that group's first layer, and over the lower half of
/// any other layer just after it under the same parent.
pub proof fn law_drop_never_onto_itself(
    layer: u64,
    local_idx: int,
    parent: LayerParent,
    is_group: bool,
    upper_half: bool,
    dragged: u64,
)
    ensures
        dragged == layer ==> drop_target(layer, local_idx, parent, is_group, upper_half, dragged) is None,
        dragged != layer ==> drop_target(layer, local_idx, parent, is_group, upper_half, dragged) is Some,
        !upper_half && is_group ==> drop_target(layer, local_idx, parent, is_group, upper_half, dragged)
            != Some((0int, LayerParent::Layer(dragged))),
        dragged != layer && upper_half ==> drop_target(layer, local_idx, parent, is_group, upper_half, dragged)
            == Some((local_idx, parent)),
        dragged != layer && !upper_half && is_group ==> drop_target(layer, local_idx, parent, is_group, upper_half, dragged)
            == Some((0int, LayerParent::Layer(layer))),
        dragged != layer && !upper_half && !is_group ==> drop_target(layer, local_idx, parent, is_group, upper_half, dragged)
            == Some((local_idx + 1, parent)),
{
}

} // verus!
