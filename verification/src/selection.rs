use vstd::prelude::*;

use crate::clipboard::made_copies;
use crate::keys::position_of;

verus! {

/// What the user has selected: nothing, strokes in the scene, or frames and
/// sound instances in the timeline. Objects are named by their keys.
#[derive(Debug, Clone, PartialEq, Eq)]
pub enum Selection {
    Empty,
    Scene(Vec<u64>),
    Timeline(Vec<u64>, Vec<u64>),
}

/// Mathematical model of a selection.
pub enum SelectionView {
    Empty,
    Scene(Seq<u64>),
    Timeline(Seq<u64>, Seq<u64>),
}

/// `s` with `x` taken out (its first occurrence) when present, else with `x` appended.
pub open spec fn toggled(s: Seq<u64>, x: u64) -> Seq<u64> {
    if s.contains(x) {
        s.remove_value(x)
    } else {
        s.push(x)
    }
}

/// `s` with `x` appended unless it is already there.
pub open spec fn with_added(s: Seq<u64>, x: u64) -> Seq<u64> {
    if s.contains(x) {
        s
    } else {
        s.push(x)
    }
}

impl SelectionView {
    pub open spec fn is_scene(self) -> bool {
        self is Scene
    }

    pub open spec fn is_timeline(self) -> bool {
        self is Timeline
    }

    pub open spec fn stroke_selected(self, stroke: u64) -> bool {
        match self {
            SelectionView::Scene(strokes) => strokes.contains(stroke),
            _ => false,
        }
    }

    pub open spec fn frame_selected(self, frame: u64) -> bool {
        match self {
            SelectionView::Timeline(frames, _) => frames.contains(frame),
            _ => false,
        }
    }

    pub open spec fn sound_selected(self, sound: u64) -> bool {
        match self {
            SelectionView::Timeline(_, sounds) => sounds.contains(sound),
            _ => false,
        }
    }

    pub open spec fn select_stroke_inverting(self, stroke: u64) -> SelectionView {
        match self {
            SelectionView::Scene(strokes) => SelectionView::Scene(toggled(strokes, stroke)),
            _ => SelectionView::Scene(seq![stroke]),
        }
    }

    pub open spec fn select_frame(self, frame: u64) -> SelectionView {
        match self {
            SelectionView::Timeline(frames, sounds) => SelectionView::Timeline(
                with_added(frames, frame),
                sounds,
            ),
            _ => SelectionView::Timeline(seq![frame], seq![]),
        }
    }

    pub open spec fn select_frame_inverting(self, frame: u64) -> SelectionView {
        match self {
            SelectionView::Timeline(frames, sounds) => SelectionView::Timeline(
                toggled(frames, frame),
                sounds,
            ),
            _ => SelectionView::Timeline(seq![frame], seq![]),
        }
    }

    pub open spec fn select_sound(self, sound: u64) -> SelectionView {
        match self {
            SelectionView::Timeline(frames, sounds) => SelectionView::Timeline(
                frames,
                with_added(sounds, sound),
            ),
            _ => SelectionView::Timeline(seq![], seq![sound]),
        }
    }

    pub open spec fn select_sound_inverting(self, sound: u64) -> SelectionView {
        match self {
            SelectionView::Timeline(frames, sounds) => SelectionView::Timeline(
                frames,
                toggled(sounds, sound),
            ),
            _ => SelectionView::Timeline(seq![], seq![sound]),
        }
    }

    /// No key is listed twice.
    pub open spec fn well_formed(self) -> bool {
        match self {
            SelectionView::Empty => true,
            SelectionView::Scene(strokes) => strokes.no_duplicates(),
            SelectionView::Timeline(frames, sounds) => frames.no_duplicates()
                && sounds.no_duplicates(),
        }
    }
}

impl View for Selection {
    type V = SelectionView;

    open spec fn view(&self) -> SelectionView {
        match self {
            Selection::Empty => SelectionView::Empty,
            Selection::Scene(strokes) => SelectionView::Scene(strokes@),
            Selection::Timeline(frames, sounds) => SelectionView::Timeline(frames@, sounds@),
        }
    }
}

fn toggle_key(list: &mut Vec<u64>, key: u64)
    ensures
        final(list)@ == toggled(old(list)@, key),
{
    match position_of(list, key) {
        Some(idx) => {
            list.remove(idx);
        },
        None => {
            list.push(key);
        },
    }
}

fn add_key(list: &mut Vec<u64>, key: u64)
    ensures
        final(list)@ == with_added(old(list)@, key),
{
    if position_of(list, key).is_none() {
        list.push(key);
    }
}

impl Selection {
    /// Drops the whole selection.
    pub fn clear(&mut self)
        ensures
            final(self)@ == SelectionView::Empty,
    {
        *self = Selection::Empty;
    }

    pub fn is_scene(&self) -> (res: bool)
        ensures
            res == self@.is_scene(),
    {
        if let Selection::Scene(_) = self {
            true
        } else {
            false
        }
    }

    /// True for a timeline selection (frames and sounds).
    pub fn is_frames(&self) -> (res: bool)
        ensures
            res == self@.is_timeline(),
    {
        if let Selection::Timeline(..) = self {
            true
        } else {
            false
        }
    }

    pub fn is_empty(&self) -> (res: bool)
        ensures
            res == (self@ is Empty),
    {
        match self {
            Selection::Empty => true,
            _ => false,
        }
    }

    pub fn stroke_selected(&self, stroke: u64) -> (res: bool)
        ensures
            res == self@.stroke_selected(stroke),
    {
        if let Selection::Scene(strokes) = self {
            position_of(strokes, stroke).is_some()
        } else {
            false
        }
    }

    pub fn frame_selected(&self, frame: u64) -> (res: bool)
        ensures
            res == self@.frame_selected(frame),
    {
        if let Selection::Timeline(frames, _) = self {
            position_of(frames, frame).is_some()
        } else {
            false
        }
    }

    pub fn sound_selected(&self, sound: u64) -> (res: bool)
        ensures
            res == self@.sound_selected(sound),
    {
        if let Selection::Timeline(_, sounds) = self {
            position_of(sounds, sound).is_some()
        } else {
            false
        }
    }

    pub fn select_stroke_inverting(&mut self, stroke: u64)
        ensures
            final(self)@ == old(self)@.select_stroke_inverting(stroke),
    {
        let mut prev = Selection::Empty;
        std::mem::swap(&mut prev, self);
        match prev {
            Selection::Scene(mut strokes) => {
                assert(old(self)@ == SelectionView::Scene(strokes@));
                toggle_key(&mut strokes, stroke);
                *self = Selection::Scene(strokes);
            },
            _ => {
                let v = vec![stroke];
                assert(v@ == seq![stroke]);
                *self = Selection::Scene(v);
            },
        }
    }

    pub fn select_frame(&mut self, frame: u64)
        ensures
            final(self)@ == old(self)@.select_frame(frame),
            old(self)@.is_timeline() ==> forall|x: u64| #[trigger] final(self)@.sound_selected(x)
                == old(self)@.sound_selected(x),
    {
        let mut prev = Selection::Empty;
        std::mem::swap(&mut prev, self);
        match prev {
            Selection::Timeline(mut frames, sounds) => {
                assert(old(self)@ == SelectionView::Timeline(frames@, sounds@));
                add_key(&mut frames, frame);
                *self = Selection::Timeline(frames, sounds);
            },
            _ => {
                let v = vec![frame];
                assert(v@ == seq![frame]);
                *self = Selection::Timeline(v, Vec::new());
            },
        }
    }

    pub fn select_frame_inverting(&mut self, frame: u64)
        ensures
            final(self)@ == old(self)@.select_frame_inverting(frame),
            old(self)@.is_timeline() ==> forall|x: u64| #[trigger] final(self)@.sound_selected(x)
                == old(self)@.sound_selected(x),
    {
        let mut prev = Selection::Empty;
        std::mem::swap(&mut prev, self);
        match prev {
            Selection::Timeline(mut frames, sounds) => {
                assert(old(self)@ == SelectionView::Timeline(frames@, sounds@));
                toggle_key(&mut frames, frame);
                *self = Selection::Timeline(frames, sounds);
            },
            _ => {
                let v = vec![frame];
                assert(v@ == seq![frame]);
                *self = Selection::Timeline(v, Vec::new());
            },
        }
    }

    pub fn select_sound(&mut self, sound: u64)
        ensures
            final(self)@ == old(self)@.select_sound(sound),
            old(self)@.is_timeline() ==> forall|x: u64| #[trigger] final(self)@.frame_selected(x)
                == old(self)@.frame_selected(x),
    {
        let mut prev = Selection::Empty;
        std::mem::swap(&mut prev, self);
        match prev {
            Selection::Timeline(frames, mut sounds) => {
                assert(old(self)@ == SelectionView::Timeline(frames@, sounds@));
                add_key(&mut sounds, sound);
                *self = Selection::Timeline(frames, sounds);
            },
            _ => {
                let v = vec![sound];
                assert(v@ == seq![sound]);
                *self = Selection::Timeline(Vec::new(), v);
            },
        }
    }

    pub fn select_sound_inverting(&mut self, sound: u64)
        ensures
            final(self)@ == old(self)@.select_sound_inverting(sound),
            old(self)@.is_timeline() ==> forall|x: u64| #[trigger] final(self)@.frame_selected(x)
                == old(self)@.frame_selected(x),
    {
        let mut prev = Selection::Empty;
        std::mem::swap(&mut prev, self);
        match prev {
            Selection::Timeline(frames, mut sounds) => {
                assert(old(self)@ == SelectionView::Timeline(frames@, sounds@));
                toggle_key(&mut sounds, sound);
                *self = Selection::Timeline(frames, sounds);
            },
            _ => {
                let v = vec![sound];
                assert(v@ == seq![sound]);
                *self = Selection::Timeline(Vec::new(), v);
            },
        }
    }
}

/// The selection after pasting strokes: cleared, then each stroke that was
/// added (`None` where a copy could not be added) inverted in turn.
pub open spec fn pasted_selection(added: Seq<Option<u64>>) -> SelectionView
    decreases added.len(),
{
    if added.len() == 0 {
        SelectionView::Empty
    } else {
        let before = pasted_selection(added.drop_last());
        match added.last() {
            Some(k) => before.select_stroke_inverting(k),
            None => before,
        }
    }
}

impl Selection {
    /// The delete shortcut in the timeline: with frames and sounds selected,
    /// gives them (to be deleted) and leaves nothing selected; any other
    /// selection is left as it is.
    pub fn take_timeline_deletion(&mut self) -> (res: Option<(Vec<u64>, Vec<u64>)>)
        ensures
            match old(self)@ {
                SelectionView::Timeline(frames, sounds) => {
                    &&& res matches Some((f, s)) && f@ == frames && s@ == sounds
                    &&& final(self)@ == SelectionView::Empty
                },
                _ => res is None && final(self)@ == old(self)@,
            },
    {
        let mut taken = Selection::Empty;
        std::mem::swap(self, &mut taken);
        match taken {
            Selection::Timeline(frames, sounds) => Some((frames, sounds)),
            other => {
                *self = other;
                None
            },
        }
    }

    /// The delete shortcut in the scene: with strokes selected, gives them
    /// (to be deleted) and leaves nothing selected; any other selection is
    /// left as it is.
    pub fn take_scene_deletion(&mut self) -> (res: Option<Vec<u64>>)
        ensures
            match old(self)@ {
                SelectionView::Scene(strokes) => {
                    &&& res is Some
                    &&& res->0@ == strokes
                    &&& final(self)@ == SelectionView::Empty
                },
                _ => res is None && final(self)@ == old(self)@,
            },
    {
        let mut taken = Selection::Empty;
        std::mem::swap(self, &mut taken);
        match taken {
            Selection::Scene(strokes) => Some(strokes),
            other => {
                *self = other;
                None
            },
        }
    }

    /// The selection after pasting strokes into the scene, given the key of
    /// each stroke added (`None` where a copy could not be added).
    pub fn paste_selection(added: &Vec<Option<u64>>) -> (res: Selection)
        ensures
            res@ == pasted_selection(added@),
    {
        let mut sel = Selection::Empty;
        let mut i: usize = 0;
        while i < added.len()
            invariant
                i <= added@.len(),
                sel@ == pasted_selection(added@.subrange(0, i as int)),
            decreases added@.len() - i,
        {
            proof {
                assert(added@.subrange(0, i + 1).drop_last() =~= added@.subrange(0, i as int));
            }
            if let Some(k) = added[i] {
                sel.select_stroke_inverting(k);
            }
            i += 1;
        }
        proof {
            assert(added@.subrange(0, added@.len() as int) =~= added@);
        }
        sel
    }
}

/// Pasting strokes whose new keys are all different selects exactly the
/// pasted strokes, in the order they were added (nothing, when none could
/// be added).
pub proof fn law_paste_selects_pasted(added: Seq<Option<u64>>)
    requires
        made_copies(added).no_duplicates(),
    ensures
        made_copies(added).len() == 0 ==> pasted_selection(added) == SelectionView::Empty,
        made_copies(added).len() > 0 ==> pasted_selection(added) == SelectionView::Scene(made_copies(added)),
    decreases added.len(),
{
    if added.len() > 0 {
        let rest = added.drop_last();
        let mr = made_copies(rest);
        match added.last() {
            Some(k) => {
                assert(made_copies(added) == mr.push(k));
                assert(mr.no_duplicates()) by {
                    assert forall|a: int, b: int| 0 <= a < b < mr.len() implies mr[a] != mr[b] by {
                        assert(made_copies(added)[a] == mr[a] && made_copies(added)[b] == mr[b]);
                    }
                }
                assert(!mr.contains(k)) by {
                    if mr.contains(k) {
                        let a = choose|a: int| 0 <= a < mr.len() && mr[a] == k;
                        assert(made_copies(added)[a] == made_copies(added)[mr.len() as int]);
                    }
                }
                law_paste_selects_pasted(rest);
                if mr.len() == 0 {
                    assert(mr.push(k) =~= seq![k]);
                }
            },
            None => {
                assert(made_copies(added) == mr);
                law_paste_selects_pasted(rest);
            },
        }
    }
}

proof fn lemma_toggled(s: Seq<u64>, x: u64)
    requires
        s.no_duplicates(),
    ensures
        toggled(s, x).no_duplicates(),
        toggled(s, x).contains(x) == !s.contains(x),
        forall|y: u64| y != x ==> (toggled(s, x).contains(y) == s.contains(y)),
{
    if s.contains(x) {
        s.index_of_first_ensures(x);
        let i = s.index_of_first(x)->0;
        let t = s.remove(i);
        assert(t.len() == s.len() - 1);
        assert forall|a: int| 0 <= a < t.len() implies t[a] == (if a < i { s[a] } else { s[a + 1] }) by {}
        assert forall|a: int, b: int| 0 <= a < t.len() && 0 <= b < t.len() && a != b implies t[a] != t[b] by {
            let sa = if a < i { a } else { a + 1 };
            let sb = if b < i { b } else { b + 1 };
            assert(t[a] == s[sa] && t[b] == s[sb]);
        }
        if t.contains(x) {
            let a = choose|a: int| 0 <= a < t.len() && t[a] == x;
            let sa = if a < i { a } else { a + 1 };
            assert(s[sa] == x && sa != i);
        }
        assert forall|y: u64| y != x implies (t.contains(y) == s.contains(y)) by {
            if s.contains(y) {
                let b = choose|b: int| 0 <= b < s.len() && s[b] == y;
                assert(b != i);
                let tb = if b < i { b } else { b - 1 };
                assert(t[tb] == y);
            }
            if t.contains(y) {
                let a = choose|a: int| 0 <= a < t.len() && t[a] == y;
                let sa = if a < i { a } else { a + 1 };
                assert(s[sa] == y);
            }
        }
    } else {
        let t = s.push(x);
        assert(t[s.len() as int] == x);
        assert forall|y: u64| y != x implies (t.contains(y) == s.contains(y)) by {
            if s.contains(y) {
                let b = choose|b: int| 0 <= b < s.len() && s[b] == y;
                assert(t[b] == y);
            }
        }
    }
}

proof fn lemma_with_added(s: Seq<u64>, x: u64)
    requires
        s.no_duplicates(),
    ensures
        with_added(s, x).no_duplicates(),
        with_added(s, x).contains(x),
        forall|y: u64| y != x ==> (with_added(s, x).contains(y) == s.contains(y)),
        with_added(with_added(s, x), x) == with_added(s, x),
{
    if !s.contains(x) {
        let t = s.push(x);
        assert(t[s.len() as int] == x);
        assert forall|y: u64| y != x implies (t.contains(y) == s.contains(y)) by {
            if s.contains(y) {
                let b = choose|b: int| 0 <= b < s.len() && s[b] == y;
                assert(t[b] == y);
            }
        }
    }
}

/// Selecting a sound in a timeline selection without repeated keys keeps
/// the selection a timeline one, keeps every selected frame exactly as it
/// was, selects the sound, and leaves every other sound as it was; the
/// sounds selected before stay first, in their order, and at most the one
/// sound is added. From any other selection it selects just that sound.
pub proof fn law_select_sound_keeps_frames(v: SelectionView, sound: u64)
    requires
        v.well_formed(),
    ensures
        v.select_sound(sound).is_timeline(),
        v.select_sound(sound).sound_selected(sound),
        v.is_timeline() ==> forall|f: u64| #[trigger] v.select_sound(sound).frame_selected(f) == v.frame_selected(f),
        v.is_timeline() ==> forall|o: u64| o != sound ==> #[trigger] v.select_sound(sound).sound_selected(o)
            == v.sound_selected(o),
        match (v, v.select_sound(sound)) {
            (SelectionView::Timeline(f, s), SelectionView::Timeline(f2, s2)) => {
                &&& f2 == f
                &&& s.is_prefix_of(s2)
                &&& s2.len() <= s.len() + 1
            },
            (_, SelectionView::Timeline(f2, s2)) => f2 == Seq::<u64>::empty() && s2 == seq![sound],
            _ => false,
        },
{
    match v {
        SelectionView::Timeline(frames, sounds) => {
            lemma_with_added(sounds, sound);
            assert(sounds.is_prefix_of(with_added(sounds, sound))) by {
                if !sounds.contains(sound) {
                    assert(sounds =~= sounds.push(sound).subrange(0, sounds.len() as int));
                }
            }
        },
        _ => {
            assert(seq![sound][0] == sound);
        },
    }
}

/// Selecting a frame in a timeline selection without repeated keys keeps
/// the selection a timeline one, keeps every selected sound exactly as it
/// was, selects the frame, and leaves every other frame as it was; the
/// frames selected before stay first, in their order, and at most the one
/// frame is added. From any other selection it selects just that frame.
pub proof fn law_select_frame_keeps_sounds(v: SelectionView, frame: u64)
    requires
        v.well_formed(),
    ensures
        v.select_frame(frame).is_timeline(),
        v.select_frame(frame).frame_selected(frame),
        v.is_timeline() ==> forall|s: u64| #[trigger] v.select_frame(frame).sound_selected(s) == v.sound_selected(s),
        v.is_timeline() ==> forall|o: u64| o != frame ==> #[trigger] v.select_frame(frame).frame_selected(o)
            == v.frame_selected(o),
        match (v, v.select_frame(frame)) {
            (SelectionView::Timeline(f, s), SelectionView::Timeline(f2, s2)) => {
                &&& s2 == s
                &&& f.is_prefix_of(f2)
                &&& f2.len() <= f.len() + 1
            },
            (_, SelectionView::Timeline(f2, s2)) => s2 == Seq::<u64>::empty() && f2 == seq![frame],
            _ => false,
        },
{
    match v {
        SelectionView::Timeline(frames, sounds) => {
            lemma_with_added(frames, frame);
            assert(frames.is_prefix_of(with_added(frames, frame))) by {
                if !frames.contains(frame) {
                    assert(frames =~= frames.push(frame).subrange(0, frames.len() as int));
                }
            }
        },
        _ => {
            assert(seq![frame][0] == frame);
        },
    }
}

/// Inverting a sound in a timeline selection flips whether that sound is
/// selected and leaves the selected frames and every other sound as they
/// were; outside a timeline selection it starts one holding just that sound.
pub proof fn law_sound_inverting_keeps_frames(v: SelectionView, sound: u64)
    requires
        v.well_formed(),
    ensures
        v.select_sound_inverting(sound).is_timeline(),
        v.select_sound_inverting(sound).well_formed(),
        v.select_sound_inverting(sound).sound_selected(sound) == !v.sound_selected(sound),
        v.is_timeline() ==> forall|f: u64| #[trigger] v.select_sound_inverting(sound).frame_selected(f)
            == v.frame_selected(f),
        v.is_timeline() ==> forall|o: u64| o != sound ==> #[trigger] v.select_sound_inverting(sound).sound_selected(o)
            == v.sound_selected(o),
        !v.is_timeline() ==> forall|f: u64| !#[trigger] v.select_sound_inverting(sound).frame_selected(f),
{
    match v {
        SelectionView::Timeline(frames, sounds) => lemma_toggled(sounds, sound),
        _ => {
            assert(seq![sound][0] == sound);
        },
    }
}

/// Inverting a frame in a timeline selection flips whether that frame is
/// selected and leaves the selected sounds and every other frame as they
/// were; outside a timeline selection it starts one holding just that frame.
pub proof fn law_frame_inverting_keeps_sounds(v: SelectionView, frame: u64)
    requires
        v.well_formed(),
    ensures
        v.select_frame_inverting(frame).is_timeline(),
        v.select_frame_inverting(frame).well_formed(),
        v.select_frame_inverting(frame).frame_selected(frame) == !v.frame_selected(frame),
        v.is_timeline() ==> forall|s: u64| #[trigger] v.select_frame_inverting(frame).sound_selected(s)
            == v.sound_selected(s),
        v.is_timeline() ==> forall|o: u64| o != frame ==> #[trigger] v.select_frame_inverting(frame).frame_selected(o)
            == v.frame_selected(o),
        !v.is_timeline() ==> forall|s: u64| !#[trigger] v.select_frame_inverting(frame).sound_selected(s),
{
    match v {
        SelectionView::Timeline(frames, sounds) => lemma_toggled(frames, frame),
        _ => {
            assert(seq![frame][0] == frame);
        },
    }
}

/// Inverting a stroke in a well-formed selection flips whether it is
/// selected, keeps every other stroke as it was (within a scene selection)
/// and keeps the selection free of repeated keys.
pub proof fn law_stroke_inverting_flips(v: SelectionView, stroke: u64)
    requires
        v.well_formed(),
    ensures
        v.select_stroke_inverting(stroke).well_formed(),
        v.select_stroke_inverting(stroke).stroke_selected(stroke) == !v.stroke_selected(stroke),
        v.is_scene() ==> forall|other: u64|
            other != stroke ==> v.select_stroke_inverting(stroke).stroke_selected(other)
                == v.stroke_selected(other),
{
    match v {
        SelectionView::Scene(strokes) => lemma_toggled(strokes, stroke),
        _ => {
            assert(seq![stroke][0] == stroke);
        },
    }
}

/// Inverting a frame in a well-formed selection flips whether it is
/// selected and leaves the other frames and every sound as they were
/// (within a timeline selection).
pub proof fn law_frame_inverting_flips(v: SelectionView, frame: u64)
    requires
        v.well_formed(),
    ensures
        v.select_frame_inverting(frame).well_formed(),
        v.select_frame_inverting(frame).frame_selected(frame) == !v.frame_selected(frame),
        v.is_timeline() ==> forall|other: u64|
            other != frame ==> v.select_frame_inverting(frame).frame_selected(other)
                == v.frame_selected(other),
        v.is_timeline() ==> forall|sound: u64|
            v.select_frame_inverting(frame).sound_selected(sound) == v.sound_selected(sound),
{
    match v {
        SelectionView::Timeline(frames, sounds) => lemma_toggled(frames, frame),
        _ => {
            assert(seq![frame][0] == frame);
        },
    }
}

/// Inverting a sound in a well-formed selection flips whether it is
/// selected and leaves the other sounds and every frame as they were
/// (within a timeline selection).
pub proof fn law_sound_inverting_flips(v: SelectionView, sound: u64)
    requires
        v.well_formed(),
    ensures
        v.select_sound_inverting(sound).well_formed(),
        v.select_sound_inverting(sound).sound_selected(sound) == !v.sound_selected(sound),
        v.is_timeline() ==> forall|other: u64|
            other != sound ==> v.select_sound_inverting(sound).sound_selected(other)
                == v.sound_selected(other),
        v.is_timeline() ==> forall|frame: u64|
            v.select_sound_inverting(sound).frame_selected(frame) == v.frame_selected(frame),
{
    match v {
        SelectionView::Timeline(frames, sounds) => lemma_toggled(sounds, sound),
        _ => {
            assert(seq![sound][0] == sound);
        },
    }
}

/// Selecting a frame leaves it selected, keeps the selection free of repeated
/// keys, and selecting it again changes nothing.
pub proof fn law_select_frame_idempotent(v: SelectionView, frame: u64)
    requires
        v.well_formed(),
    ensures
        v.select_frame(frame).well_formed(),
        v.select_frame(frame).frame_selected(frame),
        v.select_frame(frame).select_frame(frame) == v.select_frame(frame),
{
    match v {
        SelectionView::Timeline(frames, sounds) => lemma_with_added(frames, frame),
        _ => {
            assert(seq![frame][0] == frame);
            lemma_with_added(seq![frame], frame);
        },
    }
}

/// Selecting a sound leaves it selected, keeps the selection free of
/// repeated keys, and selecting it again changes nothing.
pub proof fn law_select_sound_idempotent(v: SelectionView, sound: u64)
    requires
        v.well_formed(),
    ensures
        v.select_sound(sound).well_formed(),
        v.select_sound(sound).sound_selected(sound),
        v.select_sound(sound).select_sound(sound) == v.select_sound(sound),
{
    match v {
        SelectionView::Timeline(frames, sounds) => lemma_with_added(sounds, sound),
        _ => {
            assert(seq![sound][0] == sound);
            lemma_with_added(seq![sound], sound);
        },
    }
}

/// In a scene selection that does not hold a stroke, inverting that stroke
/// twice gives back the same selection.
pub proof fn law_stroke_inverting_twice(v: SelectionView, stroke: u64)
    requires
        v.is_scene(),
        !v.stroke_selected(stroke),
    ensures
        v.select_stroke_inverting(stroke).select_stroke_inverting(stroke) == v,
{
    let strokes = v->Scene_0;
    let t = strokes.push(stroke);
    assert(t[strokes.len() as int] == stroke);
    t.index_of_first_ensures(stroke);
    let i = t.index_of_first(stroke)->0;
    assert(i == strokes.len()) by {
        if i < strokes.len() {
            assert(strokes[i] == stroke);
        }
    }
    assert(t.remove(i) =~= strokes);
}

} // verus!
