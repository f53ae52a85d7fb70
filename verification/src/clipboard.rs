use vstd::prelude::*;

use crate::selection::{Selection, SelectionView};

verus! {

/// What was last copied: the keys of the copies made of the copied strokes,
/// or of the copied frames and sound instances.
#[derive(Debug, Clone, PartialEq, Eq)]
pub enum Clipboard {
    Empty,
    Scene(Vec<u64>),
    Timeline(Vec<u64>, Vec<u64>),
}

/// Mathematical model of the clipboard.
pub enum ClipboardView {
    Empty,
    Scene(Seq<u64>),
    Timeline(Seq<u64>, Seq<u64>),
}

impl View for Clipboard {
    type V = ClipboardView;

    open spec fn view(&self) -> ClipboardView {
        match self {
            Clipboard::Empty => ClipboardView::Empty,
            Clipboard::Scene(strokes) => ClipboardView::Scene(strokes@),
            Clipboard::Timeline(frames, sounds) => ClipboardView::Timeline(frames@, sounds@),
        }
    }
}

/// For each selected object, in selection order, the key of the copy that
/// was made of it, or `None` where no copy could be made.
pub struct SelectionCopies {
    pub strokes: Vec<Option<u64>>,
    pub frames: Vec<Option<u64>>,
    pub sounds: Vec<Option<u64>>,
}

/// The keys of the copies that were made, in order.
pub open spec fn made_copies(copies: Seq<Option<u64>>) -> Seq<u64>
    decreases copies.len(),
{
    if copies.len() == 0 {
        Seq::empty()
    } else {
        let rest = made_copies(copies.drop_last());
        match copies.last() {
            Some(k) => rest.push(k),
            None => rest,
        }
    }
}

/// There is one copy outcome per selected object of each kind.
pub open spec fn copies_match(selection: SelectionView, copies: SelectionCopies) -> bool {
    match selection {
        SelectionView::Empty => true,
        SelectionView::Scene(strokes) => copies.strokes@.len() == strokes.len(),
        SelectionView::Timeline(frames, sounds) => copies.frames@.len() == frames.len()
            && copies.sounds@.len() == sounds.len(),
    }
}

/// The clipboard that copying `selection` gives, from the copies made.
pub open spec fn clipboard_of(selection: SelectionView, copies: SelectionCopies) -> ClipboardView {
    match selection {
        SelectionView::Empty => ClipboardView::Empty,
        SelectionView::Scene(_) => ClipboardView::Scene(made_copies(copies.strokes@)),
        SelectionView::Timeline(_, _) => ClipboardView::Timeline(
            made_copies(copies.frames@),
            made_copies(copies.sounds@),
        ),
    }
}

/// The copies that could be made, in the order of the selection.
fn make_clipboard_copy(copies: &Vec<Option<u64>>) -> (res: Vec<u64>)
    ensures
        res@ == made_copies(copies@),
{
    let mut res: Vec<u64> = Vec::new();
    let mut i: usize = 0;
    while i < copies.len()
        invariant
            i <= copies@.len(),
            res@ == made_copies(copies@.subrange(0, i as int)),
        decreases copies@.len() - i,
    {
        proof {
            assert(copies@.subrange(0, i + 1).drop_last() =~= copies@.subrange(0, i as int));
        }
        if let Some(k) = copies[i] {
            res.push(k);
        }
        i += 1;
    }
    proof {
        assert(copies@.subrange(0, copies@.len() as int) =~= copies@);
    }
    res
}

impl Clipboard {
    /// The clipboard after copying `selection`: it holds the copies that
    /// could be made of the selected objects, of the same kind as the selection.
    pub fn from_selection(selection: &Selection, copies: &SelectionCopies) -> (res: Clipboard)
        requires
            copies_match(selection@, *copies),
        ensures
            res@ == clipboard_of(selection@, *copies),
    {
        match selection {
            Selection::Empty => Clipboard::Empty,
            Selection::Scene(_) => Clipboard::Scene(make_clipboard_copy(&copies.strokes)),
            Selection::Timeline(_, _) => Clipboard::Timeline(
                make_clipboard_copy(&copies.frames),
                make_clipboard_copy(&copies.sounds),
            ),
        }
    }
}

/// When a copy could be made of every selected object, the clipboard holds
/// one copy per selected object, in selection order.
pub proof fn law_every_copy_kept(copies: Seq<Option<u64>>)
    requires
        forall|i: int| 0 <= i < copies.len() ==> (#[trigger] copies[i]) is Some,
    ensures
        made_copies(copies).len() == copies.len(),
        forall|i: int| 0 <= i < copies.len() ==> made_copies(copies)[i] == (#[trigger] copies[i])->0,
    decreases copies.len(),
{
    if copies.len() > 0 {
        let rest = copies.drop_last();
        assert forall|i: int| 0 <= i < rest.len() implies (#[trigger] rest[i]) is Some by {
            assert(rest[i] == copies[i]);
        }
        law_every_copy_kept(rest);
        assert forall|i: int| 0 <= i < copies.len() implies made_copies(copies)[i] == (#[trigger] copies[i])->0 by {
            if i < rest.len() {
                assert(rest[i] == copies[i]);
            }
        }
    }
}

/// Copying never makes more copies than there are selected objects.
pub proof fn law_copies_at_most_selected(copies: Seq<Option<u64>>)
    ensures
        made_copies(copies).len() <= copies.len(),
    decreases copies.len(),
{
    if copies.len() > 0 {
        law_copies_at_most_selected(copies.drop_last());
    }
}

} // verus!
