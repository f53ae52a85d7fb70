use vstd::prelude::*;

verus! {

/// One open dialog: the type of dialog it is, the id its window is shown
/// under, and whether at most one dialog of its type may be open at once.
#[derive(Debug, Clone, Copy, PartialEq, Eq, Structural)]
pub struct DialogEntry {
    pub type_id: u64,
    pub id: u64,
    pub unique: bool,
}

/// The dialogs that are open, in the order they were opened, and the id the
/// next one will get.
pub struct DialogManager {
    dialogs: Vec<DialogEntry>,
    id_counter: u64,
}

/// Dialogs asked for while a frame is drawn, to be opened afterwards: for
/// each, its type and whether it is unique.
pub struct DialogsToOpen {
    dialogs: Vec<(u64, bool)>,
}

/// A dialog of type `type_id` is already open.
pub open spec fn type_open(list: Seq<DialogEntry>, type_id: u64) -> bool {
    exists|i: int| 0 <= i < list.len() && (#[trigger] list[i]).type_id == type_id
}

/// What opening one dialog does: a unique dialog whose type is already open
/// is not opened; any other is appended with the next id.
pub open spec fn open_step(list: Seq<DialogEntry>, next: u64, type_id: u64, unique: bool) -> (Seq<DialogEntry>, u64) {
    if unique && type_open(list, type_id) {
        (list, next)
    } else {
        (list.push(DialogEntry { type_id, id: next, unique }), (next + 1) as u64)
    }
}

/// Opening the dialogs `items` one after the other.
pub open spec fn open_all(list: Seq<DialogEntry>, next: u64, items: Seq<(u64, bool)>) -> (Seq<DialogEntry>, u64)
    decreases items.len(),
{
    if items.len() == 0 {
        (list, next)
    } else {
        let prev = open_all(list, next, items.drop_last());
        open_step(prev.0, prev.1, items.last().0, items.last().1)
    }
}

/// The id each of `items` gets when they are opened one after the other,
/// or `None` for a unique dialog whose type was already open.
pub open spec fn open_ids(list: Seq<DialogEntry>, next: u64, items: Seq<(u64, bool)>) -> Seq<Option<u64>>
    decreases items.len(),
{
    if items.len() == 0 {
        Seq::empty()
    } else {
        let prev = open_all(list, next, items.drop_last());
        let id = if items.last().1 && type_open(prev.0, items.last().0) {
            None
        } else {
            Some(prev.1)
        };
        open_ids(list, next, items.drop_last()).push(id)
    }
}

/// The dialogs of `list` from position `i` on whose `close` flag is not set.
pub open spec fn kept_from(list: Seq<DialogEntry>, close: Seq<bool>, i: int) -> Seq<DialogEntry>
    decreases list.len() - i,
{
    if i >= list.len() {
        Seq::empty()
    } else if close[i] {
        kept_from(list, close, i + 1)
    } else {
        seq![list[i]] + kept_from(list, close, i + 1)
    }
}

/// Ids grow in opening order and stay below the next id, and no unique
/// dialog follows another dialog of its own type.
pub open spec fn dialogs_well_formed(list: Seq<DialogEntry>, next: u64) -> bool {
    &&& forall|i: int, j: int| 0 <= i < j < list.len() ==> (#[trigger] list[i]).id < (#[trigger] list[j]).id
    &&& forall|i: int| 0 <= i < list.len() ==> (#[trigger] list[i]).id < next
    &&& forall|i: int, j: int|
        0 <= i < j < list.len() && (#[trigger] list[i]).type_id == (#[trigger] list[j]).type_id
            ==> !list[j].unique
}

impl DialogsToOpen {
    pub fn new() -> (res: Self)
        ensures
            res.items() == Seq::<(u64, bool)>::empty(),
    {
        DialogsToOpen { dialogs: Vec::new() }
    }

    pub closed spec fn items(&self) -> Seq<(u64, bool)> {
        self.dialogs@
    }

    /// Asks for a dialog of type `type_id` to be opened.
    pub fn open_dialog(&mut self, type_id: u64, unique: bool)
        ensures
            final(self).items() == old(self).items().push((type_id, unique)),
    {
        self.dialogs.push((type_id, unique));
    }

    pub fn len(&self) -> (n: usize)
        ensures
            n == self.items().len(),
    {
        self.dialogs.len()
    }
}

impl DialogManager {
    /// The open dialogs, in opening order.
    pub closed spec fn listed(&self) -> Seq<DialogEntry> {
        self.dialogs@
    }

    /// The open dialogs are always well formed under the next id.
    #[verifier::type_invariant]
    spec fn registry_ok(self) -> bool {
        dialogs_well_formed(self.dialogs@, self.id_counter)
    }

    /// The id the next dialog opened will get.
    pub closed spec fn next_id(&self) -> u64 {
        self.id_counter
    }

    pub fn new() -> (res: Self)
        ensures
            res.listed() == Seq::<DialogEntry>::empty(),
            res.next_id() == 0,
            dialogs_well_formed(res.listed(), res.next_id()),
    {
        DialogManager { dialogs: Vec::new(), id_counter: 0 }
    }

    /// How many dialogs are open; the open dialogs are well formed.
    pub fn len(&self) -> (n: usize)
        ensures
            n == self.listed().len(),
            dialogs_well_formed(self.listed(), self.next_id()),
    {
        proof {
            use_type_invariant(self);
        }
        self.dialogs.len()
    }

    pub fn entry(&self, i: usize) -> (e: DialogEntry)
        requires
            i < self.listed().len(),
        ensures
            e == self.listed()[i as int],
    {
        self.dialogs[i]
    }

    /// Opens a dialog of type `type_id`, unless it is unique and a dialog of
    /// its type is already open. Gives the id of the opened dialog.
    pub fn open_dialog(&mut self, type_id: u64, unique: bool) -> (res: Option<u64>)
        requires
            old(self).next_id() < u64::MAX,
        ensures
            (final(self).listed(), final(self).next_id()) == open_step(
                old(self).listed(),
                old(self).next_id(),
                type_id,
                unique,
            ),
            res == (if unique && type_open(old(self).listed(), type_id) {
                None
            } else {
                Some(old(self).next_id())
            }),
            dialogs_well_formed(final(self).listed(), final(self).next_id()),
    {
        proof {
            use_type_invariant(&*self);
        }
        if unique {
            let mut i: usize = 0;
            while i < self.dialogs.len()
                invariant
                    unique,
                    dialogs_well_formed(old(self).listed(), old(self).next_id()),
                    self.dialogs@ == old(self).dialogs@,
                    self.id_counter == old(self).id_counter,
                    i <= self.dialogs@.len(),
                    forall|k: int| 0 <= k < i ==> self.dialogs@[k].type_id != type_id,
                decreases self.dialogs@.len() - i,
            {
                if self.dialogs[i].type_id == type_id {
                    proof {
                        assert(type_open(self.dialogs@, type_id));
                    }
                    return None;
                }
                i += 1;
            }
            proof {
                assert(!type_open(self.dialogs@, type_id));
            }
        }
        let id = self.id_counter;
        let mut dialogs: Vec<DialogEntry> = Vec::new();
        std::mem::swap(&mut dialogs, &mut self.dialogs);
        dialogs.push(DialogEntry { type_id, id, unique });
        proof {
            law_open_dialog_keeps_registry(old(self).dialogs@, id, type_id, unique);
        }
        *self = DialogManager { dialogs, id_counter: id + 1 };
        Some(id)
    }

    /// Opens the dialogs asked for, in order; gives the id of each, or
    /// `None` where a unique dialog of that type was already open.
    pub fn open_dialogs(&mut self, to_open: &DialogsToOpen) -> (ids: Vec<Option<u64>>)
        requires
            old(self).next_id() + to_open.items().len() <= u64::MAX,
        ensures
            (final(self).listed(), final(self).next_id()) == open_all(
                old(self).listed(),
                old(self).next_id(),
                to_open.items(),
            ),
            ids@ == open_ids(old(self).listed(), old(self).next_id(), to_open.items()),
            dialogs_well_formed(final(self).listed(), final(self).next_id()),
    {
        proof {
            use_type_invariant(&*self);
        }
        let mut ids: Vec<Option<u64>> = Vec::new();
        let mut i: usize = 0;
        let n = to_open.dialogs.len();
        while i < n
            invariant
                n == to_open.items().len(),
                i <= n,
                ids@ == open_ids(old(self).listed(), old(self).next_id(), to_open.items().subrange(0, i as int)),
                self.next_id() <= old(self).next_id() + i,
                old(self).next_id() + to_open.items().len() <= u64::MAX,
                dialogs_well_formed(self.listed(), self.next_id()),
                (self.listed(), self.next_id()) == open_all(
                    old(self).listed(),
                    old(self).next_id(),
                    to_open.items().subrange(0, i as int),
                ),
            decreases n - i,
        {
            let (type_id, unique) = to_open.dialogs[i];
            proof {
                assert(to_open.items().subrange(0, i + 1).drop_last() =~= to_open.items().subrange(0, i as int));
            }
            let id = self.open_dialog(type_id, unique);
            ids.push(id);
            i += 1;
        }
        proof {
            assert(to_open.items().subrange(0, n as int) =~= to_open.items());
        }
        ids
    }

    /// Closes the dialogs whose `close` flag is set (one flag per open
    /// dialog), removing them from the last to the first.
    pub fn close_dialogs(&mut self, close: &Vec<bool>)
        requires
            close@.len() == old(self).listed().len(),
        ensures
            final(self).listed() == kept_from(old(self).listed(), close@, 0),
            final(self).next_id() == old(self).next_id(),
            dialogs_well_formed(final(self).listed(), final(self).next_id()),
            forall|i: int| 0 <= i < old(self).listed().len() ==>
                (final(self).listed().contains(#[trigger] old(self).listed()[i]) <==> !close@[i]),
    {
        proof {
            use_type_invariant(&*self);
        }
        let ghost all = self.dialogs@;
        let counter = self.id_counter;
        let mut dialogs: Vec<DialogEntry> = Vec::new();
        std::mem::swap(&mut dialogs, &mut self.dialogs);
        let mut i = dialogs.len();
        proof {
            assert(all.subrange(0, i as int) =~= all);
            assert(all.subrange(0, i as int) + kept_from(all, close@, i as int) =~= all);
        }
        while i > 0
            invariant
                i <= all.len(),
                close@.len() == all.len(),
                dialogs@ == all.subrange(0, i as int) + kept_from(all, close@, i as int),
            decreases i,
        {
            i -= 1;
            if close[i] {
                dialogs.remove(i);
                proof {
                    assert(dialogs@ =~= all.subrange(0, i as int) + kept_from(all, close@, i as int));
                }
            } else {
                proof {
                    assert(dialogs@ =~= all.subrange(0, i as int) + kept_from(all, close@, i as int));
                }
            }
        }
        proof {
            assert(all.subrange(0, 0) =~= Seq::<DialogEntry>::empty());
            assert(dialogs@ =~= kept_from(all, close@, 0));
            lemma_kept_well_formed(all, close@, old(self).id_counter, 0);
            law_close_keeps_exactly_unflagged(all, close@, old(self).id_counter);
        }
        *self = DialogManager { dialogs, id_counter: counter };
    }
}

proof fn lemma_kept_well_formed(list: Seq<DialogEntry>, close: Seq<bool>, next: u64, i: int)
    requires
        close.len() == list.len(),
        0 <= i <= list.len(),
        dialogs_well_formed(list, next),
    ensures
        dialogs_well_formed(kept_from(list, close, i), next),
        forall|a: int|
            0 <= a < kept_from(list, close, i).len() ==> exists|b: int|
                i <= b < list.len() && list[b] == #[trigger] kept_from(list, close, i)[a],
    decreases list.len() - i,
{
    if i < list.len() {
        lemma_kept_well_formed(list, close, next, i + 1);
        let rest = kept_from(list, close, i + 1);
        let k = kept_from(list, close, i);
        if !close[i] {
            assert(k =~= seq![list[i]] + rest);
            assert forall|a: int| 0 <= a < k.len() implies exists|b: int|
                i <= b < list.len() && list[b] == #[trigger] k[a] by {
                if a == 0 {
                    assert(list[i] == k[0]);
                } else {
                    assert(k[a] == rest[a - 1]);
                    let b = choose|b: int| i + 1 <= b < list.len() && list[b] == rest[a - 1];
                    assert(list[b] == k[a]);
                }
            }
            assert forall|a: int, c: int| 0 <= a < c < k.len() implies (#[trigger] k[a]).id < (#[trigger] k[c]).id
                && (k[a].type_id == k[c].type_id ==> !k[c].unique) by {
                assert(k[c] == rest[c - 1]);
                if a == 0 {
                    let d = choose|d: int| i + 1 <= d < list.len() && list[d] == rest[c - 1];
                    assert(list[i].id < list[d].id);
                } else {
                    assert(k[a] == rest[a - 1]);
                }
            }
            assert forall|a: int| 0 <= a < k.len() implies (#[trigger] k[a]).id < next by {
                if a > 0 {
                    assert(k[a] == rest[a - 1]);
                }
            }
        } else {
            assert(k == rest);
        }
    }
}

proof fn lemma_kept_exactly_unflagged(list: Seq<DialogEntry>, close: Seq<bool>, next: u64, s: int)
    requires
        close.len() == list.len(),
        0 <= s <= list.len(),
        dialogs_well_formed(list, next),
    ensures
        forall|j: int| s <= j < list.len() ==> (kept_from(list, close, s).contains(#[trigger] list[j]) <==> !close[j]),
        forall|a: int|
            0 <= a < kept_from(list, close, s).len() ==> exists|b: int|
                s <= b < list.len() && !close[b] && list[b] == #[trigger] kept_from(list, close, s)[a],
    decreases list.len() - s,
{
    if s < list.len() {
        lemma_kept_exactly_unflagged(list, close, next, s + 1);
        let rest = kept_from(list, close, s + 1);
        let k = kept_from(list, close, s);
        assert(!rest.contains(list[s])) by {
            if rest.contains(list[s]) {
                let a = choose|a: int| 0 <= a < rest.len() && rest[a] == list[s];
                let b = choose|b: int| s + 1 <= b < list.len() && !close[b] && list[b] == rest[a];
                assert(list[s].id < list[b].id);
            }
        }
        if !close[s] {
            assert(k =~= seq![list[s]] + rest);
            assert(k[0] == list[s]);
            assert forall|j: int| s <= j < list.len() implies (k.contains(#[trigger] list[j]) <==> !close[j]) by {
                if j > s {
                    if rest.contains(list[j]) {
                        let a = choose|a: int| 0 <= a < rest.len() && rest[a] == list[j];
                        assert(k[a + 1] == list[j]);
                    }
                    if k.contains(list[j]) {
                        let a = choose|a: int| 0 <= a < k.len() && k[a] == list[j];
                        assert(list[s].id < list[j].id);
                        assert(a != 0);
                        assert(rest[a - 1] == list[j]);
                    }
                }
            }
            assert forall|a: int| 0 <= a < k.len() implies exists|b: int|
                s <= b < list.len() && !close[b] && list[b] == #[trigger] k[a] by {
                if a == 0 {
                    assert(list[s] == k[0]);
                } else {
                    assert(k[a] == rest[a - 1]);
                    let b = choose|b: int| s + 1 <= b < list.len() && !close[b] && list[b] == rest[a - 1];
                    assert(list[b] == k[a]);
                }
            }
        } else {
            assert(k == rest);
        }
    }
}

/// Closing dialogs keeps a dialog exactly when its flag is not set: for each
/// position `i` of the registry, the dialog there is still open afterwards if
/// and only if `close[i]` is false, every dialog still open was open before
/// with its flag unset, and the ones kept stay in their opening order.
pub proof fn law_close_keeps_exactly_unflagged(list: Seq<DialogEntry>, close: Seq<bool>, next: u64)
    requires
        dialogs_well_formed(list, next),
        close.len() == list.len(),
    ensures
        forall|i: int| 0 <= i < list.len() ==> (kept_from(list, close, 0).contains(#[trigger] list[i]) <==> !close[i]),
        forall|a: int|
            0 <= a < kept_from(list, close, 0).len() ==> exists|b: int|
                0 <= b < list.len() && !close[b] && list[b] == #[trigger] kept_from(list, close, 0)[a],
        forall|a: int, c: int|
            0 <= a < c < kept_from(list, close, 0).len() ==> (#[trigger] kept_from(list, close, 0)[a]).id
                < (#[trigger] kept_from(list, close, 0)[c]).id,
{
    lemma_kept_exactly_unflagged(list, close, next, 0);
    lemma_kept_well_formed(list, close, next, 0);
}

/// Opening a dialog keeps the registry well formed: a unique dialog whose
/// type is already open is dropped and nothing changes; any other is put
/// last under the next id and the next id goes up by one; the dialogs open
/// before keep their places and ids. (The counter must have room: past
/// `u64::MAX` the counter's `+= 1` overflows.)
pub proof fn law_open_dialog_keeps_registry(list: Seq<DialogEntry>, next: u64, type_id: u64, unique: bool)
    requires
        dialogs_well_formed(list, next),
        next < u64::MAX,
    ensures
        dialogs_well_formed(open_step(list, next, type_id, unique).0, open_step(list, next, type_id, unique).1),
        unique && type_open(list, type_id) ==> open_step(list, next, type_id, unique) == (list, next),
        !(unique && type_open(list, type_id)) ==> {
            &&& open_step(list, next, type_id, unique).0 == list.push(DialogEntry { type_id, id: next, unique })
            &&& open_step(list, next, type_id, unique).1 == next + 1
        },
        forall|i: int| 0 <= i < list.len() ==> #[trigger] open_step(list, next, type_id, unique).0[i] == list[i],
{
    if !(unique && type_open(list, type_id)) {
        let l = list.push(DialogEntry { type_id, id: next, unique });
        assert forall|i: int, j: int|
            0 <= i < j < l.len() && (#[trigger] l[i]).type_id == (#[trigger] l[j]).type_id implies !l[j].unique by {
            if j == l.len() - 1 && unique {
                assert(list[i] == l[i]);
                assert(type_open(list, type_id));
            }
        }
    }
}

/// In a well-formed dialog list, every open dialog has its own id, and two
/// dialogs of the same type are never both unique: a dialog type that is
/// always opened as unique is open at most once.
pub proof fn law_unique_dialogs_open_once(list: Seq<DialogEntry>, next: u64)
    requires
        dialogs_well_formed(list, next),
    ensures
        forall|i: int, j: int| 0 <= i < list.len() && 0 <= j < list.len() && i != j ==> (#[trigger] list[i]).id != (#[trigger] list[j]).id,
        forall|i: int, j: int|
            0 <= i < list.len() && 0 <= j < list.len() && i != j && (#[trigger] list[i]).type_id == (#[trigger] list[j]).type_id
                ==> !(list[i].unique && list[j].unique),
{
    assert forall|i: int, j: int| 0 <= i < list.len() && 0 <= j < list.len() && i != j implies (#[trigger] list[i]).id != (#[trigger] list[j]).id by {
        if i < j {
            assert(list[i].id < list[j].id);
        } else {
            assert(list[j].id < list[i].id);
        }
    }
    assert forall|i: int, j: int|
        0 <= i < list.len() && 0 <= j < list.len() && i != j && (#[trigger] list[i]).type_id == (#[trigger] list[j]).type_id
            implies !(list[i].unique && list[j].unique) by {
        if i < j {
            assert(!list[j].unique);
        } else {
            assert(!list[i].unique);
        }
    }
}

} // verus!
