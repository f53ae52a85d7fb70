use vstd::prelude::*;

use crate::text::{chars_of, compare_chars, lex_order, lowercase_of, stable_sort_indices, stably_sorted, to_lowercase};

verus! {

/// An asset of the project, named by the key of the object that holds it.
#[derive(Debug, Clone, Copy, PartialEq, Eq, Structural)]
pub enum AssetPtr {
    Folder(u64),
    Graphic(u64),
    Palette(u64),
    Audio(u64),
}

/// The asset browser panel: which asset, if any, is being renamed, with the
/// name typed so far.
pub struct AssetsPanel {
    pub editing_name: Option<(AssetPtr, String)>,
}

/// The indices `0, 1, .., n - 1` in order.
pub open spec fn index_range(n: nat) -> Seq<usize> {
    Seq::new(n, |i: int| i as usize)
}

/// The sort keys of asset names: their lowercase forms.
pub open spec fn lowercase_keys(names: Seq<String>) -> Seq<Seq<char>> {
    names.map_values(|s: String| lowercase_of(s@))
}

/// The sort keys of file names; a file that could not be found has an empty key.
pub open spec fn file_keys(names: Seq<Option<String>>) -> Seq<Seq<char>> {
    names.map_values(
        |s: Option<String>|
            match s {
                Some(n) => lowercase_of(n@),
                None => Seq::<char>::empty(),
            },
    )
}

/// File `x` sorts strictly before file `y` by the comparison the panel
/// sorts with: both were found and `x`'s lowercase name comes first. A file
/// that could not be found compares equal to every file.
pub open spec fn file_less(names: Seq<Option<String>>, x: usize, y: usize) -> bool {
    &&& names[x as int] is Some
    &&& names[y as int] is Some
    &&& lex_order(file_keys(names)[x as int], file_keys(names)[y as int]) < 0
}

/// `s` with `x` put in as the last step of an insertion sort does it: `x`
/// moves in front of each element at the end of `s` that it sorts strictly
/// before, and stops at the first that it does not.
pub open spec fn insert_from_right(names: Seq<Option<String>>, s: Seq<usize>, x: usize) -> Seq<usize>
    decreases s.len(),
{
    if s.len() == 0 || !file_less(names, x, s.last()) {
        s.push(x)
    } else {
        insert_from_right(names, s.drop_last(), x).push(s.last())
    }
}

/// The positions `0..n` as an insertion sort by `file_less` orders them,
/// taking each in turn and moving it in from the end.
pub open spec fn file_insertion_order(names: Seq<Option<String>>, n: int) -> Seq<usize>
    decreases n,
{
    if n <= 0 {
        Seq::empty()
    } else {
        insert_from_right(names, file_insertion_order(names, n - 1), (n - 1) as usize)
    }
}

/// Moving `x` in from the end stops at position `j` when it sorts strictly
/// before every element from `j` on and not before the one at `j - 1`.
proof fn lemma_insert_from_right(names: Seq<Option<String>>, s: Seq<usize>, x: usize, j: int)
    requires
        0 <= j <= s.len(),
        forall|t: int| j <= t < s.len() ==> file_less(names, x, #[trigger] s[t]),
        j == 0 || !file_less(names, x, s[j - 1]),
    ensures
        insert_from_right(names, s, x) == s.insert(j, x),
    decreases s.len(),
{
    if j == s.len() {
        assert(s.insert(j, x) =~= s.push(x));
    } else {
        let d = s.drop_last();
        assert(file_less(names, x, s[s.len() - 1]));
        lemma_insert_from_right(names, d, x, j);
        assert(s.insert(j, x) =~= d.insert(j, x).push(s.last()));
    }
}

/// Computes `file_less`, given the lowercase name of each file.
fn file_less_exec(names: &Vec<Option<String>>, keys: &Vec<Vec<char>>, x: usize, y: usize) -> (res: bool)
    requires
        x < names@.len(),
        y < names@.len(),
        keys@.len() == names@.len(),
        forall|k: int| 0 <= k < names@.len() ==> #[trigger] keys@[k]@ == file_keys(names@)[k],
    ensures
        res == file_less(names@, x, y),
{
    names[x].is_some() && names[y].is_some() && compare_chars(&keys[x], &keys[y]) < 0
}

fn lowercase_chars(s: &String) -> (res: Vec<char>)
    ensures
        res@ == lowercase_of(s@),
{
    let lower = to_lowercase(s.as_str());
    chars_of(lower.as_str())
}

impl AssetsPanel {
    pub fn new() -> (res: Self)
        ensures
            res.editing_name is None,
    {
        AssetsPanel { editing_name: None }
    }

    /// Starts renaming `asset`, with its current `name` as the text to edit.
    pub fn begin_rename(&mut self, asset: AssetPtr, name: String)
        ensures
            final(self).editing_name == Some((asset, name)),
    {
        self.editing_name = Some((asset, name));
    }

    /// The name being typed lost focus: renaming ends, and gives the asset
    /// and its new name, unless the name is empty.
    pub fn commit_rename(&mut self) -> (res: Option<(AssetPtr, String)>)
        requires
            old(self).editing_name is Some,
        ensures
            final(self).editing_name is None,
            ({
                let (asset, name) = old(self).editing_name->0;
                if name@.len() == 0 {
                    res is None
                } else {
                    res matches Some((a, n)) && a == asset && n@ == name@
                }
            }),
    {
        let (asset, name) = self.editing_name.take().unwrap();
        if name.as_str().is_empty() {
            None
        } else {
            Some((asset, name))
        }
    }

    /// The order in which to list assets with the given names: by lowercase
    /// name, assets with the same lowercase name in their given order.
    pub fn sort_asset_list(names: &Vec<String>) -> (order: Vec<usize>)
        ensures
            stably_sorted(lowercase_keys(names@), index_range(names@.len()), order@),
    {
        let mut keys: Vec<Vec<char>> = Vec::new();
        let mut from: Vec<usize> = Vec::new();
        let mut i: usize = 0;
        while i < names.len()
            invariant
                i <= names@.len(),
                keys@.len() == i,
                from@ == index_range(i as nat),
                forall|k: int| 0 <= k < i ==> #[trigger] keys@[k]@ == lowercase_of(names@[k]@),
            decreases names@.len() - i,
        {
            keys.push(lowercase_chars(&names[i]));
            from.push(i);
            proof {
                assert(from@ =~= index_range((i + 1) as nat));
            }
            i += 1;
        }
        proof {
            assert(keys@.map_values(|k: Vec<char>| k@) =~= lowercase_keys(names@));
        }
        stable_sort_indices(&keys, &from)
    }

    /// The order in which to list audio files: sorted by lowercase name with
    /// the comparison of `file_less`, which ranks a file that could not be
    /// found (`None`) equal to every file, by an insertion sort that keeps
    /// equal files in their given order. For a comparison that is not a total
    /// order std's stable sort leaves the order unspecified; this is the
    /// order it gives on short lists, which it sorts by insertion.
    pub fn sort_file_asset_list(names: &Vec<Option<String>>) -> (order: Vec<usize>)
        ensures
            order@ == file_insertion_order(names@, names@.len() as int),
    {
        let mut keys: Vec<Vec<char>> = Vec::new();
        let mut i: usize = 0;
        while i < names.len()
            invariant
                i <= names@.len(),
                keys@.len() == i,
                forall|k: int| 0 <= k < i ==> #[trigger] keys@[k]@ == file_keys(names@)[k],
            decreases names@.len() - i,
        {
            match &names[i] {
                Some(name) => {
                    keys.push(lowercase_chars(name));
                },
                None => {
                    keys.push(Vec::new());
                },
            }
            i += 1;
        }
        let mut order: Vec<usize> = Vec::new();
        let mut i: usize = 0;
        while i < names.len()
            invariant
                i <= names@.len(),
                keys@.len() == names@.len(),
                forall|k: int| 0 <= k < names@.len() ==> #[trigger] keys@[k]@ == file_keys(names@)[k],
                order@ == file_insertion_order(names@, i as int),
                order@.len() == i,
                forall|t: int| 0 <= t < order@.len() ==> #[trigger] order@[t] < i,
            decreases names@.len() - i,
        {
            let mut j: usize = order.len();
            while j > 0 && file_less_exec(names, &keys, i, order[j - 1])
                invariant
                    i < names@.len(),
                    j <= order@.len(),
                    keys@.len() == names@.len(),
                    forall|k: int| 0 <= k < names@.len() ==> #[trigger] keys@[k]@ == file_keys(names@)[k],
                    forall|t: int| 0 <= t < order@.len() ==> #[trigger] order@[t] < i,
                    forall|t: int| j <= t < order@.len() ==> file_less(names@, i as usize, #[trigger] order@[t]),
                decreases j,
            {
                j -= 1;
            }
            proof {
                lemma_insert_from_right(names@, order@, i as usize, j as int);
            }
            let ghost prev = order@;
            order.insert(j, i);
            proof {
                assert forall|t: int| 0 <= t < order@.len() implies #[trigger] order@[t] < i + 1 by {
                    if t < j {
                        assert(order@[t] == prev[t]);
                    } else if t > j {
                        assert(order@[t] == prev[t - 1]);
                    }
                }
            }
            i += 1;
        }
        order
    }
}

} // verus!
