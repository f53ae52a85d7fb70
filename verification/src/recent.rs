use vstd::prelude::*;

verus! {

/// The text of each path in a list.
pub open spec fn path_texts(list: Seq<String>) -> Seq<Seq<char>> {
    list.map_values(|p: String| p@)
}

/// The recent project list after opening `project`: the project first, then
/// the earlier list without its first entry equal to `project`.
pub open spec fn pushed_recent(list: Seq<Seq<char>>, project: Seq<char>) -> Seq<Seq<char>> {
    seq![project] + list.remove_value(project)
}

/// Records that `project` was opened: moves it to the front of the recent
/// project list, or puts it there if it was not listed.
pub fn push_recent_project(recents: &mut Vec<String>, project: String)
    ensures
        path_texts(final(recents)@) == pushed_recent(path_texts(old(recents)@), project@),
{
    let ghost texts = path_texts(recents@);
    let mut i: usize = 0;
    let mut found: Option<usize> = None;
    while i < recents.len()
        invariant
            i <= recents@.len(),
            texts == path_texts(recents@),
            recents@ == old(recents)@,
            found is None ==> forall|k: int| 0 <= k < i ==> recents@[k]@ != project@,
            match found {
                Some(f) => f < recents@.len() && recents@[f as int]@ == project@ && forall|k: int|
                    0 <= k < f ==> recents@[k]@ != project@,
                None => true,
            },
        decreases recents@.len() - i,
    {
        if found.is_none() && recents[i] == project {
            found = Some(i);
        }
        i += 1;
    }
    proof {
        texts.index_of_first_ensures(project@);
    }
    match found {
        Some(idx) => {
            proof {
                match texts.index_of_first(project@) {
                    Some(f) => {
                        assert(texts[idx as int] == project@);
                        assert(f == idx as int);
                    },
                    None => {
                        assert(texts[idx as int] == project@);
                    },
                }
            }
            recents.remove(idx);
            proof {
                assert(path_texts(recents@) =~= texts.remove(idx as int));
            }
        },
        None => {
            proof {
                assert(!texts.contains(project@)) by {
                    if texts.contains(project@) {
                        let k = choose|k: int| 0 <= k < texts.len() && texts[k] == project@;
                        assert(recents@[k]@ == project@);
                    }
                }
            }
        },
    }
    let ghost mid = path_texts(recents@);
    assert(mid == texts.remove_value(project@));
    recents.insert(0, project);
    proof {
        assert(path_texts(recents@) =~= seq![project@] + mid);
    }
}

/// After opening a project it is listed first, exactly once, and a list that
/// named no project twice still names none twice; the other projects keep
/// their order.
pub proof fn law_recent_project_first_and_once(list: Seq<Seq<char>>, project: Seq<char>)
    requires
        list.no_duplicates(),
    ensures
        pushed_recent(list, project)[0] == project,
        pushed_recent(list, project).no_duplicates(),
        forall|i: int| 0 < i < pushed_recent(list, project).len() ==> #[trigger] pushed_recent(list, project)[i] != project,
        pushed_recent(list, project).drop_first() == list.remove_value(project),
{
    let r = pushed_recent(list, project);
    let t = list.remove_value(project);
    list.index_of_first_ensures(project);
    assert(r.drop_first() =~= t);
    if list.contains(project) {
        let f = list.index_of_first(project)->0;
        assert forall|a: int| 0 <= a < t.len() implies #[trigger] t[a] == (if a < f { list[a] } else { list[a + 1] }) by {}
        assert forall|a: int| 0 <= a < t.len() implies #[trigger] t[a] != project by {
            let sa = if a < f { a } else { a + 1 };
            assert(list[sa] == t[a]);
        }
        assert forall|a: int, b: int| 0 <= a < t.len() && 0 <= b < t.len() && a != b implies t[a] != t[b] by {
            let sa = if a < f { a } else { a + 1 };
            let sb = if b < f { b } else { b + 1 };
            assert(t[a] == list[sa] && t[b] == list[sb]);
        }
    } else {
        assert forall|a: int| 0 <= a < t.len() implies #[trigger] t[a] != project by {
            assert(list[a] == t[a]);
        }
    }
    assert forall|i: int| 0 < i < r.len() implies #[trigger] r[i] != project by {
        assert(r[i] == t[i - 1]);
    }
    assert forall|a: int, b: int| 0 <= a < r.len() && 0 <= b < r.len() && a != b implies r[a] != r[b] by {
        if a > 0 && b > 0 {
            assert(r[a] == t[a - 1] && r[b] == t[b - 1]);
        } else if a == 0 {
            assert(r[b] == t[b - 1]);
        } else {
            assert(r[a] == t[a - 1]);
        }
    }
}

} // verus!
