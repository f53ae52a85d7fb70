use vstd::prelude::*;

verus! {

/// What `pathdiff::diff_paths` gives for a path and a base directory: the
/// path written relative to the base, or `None` when it cannot be.
pub uninterp spec fn relative_path(path: Seq<char>, base: Seq<char>) -> Option<Seq<char>>;

/// Calls `pathdiff::diff_paths(path, base)` and turns the path it gives into
/// a string. The result is the name `relative_path` applied to the two
/// strings; what that path is, is not stated here (it is worked out from the
/// paths' components, without looking at the file system).
#[verifier::external_body]
fn diff_paths(path: &str, base: &str) -> (res: Option<String>)
    ensures
        match res {
            Some(s) => relative_path(path@, base@) == Some(s@),
            None => relative_path(path@, base@) is None,
        },
{
    match pathdiff::diff_paths(path, base) {
        Some(p) => Some(p.to_string_lossy().into_owned()),
        None => None,
    }
}

/// Calls `String::push`, which appends the character `c` to `s`.
#[verifier::external_body]
fn push_char(s: &mut String, c: char)
    ensures
        final(s)@ == old(s)@.push(c),
{
    s.push(c);
}

/// `name` without its `/` characters.
pub open spec fn without_slashes(name: Seq<char>) -> Seq<char>
    decreases name.len(),
{
    if name.len() == 0 {
        Seq::empty()
    } else {
        let rest = without_slashes(name.drop_last());
        if name.last() == '/' {
            rest
        } else {
            rest.push(name.last())
        }
    }
}

/// The project name as typed, with every `/` taken out so that it names a
/// single folder.
pub fn clean_project_name(name: &str) -> (res: String)
    ensures
        res@ == without_slashes(name@),
{
    let mut res = String::new();
    let ghost chars = name@;
    for c in it: name.chars()
        invariant
            it.seq() == chars,
            res@ == without_slashes(chars.take(it.index() as int)),
    {
        proof {
            assert(chars.take(it.index() + 1).drop_last() =~= chars.take(it.index() as int));
        }
        if c != '/' {
            push_char(&mut res, c);
        }
    }
    proof {
        assert(chars.take(chars.len() as int) =~= chars);
    }
    res
}

/// Whether a new project can be created where the dialog says, and the
/// path to show for it (relative to the home folder).
#[derive(Debug, Clone, PartialEq, Eq)]
pub enum NewProjectStatus {
    EmptyName,
    FolderExists(String),
    InvalidLocation,
    Ready(String),
}

impl NewProjectStatus {
    /// The "Create!" button is enabled.
    pub open spec fn creates(self) -> bool {
        self is Ready
    }

    pub fn can_create(&self) -> (res: bool)
        ensures
            res == self.creates(),
    {
        match self {
            NewProjectStatus::Ready(_) => true,
            _ => false,
        }
    }
}

/// The status for a project name that is empty or not, the project path as
/// shown relative to the home folder (`None` when it cannot be), and
/// whether a folder already exists at the project path.
pub fn classify_new_project(name_empty: bool, display: Option<String>, folder_exists: bool) -> (res: NewProjectStatus)
    ensures
        match res {
            NewProjectStatus::EmptyName => name_empty,
            NewProjectStatus::InvalidLocation => !name_empty && display is None,
            NewProjectStatus::FolderExists(d) => !name_empty && display == Some(d) && folder_exists,
            NewProjectStatus::Ready(d) => !name_empty && display == Some(d) && !folder_exists,
        },
{
    if name_empty {
        NewProjectStatus::EmptyName
    } else {
        match display {
            Some(d) => if folder_exists {
                NewProjectStatus::FolderExists(d)
            } else {
                NewProjectStatus::Ready(d)
            },
            None => NewProjectStatus::InvalidLocation,
        }
    }
}

/// The status of the new project dialog: the project `name`, the folder the
/// project would be created in, the user's `home` folder, and whether that
/// folder already exists.
pub fn new_project_status(name: &String, project_path: &String, home: &String, folder_exists: bool) -> (res: NewProjectStatus)
    ensures
        match res {
            NewProjectStatus::EmptyName => name@.len() == 0,
            NewProjectStatus::InvalidLocation => name@.len() != 0 && relative_path(project_path@, home@) is None,
            NewProjectStatus::FolderExists(d) => name@.len() != 0 && relative_path(project_path@, home@) == Some(d@)
                && folder_exists,
            NewProjectStatus::Ready(d) => name@.len() != 0 && relative_path(project_path@, home@) == Some(d@)
                && !folder_exists,
        },
{
    let name_empty = name.as_str().is_empty();
    let display = diff_paths(project_path.as_str(), home.as_str());
    classify_new_project(name_empty, display, folder_exists)
}

} // verus!
