//! How a repository names itself in every report: its working directory and the
//! branch that HEAD points at.
use vstd::prelude::*;
use crate::text::{trim_trailing, trim_trailing_char};

verus! {

/// The text for a repository's working directory: the directory without trailing
/// slashes, or `.` for a bare repository, which has none.
pub open spec fn workdir_text(workdir: Option<Seq<char>>) -> Seq<char> {
    match workdir {
        Some(p) => trim_trailing(p, '/'),
        None => seq!['.'],
    }
}

/// Names the repository in a report, given its working directory (as text).
pub fn repo_workdir(workdir: Option<&str>) -> (name: String)
    ensures
        name@ == workdir_text(
            match workdir {
                Some(p) => Some(p@),
                None => None,
            },
        ),
{
    match workdir {
        Some(p) => trim_trailing_char(p, '/'),
        None => {
            let name = String::from_str(".");
            proof {
                reveal_strlit(".");
            }
            name
        },
    }
}

/// What is known of HEAD: whether it points at a branch, and its short name when
/// that name is valid UTF-8.
pub struct HeadInfo {
    pub is_branch: bool,
    pub shorthand: Option<String>,
}

/// The current branch: the short name of HEAD when HEAD is a branch. A detached
/// HEAD, an unborn or unreadable HEAD, or a name that is not text give `None`.
pub fn head_branch(head: Option<HeadInfo>) -> (branch: Option<String>)
    ensures
        branch == (match head {
            Some(h) => if h.is_branch { h.shorthand } else { None },
            None => None,
        }),
{
    match head {
        Some(h) => if h.is_branch { h.shorthand } else { None },
        None => None,
    }
}

/// The branch as the tables show it: its name, or `(detached HEAD)`.
pub open spec fn branch_label(branch: Option<String>) -> Seq<char> {
    match branch {
        Some(b) => b@,
        None => "(detached HEAD)"@,
    }
}

/// The branch as the tables show it.
pub fn branch_label_text(branch: &Option<String>) -> (t: String)
    ensures
        t@ == branch_label(*branch),
{
    match branch {
        Some(b) => b.clone(),
        None => String::from_str("(detached HEAD)"),
    }
}

} // verus!
