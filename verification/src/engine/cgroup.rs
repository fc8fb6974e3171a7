//! The group of processes of each application.
//!
//! Each tracked application has a group below `/sys/fs/cgroup/curb`. Membership
//! alone drives classification; no controllers are enabled.

use vstd::prelude::*;

use crate::text::{split_whitespace, words};

verus! {

/// Where the hierarchy of groups is mounted.
pub const CG_ROOT: &'static str = "/sys/fs/cgroup";

/// The group that holds the groups of all applications.
pub const CG_BASE: &'static str = "curb";

/// Depth of the group of an application below the root of the hierarchy.
pub const APP_LEVEL: u32 = 2;

fn slash(a: &str, b: &str) -> (r: String)
    ensures
        r@ == a@ + "/"@ + b@,
{
    let mut r: String = a.to_string();
    r.append("/");
    r.append(b);
    r
}

/// The directory of the group that holds the groups of all applications.
pub open spec fn base_dir() -> Seq<char> {
    CG_ROOT@ + "/"@ + CG_BASE@
}

/// The directory of the group that holds the groups of all applications.
pub fn base_path() -> (r: String)
    ensures
        r@ == base_dir(),
{
    slash(CG_ROOT, CG_BASE)
}

/// The directory of the group of an application.
pub fn app_path(dir: &str) -> (r: String)
    ensures
        r@ == base_dir() + "/"@ + dir@,
{
    slash(base_path().as_str(), dir)
}

/// The group of an application relative to the root of the hierarchy.
pub open spec fn relative(dir: Seq<char>) -> Seq<char> {
    CG_BASE@ + "/"@ + dir
}

/// The group of an application relative to the root of the hierarchy, as the
/// packet filter expects it.
pub fn app_rel(dir: &str) -> (r: String)
    ensures
        r@ == relative(dir@),
{
    slash(CG_BASE, dir)
}

/// The file that lists the members of the group of an application.
pub fn members_path(dir: &str) -> (r: String)
    ensures
        r@ == base_dir() + "/"@ + dir@ + "/"@ + "cgroup.procs"@,
{
    slash(app_path(dir).as_str(), "cgroup.procs")
}

/// The file through which processes leave for the root group.
pub fn root_members_path() -> (r: String)
    ensures
        r@ == CG_ROOT@ + "/"@ + "cgroup.procs"@,
{
    slash(CG_ROOT, "cgroup.procs")
}

/// The members of a group, from the contents of the file that lists them.
pub fn members(content: &str) -> (r: Vec<String>)
    ensures
        r.deep_view() == words(content@),
{
    split_whitespace(content)
}

/// Number of processes in a group, from the contents of the file that lists
/// them; a file that cannot be read lists none.
pub fn member_count(content: Option<&str>) -> (r: u32)
    ensures
        r == match content {
            Some(c) => words(c@).len() as u32,
            None => 0u32,
        },
{
    match content {
        Some(c) => {
            let w: Vec<String> = split_whitespace(c);
            assert(w.deep_view().len() == w@.len());
            w.len() as u32
        },
        None => 0,
    }
}

/// Report a group that could not be created.
pub fn creation_failure(dir: &str, error: &str) -> (r: String)
    ensures
        r@ == "creating cgroup "@ + (base_dir() + "/"@ + dir@) + ": "@ + error@,
{
    let mut r: String = "creating cgroup ".to_string();
    let p: String = app_path(dir);
    r.append(p.as_str());
    r.append(": ");
    r.append(error);
    r
}

// ---- Laws --------------------------------------------------------------------

/// The group of an application lies below one group for all of them, and its name relative
/// to the root of the hierarchy is its path without that of the root.
pub proof fn law_groups_lie_below_one(dir: Seq<char>)
    ensures
        base_dir() == "/sys/fs/cgroup"@ + "/"@ + "curb"@,
        relative(dir) == "curb"@ + "/"@ + dir,
        base_dir() + "/"@ + dir == "/sys/fs/cgroup"@ + "/"@ + relative(dir),
{
    assert(base_dir() + "/"@ + dir =~= "/sys/fs/cgroup"@ + "/"@ + relative(dir));
}

} // verus!
