//! Scan commands and the roots they select.
//!
//! A consumer asks for one of three scans — the invoking user's home
//! directory, all users' homes (the parent of that home directory), or an
//! explicitly selected folder — or asks a running scan to stop.  Resolving
//! a command to the directory to scan is verified; looking up the home
//! directory and taking a path's parent go through trusted wrappers.

use vstd::prelude::*;

verus! {

/// What a consumer can ask of the engine.
pub enum Command {
    CurrentUser,
    AllUsers,
    FolderSelected(String),
    Stop,
}

/// What `std::path::Path::parent` returns for a path string: a pure
/// function of the string; `None` for a root, a prefix, or the empty path.
pub uninterp spec fn parent_path_of(p: Seq<char>) -> Option<Seq<char>>;

pub open spec fn opt_str_view(r: Option<String>) -> Option<Seq<char>> {
    match r {
        Some(s) => Some(s@),
        None => None,
    }
}

/// The root a command selects, given the home directory: the home itself
/// for a current-user scan, the home's parent (the common container of
/// the sibling home directories) for an all-users scan, the chosen folder
/// verbatim for a folder scan, and nothing for a stop request.
pub open spec fn spec_resolve(cmd: Command, home: Seq<char>) -> Option<Seq<char>> {
    match cmd {
        Command::CurrentUser => Some(home),
        Command::AllUsers => parent_path_of(home),
        Command::FolderSelected(p) => Some(p@),
        Command::Stop => None,
    }
}

/// Relies on std::path::Path::parent: returns the path without its final
/// component; the result is a pure function of the path string.
#[verifier::external_body]
fn path_parent(p: &str) -> (r: Option<String>)
    ensures
        opt_str_view(r) == parent_path_of(p@),
{
    std::path::Path::new(p).parent().and_then(|q| q.to_str()).map(|s| s.to_string())
}

/// Relies on dirs::home_dir: the invoking user's home directory, if the
/// platform reports one.  The result depends on the environment, so
/// nothing is promised of it.
#[verifier::external_body]
fn probe_home_dir() -> (r: Option<String>) {
    dirs::home_dir().and_then(|p| p.to_str().map(|s| s.to_string()))
}

/// Resolve a command to the root it selects, given the home directory.
pub fn resolve_scan_root(cmd: &Command, home: &str) -> (r: Option<String>)
    ensures
        opt_str_view(r) == spec_resolve(*cmd, home@),
{
    match cmd {
        Command::CurrentUser => Some(home.to_owned()),
        Command::AllUsers => path_parent(home),
        Command::FolderSelected(p) => Some(p.clone()),
        Command::Stop => None,
    }
}

/// Resolve a command to the root to scan, looking up the invoking user's
/// home directory where the command calls for it.  A selected folder is
/// used verbatim; for the home-based scans the result is the resolution
/// against whatever home directory the platform reported, if any.
pub fn resolve_command_root(cmd: &Command) -> (r: Option<String>)
    ensures
        cmd matches Command::FolderSelected(p) ==> opt_str_view(r) == Some(p@),
        cmd is Stop ==> r is None,
        r matches Some(root) ==> exists|h: Seq<char>| spec_resolve(*cmd, h) == Some(root@),
{
    match cmd {
        Command::FolderSelected(p) => {
            let r = Some(p.clone());
            proof {
                let witness: Seq<char> = Seq::empty();
                assert(spec_resolve(*cmd, witness) == Some(p@));
            }
            r
        },
        Command::Stop => None,
        Command::CurrentUser => {
            match probe_home_dir() {
                Some(h) => {
                    let r = resolve_scan_root(cmd, h.as_str());
                    proof {
                        if r is Some {
                            assert(spec_resolve(*cmd, h@) == Some(r->Some_0@));
                        }
                    }
                    r
                },
                None => None,
            }
        },
        Command::AllUsers => {
            match probe_home_dir() {
                Some(h) => {
                    let r = resolve_scan_root(cmd, h.as_str());
                    proof {
                        if r is Some {
                            assert(spec_resolve(*cmd, h@) == Some(r->Some_0@));
                        }
                    }
                    r
                },
                None => None,
            }
        },
    }
}

} // verus!
