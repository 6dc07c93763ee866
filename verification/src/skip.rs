//! The skip-directory policy shared by the workspace scanner and the
//! filesystem watcher: hidden directories and a fixed deny-list of
//! dependency/build/cache directories are never entered.

use vstd::prelude::*;
use vstd::string::StrSliceExecFns;

use crate::text::str_eq;

verus! {

/// A directory of this name is excluded from scanning and watching: its name
/// starts with the hidden-file marker or is on the fixed deny-list.
pub open spec fn spec_skip_dir(name: Seq<char>) -> bool {
    ||| (name.len() > 0 && name[0] == '.')
    ||| name == "node_modules"@
    ||| name == "target"@
    ||| name == "__pycache__"@
}

/// Directories to skip during recursive file discovery and while filtering
/// watcher notifications.
pub fn should_skip_dir(name: &str) -> (r: bool)
    ensures
        r == spec_skip_dir(name@),
{
    if name.unicode_len() > 0 && name.get_char(0) == '.' {
        return true;
    }
    if str_eq(name, "node_modules") {
        return true;
    }
    if str_eq(name, "target") {
        return true;
    }
    if str_eq(name, "__pycache__") {
        return true;
    }
    false
}

} // verus!
