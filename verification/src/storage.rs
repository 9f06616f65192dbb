//! Replacing a file so that either the old or the new contents are there.

use vstd::prelude::*;

use crate::error::{Error, Result};
use crate::ident::Uuid;
use crate::paths::{components, components_of, file_name, file_name_of, is_invalid_path, join_path, joined};
use crate::text::same_text;
use crate::vault::{parent_of, parent_path};

verus! {

/// Whether a path stands in a directory: it is neither empty nor the root.
pub open spec fn has_parent(path: Seq<char>) -> bool {
    components(path).len() > 0 && components(path).last() != seq!['/']
}

pub fn stands_in_directory(path: &str) -> (stands: bool)
    ensures
        stands == has_parent(path@),
{
    let parts = components_of(path);
    proof {
        reveal_strlit("/");
        assert("/"@ =~= seq!['/']);
        if parts@.len() > 0 {
            assert(components(path@).last() == parts@[parts@.len() - 1]@);
        }
    }
    parts.len() > 0 && !same_text(&parts[parts.len() - 1], "/")
}

/// The file that is written before it takes the place of another: a hidden one
/// in the same directory.
pub open spec fn temporary_path(path: Seq<char>, name: Seq<char>, id: Uuid) -> Seq<char> {
    joined(parent_path(path), "."@ + name + "."@ + id.spec_simple() + ".tmp"@)
}

/// The file that is written before it takes the place of the one at `path`.
pub fn temporary_sibling(path: &str, id: Uuid) -> (outcome: Result<String>)
    ensures
        match outcome {
            Ok(temporary) => {
                &&& has_parent(path@)
                &&& file_name(path@) matches Some(name)
                &&& temporary@ == temporary_path(path@, name, id)
            },
            Err(error) => if !has_parent(path@) {
                is_invalid_path(error, path@ + " has no parent"@)
            } else {
                file_name(path@) is None && is_invalid_path(
                    error,
                    path@ + " has no valid filename"@,
                )
            },
        },
{
    if !stands_in_directory(path) {
        let mut message: String = path.to_owned();
        message.append(" has no parent");
        return Err(Error::InvalidPath(message));
    }
    match file_name_of(path) {
        Some(name) => {
            let mut hidden: String = ".".to_owned();
            hidden.append(&name);
            hidden.append(".");
            hidden.append(&id.simple());
            hidden.append(".tmp");
            Ok(join_path(&parent_of(path), &hidden))
        },
        None => {
            let mut message: String = path.to_owned();
            message.append(" has no valid filename");
            Err(Error::InvalidPath(message))
        },
    }
}

} // verus!
