//! Paths as they are shown.
use vstd::prelude::*;

use crate::text;
use crate::text::{replace_char, strip_prefix};

verus! {

/// A path without the marks that the system puts in front of long ones.
pub open spec fn plain_path(label: Seq<char>, windows: bool) -> Seq<char> {
    if !windows {
        label
    } else {
        match text::after_prefix(label, "\\\\?\\UNC\\"@) {
            Some(rest) => "\\\\"@ + rest,
            None => match text::after_prefix(label, "\\\\?\\"@) {
                Some(rest) => rest,
                None => label,
            },
        }
    }
}

/// A path without the marks that the system puts in front of long ones.
pub fn path_label(label: &str, windows: bool) -> (r: String)
    ensures
        r@ == plain_path(label@, windows),
{
    if !windows {
        return label.to_owned();
    }
    match strip_prefix(label, "\\\\?\\UNC\\") {
        Some(rest) => "\\\\".to_owned().concat(rest.as_str()),
        None => match strip_prefix(label, "\\\\?\\") {
            Some(rest) => rest,
            None => label.to_owned(),
        },
    }
}

/// A path as git takes it.
pub fn git_path_label(label: &str, windows: bool) -> (r: String)
    ensures
        r@ == text::with_char_replaced(plain_path(label@, windows), '\\', '/'),
{
    replace_char(path_label(label, windows).as_str(), '\\', '/')
}

} // verus!
