//! Reading optional text fields of asset files.

use vstd::prelude::*;

verus! {

/// An optional text field: an empty string stands for no value.
pub fn optional_string(s: String) -> (r: Option<String>)
    ensures
        r == if s@.len() == 0 {
            None
        } else {
            Some(s)
        },
{
    if s.as_str().is_empty() {
        None
    } else {
        Some(s)
    }
}

} // verus!
