//! Layer depth of a directory in the `.stratum` layout.
use vstd::prelude::*;
use crate::text::chars_of;
use crate::pathstr::{count_trailing_layers, trailing_depth};
use crate::path::{stratum_dir, stratum_dir_chars};

verus! {

/// Counts how many stratum levels deep `path` is: walking its components
/// from the end, the `.stratum/<name>` pairs met one after another, up to
/// the first component that is neither `.stratum` nor a layer's name.
pub fn depth(path: &str) -> (n: usize)
    ensures
        n == trailing_depth(path@, stratum_dir()),
{
    let v = chars_of(path);
    let m = stratum_dir_chars();
    count_trailing_layers(&v, &m)
}

} // verus!
