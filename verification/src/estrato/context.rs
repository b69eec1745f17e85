//! Where a directory stands in the `.estrato` layout.
use vstd::prelude::*;
use crate::order::{sort_names, sorted, strs};
use crate::pathstr::{climb_text, climb_text_chars, trailing_depth};
use crate::estrato::up::estrato_dir;
use crate::text::string_of;

verus! {

/// The depth of a directory and the names of its sub-layers.
pub struct Context {
    pub depth: usize,
    pub sub_layers: Vec<String>,
}

impl Context {
    /// The context of `dir`, whose `.estrato/` directory holds the
    /// sub-layer directories named in `sub_dirs` (in any order): the depth
    /// of `dir` and those names, sorted.
    pub fn from_dir(dir: &str, sub_dirs: Vec<String>) -> (c: Context)
        ensures
            c.depth == trailing_depth(dir@, estrato_dir()),
            sorted(strs(c.sub_layers@)),
            strs(c.sub_layers@).to_multiset() == strs(sub_dirs@).to_multiset(),
    {
        let depth = crate::estrato::up::depth(dir);
        let sub_layers = sort_names(sub_dirs);
        Context { depth, sub_layers }
    }

    /// The relative path up to the top layer: `../..` once per level,
    /// joined by `/`; `None` at depth 0.
    pub fn up_path(&self) -> (r: Option<String>)
        ensures
            self.depth == 0 ==> r is None,
            self.depth > 0 ==> (r matches Some(s) && s@ == climb_text(self.depth as nat)),
    {
        if self.depth == 0 {
            return None;
        }
        let v = climb_text_chars(self.depth);
        Some(string_of(&v))
    }
}

} // verus!
