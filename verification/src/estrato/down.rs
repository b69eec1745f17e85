//! Going down into named sub-layers in the `.estrato` layout.
use vstd::prelude::*;
use crate::text::{chars_of, string_of};
use crate::pathstr::{join, join_path};
use crate::estrato::up::{estrato_dir, estrato_dir_chars};

verus! {

/// Why a descent is refused.
#[derive(Debug, PartialEq, Eq)]
pub enum DownError {
    NotFound(String),
}

/// The path reached from `p` through the layers `names`:
/// `.estrato/<a>/.estrato/<b>/...`.
pub open spec fn descend(p: Seq<char>, names: Seq<Seq<char>>) -> Seq<char>
    decreases names.len(),
{
    if names.len() == 0 {
        p
    } else {
        descend(join(join(p, estrato_dir()), names[0]), names.drop_first())
    }
}

/// The character sequences of a sequence of strings.
pub open spec fn names_view(v: Seq<String>) -> Seq<Seq<char>> {
    v.map_values(|s: String| s@)
}

/// Resolves `segments` from `base` into `.estrato/a/.estrato/b/...`; the
/// layer exists when `settle_down` finds the path on disk.
pub fn resolve_down(base: &str, segments: &Vec<String>) -> (p: String)
    ensures
        p@ == descend(base@, names_view(segments@)),
{
    let ghost ns = names_view(segments@);
    let m = estrato_dir_chars();
    let mut path = chars_of(base);
    let ghost b = path@;
    let mut i: usize = 0;
    assert(ns.skip(0) =~= ns);
    while i < segments.len()
        invariant
            i <= segments.len(),
            ns == names_view(segments@),
            m@ == estrato_dir(),
            descend(path@, ns.skip(i as int)) == descend(b, ns),
        decreases segments.len() - i,
    {
        let ghost t = ns.skip(i as int);
        assert(t[0] == segments@[i as int]@);
        assert(t.drop_first() =~= ns.skip(i + 1));
        let q = join_path(&path, &m);
        let seg = chars_of(segments[i].as_str());
        path = join_path(&q, &seg);
        i = i + 1;
    }
    assert(ns.skip(i as int) =~= Seq::<Seq<char>>::empty());
    string_of(&path)
}

/// The outcome of a descent once it is known whether its path exists.
pub fn settle_down(path: String, exists: bool) -> (r: Result<String, DownError>)
    ensures
        exists ==> r == Ok::<String, DownError>(path),
        !exists ==> r == Err::<String, DownError>(DownError::NotFound(path)),
{
    if exists {
        Ok(path)
    } else {
        Err(DownError::NotFound(path))
    }
}

} // verus!
