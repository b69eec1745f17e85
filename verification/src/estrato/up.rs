//! Layer depth and climbing in the `.estrato` layout.
use vstd::prelude::*;
use crate::text::{chars_of, string_of};
use crate::pathstr::{count_trailing_layers, join, join_path, trailing_depth};

verus! {

/// The name of the directory that holds sub-layers.
pub open spec fn estrato_dir() -> Seq<char> {
    seq!['.', 'e', 's', 't', 'r', 'a', 't', 'o']
}

/// `estrato_dir` as characters.
pub fn estrato_dir_chars() -> (v: Vec<char>)
    ensures
        v@ == estrato_dir(),
{
    vec!['.', 'e', 's', 't', 'r', 'a', 't', 'o']
}

/// Why a climb is refused.
#[derive(Debug, PartialEq, Eq)]
pub enum UpError {
    InsufficientDepth { requested: usize, actual: usize },
}

/// Counts how many estrato levels deep `path` is: walking its components
/// from the end, the `.estrato/<name>` pairs met one after another, up to
/// the first component that is neither `.estrato` nor a layer's name.
pub fn depth(path: &str) -> (n: usize)
    ensures
        n == trailing_depth(path@, estrato_dir()),
{
    let v = chars_of(path);
    let m = estrato_dir_chars();
    count_trailing_layers(&v, &m)
}

/// `p` joined with `..` twice: one level up.
pub open spec fn up_once(p: Seq<char>) -> Seq<char> {
    join(join(p, seq!['.', '.']), seq!['.', '.'])
}

/// The relative path that climbs `n` levels: `..` joined twice per level,
/// from the empty path.
pub open spec fn climb(n: nat) -> Seq<char>
    decreases n,
{
    if n == 0 {
        seq![]
    } else {
        up_once(climb((n - 1) as nat))
    }
}

/// `climb(n)` as characters.
pub fn climb_chars(n: usize) -> (r: Vec<char>)
    ensures
        r@ == climb(n as nat),
{
    let mut p: Vec<char> = Vec::new();
    let mut i: usize = 0;
    let dots: Vec<char> = vec!['.', '.'];
    assert(dots@ =~= seq!['.', '.']);
    while i < n
        invariant
            i <= n,
            dots@ == seq!['.', '.'],
            p@ == climb(i as nat),
        decreases n - i,
    {
        let q = join_path(&p, &dots);
        p = join_path(&q, &dots);
        i = i + 1;
    }
    p
}

/// Returns a relative path going up `n` estrato levels (each level is
/// `../..`), refused when `n` is 0 or exceeds the depth of `current`.
pub fn resolve_up(current: &str, n: usize) -> (r: Result<String, UpError>)
    ensures
        n == 0 || n > trailing_depth(current@, estrato_dir()) ==> r == Err::<String, UpError>(
            UpError::InsufficientDepth { requested: n, actual: trailing_depth(current@, estrato_dir()) as usize },
        ),
        0 < n <= trailing_depth(current@, estrato_dir()) ==> (r matches Ok(p) && p@ == climb(n as nat)),
{
    let actual = depth(current);
    if n == 0 || n > actual {
        return Err(UpError::InsufficientDepth { requested: n, actual });
    }
    let p = climb_chars(n);
    Ok(string_of(&p))
}

} // verus!
