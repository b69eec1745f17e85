//! Registering a sub-layer: the rules for its name and the text of its
//! configuration file `.stratum/.<name>.toml`.
use vstd::prelude::*;
use crate::text::{chars_of, string_of, extend_chars};

verus! {

/// A sub-layer name: not empty and without path separators.
pub open spec fn layer_name_ok(name: Seq<char>) -> bool {
    name.len() > 0 && !name.contains('/') && !name.contains('\\')
}

/// Whether `name` can name a sub-layer (see `layer_name_ok`).
pub fn valid_layer_name(name: &str) -> (b: bool)
    ensures
        b == layer_name_ok(name@),
{
    let v = chars_of(name);
    if v.len() == 0 {
        return false;
    }
    let mut i: usize = 0;
    while i < v.len()
        invariant
            i <= v.len(),
            forall|j: int| 0 <= j < i ==> v@[j] != '/' && v@[j] != '\\',
            v@ == name@,
        decreases v.len() - i,
    {
        if v[i] == '/' || v[i] == '\\' {
            assert(v@.contains(v@[i as int]));
            return false;
        }
        i = i + 1;
    }
    true
}

/// The file name of a sub-layer's configuration: `.<name>.toml`.
pub open spec fn config_file_spec(name: Seq<char>) -> Seq<char> {
    seq!['.'] + name + seq!['.', 't', 'o', 'm', 'l']
}

/// The file name of the configuration of sub-layer `name`.
pub fn config_file_name(name: &str) -> (r: String)
    ensures
        r@ == config_file_spec(name@),
{
    let mut v: Vec<char> = Vec::new();
    v.push('.');
    let n = chars_of(name);
    extend_chars(&mut v, &n);
    let ext: Vec<char> = vec!['.', 't', 'o', 'm', 'l'];
    extend_chars(&mut v, &ext);
    assert(v@ =~= config_file_spec(name@));
    string_of(&v)
}

/// The configuration text of a sub-layer:
/// `remote = "<remote>"` and `branch = "<branch>"`, one per line.
pub open spec fn config_text_spec(remote: Seq<char>, branch: Seq<char>) -> Seq<char> {
    seq!['r', 'e', 'm', 'o', 't', 'e', ' ', '=', ' ', '"'] + remote + seq!['"', '\n']
        + seq!['b', 'r', 'a', 'n', 'c', 'h', ' ', '=', ' ', '"'] + branch + seq!['"', '\n']
}

/// The configuration text for a sub-layer kept at `remote` on `branch`.
pub fn config_text(remote: &str, branch: &str) -> (r: String)
    ensures
        r@ == config_text_spec(remote@, branch@),
{
    let mut v: Vec<char> = vec!['r', 'e', 'm', 'o', 't', 'e', ' ', '=', ' ', '"'];
    let rv = chars_of(remote);
    extend_chars(&mut v, &rv);
    let mid: Vec<char> = vec!['"', '\n', 'b', 'r', 'a', 'n', 'c', 'h', ' ', '=', ' ', '"'];
    extend_chars(&mut v, &mid);
    let bv = chars_of(branch);
    extend_chars(&mut v, &bv);
    let end: Vec<char> = vec!['"', '\n'];
    extend_chars(&mut v, &end);
    assert(v@ =~= config_text_spec(remote@, branch@));
    string_of(&v)
}

} // verus!
