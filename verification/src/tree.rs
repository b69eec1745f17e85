//! The layer tree that `stratum tree` draws: the children of a directory,
//! in the order they are drawn, and the lines that draw them.
use vstd::prelude::*;
use crate::order::{sort_names, sorted, strs};
use crate::pathstr::{join, join_path};
use crate::path::{marks_view, stratum_dir, stratum_dir_chars};
use crate::text::{chars_of, extend_chars, string_of};

verus! {

/// A node of the layer tree: the text drawn for it and the directory it is.
pub struct Child {
    pub label: String,
    pub path: String,
}

/// A name that is not hidden: it does not start with `.`.
pub open spec fn visible(name: Seq<char>) -> bool {
    !(name.len() > 0 && name[0] == '.')
}

/// Whether `name` is visible (see `visible`).
pub fn is_visible(name: &str) -> (b: bool)
    ensures
        b == visible(name@),
{
    let v = chars_of(name);
    !(v.len() > 0 && v[0] == '.')
}

/// The names of the sub-directories that the tree shows, in the order
/// given: those that are visible and hold layers somewhere below them.
pub open spec fn kept_dirs(d: Seq<(Seq<char>, bool)>) -> Seq<Seq<char>>
    decreases d.len(),
{
    if d.len() == 0 {
        seq![]
    } else {
        let rest = kept_dirs(d.drop_last());
        if d.last().1 && visible(d.last().0) {
            rest.push(d.last().0)
        } else {
            rest
        }
    }
}

/// `s` holds the names of `of`, sorted.
pub open spec fn arranged(s: Seq<Seq<char>>, of: Seq<Seq<char>>) -> bool {
    sorted(s) && s.to_multiset() == of.to_multiset()
}

/// The (label, path) of each sub-layer of `dir` named in `names`: `>name`
/// at `dir/.stratum/name`.
pub open spec fn layer_children(dir: Seq<char>, names: Seq<Seq<char>>) -> Seq<(Seq<char>, Seq<char>)> {
    names.map_values(|n: Seq<char>| (seq!['>'] + n, join(join(dir, stratum_dir()), n)))
}

/// The (label, path) of each sub-directory of `dir` named in `names`: the
/// name, at `dir/name`.
pub open spec fn dir_children(dir: Seq<char>, names: Seq<Seq<char>>) -> Seq<(Seq<char>, Seq<char>)> {
    names.map_values(|n: Seq<char>| (n, join(dir, n)))
}

/// The (label, path) of each child.
pub open spec fn children_view(c: Seq<Child>) -> Seq<(Seq<char>, Seq<char>)> {
    c.map_values(|x: Child| (x.label@, x.path@))
}

/// The names of the visible entries of `sub_dirs` that hold layers.
fn keep_dirs(sub_dirs: Vec<(String, bool)>) -> (r: Vec<String>)
    ensures
        strs(r@) == kept_dirs(marks_view(sub_dirs@)),
{
    let ghost d = marks_view(sub_dirs@);
    let mut r: Vec<String> = Vec::new();
    let mut i: usize = 0;
    assert(d.take(0) =~= Seq::<(Seq<char>, bool)>::empty());
    while i < sub_dirs.len()
        invariant
            i <= sub_dirs.len(),
            d == marks_view(sub_dirs@),
            strs(r@) == kept_dirs(d.take(i as int)),
        decreases sub_dirs.len() - i,
    {
        let ghost before = r@;
        assert(d.take(i + 1).drop_last() =~= d.take(i as int));
        assert(d.take(i + 1).last() == (sub_dirs@[i as int].0@, sub_dirs@[i as int].1));
        let keep = sub_dirs[i].1 && is_visible(sub_dirs[i].0.as_str());
        if keep {
            let name = string_of(&chars_of(sub_dirs[i].0.as_str()));
            r.push(name);
            assert(strs(r@) =~= strs(before).push(name@));
        }
        i = i + 1;
    }
    assert(d.take(i as int) =~= d);
    r
}

/// The children of `dir` in the layer tree, in the order they are drawn:
/// first its sub-layers (`layers`, the directories in `dir/.stratum`),
/// sorted, each labelled `>name` at `dir/.stratum/name`; then its visible
/// sub-directories that hold layers somewhere below (`sub_dirs` pairs each
/// sub-directory's name with that fact), sorted, each labelled by its name
/// at `dir/name`.
pub fn stratum_children(dir: &str, layers: Vec<String>, sub_dirs: Vec<(String, bool)>) -> (r: Vec<
    Child,
>)
    ensures
        exists|ls: Seq<Seq<char>>, ds: Seq<Seq<char>>|
            arranged(ls, strs(layers@)) && arranged(ds, kept_dirs(marks_view(sub_dirs@)))
                && #[trigger] children_view(r@) == layer_children(dir@, ls) + dir_children(dir@, ds),
{
    let ls = sort_names(layers);
    let kept = keep_dirs(sub_dirs);
    let ds = sort_names(kept);
    let dv = chars_of(dir);
    let m = stratum_dir_chars();
    let base = join_path(&dv, &m);
    let ghost lsv = strs(ls@);
    let ghost dsv = strs(ds@);
    let mut out: Vec<Child> = Vec::new();
    let mut i: usize = 0;
    while i < ls.len()
        invariant
            i <= ls.len(),
            lsv == strs(ls@),
            dv@ == dir@,
            base@ == join(dir@, stratum_dir()),
            children_view(out@) == layer_children(dir@, lsv.take(i as int)),
        decreases ls.len() - i,
    {
        let ghost before = out@;
        let nv = chars_of(ls[i].as_str());
        let mut label: Vec<char> = Vec::new();
        label.push('>');
        extend_chars(&mut label, &nv);
        let path = join_path(&base, &nv);
        let c = Child { label: string_of(&label), path: string_of(&path) };
        out.push(c);
        proof {
            assert(label@ =~= seq!['>'] + lsv[i as int]);
            assert(lsv.take(i + 1) =~= lsv.take(i as int).push(lsv[i as int]));
            assert(children_view(out@) =~= children_view(before).push((c.label@, c.path@)));
            assert(layer_children(dir@, lsv.take(i + 1)) =~= layer_children(
                dir@,
                lsv.take(i as int),
            ).push((seq!['>'] + lsv[i as int], join(join(dir@, stratum_dir()), lsv[i as int]))));
        }
        i = i + 1;
    }
    assert(lsv.take(i as int) =~= lsv);
    let ghost head = children_view(out@);
    let mut j: usize = 0;
    assert(dir_children(dir@, dsv.take(0)) =~= Seq::<(Seq<char>, Seq<char>)>::empty());
    while j < ds.len()
        invariant
            j <= ds.len(),
            dsv == strs(ds@),
            dv@ == dir@,
            head == layer_children(dir@, lsv),
            children_view(out@) == head + dir_children(dir@, dsv.take(j as int)),
        decreases ds.len() - j,
    {
        let ghost before = out@;
        let nv = chars_of(ds[j].as_str());
        let path = join_path(&dv, &nv);
        let c = Child { label: string_of(&nv), path: string_of(&path) };
        out.push(c);
        proof {
            assert(dsv.take(j + 1) =~= dsv.take(j as int).push(dsv[j as int]));
            assert(children_view(out@) =~= children_view(before).push((c.label@, c.path@)));
            assert(dir_children(dir@, dsv.take(j + 1)) =~= dir_children(dir@, dsv.take(j as int)).push(
                (dsv[j as int], join(dir@, dsv[j as int])),
            ));
        }
        j = j + 1;
    }
    assert(dsv.take(j as int) =~= dsv);
    assert(children_view(out@) == layer_children(dir@, lsv) + dir_children(dir@, dsv));
    out
}

/// What a tree line draws before a child's label: `└── ` for the last
/// child, `├── ` for the others.
pub open spec fn connector(last: bool) -> Seq<char> {
    if last {
        seq!['\u{2514}', '\u{2500}', '\u{2500}', ' ']
    } else {
        seq!['\u{251c}', '\u{2500}', '\u{2500}', ' ']
    }
}

/// What the lines below a child add to the prefix: blanks below the last
/// child, `│   ` below the others.
pub open spec fn indent(last: bool) -> Seq<char> {
    if last {
        seq![' ', ' ', ' ', ' ']
    } else {
        seq!['\u{2502}', ' ', ' ', ' ']
    }
}

/// The line that draws a child labelled `label` under `prefix`, and the
/// prefix for the lines of that child's own children.
pub fn tree_line(prefix: &str, label: &str, last: bool) -> (r: (String, String))
    ensures
        r.0@ == prefix@ + connector(last) + label@,
        r.1@ == prefix@ + indent(last),
{
    let pv = chars_of(prefix);
    let lv = chars_of(label);
    let conn: Vec<char> = if last {
        vec!['\u{2514}', '\u{2500}', '\u{2500}', ' ']
    } else {
        vec!['\u{251c}', '\u{2500}', '\u{2500}', ' ']
    };
    let ext: Vec<char> = if last {
        vec![' ', ' ', ' ', ' ']
    } else {
        vec!['\u{2502}', ' ', ' ', ' ']
    };
    assert(conn@ =~= connector(last));
    assert(ext@ =~= indent(last));
    let mut line = copy_all(&pv);
    extend_chars(&mut line, &conn);
    extend_chars(&mut line, &lv);
    let mut next = copy_all(&pv);
    extend_chars(&mut next, &ext);
    (string_of(&line), string_of(&next))
}

fn copy_all(v: &Vec<char>) -> (r: Vec<char>)
    ensures
        r@ == v@,
{
    let r = crate::text::copy_range(v, 0, v.len());
    assert(v@.subrange(0, v.len() as int) =~= v@);
    r
}

} // verus!
