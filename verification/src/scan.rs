//! The lexical layer shared by the path grammars: a run of `>`-separated layer
//! names that ends at the end of the text or at a `/` that begins a trailing
//! path, and runs of a repeated character.
use vstd::prelude::*;
use crate::text::{copy_range, first_where, lemma_first_where, lemma_first_where_at, views};
use crate::pathstr::lemma_views_push;

verus! {

/// The characters that end a layer name.
pub open spec fn is_delim() -> spec_fn(char) -> bool {
    |c: char| c == '>' || c == '/'
}

/// The layer names of `r` (the text after a leading `>`) and the trailing
/// path that follows them: names are separated by `>`, the first `/` ends the
/// last name and begins the trailing path (empty when there is no `/`).
/// `None` when some name is empty.
pub open spec fn down_scan(r: Seq<char>) -> Option<(Seq<Seq<char>>, Seq<char>)>
    decreases r.len(),
{
    match first_where(r, is_delim()) {
        None => {
            if r.len() == 0 {
                None
            } else {
                Some((seq![r], seq![]))
            }
        },
        Some(k) => {
            if k <= 0 || k >= r.len() {
                None
            } else if r[k] == '/' {
                Some((seq![r.take(k)], r.skip(k)))
            } else {
                match down_scan(r.skip(k + 1)) {
                    Some((names, tail)) => Some((seq![r.take(k)] + names, tail)),
                    None => None,
                }
            }
        },
    }
}

/// `scan` with `names` put in front of its names.
pub open spec fn prepend_names(
    names: Seq<Seq<char>>,
    scan: Option<(Seq<Seq<char>>, Seq<char>)>,
) -> Option<(Seq<Seq<char>>, Seq<char>)> {
    match scan {
        Some((more, tail)) => Some((names + more, tail)),
        None => None,
    }
}

/// Index of the first `>` or `/` in `v` at or after `from`.
fn find_delim(v: &Vec<char>, from: usize) -> (r: Option<usize>)
    requires
        from <= v.len(),
    ensures
        r matches Some(k) ==> from <= k < v.len() && first_where(v@.skip(from as int), is_delim())
            == Some(k - from),
        r is None ==> first_where(v@.skip(from as int), is_delim()) is None,
{
    let ghost s = v@.skip(from as int);
    let mut i = from;
    while i < v.len()
        invariant
            from <= i <= v.len(),
            s == v@.skip(from as int),
            forall|j: int| 0 <= j < i - from ==> !is_delim()(#[trigger] s[j]),
        decreases v.len() - i,
    {
        assert(s[i - from] == v@[i as int]);
        if v[i] == '>' || v[i] == '/' {
            proof {
                lemma_first_where_at(s, is_delim(), i - from);
            }
            return Some(i);
        }
        i = i + 1;
    }
    proof {
        lemma_first_where_at(s, is_delim(), i - from);
    }
    None
}

/// The layer names of `v[from..]` and the index where the trailing path
/// begins (see `down_scan`).
pub fn scan_down(v: &Vec<char>, from: usize) -> (r: Option<(Vec<Vec<char>>, usize)>)
    requires
        from <= v.len(),
    ensures
        match r {
            Some((names, t)) => t <= v.len() && down_scan(v@.skip(from as int)) == Some(
                (views(names@), v@.skip(t as int)),
            ),
            None => down_scan(v@.skip(from as int)) is None,
        },
{
    let mut names: Vec<Vec<char>> = Vec::new();
    let mut p = from;
    assert(views(names@) =~= Seq::<Seq<char>>::empty());
    assert(prepend_names(seq![], down_scan(v@.skip(from as int))) =~= down_scan(
        v@.skip(from as int),
    )) by {
        match down_scan(v@.skip(from as int)) {
            Some((ns, t)) => {
                assert(Seq::<Seq<char>>::empty() + ns =~= ns);
            },
            None => {},
        }
    }
    loop
        invariant
            from <= p <= v.len(),
            down_scan(v@.skip(from as int)) == prepend_names(
                views(names@),
                down_scan(v@.skip(p as int)),
            ),
        decreases v.len() - p,
    {
        let ghost s = v@.skip(p as int);
        let d = find_delim(v, p);
        proof {
            lemma_first_where(s, is_delim());
        }
        match d {
            None => {
                if p == v.len() {
                    return None;
                }
                let name = copy_range(v, p, v.len());
                assert(name@ == s);
                let ghost before = names@;
                names.push(name);
                proof {
                    lemma_views_push(before, name);
                    assert(views(before) + seq![s] =~= views(before).push(s));
                    assert(v@.skip(v.len() as int) =~= Seq::<char>::empty());
                }
                return Some((names, v.len()));
            },
            Some(k) => {
                if k == p {
                    return None;
                }
                let name = copy_range(v, p, k);
                assert(name@ == s.take(k - p));
                assert(s[k - p] == v@[k as int]);
                let ghost before = names@;
                names.push(name);
                proof {
                    lemma_views_push(before, name);
                }
                if v[k] == '/' {
                    assert(s.skip(k - p) == v@.skip(k as int));
                    assert(views(before) + seq![s.take(k - p)] =~= views(before).push(
                        s.take(k - p),
                    ));
                    return Some((names, k));
                }
                assert(s.skip(k - p + 1) == v@.skip(k + 1));
                proof {
                    match down_scan(v@.skip(k + 1)) {
                        Some((ns, t)) => {
                            assert(views(before) + (seq![s.take(k - p)] + ns) =~= views(
                                before,
                            ).push(s.take(k - p)) + ns);
                        },
                        None => {},
                    }
                }
                p = k + 1;
            },
        }
    }
}

/// How many times `c` repeats at the start of `s`.
pub open spec fn leading(s: Seq<char>, c: char) -> nat
    decreases s.len(),
{
    if s.len() > 0 && s[0] == c {
        1 + leading(s.drop_first(), c)
    } else {
        0
    }
}

/// `leading` never exceeds the length, and the counted characters are `c`.
pub proof fn lemma_leading(s: Seq<char>, c: char)
    ensures
        leading(s, c) <= s.len(),
        forall|j: int| 0 <= j < leading(s, c) ==> s[j] == c,
        leading(s, c) < s.len() ==> s[leading(s, c) as int] != c,
    decreases s.len(),
{
    if s.len() > 0 && s[0] == c {
        lemma_leading(s.drop_first(), c);
        assert forall|j: int| 0 < j < leading(s, c) implies s[j] == c by {
            assert(s[j] == s.drop_first()[j - 1]);
        }
    }
}

/// A run of `c` of length `k` followed by a character other than `c` (or by
/// nothing) is what `leading` counts.
pub proof fn lemma_leading_at(s: Seq<char>, c: char, k: int)
    requires
        0 <= k <= s.len(),
        forall|j: int| 0 <= j < k ==> s[j] == c,
        k < s.len() ==> s[k] != c,
    ensures
        leading(s, c) == k,
    decreases k,
{
    if k > 0 {
        assert forall|j: int| 0 <= j < k - 1 implies s.drop_first()[j] == c by {
            assert(s.drop_first()[j] == s[j + 1]);
        }
        lemma_leading_at(s.drop_first(), c, k - 1);
    }
}

/// How many times `c` repeats at the start of `v[from..]`.
pub fn count_leading(v: &Vec<char>, from: usize, c: char) -> (n: usize)
    requires
        from <= v.len(),
    ensures
        n == leading(v@.skip(from as int), c),
        from + n <= v.len(),
{
    let ghost s = v@.skip(from as int);
    let mut i = from;
    while i < v.len() && v[i] == c
        invariant
            from <= i <= v.len(),
            s == v@.skip(from as int),
            forall|j: int| 0 <= j < i - from ==> s[j] == c,
        decreases v.len() - i,
    {
        assert(s[i - from] == v@[i as int]);
        i = i + 1;
    }
    proof {
        if i < v.len() {
            assert(s[i - from] == v@[i as int]);
        }
        lemma_leading_at(s, c, i - from);
    }
    i - from
}

} // verus!
