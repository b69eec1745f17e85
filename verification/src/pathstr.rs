//! Unix path strings as the library handles them: `/`-separated text whose
//! components are the non-empty pieces other than `.`, with joining, parents,
//! prefixes and lexical normalization defined over those components.
use vstd::prelude::*;
use crate::text::{copy_range, extend_chars, find_char, find_from, is_char, lemma_first_where, same_chars, views};

verus! {

/// The pieces of `s` between occurrences of `c` (`str::split`): always at
/// least one piece, empty pieces kept.
pub open spec fn split_on(s: Seq<char>, c: char) -> Seq<Seq<char>>
    decreases s.len(),
{
    match find_char(s, c) {
        Some(k) => {
            if 0 <= k < s.len() {
                seq![s.take(k)] + split_on(s.skip(k + 1), c)
            } else {
                seq![s]
            }
        },
        None => seq![s],
    }
}

/// A piece of a path that names a component: not empty and not `.`.
pub open spec fn is_component(p: Seq<char>) -> bool {
    p.len() > 0 && p != seq!['.']
}

/// The component, if any, that the piece `p` contributes.
pub open spec fn keep_component(p: Seq<char>) -> Seq<Seq<char>> {
    if is_component(p) {
        seq![p]
    } else {
        seq![]
    }
}

/// The components of a path: the `/`-separated pieces that are neither empty
/// nor `.` (the root is described by `is_absolute`).
pub open spec fn components(s: Seq<char>) -> Seq<Seq<char>>
    decreases s.len(),
{
    match find_char(s, '/') {
        Some(k) => {
            if 0 <= k < s.len() {
                keep_component(s.take(k)) + components(s.skip(k + 1))
            } else {
                keep_component(s)
            }
        },
        None => keep_component(s),
    }
}

/// A path that starts at the root.
pub open spec fn is_absolute(s: Seq<char>) -> bool {
    s.len() > 0 && s[0] == '/'
}

/// `parts` separated by `sep` (`[String]::join`).
pub open spec fn join_with(parts: Seq<Seq<char>>, sep: Seq<char>) -> Seq<char>
    decreases parts.len(),
{
    if parts.len() == 0 {
        seq![]
    } else if parts.len() == 1 {
        parts[0]
    } else {
        parts[0] + sep + join_with(parts.drop_first(), sep)
    }
}

/// Every character of `parts` joined by `sep` satisfies `q` when every
/// character of each part and of `sep` does.
pub proof fn lemma_join_with_chars(parts: Seq<Seq<char>>, sep: Seq<char>, q: spec_fn(char) -> bool)
    requires
        forall|i: int, j: int| 0 <= i < parts.len() && 0 <= j < parts[i].len() ==> q(#[trigger] parts[i][j]),
        forall|j: int| 0 <= j < sep.len() ==> q(#[trigger] sep[j]),
    ensures
        forall|j: int| 0 <= j < join_with(parts, sep).len() ==> q(#[trigger] join_with(parts, sep)[j]),
    decreases parts.len(),
{
    if parts.len() > 1 {
        let rest = parts.drop_first();
        assert forall|i: int, j: int| 0 <= i < rest.len() && 0 <= j < rest[i].len() implies q(
            #[trigger] rest[i][j],
        ) by {
            assert(rest[i] == parts[i + 1]);
        }
        lemma_join_with_chars(rest, sep, q);
        let a = parts[0];
        let jr = join_with(rest, sep);
        let whole = join_with(parts, sep);
        assert(whole == a + sep + jr);
        assert forall|j: int| 0 <= j < whole.len() implies q(#[trigger] whole[j]) by {
            if j < a.len() {
                assert(whole[j] == parts[0][j]);
            } else if j < a.len() + sep.len() {
                assert(whole[j] == sep[j - a.len()]);
            } else {
                assert(whole[j] == jr[j - a.len() - sep.len()]);
            }
        }
    } else if parts.len() == 1 {
        assert forall|j: int| 0 <= j < join_with(parts, sep).len() implies q(
            #[trigger] join_with(parts, sep)[j],
        ) by {
            assert(join_with(parts, sep)[j] == parts[0][j]);
        }
    }
}

/// A path written from its root flag and components.
pub open spec fn render(absolute: bool, comps: Seq<Seq<char>>) -> Seq<char> {
    if absolute {
        seq!['/'] + join_with(comps, seq!['/'])
    } else {
        join_with(comps, seq!['/'])
    }
}

/// `base` joined with `comp` (`Path::join` on Unix): an absolute `comp`
/// replaces `base`; otherwise a `/` separates the two unless `base` is empty
/// or already ends with one.
pub open spec fn join(base: Seq<char>, comp: Seq<char>) -> Seq<char> {
    if is_absolute(comp) {
        comp
    } else if base.len() == 0 || base.last() == '/' {
        base + comp
    } else {
        base + seq!['/'] + comp
    }
}

/// How many `<marker>/<name>` pairs end the components: counted from the
/// last component back, stopping at the first component that is neither the
/// marker nor the name of a layer right below one.
pub open spec fn trailing_pairs(comps: Seq<Seq<char>>, marker: Seq<char>) -> nat
    decreases comps.len(),
{
    if comps.len() >= 2 && comps[comps.len() - 2] == marker && comps.last() != marker {
        1 + trailing_pairs(comps.take(comps.len() - 2), marker)
    } else {
        0
    }
}

/// The layer depth of a path counted from its end: the `<marker>/<name>`
/// pairs that end its components, one after another.
pub open spec fn trailing_depth(path: Seq<char>, marker: Seq<char>) -> nat {
    trailing_pairs(components(path), marker)
}

/// The stack left by walking `comps` from `stack`: `..` pops a component
/// (when there is one), anything else is pushed.
pub open spec fn resolve_dots(stack: Seq<Seq<char>>, comps: Seq<Seq<char>>) -> Seq<Seq<char>>
    decreases comps.len(),
{
    if comps.len() == 0 {
        stack
    } else {
        let next = if comps[0] == seq!['.', '.'] {
            if stack.len() > 0 {
                stack.drop_last()
            } else {
                stack
            }
        } else {
            stack.push(comps[0])
        };
        resolve_dots(next, comps.drop_first())
    }
}

/// `p` with `.` and `..` resolved lexically, without looking at the disk.
pub open spec fn normalize(p: Seq<char>) -> Seq<char> {
    render(is_absolute(p), resolve_dots(seq![], components(p)))
}

/// The chain `p`, parent of `p`, ..., up to the root (or the empty path for a
/// relative `p`), as `Path::parent` walks it.
pub open spec fn ancestors(p: Seq<char>) -> Seq<Seq<char>> {
    let comps = components(p);
    Seq::new(
        comps.len() + 1,
        |i: int| render(is_absolute(p), comps.take(comps.len() - i)),
    )
}

/// The components of `path` after those of `prefix` (`Path::strip_prefix`):
/// defined when both are absolute or both relative and the components of
/// `prefix` begin those of `path`.
pub open spec fn strip_components(path: Seq<char>, prefix: Seq<char>) -> Option<Seq<Seq<char>>> {
    let pc = components(path);
    let qc = components(prefix);
    if is_absolute(path) == is_absolute(prefix) && qc.len() <= pc.len() && pc.take(
        qc.len() as int,
    ) == qc {
        Some(pc.skip(qc.len() as int))
    } else {
        None
    }
}

/// `path` relative to `prefix`: the remaining components joined by `/`.
pub open spec fn strip_prefix(path: Seq<char>, prefix: Seq<char>) -> Option<Seq<char>> {
    match strip_components(path, prefix) {
        Some(rest) => Some(join_with(rest, seq!['/'])),
        None => None,
    }
}

/// Pushing a vector pushes its view.
pub proof fn lemma_views_push(s: Seq<Vec<char>>, x: Vec<char>)
    ensures
        views(s.push(x)) == views(s).push(x@),
{
    assert(views(s.push(x)) =~= views(s).push(x@));
}

/// The pieces of `v` between occurrences of `c`.
pub fn split_chars(v: &Vec<char>, c: char) -> (r: Vec<Vec<char>>)
    ensures
        views(r@) == split_on(v@, c),
{
    let mut r: Vec<Vec<char>> = Vec::new();
    let mut start: usize = 0;
    assert(v@.skip(0) == v@);
    assert(views(r@) =~= Seq::<Seq<char>>::empty());
    assert(Seq::<Seq<char>>::empty() + split_on(v@, c) =~= split_on(v@, c));
    loop
        invariant
            start <= v.len(),
            views(r@) + split_on(v@.skip(start as int), c) == split_on(v@, c),
        decreases v.len() - start,
    {
        let ghost s = v@.skip(start as int);
        let next = find_from(v, c, start);
        proof {
            lemma_first_where(s, is_char(c));
        }
        match next {
            None => {
                let piece = copy_range(v, start, v.len());
                assert(piece@ == s);
                let ghost before = views(r@);
                r.push(piece);
                assert(views(r@) == before.push(s));
                assert(split_on(s, c) == seq![s]);
                assert(before + seq![s] =~= before.push(s));
                return r;
            },
            Some(k) => {
                let piece = copy_range(v, start, k);
                assert(piece@ == s.take(k - start));
                let ghost before = views(r@);
                r.push(piece);
                assert(views(r@) == before.push(s.take(k - start)));
                assert(s.skip(k - start + 1) == v@.skip(k + 1));
                assert(split_on(s, c) == seq![s.take(k - start)] + split_on(s.skip(k - start + 1), c));
                assert(before + (seq![s.take(k - start)] + split_on(v@.skip(k + 1), c)) =~= before.push(s.take(k - start)) + split_on(v@.skip(k + 1), c));
                start = k + 1;
            },
        }
    }
}

/// Whether the piece `p` names a component.
fn is_component_exec(p: &Vec<char>) -> (b: bool)
    ensures
        b == is_component(p@),
{
    if p.len() == 0 {
        false
    } else if p.len() == 1 && p[0] == '.' {
        assert(p@ == seq!['.']);
        false
    } else {
        assert(p@.len() != 1 ==> p@ != seq!['.']);
        assert(p@.len() == 1 ==> p@[0] != '.');
        true
    }
}

/// The components of the path `v`.
pub fn components_of(v: &Vec<char>) -> (r: Vec<Vec<char>>)
    ensures
        views(r@) == components(v@),
{
    let mut r: Vec<Vec<char>> = Vec::new();
    let mut start: usize = 0;
    assert(v@.skip(0) == v@);
    assert(views(r@) =~= Seq::<Seq<char>>::empty());
    assert(Seq::<Seq<char>>::empty() + components(v@) =~= components(v@));
    loop
        invariant
            start <= v.len(),
            views(r@) + components(v@.skip(start as int)) == components(v@),
        decreases v.len() - start,
    {
        let ghost s = v@.skip(start as int);
        let next = find_from(v, '/', start);
        proof {
            lemma_first_where(s, is_char('/'));
        }
        match next {
            None => {
                let piece = copy_range(v, start, v.len());
                assert(piece@ == s);
                let ghost before = views(r@);
                if is_component_exec(&piece) {
                    r.push(piece);
                    assert(views(r@) == before.push(s));
                    assert(before + seq![s] =~= before.push(s));
                } else {
                    assert(before + Seq::<Seq<char>>::empty() =~= before);
                }
                return r;
            },
            Some(k) => {
                let piece = copy_range(v, start, k);
                let ghost p = s.take(k - start);
                assert(piece@ == p);
                let ghost before = views(r@);
                if is_component_exec(&piece) {
                    r.push(piece);
                    assert(views(r@) == before.push(p));
                    assert(before + (seq![p] + components(v@.skip(k + 1))) =~= before.push(p)
                        + components(v@.skip(k + 1)));
                } else {
                    assert(before + (Seq::<Seq<char>>::empty() + components(v@.skip(k + 1)))
                        =~= before + components(v@.skip(k + 1)));
                }
                assert(s.skip(k - start + 1) == v@.skip(k + 1));
                start = k + 1;
            },
        }
    }
}

/// `parts` separated by `sep`.
pub fn join_parts(parts: &Vec<Vec<char>>, sep: &Vec<char>) -> (r: Vec<char>)
    ensures
        r@ == join_with(views(parts@), sep@),
{
    let ghost ps = views(parts@);
    let mut r: Vec<char> = Vec::new();
    if parts.len() == 0 {
        return r;
    }
    let n = parts.len();
    let mut i: usize = n;
    extend_chars(&mut r, &parts[n - 1]);
    assert(ps.skip(n - 1) =~= seq![ps[n - 1]]);
    while i > 1
        invariant
            1 <= i <= n == parts.len(),
            ps == views(parts@),
            r@ == join_with(ps.skip(i - 1), sep@),
        decreases i,
    {
        let mut piece: Vec<char> = Vec::new();
        extend_chars(&mut piece, &parts[i - 2]);
        extend_chars(&mut piece, sep);
        extend_chars(&mut piece, &r);
        proof {
            let t = ps.skip(i - 2);
            assert(t.len() >= 2);
            assert(t[0] == ps[i - 2]);
            assert(t.drop_first() == ps.skip(i - 1));
        }
        r = piece;
        i = i - 1;
    }
    assert(ps.skip(0) == ps);
    r
}

/// The path written from its root flag and components.
pub fn render_path(absolute: bool, comps: &Vec<Vec<char>>) -> (r: Vec<char>)
    ensures
        r@ == render(absolute, views(comps@)),
{
    let mut sep: Vec<char> = Vec::new();
    sep.push('/');
    assert(sep@ == seq!['/']);
    let body = join_parts(comps, &sep);
    if absolute {
        let mut r: Vec<char> = Vec::new();
        r.push('/');
        assert(r@ == seq!['/']);
        extend_chars(&mut r, &body);
        r
    } else {
        body
    }
}

/// `base` joined with `comp`.
pub fn join_path(base: &Vec<char>, comp: &Vec<char>) -> (r: Vec<char>)
    ensures
        r@ == join(base@, comp@),
{
    if comp.len() > 0 && comp[0] == '/' {
        let mut r: Vec<char> = Vec::new();
        extend_chars(&mut r, comp);
        return r;
    }
    let mut r: Vec<char> = Vec::new();
    extend_chars(&mut r, base);
    if base.len() > 0 && base[base.len() - 1] != '/' {
        r.push('/');
    }
    extend_chars(&mut r, comp);
    r
}

/// Whether `v` starts at the root.
pub fn absolute(v: &Vec<char>) -> (b: bool)
    ensures
        b == is_absolute(v@),
{
    v.len() > 0 && v[0] == '/'
}

/// The layer depth of `path` counted from its end (see `trailing_depth`).
pub fn count_trailing_layers(path: &Vec<char>, marker: &Vec<char>) -> (n: usize)
    ensures
        n == trailing_depth(path@, marker@),
{
    let comps = components_of(path);
    let ghost cs = views(comps@);
    let mut count: usize = 0;
    let mut k: usize = comps.len();
    assert(cs.take(k as int) =~= cs);
    while k >= 2 && same_chars(&comps[k - 2], marker) && !same_chars(&comps[k - 1], marker)
        invariant
            k <= comps.len(),
            count + k <= comps.len(),
            cs == views(comps@),
            count + trailing_pairs(cs.take(k as int), marker@) == trailing_pairs(cs, marker@),
        decreases k,
    {
        let ghost t = cs.take(k as int);
        assert(t[k - 2] == cs[k - 2] && t.last() == cs[k - 1]);
        assert(t.take(k - 2) =~= cs.take(k - 2));
        count = count + 1;
        k = k - 2;
    }
    proof {
        let t = cs.take(k as int);
        if k >= 2 {
            assert(t[k - 2] == cs[k - 2] && t.last() == cs[k - 1]);
        }
    }
    count
}

/// The result of walking `comps` with `..` popping.
fn resolve_dots_exec(comps: &Vec<Vec<char>>) -> (r: Vec<Vec<char>>)
    ensures
        views(r@) == resolve_dots(seq![], views(comps@)),
{
    let ghost cs = views(comps@);
    let mut stack: Vec<Vec<char>> = Vec::new();
    let dots: Vec<char> = vec!['.', '.'];
    let mut i: usize = 0;
    assert(cs.skip(0) == cs);
    assert(views(stack@) =~= Seq::<Seq<char>>::empty());
    while i < comps.len()
        invariant
            i <= comps.len(),
            cs == views(comps@),
            dots@ == seq!['.', '.'],
            resolve_dots(views(stack@), cs.skip(i as int)) == resolve_dots(seq![], cs),
        decreases comps.len() - i,
    {
        let ghost t = cs.skip(i as int);
        assert(t[0] == cs[i as int]);
        assert(t.drop_first() == cs.skip(i + 1));
        let ghost before = views(stack@);
        if same_chars(&comps[i], &dots) {
            if stack.len() > 0 {
                stack.pop();
                assert(views(stack@) =~= before.drop_last());
            }
        } else {
            stack.push(copy_range(&comps[i], 0, comps[i].len()));
            assert(comps[i as int]@.subrange(0, comps[i as int]@.len() as int) == comps[i as int]@);
            assert(views(stack@) =~= before.push(cs[i as int]));
        }
        i = i + 1;
    }
    assert(cs.skip(i as int).len() == 0);
    stack
}

/// `p` with `.` and `..` resolved lexically.
pub fn normalize_chars(p: &Vec<char>) -> (r: Vec<char>)
    ensures
        r@ == normalize(p@),
{
    let comps = components_of(p);
    let kept = resolve_dots_exec(&comps);
    render_path(absolute(p), &kept)
}

/// The first `n` entries of `v`, copied.
fn take_parts(v: &Vec<Vec<char>>, n: usize) -> (r: Vec<Vec<char>>)
    requires
        n <= v.len(),
    ensures
        views(r@) == views(v@).take(n as int),
{
    let mut r: Vec<Vec<char>> = Vec::new();
    let mut i: usize = 0;
    while i < n
        invariant
            i <= n <= v.len(),
            views(r@) == views(v@).take(i as int),
        decreases n - i,
    {
        let ghost before = r@;
        let c = copy_range(&v[i], 0, v[i].len());
        assert(v[i as int]@.subrange(0, v[i as int]@.len() as int) == v[i as int]@);
        r.push(c);
        proof {
            lemma_views_push(before, c);
            assert(views(v@).take(i + 1) =~= views(v@).take(i as int).push(v[i as int]@));
        }
        i = i + 1;
    }
    r
}

/// The entries of `v` from `n` on, copied.
fn skip_parts(v: &Vec<Vec<char>>, n: usize) -> (r: Vec<Vec<char>>)
    requires
        n <= v.len(),
    ensures
        views(r@) == views(v@).skip(n as int),
{
    let mut r: Vec<Vec<char>> = Vec::new();
    let mut i: usize = n;
    while i < v.len()
        invariant
            n <= i <= v.len(),
            views(r@) == views(v@).subrange(n as int, i as int),
        decreases v.len() - i,
    {
        let ghost before = r@;
        let c = copy_range(&v[i], 0, v[i].len());
        assert(v[i as int]@.subrange(0, v[i as int]@.len() as int) == v[i as int]@);
        r.push(c);
        proof {
            lemma_views_push(before, c);
            assert(views(v@).subrange(n as int, i + 1) =~= views(v@).subrange(n as int, i as int).push(v[i as int]@));
        }
        i = i + 1;
    }
    assert(views(v@).subrange(n as int, v.len() as int) == views(v@).skip(n as int));
    r
}

/// The chain of `p` and its ancestors, nearest first.
pub fn ancestors_of(p: &Vec<char>) -> (r: Vec<Vec<char>>)
    ensures
        views(r@) == ancestors(p@),
{
    let comps = components_of(p);
    let abs = absolute(p);
    let ghost cs = views(comps@);
    let mut r: Vec<Vec<char>> = Vec::new();
    let mut k: usize = comps.len();
    loop
        invariant
            k <= comps.len(),
            cs == views(comps@),
            abs == is_absolute(p@),
            cs == components(p@),
            views(r@) == ancestors(p@).take(comps.len() - k),
        decreases k,
    {
        let first = take_parts(&comps, k);
        let a = render_path(abs, &first);
        let ghost before = r@;
        r.push(a);
        proof {
            lemma_views_push(before, a);
            assert(views(r@) =~= ancestors(p@).take(comps.len() - k + 1));
        }
        if k == 0 {
            assert(ancestors(p@).take(comps.len() + 1) == ancestors(p@));
            return r;
        }
        k = k - 1;
    }
}

/// Whether the first `n` entries of `a` and `b` hold the same characters.
fn same_prefix_parts(a: &Vec<Vec<char>>, b: &Vec<Vec<char>>, n: usize) -> (ok: bool)
    requires
        n <= a.len(),
        n <= b.len(),
    ensures
        ok == (views(a@).take(n as int) == views(b@).take(n as int)),
{
    let mut i: usize = 0;
    while i < n
        invariant
            i <= n <= a.len(),
            n <= b.len(),
            views(a@).take(i as int) == views(b@).take(i as int),
        decreases n - i,
    {
        if !same_chars(&a[i], &b[i]) {
            assert(views(a@).take(n as int)[i as int] != views(b@).take(n as int)[i as int]);
            return false;
        }
        assert(views(a@).take(i + 1) =~= views(a@).take(i as int).push(a[i as int]@));
        assert(views(b@).take(i + 1) =~= views(b@).take(i as int).push(b[i as int]@));
        i = i + 1;
    }
    true
}

/// The components of `path` after those of `prefix`.
pub fn strip_components_of(path: &Vec<char>, prefix: &Vec<char>) -> (r: Option<Vec<Vec<char>>>)
    ensures
        r matches Some(v) ==> strip_components(path@, prefix@) == Some(views(v@)),
        r is None ==> strip_components(path@, prefix@) is None,
{
    let pc = components_of(path);
    let qc = components_of(prefix);
    if absolute(path) != absolute(prefix) || qc.len() > pc.len() {
        return None;
    }
    assert(views(qc@).take(qc.len() as int) == views(qc@));
    if !same_prefix_parts(&pc, &qc, qc.len()) {
        return None;
    }
    let rest = skip_parts(&pc, qc.len());
    Some(rest)
}

/// `path` relative to `prefix`, when `prefix` is one of its ancestors.
pub fn strip_prefix_chars(path: &Vec<char>, prefix: &Vec<char>) -> (r: Option<Vec<char>>)
    ensures
        r matches Some(v) ==> strip_prefix(path@, prefix@) == Some(v@),
        r is None ==> strip_prefix(path@, prefix@) is None,
{
    match strip_components_of(path, prefix) {
        Some(rest) => {
            let mut sep: Vec<char> = Vec::new();
            sep.push('/');
            assert(sep@ == seq!['/']);
            Some(join_parts(&rest, &sep))
        },
        None => None,
    }
}

/// `../..`, one level up in a layer tree.
pub open spec fn level_up() -> Seq<char> {
    seq!['.', '.', '/', '.', '.']
}

/// `n` times `../..`, joined by `/`.
pub open spec fn climb_text(n: nat) -> Seq<char> {
    join_with(Seq::new(n, |i: int| level_up()), seq!['/'])
}

/// `climb_text(n)` as characters.
pub fn climb_text_chars(n: usize) -> (r: Vec<char>)
    ensures
        r@ == climb_text(n as nat),
{
    let mut parts: Vec<Vec<char>> = Vec::new();
    let mut i: usize = 0;
    while i < n
        invariant
            i <= n,
            views(parts@) == Seq::new(i as nat, |k: int| level_up()),
        decreases n - i,
    {
        let lu: Vec<char> = vec!['.', '.', '/', '.', '.'];
        assert(lu@ =~= level_up());
        let ghost before = parts@;
        parts.push(lu);
        proof {
            lemma_views_push(before, lu);
            assert(views(parts@) =~= Seq::new((i + 1) as nat, |k: int| level_up()));
        }
        i = i + 1;
    }
    let mut sep: Vec<char> = Vec::new();
    sep.push('/');
    assert(sep@ == seq!['/']);
    join_parts(&parts, &sep)
}

/// The ancestors of `p`, nearest first (see `ancestors`), as strings.
pub fn ancestor_paths(p: &str) -> (r: Vec<String>)
    ensures
        crate::order::strs(r@) == ancestors(p@),
{
    let v = crate::text::chars_of(p);
    let a = ancestors_of(&v);
    let mut r: Vec<String> = Vec::new();
    let mut k: usize = 0;
    while k < a.len()
        invariant
            k <= a.len(),
            crate::order::strs(r@) == views(a@).take(k as int),
        decreases a.len() - k,
    {
        let ghost before = r@;
        let s = crate::text::string_of(&a[k]);
        r.push(s);
        assert(crate::order::strs(r@) =~= crate::order::strs(before).push(s@));
        assert(views(a@).take(k + 1) =~= views(a@).take(k as int).push(a@[k as int]@));
        k = k + 1;
    }
    assert(views(a@).take(k as int) =~= views(a@));
    r
}

} // verus!
