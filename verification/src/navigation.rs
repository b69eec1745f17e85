//! How the navigation functions agree with one another: climbing with `<`
//! gives the same path as a context's up path, every layer gone down into
//! adds one to the depth, and the stratum path of the working directory
//! leads back to it.
use vstd::prelude::*;
use crate::text::{find_char, is_char, lemma_first_where, lemma_first_where_at};
use crate::pathstr::{
    climb_text, components, is_absolute, join, join_with, keep_component, level_up,
    strip_components, strip_prefix, trailing_depth, normalize, render, resolve_dots,
};
use crate::estrato::up::{climb, estrato_dir};
use crate::estrato::down::descend;

verus! {

/// A text that stands as exactly one path component: not empty, not `.`,
/// and without `/`.
pub open spec fn plain_component(n: Seq<char>) -> bool {
    n.len() > 0 && n != seq!['.'] && forall|j: int| 0 <= j < n.len() ==> n[j] != '/'
}

proof fn lemma_join_with_push(s: Seq<Seq<char>>, x: Seq<char>, sep: Seq<char>)
    requires
        s.len() > 0,
    ensures
        join_with(s.push(x), sep) == join_with(s, sep) + sep + x,
    decreases s.len(),
{
    if s.len() == 1 {
        assert(s.push(x).drop_first() =~= seq![x]);
        assert(join_with(seq![x], sep) == x);
        assert(s.push(x)[0] == s[0]);
        assert(join_with(s.push(x), sep) =~= join_with(s, sep) + sep + x);
    } else {
        lemma_join_with_push(s.drop_first(), x, sep);
        assert(s.push(x).drop_first() =~= s.drop_first().push(x));
        assert(join_with(s.push(x), sep) =~= join_with(s, sep) + sep + x);
    }
}

proof fn lemma_climb(n: nat)
    ensures
        climb(n) == climb_text(n),
        n > 0 ==> climb(n).len() > 0 && climb(n).last() == '.',
    decreases n,
{
    let dots = seq!['.', '.'];
    if n == 0 {
        assert(Seq::new(0, |i: int| level_up()) =~= Seq::<Seq<char>>::empty());
    } else if n == 1 {
        assert(climb(0) == Seq::<char>::empty());
        assert(climb(1) == join(join(climb(0), dots), dots));
        assert(join(seq![], dots) =~= dots);
        assert(join(dots, dots) =~= level_up());
        assert(Seq::new(1, |i: int| level_up()) =~= seq![level_up()]);
        assert(join_with(seq![level_up()], seq!['/']) == level_up());
        assert(climb_text(1) == join_with(Seq::new(1, |i: int| level_up()), seq!['/']));
    } else {
        let m = (n - 1) as nat;
        lemma_climb(m);
        let c = climb(m);
        let d = join(c, dots);
        assert(d =~= c + seq!['/'] + dots);
        assert(join(d, dots) =~= c + seq!['/'] + level_up());
        assert(Seq::new(n, |i: int| level_up()) =~= Seq::new(m, |i: int| level_up()).push(level_up()));
        lemma_join_with_push(Seq::new(m, |i: int| level_up()), level_up(), seq!['/']);
        assert(climb(n) == join(d, dots));
        assert(climb_text(n) == join_with(Seq::new(n, |i: int| level_up()), seq!['/']));
        assert(climb_text(m) == join_with(Seq::new(m, |i: int| level_up()), seq!['/']));
    }
}

/// **Climbing.** The path that `resolve_up` gives for `n` levels is `../..`
/// written `n` times and joined by `/`, the up path of a context `n` levels
/// deep.
pub proof fn law_climb_is_repeated_level_up(n: nat)
    ensures
        climb(n) == climb_text(n),
{
    lemma_climb(n);
}

proof fn lemma_estrato_walk_ups(k: nat, n: nat)
    requires
        k <= n,
    ensures
        crate::estrato::path::walk(climb(k), crate::estrato::path::ups((n - k) as nat)) == climb(n),
    decreases n - k,
{
    let ts = crate::estrato::path::ups((n - k) as nat);
    if k < n {
        assert(ts.drop_first() =~= crate::estrato::path::ups((n - (k + 1)) as nat));
        lemma_estrato_walk_ups(k + 1, n);
    }
}

proof fn lemma_estrato_up_count(n: nat)
    ensures
        crate::estrato::path::up_count(crate::estrato::path::ups(n)) == n,
    decreases n,
{
    if n > 0 {
        let ts = crate::estrato::path::ups(n);
        assert(ts.drop_first() =~= crate::estrato::path::ups((n - 1) as nat));
        lemma_estrato_up_count((n - 1) as nat);
    }
}

/// **Up tokens.** An estrato path of `n` `<` tokens, from a directory at
/// least `n` levels deep, resolves to `../..` written `n` times and joined
/// by `/`.
pub proof fn law_estrato_up_tokens(base: Seq<char>, current: Seq<char>, n: nat)
    requires
        0 < n <= trailing_depth(current, estrato_dir()),
    ensures
        crate::estrato::path::resolve_spec(base, current, crate::estrato::path::ups(n)) == Ok::<
            Seq<char>,
            crate::estrato::path::ResolveFault,
        >(climb_text(n)),
{
    lemma_estrato_up_count(n);
    lemma_estrato_walk_ups(0, n);
    lemma_climb(n);
}

proof fn lemma_stratum_walk_ups(k: nat, n: nat)
    requires
        k <= n,
    ensures
        crate::path::walk(climb(k), crate::path::ups((n - k) as nat)) == climb(n),
    decreases n - k,
{
    let ts = crate::path::ups((n - k) as nat);
    if k < n {
        assert(ts.drop_first() =~= crate::path::ups((n - (k + 1)) as nat));
        lemma_stratum_walk_ups(k + 1, n);
    }
}

proof fn lemma_stratum_up_count(n: nat)
    ensures
        crate::path::up_count(crate::path::ups(n)) == n,
    decreases n,
{
    if n > 0 {
        let ts = crate::path::ups(n);
        assert(ts.drop_first() =~= crate::path::ups((n - 1) as nat));
        lemma_stratum_up_count((n - 1) as nat);
    }
}

/// **Up tokens.** A stratum path of `n` `<` tokens (`<`, `<<`, ...), from a
/// directory at least `n` levels deep, resolves to `../..` written `n` times
/// and joined by `/`, whatever the project root.
pub proof fn law_stratum_up_tokens(
    base: Seq<char>,
    current: Seq<char>,
    n: nat,
    root: Option<Seq<char>>,
)
    requires
        0 < n <= trailing_depth(current, crate::path::stratum_dir()),
    ensures
        crate::path::resolve_spec(base, current, crate::path::ups(n), root) == Ok::<
            Seq<char>,
            crate::path::ResolveFault,
        >(climb_text(n)),
{
    lemma_stratum_up_count(n);
    lemma_stratum_walk_ups(0, n);
    lemma_climb(n);
}

proof fn lemma_components_split(a: Seq<char>, b: Seq<char>)
    ensures
        components(a + seq!['/'] + b) == components(a) + components(b),
    decreases a.len(),
{
    let s = a + seq!['/'] + b;
    lemma_first_where(a, is_char('/'));
    match find_char(a, '/') {
        Some(k) => {
            assert forall|j: int| 0 <= j < k implies !is_char('/')(#[trigger] s[j]) by {
                assert(s[j] == a[j]);
            }
            lemma_first_where_at(s, is_char('/'), k);
            assert(s.take(k) =~= a.take(k));
            assert(s.skip(k + 1) =~= a.skip(k + 1) + seq!['/'] + b);
            lemma_components_split(a.skip(k + 1), b);
            assert(components(s) =~= components(a) + components(b));
        },
        None => {
            assert forall|j: int| 0 <= j < a.len() implies !is_char('/')(#[trigger] s[j]) by {
                assert(s[j] == a[j]);
            }
            lemma_first_where_at(s, is_char('/'), a.len() as int);
            assert(s.take(a.len() as int) =~= a);
            assert(s.skip(a.len() as int + 1) =~= b);
        },
    }
}

proof fn lemma_components_plain(n: Seq<char>)
    requires
        plain_component(n),
    ensures
        components(n) == seq![n],
{
    lemma_first_where_at(n, is_char('/'), n.len() as int);
}

proof fn lemma_components_join(base: Seq<char>, comp: Seq<char>)
    requires
        comp.len() > 0,
        comp[0] != '/',
    ensures
        components(join(base, comp)) == components(base) + components(comp),
{
    if base.len() == 0 {
        lemma_first_where_at(base, is_char('/'), 0);
        assert(join(base, comp) =~= comp);
        assert(components(base) =~= Seq::<Seq<char>>::empty());
        assert(components(base) + components(comp) =~= components(comp));
    } else if base.last() == '/' {
        let front = base.drop_last();
        assert(base =~= front + seq!['/'] + Seq::<char>::empty());
        lemma_components_split(front, Seq::<char>::empty());
        lemma_first_where_at(Seq::<char>::empty(), is_char('/'), 0);
        assert(components(base) =~= components(front));
        assert(join(base, comp) =~= front + seq!['/'] + comp);
        lemma_components_split(front, comp);
    } else {
        lemma_components_split(base, comp);
    }
}

proof fn lemma_components_down(p: Seq<char>, marker: Seq<char>, name: Seq<char>)
    requires
        plain_component(marker),
        plain_component(name),
    ensures
        components(join(join(p, marker), name)) == components(p) + seq![marker, name],
{
    lemma_components_plain(marker);
    lemma_components_plain(name);
    assert(marker[0] != '/');
    assert(name[0] != '/');
    lemma_components_join(p, marker);
    lemma_components_join(join(p, marker), name);
    assert(components(join(join(p, marker), name)) =~= components(p) + seq![marker, name]);
}

/// **One layer down.** For a marker and a layer name that are plain path
/// components and differ, `p` joined with the marker and then the name is
/// one layer deeper than `p`.
pub proof fn law_down_adds_a_trailing_level(p: Seq<char>, marker: Seq<char>, name: Seq<char>)
    requires
        plain_component(marker),
        plain_component(name),
        name != marker,
    ensures
        trailing_depth(join(join(p, marker), name), marker) == trailing_depth(p, marker) + 1,
{
    lemma_components_down(p, marker, name);
    let cs = components(p);
    let xs = cs + seq![marker, name];
    assert(xs[xs.len() - 2] == marker && xs.last() == name);
    assert(xs.take(xs.len() - 2) =~= cs);
}

/// Names that are plain path components other than `marker`.
pub open spec fn layer_names(names: Seq<Seq<char>>, marker: Seq<char>) -> bool {
    forall|i: int| 0 <= i < names.len() ==> plain_component(#[trigger] names[i]) && names[i] != marker
}

/// **Going down.** The path `resolve_down` builds from `base` through the
/// layers `names` is `names.len()` layers deeper than `base`, as `depth`
/// counts them.
pub proof fn law_descend_depth(base: Seq<char>, names: Seq<Seq<char>>)
    requires
        layer_names(names, estrato_dir()),
    ensures
        trailing_depth(descend(base, names), estrato_dir()) == trailing_depth(base, estrato_dir())
            + names.len(),
    decreases names.len(),
{
    if names.len() > 0 {
        let m = estrato_dir();
        assert forall|j: int| 0 <= j < m.len() implies m[j] != '/' by {}
        assert(m != seq!['.']);
        let next = join(join(base, m), names[0]);
        law_down_adds_a_trailing_level(base, m, names[0]);
        assert forall|i: int| 0 <= i < names.drop_first().len() implies plain_component(
            #[trigger] names.drop_first()[i],
        ) && names.drop_first()[i] != m by {
            assert(names.drop_first()[i] == names[i + 1]);
        }
        law_descend_depth(next, names.drop_first());
    }
}

/// **Down tokens.** Walking the `>` tokens of the layers `names` from
/// `base` (`>a>b` resolves to `.stratum/a/.stratum/b`) lands `names.len()`
/// layers deeper than `base`, as the `.stratum` depth counts them.
pub proof fn law_stratum_down_tokens_depth(base: Seq<char>, names: Seq<Seq<char>>)
    requires
        layer_names(names, crate::path::stratum_dir()),
    ensures
        trailing_depth(crate::path::walk(base, crate::path::downs(names)), crate::path::stratum_dir())
            == trailing_depth(base, crate::path::stratum_dir()) + names.len(),
    decreases names.len(),
{
    if names.len() > 0 {
        let m = crate::path::stratum_dir();
        assert forall|j: int| 0 <= j < m.len() implies m[j] != '/' by {}
        assert(m != seq!['.']);
        let ts = crate::path::downs(names);
        let next = join(join(base, m), names[0]);
        law_down_adds_a_trailing_level(base, m, names[0]);
        assert(ts.drop_first() =~= crate::path::downs(names.drop_first()));
        assert forall|i: int| 0 <= i < names.drop_first().len() implies plain_component(
            #[trigger] names.drop_first()[i],
        ) && names.drop_first()[i] != m by {
            assert(names.drop_first()[i] == names[i + 1]);
        }
        law_stratum_down_tokens_depth(next, names.drop_first());
    }
}

proof fn lemma_components_are_plain(s: Seq<char>)
    ensures
        forall|i: int| 0 <= i < components(s).len() ==> plain_component(#[trigger] components(s)[i]),
    decreases s.len(),
{
    lemma_first_where(s, is_char('/'));
    match find_char(s, '/') {
        Some(k) => {
            let head = s.take(k);
            assert forall|j: int| 0 <= j < head.len() implies head[j] != '/' by {
                assert(head[j] == s[j]);
                assert(!is_char('/')(s[j]));
            }
            lemma_components_are_plain(s.skip(k + 1));
            let a = keep_component(head);
            let b = components(s.skip(k + 1));
            assert forall|i: int| 0 <= i < (a + b).len() implies plain_component(#[trigger] (a + b)[i]) by {
                if i >= a.len() {
                    assert((a + b)[i] == b[i - a.len()]);
                }
            }
        },
        None => {
            assert forall|j: int| 0 <= j < s.len() implies s[j] != '/' by {
                assert(!is_char('/')(s[j]));
            }
        },
    }
}

proof fn lemma_join_keeps_root(p: Seq<char>, comp: Seq<char>)
    requires
        comp.len() > 0,
        comp[0] != '/',
    ensures
        is_absolute(join(p, comp)) == is_absolute(p),
{
}

/// Every element of `parts` is a plain component.
pub open spec fn all_plain(parts: Seq<Seq<char>>) -> bool {
    forall|i: int| 0 <= i < parts.len() ==> plain_component(#[trigger] parts[i])
}

proof fn lemma_joined_components(parts: Seq<Seq<char>>)
    requires
        parts.len() > 0,
        all_plain(parts),
    ensures
        components(join_with(parts, seq!['/'])) == parts,
        join_with(parts, seq!['/']).len() > 0,
        join_with(parts, seq!['/'])[0] == parts[0][0],
    decreases parts.len(),
{
    assert(plain_component(parts[0]));
    lemma_components_plain(parts[0]);
    if parts.len() == 1 {
        assert(seq![parts[0]] =~= parts);
    } else {
        let rest = parts.drop_first();
        assert forall|i: int| 0 <= i < rest.len() implies plain_component(#[trigger] rest[i]) by {
            assert(rest[i] == parts[i + 1]);
        }
        lemma_joined_components(rest);
        lemma_components_split(parts[0], join_with(rest, seq!['/']));
        assert(parts[0] + seq!['/'] + join_with(rest, seq!['/']) == join_with(parts, seq!['/']));
        assert(seq![parts[0]] + rest =~= parts);
    }
}

proof fn lemma_stratum_walk_append(p: Seq<char>, a: Seq<crate::path::Token>, b: Seq<crate::path::Token>)
    ensures
        crate::path::walk(p, a + b) == crate::path::walk(crate::path::walk(p, a), b),
    decreases a.len(),
{
    if a.len() > 0 {
        assert((a + b).drop_first() =~= a.drop_first() + b);
        lemma_stratum_walk_append(crate::path::step(p, a[0]), a.drop_first(), b);
    } else {
        assert(a + b =~= b);
    }
}

proof fn lemma_flush_walk(p: Seq<char>, parts: Seq<Seq<char>>)
    requires
        all_plain(parts),
    ensures
        components(crate::path::walk(p, crate::path::flush(parts))) == components(p) + parts,
        is_absolute(crate::path::walk(p, crate::path::flush(parts))) == is_absolute(p),
{
    if parts.len() == 0 {
        assert(components(p) + parts =~= components(p));
    } else {
        let jw = join_with(parts, seq!['/']);
        let x = seq!['/'] + jw;
        lemma_joined_components(parts);
        let e = Seq::<char>::empty();
        assert(x =~= e + seq!['/'] + jw);
        lemma_components_split(e, jw);
        lemma_first_where_at(e, is_char('/'), 0);
        assert(components(e) =~= Seq::<Seq<char>>::empty());
        assert(components(x) =~= parts);
        assert(seq!['/'] =~= e + seq!['/'] + e);
        lemma_components_split(e, e);
        assert(components(seq!['/']) =~= Seq::<Seq<char>>::empty());
        assert(is_absolute(x));
        assert(is_absolute(seq!['/']));
        assert(components(x).take(0) =~= components(seq!['/']));
        assert(strip_components(x, seq!['/']) == Some(parts.skip(0)));
        assert(parts.skip(0) =~= parts);
        assert(strip_prefix(x, seq!['/']) == Some(jw));
        assert(crate::path::relative_part(x) == jw);
        let ts = crate::path::flush(parts);
        assert(ts.drop_first().len() == 0);
        assert(ts[0] == crate::path::Token::Simple(x));
        assert(crate::path::walk(crate::path::step(p, ts[0]), ts.drop_first()) == crate::path::step(p, ts[0]));
        assert(crate::path::walk(p, ts) == join(p, jw));
        lemma_components_join(p, jw);
        lemma_join_keeps_root(p, jw);
    }
}

proof fn lemma_layer_walk(p: Seq<char>, parts: Seq<Seq<char>>, comps: Seq<Seq<char>>)
    requires
        all_plain(parts),
        all_plain(comps),
    ensures
        components(crate::path::walk(p, crate::path::layer_tokens(parts, comps))) == components(p)
            + parts + comps,
        is_absolute(crate::path::walk(p, crate::path::layer_tokens(parts, comps))) == is_absolute(p),
    decreases comps.len(),
{
    let m = crate::path::stratum_dir();
    if comps.len() == 0 {
        lemma_flush_walk(p, parts);
        assert(components(p) + parts + comps =~= components(p) + parts);
    } else if comps[0] == m && comps.len() >= 2 {
        let f = crate::path::flush(parts);
        let d = seq![crate::path::Token::Down(comps[1])];
        let rest = comps.skip(2);
        assert forall|i: int| 0 <= i < rest.len() implies plain_component(#[trigger] rest[i]) by {
            assert(rest[i] == comps[i + 2]);
        }
        let q = crate::path::walk(p, f);
        lemma_flush_walk(p, parts);
        lemma_stratum_walk_append(p, f + d, crate::path::layer_tokens(seq![], rest));
        lemma_stratum_walk_append(p, f, d);
        assert(d.drop_first().len() == 0);
        assert(crate::path::walk(crate::path::step(q, d[0]), d.drop_first()) == crate::path::step(q, d[0]));
        let q2 = join(join(q, m), comps[1]);
        assert(crate::path::walk(q, d) == q2);
        assert(plain_component(comps[0]));
        assert(plain_component(comps[1]));
        lemma_components_plain(m);
        lemma_components_plain(comps[1]);
        lemma_components_join(q, m);
        lemma_components_join(join(q, m), comps[1]);
        lemma_join_keeps_root(q, m);
        lemma_join_keeps_root(join(q, m), comps[1]);
        lemma_layer_walk(q2, seq![], rest);
        assert(components(p) + parts + comps =~= components(p) + parts + seq![m, comps[1]] + rest);
        assert(components(q2) =~= components(p) + parts + seq![m, comps[1]]);
        assert(components(q2) + Seq::<Seq<char>>::empty() + rest =~= components(p) + parts + comps);
    } else {
        let rest = comps.drop_first();
        assert forall|i: int| 0 <= i < rest.len() implies plain_component(#[trigger] rest[i]) by {
            assert(rest[i] == comps[i + 1]);
        }
        let np = parts.push(comps[0]);
        assert forall|i: int| 0 <= i < np.len() implies plain_component(#[trigger] np[i]) by {
            if i == parts.len() {
                assert(np[i] == comps[0]);
            } else {
                assert(np[i] == parts[i]);
            }
        }
        lemma_layer_walk(p, np, rest);
        assert(components(p) + np + rest =~= components(p) + parts + comps);
    }
}

/// **Where am I.** The stratum path that `cwd_as_stratum_path` writes for
/// `cwd` below the outermost root `top` (what `stratum pws` prints), resolved
/// from that same root, names `cwd` again: a path with the same components,
/// starting at the filesystem root exactly when `cwd` does.
pub proof fn law_working_path_resolves_back(
    base: Seq<char>,
    current: Seq<char>,
    cwd: Seq<char>,
    top: Seq<char>,
)
    requires
        crate::path::cwd_spec(cwd, Some(top)) is Some,
    ensures
        crate::path::cwd_spec(cwd, Some(top)) matches Some(ts) && crate::path::resolve_spec(
            base,
            current,
            ts,
            Some(top),
        ) matches Ok(path) && components(path) == components(cwd)
            && is_absolute(path) == is_absolute(cwd),
{
    let pc = components(cwd);
    let qc = components(top);
    let rel = pc.skip(qc.len() as int);
    let lt = crate::path::layer_tokens(seq![], rel);
    let ts = seq![crate::path::Token::TopRoot] + lt;
    assert(crate::path::cwd_spec(cwd, Some(top)) == Some(ts));
    lemma_components_are_plain(cwd);
    assert forall|i: int| 0 <= i < rel.len() implies plain_component(#[trigger] rel[i]) by {
        assert(rel[i] == pc[i + qc.len()]);
    }
    assert(ts.drop_first() =~= lt);
    assert(crate::path::walk(top, ts) == crate::path::walk(top, lt));
    lemma_layer_walk(top, seq![], rel);
    assert(qc + Seq::<Seq<char>>::empty() + rel =~= pc);
    assert(crate::path::uses_top_root(ts));
}

/// `..`, the component that climbs one directory.
pub open spec fn parent_dir() -> Seq<char> {
    seq!['.', '.']
}

proof fn lemma_parent_dir_plain()
    ensures
        plain_component(parent_dir()),
{
    assert(parent_dir() != seq!['.']) by {
        assert(parent_dir().len() != seq!['.'].len());
    }
}

/// **Climbing is `..` twice per level.** The path `resolve_up` gives for
/// `n` levels is made of exactly `2n` components, each `..`.
pub proof fn law_climb_components(n: nat)
    ensures
        components(climb(n)) == Seq::new(2 * n, |i: int| parent_dir()),
    decreases n,
{
    if n == 0 {
        lemma_first_where_at(Seq::<char>::empty(), is_char('/'), 0);
        assert(components(climb(0)) =~= Seq::new(0, |i: int| parent_dir()));
    } else {
        let m = (n - 1) as nat;
        law_climb_components(m);
        lemma_parent_dir_plain();
        lemma_components_down(climb(m), parent_dir(), parent_dir());
        assert(Seq::new(2 * n, |i: int| parent_dir()) =~= Seq::new(2 * m, |i: int| parent_dir()) + seq![
            parent_dir(),
            parent_dir(),
        ]);
    }
}

/// Plain components other than `..`.
pub open spec fn settled(cs: Seq<Seq<char>>) -> bool {
    forall|i: int| 0 <= i < cs.len() ==> plain_component(#[trigger] cs[i]) && cs[i] != parent_dir()
}

proof fn lemma_resolve_dots_settled(stack: Seq<Seq<char>>, comps: Seq<Seq<char>>)
    requires
        settled(stack),
        all_plain(comps),
    ensures
        settled(resolve_dots(stack, comps)),
    decreases comps.len(),
{
    if comps.len() > 0 {
        let next = if comps[0] == seq!['.', '.'] {
            if stack.len() > 0 {
                stack.drop_last()
            } else {
                stack
            }
        } else {
            stack.push(comps[0])
        };
        assert(plain_component(comps[0]));
        assert forall|i: int| 0 <= i < next.len() implies plain_component(#[trigger] next[i]) && next[i]
            != parent_dir() by {
            if comps[0] != seq!['.', '.'] && i == stack.len() {
                assert(next[i] == comps[0]);
            } else {
                assert(next[i] == stack[i]);
            }
        }
        let rest = comps.drop_first();
        assert forall|i: int| 0 <= i < rest.len() implies plain_component(#[trigger] rest[i]) by {
            assert(rest[i] == comps[i + 1]);
        }
        lemma_resolve_dots_settled(next, rest);
    }
}

proof fn lemma_render_components(absolute: bool, cs: Seq<Seq<char>>)
    requires
        all_plain(cs),
    ensures
        components(render(absolute, cs)) == cs,
        is_absolute(render(absolute, cs)) == absolute,
{
    let e = Seq::<char>::empty();
    lemma_first_where_at(e, is_char('/'), 0);
    assert(components(e) =~= Seq::<Seq<char>>::empty());
    let jw = join_with(cs, seq!['/']);
    if cs.len() > 0 {
        lemma_joined_components(cs);
        assert(plain_component(cs[0]));
    } else {
        assert(jw =~= e);
    }
    if absolute {
        assert(render(absolute, cs) =~= e + seq!['/'] + jw);
        lemma_components_split(e, jw);
        assert(components(e) + components(jw) =~= cs);
    }
}

/// **Normalizing.** `normalize` keeps a path absolute or relative, and what
/// it returns has no `.` and no `..` component: its components are the
/// plain names left once each `..` has removed the name before it.
pub proof fn law_normalize_settles(p: Seq<char>)
    ensures
        is_absolute(normalize(p)) == is_absolute(p),
        components(normalize(p)) == resolve_dots(seq![], components(p)),
        settled(components(normalize(p))),
{
    lemma_components_are_plain(p);
    lemma_resolve_dots_settled(seq![], components(p));
    let st = resolve_dots(seq![], components(p));
    assert forall|i: int| 0 <= i < st.len() implies plain_component(#[trigger] st[i]) by {}
    lemma_render_components(is_absolute(p), st);
}

/// A token the working path holds after its `TopRoot`: a `Simple` path
/// that starts with `/`, or a `Down` into a plain layer name.
pub open spec fn working_token(t: crate::path::Token) -> bool {
    ||| (t matches crate::path::Token::Simple(p) && p.len() > 0 && p[0] == '/')
    ||| (t matches crate::path::Token::Down(n) && plain_component(n))
}

/// Working tokens, with no two `Simple` tokens in a row.
pub open spec fn working_run(ts: Seq<crate::path::Token>) -> bool {
    &&& forall|i: int| 0 <= i < ts.len() ==> working_token(#[trigger] ts[i])
    &&& forall|i: int|
        0 <= i < ts.len() - 1 ==> !(#[trigger] ts[i] is Simple && ts[i + 1] is Simple)
}

/// The shape of the working path: `TopRoot`, then a working run.
pub open spec fn working_shape(ts: Seq<crate::path::Token>) -> bool {
    ts.len() > 0 && ts[0] is TopRoot && working_run(ts.drop_first())
}

proof fn lemma_run_concat(a: Seq<crate::path::Token>, b: Seq<crate::path::Token>)
    requires
        working_run(a),
        working_run(b),
        a.len() > 0 && b.len() > 0 ==> !(a.last() is Simple && b[0] is Simple),
    ensures
        working_run(a + b),
{
    let c = a + b;
    assert forall|i: int| 0 <= i < c.len() implies working_token(#[trigger] c[i]) by {
        if i < a.len() {
            assert(c[i] == a[i]);
        } else {
            assert(c[i] == b[i - a.len()]);
        }
    }
    assert forall|i: int| 0 <= i < c.len() - 1 implies !(#[trigger] c[i] is Simple && c[i + 1] is Simple) by {
        if i + 1 < a.len() {
            assert(c[i] == a[i] && c[i + 1] == a[i + 1]);
        } else if i + 1 == a.len() {
            assert(c[i] == a.last() && c[i + 1] == b[0]);
        } else {
            assert(c[i] == b[i - a.len()] && c[i + 1] == b[i + 1 - a.len()]);
        }
    }
}

proof fn lemma_layer_tokens_shape(parts: Seq<Seq<char>>, comps: Seq<Seq<char>>)
    requires
        all_plain(comps),
    ensures
        working_run(crate::path::layer_tokens(parts, comps)),
    decreases comps.len(),
{
    let f = crate::path::flush(parts);
    assert(working_run(f)) by {
        if parts.len() > 0 {
            assert(f[0] matches crate::path::Token::Simple(p) && p.len() > 0 && p[0] == '/');
        }
    }
    if comps.len() == 0 {
    } else if comps[0] == crate::path::stratum_dir() && comps.len() >= 2 {
        let rest = comps.skip(2);
        assert forall|i: int| 0 <= i < rest.len() implies plain_component(#[trigger] rest[i]) by {
            assert(rest[i] == comps[i + 2]);
        }
        lemma_layer_tokens_shape(seq![], rest);
        let d = seq![crate::path::Token::Down(comps[1])];
        assert(plain_component(comps[1]));
        assert(working_run(d));
        lemma_run_concat(f, d);
        lemma_run_concat(f + d, crate::path::layer_tokens(seq![], rest));
        assert((f + d).last() == d[0]);
    } else {
        let rest = comps.drop_first();
        assert forall|i: int| 0 <= i < rest.len() implies plain_component(#[trigger] rest[i]) by {
            assert(rest[i] == comps[i + 1]);
        }
        lemma_layer_tokens_shape(parts.push(comps[0]), rest);
    }
}

/// **The working path's shape.** There is a working path exactly when an
/// outermost root is known and `cwd` lies below it; it is `TopRoot`
/// followed by `Simple` and `Down` tokens, never two `Simple` in a row,
/// every `Simple` path starting with `/` and every `Down` naming a single
/// plain component.
pub proof fn law_working_path_shape(cwd: Seq<char>, top: Option<Seq<char>>)
    ensures
        crate::path::cwd_spec(cwd, top) is None <==> (top is None || strip_components(
            cwd,
            top->0,
        ) is None),
        crate::path::cwd_spec(cwd, top) matches Some(ts) ==> working_shape(ts),
{
    if let Some(t) = top {
        if let Some(rel) = strip_components(cwd, t) {
            let pc = components(cwd);
            let qc = components(t);
            lemma_components_are_plain(cwd);
            assert(rel == pc.skip(qc.len() as int));
            assert forall|i: int| 0 <= i < rel.len() implies plain_component(#[trigger] rel[i]) by {
                assert(rel[i] == pc[i + qc.len()]);
            }
            lemma_layer_tokens_shape(seq![], rel);
            let ts = seq![crate::path::Token::TopRoot] + crate::path::layer_tokens(seq![], rel);
            assert(ts.drop_first() =~= crate::path::layer_tokens(seq![], rel));
        }
    }
}

proof fn lemma_climb_relative(n: nat)
    ensures
        !is_absolute(climb(n)),
        n > 0 ==> climb(n).len() > 0,
    decreases n,
{
    lemma_climb(n);
    if n > 0 {
        let m = (n - 1) as nat;
        lemma_climb_relative(m);
        lemma_join_keeps_root(climb(m), seq!['.', '.']);
        lemma_join_keeps_root(join(climb(m), seq!['.', '.']), seq!['.', '.']);
    }
}

/// Where a trailing path `x` leads from the relative path `c` that a climb
/// gives: `c` followed by the components of `x`, still relative.
proof fn lemma_after_climb(c: Seq<char>, x: Seq<char>)
    requires
        c.len() > 0,
        !is_absolute(c),
        is_absolute(x),
    ensures
        components(join(c, crate::path::relative_part(x))) == components(c) + components(x),
        !is_absolute(join(c, crate::path::relative_part(x))),
{
    let e = Seq::<char>::empty();
    lemma_first_where_at(e, is_char('/'), 0);
    assert(components(e) =~= Seq::<Seq<char>>::empty());
    assert(seq!['/'] =~= e + seq!['/'] + e);
    lemma_components_split(e, e);
    assert(components(seq!['/']) =~= Seq::<Seq<char>>::empty());
    let xc = components(x);
    assert(xc.take(0) =~= components(seq!['/']));
    assert(xc.skip(0) =~= xc);
    assert(strip_components(x, seq!['/']) == Some(xc));
    let rp = join_with(xc, seq!['/']);
    assert(crate::path::relative_part(x) == rp);
    lemma_components_are_plain(x);
    if xc.len() > 0 {
        lemma_joined_components(xc);
        assert(plain_component(xc[0]));
        lemma_components_join(c, rp);
        lemma_join_keeps_root(c, rp);
    } else {
        assert(rp =~= e);
        if c.last() == '/' {
            assert(join(c, rp) =~= c);
        } else {
            assert(join(c, rp) =~= c + seq!['/'] + e);
            lemma_components_split(c, e);
            assert(components(c) + components(e) =~= components(c));
        }
        assert(join(c, rp)[0] == c[0]);
        assert(components(c) + xc =~= components(c));
    }
}

/// **Climbing, then a path (`.stratum`).** A stratum path of `n` `<` and a
/// trailing path `x` (`<</docs/api.md`), from a directory at least `n`
/// levels deep, resolves to a relative path made of `2n` `..` components
/// followed by the components of `x`.
pub proof fn law_stratum_up_then_path(
    base: Seq<char>,
    current: Seq<char>,
    n: nat,
    x: Seq<char>,
    root: Option<Seq<char>>,
)
    requires
        0 < n <= trailing_depth(current, crate::path::stratum_dir()),
        is_absolute(x),
    ensures
        crate::path::resolve_spec(
            base,
            current,
            crate::path::ups(n) + seq![crate::path::Token::Simple(x)],
            root,
        ) matches Ok(p) && components(p) == Seq::new(2 * n, |i: int| parent_dir()) + components(x)
            && !is_absolute(p),
{
    let u = crate::path::ups(n);
    let s = seq![crate::path::Token::Simple(x)];
    let ts = u + s;
    lemma_stratum_up_count(n);
    assert(s.drop_first() =~= Seq::<crate::path::Token>::empty());
    assert(crate::path::up_count(s) == 0) by {
        assert(crate::path::up_count(s.drop_first()) == 0);
    }
    lemma_stratum_up_count_append(u, s);
    assert(ts[0] == u[0]);
    lemma_stratum_walk_append(seq![], u, s);
    lemma_stratum_walk_ups(0, n);
    lemma_climb_relative(n);
    let c = climb(n);
    assert(crate::path::walk(c, s) == crate::path::walk(crate::path::step(c, s[0]), s.drop_first()));
    lemma_after_climb(c, x);
    law_climb_components(n);
}

proof fn lemma_stratum_up_count_append(a: Seq<crate::path::Token>, b: Seq<crate::path::Token>)
    ensures
        crate::path::up_count(a + b) == crate::path::up_count(a) + crate::path::up_count(b),
    decreases a.len(),
{
    if a.len() > 0 {
        assert((a + b).drop_first() =~= a.drop_first() + b);
        lemma_stratum_up_count_append(a.drop_first(), b);
    } else {
        assert(a + b =~= b);
    }
}

proof fn lemma_estrato_up_count_append(
    a: Seq<crate::estrato::path::Token>,
    b: Seq<crate::estrato::path::Token>,
)
    ensures
        crate::estrato::path::up_count(a + b) == crate::estrato::path::up_count(a)
            + crate::estrato::path::up_count(b),
    decreases a.len(),
{
    if a.len() > 0 {
        assert((a + b).drop_first() =~= a.drop_first() + b);
        lemma_estrato_up_count_append(a.drop_first(), b);
    } else {
        assert(a + b =~= b);
    }
}

proof fn lemma_estrato_walk_append(
    p: Seq<char>,
    a: Seq<crate::estrato::path::Token>,
    b: Seq<crate::estrato::path::Token>,
)
    ensures
        crate::estrato::path::walk(p, a + b) == crate::estrato::path::walk(
            crate::estrato::path::walk(p, a),
            b,
        ),
    decreases a.len(),
{
    if a.len() > 0 {
        assert((a + b).drop_first() =~= a.drop_first() + b);
        lemma_estrato_walk_append(crate::estrato::path::step(p, a[0]), a.drop_first(), b);
    } else {
        assert(a + b =~= b);
    }
}

/// **Climbing, then a path (`.estrato`).** An estrato path of `n` `<` and a
/// trailing path `x`, from a directory at least `n` levels deep, resolves to
/// a relative path made of `2n` `..` components followed by the components
/// of `x`.
pub proof fn law_estrato_up_then_path(base: Seq<char>, current: Seq<char>, n: nat, x: Seq<char>)
    requires
        0 < n <= trailing_depth(current, estrato_dir()),
        is_absolute(x),
    ensures
        crate::estrato::path::resolve_spec(
            base,
            current,
            crate::estrato::path::ups(n) + seq![crate::estrato::path::Token::Simple(x)],
        ) matches Ok(p) && components(p) == Seq::new(2 * n, |i: int| parent_dir()) + components(x)
            && !is_absolute(p),
{
    let u = crate::estrato::path::ups(n);
    let s = seq![crate::estrato::path::Token::Simple(x)];
    let ts = u + s;
    lemma_estrato_up_count(n);
    assert(s.drop_first() =~= Seq::<crate::estrato::path::Token>::empty());
    assert(crate::estrato::path::up_count(s) == 0) by {
        assert(crate::estrato::path::up_count(s.drop_first()) == 0);
    }
    lemma_estrato_up_count_append(u, s);
    lemma_estrato_walk_append(seq![], u, s);
    lemma_estrato_walk_ups(0, n);
    lemma_climb_relative(n);
    let c = climb(n);
    assert(crate::estrato::path::walk(c, s) == crate::estrato::path::walk(
        crate::estrato::path::step(c, s[0]),
        s.drop_first(),
    ));
    lemma_after_climb(c, x);
    law_climb_components(n);
}

proof fn lemma_join_relative(c: Seq<char>, x: Seq<char>)
    requires
        !is_absolute(x),
    ensures
        components(join(c, x)) == components(c) + components(x),
{
    let e = Seq::<char>::empty();
    lemma_first_where_at(e, is_char('/'), 0);
    assert(components(e) =~= Seq::<Seq<char>>::empty());
    if x.len() > 0 {
        lemma_components_join(c, x);
    } else {
        assert(x =~= e);
        assert(components(c) + components(e) =~= components(c));
        if c.len() == 0 {
            assert(join(c, x) =~= e);
        } else if c.last() == '/' {
            assert(join(c, x) =~= c);
        } else {
            assert(join(c, x) =~= c + seq!['/'] + e);
            lemma_components_split(c, e);
        }
    }
}

proof fn lemma_relative_part(x: Seq<char>)
    ensures
        !is_absolute(crate::path::relative_part(x)),
        components(crate::path::relative_part(x)) == components(x),
{
    if is_absolute(x) {
        let e = Seq::<char>::empty();
        lemma_first_where_at(e, is_char('/'), 0);
        assert(components(e) =~= Seq::<Seq<char>>::empty());
        assert(seq!['/'] =~= e + seq!['/'] + e);
        lemma_components_split(e, e);
        assert(components(seq!['/']) =~= Seq::<Seq<char>>::empty());
        let xc = components(x);
        assert(xc.take(0) =~= components(seq!['/']));
        assert(xc.skip(0) =~= xc);
        assert(strip_components(x, seq!['/']) == Some(xc));
        let rp = join_with(xc, seq!['/']);
        assert(crate::path::relative_part(x) == rp);
        lemma_components_are_plain(x);
        if xc.len() > 0 {
            lemma_joined_components(xc);
            assert(plain_component(xc[0]));
        } else {
            assert(rp =~= e);
        }
    } else {
        assert(strip_components(x, seq!['/']) is None);
    }
}

/// What a stratum token adds to the components of a path: `.stratum` and
/// the name for a layer, `..` twice for a climb, the components of a
/// trailing path, nothing for a root.
pub open spec fn stratum_token_parts(t: crate::path::Token) -> Seq<Seq<char>> {
    match t {
        crate::path::Token::Down(n) => seq![crate::path::stratum_dir(), n],
        crate::path::Token::Up => seq![parent_dir(), parent_dir()],
        crate::path::Token::Simple(x) => components(x),
        crate::path::Token::Root => seq![],
        crate::path::Token::TopRoot => seq![],
    }
}

/// What the tokens add, one after another.
pub open spec fn stratum_parts(ts: Seq<crate::path::Token>) -> Seq<Seq<char>>
    decreases ts.len(),
{
    if ts.len() == 0 {
        seq![]
    } else {
        stratum_token_parts(ts[0]) + stratum_parts(ts.drop_first())
    }
}

/// Every layer token names a plain component.
pub open spec fn stratum_plain_layers(ts: Seq<crate::path::Token>) -> bool {
    forall|i: int| 0 <= i < ts.len() ==> (#[trigger] ts[i] matches crate::path::Token::Down(n) ==> plain_component(n))
}

proof fn lemma_stratum_walk_components(p: Seq<char>, ts: Seq<crate::path::Token>)
    requires
        stratum_plain_layers(ts),
    ensures
        components(crate::path::walk(p, ts)) == components(p) + stratum_parts(ts),
    decreases ts.len(),
{
    if ts.len() == 0 {
        assert(components(p) + stratum_parts(ts) =~= components(p));
    } else {
        let t = ts[0];
        let q = crate::path::step(p, t);
        let m = crate::path::stratum_dir();
        match t {
            crate::path::Token::Down(n) => {
                assert forall|j: int| 0 <= j < m.len() implies m[j] != '/' by {}
                assert(m != seq!['.']);
                lemma_components_down(p, m, n);
            },
            crate::path::Token::Up => {
                lemma_parent_dir_plain();
                lemma_components_down(p, parent_dir(), parent_dir());
            },
            crate::path::Token::Simple(x) => {
                lemma_relative_part(x);
                lemma_join_relative(p, crate::path::relative_part(x));
            },
            _ => {
                assert(components(q) + stratum_token_parts(t) =~= components(q));
            },
        }
        let rest = ts.drop_first();
        assert forall|i: int| 0 <= i < rest.len() implies (#[trigger] rest[i] matches crate::path::Token::Down(n)
            ==> plain_component(n)) by {
            assert(rest[i] == ts[i + 1]);
        }
        lemma_stratum_walk_components(q, rest);
        assert(components(p) + stratum_parts(ts) =~= components(p) + stratum_token_parts(t)
            + stratum_parts(rest));
    }
}

/// **Resolving walks the tokens (`.stratum`).** What `resolve` gives is the
/// starting directory (the project root for a rooted path, nothing for a
/// climbing path, `base` otherwise) followed, component by component, by
/// what each token adds: `.stratum` and the name for `>name`, `..` twice for
/// `<`, the components of a trailing path.
pub proof fn law_stratum_resolve_components(
    base: Seq<char>,
    current: Seq<char>,
    ts: Seq<crate::path::Token>,
    root: Option<Seq<char>>,
)
    requires
        stratum_plain_layers(ts),
    ensures
        crate::path::resolve_spec(base, current, ts, root) matches Ok(p) ==> components(p) == components(
            if crate::path::uses_root(ts) || crate::path::uses_top_root(ts) {
                root->0
            } else if crate::path::uses_up(ts) {
                Seq::<char>::empty()
            } else {
                base
            },
        ) + stratum_parts(ts),
{
    if let Ok(p) = crate::path::resolve_spec(base, current, ts, root) {
        if crate::path::uses_root(ts) || crate::path::uses_top_root(ts) {
            lemma_stratum_walk_components(root->0, ts);
        } else if crate::path::uses_up(ts) {
            lemma_stratum_walk_components(Seq::<char>::empty(), ts);
        } else {
            lemma_stratum_walk_components(base, ts);
        }
    }
}

/// What an estrato token adds to the components of a path: `.estrato` and
/// the name for a layer, `..` twice for a climb, the components of a
/// trailing path.
pub open spec fn estrato_token_parts(t: crate::estrato::path::Token) -> Seq<Seq<char>> {
    match t {
        crate::estrato::path::Token::Down(n) => seq![estrato_dir(), n],
        crate::estrato::path::Token::Up => seq![parent_dir(), parent_dir()],
        crate::estrato::path::Token::Simple(x) => components(x),
    }
}

/// What the tokens add, one after another.
pub open spec fn estrato_parts(ts: Seq<crate::estrato::path::Token>) -> Seq<Seq<char>>
    decreases ts.len(),
{
    if ts.len() == 0 {
        seq![]
    } else {
        estrato_token_parts(ts[0]) + estrato_parts(ts.drop_first())
    }
}

/// Every layer token names a plain component.
pub open spec fn estrato_plain_layers(ts: Seq<crate::estrato::path::Token>) -> bool {
    forall|i: int|
        0 <= i < ts.len() ==> (#[trigger] ts[i] matches crate::estrato::path::Token::Down(n) ==> plain_component(n))
}

proof fn lemma_estrato_walk_components(p: Seq<char>, ts: Seq<crate::estrato::path::Token>)
    requires
        estrato_plain_layers(ts),
    ensures
        components(crate::estrato::path::walk(p, ts)) == components(p) + estrato_parts(ts),
    decreases ts.len(),
{
    if ts.len() == 0 {
        assert(components(p) + estrato_parts(ts) =~= components(p));
    } else {
        let t = ts[0];
        let q = crate::estrato::path::step(p, t);
        let m = estrato_dir();
        match t {
            crate::estrato::path::Token::Down(n) => {
                assert forall|j: int| 0 <= j < m.len() implies m[j] != '/' by {}
                assert(m != seq!['.']);
                lemma_components_down(p, m, n);
            },
            crate::estrato::path::Token::Up => {
                lemma_parent_dir_plain();
                lemma_components_down(p, parent_dir(), parent_dir());
            },
            crate::estrato::path::Token::Simple(x) => {
                lemma_relative_part(x);
                lemma_join_relative(p, crate::path::relative_part(x));
            },
        }
        let rest = ts.drop_first();
        assert forall|i: int| 0 <= i < rest.len() implies (#[trigger] rest[i] matches crate::estrato::path::Token::Down(
            n,
        ) ==> plain_component(n)) by {
            assert(rest[i] == ts[i + 1]);
        }
        lemma_estrato_walk_components(q, rest);
        assert(components(p) + estrato_parts(ts) =~= components(p) + estrato_token_parts(t)
            + estrato_parts(rest));
    }
}

/// **Resolving walks the tokens (`.estrato`).** What `resolve` gives is the
/// starting directory (nothing for a climbing path, `base` otherwise)
/// followed, component by component, by what each token adds: `.estrato`
/// and the name for `>name`, `..` twice for `<`, the components of a
/// trailing path.
pub proof fn law_estrato_resolve_components(
    base: Seq<char>,
    current: Seq<char>,
    ts: Seq<crate::estrato::path::Token>,
)
    requires
        estrato_plain_layers(ts),
    ensures
        crate::estrato::path::resolve_spec(base, current, ts) matches Ok(p) ==> components(p) == components(
            if crate::estrato::path::up_count(ts) > 0 {
                Seq::<char>::empty()
            } else {
                base
            },
        ) + estrato_parts(ts),
{
    if let Ok(p) = crate::estrato::path::resolve_spec(base, current, ts) {
        if crate::estrato::path::up_count(ts) > 0 {
            lemma_estrato_walk_components(Seq::<char>::empty(), ts);
        } else {
            lemma_estrato_walk_components(base, ts);
        }
    }
}

} // verus!
