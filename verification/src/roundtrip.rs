//! The grammar of stratum paths, stated in the forms it is written in, and
//! the round trip: formatting a parsed path and parsing the text again gives
//! back the same tokens.
use vstd::prelude::*;
use crate::text::{first_where, find_char, lemma_first_where, lemma_first_where_at, is_char};
use crate::pathstr::{join_with, split_on};
use crate::scan::{down_scan, is_delim, leading, lemma_leading};
use crate::path::{
    ParseFault, Token, anchored_tokens, down_tokens, downs, format_spec, lemma_format_append,
    lemma_format_single, parse_spec, tail_tokens, token_text, up_tokens, ups,
};

verus! {

/// A layer name as the grammar produces it: not empty, without `>` or `/`.
pub open spec fn plain_name(n: Seq<char>) -> bool {
    n.len() > 0 && forall|i: int| 0 <= i < n.len() ==> !is_delim()(#[trigger] n[i])
}

/// Every name is a plain name.
pub open spec fn plain_names(ns: Seq<Seq<char>>) -> bool {
    forall|i: int| 0 <= i < ns.len() ==> plain_name(#[trigger] ns[i])
}

/// A trailing path: empty, or starting with `/`.
pub open spec fn tail_ok(t: Seq<char>) -> bool {
    t.len() == 0 || t[0] == '/'
}

/// What the layer scanner accepts is a `>`-joined run of plain names
/// followed by a trailing path.
proof fn lemma_scan_shape(r: Seq<char>)
    ensures
        down_scan(r) matches Some((ns, t)) ==> ns.len() >= 1 && plain_names(ns) && tail_ok(t)
            && r == join_with(ns, seq!['>']) + t,
    decreases r.len(),
{
    lemma_first_where(r, is_delim());
    match first_where(r, is_delim()) {
        None => {
            if r.len() > 0 {
                assert(r + Seq::<char>::empty() =~= r);
                assert(join_with(seq![r], seq!['>']) == r);
            }
        },
        Some(k) => {
            if 0 < k < r.len() {
                assert(plain_name(r.take(k)));
                if r[k] == '/' {
                    assert(r == r.take(k) + r.skip(k));
                    assert(join_with(seq![r.take(k)], seq!['>']) == r.take(k));
                } else {
                    lemma_scan_shape(r.skip(k + 1));
                    match down_scan(r.skip(k + 1)) {
                        Some((ns2, t2)) => {
                            let ns = seq![r.take(k)] + ns2;
                            assert(ns.drop_first() =~= ns2);
                            assert(ns[0] == r.take(k));
                            assert forall|i: int| 0 <= i < ns.len() implies plain_name(
                                #[trigger] ns[i],
                            ) by {
                                if i > 0 {
                                    assert(ns[i] == ns2[i - 1]);
                                }
                            }
                            assert(join_with(ns, seq!['>']) == r.take(k) + seq!['>'] + join_with(
                                ns2,
                                seq!['>'],
                            ));
                            assert(r =~= r.take(k) + seq!['>'] + r.skip(k + 1));
                            assert(r =~= join_with(ns, seq!['>']) + t2);
                        },
                        None => {},
                    }
                }
            }
        },
    }
}

/// The layer scanner reads a `>`-joined run of plain names followed by a
/// trailing path back as those names and that path.
proof fn lemma_scan_join(ns: Seq<Seq<char>>, t: Seq<char>)
    requires
        ns.len() >= 1,
        plain_names(ns),
        tail_ok(t),
    ensures
        down_scan(join_with(ns, seq!['>']) + t) == Some((ns, t)),
    decreases ns.len(),
{
    let n0 = ns[0];
    assert(plain_name(n0));
    let r = join_with(ns, seq!['>']) + t;
    if ns.len() == 1 {
        assert(r =~= n0 + t);
        if t.len() == 0 {
            assert forall|j: int| 0 <= j < r.len() implies !is_delim()(#[trigger] r[j]) by {
                assert(r[j] == n0[j]);
            }
            lemma_first_where_at(r, is_delim(), r.len() as int);
            assert(r =~= n0);
            assert(seq![r] =~= ns);
        } else {
            assert forall|j: int| 0 <= j < n0.len() implies !is_delim()(#[trigger] r[j]) by {
                assert(r[j] == n0[j]);
            }
            assert(r[n0.len() as int] == t[0]);
            lemma_first_where_at(r, is_delim(), n0.len() as int);
            assert(r.take(n0.len() as int) =~= n0);
            assert(r.skip(n0.len() as int) =~= t);
            assert(seq![n0] =~= ns);
        }
    } else {
        let rest = ns.drop_first();
        assert(plain_names(rest)) by {
            assert forall|i: int| 0 <= i < rest.len() implies plain_name(#[trigger] rest[i]) by {
                assert(rest[i] == ns[i + 1]);
            }
        }
        assert(join_with(ns, seq!['>']) == n0 + seq!['>'] + join_with(rest, seq!['>']));
        let r2 = join_with(rest, seq!['>']) + t;
        assert(r =~= n0 + seq!['>'] + r2);
        assert forall|j: int| 0 <= j < n0.len() implies !is_delim()(#[trigger] r[j]) by {
            assert(r[j] == n0[j]);
        }
        assert(r[n0.len() as int] == '>');
        lemma_first_where_at(r, is_delim(), n0.len() as int);
        assert(r.take(n0.len() as int) =~= n0);
        assert(r.skip(n0.len() as int + 1) =~= r2);
        lemma_scan_join(rest, t);
        assert(seq![n0] + rest =~= ns);
    }
}

/// The text of `Down` tokens is each name after a `>`.
proof fn lemma_format_downs(ns: Seq<Seq<char>>)
    requires
        ns.len() >= 1,
    ensures
        format_spec(downs(ns)) == seq!['>'] + join_with(ns, seq!['>']),
    decreases ns.len(),
{
    let d = downs(ns);
    assert(d[0] == Token::Down(ns[0]));
    assert(d.drop_first() =~= downs(ns.drop_first()));
    assert(format_spec(d) == token_text(d[0]) + format_spec(d.drop_first()));
    assert(token_text(d[0]) == seq!['>'] + ns[0]);
    if ns.len() == 1 {
        assert(downs(ns.drop_first()) =~= Seq::<Token>::empty());
        assert(format_spec(Seq::<Token>::empty()) == Seq::<char>::empty());
        assert(join_with(ns, seq!['>']) == ns[0]);
        assert(seq!['>'] + ns[0] + Seq::<char>::empty() =~= seq!['>'] + ns[0]);
    } else {
        lemma_format_downs(ns.drop_first());
        assert(seq!['>'] + ns[0] + (seq!['>'] + join_with(ns.drop_first(), seq!['>'])) =~= seq![
            '>',
        ] + (ns[0] + seq!['>'] + join_with(ns.drop_first(), seq!['>'])));
    }
}

/// The text of the trailing path that a token keeps.
spec fn kept_tail(t: Seq<char>) -> Seq<char> {
    if t.len() == 0 || t == seq!['/'] {
        seq![]
    } else {
        t
    }
}

proof fn lemma_tail(t: Seq<char>)
    requires
        tail_ok(t),
    ensures
        format_spec(tail_tokens(t)) == kept_tail(t),
        tail_tokens(kept_tail(t)) == tail_tokens(t),
        tail_ok(kept_tail(t)),
{
    if t.len() == 0 || t == seq!['/'] {
        assert(format_spec(Seq::<Token>::empty()) == Seq::<char>::empty());
    } else {
        lemma_format_single(Token::Simple(t));
    }
}

/// The text of layer tokens is a `>` followed by a text that parses back to
/// the same tokens.
proof fn lemma_down_roundtrip(r: Seq<char>)
    ensures
        down_tokens(r) matches Ok(d) ==> format_spec(d).len() > 0 && format_spec(d)[0] == '>'
            && down_tokens(format_spec(d).skip(1)) == Ok::<Seq<Token>, crate::path::ParseFault>(d),
{
    lemma_scan_shape(r);
    match down_scan(r) {
        Some((ns, t)) => {
            let d = downs(ns) + tail_tokens(t);
            lemma_format_append(downs(ns), tail_tokens(t));
            lemma_format_downs(ns);
            lemma_tail(t);
            let f = format_spec(d);
            assert(f =~= seq!['>'] + (join_with(ns, seq!['>']) + kept_tail(t)));
            assert(f.skip(1) =~= join_with(ns, seq!['>']) + kept_tail(t));
            lemma_scan_join(ns, kept_tail(t));
        },
        None => {},
    }
}

/// `n` `<` characters.
spec fn lts(n: nat) -> Seq<char> {
    Seq::new(n, |i: int| '<')
}

proof fn lemma_format_ups(n: nat)
    ensures
        format_spec(ups(n)) == lts(n),
    decreases n,
{
    if n > 0 {
        assert(ups(n).drop_first() =~= ups((n - 1) as nat));
        lemma_format_ups((n - 1) as nat);
        assert(lts(n) =~= seq!['<'] + lts((n - 1) as nat));
    } else {
        assert(lts(0) =~= Seq::<char>::empty());
    }
}

/// Formatting then parsing the tokens of a `<` path gives them back.
proof fn lemma_up_roundtrip(s: Seq<char>)
    requires
        s.len() > 0,
        s[0] == '<',
        !(s.len() >= 2 && s[1] == '*'),
    ensures
        up_tokens(s) matches Ok(t) ==> parse_spec(format_spec(t)) == Ok::<
            Seq<Token>,
            crate::path::ParseFault,
        >(t),
{
    lemma_leading(s, '<');
    let n = leading(s, '<');
    let rest = s.skip(n as int);
    if let Ok(t) = up_tokens(s) {
        assert(n >= 1);
        lemma_format_ups(n);
        let kept = if rest.len() > 1 {
            rest
        } else {
            seq![]
        };
        if rest.len() > 1 {
            assert(rest[0] == '/');
            lemma_format_append(ups(n), seq![Token::Simple(rest)]);
            lemma_format_single(Token::Simple(rest));
        } else {
            assert(t == ups(n));
        }
        let f = format_spec(t);
        assert(f =~= lts(n) + kept);
        assert(f[0] == '<');
        if f.len() >= 2 {
            if n >= 2 {
                assert(f[1] == '<');
            } else {
                assert(f[1] == kept[0]);
            }
        }
        assert forall|j: int| 0 <= j < n implies f[j] == '<' by {}
        if n < f.len() {
            assert(f[n as int] == kept[0]);
        }
        crate::scan::lemma_leading_at(f, '<', n as int);
        assert(f.skip(n as int) =~= kept);
        assert(up_tokens(f) == Ok::<Seq<Token>, crate::path::ParseFault>(t));
    }
}

/// Formatting then parsing the tokens of a rooted path gives them back.
proof fn lemma_anchored_roundtrip(anchor: Token, s: Seq<char>, rest: Seq<char>)
    requires
        anchor == Token::Root || anchor == Token::TopRoot,
    ensures
        anchored_tokens(anchor, s, rest) matches Ok(t) ==> t.len() >= 1 && t[0] == anchor
            && anchored_tokens(anchor, format_spec(t), format_spec(t.drop_first())) == Ok::<
            Seq<Token>,
            crate::path::ParseFault,
        >(t),
{
    if let Ok(t) = anchored_tokens(anchor, s, rest) {
        if rest.len() == 0 {
            assert(t.drop_first() =~= Seq::<Token>::empty());
        } else if rest[0] == '/' {
            lemma_first_where(rest, is_char('>'));
            match find_char(rest, '>') {
                Some(g) => {
                    let lead = rest.take(g);
                    let d = down_tokens(rest.skip(g + 1))->Ok_0;
                    lemma_down_roundtrip(rest.skip(g + 1));
                    let fd = format_spec(d);
                    let y = fd.skip(1);
                    assert(fd =~= seq!['>'] + y);
                    if lead.len() > 0 && lead != seq!['/'] {
                        let pre = seq![Token::Simple(lead)];
                        assert(t =~= seq![anchor] + (pre + d));
                        assert(t.drop_first() =~= pre + d);
                        lemma_format_append(pre, d);
                        lemma_format_single(Token::Simple(lead));
                        let x = format_spec(t.drop_first());
                        assert(x =~= lead + (seq!['>'] + y));
                        assert(x[0] == '/');
                        assert forall|j: int| 0 <= j < lead.len() implies !is_char('>')(
                            #[trigger] x[j],
                        ) by {
                            assert(x[j] == rest[j]);
                        }
                        assert(x[lead.len() as int] == '>');
                        lemma_first_where_at(x, is_char('>'), lead.len() as int);
                        assert(x.take(lead.len() as int) =~= lead);
                        assert(x.skip(lead.len() as int + 1) =~= y);
                    } else {
                        assert(lead.len() > 0);
                        assert(t =~= seq![anchor] + d);
                        assert(t.drop_first() =~= d);
                        assert(format_spec(t.drop_first())[0] == '>');
                    }
                },
                None => {
                    assert(t.drop_first() =~= seq![Token::Simple(rest)]);
                    lemma_format_single(Token::Simple(rest));
                },
            }
        } else if rest[0] == '>' {
            let d = down_tokens(rest.skip(1))->Ok_0;
            lemma_down_roundtrip(rest.skip(1));
            assert(t.drop_first() =~= d);
        }
        let x = format_spec(t.drop_first());
        assert(t[0] == anchor);
    }
}

/// **Round trip.** Whatever `parse_path` accepts, `format_path` writes back as
/// a text that `parse_path` reads as the same tokens.
pub proof fn law_format_then_parse(s: Seq<char>)
    ensures
        parse_spec(s) matches Ok(t) ==> parse_spec(format_spec(t)) == Ok::<
            Seq<Token>,
            crate::path::ParseFault,
        >(t),
{
    if let Ok(t) = parse_spec(s) {
        if s[0] == '>' {
            lemma_down_roundtrip(s.skip(1));
        } else if s.len() >= 2 && s[0] == '<' && s[1] == '*' {
            lemma_anchored_roundtrip(Token::Root, s, s.skip(2));
            let f = format_spec(t);
            assert(f =~= token_text(Token::Root) + format_spec(t.drop_first()));
            assert(f.skip(2) =~= format_spec(t.drop_first()));
        } else if s[0] == '<' {
            lemma_up_roundtrip(s);
        } else if s[0] == '*' {
            lemma_anchored_roundtrip(Token::TopRoot, s, s.skip(1));
            let f = format_spec(t);
            assert(f =~= token_text(Token::TopRoot) + format_spec(t.drop_first()));
            assert(f.skip(1) =~= format_spec(t.drop_first()));
        } else {
            lemma_format_single(Token::Simple(s));
        }
    }
}

/// **`*` and `<*` read alike.** A text after `*` and the same text after
/// `<*` give the same tokens after the first one, `TopRoot` for `*` and
/// `Root` for `<*`, or the same error; a syntax error names the whole text.
pub proof fn law_rooted_forms_agree(r: Seq<char>)
    ensures
        ({
            let a = seq!['*'] + r;
            let b = seq!['<', '*'] + r;
            match (parse_spec(a), parse_spec(b)) {
                (Ok(x), Ok(y)) => x.len() > 0 && y.len() > 0 && x[0] == Token::TopRoot && y[0]
                    == Token::Root && x.drop_first() == y.drop_first(),
                (Err(ParseFault::InvalidSyntax(p)), Err(ParseFault::InvalidSyntax(q))) => p == a && q
                    == b,
                (Err(e), Err(f)) => e == f,
                _ => false,
            }
        }),
{
    let a = seq!['*'] + r;
    let b = seq!['<', '*'] + r;
    assert(a.skip(1) =~= r);
    assert(b.skip(2) =~= r);
    assert(a[0] == '*');
    assert(b[0] == '<' && b[1] == '*');
    if let Ok(x) = parse_spec(a) {
        if let Ok(y) = parse_spec(b) {
            assert(x.drop_first() =~= y.drop_first());
        }
    }
}

/// **Up tokens.** A text that starts with `<` but not `<*` reads as one
/// `Up` per leading `<`, followed by nothing or by a trailing path that
/// starts with `/` (a `Simple` token, unless it is a lone `/`); anything
/// else after the `<`s is a syntax error that names the whole text.
pub proof fn law_up_grammar(s: Seq<char>)
    requires
        s.len() > 0,
        s[0] == '<',
        !(s.len() >= 2 && s[1] == '*'),
    ensures
        ({
            let k = leading(s, '<');
            let rest = s.skip(k as int);
            &&& k <= s.len()
            &&& forall|j: int| 0 <= j < k ==> s[j] == '<'
            &&& rest.len() > 0 ==> rest[0] != '<'
            &&& parse_spec(s) == if rest.len() == 0 || rest[0] == '/' {
                Ok::<Seq<Token>, ParseFault>(
                    ups(k) + if rest.len() > 1 {
                        seq![Token::Simple(rest)]
                    } else {
                        Seq::<Token>::empty()
                    },
                )
            } else {
                Err::<Seq<Token>, ParseFault>(ParseFault::InvalidSyntax(s))
            }
        }),
{
    lemma_leading(s, '<');
    let k = leading(s, '<');
    assert(ups(k) + Seq::<Token>::empty() =~= ups(k));
}

/// Where the trailing path of a text after `>` begins: at its first `/`,
/// or at its end.
pub open spec fn slash_at(r: Seq<char>) -> int {
    match find_char(r, '/') {
        Some(k) => k,
        None => r.len() as int,
    }
}

/// Some name is empty.
pub open spec fn has_empty(ns: Seq<Seq<char>>) -> bool {
    exists|i: int| 0 <= i < ns.len() && #[trigger] ns[i].len() == 0
}

proof fn lemma_no_delim(r: Seq<char>, k: int)
    requires
        0 <= k <= r.len(),
        forall|j: int| 0 <= j < k ==> !is_delim()(#[trigger] r[j]),
    ensures
        forall|j: int| 0 <= j < k ==> !is_char('/')(#[trigger] r[j]) && !is_char('>')(r[j]),
{
    assert forall|j: int| 0 <= j < k implies !is_char('/')(#[trigger] r[j]) && !is_char('>')(r[j]) by {
        assert(!is_delim()(r[j]));
    }
}

proof fn lemma_down_scan_split(r: Seq<char>)
    ensures
        down_scan(r) == (if has_empty(split_on(r.take(slash_at(r)), '>')) {
            None::<(Seq<Seq<char>>, Seq<char>)>
        } else {
            Some((split_on(r.take(slash_at(r)), '>'), r.skip(slash_at(r))))
        }),
    decreases r.len(),
{
    lemma_first_where(r, is_delim());
    let e = Seq::<char>::empty();
    lemma_first_where_at(e, is_char('>'), 0);
    match first_where(r, is_delim()) {
        None => {
            lemma_no_delim(r, r.len() as int);
            lemma_first_where_at(r, is_char('/'), r.len() as int);
            lemma_first_where_at(r, is_char('>'), r.len() as int);
            assert(r.take(r.len() as int) =~= r);
            assert(r.skip(r.len() as int) =~= e);
            let ns = split_on(r, '>');
            assert(ns == seq![r]);
            if r.len() == 0 {
                assert(ns[0].len() == 0);
            } else {
                assert(!has_empty(ns));
            }
        },
        Some(k) => {
            lemma_no_delim(r, k);
            if k == 0 {
                if r[0] == '/' {
                    lemma_first_where_at(r, is_char('/'), 0);
                    assert(r.take(0) =~= e);
                    assert(split_on(e, '>') == seq![e]);
                    assert(split_on(e, '>')[0].len() == 0);
                } else {
                    let sl = slash_at(r);
                    lemma_first_where(r, is_char('/'));
                    assert(sl >= 1);
                    let h = r.take(sl);
                    lemma_first_where_at(h, is_char('>'), 0);
                    assert(h.take(0) =~= e);
                    assert(split_on(h, '>')[0].len() == 0);
                }
            } else if r[k] == '/' {
                lemma_first_where_at(r, is_char('/'), k);
                let h = r.take(k);
                assert forall|j: int| 0 <= j < h.len() implies !is_char('>')(#[trigger] h[j]) by {
                    assert(h[j] == r[j]);
                }
                lemma_first_where_at(h, is_char('>'), h.len() as int);
                assert(split_on(h, '>') == seq![h]);
                assert(!has_empty(split_on(h, '>')));
            } else {
                let r2 = r.skip(k + 1);
                lemma_down_scan_split(r2);
                let s2 = slash_at(r2);
                lemma_first_where(r2, is_char('/'));
                let sl = k + 1 + s2;
                assert forall|j: int| 0 <= j < sl implies !is_char('/')(#[trigger] r[j]) by {
                    if j > k {
                        assert(r[j] == r2[j - k - 1]);
                    }
                }
                if s2 < r2.len() {
                    assert(r[sl] == r2[s2]);
                }
                lemma_first_where_at(r, is_char('/'), sl);
                assert(slash_at(r) == sl);
                let h = r.take(sl);
                let h2 = r2.take(s2);
                assert forall|j: int| 0 <= j < k implies !is_char('>')(#[trigger] h[j]) by {
                    assert(h[j] == r[j]);
                }
                assert(h[k] == '>');
                lemma_first_where_at(h, is_char('>'), k);
                assert(h.take(k) =~= r.take(k));
                assert(h.skip(k + 1) =~= h2);
                assert(r.skip(sl) =~= r2.skip(s2));
                let ns = split_on(h, '>');
                let ns2 = split_on(h2, '>');
                assert(ns == seq![r.take(k)] + ns2);
                if has_empty(ns2) {
                    let i = choose|i: int| 0 <= i < ns2.len() && #[trigger] ns2[i].len() == 0;
                    assert(ns[i + 1] == ns2[i]);
                }
                if has_empty(ns) {
                    let i = choose|i: int| 0 <= i < ns.len() && #[trigger] ns[i].len() == 0;
                    assert(i != 0);
                    assert(ns2[i - 1] == ns[i]);
                }
            }
        },
    }
}

/// **Down tokens.** After a leading `>`, the text up to its first `/` is
/// split at each `>` into layer names: with an empty name it is refused,
/// otherwise each name becomes a `Down` token, and the text from the first
/// `/` on is a trailing path (a `Simple` token, unless it is empty or a lone
/// `/`).
pub proof fn law_down_grammar(r: Seq<char>)
    ensures
        down_tokens(r) == (if has_empty(split_on(r.take(slash_at(r)), '>')) {
            Err::<Seq<Token>, ParseFault>(ParseFault::InvalidSegment(seq![]))
        } else {
            Ok::<Seq<Token>, ParseFault>(
                downs(split_on(r.take(slash_at(r)), '>')) + tail_tokens(r.skip(slash_at(r))),
            )
        }),
{
    lemma_down_scan_split(r);
}

/// A trailing path token: a `Simple` whose path starts with `/`.
pub open spec fn trailing_simple(t: Token) -> bool {
    t matches Token::Simple(p) && p.len() > 0 && p[0] == '/'
}

/// No token, or one trailing path token.
pub open spec fn opt_trailing(ts: Seq<Token>) -> bool {
    ts.len() <= 1 && (ts.len() == 1 ==> trailing_simple(ts[0]))
}

/// `Down` tokens, each naming a plain layer name.
pub open spec fn layer_downs(ts: Seq<Token>) -> bool {
    forall|i: int| 0 <= i < ts.len() ==> (#[trigger] ts[i] matches Token::Down(n) && plain_name(n))
}

/// The shapes of the token lists that `parse_path` gives: a lone `Simple`;
/// one or more `Up` and an optional trailing path; a root, an optional
/// trailing path and then, optionally, layers with an optional trailing
/// path; or one or more layers with an optional trailing path.
pub open spec fn accepted_shape(ts: Seq<Token>) -> bool {
    ||| ts.len() == 1 && ts[0] is Simple
    ||| exists|n: nat, tail: Seq<Token>| n > 0 && opt_trailing(tail) && ts == ups(n) + tail
    ||| exists|x: Token, pre: Seq<Token>, ds: Seq<Token>, tail: Seq<Token>|
        (x is Root || x is TopRoot) && opt_trailing(pre) && layer_downs(ds) && opt_trailing(tail) && (
        ds.len() == 0 ==> tail.len() == 0) && ts == seq![x] + pre + ds + tail
    ||| exists|ds: Seq<Token>, tail: Seq<Token>|
        ds.len() > 0 && layer_downs(ds) && opt_trailing(tail) && ts == ds + tail
}

proof fn lemma_down_shape(r: Seq<char>)
    ensures
        down_tokens(r) matches Ok(d) ==> exists|ds: Seq<Token>, tail: Seq<Token>|
            ds.len() > 0 && layer_downs(ds) && opt_trailing(tail) && d == ds + tail,
{
    lemma_scan_shape(r);
    if let Some((ns, t)) = down_scan(r) {
        let ds = downs(ns);
        let tail = tail_tokens(t);
        assert(layer_downs(ds)) by {
            assert forall|i: int| 0 <= i < ds.len() implies (#[trigger] ds[i] matches Token::Down(n)
                && plain_name(n)) by {
                assert(ds[i] == Token::Down(ns[i]));
                assert(plain_name(ns[i]));
            }
        }
        assert(opt_trailing(tail));
        assert(ds.len() > 0);
    }
}

/// **What `parse_path` accepts.** Every token list that parsing gives has
/// one of the shapes of `accepted_shape`: layer names are plain (not empty,
/// without `>` or `/`), and every trailing path after the first token
/// starts with `/`.
pub proof fn law_accepted_shapes(s: Seq<char>)
    ensures
        parse_spec(s) matches Ok(ts) ==> accepted_shape(ts),
{
    if let Ok(ts) = parse_spec(s) {
        if s[0] == '>' {
            lemma_down_shape(s.skip(1));
        } else if (s.len() >= 2 && s[0] == '<' && s[1] == '*') || s[0] == '*' {
            let anchor = if s[0] == '*' {
                Token::TopRoot
            } else {
                Token::Root
            };
            let rest = if s[0] == '*' {
                s.skip(1)
            } else {
                s.skip(2)
            };
            let e = Seq::<Token>::empty();
            if rest.len() == 0 {
                assert(ts =~= seq![anchor] + e + e + e);
            } else if rest[0] == '/' {
                match find_char(rest, '>') {
                    Some(g) => {
                        let lead = rest.take(g);
                        let pre = if lead.len() > 0 && lead != seq!['/'] {
                            seq![Token::Simple(lead)]
                        } else {
                            e
                        };
                        lemma_first_where(rest, is_char('>'));
                        if lead.len() > 0 {
                            assert(lead[0] == '/');
                        }
                        lemma_down_shape(rest.skip(g + 1));
                        let d = down_tokens(rest.skip(g + 1))->Ok_0;
                        let (ds, tail) = choose|ds: Seq<Token>, tail: Seq<Token>|
                            ds.len() > 0 && layer_downs(ds) && opt_trailing(tail) && d == ds + tail;
                        assert(ts =~= seq![anchor] + pre + ds + tail);
                        assert(opt_trailing(pre));
                    },
                    None => {
                        assert(ts =~= seq![anchor] + seq![Token::Simple(rest)] + e + e);
                        assert(opt_trailing(seq![Token::Simple(rest)]));
                    },
                }
            } else {
                lemma_down_shape(rest.skip(1));
                let d = down_tokens(rest.skip(1))->Ok_0;
                let (ds, tail) = choose|ds: Seq<Token>, tail: Seq<Token>|
                    ds.len() > 0 && layer_downs(ds) && opt_trailing(tail) && d == ds + tail;
                assert(ts =~= seq![anchor] + e + ds + tail);
            }
        } else if s[0] == '<' {
            lemma_leading(s, '<');
            let n = leading(s, '<');
            let rest = s.skip(n as int);
            let e = Seq::<Token>::empty();
            if rest.len() > 1 {
                assert(ts =~= ups(n) + seq![Token::Simple(rest)]);
                assert(opt_trailing(seq![Token::Simple(rest)]));
            } else {
                assert(ts =~= ups(n) + e);
            }
        }
    }
}

} // verus!
