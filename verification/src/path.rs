//! Stratum path expressions: parsing (`>a>b/src`, `<</docs`, `<*/x>impl`,
//! `*/x`, plain paths), formatting back to text, and resolution against a
//! base directory, the current depth and the project root.
use vstd::prelude::*;
use crate::text::{chars_of, copy_range, extend_chars, same_chars, find_char, find_from, lemma_first_where, is_char, string_of, string_range, views};
use crate::pathstr::{count_trailing_layers, join, join_parts, join_path, join_with, trailing_depth, strip_components, strip_components_of, strip_prefix, strip_prefix_chars};
use crate::scan::{count_leading, down_scan, leading, scan_down};

verus! {

/// A single token in a stratum path expression.
#[derive(Debug, PartialEq, Eq, Clone)]
pub enum PathToken {
    /// `>name`: into `.stratum/<name>`.
    Down(String),
    /// `<`: up one stratum level (`../..`).
    Up,
    /// `<*`: the project root (nearest `.git` ancestor).
    Root,
    /// `*`: the outermost `.git` ancestor.
    TopRoot,
    /// A traditional path, joined as it is.
    Simple(String),
}

/// A parsed stratum path: tokens resolved left to right.
pub type StratumPath = Vec<PathToken>;

/// What a `PathToken` denotes.
pub enum Token {
    Down(Seq<char>),
    Up,
    Root,
    TopRoot,
    Simple(Seq<char>),
}

impl View for PathToken {
    type V = Token;

    open spec fn view(&self) -> Token {
        match self {
            PathToken::Down(n) => Token::Down(n@),
            PathToken::Up => Token::Up,
            PathToken::Root => Token::Root,
            PathToken::TopRoot => Token::TopRoot,
            PathToken::Simple(p) => Token::Simple(p@),
        }
    }
}

/// The tokens a sequence of `PathToken`s denotes.
pub open spec fn tokens_view(ts: Seq<PathToken>) -> Seq<Token> {
    ts.map_values(|t: PathToken| t@)
}

/// Pushing a token pushes what it denotes.
pub proof fn lemma_tokens_push(ts: Seq<PathToken>, t: PathToken)
    ensures
        tokens_view(ts.push(t)) == tokens_view(ts).push(t@),
{
    assert(tokens_view(ts.push(t)) =~= tokens_view(ts).push(t@));
}

/// Why a text is not a stratum path.
#[derive(Debug, PartialEq, Eq)]
pub enum ParseError {
    Empty,
    InvalidSegment(String),
    InvalidSyntax(String),
}

/// What a `ParseError` denotes.
pub enum ParseFault {
    Empty,
    InvalidSegment(Seq<char>),
    InvalidSyntax(Seq<char>),
}

impl View for ParseError {
    type V = ParseFault;

    open spec fn view(&self) -> ParseFault {
        match self {
            ParseError::Empty => ParseFault::Empty,
            ParseError::InvalidSegment(s) => ParseFault::InvalidSegment(s@),
            ParseError::InvalidSyntax(s) => ParseFault::InvalidSyntax(s@),
        }
    }
}

/// `Down` tokens for each name.
pub open spec fn downs(names: Seq<Seq<char>>) -> Seq<Token> {
    names.map_values(|n: Seq<char>| Token::Down(n))
}

/// The token a trailing path contributes: none when it is empty or a lone `/`.
pub open spec fn tail_tokens(tail: Seq<char>) -> Seq<Token> {
    if tail.len() == 0 || tail == seq!['/'] {
        seq![]
    } else {
        seq![Token::Simple(tail)]
    }
}

/// The tokens of the text after a leading `>`.
pub open spec fn down_tokens(r: Seq<char>) -> Result<Seq<Token>, ParseFault> {
    match down_scan(r) {
        Some((names, tail)) => Ok(downs(names) + tail_tokens(tail)),
        None => Err(ParseFault::InvalidSegment(seq![])),
    }
}

/// `n` `Up` tokens.
pub open spec fn ups(n: nat) -> Seq<Token> {
    Seq::new(n, |i: int| Token::Up)
}

/// The tokens of a text that starts with `<` (and not `<*`): one `Up` per
/// leading `<`, then nothing, or a trailing path that begins with `/`.
pub open spec fn up_tokens(s: Seq<char>) -> Result<Seq<Token>, ParseFault> {
    let n = leading(s, '<');
    let rest = s.skip(n as int);
    if rest.len() == 0 {
        Ok(ups(n))
    } else if rest[0] == '/' {
        if rest.len() > 1 {
            Ok(ups(n) + seq![Token::Simple(rest)])
        } else {
            Ok(ups(n))
        }
    } else {
        Err(ParseFault::InvalidSyntax(s))
    }
}

/// The tokens of a text that starts with a root marker (`<*` or `*`) that
/// stands for `anchor`; `rest` is what follows the marker: nothing, a
/// trailing path, a path followed by layers, or layers.
pub open spec fn anchored_tokens(anchor: Token, s: Seq<char>, rest: Seq<char>) -> Result<
    Seq<Token>,
    ParseFault,
> {
    if rest.len() == 0 {
        Ok(seq![anchor])
    } else if rest[0] == '/' {
        match find_char(rest, '>') {
            Some(g) => {
                let lead = rest.take(g);
                let pre = if lead.len() > 0 && lead != seq!['/'] {
                    seq![Token::Simple(lead)]
                } else {
                    seq![]
                };
                match down_tokens(rest.skip(g + 1)) {
                    Ok(d) => Ok(seq![anchor] + pre + d),
                    Err(e) => Err(e),
                }
            },
            None => Ok(seq![anchor, Token::Simple(rest)]),
        }
    } else if rest[0] == '>' {
        match down_tokens(rest.skip(1)) {
            Ok(d) => Ok(seq![anchor] + d),
            Err(e) => Err(e),
        }
    } else {
        Err(ParseFault::InvalidSyntax(s))
    }
}

/// The tokens of a stratum path expression.
pub open spec fn parse_spec(s: Seq<char>) -> Result<Seq<Token>, ParseFault> {
    if s.len() == 0 {
        Err(ParseFault::Empty)
    } else if s[0] == '>' {
        down_tokens(s.skip(1))
    } else if s.len() >= 2 && s[0] == '<' && s[1] == '*' {
        anchored_tokens(Token::Root, s, s.skip(2))
    } else if s[0] == '<' {
        up_tokens(s)
    } else if s[0] == '*' {
        anchored_tokens(Token::TopRoot, s, s.skip(1))
    } else {
        Ok(seq![Token::Simple(s)])
    }
}

/// Whether a parse result is the one `spec` describes.
pub open spec fn parsed_as(
    r: Result<StratumPath, ParseError>,
    spec: Result<Seq<Token>, ParseFault>,
) -> bool {
    match r {
        Ok(t) => spec == Ok::<Seq<Token>, ParseFault>(tokens_view(t@)),
        Err(e) => spec == Err::<Seq<Token>, ParseFault>(e@),
    }
}

/// Parses a stratum path string into a token sequence.
///
/// - Starts with `>`: `Down` tokens, and a `Simple` from the first `/` on.
/// - Starts with `<*`: `Root`, then an optional `Simple` and `Down` tokens.
/// - Starts with `<`: `Up` tokens, and a `Simple` from a following `/` on.
/// - Starts with `*`: `TopRoot`, then an optional `Simple` and `Down` tokens.
/// - Anything else: a single `Simple` token (a traditional path).
pub fn parse_path(s: &str) -> (r: Result<StratumPath, ParseError>)
    ensures
        parsed_as(r, parse_spec(s@)),
{
    let v = chars_of(s);
    if v.len() == 0 {
        return Err(ParseError::Empty);
    }
    if v[0] == '>' {
        return parse_down_tokens(&v, 1);
    }
    if v.len() >= 2 && v[0] == '<' && v[1] == '*' {
        return parse_root_token(&v);
    }
    if v[0] == '<' {
        return parse_up_tokens(&v);
    }
    if v[0] == '*' {
        return parse_top_root_token(&v);
    }
    let mut out: StratumPath = Vec::new();
    out.push(PathToken::Simple(string_of(&v)));
    assert(tokens_view(out@) =~= seq![Token::Simple(v@)]);
    Ok(out)
}

/// `Down` tokens for `names`, appended to `out`.
fn push_downs(out: &mut StratumPath, names: &Vec<Vec<char>>)
    ensures
        tokens_view(final(out)@) == tokens_view(old(out)@) + downs(views(names@)),
{
    let ghost start = tokens_view(out@);
    let mut i: usize = 0;
    while i < names.len()
        invariant
            i <= names.len(),
            tokens_view(out@) == start + downs(views(names@).take(i as int)),
        decreases names.len() - i,
    {
        let ghost before = out@;
        let t = PathToken::Down(string_of(&names[i]));
        out.push(t);
        proof {
            lemma_tokens_push(before, t);
            assert(downs(views(names@).take(i + 1)) =~= downs(views(names@).take(i as int)).push(
                Token::Down(names[i as int]@),
            ));
        }
        i = i + 1;
    }
    assert(views(names@).take(i as int) =~= views(names@));
}

/// Appends the tokens of `v[from..]`, the text after a leading `>`, to `out`.
fn append_down_tokens(v: &Vec<char>, from: usize, out: &mut StratumPath) -> (r: Result<
    (),
    ParseError,
>)
    requires
        from <= v.len(),
    ensures
        match down_tokens(v@.skip(from as int)) {
            Ok(d) => r is Ok && tokens_view(final(out)@) == tokens_view(old(out)@) + d,
            Err(f) => r matches Err(e) && e@ == f,
        },
{
    match scan_down(v, from) {
        None => {
            let e = String::new();
            assert(e@ =~= Seq::<char>::empty());
            Err(ParseError::InvalidSegment(e))
        },
        Some((names, t)) => {
            let ghost start = tokens_view(out@);
            push_downs(out, &names);
            let ghost tail = v@.skip(t as int);
            let ghost before = out@;
            if t < v.len() && !(t + 1 == v.len() && v[t] == '/') {
                let p = PathToken::Simple(string_range(v, t, v.len()));
                out.push(p);
                proof {
                    lemma_tokens_push(before, p);
                    assert(v@.subrange(t as int, v.len() as int) == tail);
                    if tail == seq!['/'] {
                        assert(tail.len() == 1);
                        assert(tail[0] == v@[t as int]);
                    }
                    assert(tail_tokens(tail) == seq![Token::Simple(tail)]);
                }
            } else {
                proof {
                    if t < v.len() {
                        assert(tail =~= seq!['/']);
                    }
                    assert(tail_tokens(tail) =~= Seq::<Token>::empty());
                }
            }
            assert(tokens_view(out@) =~= start + (downs(views(names@)) + tail_tokens(tail)));
            Ok(())
        },
    }
}

/// The tokens of `v[from..]`, the text after a leading `>`.
fn parse_down_tokens(v: &Vec<char>, from: usize) -> (r: Result<StratumPath, ParseError>)
    requires
        from <= v.len(),
    ensures
        parsed_as(r, down_tokens(v@.skip(from as int))),
{
    let mut out: StratumPath = Vec::new();
    assert(tokens_view(out@) =~= Seq::<Token>::empty());
    match append_down_tokens(v, from, &mut out) {
        Ok(()) => {
            assert(Seq::<Token>::empty() + tokens_view(out@) =~= tokens_view(out@));
            Ok(out)
        },
        Err(e) => Err(e),
    }
}

/// The tokens of `v`, a text that starts with `<` but not `<*`.
fn parse_up_tokens(v: &Vec<char>) -> (r: Result<StratumPath, ParseError>)
    ensures
        parsed_as(r, up_tokens(v@)),
{
    let n = count_leading(v, 0, '<');
    assert(v@.skip(0) == v@);
    let mut out: StratumPath = Vec::new();
    let mut i: usize = 0;
    while i < n
        invariant
            i <= n,
            tokens_view(out@) == ups(i as nat),
        decreases n - i,
    {
        let ghost before = out@;
        out.push(PathToken::Up);
        proof {
            lemma_tokens_push(before, PathToken::Up);
            assert(ups((i + 1) as nat) =~= ups(i as nat).push(Token::Up));
        }
        i = i + 1;
    }
    let ghost rest = v@.skip(n as int);
    if n < v.len() && v[n] == '/' {
        assert(rest[0] == v@[n as int]);
        if n + 1 < v.len() {
            let ghost before = out@;
            let p = PathToken::Simple(string_range(v, n, v.len()));
            out.push(p);
            proof {
                lemma_tokens_push(before, p);
                assert(v@.subrange(n as int, v.len() as int) == rest);
                assert(tokens_view(out@) =~= ups(n as nat) + seq![Token::Simple(rest)]);
            }
        }
        assert(rest.len() == v.len() - n);
        Ok(out)
    } else if n < v.len() {
        assert(rest[0] == v@[n as int]);
        Err(ParseError::InvalidSyntax(string_of(v)))
    } else {
        Ok(out)
    }
}

/// The tokens of `v`, whose first `skip` characters are a root marker that
/// stands for `anchor` (see `anchored_tokens`).
fn parse_anchored(v: &Vec<char>, skip: usize, anchor: PathToken) -> (r: Result<
    StratumPath,
    ParseError,
>)
    requires
        skip <= v.len(),
    ensures
        parsed_as(r, anchored_tokens(anchor@, v@, v@.skip(skip as int))),
{
    let ghost rest = v@.skip(skip as int);
    let mut out: StratumPath = Vec::new();
    out.push(anchor);
    assert(tokens_view(out@) =~= seq![anchor@]);
    if skip == v.len() {
        assert(rest.len() == 0);
        return Ok(out);
    }
    assert(rest[0] == v@[skip as int]);
    if v[skip] == '/' {
        let gt = find_from(v, '>', skip);
        match gt {
            Some(g) => {
                proof {
                    lemma_first_where(rest, is_char('>'));
                }
                let ghost lead = rest.take(g - skip);
                assert(lead == v@.subrange(skip as int, g as int));
                let ghost before = out@;
                if !(g == skip + 1) {
                    let p = PathToken::Simple(string_range(v, skip, g));
                    out.push(p);
                    proof {
                        lemma_tokens_push(before, p);
                        assert(lead.len() > 1);
                        assert(lead != seq!['/']);
                    }
                } else {
                    assert(lead =~= seq!['/']);
                }
                assert(rest.skip(g - skip + 1) == v@.skip(g + 1));
                proof {
                    if lead.len() > 0 && lead != seq!['/'] {
                        assert(tokens_view(out@) =~= seq![anchor@] + seq![Token::Simple(lead)]);
                    } else {
                        assert(tokens_view(out@) =~= seq![anchor@] + Seq::<Token>::empty());
                    }
                }
                match append_down_tokens(v, g + 1, &mut out) {
                    Ok(()) => Ok(out),
                    Err(e) => Err(e),
                }
            },
            None => {
                let p = PathToken::Simple(string_range(v, skip, v.len()));
                out.push(p);
                assert(v@.subrange(skip as int, v.len() as int) == rest);
                assert(tokens_view(out@) =~= seq![anchor@, Token::Simple(rest)]);
                Ok(out)
            },
        }
    } else if v[skip] == '>' {
        assert(rest.skip(1) == v@.skip(skip + 1));
        match append_down_tokens(v, skip + 1, &mut out) {
            Ok(()) => Ok(out),
            Err(e) => Err(e),
        }
    } else {
        Err(ParseError::InvalidSyntax(string_of(v)))
    }
}

/// The tokens of `v`, a text that starts with `<*`.
fn parse_root_token(v: &Vec<char>) -> (r: Result<StratumPath, ParseError>)
    requires
        v.len() >= 2,
    ensures
        parsed_as(r, anchored_tokens(Token::Root, v@, v@.skip(2))),
{
    parse_anchored(v, 2, PathToken::Root)
}

/// The tokens of `v`, a text that starts with `*`.
fn parse_top_root_token(v: &Vec<char>) -> (r: Result<StratumPath, ParseError>)
    requires
        v.len() >= 1,
    ensures
        parsed_as(r, anchored_tokens(Token::TopRoot, v@, v@.skip(1))),
{
    parse_anchored(v, 1, PathToken::TopRoot)
}

/// The text of one token.
pub open spec fn token_text(t: Token) -> Seq<char> {
    match t {
        Token::Down(n) => seq!['>'] + n,
        Token::Up => seq!['<'],
        Token::Root => seq!['<', '*'],
        Token::TopRoot => seq!['*'],
        Token::Simple(p) => p,
    }
}

/// The text of a token sequence: the texts of its tokens, in order.
pub open spec fn format_spec(ts: Seq<Token>) -> Seq<char>
    decreases ts.len(),
{
    if ts.len() == 0 {
        seq![]
    } else {
        token_text(ts[0]) + format_spec(ts.drop_first())
    }
}

/// Formatting distributes over concatenation.
pub proof fn lemma_format_append(a: Seq<Token>, b: Seq<Token>)
    ensures
        format_spec(a + b) == format_spec(a) + format_spec(b),
    decreases a.len(),
{
    if a.len() == 0 {
        assert(a + b =~= b);
    } else {
        assert((a + b).drop_first() =~= a.drop_first() + b);
        lemma_format_append(a.drop_first(), b);
        assert(token_text(a[0]) + (format_spec(a.drop_first()) + format_spec(b)) =~= (token_text(
            a[0],
        ) + format_spec(a.drop_first())) + format_spec(b));
    }
}

/// The text of a single token sequence is the token's text.
pub proof fn lemma_format_single(t: Token)
    ensures
        format_spec(seq![t]) == token_text(t),
{
    assert(seq![t].drop_first() =~= Seq::<Token>::empty());
    assert(format_spec(seq![t].drop_first()) == Seq::<char>::empty());
    assert(token_text(t) + Seq::<char>::empty() =~= token_text(t));
}

/// Formats a `StratumPath` back to its string representation.
pub fn format_path(tokens: &StratumPath) -> (s: String)
    ensures
        s@ == format_spec(tokens_view(tokens@)),
{
    let ghost ts = tokens_view(tokens@);
    let mut out: Vec<char> = Vec::new();
    let mut i: usize = 0;
    while i < tokens.len()
        invariant
            i <= tokens.len(),
            ts == tokens_view(tokens@),
            out@ == format_spec(ts.take(i as int)),
        decreases tokens.len() - i,
    {
        let ghost before = out@;
        match &tokens[i] {
            PathToken::Down(name) => {
                out.push('>');
                let n = chars_of(name.as_str());
                extend_chars(&mut out, &n);
            },
            PathToken::Up => {
                out.push('<');
            },
            PathToken::Root => {
                out.push('<');
                out.push('*');
            },
            PathToken::TopRoot => {
                out.push('*');
            },
            PathToken::Simple(p) => {
                let c = chars_of(p.as_str());
                extend_chars(&mut out, &c);
            },
        }
        proof {
            assert(out@ =~= before + token_text(ts[i as int]));
            assert(ts.take(i + 1) =~= ts.take(i as int) + seq![ts[i as int]]);
            lemma_format_append(ts.take(i as int), seq![ts[i as int]]);
            lemma_format_single(ts[i as int]);
        }
        i = i + 1;
    }
    assert(ts.take(i as int) =~= ts);
    string_of(&out)
}

/// The name of the directory that holds sub-layers.
pub open spec fn stratum_dir() -> Seq<char> {
    seq!['.', 's', 't', 'r', 'a', 't', 'u', 'm']
}

/// `stratum_dir` as characters.
pub fn stratum_dir_chars() -> (v: Vec<char>)
    ensures
        v@ == stratum_dir(),
{
    vec!['.', 's', 't', 'r', 'a', 't', 'u', 'm']
}

/// Why a stratum path does not resolve.
#[derive(Debug, PartialEq, Eq)]
pub enum ResolveError {
    InsufficientDepth { requested: usize, actual: usize },
    NotFound(String),
    /// `<*` or `*` used but no `.git` ancestor found.
    NoProjectRoot,
}

/// What a `ResolveError` denotes.
pub enum ResolveFault {
    InsufficientDepth { requested: nat, actual: nat },
    NotFound(Seq<char>),
    NoProjectRoot,
}

impl View for ResolveError {
    type V = ResolveFault;

    open spec fn view(&self) -> ResolveFault {
        match self {
            ResolveError::InsufficientDepth { requested, actual } => ResolveFault::InsufficientDepth {
                requested: *requested as nat,
                actual: *actual as nat,
            },
            ResolveError::NotFound(p) => ResolveFault::NotFound(p@),
            ResolveError::NoProjectRoot => ResolveFault::NoProjectRoot,
        }
    }
}

/// How many `Up` tokens `ts` holds.
pub open spec fn up_count(ts: Seq<Token>) -> nat
    decreases ts.len(),
{
    if ts.len() == 0 {
        0
    } else {
        (if ts[0] is Up {
            1nat
        } else {
            0nat
        }) + up_count(ts.drop_first())
    }
}

/// The path starts at the project root (`<*`).
pub open spec fn uses_root(ts: Seq<Token>) -> bool {
    ts.len() > 0 && ts[0] is Root
}

/// The path starts at the outermost project root (`*`).
pub open spec fn uses_top_root(ts: Seq<Token>) -> bool {
    ts.len() > 0 && ts[0] is TopRoot
}

/// The path climbs from the current directory: it has `Up` tokens and does
/// not start at a root.
pub open spec fn uses_up(ts: Seq<Token>) -> bool {
    !uses_root(ts) && !uses_top_root(ts) && up_count(ts) > 0
}

/// `x` without its root, so that it joins as a relative path.
pub open spec fn relative_part(x: Seq<char>) -> Seq<char> {
    match strip_prefix(x, seq!['/']) {
        Some(r) => r,
        None => x,
    }
}

/// Where one token leads from `p`.
pub open spec fn step(p: Seq<char>, t: Token) -> Seq<char> {
    match t {
        Token::Down(n) => join(join(p, stratum_dir()), n),
        Token::Up => join(join(p, seq!['.', '.']), seq!['.', '.']),
        Token::Simple(x) => join(p, relative_part(x)),
        Token::Root => p,
        Token::TopRoot => p,
    }
}

/// Where the tokens lead from `p`, left to right.
pub open spec fn walk(p: Seq<char>, ts: Seq<Token>) -> Seq<char>
    decreases ts.len(),
{
    if ts.len() == 0 {
        p
    } else {
        walk(step(p, ts[0]), ts.drop_first())
    }
}

/// The resolution of `ts` from `base`, with `current` giving the depth for
/// `Up` tokens and `root` the project root found for a rooted path: the path
/// (which `settle` then accepts only if it exists), or the error.
pub open spec fn resolve_spec(
    base: Seq<char>,
    current: Seq<char>,
    ts: Seq<Token>,
    root: Option<Seq<char>>,
) -> Result<Seq<char>, ResolveFault> {
    let depth = trailing_depth(current, stratum_dir());
    if uses_up(ts) && up_count(ts) > depth {
        Err(ResolveFault::InsufficientDepth { requested: up_count(ts), actual: depth })
    } else if uses_root(ts) || uses_top_root(ts) {
        match root {
            Some(r) => Ok(walk(r, ts)),
            None => Err(ResolveFault::NoProjectRoot),
        }
    } else if uses_up(ts) {
        Ok(walk(seq![], ts))
    } else {
        Ok(walk(base, ts))
    }
}

/// Which project root a path needs looked up.
#[derive(Debug, PartialEq, Eq, Clone, Copy)]
pub enum RootLookup {
    /// The nearest ancestor with a `.git` (for `<*`).
    Nearest,
    /// The outermost ancestor with a `.git` (for `*`).
    Outermost,
}

/// The root lookup `tokens` needs before `resolve`: `Nearest` for a path
/// that starts with `<*`, `Outermost` for one that starts with `*`.
pub fn root_lookup(tokens: &StratumPath) -> (r: Option<RootLookup>)
    ensures
        r == (if uses_root(tokens_view(tokens@)) {
            Some(RootLookup::Nearest)
        } else if uses_top_root(tokens_view(tokens@)) {
            Some(RootLookup::Outermost)
        } else {
            None::<RootLookup>
        }),
{
    if tokens.len() == 0 {
        return None;
    }
    match &tokens[0] {
        PathToken::Root => Some(RootLookup::Nearest),
        PathToken::TopRoot => Some(RootLookup::Outermost),
        _ => None,
    }
}

/// How many `Up` tokens `tokens` holds.
fn count_ups(tokens: &StratumPath) -> (n: usize)
    ensures
        n == up_count(tokens_view(tokens@)),
{
    let ghost ts = tokens_view(tokens@);
    let mut n: usize = 0;
    let mut i: usize = tokens.len();
    assert(ts.skip(i as int) =~= Seq::<Token>::empty());
    while i > 0
        invariant
            i <= tokens.len(),
            ts == tokens_view(tokens@),
            n == up_count(ts.skip(i as int)),
            n <= tokens.len() - i,
        decreases i,
    {
        let ghost t = ts.skip(i - 1);
        assert(t.drop_first() =~= ts.skip(i as int));
        assert(t[0] == tokens@[i - 1]@);
        match &tokens[i - 1] {
            PathToken::Up => {
                n = n + 1;
            },
            _ => {},
        }
        i = i - 1;
    }
    assert(ts.skip(0) =~= ts);
    n
}

/// Where one token leads from `p`.
fn step_exec(p: &Vec<char>, t: &PathToken) -> (r: Vec<char>)
    ensures
        r@ == step(p@, t@),
{
    match t {
        PathToken::Down(name) => {
            let m = stratum_dir_chars();
            let q = join_path(p, &m);
            let n = chars_of(name.as_str());
            join_path(&q, &n)
        },
        PathToken::Up => {
            let dots: Vec<char> = vec!['.', '.'];
            assert(dots@ =~= seq!['.', '.']);
            let q = join_path(p, &dots);
            join_path(&q, &dots)
        },
        PathToken::Simple(x) => {
            let xc = chars_of(x.as_str());
            let slash: Vec<char> = vec!['/'];
            assert(slash@ =~= seq!['/']);
            match strip_prefix_chars(&xc, &slash) {
                Some(rel) => join_path(p, &rel),
                None => join_path(p, &xc),
            }
        },
        PathToken::Root => {
            assert(p@.subrange(0, p@.len() as int) =~= p@);
            copy_range(p, 0, p.len())
        },
        PathToken::TopRoot => {
            assert(p@.subrange(0, p@.len() as int) =~= p@);
            copy_range(p, 0, p.len())
        },
    }
}

/// Where `tokens` lead from `p`.
fn walk_exec(p: Vec<char>, tokens: &StratumPath) -> (r: Vec<char>)
    ensures
        r@ == walk(p@, tokens_view(tokens@)),
{
    let ghost ts = tokens_view(tokens@);
    let mut cur = p;
    let mut i: usize = 0;
    assert(ts.skip(0) =~= ts);
    while i < tokens.len()
        invariant
            i <= tokens.len(),
            ts == tokens_view(tokens@),
            walk(cur@, ts.skip(i as int)) == walk(p@, ts),
        decreases tokens.len() - i,
    {
        let ghost t = ts.skip(i as int);
        assert(t[0] == tokens@[i as int]@);
        assert(t.drop_first() =~= ts.skip(i + 1));
        cur = step_exec(&cur, &tokens[i]);
        i = i + 1;
    }
    assert(ts.skip(i as int) =~= Seq::<Token>::empty());
    cur
}

/// Whether a resolution result is the one `spec` describes.
pub open spec fn resolved_as(r: Result<String, ResolveError>, spec: Result<Seq<char>, ResolveFault>) -> bool {
    match r {
        Ok(p) => spec == Ok::<Seq<char>, ResolveFault>(p@),
        Err(e) => spec == Err::<Seq<char>, ResolveFault>(e@),
    }
}

/// The view of an optional string.
pub open spec fn opt_view(o: Option<String>) -> Option<Seq<char>> {
    match o {
        Some(s) => Some(s@),
        None => None,
    }
}

/// Resolves a `StratumPath` starting from `base`.
///
/// `current` gives the depth that `Up` tokens may climb; `root` is the
/// project root found for the lookup `root_lookup(tokens)` names (`None`
/// when that lookup found nothing or none was needed). A path that climbs
/// with `Up` resolves relative to the current directory; one that starts at
/// a root resolves from `root`; any other resolves from `base`. Whatever it
/// resolves to is validated for existence by `settle`.
pub fn resolve(base: &str, current: &str, tokens: &StratumPath, root: Option<String>) -> (r:
    Result<String, ResolveError>)
    ensures
        resolved_as(r, resolve_spec(base@, current@, tokens_view(tokens@), opt_view(root))),
{
    let ghost ts = tokens_view(tokens@);
    let lookup = root_lookup(tokens);
    let ups = count_ups(tokens);
    let using_up = lookup.is_none() && ups > 0;
    if using_up {
        let cur = chars_of(current);
        let m = stratum_dir_chars();
        let depth = count_trailing_layers(&cur, &m);
        if ups > depth {
            return Err(ResolveError::InsufficientDepth { requested: ups, actual: depth });
        }
        let empty: Vec<char> = Vec::new();
        assert(empty@ =~= Seq::<char>::empty());
        let path = walk_exec(empty, tokens);
        return Ok(string_of(&path));
    }
    match lookup {
        Some(_) => match root {
            Some(rt) => {
                let start = chars_of(rt.as_str());
                let path = walk_exec(start, tokens);
                Ok(string_of(&path))
            },
            None => Err(ResolveError::NoProjectRoot),
        },
        None => {
            let start = chars_of(base);
            let path = walk_exec(start, tokens);
            Ok(string_of(&path))
        },
    }
}

/// The outcome of a resolution once it is known whether its path exists:
/// the path if it does, `NotFound` if it does not.
pub fn settle(path: String, exists: bool) -> (r: Result<String, ResolveError>)
    ensures
        exists ==> r == Ok::<String, ResolveError>(path),
        !exists ==> r == Err::<String, ResolveError>(ResolveError::NotFound(path)),
{
    if exists {
        Ok(path)
    } else {
        Err(ResolveError::NotFound(path))
    }
}

/// Directories paired with whether each holds a `.git` entry.
pub open spec fn marks_view(c: Seq<(String, bool)>) -> Seq<(Seq<char>, bool)> {
    c.map_values(|p: (String, bool)| (p.0@, p.1))
}

/// The first marked directory.
pub open spec fn nearest_marked(c: Seq<(Seq<char>, bool)>) -> Option<Seq<char>>
    decreases c.len(),
{
    if c.len() == 0 {
        None
    } else if c[0].1 {
        Some(c[0].0)
    } else {
        nearest_marked(c.drop_first())
    }
}

/// The last marked directory.
pub open spec fn outermost_marked(c: Seq<(Seq<char>, bool)>) -> Option<Seq<char>>
    decreases c.len(),
{
    if c.len() == 0 {
        None
    } else if c.last().1 {
        Some(c.last().0)
    } else {
        outermost_marked(c.drop_last())
    }
}

/// The project root: of the ancestors of the starting directory, nearest
/// first (`pathstr::ancestors_of`), each with whether it holds `.git`, the
/// nearest that does.
pub fn find_git_root(candidates: &Vec<(String, bool)>) -> (r: Option<String>)
    ensures
        opt_view(r) == nearest_marked(marks_view(candidates@)),
{
    let ghost c = marks_view(candidates@);
    let mut i: usize = 0;
    assert(c.skip(0) =~= c);
    while i < candidates.len()
        invariant
            i <= candidates.len(),
            c == marks_view(candidates@),
            nearest_marked(c.skip(i as int)) == nearest_marked(c),
        decreases candidates.len() - i,
    {
        let ghost t = c.skip(i as int);
        assert(t[0] == c[i as int]);
        assert(t.drop_first() =~= c.skip(i + 1));
        if candidates[i].1 {
            return Some(candidates[i].0.clone());
        }
        i = i + 1;
    }
    assert(c.skip(i as int) =~= Seq::<(Seq<char>, bool)>::empty());
    None
}

/// The outermost project root: of the ancestors of the starting directory,
/// nearest first, each with whether it holds `.git`, the farthest that does.
pub fn find_outermost_git_root(candidates: &Vec<(String, bool)>) -> (r: Option<String>)
    ensures
        opt_view(r) == outermost_marked(marks_view(candidates@)),
{
    let ghost c = marks_view(candidates@);
    let mut i: usize = candidates.len();
    assert(c.take(i as int) =~= c);
    while i > 0
        invariant
            i <= candidates.len(),
            c == marks_view(candidates@),
            outermost_marked(c.take(i as int)) == outermost_marked(c),
        decreases i,
    {
        let ghost t = c.take(i as int);
        assert(t.last() == c[i - 1]);
        assert(t.drop_last() =~= c.take(i - 1));
        if candidates[i - 1].1 {
            return Some(candidates[i - 1].0.clone());
        }
        i = i - 1;
    }
    assert(c.take(0) =~= Seq::<(Seq<char>, bool)>::empty());
    None
}

/// Some candidate is marked.
pub open spec fn some_marked(c: Seq<(Seq<char>, bool)>) -> bool {
    exists|k: int| 0 <= k < c.len() && #[trigger] c[k].1
}

proof fn lemma_nearest_marked(c: Seq<(Seq<char>, bool)>)
    ensures
        (nearest_marked(c) is Some) <==> some_marked(c),
        nearest_marked(c) matches Some(x) ==> exists|k: int|
            0 <= k < c.len() && c[k].1 && c[k].0 == x && forall|j: int| 0 <= j < k ==> !(#[trigger] c[j].1),
    decreases c.len(),
{
    if c.len() > 0 {
        if c[0].1 {
            assert(c[0].1);
        } else {
            let d = c.drop_first();
            lemma_nearest_marked(d);
            if some_marked(c) {
                let k = choose|k: int| 0 <= k < c.len() && #[trigger] c[k].1;
                assert(d[k - 1] == c[k]);
            }
            if some_marked(d) {
                let k = choose|k: int| 0 <= k < d.len() && #[trigger] d[k].1;
                assert(c[k + 1] == d[k]);
            }
            if let Some(x) = nearest_marked(d) {
                let k = choose|k: int|
                    0 <= k < d.len() && d[k].1 && d[k].0 == x && forall|j: int| 0 <= j < k ==> !(#[trigger] d[j].1);
                assert(c[k + 1] == d[k]);
                assert forall|j: int| 0 <= j < k + 1 implies !(#[trigger] c[j].1) by {
                    if j > 0 {
                        assert(c[j] == d[j - 1]);
                    }
                }
            }
        }
    }
}

proof fn lemma_outermost_marked(c: Seq<(Seq<char>, bool)>)
    ensures
        (outermost_marked(c) is Some) <==> some_marked(c),
        outermost_marked(c) matches Some(x) ==> exists|k: int|
            0 <= k < c.len() && c[k].1 && c[k].0 == x && forall|j: int| k < j < c.len() ==> !(#[trigger] c[j].1),
    decreases c.len(),
{
    if c.len() > 0 {
        let n = c.len() - 1;
        if c.last().1 {
            assert(c[n].1);
        } else {
            let d = c.drop_last();
            lemma_outermost_marked(d);
            if some_marked(c) {
                let k = choose|k: int| 0 <= k < c.len() && #[trigger] c[k].1;
                assert(k != n);
                assert(d[k] == c[k]);
            }
            if some_marked(d) {
                let k = choose|k: int| 0 <= k < d.len() && #[trigger] d[k].1;
                assert(c[k] == d[k]);
            }
            if let Some(x) = outermost_marked(d) {
                let k = choose|k: int|
                    0 <= k < d.len() && d[k].1 && d[k].0 == x && forall|j: int| k < j < d.len() ==> !(#[trigger] d[j].1);
                assert(c[k] == d[k]);
                assert forall|j: int| k < j < c.len() implies !(#[trigger] c[j].1) by {
                    if j < n {
                        assert(c[j] == d[j]);
                    }
                }
            }
        }
    }
}

/// **Project roots.** Of the candidates (the ancestors of the starting
/// directory, nearest first, each with whether it holds `.git`), the root
/// for `<*` exists exactly when some candidate is marked, and it is a marked
/// candidate with no marked candidate before it; the outermost root for `*`
/// exists under the same condition, and it is a marked candidate with no
/// marked candidate after it. With a single marked candidate, both are that
/// candidate.
pub proof fn law_git_roots(c: Seq<(Seq<char>, bool)>)
    ensures
        (nearest_marked(c) is Some) <==> some_marked(c),
        nearest_marked(c) matches Some(x) ==> exists|k: int|
            0 <= k < c.len() && c[k].1 && c[k].0 == x && forall|j: int| 0 <= j < k ==> !(#[trigger] c[j].1),
        (outermost_marked(c) is Some) <==> some_marked(c),
        outermost_marked(c) matches Some(x) ==> exists|k: int|
            0 <= k < c.len() && c[k].1 && c[k].0 == x && forall|j: int| k < j < c.len() ==> !(#[trigger] c[j].1),
{
    lemma_nearest_marked(c);
    lemma_outermost_marked(c);
}

/// The `Simple` token for pending components, written from the root.
pub open spec fn flush(parts: Seq<Seq<char>>) -> Seq<Token> {
    if parts.len() == 0 {
        seq![]
    } else {
        seq![Token::Simple(seq!['/'] + join_with(parts, seq!['/']))]
    }
}

/// The tokens of the components of a path below the outermost root:
/// `.stratum/<name>` becomes `Down(name)`, and runs of other components
/// become one `Simple` each (`parts` are the components already in the run).
pub open spec fn layer_tokens(parts: Seq<Seq<char>>, comps: Seq<Seq<char>>) -> Seq<Token>
    decreases comps.len(),
{
    if comps.len() == 0 {
        flush(parts)
    } else if comps[0] == stratum_dir() && comps.len() >= 2 {
        flush(parts) + seq![Token::Down(comps[1])] + layer_tokens(seq![], comps.skip(2))
    } else {
        layer_tokens(parts.push(comps[0]), comps.drop_first())
    }
}

/// The stratum path of `cwd` from the outermost root `top_root`.
pub open spec fn cwd_spec(cwd: Seq<char>, top_root: Option<Seq<char>>) -> Option<Seq<Token>> {
    match top_root {
        Some(r) => match strip_components(cwd, r) {
            Some(rel) => Some(seq![Token::TopRoot] + layer_tokens(seq![], rel)),
            None => None,
        },
        None => None,
    }
}

/// Appends the `Simple` token for pending components to `out` and empties `parts`.
fn push_flush(out: &mut StratumPath, parts: &mut Vec<Vec<char>>)
    ensures
        tokens_view(final(out)@) == tokens_view(old(out)@) + flush(views(old(parts)@)),
        final(parts)@.len() == 0,
{
    if parts.len() == 0 {
        assert(tokens_view(out@) + flush(views(parts@)) =~= tokens_view(out@));
        return;
    }
    let mut sep: Vec<char> = Vec::new();
    sep.push('/');
    assert(sep@ == seq!['/']);
    let body = join_parts(parts, &sep);
    let mut text: Vec<char> = Vec::new();
    text.push('/');
    extend_chars(&mut text, &body);
    let ghost before = out@;
    let t = PathToken::Simple(string_of(&text));
    out.push(t);
    proof {
        lemma_tokens_push(before, t);
    }
    *parts = Vec::new();
}

/// Converts a directory into a stratum path starting from `*` (`TopRoot`).
///
/// `cwd` is the (canonical) directory and `top_root` its outermost `.git`
/// ancestor, if there is one. Example: `/home/user/acreta/subsystems/stratum/.stratum/impl`
/// below `/home/user/acreta` gives `[TopRoot, Simple("/subsystems/stratum"), Down("impl")]`,
/// written `*/subsystems/stratum>impl`.
pub fn cwd_as_stratum_path(cwd: &str, top_root: Option<String>) -> (r: Option<StratumPath>)
    ensures
        match cwd_spec(cwd@, opt_view(top_root)) {
            Some(t) => r matches Some(v) && tokens_view(v@) == t,
            None => r is None,
        },
{
    let root = match top_root {
        Some(rt) => rt,
        None => return None,
    };
    let cv = chars_of(cwd);
    let rv = chars_of(root.as_str());
    let comps = match strip_components_of(&cv, &rv) {
        Some(c) => c,
        None => return None,
    };
    let ghost cs = views(comps@);
    let m = stratum_dir_chars();
    let mut out: StratumPath = Vec::new();
    out.push(PathToken::TopRoot);
    let ghost head = tokens_view(out@);
    assert(head =~= seq![Token::TopRoot]);
    let mut parts: Vec<Vec<char>> = Vec::new();
    let mut i: usize = 0;
    assert(cs.skip(0) =~= cs);
    assert(views(parts@) =~= Seq::<Seq<char>>::empty());
    while i < comps.len()
        invariant
            i <= comps.len(),
            cs == views(comps@),
            m@ == stratum_dir(),
            tokens_view(out@) + layer_tokens(views(parts@), cs.skip(i as int)) == head
                + layer_tokens(seq![], cs),
        decreases comps.len() - i,
    {
        let ghost t = cs.skip(i as int);
        assert(t[0] == cs[i as int]);
        if i + 1 < comps.len() && same_chars(&comps[i], &m) {
            let ghost ps = views(parts@);
            let ghost before = tokens_view(out@);
            push_flush(&mut out, &mut parts);
            let ghost mid = out@;
            let d = PathToken::Down(string_of(&comps[i + 1]));
            out.push(d);
            proof {
                lemma_tokens_push(mid, d);
                assert(t[1] == cs[i + 1]);
                assert(t.skip(2) =~= cs.skip(i + 2));
                assert(views(parts@) =~= Seq::<Seq<char>>::empty());
                assert(tokens_view(out@) + layer_tokens(seq![], cs.skip(i + 2)) =~= before + (
                flush(ps) + seq![Token::Down(cs[i + 1])] + layer_tokens(seq![], t.skip(2))));
            }
            i = i + 2;
        } else {
            let ghost before = parts@;
            parts.push(copy_range(&comps[i], 0, comps[i].len()));
            proof {
                assert(comps[i as int]@.subrange(0, comps[i as int]@.len() as int) =~= comps[i as int]@);
                assert(views(parts@) =~= views(before).push(cs[i as int]));
                assert(t.drop_first() =~= cs.skip(i + 1));
            }
            i = i + 1;
        }
    }
    let ghost ps = views(parts@);
    let ghost before = tokens_view(out@);
    assert(cs.skip(i as int) =~= Seq::<Seq<char>>::empty());
    push_flush(&mut out, &mut parts);
    Some(out)
}

/// How a resolved path is shown from `cwd`: relative to `cwd` when `cwd`
/// is one of its ancestors and something remains, else as it is.
pub open spec fn shown_spec(path: Seq<char>, cwd: Seq<char>) -> Seq<char> {
    match strip_prefix(path, cwd) {
        Some(r) => if r.len() == 0 {
            path
        } else {
            r
        },
        None => path,
    }
}

/// The text to show for `path` from `cwd` (see `shown_spec`).
pub fn shown_path(path: &str, cwd: &str) -> (r: String)
    ensures
        r@ == shown_spec(path@, cwd@),
{
    let p = chars_of(path);
    let c = chars_of(cwd);
    match strip_prefix_chars(&p, &c) {
        Some(rel) => {
            if rel.len() == 0 {
                string_of(&p)
            } else {
                string_of(&rel)
            }
        },
        None => string_of(&p),
    }
}

} // verus!
