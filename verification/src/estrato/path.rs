//! Estrato path expressions: `>a>b/src` (down, then a path), `<</docs`
//! (up, then a path) and plain paths, and their resolution.
use vstd::prelude::*;
use crate::text::{chars_of, string_of, string_range, views};
use crate::pathstr::{count_trailing_layers, join, join_path, trailing_depth, strip_prefix_chars};
use crate::scan::{count_leading, down_scan, leading, scan_down};
use crate::path::relative_part;
use crate::estrato::up::{estrato_dir, estrato_dir_chars};

verus! {

/// A single token in an estrato path expression.
#[derive(Debug, PartialEq, Eq, Clone)]
pub enum PathToken {
    /// `>name`: into `.estrato/<name>`.
    Down(String),
    /// `<`: up one estrato level (`../..`).
    Up,
    /// A traditional path, joined as it is.
    Simple(String),
}

/// A parsed estrato path: tokens resolved left to right.
pub type EstratPath = Vec<PathToken>;

/// What a `PathToken` denotes.
pub enum Token {
    Down(Seq<char>),
    Up,
    Simple(Seq<char>),
}

impl View for PathToken {
    type V = Token;

    open spec fn view(&self) -> Token {
        match self {
            PathToken::Down(n) => Token::Down(n@),
            PathToken::Up => Token::Up,
            PathToken::Simple(p) => Token::Simple(p@),
        }
    }
}

/// The tokens a sequence of `PathToken`s denotes.
pub open spec fn tokens_view(ts: Seq<PathToken>) -> Seq<Token> {
    ts.map_values(|t: PathToken| t@)
}

proof fn lemma_tokens_push(ts: Seq<PathToken>, t: PathToken)
    ensures
        tokens_view(ts.push(t)) == tokens_view(ts).push(t@),
{
    assert(tokens_view(ts.push(t)) =~= tokens_view(ts).push(t@));
}

/// Why a text is not an estrato path.
#[derive(Debug, PartialEq, Eq)]
pub enum ParseError {
    Empty,
    InvalidSegment(String),
    InvalidSyntax(String),
}

/// What a `ParseError` denotes.
pub enum ParseFault {
    Empty,
    InvalidSegment(Seq<char>),
    InvalidSyntax(Seq<char>),
}

impl View for ParseError {
    type V = ParseFault;

    open spec fn view(&self) -> ParseFault {
        match self {
            ParseError::Empty => ParseFault::Empty,
            ParseError::InvalidSegment(s) => ParseFault::InvalidSegment(s@),
            ParseError::InvalidSyntax(s) => ParseFault::InvalidSyntax(s@),
        }
    }
}

/// `Down` tokens for each name.
pub open spec fn downs(names: Seq<Seq<char>>) -> Seq<Token> {
    names.map_values(|n: Seq<char>| Token::Down(n))
}

/// The token a trailing path contributes: none when it is empty or a lone `/`.
pub open spec fn tail_tokens(tail: Seq<char>) -> Seq<Token> {
    if tail.len() == 0 || tail == seq!['/'] {
        seq![]
    } else {
        seq![Token::Simple(tail)]
    }
}

/// The tokens of the text after a leading `>`.
pub open spec fn down_tokens(r: Seq<char>) -> Result<Seq<Token>, ParseFault> {
    match down_scan(r) {
        Some((names, tail)) => Ok(downs(names) + tail_tokens(tail)),
        None => Err(ParseFault::InvalidSegment(seq![])),
    }
}

/// `n` `Up` tokens.
pub open spec fn ups(n: nat) -> Seq<Token> {
    Seq::new(n, |i: int| Token::Up)
}

/// The tokens of a text that starts with `<`: one `Up` per leading `<`, then
/// nothing, or a trailing path that begins with `/`.
pub open spec fn up_tokens(s: Seq<char>) -> Result<Seq<Token>, ParseFault> {
    let n = leading(s, '<');
    let rest = s.skip(n as int);
    if rest.len() == 0 {
        Ok(ups(n))
    } else if rest[0] == '/' {
        if rest.len() > 1 {
            Ok(ups(n) + seq![Token::Simple(rest)])
        } else {
            Ok(ups(n))
        }
    } else {
        Err(ParseFault::InvalidSyntax(s))
    }
}

/// The tokens of an estrato path expression.
pub open spec fn parse_spec(s: Seq<char>) -> Result<Seq<Token>, ParseFault> {
    if s.len() == 0 {
        Err(ParseFault::Empty)
    } else if s[0] == '>' {
        down_tokens(s.skip(1))
    } else if s[0] == '<' {
        up_tokens(s)
    } else {
        Ok(seq![Token::Simple(s)])
    }
}

/// Whether a parse result is the one `spec` describes.
pub open spec fn parsed_as(
    r: Result<EstratPath, ParseError>,
    spec: Result<Seq<Token>, ParseFault>,
) -> bool {
    match r {
        Ok(t) => spec == Ok::<Seq<Token>, ParseFault>(tokens_view(t@)),
        Err(e) => spec == Err::<Seq<Token>, ParseFault>(e@),
    }
}

/// Parses an estrato path string into a token sequence.
///
/// - Starts with `>`: `Down` tokens, and a `Simple` from the first `/` on.
/// - Starts with `<`: `Up` tokens, and a `Simple` from a following `/` on.
/// - Anything else: a single `Simple` token (a traditional path).
pub fn parse_path(s: &str) -> (r: Result<EstratPath, ParseError>)
    ensures
        parsed_as(r, parse_spec(s@)),
{
    let v = chars_of(s);
    if v.len() == 0 {
        return Err(ParseError::Empty);
    }
    if v[0] == '>' {
        return parse_down_tokens(&v);
    }
    if v[0] == '<' {
        return parse_up_tokens(&v);
    }
    let mut out: EstratPath = Vec::new();
    out.push(PathToken::Simple(string_of(&v)));
    assert(tokens_view(out@) =~= seq![Token::Simple(v@)]);
    Ok(out)
}

/// The tokens of `v`, a text that starts with `>`.
fn parse_down_tokens(v: &Vec<char>) -> (r: Result<EstratPath, ParseError>)
    requires
        v.len() >= 1,
    ensures
        parsed_as(r, down_tokens(v@.skip(1))),
{
    match scan_down(v, 1) {
        None => {
            let e = String::new();
            assert(e@ =~= Seq::<char>::empty());
            Err(ParseError::InvalidSegment(e))
        },
        Some((names, t)) => {
            let mut out: EstratPath = Vec::new();
            let ghost ns = views(names@);
            let mut i: usize = 0;
            assert(tokens_view(out@) =~= downs(ns.take(0)));
            while i < names.len()
                invariant
                    i <= names.len(),
                    ns == views(names@),
                    tokens_view(out@) == downs(ns.take(i as int)),
                decreases names.len() - i,
            {
                let ghost before = out@;
                let d = PathToken::Down(string_of(&names[i]));
                out.push(d);
                proof {
                    lemma_tokens_push(before, d);
                    assert(downs(ns.take(i + 1)) =~= downs(ns.take(i as int)).push(
                        Token::Down(ns[i as int]),
                    ));
                }
                i = i + 1;
            }
            assert(ns.take(i as int) =~= ns);
            let ghost tail = v@.skip(t as int);
            let ghost before = out@;
            if t < v.len() && !(t + 1 == v.len() && v[t] == '/') {
                let p = PathToken::Simple(string_range(v, t, v.len()));
                out.push(p);
                proof {
                    lemma_tokens_push(before, p);
                    assert(v@.subrange(t as int, v.len() as int) == tail);
                    if tail == seq!['/'] {
                        assert(tail.len() == 1);
                        assert(tail[0] == v@[t as int]);
                    }
                    assert(tail_tokens(tail) == seq![Token::Simple(tail)]);
                }
            } else {
                proof {
                    if t < v.len() {
                        assert(tail =~= seq!['/']);
                    }
                    assert(tail_tokens(tail) =~= Seq::<Token>::empty());
                }
            }
            assert(tokens_view(out@) =~= downs(ns) + tail_tokens(tail));
            Ok(out)
        },
    }
}

/// The tokens of `v`, a text that starts with `<`.
fn parse_up_tokens(v: &Vec<char>) -> (r: Result<EstratPath, ParseError>)
    ensures
        parsed_as(r, up_tokens(v@)),
{
    let n = count_leading(v, 0, '<');
    assert(v@.skip(0) == v@);
    let mut out: EstratPath = Vec::new();
    let mut i: usize = 0;
    while i < n
        invariant
            i <= n,
            tokens_view(out@) == ups(i as nat),
        decreases n - i,
    {
        let ghost before = out@;
        out.push(PathToken::Up);
        proof {
            lemma_tokens_push(before, PathToken::Up);
            assert(ups((i + 1) as nat) =~= ups(i as nat).push(Token::Up));
        }
        i = i + 1;
    }
    let ghost rest = v@.skip(n as int);
    assert(rest.len() == v.len() - n);
    if n < v.len() && v[n] == '/' {
        assert(rest[0] == v@[n as int]);
        if n + 1 < v.len() {
            let ghost before = out@;
            let p = PathToken::Simple(string_range(v, n, v.len()));
            out.push(p);
            proof {
                lemma_tokens_push(before, p);
                assert(v@.subrange(n as int, v.len() as int) == rest);
                assert(tokens_view(out@) =~= ups(n as nat) + seq![Token::Simple(rest)]);
            }
        }
        Ok(out)
    } else if n < v.len() {
        assert(rest[0] == v@[n as int]);
        Err(ParseError::InvalidSyntax(string_of(v)))
    } else {
        Ok(out)
    }
}

/// Why an estrato path does not resolve.
#[derive(Debug, PartialEq, Eq)]
pub enum ResolveError {
    InsufficientDepth { requested: usize, actual: usize },
    NotFound(String),
}

/// What a `ResolveError` denotes.
pub enum ResolveFault {
    InsufficientDepth { requested: nat, actual: nat },
    NotFound(Seq<char>),
}

impl View for ResolveError {
    type V = ResolveFault;

    open spec fn view(&self) -> ResolveFault {
        match self {
            ResolveError::InsufficientDepth { requested, actual } => ResolveFault::InsufficientDepth {
                requested: *requested as nat,
                actual: *actual as nat,
            },
            ResolveError::NotFound(p) => ResolveFault::NotFound(p@),
        }
    }
}

/// How many `Up` tokens `ts` holds.
pub open spec fn up_count(ts: Seq<Token>) -> nat
    decreases ts.len(),
{
    if ts.len() == 0 {
        0
    } else {
        (if ts[0] is Up {
            1nat
        } else {
            0nat
        }) + up_count(ts.drop_first())
    }
}

/// Where one token leads from `p`.
pub open spec fn step(p: Seq<char>, t: Token) -> Seq<char> {
    match t {
        Token::Down(n) => join(join(p, estrato_dir()), n),
        Token::Up => join(join(p, seq!['.', '.']), seq!['.', '.']),
        Token::Simple(x) => join(p, relative_part(x)),
    }
}

/// Where the tokens lead from `p`, left to right.
pub open spec fn walk(p: Seq<char>, ts: Seq<Token>) -> Seq<char>
    decreases ts.len(),
{
    if ts.len() == 0 {
        p
    } else {
        walk(step(p, ts[0]), ts.drop_first())
    }
}

/// The resolution of `ts` from `base`, with `current` giving the depth for
/// `Up` tokens: the path (which `settle` then accepts only if it exists),
/// or the error.
pub open spec fn resolve_spec(base: Seq<char>, current: Seq<char>, ts: Seq<Token>) -> Result<
    Seq<char>,
    ResolveFault,
> {
    let depth = trailing_depth(current, estrato_dir());
    if up_count(ts) > depth {
        Err(ResolveFault::InsufficientDepth { requested: up_count(ts), actual: depth })
    } else if up_count(ts) > 0 {
        Ok(walk(seq![], ts))
    } else {
        Ok(walk(base, ts))
    }
}

/// Whether a resolution result is the one `spec` describes.
pub open spec fn resolved_as(r: Result<String, ResolveError>, spec: Result<Seq<char>, ResolveFault>) -> bool {
    match r {
        Ok(p) => spec == Ok::<Seq<char>, ResolveFault>(p@),
        Err(e) => spec == Err::<Seq<char>, ResolveFault>(e@),
    }
}

/// How many `Up` tokens `tokens` holds.
fn count_ups(tokens: &EstratPath) -> (n: usize)
    ensures
        n == up_count(tokens_view(tokens@)),
{
    let ghost ts = tokens_view(tokens@);
    let mut n: usize = 0;
    let mut i: usize = tokens.len();
    assert(ts.skip(i as int) =~= Seq::<Token>::empty());
    while i > 0
        invariant
            i <= tokens.len(),
            ts == tokens_view(tokens@),
            n == up_count(ts.skip(i as int)),
            n <= tokens.len() - i,
        decreases i,
    {
        let ghost t = ts.skip(i - 1);
        assert(t.drop_first() =~= ts.skip(i as int));
        assert(t[0] == tokens@[i - 1]@);
        match &tokens[i - 1] {
            PathToken::Up => {
                n = n + 1;
            },
            _ => {},
        }
        i = i - 1;
    }
    assert(ts.skip(0) =~= ts);
    n
}

/// Where one token leads from `p`.
fn step_exec(p: &Vec<char>, t: &PathToken) -> (r: Vec<char>)
    ensures
        r@ == step(p@, t@),
{
    match t {
        PathToken::Down(name) => {
            let m = estrato_dir_chars();
            let q = join_path(p, &m);
            let n = chars_of(name.as_str());
            join_path(&q, &n)
        },
        PathToken::Up => {
            let dots: Vec<char> = vec!['.', '.'];
            assert(dots@ =~= seq!['.', '.']);
            let q = join_path(p, &dots);
            join_path(&q, &dots)
        },
        PathToken::Simple(x) => {
            let xc = chars_of(x.as_str());
            let slash: Vec<char> = vec!['/'];
            assert(slash@ =~= seq!['/']);
            match strip_prefix_chars(&xc, &slash) {
                Some(rel) => join_path(p, &rel),
                None => join_path(p, &xc),
            }
        },
    }
}

/// Where `tokens` lead from `p`.
fn walk_exec(p: Vec<char>, tokens: &EstratPath) -> (r: Vec<char>)
    ensures
        r@ == walk(p@, tokens_view(tokens@)),
{
    let ghost ts = tokens_view(tokens@);
    let mut cur = p;
    let mut i: usize = 0;
    assert(ts.skip(0) =~= ts);
    while i < tokens.len()
        invariant
            i <= tokens.len(),
            ts == tokens_view(tokens@),
            walk(cur@, ts.skip(i as int)) == walk(p@, ts),
        decreases tokens.len() - i,
    {
        let ghost t = ts.skip(i as int);
        assert(t[0] == tokens@[i as int]@);
        assert(t.drop_first() =~= ts.skip(i + 1));
        cur = step_exec(&cur, &tokens[i]);
        i = i + 1;
    }
    assert(ts.skip(i as int) =~= Seq::<Token>::empty());
    cur
}

/// Resolves an `EstratPath` starting from `base`.
///
/// `current` gives the depth that `Up` tokens may climb. A path with `Up`
/// tokens resolves relative to the current directory; any other resolves
/// from `base`. Whatever it resolves to is validated for existence by
/// `settle`.
pub fn resolve(base: &str, current: &str, tokens: &EstratPath) -> (r: Result<String, ResolveError>)
    ensures
        resolved_as(r, resolve_spec(base@, current@, tokens_view(tokens@))),
{
    let cur = chars_of(current);
    let m = estrato_dir_chars();
    let actual = count_trailing_layers(&cur, &m);
    let ups = count_ups(tokens);
    if ups > actual {
        return Err(ResolveError::InsufficientDepth { requested: ups, actual });
    }
    if ups > 0 {
        let empty: Vec<char> = Vec::new();
        assert(empty@ =~= Seq::<char>::empty());
        let path = walk_exec(empty, tokens);
        return Ok(string_of(&path));
    }
    let start = chars_of(base);
    let path = walk_exec(start, tokens);
    Ok(string_of(&path))
}

/// The outcome of a resolution once it is known whether its path exists:
/// the path if it does, `NotFound` if it does not.
pub fn settle(path: String, exists: bool) -> (r: Result<String, ResolveError>)
    ensures
        exists ==> r == Ok::<String, ResolveError>(path),
        !exists ==> r == Err::<String, ResolveError>(ResolveError::NotFound(path)),
{
    if exists {
        Ok(path)
    } else {
        Err(ResolveError::NotFound(path))
    }
}

} // verus!
