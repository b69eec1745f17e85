//! Links between markdown documents: which links a document writes, which
//! headings it offers as anchors, and whether a link reaches its target.
//!
//! A link inside a fenced code block is an example, not a reference, and an
//! image (`![alt](x.png)`) is an embed; neither counts. External links
//! (`http://`, `https://`, `mailto:`) and same-file anchors are not checked.
use vstd::prelude::*;
use crate::text::{
    chars_of, copy_range, find_char, find_from, is_char, lemma_first_where, lines,
    lines_of, string_of, string_range, trim, trim_chars, trim_start, trim_start_chars, views,
    words, words_of,
};
use crate::scan::{count_leading, leading};
use crate::pathstr::lemma_views_push;

verus! {

/// A link that does not reach its target.
#[derive(Debug, Clone, PartialEq, Eq)]
pub struct Broken {
    /// The file that writes it, relative to the root of the walk.
    pub from: String,
    pub href: String,
    pub why: Why,
}

/// Why a link does not reach its target.
#[derive(Debug, Clone, Copy, PartialEq, Eq)]
pub enum Why {
    /// The target file does not exist.
    Missing,
    /// The file exists; the heading that the `#` names does not.
    Anchor,
}

/// How many links a walk checked, and which of them are broken.
pub struct Report {
    pub checked: usize,
    pub broken: Vec<Broken>,
}

/// `n` copies of `c`.
pub open spec fn repeat(c: char, n: nat) -> Seq<char> {
    Seq::new(n, |i: int| c)
}

/// The fence that opens or closes a code block on a (left-trimmed) line:
/// three or more backticks, or else three or more tildes, at its start.
pub open spec fn fence_marker(t: Seq<char>) -> Option<Seq<char>> {
    let n = leading(t, '`');
    let m = leading(t, '~');
    if n >= 3 {
        Some(repeat('`', n))
    } else if m >= 3 {
        Some(repeat('~', m))
    } else {
        None
    }
}

/// `n` copies of `c`, as characters.
fn repeat_chars(c: char, n: usize) -> (r: Vec<char>)
    ensures
        r@ == repeat(c, n as nat),
{
    let mut r: Vec<char> = Vec::new();
    let mut i: usize = 0;
    while i < n
        invariant
            i <= n,
            r@ == repeat(c, i as nat),
        decreases n - i,
    {
        r.push(c);
        i = i + 1;
        assert(r@ =~= repeat(c, i as nat));
    }
    r
}

/// The fence marker of `t`, if it has one.
fn fence_marker_of(t: &Vec<char>) -> (r: Option<Vec<char>>)
    ensures
        match fence_marker(t@) {
            Some(m) => r matches Some(v) && v@ == m,
            None => r is None,
        },
{
    assert(t@.skip(0) =~= t@);
    let n = count_leading(t, 0, '`');
    if n >= 3 {
        return Some(repeat_chars('`', n));
    }
    let m = count_leading(t, 0, '~');
    if m >= 3 {
        return Some(repeat_chars('~', m));
    }
    None
}

/// Whether `s` starts with the characters `p`.
pub open spec fn starts_with(s: Seq<char>, p: Seq<char>) -> bool {
    p.len() <= s.len() && s.take(p.len() as int) == p
}

/// A link that leaves the documents: a web or mail address, or an anchor
/// in the same file.
pub open spec fn is_external(href: Seq<char>) -> bool {
    ||| starts_with(href, seq!['h', 't', 't', 'p', ':', '/', '/'])
    ||| starts_with(href, seq!['h', 't', 't', 'p', 's', ':', '/', '/'])
    ||| starts_with(href, seq!['m', 'a', 'i', 'l', 't', 'o', ':'])
    ||| (href.len() > 0 && href[0] == '#')
}

fn has_prefix_lit(v: &Vec<char>, p: Vec<char>) -> (b: bool)
    ensures
        b == starts_with(v@, p@),
{
    let r = crate::text::has_prefix(v, &p);
    r
}

/// Whether `href` is external (see `is_external`).
fn is_external_exec(href: &Vec<char>) -> (b: bool)
    ensures
        b == is_external(href@),
{
    let http: Vec<char> = vec!['h', 't', 't', 'p', ':', '/', '/'];
    let https: Vec<char> = vec!['h', 't', 't', 'p', 's', ':', '/', '/'];
    let mailto: Vec<char> = vec!['m', 'a', 'i', 'l', 't', 'o', ':'];
    assert(http@ =~= seq!['h', 't', 't', 'p', ':', '/', '/']);
    assert(https@ =~= seq!['h', 't', 't', 'p', 's', ':', '/', '/']);
    assert(mailto@ =~= seq!['m', 'a', 'i', 'l', 't', 'o', ':']);
    has_prefix_lit(href, http) || has_prefix_lit(href, https) || has_prefix_lit(href, mailto) || (
    href.len() > 0 && href[0] == '#')
}

/// From a `[` whose bracket depth is `depth`, the offset in `s` of the `]`
/// that brings the depth back to zero, counting nested brackets.
pub open spec fn close_from(s: Seq<char>, depth: int) -> Option<nat>
    decreases s.len(),
{
    if s.len() == 0 {
        None
    } else {
        let d = if s[0] == '[' {
            depth + 1
        } else if s[0] == ']' {
            depth - 1
        } else {
            depth
        };
        if s[0] == ']' && d == 0 {
            Some(0)
        } else {
            match close_from(s.drop_first(), d) {
                Some(k) => Some(k + 1),
                None => None,
            }
        }
    }
}

/// The index of the `]` that closes the `[` at `open`.
pub open spec fn matching(b: Seq<char>, open: int) -> Option<int> {
    match close_from(b.skip(open + 1), 1) {
        Some(k) => Some(open + 1 + k),
        None => None,
    }
}

/// The `]` that closes the `[` at `open`, counting nested brackets: a link
/// text with brackets inside is common.
fn find_matching(chars: &Vec<char>, open: usize) -> (r: Option<usize>)
    requires
        open < chars.len(),
    ensures
        match matching(chars@, open as int) {
            Some(k) => r == Some(k as usize) && open < k < chars.len(),
            None => r is None,
        },
{
    let ghost s0 = chars@.skip(open + 1);
    let mut depth: usize = 1;
    let mut k: usize = open + 1;
    assert(chars@.skip(k as int) =~= s0);
    while k < chars.len()
        invariant
            open < k <= chars.len(),
            1 <= depth <= k - open,
            s0 == chars@.skip(open + 1),
            close_from(s0, 1) == match close_from(chars@.skip(k as int), depth as int) {
                Some(j) => Some((j + (k - open - 1)) as nat),
                None => None::<nat>,
            },
        decreases chars.len() - k,
    {
        let ghost s = chars@.skip(k as int);
        assert(s[0] == chars@[k as int]);
        assert(s.drop_first() =~= chars@.skip(k + 1));
        let c = chars[k];
        if c == '[' {
            depth = depth + 1;
        } else if c == ']' {
            if depth == 1 {
                return Some(k);
            }
            depth = depth - 1;
        }
        k = k + 1;
    }
    assert(chars@.skip(k as int).len() == 0);
    None
}

/// The first word of `dest`, or nothing: the link's target without a title.
pub open spec fn first_word(dest: Seq<char>) -> Seq<char> {
    if words(dest).len() > 0 {
        words(dest)[0]
    } else {
        seq![]
    }
}

/// The links (target, text) of one line, read from index `i` with `in_code`
/// telling whether an inline code span is open. A link is `[text](target)`
/// outside inline code and not preceded by `!`; a title after the target is
/// dropped; links with an empty or external target are skipped.
pub open spec fn collect_from(b: Seq<char>, i: int, in_code: bool) -> Seq<(Seq<char>, Seq<char>)>
    decreases b.len() - i,
{
    if i < 0 || i >= b.len() {
        seq![]
    } else if b[i] == '`' {
        collect_from(b, i + 1, !in_code)
    } else if in_code || b[i] != '[' {
        collect_from(b, i + 1, in_code)
    } else if i > 0 && b[i - 1] == '!' {
        collect_from(b, i + 1, in_code)
    } else {
        match close_from(b.skip(i + 1), 1) {
            None => collect_from(b, i + 1, in_code),
            Some(k) => {
                let close = i + 1 + k;
                if close + 1 >= b.len() {
                    seq![]
                } else if b[close + 1] != '(' {
                    collect_from(b, close + 1, in_code)
                } else {
                    match find_char(b.skip(close + 2), ')') {
                        None => collect_from(b, close + 1, in_code),
                        Some(paren) => {
                            if paren < 0 || close + 2 + paren >= b.len() {
                                seq![]
                            } else {
                                let text = b.subrange(i + 1, close);
                                let dest = b.subrange(close + 2, close + 2 + paren);
                                let href = first_word(dest);
                                (if href.len() > 0 && !is_external(href) {
                                    seq![(href, text)]
                                } else {
                                    seq![]
                                }) + collect_from(b, close + 2 + paren + 1, in_code)
                            }
                        },
                    }
                }
            },
        }
    }
}

/// A link's (target, text) as strings.
pub open spec fn link_view(l: (String, String)) -> (Seq<char>, Seq<char>) {
    (l.0@, l.1@)
}

/// The (target, text) pairs of a sequence of links.
pub open spec fn links_view(v: Seq<(String, String)>) -> Seq<(Seq<char>, Seq<char>)> {
    v.map_values(|l: (String, String)| link_view(l))
}

proof fn lemma_links_push(v: Seq<(String, String)>, l: (String, String))
    ensures
        links_view(v.push(l)) == links_view(v).push(link_view(l)),
{
    assert(links_view(v.push(l)) =~= links_view(v).push(link_view(l)));
}

/// `[text](target)` links of a line, appended to `out`, skipping images and
/// inline code.
fn collect_links(line: &Vec<char>, out: &mut Vec<(String, String)>)
    ensures
        links_view(final(out)@) == links_view(old(out)@) + collect_from(line@, 0, false),
{
    let ghost b = line@;
    let ghost start = links_view(out@);
    let mut i: usize = 0;
    let mut in_code = false;
    assert(start + collect_from(b, 0, false) =~= start + collect_from(b, 0, false));
    while i < line.len()
        invariant
            b == line@,
            links_view(out@) + collect_from(b, i as int, in_code) == start + collect_from(
                b,
                0,
                false,
            ),
        decreases line.len() - i,
    {
        if line[i] == '`' {
            in_code = !in_code;
            i = i + 1;
            continue;
        }
        if in_code || line[i] != '[' {
            i = i + 1;
            continue;
        }
        if i > 0 && line[i - 1] == '!' {
            i = i + 1;
            continue;
        }
        let close = match find_matching(line, i) {
            Some(c) => c,
            None => {
                i = i + 1;
                continue;
            },
        };
        if close + 1 >= line.len() || line[close + 1] != '(' {
            i = close + 1;
            continue;
        }
        let paren = match find_from(line, ')', close + 2) {
            Some(p) => p,
            None => {
                i = close + 1;
                continue;
            },
        };
        proof {
            lemma_first_where(b.skip(close + 2), is_char(')'));
        }
        let dest = copy_range(line, close + 2, paren);
        let ws = words_of(&dest);
        let ghost before = links_view(out@);
        if ws.len() > 0 {
            let href = &ws[0];
            if href.len() > 0 && !is_external_exec(href) {
                let l = (string_of(href), string_range(line, i + 1, close));
                let ghost old_out = out@;
                out.push(l);
                proof {
                    lemma_links_push(old_out, l);
                }
            }
        }
        proof {
            let h = first_word(dest@);
            assert(ws.len() > 0 ==> h == ws@[0]@);
            assert(ws.len() == 0 ==> h.len() == 0);
            if h.len() > 0 && !is_external(h) {
                assert(before + (seq![(h, b.subrange(i + 1, close as int))] + collect_from(
                    b,
                    paren + 1,
                    in_code,
                )) =~= before.push((h, b.subrange(i + 1, close as int))) + collect_from(
                    b,
                    paren + 1,
                    in_code,
                ));
            } else {
                assert(before + (Seq::<(Seq<char>, Seq<char>)>::empty() + collect_from(
                    b,
                    paren + 1,
                    in_code,
                )) =~= before + collect_from(b, paren + 1, in_code));
            }
        }
        i = paren + 1;
    }
    assert(collect_from(b, i as int, in_code) == Seq::<(Seq<char>, Seq<char>)>::empty());
    assert(links_view(out@) + Seq::<(Seq<char>, Seq<char>)>::empty() =~= links_view(out@));
}

/// The fence state after a marker line, for links and headings alike: a
/// marker of the same character and at least the length of the open one
/// closes it; another marker opens a block when none is open.
pub open spec fn fence_after(fence: Option<Seq<char>>, m: Seq<char>) -> Option<Seq<char>> {
    match fence {
        Some(open) => if m.len() >= open.len() && m.len() > 0 && open.len() > 0 && m[0] == open[0] {
            None
        } else {
            Some(open)
        },
        None => Some(m),
    }
}

/// The links of `ls`, read with the fence state `fence`.
pub open spec fn links_from(ls: Seq<Seq<char>>, fence: Option<Seq<char>>) -> Seq<(Seq<char>, Seq<char>)>
    decreases ls.len(),
{
    if ls.len() == 0 {
        seq![]
    } else {
        match fence_marker(trim_start(ls[0])) {
            Some(m) => links_from(ls.drop_first(), fence_after(fence, m)),
            None => {
                if fence is Some {
                    links_from(ls.drop_first(), fence)
                } else {
                    collect_from(ls[0], 0, false) + links_from(ls.drop_first(), fence)
                }
            },
        }
    }
}

/// The links (target, text) of a markdown text, leaving out those inside
/// fenced code blocks.
pub open spec fn links_spec(text: Seq<char>) -> Seq<(Seq<char>, Seq<char>)> {
    links_from(lines(text), None)
}

/// The links of a markdown text, without those inside a code block.
///
/// A fence closes with one of its own character and at least its length, so
/// a four-backtick fence can hold three-backtick blocks.
pub fn links_in(text: &str) -> (r: Vec<(String, String)>)
    ensures
        links_view(r@) == links_spec(text@),
{
    let v = chars_of(text);
    let ls = lines_of(&v);
    let ghost lsv = views(ls@);
    let mut out: Vec<(String, String)> = Vec::new();
    let mut fence: Option<Vec<char>> = None;
    let mut i: usize = 0;
    assert(lsv.skip(0) =~= lsv);
    assert(links_view(out@) + links_spec(text@) =~= links_spec(text@));
    while i < ls.len()
        invariant
            i <= ls.len(),
            lsv == views(ls@),
            lsv == lines(text@),
            links_view(out@) + links_from(lsv.skip(i as int), opt_chars(fence)) == links_spec(
                text@,
            ),
        decreases ls.len() - i,
    {
        let ghost rest = lsv.skip(i as int);
        assert(rest[0] == ls@[i as int]@);
        assert(rest.drop_first() =~= lsv.skip(i + 1));
        let t = trim_start_chars(&ls[i]);
        match fence_marker_of(&t) {
            Some(marker) => {
                let next = match fence {
                    Some(open) => {
                        if marker.len() >= open.len() && marker.len() > 0 && open.len() > 0
                            && marker[0] == open[0] {
                            None
                        } else {
                            Some(open)
                        }
                    },
                    None => Some(marker),
                };
                fence = next;
            },
            None => {
                if fence.is_none() {
                    let ghost before = links_view(out@);
                    collect_links(&ls[i], &mut out);
                    assert(before + (collect_from(rest[0], 0, false) + links_from(
                        lsv.skip(i + 1),
                        None,
                    )) =~= before + collect_from(rest[0], 0, false) + links_from(
                        lsv.skip(i + 1),
                        None,
                    ));
                }
            },
        }
        i = i + 1;
    }
    assert(lsv.skip(i as int) =~= Seq::<Seq<char>>::empty());
    assert(links_view(out@) + Seq::<(Seq<char>, Seq<char>)>::empty() =~= links_view(out@));
    out
}

/// Every link of `ls` has a target that is not empty and not external.
pub open spec fn local_links(ls: Seq<(Seq<char>, Seq<char>)>) -> bool {
    forall|k: int|
        0 <= k < ls.len() ==> (#[trigger] ls[k]).0.len() > 0 && !is_external(ls[k].0) && no_space(
            ls[k].0,
        )
}

/// `s` holds no white space.
pub open spec fn no_space(s: Seq<char>) -> bool {
    forall|j: int| 0 <= j < s.len() ==> !crate::text::unicode_whitespace(#[trigger] s[j])
}

proof fn lemma_local_concat(a: Seq<(Seq<char>, Seq<char>)>, b: Seq<(Seq<char>, Seq<char>)>)
    requires
        local_links(a),
        local_links(b),
    ensures
        local_links(a + b),
{
    assert forall|k: int| 0 <= k < (a + b).len() implies (#[trigger] (a + b)[k]).0.len() > 0
        && !is_external((a + b)[k].0) && no_space((a + b)[k].0) by {
        if k >= a.len() {
            assert((a + b)[k] == b[k - a.len()]);
        }
    }
}

proof fn lemma_collect_local(b: Seq<char>, i: int, in_code: bool)
    ensures
        local_links(collect_from(b, i, in_code)),
    decreases b.len() - i,
{
    if i < 0 || i >= b.len() {
    } else if b[i] == '`' {
        lemma_collect_local(b, i + 1, !in_code);
    } else if in_code || b[i] != '[' {
        lemma_collect_local(b, i + 1, in_code);
    } else if i > 0 && b[i - 1] == '!' {
        lemma_collect_local(b, i + 1, in_code);
    } else {
        match close_from(b.skip(i + 1), 1) {
            None => lemma_collect_local(b, i + 1, in_code),
            Some(k) => {
                let close = i + 1 + k;
                if close + 1 >= b.len() {
                } else if b[close + 1] != '(' {
                    lemma_collect_local(b, close + 1, in_code);
                } else {
                    match find_char(b.skip(close + 2), ')') {
                        None => lemma_collect_local(b, close + 1, in_code),
                        Some(paren) => {
                            if paren < 0 || close + 2 + paren >= b.len() {
                            } else {
                                let text = b.subrange(i + 1, close);
                                let dest = b.subrange(close + 2, close + 2 + paren);
                                let href = first_word(dest);
                                crate::text::lemma_words_chars(dest, seq![], |c: char| true);
                                let head: Seq<(Seq<char>, Seq<char>)> = if href.len() > 0
                                    && !is_external(href) {
                                    seq![(href, text)]
                                } else {
                                    seq![]
                                };
                                lemma_collect_local(b, close + 2 + paren + 1, in_code);
                                lemma_local_concat(head, collect_from(b, close + 2 + paren + 1, in_code));
                            }
                        },
                    }
                }
            },
        }
    }
}

proof fn lemma_links_from_local(ls: Seq<Seq<char>>, fence: Option<Seq<char>>)
    ensures
        local_links(links_from(ls, fence)),
    decreases ls.len(),
{
    if ls.len() > 0 {
        match fence_marker(trim_start(ls[0])) {
            Some(m) => lemma_links_from_local(ls.drop_first(), fence_after(fence, m)),
            None => {
                lemma_links_from_local(ls.drop_first(), fence);
                if fence is None {
                    lemma_collect_local(ls[0], 0, false);
                    lemma_local_concat(collect_from(ls[0], 0, false), links_from(ls.drop_first(), fence));
                }
            },
        }
    }
}

/// **Only local links are checked.** Every link `links_in` reports has a
/// target that is neither empty nor external (a web or mail address, or an
/// anchor in the same file), and holds no white space.
pub proof fn law_links_are_local(text: Seq<char>)
    ensures
        local_links(links_spec(text)),
{
    lemma_links_from_local(lines(text), None);
}

/// **An example is not a reference.** While a code block is open, lines that
/// hold no fence marker contribute no links, whatever they write.
pub proof fn law_fenced_lines_have_no_links(ls: Seq<Seq<char>>, open: Seq<char>)
    requires
        forall|i: int| 0 <= i < ls.len() ==> fence_marker(trim_start(#[trigger] ls[i])) is None,
    ensures
        links_from(ls, Some(open)) == Seq::<(Seq<char>, Seq<char>)>::empty(),
    decreases ls.len(),
{
    if ls.len() > 0 {
        assert(fence_marker(trim_start(ls[0])) is None);
        assert forall|i: int| 0 <= i < ls.drop_first().len() implies fence_marker(
            trim_start(#[trigger] ls.drop_first()[i]),
        ) is None by {
            assert(ls.drop_first()[i] == ls[i + 1]);
        }
        law_fenced_lines_have_no_links(ls.drop_first(), open);
    }
}

/// The view of an optional character vector.
pub open spec fn opt_chars(o: Option<Vec<char>>) -> Option<Seq<char>> {
    match o {
        Some(v) => Some(v@),
        None => None,
    }
}

/// `s` without the character `c`.
pub open spec fn without(s: Seq<char>, c: char) -> Seq<char>
    decreases s.len(),
{
    if s.len() == 0 {
        seq![]
    } else {
        (if s[0] == c {
            seq![]
        } else {
            seq![s[0]]
        }) + without(s.drop_first(), c)
    }
}

/// A character a slug keeps: alphanumeric, whitespace, `-` or `_`.
pub open spec fn slug_char(c: char) -> bool {
    crate::text::unicode_alphanumeric(c) || crate::text::unicode_whitespace(c) || c == '-' || c
        == '_'
}

/// `s` with only the characters a slug keeps.
pub open spec fn slug_chars(s: Seq<char>) -> Seq<char>
    decreases s.len(),
{
    if s.len() == 0 {
        seq![]
    } else {
        (if slug_char(s[0]) {
            seq![s[0]]
        } else {
            seq![]
        }) + slug_chars(s.drop_first())
    }
}

/// The slug of a heading, as markdown renderers produce anchors: backticks
/// removed (leaving no dash), lowercased, only alphanumerics, whitespace,
/// `-` and `_` kept, and the words joined by `-`.
pub open spec fn slug_spec(title: Seq<char>) -> Seq<char> {
    crate::pathstr::join_with(
        words(slug_chars(crate::text::unicode_lowercase(without(title, '`')))),
        seq!['-'],
    )
}

/// The slug of a heading title (see `slug_spec`).
pub fn slug(title: &str) -> (r: String)
    ensures
        r@ == slug_spec(title@),
{
    let v = chars_of(title);
    let mut a: Vec<char> = Vec::new();
    let mut i: usize = 0;
    assert(v@.skip(0) =~= v@);
    assert(a@ + without(v@, '`') =~= without(v@, '`'));
    while i < v.len()
        invariant
            i <= v.len(),
            a@ + without(v@.skip(i as int), '`') == without(v@, '`'),
        decreases v.len() - i,
    {
        let ghost t = v@.skip(i as int);
        assert(t[0] == v@[i as int]);
        assert(t.drop_first() =~= v@.skip(i + 1));
        let ghost before = a@;
        if v[i] != '`' {
            a.push(v[i]);
            assert(before + (seq![v@[i as int]] + without(v@.skip(i + 1), '`')) =~= a@ + without(
                v@.skip(i + 1),
                '`',
            ));
        } else {
            assert(before + (Seq::<char>::empty() + without(v@.skip(i + 1), '`')) =~= a@ + without(
                v@.skip(i + 1),
                '`',
            ));
        }
        i = i + 1;
    }
    assert(v@.skip(i as int) =~= Seq::<char>::empty());
    assert(a@ + Seq::<char>::empty() =~= a@);
    let low = crate::text::lowercase(&a);
    let mut k: Vec<char> = Vec::new();
    let mut j: usize = 0;
    assert(low@.skip(0) =~= low@);
    assert(k@ + slug_chars(low@) =~= slug_chars(low@));
    while j < low.len()
        invariant
            j <= low.len(),
            k@ + slug_chars(low@.skip(j as int)) == slug_chars(low@),
        decreases low.len() - j,
    {
        let ghost t = low@.skip(j as int);
        assert(t[0] == low@[j as int]);
        assert(t.drop_first() =~= low@.skip(j + 1));
        let c = low[j];
        let ghost before = k@;
        if crate::text::is_alphanumeric(c) || crate::text::is_whitespace(c) || c == '-' || c == '_' {
            k.push(c);
            assert(before + (seq![c] + slug_chars(low@.skip(j + 1))) =~= k@ + slug_chars(
                low@.skip(j + 1),
            ));
        } else {
            assert(before + (Seq::<char>::empty() + slug_chars(low@.skip(j + 1))) =~= k@
                + slug_chars(low@.skip(j + 1)));
        }
        j = j + 1;
    }
    assert(low@.skip(j as int) =~= Seq::<char>::empty());
    assert(k@ + Seq::<char>::empty() =~= k@);
    let ws = words_of(&k);
    let mut dash: Vec<char> = Vec::new();
    dash.push('-');
    assert(dash@ == seq!['-']);
    let joined = crate::pathstr::join_parts(&ws, &dash);
    string_of(&joined)
}

/// The title of an ATX heading line (already left-trimmed): one to six `#`
/// followed by a space; the rest, trimmed.
pub open spec fn heading_title(t: Seq<char>) -> Option<Seq<char>> {
    let h = leading(t, '#');
    if 1 <= h <= 6 && h < t.len() && t[h as int] == ' ' {
        Some(trim(t.skip(h as int + 1)))
    } else {
        None
    }
}

/// The slugs of the headings of `ls`, read with the fence state `fence`.
pub open spec fn heads_from(ls: Seq<Seq<char>>, fence: Option<Seq<char>>) -> Seq<Seq<char>>
    decreases ls.len(),
{
    if ls.len() == 0 {
        seq![]
    } else {
        let t = trim_start(ls[0]);
        match fence_marker(t) {
            Some(m) => heads_from(ls.drop_first(), fence_after(fence, m)),
            None => {
                if fence is Some {
                    heads_from(ls.drop_first(), fence)
                } else {
                    match heading_title(t) {
                        Some(title) => seq![slug_spec(title)] + heads_from(ls.drop_first(), fence),
                        None => heads_from(ls.drop_first(), fence),
                    }
                }
            },
        }
    }
}

/// The slugs of the headings of a markdown text, outside code blocks.
pub open spec fn headings_spec(text: Seq<char>) -> Seq<Seq<char>> {
    heads_from(lines(text), None)
}

/// Pushing onto a sequence adds the element to its set.
proof fn lemma_push_to_set(s: Seq<Seq<char>>, x: Seq<char>)
    ensures
        s.push(x).to_set() == s.to_set().insert(x),
{
    assert forall|a: Seq<char>| #[trigger] s.push(x).to_set().contains(a) <==> s.to_set().insert(x).contains(a) by {
        assert(s.push(x).to_set().contains(a) == s.push(x).contains(a));
        assert(s.to_set().contains(a) == s.contains(a));
        if s.push(x).contains(a) {
            let i = choose|i: int| 0 <= i < s.push(x).len() && s.push(x)[i] == a;
            if i < s.len() {
                assert(s[i] == a);
            }
        }
        if s.contains(a) {
            let i = choose|i: int| 0 <= i < s.len() && s[i] == a;
            assert(s.push(x)[i] == a);
        }
        if a == x {
            assert(s.push(x)[s.len() as int] == x);
        }
    }
    assert(s.push(x).to_set() =~= s.to_set().insert(x));
}

/// Whether `v` holds `x`.
fn holds(v: &Vec<Vec<char>>, x: &Vec<char>) -> (b: bool)
    ensures
        b == views(v@).contains(x@),
{
    let mut i: usize = 0;
    while i < v.len()
        invariant
            i <= v.len(),
            forall|j: int| 0 <= j < i ==> views(v@)[j] != x@,
        decreases v.len() - i,
    {
        if crate::text::same_chars(&v[i], x) {
            assert(views(v@)[i as int] == x@);
            return true;
        }
        i = i + 1;
    }
    false
}

/// The slug of the title of heading line `t`, if it is one.
fn heading_slug(t: &Vec<char>) -> (r: Option<Vec<char>>)
    ensures
        match heading_title(t@) {
            Some(title) => r matches Some(v) && v@ == slug_spec(title),
            None => r is None,
        },
{
    assert(t@.skip(0) =~= t@);
    let h = count_leading(t, 0, '#');
    if 1 <= h && h <= 6 && h < t.len() && t[h] == ' ' {
        let rest = copy_range(t, h + 1, t.len());
        assert(rest@ =~= t@.skip(h + 1));
        let title = trim_chars(&rest);
        let s = slug(string_of(&title).as_str());
        Some(chars_of(s.as_str()))
    } else {
        None
    }
}

/// The slugs of the headings of a markdown text, as renderers produce them,
/// leaving out lines inside code blocks: each slug once, in sorted order.
pub fn headings(text: &str) -> (r: Vec<String>)
    ensures
        crate::order::strs(r@).to_set() == headings_spec(text@).to_set(),
        crate::order::strs(r@).no_duplicates(),
        crate::order::sorted(crate::order::strs(r@)),
{
    let v = chars_of(text);
    let ls = lines_of(&v);
    let ghost lsv = views(ls@);
    let mut found: Vec<Vec<char>> = Vec::new();
    let mut fence: Option<Vec<char>> = None;
    let mut i: usize = 0;
    let ghost all = headings_spec(text@);
    assert(lsv.skip(0) =~= lsv);
    assert(Seq::<Seq<char>>::empty() + all =~= all);
    let ghost mut seen: Seq<Seq<char>> = seq![];
    while i < ls.len()
        invariant
            i <= ls.len(),
            lsv == views(ls@),
            lsv == lines(text@),
            all == headings_spec(text@),
            seen + heads_from(lsv.skip(i as int), opt_chars(fence)) == all,
            views(found@).to_set() == seen.to_set(),
            views(found@).no_duplicates(),
        decreases ls.len() - i,
    {
        let ghost rest = lsv.skip(i as int);
        assert(rest[0] == ls@[i as int]@);
        assert(rest.drop_first() =~= lsv.skip(i + 1));
        let t = trim_start_chars(&ls[i]);
        match fence_marker_of(&t) {
            Some(marker) => {
                let next = match fence {
                    Some(open) => {
                        if marker.len() >= open.len() && marker.len() > 0 && open.len() > 0
                            && marker[0] == open[0] {
                            None
                        } else {
                            Some(open)
                        }
                    },
                    None => Some(marker),
                };
                fence = next;
            },
            None => {
                if fence.is_none() {
                    match heading_slug(&t) {
                        Some(sl) => {
                            let ghost sv = sl@;
                            proof {
                                assert(seen + (seq![sv] + heads_from(lsv.skip(i + 1), None))
                                    =~= seen.push(sv) + heads_from(lsv.skip(i + 1), None));
                            }
                            if !holds(&found, &sl) {
                                let ghost before = found@;
                                let ghost fv = views(found@);
                                found.push(sl);
                                proof {
                                    lemma_views_push(before, sl);
                                    lemma_push_to_set(fv, sv);
                                    lemma_push_to_set(seen, sv);
                                    let nv = views(found@);
                                    assert forall|a: int, b: int|
                                        0 <= a < nv.len() && 0 <= b < nv.len() && a != b implies nv[a]
                                        != nv[b] by {
                                        if a < fv.len() && b < fv.len() {
                                            assert(nv[a] == fv[a] && nv[b] == fv[b]);
                                        } else if a < fv.len() {
                                            assert(nv[a] == fv[a]);
                                            assert(fv.contains(fv[a]));
                                        } else if b < fv.len() {
                                            assert(nv[b] == fv[b]);
                                            assert(fv.contains(fv[b]));
                                        }
                                    }
                                }
                            } else {
                                proof {
                                    lemma_push_to_set(seen, sv);
                                    assert(views(found@).to_set().contains(sv));
                                    assert(seen.to_set().insert(sv) =~= seen.to_set());
                                }
                            }
                            proof {
                                seen = seen.push(sv);
                            }
                        },
                        None => {},
                    }
                }
            },
        }
        i = i + 1;
    }
    assert(lsv.skip(i as int) =~= Seq::<Seq<char>>::empty());
    assert(seen + Seq::<Seq<char>>::empty() =~= seen);
    let mut r: Vec<String> = Vec::new();
    let mut k: usize = 0;
    while k < found.len()
        invariant
            k <= found.len(),
            crate::order::strs(r@) == views(found@).take(k as int),
        decreases found.len() - k,
    {
        let ghost before = r@;
        let s = string_of(&found[k]);
        r.push(s);
        assert(crate::order::strs(r@) =~= crate::order::strs(before).push(s@));
        assert(views(found@).take(k + 1) =~= views(found@).take(k as int).push(found@[k as int]@));
        k = k + 1;
    }
    assert(views(found@).take(k as int) =~= views(found@));
    let out = crate::order::sort_names(r);
    proof {
        crate::order::lemma_same_multiset(crate::order::strs(r@), crate::order::strs(out@));
    }
    out
}

/// The value of a hexadecimal digit byte.
pub open spec fn hex_digit(b: u8) -> Option<u8> {
    if 48 <= b <= 57 {
        Some((b - 48) as u8)
    } else if 97 <= b <= 102 {
        Some((b - 87) as u8)
    } else if 65 <= b <= 70 {
        Some((b - 55) as u8)
    } else {
        None
    }
}

/// The byte that two characters after a `%` stand for, read as
/// `u8::from_str_radix(.., 16)` reads them: two hex digits, or `+` and one.
pub open spec fn hex_pair(x: u8, y: u8) -> Option<u8> {
    if x == 43 {
        hex_digit(y)
    } else {
        match (hex_digit(x), hex_digit(y)) {
            (Some(a), Some(b)) => Some((16 * a + b) as u8),
            _ => None,
        }
    }
}

/// The bytes of `b` from `i` on with each `%XX` escape replaced by its byte.
pub open spec fn decode_bytes(b: Seq<u8>, i: int) -> Seq<u8>
    decreases b.len() - i,
{
    if i < 0 || i >= b.len() {
        seq![]
    } else if b[i] == 37 && i + 2 < b.len() && hex_pair(b[i + 1], b[i + 2]) is Some {
        seq![hex_pair(b[i + 1], b[i + 2])->Some_0] + decode_bytes(b, i + 3)
    } else {
        seq![b[i]] + decode_bytes(b, i + 1)
    }
}

/// Every `%` that the decoding reads with two bytes after it has the end
/// of a character after those two bytes (the two bytes are read as text).
pub open spec fn decode_ok(b: Seq<u8>, i: int) -> bool
    decreases b.len() - i,
{
    if i < 0 || i >= b.len() {
        true
    } else if b[i] == 37 && i + 2 < b.len() {
        (i + 3 == b.len() || !vstd::utf8::is_continuation_byte(b[i + 3])) && (if hex_pair(
            b[i + 1],
            b[i + 2],
        ) is Some {
            decode_ok(b, i + 3)
        } else {
            decode_ok(b, i + 1)
        })
    } else {
        decode_ok(b, i + 1)
    }
}

/// The characters `String::from_utf8_lossy` makes of `b`.
pub uninterp spec fn utf8_lossy(b: Seq<u8>) -> Seq<char>;

/// Calls `String::from_utf8_lossy`: the result is named `utf8_lossy`, and
/// valid UTF-8 comes back decoded as it is.
#[verifier::external_body]
fn from_utf8_lossy(b: &Vec<u8>) -> (s: String)
    ensures
        s@ == utf8_lossy(b@),
        vstd::utf8::valid_utf8(b@) ==> s@ == vstd::utf8::decode_utf8(b@),
{
    String::from_utf8_lossy(b.as_slice()).into_owned()
}

/// The text `s` decodes to: `%XX` escapes replaced by their bytes, then
/// read as UTF-8 with invalid sequences replaced.
pub open spec fn decode_spec(s: Seq<char>) -> Seq<char> {
    utf8_lossy(decode_bytes(vstd::utf8::encode_utf8(s), 0))
}

/// The hex value of `b`, if it is a hex digit.
fn hex_digit_exec(b: u8) -> (r: Option<u8>)
    ensures
        r == hex_digit(b),
{
    if 48 <= b && b <= 57 {
        Some(b - 48)
    } else if 97 <= b && b <= 102 {
        Some(b - 87)
    } else if 65 <= b && b <= 70 {
        Some(b - 55)
    } else {
        None
    }
}

/// The byte two characters after a `%` stand for.
fn hex_pair_exec(x: u8, y: u8) -> (r: Option<u8>)
    ensures
        r == hex_pair(x, y),
{
    if x == 43 {
        return hex_digit_exec(y);
    }
    match (hex_digit_exec(x), hex_digit_exec(y)) {
        (Some(a), Some(b)) => Some(16 * a + b),
        _ => None,
    }
}

/// Whether `decode` accepts `s`: its escapes can be read without cutting a
/// character in two.
pub fn decodable(s: &str) -> (ok: bool)
    ensures
        ok == decode_ok(vstd::utf8::encode_utf8(s@), 0),
{
    let b = s.as_bytes();
    let ghost bs = b@;
    let mut i: usize = 0;
    while i < b.len()
        invariant
            bs == b@,
            bs == vstd::utf8::encode_utf8(s@),
            i <= b.len(),
            decode_ok(bs, i as int) == decode_ok(bs, 0),
        decreases b.len() - i,
    {
        if b[i] == 37 && b.len() > 2 && i < b.len() - 2 {
            if i + 3 < b.len() && 0x80 <= b[i + 3] && b[i + 3] <= 0xbf {
                assert(vstd::utf8::is_continuation_byte(bs[i + 3]));
                assert(!decode_ok(bs, i as int));
                return false;
            }
            if hex_pair_exec(b[i + 1], b[i + 2]).is_some() {
                i = i + 3;
            } else {
                i = i + 1;
            }
        } else {
            i = i + 1;
        }
    }
    true
}

proof fn lemma_scalar_not_percent(u: u32)
    requires
        vstd::utf8::is_scalar(u),
        u != 37,
    ensures
        forall|j: int| 0 <= j < vstd::utf8::encode_scalar(u).len() ==> #[trigger] vstd::utf8::encode_scalar(u)[j] != 37,
{
    let e = vstd::utf8::encode_scalar(u);
    if vstd::utf8::has_width_1_encoding(u) {
        assert(((u & 0x7f) as u8) != 37u8) by (bit_vector)
            requires
                u <= 0x7f,
                u != 37,
        ;
    } else {
        assert((0xC0u8 | ((u >> 6) & 0x1F) as u8) != 37u8) by (bit_vector);
        assert((0xE0u8 | ((u >> 12) & 0x0F) as u8) != 37u8) by (bit_vector);
        assert((0xF0u8 | ((u >> 18) & 0x7) as u8) != 37u8) by (bit_vector);
        assert((0x80u8 | (u & 0x3F) as u8) != 37u8) by (bit_vector);
        assert((0x80u8 | ((u >> 6) & 0x3F) as u8) != 37u8) by (bit_vector);
        assert((0x80u8 | ((u >> 12) & 0x3F) as u8) != 37u8) by (bit_vector);
    }
}

proof fn lemma_encode_not_percent(s: Seq<char>)
    requires
        !s.contains('%'),
    ensures
        forall|j: int| 0 <= j < vstd::utf8::encode_utf8(s).len() ==> #[trigger] vstd::utf8::encode_utf8(s)[j] != 37,
    decreases s.len(),
{
    if s.len() > 0 {
        let u = s[0] as u32;
        vstd::utf8::char_is_scalar(s[0]);
        assert(s[0] != '%');
        if u == 37 {
            vstd::utf8::char_u32_cast(s[0], u);
            assert(s[0] == (37u32 as char));
        }
        lemma_scalar_not_percent(u);
        let rest = s.drop_first();
        assert(!rest.contains('%')) by {
            if rest.contains('%') {
                let i = choose|i: int| 0 <= i < rest.len() && rest[i] == '%';
                assert(s[i + 1] == '%');
            }
        }
        lemma_encode_not_percent(rest);
        let a = vstd::utf8::encode_scalar(u);
        let b = vstd::utf8::encode_utf8(rest);
        assert(vstd::utf8::encode_utf8(s) == a + b);
        assert forall|j: int| 0 <= j < (a + b).len() implies #[trigger] (a + b)[j] != 37 by {
            if j < a.len() {
                assert((a + b)[j] == a[j]);
            } else {
                assert((a + b)[j] == b[j - a.len()]);
            }
        }
    }
}

proof fn lemma_decode_plain(b: Seq<u8>, i: int)
    requires
        0 <= i <= b.len(),
        forall|j: int| 0 <= j < b.len() ==> #[trigger] b[j] != 37,
    ensures
        decode_bytes(b, i) == b.skip(i),
    decreases b.len() - i,
{
    if i < b.len() {
        lemma_decode_plain(b, i + 1);
        assert(b.skip(i) =~= seq![b[i]] + b.skip(i + 1));
    } else {
        assert(b.skip(i) =~= Seq::<u8>::empty());
    }
}

/// `%C3%A9` becomes `é`: anchors with accents travel escaped.
pub fn decode(s: &str) -> (r: String)
    requires
        decode_ok(vstd::utf8::encode_utf8(s@), 0),
    ensures
        r@ == decode_spec(s@),
        vstd::utf8::valid_utf8(decode_bytes(vstd::utf8::encode_utf8(s@), 0)) ==> r@
            == vstd::utf8::decode_utf8(decode_bytes(vstd::utf8::encode_utf8(s@), 0)),
        !s@.contains('%') ==> r@ == s@,
{
    let b = s.as_bytes();
    let ghost bs = b@;
    let mut out: Vec<u8> = Vec::new();
    let mut i: usize = 0;
    assert(out@ + decode_bytes(bs, 0) =~= decode_bytes(bs, 0));
    while i < b.len()
        invariant
            bs == b@,
            i <= b.len(),
            out@ + decode_bytes(bs, i as int) == decode_bytes(bs, 0),
        decreases b.len() - i,
    {
        let ghost before = out@;
        if b[i] == 37 && b.len() > 2 && i < b.len() - 2 {
            match hex_pair_exec(b[i + 1], b[i + 2]) {
                Some(v) => {
                    out.push(v);
                    assert(before + (seq![v] + decode_bytes(bs, i + 3)) =~= out@ + decode_bytes(
                        bs,
                        i + 3,
                    ));
                    i = i + 3;
                    continue;
                },
                None => {},
            }
        }
        out.push(b[i]);
        assert(before + (seq![bs[i as int]] + decode_bytes(bs, i + 1)) =~= out@ + decode_bytes(
            bs,
            i + 1,
        ));
        i = i + 1;
    }
    assert(out@ + Seq::<u8>::empty() =~= out@);
    proof {
        if !s@.contains('%') {
            lemma_encode_not_percent(s@);
            lemma_decode_plain(bs, 0);
            assert(bs.skip(0) =~= bs);
            vstd::utf8::encode_utf8_valid_utf8(s@);
            vstd::utf8::encode_utf8_decode_utf8(s@);
        }
    }
    from_utf8_lossy(&out)
}

/// The part of `href` before its first `#` and the part after it (empty
/// when there is no `#`).
pub open spec fn split_anchor_spec(href: Seq<char>) -> (Seq<char>, Seq<char>) {
    match find_char(href, '#') {
        Some(k) => if 0 <= k < href.len() {
            (href.take(k), href.skip(k + 1))
        } else {
            (href, seq![])
        },
        None => (href, seq![]),
    }
}

/// Splits a link target at its first `#` into path and anchor.
pub fn split_anchor(href: &str) -> (r: (String, String))
    ensures
        (r.0@, r.1@) == split_anchor_spec(href@),
{
    let v = chars_of(href);
    proof {
        lemma_first_where(v@, is_char('#'));
    }
    assert(v@.skip(0) =~= v@);
    match find_from(&v, '#', 0) {
        Some(k) => {
            assert(v@.subrange(0, k as int) =~= v@.take(k as int));
            assert(v@.subrange(k + 1, v.len() as int) =~= v@.skip(k + 1));
            (string_range(&v, 0, k), string_range(&v, k + 1, v.len()))
        },
        None => {
            let e = String::new();
            assert(e@ =~= Seq::<char>::empty());
            (string_of(&v), e)
        },
    }
}

/// Resolves `..` and `.` without touching the disk: the target may not
/// exist, which is what is being found out.
pub fn normalize(p: &str) -> (r: String)
    ensures
        r@ == crate::pathstr::normalize(p@),
{
    let v = chars_of(p);
    let n = crate::pathstr::normalize_chars(&v);
    string_of(&n)
}

/// `p` relative to `root` when `root` is one of its ancestors, else `p`.
pub fn rel(root: &str, p: &str) -> (r: String)
    ensures
        r@ == match crate::pathstr::strip_prefix(p@, root@) {
            Some(x) => x,
            None => p@,
        },
{
    let pv = chars_of(p);
    let rv = chars_of(root);
    match crate::pathstr::strip_prefix_chars(&pv, &rv) {
        Some(x) => string_of(&x),
        None => string_of(&pv),
    }
}

/// Where a link written in directory `dir` leads: the target path, with
/// `..` and `.` resolved, and the anchor. `None` for a bare `#heading`,
/// which points into the same file.
pub open spec fn link_target_spec(dir: Seq<char>, href: Seq<char>) -> Option<(Seq<char>, Seq<char>)> {
    let (path, anchor) = split_anchor_spec(href);
    if path.len() == 0 {
        None
    } else {
        Some((crate::pathstr::normalize(crate::pathstr::join(dir, decode_spec(path))), anchor))
    }
}

/// Whether the path part of `href` can be decoded.
pub open spec fn href_decodable(href: Seq<char>) -> bool {
    decode_ok(vstd::utf8::encode_utf8(split_anchor_spec(href).0), 0)
}

/// Where a link written in directory `dir` leads (see `link_target_spec`).
pub fn link_target(dir: &str, href: &str) -> (r: Option<(String, String)>)
    requires
        href_decodable(href@),
    ensures
        match link_target_spec(dir@, href@) {
            Some((t, a)) => r matches Some(x) && x.0@ == t && x.1@ == a,
            None => r is None,
        },
        r is None <==> split_anchor_spec(href@).0.len() == 0,
        r matches Some(x) ==> x.1@ == split_anchor_spec(href@).1,
        r matches Some(x) ==> (vstd::utf8::valid_utf8(
            decode_bytes(vstd::utf8::encode_utf8(split_anchor_spec(href@).0), 0),
        ) ==> x.0@ == crate::pathstr::normalize(
            crate::pathstr::join(
                dir@,
                vstd::utf8::decode_utf8(
                    decode_bytes(vstd::utf8::encode_utf8(split_anchor_spec(href@).0), 0),
                ),
            ),
        )),
        r matches Some(x) ==> (!split_anchor_spec(href@).0.contains('%') ==> x.0@
            == crate::pathstr::normalize(crate::pathstr::join(dir@, split_anchor_spec(href@).0))),
{
    let (path, anchor) = split_anchor(href);
    if path.as_str().is_empty() {
        return None;
    }
    let d = decode(path.as_str());
    let dv = chars_of(dir);
    let pv = chars_of(d.as_str());
    let joined = crate::pathstr::join_path(&dv, &pv);
    let n = crate::pathstr::normalize_chars(&joined);
    Some((string_of(&n), anchor))
}

/// The path names a markdown file: its last component has the extension
/// `md` (`Path::extension`), with a non-empty stem.
pub open spec fn has_md_extension(p: Seq<char>) -> bool {
    let cs = crate::pathstr::components(p);
    cs.len() > 0 && cs.last().len() > 3 && cs.last().skip(cs.last().len() - 3) == seq![
        '.',
        'm',
        'd',
    ]
}

/// Whether a link's anchor is to be looked for in its target: anchors are
/// being checked, the link has one, and the target is a markdown file.
pub fn wants_anchor(anchors: bool, target: &str, anchor: &str) -> (b: bool)
    ensures
        b == (anchors && anchor@.len() > 0 && has_md_extension(target@)),
{
    if !anchors || anchor.is_empty() {
        return false;
    }
    let v = chars_of(target);
    let cs = crate::pathstr::components_of(&v);
    if cs.len() == 0 {
        return false;
    }
    let last = &cs[cs.len() - 1];
    let n = last.len();
    if n <= 3 {
        return false;
    }
    let ok = last[n - 3] == '.' && last[n - 2] == 'm' && last[n - 1] == 'd';
    proof {
        let l = last@;
        assert(l == crate::text::views(cs@).last());
        let t = l.skip(n - 3);
        assert(t.len() == 3 && t[0] == l[n - 3] && t[1] == l[n - 2] && t[2] == l[n - 1]);
        if ok {
            assert(t =~= seq!['.', 'm', 'd']);
        }
    }
    ok
}

/// Whether the markdown text `dest` has a heading whose slug is the slug of
/// the decoded `anchor`.
pub fn anchor_found(dest: &str, anchor: &str) -> (b: bool)
    requires
        decode_ok(vstd::utf8::encode_utf8(anchor@), 0),
    ensures
        b == headings_spec(dest@).contains(slug_spec(decode_spec(anchor@))),
{
    let hs = headings(dest);
    let d = decode(anchor);
    let target = slug(d.as_str());
    let tv = chars_of(target.as_str());
    let mut i: usize = 0;
    while i < hs.len()
        invariant
            i <= hs.len(),
            tv@ == slug_spec(decode_spec(anchor@)),
            crate::order::strs(hs@).to_set() == headings_spec(dest@).to_set(),
            forall|j: int| 0 <= j < i ==> crate::order::strs(hs@)[j] != tv@,
        decreases hs.len() - i,
    {
        let hv = chars_of(hs[i].as_str());
        if crate::text::same_chars(&hv, &tv) {
            proof {
                let ss = crate::order::strs(hs@);
                assert(ss[i as int] == tv@);
                assert(ss.to_set().contains(tv@));
                assert(headings_spec(dest@).to_set().contains(tv@));
            }
            return true;
        }
        i = i + 1;
    }
    proof {
        let ss = crate::order::strs(hs@);
        if headings_spec(dest@).contains(tv@) {
            assert(headings_spec(dest@).to_set().contains(tv@));
            assert(ss.to_set().contains(tv@));
            assert(ss.contains(tv@));
        }
    }
    false
}

/// What is wrong with a link whose resolved target is `target` and whose
/// anchor is `anchor`, given whether the target exists and what it holds
/// (`None` when it cannot be read): a missing target, a missing heading when
/// anchors are checked and the target is markdown, or nothing.
pub open spec fn problem_spec(
    anchors: bool,
    target: Seq<char>,
    anchor: Seq<char>,
    exists: bool,
    dest: Option<Seq<char>>,
) -> Option<Why> {
    if !exists {
        Some(Why::Missing)
    } else if !(anchors && anchor.len() > 0 && has_md_extension(target)) {
        None
    } else {
        match dest {
            None => None,
            Some(t) => if headings_spec(t).contains(slug_spec(decode_spec(anchor))) {
                None
            } else {
                Some(Why::Anchor)
            },
        }
    }
}

/// What is wrong with a link (see `problem_spec`), once it is known whether
/// its target exists and, when its anchor is to be looked for, what the
/// target holds.
pub fn link_problem(anchors: bool, target: &str, anchor: &str, exists: bool, dest: Option<String>) -> (r:
    Option<Why>)
    requires
        exists && anchors && anchor@.len() > 0 && has_md_extension(target@) && dest is Some
            ==> decode_ok(vstd::utf8::encode_utf8(anchor@), 0),
    ensures
        r == problem_spec(anchors, target@, anchor@, exists, opt_view_string(dest)),
{
    if !exists {
        return Some(Why::Missing);
    }
    if !wants_anchor(anchors, target, anchor) {
        return None;
    }
    match dest {
        None => None,
        Some(t) => {
            if anchor_found(t.as_str(), anchor) {
                None
            } else {
                Some(Why::Anchor)
            }
        },
    }
}

/// A directory the walk for markdown files does not enter: `.git`,
/// `target`, `node_modules` and `.bilink`.
pub open spec fn skipped_dir_spec(name: Seq<char>) -> bool {
    ||| name == seq!['.', 'g', 'i', 't']
    ||| name == seq!['t', 'a', 'r', 'g', 'e', 't']
    ||| name == seq!['n', 'o', 'd', 'e', '_', 'm', 'o', 'd', 'u', 'l', 'e', 's']
    ||| name == seq!['.', 'b', 'i', 'l', 'i', 'n', 'k']
}

/// Whether the walk for markdown files skips the directory `name`.
pub fn skipped_dir(name: &str) -> (b: bool)
    ensures
        b == skipped_dir_spec(name@),
{
    let v = chars_of(name);
    let git: Vec<char> = vec!['.', 'g', 'i', 't'];
    let target: Vec<char> = vec!['t', 'a', 'r', 'g', 'e', 't'];
    let node: Vec<char> = vec!['n', 'o', 'd', 'e', '_', 'm', 'o', 'd', 'u', 'l', 'e', 's'];
    let bilink: Vec<char> = vec!['.', 'b', 'i', 'l', 'i', 'n', 'k'];
    assert(git@ =~= seq!['.', 'g', 'i', 't']);
    assert(target@ =~= seq!['t', 'a', 'r', 'g', 'e', 't']);
    assert(node@ =~= seq!['n', 'o', 'd', 'e', '_', 'm', 'o', 'd', 'u', 'l', 'e', 's']);
    assert(bilink@ =~= seq!['.', 'b', 'i', 'l', 'i', 'n', 'k']);
    crate::text::same_chars(&v, &git) || crate::text::same_chars(&v, &target)
        || crate::text::same_chars(&v, &node) || crate::text::same_chars(&v, &bilink)
}

/// A file name the walk collects: it ends with `.md`.
pub open spec fn markdown_name(name: Seq<char>) -> bool {
    name.len() >= 3 && name.skip(name.len() - 3) == seq!['.', 'm', 'd']
}

/// Whether the walk collects the file `name` as markdown.
pub fn is_markdown_name(name: &str) -> (b: bool)
    ensures
        b == markdown_name(name@),
{
    let v = chars_of(name);
    let n = v.len();
    if n < 3 {
        return false;
    }
    let ok = v[n - 3] == '.' && v[n - 2] == 'm' && v[n - 1] == 'd';
    proof {
        let t = v@.skip(n - 3);
        assert(t.len() == 3 && t[0] == v@[n - 3] && t[1] == v@[n - 2] && t[2] == v@[n - 1]);
        if ok {
            assert(t =~= seq!['.', 'm', 'd']);
        }
    }
    ok
}

proof fn lemma_without_twice(s: Seq<char>, c: char)
    ensures
        without(without(s, c), c) == without(s, c),
    decreases s.len(),
{
    if s.len() > 0 {
        lemma_without_twice(s.drop_first(), c);
        let w = without(s, c);
        let head: Seq<char> = if s[0] == c {
            seq![]
        } else {
            seq![s[0]]
        };
        let rest = without(s.drop_first(), c);
        assert(w == head + rest);
        if s[0] != c {
            assert(w[0] == s[0]);
            assert(w.drop_first() =~= rest);
        } else {
            assert(w =~= rest);
        }
    }
}

proof fn lemma_slug_chars_kept(s: Seq<char>)
    ensures
        forall|j: int| 0 <= j < slug_chars(s).len() ==> slug_char(#[trigger] slug_chars(s)[j]),
    decreases s.len(),
{
    if s.len() > 0 {
        lemma_slug_chars_kept(s.drop_first());
        let head: Seq<char> = if slug_char(s[0]) {
            seq![s[0]]
        } else {
            seq![]
        };
        let rest = slug_chars(s.drop_first());
        assert(slug_chars(s) == head + rest);
        assert forall|j: int| 0 <= j < slug_chars(s).len() implies slug_char(#[trigger] slug_chars(s)[j]) by {
            if j >= head.len() {
                assert(slug_chars(s)[j] == rest[j - head.len()]);
            }
        }
    }
}

/// A character a finished slug holds: alphanumeric, `-` or `_`.
pub open spec fn slug_text_char(c: char) -> bool {
    crate::text::unicode_alphanumeric(c) || c == '-' || c == '_'
}

/// **What a slug holds.** A slug holds only alphanumeric characters, `-`
/// and `_`, and backticks in the title make no difference to it.
pub proof fn law_slug_chars(title: Seq<char>)
    ensures
        forall|j: int| 0 <= j < slug_spec(title).len() ==> slug_text_char(#[trigger] slug_spec(title)[j]),
        slug_spec(without(title, '`')) == slug_spec(title),
{
    lemma_without_twice(title, '`');
    let x = slug_chars(crate::text::unicode_lowercase(without(title, '`')));
    lemma_slug_chars_kept(crate::text::unicode_lowercase(without(title, '`')));
    crate::text::lemma_words_chars(x, seq![], |c: char| slug_char(c));
    let ws = words(x);
    assert forall|i: int, j: int| 0 <= i < ws.len() && 0 <= j < ws[i].len() implies slug_text_char(
        #[trigger] ws[i][j],
    ) by {
        assert(slug_char(ws[i][j]) && !crate::text::unicode_whitespace(ws[i][j]));
    }
    crate::pathstr::lemma_join_with_chars(ws, seq!['-'], |c: char| slug_text_char(c));
}

proof fn lemma_links_from_concat(l1: Seq<Seq<char>>, l2: Seq<Seq<char>>)
    requires
        forall|i: int| 0 <= i < l1.len() ==> fence_marker(trim_start(#[trigger] l1[i])) is None,
    ensures
        links_from(l1 + l2, None) == links_from(l1, None) + links_from(l2, None),
    decreases l1.len(),
{
    if l1.len() == 0 {
        assert(l1 + l2 =~= l2);
        assert(links_from(l1, None) + links_from(l2, None) =~= links_from(l2, None));
    } else {
        let r1 = l1.drop_first();
        assert(fence_marker(trim_start(l1[0])) is None);
        assert forall|i: int| 0 <= i < r1.len() implies fence_marker(trim_start(#[trigger] r1[i])) is None by {
            assert(r1[i] == l1[i + 1]);
        }
        lemma_links_from_concat(r1, l2);
        assert((l1 + l2)[0] == l1[0]);
        assert((l1 + l2).drop_first() =~= r1 + l2);
        assert(links_from(l1 + l2, None) =~= links_from(l1, None) + links_from(l2, None));
    }
}

/// **Texts read line by line.** For a text `a` of whole lines (empty, or
/// ending with a line break), none of which opens or closes a code block,
/// the links of `a` followed by `b` are those of `a` followed by those of
/// `b`.
pub proof fn law_links_of_joined_texts(a: Seq<char>, b: Seq<char>)
    requires
        a.len() == 0 || a.last() == '\n',
        forall|i: int| 0 <= i < lines(a).len() ==> fence_marker(trim_start(#[trigger] lines(a)[i])) is None,
    ensures
        links_spec(a + b) == links_spec(a) + links_spec(b),
{
    crate::text::lemma_lines_concat(a, b);
    lemma_links_from_concat(lines(a), lines(b));
}

/// The view of an optional string.
pub open spec fn opt_view_string(o: Option<String>) -> Option<Seq<char>> {
    match o {
        Some(t) => Some(t@),
        None => None,
    }
}

/// **Anchors only add.** Checking anchors changes nothing about missing
/// targets: without it a link's problem is a missing target or nothing,
/// and with it the same links are reported missing, while the others may
/// only be reported for their anchor.
pub proof fn law_anchors_only_add(
    target: Seq<char>,
    anchor: Seq<char>,
    exists: bool,
    dest: Option<Seq<char>>,
)
    ensures
        problem_spec(false, target, anchor, exists, dest) == (if exists {
            None::<Why>
        } else {
            Some(Why::Missing)
        }),
        (problem_spec(true, target, anchor, exists, dest) == Some(Why::Missing)) <==> (problem_spec(
            false,
            target,
            anchor,
            exists,
            dest,
        ) == Some(Why::Missing)),
{
}

/// **One line's links are local.** The links read from a line (what
/// `collect_links` appends to its list) each have a target that is not
/// empty, not external and without white space.
pub proof fn law_line_links_are_local(line: Seq<char>)
    ensures
        local_links(collect_from(line, 0, false)),
{
    lemma_collect_local(line, 0, false);
}

/// **Texts joined by a line break.** For a text `a` whose lines neither
/// open nor close a code block, and that does not end with a carriage
/// return, `a`, a line break and then `b` have the links of `a` followed by
/// those of `b`.
pub proof fn law_links_of_texts_joined_by_newline(a: Seq<char>, b: Seq<char>)
    requires
        a.len() == 0 || a.last() != '\r',
        forall|i: int| 0 <= i < lines(a).len() ==> fence_marker(trim_start(#[trigger] lines(a)[i])) is None,
    ensures
        links_spec(a + seq!['\n'] + b) == links_spec(a) + links_spec(b),
{
    let an = a + seq!['\n'];
    crate::text::lemma_lines_newline(a);
    let e = Seq::<char>::empty();
    if a.len() == 0 || a.last() == '\n' {
        let l = lines(a) + seq![e];
        assert(trim_start(e) =~= e);
        assert(fence_marker(e) is None);
        assert forall|i: int| 0 <= i < l.len() implies fence_marker(trim_start(#[trigger] l[i])) is None by {
            if i < lines(a).len() {
                assert(l[i] == lines(a)[i]);
            } else {
                assert(l[i] == e);
            }
        }
        lemma_links_from_concat(lines(a), seq![e]);
        assert(seq![e].drop_first() =~= Seq::<Seq<char>>::empty());
        assert(leading(e, '`') == 0 && leading(e, '~') == 0);
        assert(collect_from(e, 0, false) =~= Seq::<(Seq<char>, Seq<char>)>::empty());
        assert(links_from(Seq::<Seq<char>>::empty(), None) =~= Seq::<(Seq<char>, Seq<char>)>::empty());
        assert(links_from(seq![e], None) =~= Seq::<(Seq<char>, Seq<char>)>::empty());
        assert(links_from(lines(a), None) + Seq::<(Seq<char>, Seq<char>)>::empty() =~= links_from(lines(a), None));
        law_links_of_joined_texts(an, b);
    } else {
        law_links_of_joined_texts(an, b);
    }
}

/// **Nested fences.** While a block opened by the marker `open` is open,
/// lines whose markers are shorter than `open` or of another character
/// (such as a three-backtick example inside a four-backtick block) leave it
/// open: neither headings nor links are read from them.
pub proof fn law_inner_fences_stay_inside(ls: Seq<Seq<char>>, open: Seq<char>)
    requires
        open.len() > 0,
        forall|i: int|
            0 <= i < ls.len() ==> (fence_marker(trim_start(#[trigger] ls[i])) matches Some(m) ==> m.len()
                < open.len() || m[0] != open[0]),
    ensures
        heads_from(ls, Some(open)) == Seq::<Seq<char>>::empty(),
        links_from(ls, Some(open)) == Seq::<(Seq<char>, Seq<char>)>::empty(),
    decreases ls.len(),
{
    if ls.len() > 0 {
        let rest = ls.drop_first();
        assert forall|i: int| 0 <= i < rest.len() implies (fence_marker(trim_start(#[trigger] rest[i]))
            matches Some(m) ==> m.len() < open.len() || m[0] != open[0]) by {
            assert(rest[i] == ls[i + 1]);
        }
        let t = trim_start(ls[0]);
        if let Some(m) = fence_marker(t) {
            assert(m.len() < open.len() || m[0] != open[0]);
        }
        law_inner_fences_stay_inside(rest, open);
    }
}

/// **A fence closes its block.** A marker line of the open block's
/// character and at least its length closes it: what follows is read as
/// outside any block.
pub proof fn law_fence_closes(line: Seq<char>, ls: Seq<Seq<char>>, open: Seq<char>)
    requires
        open.len() > 0,
        fence_marker(trim_start(line)) matches Some(m) && m.len() >= open.len() && m[0] == open[0],
    ensures
        heads_from(seq![line] + ls, Some(open)) == heads_from(ls, None),
        links_from(seq![line] + ls, Some(open)) == links_from(ls, None),
{
    assert((seq![line] + ls)[0] == line);
    assert((seq![line] + ls).drop_first() =~= ls);
}

/// How much a character changes the bracket depth: `[` opens, `]` closes.
pub open spec fn bracket_step(c: char) -> int {
    if c == '[' {
        1
    } else if c == ']' {
        -1
    } else {
        0
    }
}

/// The bracket depth that `s` leaves: `[`s opened minus `]`s closed.
pub open spec fn bracket_depth(s: Seq<char>) -> int
    decreases s.len(),
{
    if s.len() == 0 {
        0
    } else {
        bracket_step(s[0]) + bracket_depth(s.drop_first())
    }
}

/// Brackets that pair up: no prefix closes more than it opened, and the
/// whole closes all it opened.
pub open spec fn balanced(t: Seq<char>) -> bool {
    &&& bracket_depth(t) == 0
    &&& forall|i: int| 0 <= i <= t.len() ==> bracket_depth(#[trigger] t.take(i)) >= 0
}

proof fn lemma_close_nested(t: Seq<char>, rest: Seq<char>, d: int)
    requires
        d >= 1,
        forall|i: int| 0 <= i <= t.len() ==> d + bracket_depth(#[trigger] t.take(i)) >= 1,
        d + bracket_depth(t) == 1,
    ensures
        close_from(t + seq![']'] + rest, d) == Some(t.len()),
    decreases t.len(),
{
    let s = t + seq![']'] + rest;
    if t.len() == 0 {
        assert(s[0] == ']');
    } else {
        let t2 = t.drop_first();
        let d2 = d + bracket_step(t[0]);
        assert(s[0] == t[0]);
        assert(t.take(1).drop_first() =~= Seq::<char>::empty());
        assert(t.take(1)[0] == t[0]);
        assert(bracket_depth(Seq::<char>::empty()) == 0);
        assert(bracket_depth(t.take(1)) == bracket_step(t[0]) + bracket_depth(t.take(1).drop_first()));
        assert(bracket_depth(t.take(1)) == bracket_step(t[0]));
        assert(d2 >= 1);
        assert forall|i: int| 0 <= i <= t2.len() implies d2 + bracket_depth(#[trigger] t2.take(i)) >= 1 by {
            assert(t.take(i + 1).drop_first() =~= t2.take(i));
            assert(t.take(i + 1)[0] == t[0]);
            assert(d + bracket_depth(t.take(i + 1)) >= 1);
        }
        assert(s.drop_first() =~= t2 + seq![']'] + rest);
        lemma_close_nested(t2, rest, d2);
    }
}

/// **Nested brackets.** In a link text whose brackets pair up, the `]` that
/// ends the text is the one after it, not one inside it.
pub proof fn law_nested_brackets(t: Seq<char>, rest: Seq<char>)
    requires
        balanced(t),
    ensures
        close_from(t + seq![']'] + rest, 1) == Some(t.len()),
{
    assert forall|i: int| 0 <= i <= t.len() implies 1 + bracket_depth(#[trigger] t.take(i)) >= 1 by {}
    lemma_close_nested(t, rest, 1);
}

/// **A link is read whole.** A line that is just `[text](target)`, with
/// brackets in the text that pair up and a target that is not empty, not
/// external, without white space and without `)`, holds exactly that link.
pub proof fn law_single_link(t: Seq<char>, h: Seq<char>)
    requires
        balanced(t),
        h.len() > 0,
        !is_external(h),
        forall|j: int| 0 <= j < h.len() ==> !crate::text::unicode_whitespace(#[trigger] h[j]) && h[j] != ')',
    ensures
        collect_from(seq!['['] + t + seq![']', '('] + h + seq![')'], 0, false) == seq![(h, t)],
{
    let b = seq!['['] + t + seq![']', '('] + h + seq![')'];
    let tail = seq!['('] + h + seq![')'];
    assert(b.skip(1) =~= t + seq![']'] + tail);
    law_nested_brackets(t, tail);
    let close: int = 1 + t.len() as int;
    assert(b[0] == '[');
    assert(b[close] == ']');
    assert(b[close + 1] == '(');
    let after = b.skip(close + 2);
    assert(after =~= h + seq![')']);
    assert forall|j: int| 0 <= j < h.len() implies !is_char(')')(#[trigger] after[j]) by {
        assert(after[j] == h[j]);
    }
    crate::text::lemma_first_where_at(after, is_char(')'), h.len() as int);
    assert(b.subrange(1, close) =~= t);
    assert(b.subrange(close + 2, close + 2 + h.len() as int) =~= h);
    crate::text::lemma_one_word(h, seq![]);
    assert(Seq::<char>::empty() + h =~= h);
    assert(first_word(h) == h);
    assert(close + 2 + h.len() + 1 == b.len());
    assert(collect_from(b, b.len() as int, false) == Seq::<(Seq<char>, Seq<char>)>::empty());
    assert(seq![(h, t)] + Seq::<(Seq<char>, Seq<char>)>::empty() =~= seq![(h, t)]);
}

/// **A link is found in a document.** A document that is just the line
/// `[text](target)`, with brackets in the text that pair up, no line break in
/// it, and a target that is not empty, not external, without white space and
/// without `)`, holds exactly that link (`links_in` gives it).
pub proof fn law_single_link_document(t: Seq<char>, h: Seq<char>)
    requires
        balanced(t),
        forall|j: int| 0 <= j < t.len() ==> #[trigger] t[j] != '\n',
        h.len() > 0,
        !is_external(h),
        forall|j: int| 0 <= j < h.len() ==> !crate::text::unicode_whitespace(#[trigger] h[j]) && h[j] != ')',
    ensures
        links_spec(seq!['['] + t + seq![']', '('] + h + seq![')']) == seq![(h, t)],
{
    let b = seq!['['] + t + seq![']', '('] + h + seq![')'];
    law_single_link(t, h);
    assert forall|j: int| 0 <= j < b.len() implies !is_char('\n')(#[trigger] b[j]) by {
        if 1 <= j < 1 + t.len() {
            assert(b[j] == t[j - 1]);
        } else if 3 + t.len() <= j < 3 + t.len() + h.len() {
            assert(b[j] == h[j - 3 - t.len()]);
            assert(!crate::text::unicode_whitespace(h[j - 3 - t.len()]));
        }
    }
    crate::text::lemma_first_where_at(b, is_char('\n'), b.len() as int);
    assert(b.len() > 0);
    assert(lines(b) == seq![b]);
    assert(b[0] == '[');
    assert(!crate::text::unicode_whitespace(b[0]));
    assert(trim_start(b) == b);
    assert(leading(b, '`') == 0 && leading(b, '~') == 0);
    assert(fence_marker(trim_start(b)) is None);
    assert(seq![b].drop_first() =~= Seq::<Seq<char>>::empty());
    assert(seq![b][0] == b);
    assert(links_from(Seq::<Seq<char>>::empty(), None) =~= Seq::<(Seq<char>, Seq<char>)>::empty());
    assert(links_from(seq![b], None) == collect_from(b, 0, false) + links_from(seq![b].drop_first(), None));
    assert(seq![(h, t)] + Seq::<(Seq<char>, Seq<char>)>::empty() =~= seq![(h, t)]);
    assert(links_spec(b) == links_from(seq![b], None));
}

} // verus!
