//! Character-level helpers shared by the parsers: searching, slicing,
//! line splitting and whitespace trimming over `Seq<char>` views.
use vstd::prelude::*;

verus! {

/// Index of the first character of `s` that satisfies `p`, if any.
pub open spec fn first_where(s: Seq<char>, p: spec_fn(char) -> bool) -> Option<int>
    decreases s.len(),
{
    if s.len() == 0 {
        None
    } else if p(s[0]) {
        Some(0)
    } else {
        match first_where(s.drop_first(), p) {
            Some(k) => Some(k + 1),
            None => None,
        }
    }
}

/// Index of the first occurrence of `c` in `s`, if any.
pub open spec fn find_char(s: Seq<char>, c: char) -> Option<int> {
    first_where(s, is_char(c))
}

/// The predicate "equals `c`".
pub open spec fn is_char(c: char) -> spec_fn(char) -> bool {
    |x: char| x == c
}

/// `first_where` is the least index whose character satisfies `p`.
pub proof fn lemma_first_where(s: Seq<char>, p: spec_fn(char) -> bool)
    ensures
        first_where(s, p) matches Some(k) ==> 0 <= k < s.len() && p(s[k]) && forall|j: int|
            0 <= j < k ==> !p(#[trigger] s[j]),
        first_where(s, p) is None ==> forall|j: int| 0 <= j < s.len() ==> !p(#[trigger] s[j]),
    decreases s.len(),
{
    if s.len() > 0 && !p(s[0]) {
        lemma_first_where(s.drop_first(), p);
        assert forall|j: int| 0 < j < s.len() implies s[j] == s.drop_first()[j - 1] by {}
    }
}

/// Conversely, an index whose character satisfies `p` after a prefix that
/// does not is the one `first_where` names.
pub proof fn lemma_first_where_at(s: Seq<char>, p: spec_fn(char) -> bool, k: int)
    requires
        0 <= k <= s.len(),
        forall|j: int| 0 <= j < k ==> !p(#[trigger] s[j]),
        k < s.len() ==> p(s[k]),
    ensures
        first_where(s, p) == (if k < s.len() { Some(k) } else { None::<int> }),
    decreases k,
{
    if k > 0 {
        assert(!p(s[0]));
        assert forall|j: int| 0 <= j < k - 1 implies !p(#[trigger] s.drop_first()[j]) by {
            assert(s.drop_first()[j] == s[j + 1]);
        }
        lemma_first_where_at(s.drop_first(), p, k - 1);
    }
}

/// The characters of `s`, in order.
pub fn chars_of(s: &str) -> (v: Vec<char>)
    ensures
        v@ == s@,
{
    let mut v: Vec<char> = Vec::new();
    for c in it: s.chars()
        invariant
            v@ == it.seq().take(it.index() as int),
            it.seq() == s@,
    {
        v.push(c);
    }
    v
}

/// A string holding exactly the characters of `v` (`FromIterator<&char>` for `String`).
#[verifier::external_body]
pub(crate) fn string_of(v: &Vec<char>) -> (s: String)
    ensures
        s@ == v@,
{
    v.iter().collect()
}

/// A copy of `v[from..to]`.
pub fn copy_range(v: &Vec<char>, from: usize, to: usize) -> (r: Vec<char>)
    requires
        from <= to <= v.len(),
    ensures
        r@ == v@.subrange(from as int, to as int),
{
    let mut r: Vec<char> = Vec::new();
    let mut i = from;
    while i < to
        invariant
            from <= i <= to <= v.len(),
            r@ == v@.subrange(from as int, i as int),
        decreases to - i,
    {
        r.push(v[i]);
        i = i + 1;
    }
    r
}

/// `v[from..to]` as a `String`.
pub fn string_range(v: &Vec<char>, from: usize, to: usize) -> (s: String)
    requires
        from <= to <= v.len(),
    ensures
        s@ == v@.subrange(from as int, to as int),
{
    let r = copy_range(v, from, to);
    string_of(&r)
}

/// Appends all of `src` to `dst`.
pub fn extend_chars(dst: &mut Vec<char>, src: &Vec<char>)
    ensures
        final(dst)@ == old(dst)@ + src@,
{
    let mut i: usize = 0;
    while i < src.len()
        invariant
            i <= src.len(),
            dst@ == old(dst)@ + src@.take(i as int),
        decreases src.len() - i,
    {
        dst.push(src[i]);
        i = i + 1;
        assert(src@.take(i as int) == src@.take((i - 1) as int).push(src@[i - 1]));
    }
    assert(src@.take(src.len() as int) == src@);
}

/// Whether `v` and `w` hold the same characters.
pub fn same_chars(v: &Vec<char>, w: &Vec<char>) -> (b: bool)
    ensures
        b == (v@ == w@),
{
    if v.len() != w.len() {
        return false;
    }
    let mut i: usize = 0;
    while i < v.len()
        invariant
            i <= v.len() == w.len(),
            v@.take(i as int) == w@.take(i as int),
        decreases v.len() - i,
    {
        if v[i] != w[i] {
            assert(v@[i as int] != w@[i as int]);
            return false;
        }
        i = i + 1;
        assert(v@.take(i as int) == v@.take((i - 1) as int).push(v@[i - 1]));
        assert(w@.take(i as int) == w@.take((i - 1) as int).push(w@[i - 1]));
    }
    assert(v@ == v@.take(i as int));
    assert(w@ == w@.take(i as int));
    true
}

/// Whether `s` begins with `prefix`.
pub open spec fn starts_with(s: Seq<char>, prefix: Seq<char>) -> bool {
    prefix.len() <= s.len() && s.take(prefix.len() as int) == prefix
}

/// Whether `v` begins with `prefix`.
pub fn has_prefix(v: &Vec<char>, prefix: &Vec<char>) -> (b: bool)
    ensures
        b == starts_with(v@, prefix@),
{
    if prefix.len() > v.len() {
        return false;
    }
    let mut i: usize = 0;
    while i < prefix.len()
        invariant
            i <= prefix.len() <= v.len(),
            v@.take(i as int) == prefix@.take(i as int),
        decreases prefix.len() - i,
    {
        if v[i] != prefix[i] {
            assert(v@.take(prefix.len() as int)[i as int] != prefix@[i as int]);
            return false;
        }
        i = i + 1;
        assert(v@.take(i as int) == v@.take((i - 1) as int).push(v@[i - 1]));
        assert(prefix@.take(i as int) == prefix@.take((i - 1) as int).push(prefix@[i - 1]));
    }
    assert(prefix@.take(i as int) == prefix@);
    true
}

/// Index of the first `c` in `v` at or after `from`, as an offset into `v`.
pub fn find_from(v: &Vec<char>, c: char, from: usize) -> (r: Option<usize>)
    requires
        from <= v.len(),
    ensures
        r matches Some(k) ==> find_char(v@.skip(from as int), c) == Some(k - from) && from <= k
            < v.len(),
        r is None ==> find_char(v@.skip(from as int), c) is None,
{
    let ghost s = v@.skip(from as int);
    let mut i = from;
    while i < v.len()
        invariant
            from <= i <= v.len(),
            s == v@.skip(from as int),
            forall|j: int| 0 <= j < i - from ==> #[trigger] s[j] != c,
        decreases v.len() - i,
    {
        assert(s[i - from] == v@[i as int]);
        if v[i] == c {
            proof {
                lemma_first_where_at(s, is_char(c), i - from);
            }
            return Some(i);
        }
        i = i + 1;
    }
    proof {
        lemma_first_where_at(s, is_char(c), i - from);
    }
    None
}

/// Unicode `White_Space` property, which `char::is_whitespace` tests: tab,
/// line feed, vertical tab, form feed, carriage return, space, next line,
/// no-break space, ogham space mark, the spaces U+2000 to U+200A, line and
/// paragraph separators, narrow no-break space, medium mathematical space
/// and ideographic space.
pub open spec fn unicode_whitespace(c: char) -> bool {
    let u = c as u32;
    ||| 0x09 <= u <= 0x0d
    ||| u == 0x20
    ||| u == 0x85
    ||| u == 0xa0
    ||| u == 0x1680
    ||| 0x2000 <= u <= 0x200a
    ||| u == 0x2028
    ||| u == 0x2029
    ||| u == 0x202f
    ||| u == 0x205f
    ||| u == 0x3000
}

/// Unicode `Alphabetic` or `Numeric` (`char::is_alphanumeric`).
pub uninterp spec fn unicode_alphanumeric(c: char) -> bool;

/// The lowercase mapping of a whole string (`str::to_lowercase`).
pub uninterp spec fn unicode_lowercase(s: Seq<char>) -> Seq<char>;

/// Whether `c` is white space (see `unicode_whitespace`).
pub fn is_whitespace(c: char) -> (b: bool)
    ensures
        b == unicode_whitespace(c),
{
    let u = c as u32;
    (0x09 <= u && u <= 0x0d) || u == 0x20 || u == 0x85 || u == 0xa0 || u == 0x1680 || (0x2000 <= u
        && u <= 0x200a) || u == 0x2028 || u == 0x2029 || u == 0x202f || u == 0x205f || u == 0x3000
}

/// Calls `char::is_alphanumeric`; the result is named `unicode_alphanumeric`.
#[verifier::external_body]
pub(crate) fn is_alphanumeric(c: char) -> (b: bool)
    ensures
        b == unicode_alphanumeric(c),
{
    c.is_alphanumeric()
}

/// Calls `str::to_lowercase` on the characters of `v`; the result is named
/// `unicode_lowercase`.
#[verifier::external_body]
pub(crate) fn lowercase(v: &Vec<char>) -> (r: Vec<char>)
    ensures
        r@ == unicode_lowercase(v@),
{
    let s: String = v.iter().collect();
    s.to_lowercase().chars().collect()
}

/// The whitespace-separated words of `s` (`str::split_whitespace`), with
/// `cur` the word being read.
pub open spec fn words_from(s: Seq<char>, cur: Seq<char>) -> Seq<Seq<char>>
    decreases s.len(),
{
    if s.len() == 0 {
        if cur.len() > 0 {
            seq![cur]
        } else {
            seq![]
        }
    } else if unicode_whitespace(s[0]) {
        (if cur.len() > 0 {
            seq![cur]
        } else {
            seq![]
        }) + words_from(s.drop_first(), seq![])
    } else {
        words_from(s.drop_first(), cur.push(s[0]))
    }
}

/// The whitespace-separated words of `s`.
pub open spec fn words(s: Seq<char>) -> Seq<Seq<char>> {
    words_from(s, seq![])
}

/// The words of `words_from(s, cur)` are not empty, and each of their
/// characters satisfies `p` (as every character of `s` and `cur` does) and
/// is not white space.
pub proof fn lemma_words_chars(s: Seq<char>, cur: Seq<char>, p: spec_fn(char) -> bool)
    requires
        forall|j: int| 0 <= j < s.len() ==> p(#[trigger] s[j]),
        forall|j: int| 0 <= j < cur.len() ==> p(#[trigger] cur[j]) && !unicode_whitespace(cur[j]),
    ensures
        forall|i: int| 0 <= i < words_from(s, cur).len() ==> (#[trigger] words_from(s, cur)[i]).len() > 0,
        forall|i: int, j: int|
            0 <= i < words_from(s, cur).len() && 0 <= j < words_from(s, cur)[i].len() ==> p(
                #[trigger] words_from(s, cur)[i][j],
            ) && !unicode_whitespace(words_from(s, cur)[i][j]),
    decreases s.len(),
{
    let ws = words_from(s, cur);
    if s.len() == 0 {
        if cur.len() > 0 {
            assert(ws == seq![cur]);
            assert forall|i: int, j: int| 0 <= i < ws.len() && 0 <= j < ws[i].len() implies p(
                #[trigger] ws[i][j],
            ) && !unicode_whitespace(ws[i][j]) by {
                assert(ws[i] == cur);
            }
        } else {
            assert(ws.len() == 0);
        }
    } else {
        let rest = s.drop_first();
        assert forall|j: int| 0 <= j < rest.len() implies p(#[trigger] rest[j]) by {
            assert(rest[j] == s[j + 1]);
        }
        assert(p(s[0]));
        if unicode_whitespace(s[0]) {
            lemma_words_chars(rest, seq![], p);
            let head: Seq<Seq<char>> = if cur.len() > 0 {
                seq![cur]
            } else {
                seq![]
            };
            let tail = words_from(rest, seq![]);
            assert(ws == head + tail);
            assert forall|i: int| 0 <= i < ws.len() implies (#[trigger] ws[i]).len() > 0 by {
                if i >= head.len() {
                    assert(ws[i] == tail[i - head.len()]);
                }
            }
            assert forall|i: int, j: int| 0 <= i < ws.len() && 0 <= j < ws[i].len() implies p(
                #[trigger] ws[i][j],
            ) && !unicode_whitespace(ws[i][j]) by {
                if i >= head.len() {
                    assert(ws[i] == tail[i - head.len()]);
                } else {
                    assert(ws[i] == cur);
                }
            }
        } else {
            let c2 = cur.push(s[0]);
            assert forall|j: int| 0 <= j < c2.len() implies p(#[trigger] c2[j]) && !unicode_whitespace(
                c2[j],
            ) by {
                if j < cur.len() {
                    assert(c2[j] == cur[j]);
                }
            }
            lemma_words_chars(rest, c2, p);
            assert(ws == words_from(rest, c2));
        }
    }
}

/// A text without white space is read as one word, when there is anything
/// to read.
pub proof fn lemma_one_word(s: Seq<char>, cur: Seq<char>)
    requires
        forall|j: int| 0 <= j < s.len() ==> !unicode_whitespace(#[trigger] s[j]),
    ensures
        words_from(s, cur) == (if (cur + s).len() > 0 {
            seq![cur + s]
        } else {
            Seq::<Seq<char>>::empty()
        }),
    decreases s.len(),
{
    if s.len() == 0 {
        assert(cur + s =~= cur);
    } else {
        let rest = s.drop_first();
        assert(!unicode_whitespace(s[0]));
        assert forall|j: int| 0 <= j < rest.len() implies !unicode_whitespace(#[trigger] rest[j]) by {
            assert(rest[j] == s[j + 1]);
        }
        lemma_one_word(rest, cur.push(s[0]));
        assert(cur.push(s[0]) + rest =~= cur + s);
    }
}

/// The words of `v`.
pub fn words_of(v: &Vec<char>) -> (r: Vec<Vec<char>>)
    ensures
        views(r@) == words(v@),
{
    let mut r: Vec<Vec<char>> = Vec::new();
    let mut cur: Vec<char> = Vec::new();
    let mut i: usize = 0;
    assert(v@.skip(0) =~= v@);
    assert(views(r@) =~= Seq::<Seq<char>>::empty());
    assert(Seq::<Seq<char>>::empty() + words(v@) =~= words(v@));
    while i < v.len()
        invariant
            i <= v.len(),
            views(r@) + words_from(v@.skip(i as int), cur@) == words(v@),
        decreases v.len() - i,
    {
        let ghost s = v@.skip(i as int);
        assert(s[0] == v@[i as int]);
        assert(s.drop_first() =~= v@.skip(i + 1));
        if is_whitespace(v[i]) {
            let ghost before = views(r@);
            if cur.len() > 0 {
                let ghost c = cur@;
                let w = cur;
                r.push(w);
                assert(views(r@) =~= before.push(c));
                assert(before + (seq![c] + words_from(v@.skip(i + 1), seq![])) =~= before.push(c)
                    + words_from(v@.skip(i + 1), seq![]));
                cur = Vec::new();
            } else {
                assert(Seq::<Seq<char>>::empty() + words_from(v@.skip(i + 1), seq![])
                    =~= words_from(v@.skip(i + 1), seq![]));
                cur = Vec::new();
            }
            assert(cur@ =~= Seq::<char>::empty());
        } else {
            cur.push(v[i]);
        }
        i = i + 1;
    }
    let ghost before = views(r@);
    assert(v@.skip(i as int) =~= Seq::<char>::empty());
    if cur.len() > 0 {
        let ghost c = cur@;
        r.push(cur);
        assert(views(r@) =~= before.push(c));
        assert(before + seq![c] =~= before.push(c));
    } else {
        assert(before + Seq::<Seq<char>>::empty() =~= before);
    }
    r
}

/// `s` without its leading whitespace (`str::trim_start`).
pub open spec fn trim_start(s: Seq<char>) -> Seq<char>
    decreases s.len(),
{
    if s.len() > 0 && unicode_whitespace(s[0]) {
        trim_start(s.drop_first())
    } else {
        s
    }
}

/// `s` without its trailing whitespace (`str::trim_end`).
pub open spec fn trim_end(s: Seq<char>) -> Seq<char>
    decreases s.len(),
{
    if s.len() > 0 && unicode_whitespace(s.last()) {
        trim_end(s.drop_last())
    } else {
        s
    }
}

/// `s` without whitespace at either end (`str::trim`).
pub open spec fn trim(s: Seq<char>) -> Seq<char> {
    trim_end(trim_start(s))
}

proof fn lemma_trim_start_skip(s: Seq<char>, i: int)
    requires
        0 <= i <= s.len(),
        forall|j: int| 0 <= j < i ==> unicode_whitespace(#[trigger] s[j]),
    ensures
        trim_start(s) == trim_start(s.skip(i)),
    decreases i,
{
    if i == 0 {
        assert(s.skip(0) == s);
    } else {
        assert(unicode_whitespace(s[0]));
        assert(s.drop_first().skip(i - 1) == s.skip(i));
        assert forall|j: int| 0 <= j < i - 1 implies unicode_whitespace(
            #[trigger] s.drop_first()[j],
        ) by {
            assert(s.drop_first()[j] == s[j + 1]);
        }
        lemma_trim_start_skip(s.drop_first(), i - 1);
    }
}

proof fn lemma_trim_end_take(s: Seq<char>, i: int)
    requires
        0 <= i <= s.len(),
        forall|j: int| i <= j < s.len() ==> unicode_whitespace(#[trigger] s[j]),
    ensures
        trim_end(s) == trim_end(s.take(i)),
    decreases s.len() - i,
{
    if i == s.len() {
        assert(s.take(i) == s);
    } else {
        assert(unicode_whitespace(s[s.len() - 1]));
        assert(s.drop_last().take(i) == s.take(i));
        assert forall|j: int| i <= j < s.len() - 1 implies unicode_whitespace(
            #[trigger] s.drop_last()[j],
        ) by {
            assert(s.drop_last()[j] == s[j]);
        }
        lemma_trim_end_take(s.drop_last(), i);
    }
}

/// Index of the first non-whitespace character of `v[from..to]` (or `to`).
fn skip_whitespace(v: &Vec<char>, from: usize, to: usize) -> (k: usize)
    requires
        from <= to <= v.len(),
    ensures
        from <= k <= to,
        forall|j: int| from <= j < k ==> unicode_whitespace(#[trigger] v@[j]),
        k < to ==> !unicode_whitespace(v@[k as int]),
{
    let mut k = from;
    while k < to && is_whitespace(v[k])
        invariant
            from <= k <= to <= v.len(),
            forall|j: int| from <= j < k ==> unicode_whitespace(#[trigger] v@[j]),
        decreases to - k,
    {
        k = k + 1;
    }
    k
}

/// `trim_start` of `v`.
pub fn trim_start_chars(v: &Vec<char>) -> (r: Vec<char>)
    ensures
        r@ == trim_start(v@),
{
    let k = skip_whitespace(v, 0, v.len());
    proof {
        lemma_trim_start_skip(v@, k as int);
        assert(v@.skip(k as int) == v@.subrange(k as int, v.len() as int));
    }
    copy_range(v, k, v.len())
}

/// `trim` of `v`.
pub fn trim_chars(v: &Vec<char>) -> (r: Vec<char>)
    ensures
        r@ == trim(v@),
{
    let t = trim_start_chars(v);
    let mut e = t.len();
    while e > 0 && is_whitespace(t[e - 1])
        invariant
            e <= t.len(),
            forall|j: int| e <= j < t.len() ==> unicode_whitespace(#[trigger] t@[j]),
        decreases e,
    {
        e = e - 1;
    }
    proof {
        lemma_trim_end_take(t@, e as int);
        let u = t@.take(e as int);
        if u.len() > 0 {
            assert(u.last() == t@[e - 1]);
        }
        assert(u == t@.subrange(0, e as int));
    }
    copy_range(&t, 0, e)
}

/// A line without the `\r` of a `\r\n` ending.
pub open spec fn strip_cr(l: Seq<char>) -> Seq<char> {
    if l.len() > 0 && l.last() == '\r' {
        l.drop_last()
    } else {
        l
    }
}

/// The lines of `s` as `str::lines` yields them: split at `\n`, a `\r` before
/// the `\n` dropped, and no empty line after a final `\n`.
pub open spec fn lines(s: Seq<char>) -> Seq<Seq<char>>
    decreases s.len(),
{
    if s.len() == 0 {
        seq![]
    } else {
        match find_char(s, '\n') {
            None => seq![s],
            Some(k) => {
                if 0 <= k < s.len() {
                    seq![strip_cr(s.take(k))] + lines(s.skip(k + 1))
                } else {
                    seq![]
                }
            },
        }
    }
}

/// A text of whole lines (empty, or ending with a line break) followed by
/// another text has the lines of the first followed by those of the second.
pub proof fn lemma_lines_concat(a: Seq<char>, b: Seq<char>)
    requires
        a.len() == 0 || a.last() == '\n',
    ensures
        lines(a + b) == lines(a) + lines(b),
    decreases a.len(),
{
    if a.len() == 0 {
        assert(a + b =~= b);
        assert(lines(a) + lines(b) =~= lines(b));
    } else {
        lemma_first_where(a, is_char('\n'));
        assert(is_char('\n')(a[a.len() - 1]));
        let k = find_char(a, '\n')->Some_0;
        let ab = a + b;
        assert forall|j: int| 0 <= j < k implies !is_char('\n')(#[trigger] ab[j]) by {
            assert(ab[j] == a[j]);
        }
        assert(ab[k] == a[k]);
        lemma_first_where_at(ab, is_char('\n'), k);
        assert(ab.take(k) =~= a.take(k));
        let a2 = a.skip(k + 1);
        assert(ab.skip(k + 1) =~= a2 + b);
        if a2.len() > 0 {
            assert(a2.last() == a.last());
        }
        lemma_lines_concat(a2, b);
        assert(lines(ab) =~= lines(a) + lines(b));
    }
}

/// A line break after a text adds an empty line when the text is empty or
/// already ends with a line break, and otherwise leaves its lines as they
/// are, unless its last character is a carriage return.
pub proof fn lemma_lines_newline(a: Seq<char>)
    requires
        a.len() == 0 || a.last() != '\r',
    ensures
        a.len() == 0 || a.last() == '\n' ==> lines(a + seq!['\n']) == lines(a) + seq![Seq::<char>::empty()],
        a.len() > 0 && a.last() != '\n' ==> lines(a + seq!['\n']) == lines(a),
    decreases a.len(),
{
    let nl = seq!['\n'];
    let e = Seq::<char>::empty();
    lemma_first_where_at(nl, is_char('\n'), 0);
    assert(nl.take(0) =~= e);
    assert(nl.skip(1) =~= e);
    assert(strip_cr(e) == e);
    assert(lines(e) =~= Seq::<Seq<char>>::empty());
    assert(lines(nl) =~= seq![strip_cr(nl.take(0))] + lines(nl.skip(1)));
    assert(lines(nl) =~= seq![e]);
    if a.len() == 0 || a.last() == '\n' {
        lemma_lines_concat(a, nl);
    } else {
        let an = a + nl;
        lemma_first_where(a, is_char('\n'));
        match find_char(a, '\n') {
            None => {
                assert forall|j: int| 0 <= j < a.len() implies !is_char('\n')(#[trigger] an[j]) by {
                    assert(an[j] == a[j]);
                }
                lemma_first_where_at(an, is_char('\n'), a.len() as int);
                assert(an.take(a.len() as int) =~= a);
                assert(an.skip(a.len() as int + 1) =~= e);
                assert(lines(an) =~= lines(a));
            },
            Some(k) => {
                assert forall|j: int| 0 <= j < k implies !is_char('\n')(#[trigger] an[j]) by {
                    assert(an[j] == a[j]);
                }
                assert(an[k] == a[k]);
                lemma_first_where_at(an, is_char('\n'), k);
                assert(k < a.len() - 1);
                let a2 = a.skip(k + 1);
                assert(an.take(k) =~= a.take(k));
                assert(an.skip(k + 1) =~= a2 + nl);
                assert(a2.last() == a.last());
                lemma_lines_newline(a2);
                assert(lines(an) =~= lines(a));
            },
        }
    }
}

/// The lines of `v` (see `lines`).
pub fn lines_of(v: &Vec<char>) -> (r: Vec<Vec<char>>)
    ensures
        views(r@) == lines(v@),
{
    let mut r: Vec<Vec<char>> = Vec::new();
    let mut start: usize = 0;
    assert(v@.skip(0) == v@);
    assert(views(r@) =~= Seq::<Seq<char>>::empty());
    assert(Seq::<Seq<char>>::empty() + lines(v@) =~= lines(v@));
    while start < v.len()
        invariant
            start <= v.len(),
            views(r@) + lines(v@.skip(start as int)) == lines(v@),
        decreases v.len() - start,
    {
        let ghost s = v@.skip(start as int);
        let nl = find_from(v, '\n', start);
        proof {
            lemma_first_where(s, is_char('\n'));
        }
        match nl {
            None => {
                let line = copy_range(v, start, v.len());
                assert(line@ == s);
                r.push(line);
                start = v.len();
                assert(v@.skip(start as int).len() == 0);
                assert(lines(v@.skip(start as int)) == Seq::<Seq<char>>::empty());
            },
            Some(k) => {
                let mut end = k;
                if end > start && v[end - 1] == '\r' {
                    end = end - 1;
                }
                let line = copy_range(v, start, end);
                assert(s.take(k - start) == v@.subrange(start as int, k as int));
                assert(line@ == strip_cr(s.take(k - start)));
                r.push(line);
                assert(s.skip(k - start + 1) == v@.skip(k + 1));
                start = k + 1;
            },
        }
    }
    r
}

/// The character sequences held by a sequence of vectors.
pub open spec fn views(v: Seq<Vec<char>>) -> Seq<Seq<char>> {
    v.map_values(|l: Vec<char>| l@)
}

} // verus!
