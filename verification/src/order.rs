//! Lexicographic order on character sequences (the order of `str`, since
//! UTF-8 preserves code point order) and sorting of names by it.
use vstd::prelude::*;
use crate::text::{chars_of, string_of, views};

verus! {

/// `a` comes no later than `b` in code point lexicographic order.
pub open spec fn lex_le(a: Seq<char>, b: Seq<char>) -> bool
    decreases a.len(),
{
    if a.len() == 0 {
        true
    } else if b.len() == 0 {
        false
    } else if a[0] != b[0] {
        a[0] < b[0]
    } else {
        lex_le(a.drop_first(), b.drop_first())
    }
}

/// Any two sequences are ordered one way or the other.
pub proof fn lemma_lex_total(a: Seq<char>, b: Seq<char>)
    ensures
        lex_le(a, b) || lex_le(b, a),
    decreases a.len(),
{
    if a.len() > 0 && b.len() > 0 && a[0] == b[0] {
        lemma_lex_total(a.drop_first(), b.drop_first());
    }
}

/// The order is transitive.
pub proof fn lemma_lex_trans(a: Seq<char>, b: Seq<char>, c: Seq<char>)
    requires
        lex_le(a, b),
        lex_le(b, c),
    ensures
        lex_le(a, c),
    decreases a.len(),
{
    if a.len() > 0 && b.len() > 0 && c.len() > 0 && a[0] == b[0] && b[0] == c[0] {
        lemma_lex_trans(a.drop_first(), b.drop_first(), c.drop_first());
    }
}

/// Whether `a` comes strictly before `b`.
pub fn lex_less(a: &Vec<char>, b: &Vec<char>) -> (r: bool)
    ensures
        r == !lex_le(b@, a@),
{
    let mut i: usize = 0;
    assert(a@.skip(0) =~= a@ && b@.skip(0) =~= b@);
    while i < a.len() && i < b.len() && a[i] == b[i]
        invariant
            i <= a.len(),
            i <= b.len(),
            forall|j: int| 0 <= j < i ==> a@[j] == b@[j],
            lex_le(b@, a@) == lex_le(b@.skip(i as int), a@.skip(i as int)),
        decreases a.len() - i,
    {
        proof {
            let bs = b@.skip(i as int);
            let as_ = a@.skip(i as int);
            assert(bs[0] == as_[0]);
            assert(bs.drop_first() =~= b@.skip(i + 1));
            assert(as_.drop_first() =~= a@.skip(i + 1));
        }
        i = i + 1;
    }
    let ghost bs = b@.skip(i as int);
    let ghost as_ = a@.skip(i as int);
    if i == b.len() {
        assert(bs.len() == 0);
        false
    } else if i == a.len() {
        assert(as_.len() == 0);
        true
    } else {
        assert(bs[0] == b@[i as int] && as_[0] == a@[i as int]);
        a[i] < b[i]
    }
}

/// Every earlier element comes no later than every later one.
pub open spec fn sorted(s: Seq<Seq<char>>) -> bool {
    forall|i: int, j: int| 0 <= i < j < s.len() ==> lex_le(#[trigger] s[i], #[trigger] s[j])
}

/// The names of `names`, sorted, as the same multiset.
pub fn sort_names(names: Vec<String>) -> (r: Vec<String>)
    ensures
        sorted(strs(r@)),
        strs(r@).to_multiset() == strs(names@).to_multiset(),
{
    broadcast use vstd::seq_lib::group_to_multiset_ensures;
    let mut out: Vec<Vec<char>> = Vec::new();
    let mut i: usize = 0;
    assert(strs(names@).take(0) =~= Seq::<Seq<char>>::empty());
    assert(views(out@) =~= Seq::<Seq<char>>::empty());
    while i < names.len()
        invariant
            i <= names.len(),
            sorted(views(out@)),
            views(out@).to_multiset() == strs(names@).take(i as int).to_multiset(),
        decreases names.len() - i,
    {
        let x = chars_of(names[i].as_str());
        let mut p: usize = 0;
        while p < out.len() && !lex_less(&x, &out[p])
            invariant
                p <= out.len(),
                forall|j: int| 0 <= j < p ==> lex_le(#[trigger] out@[j]@, x@),
            decreases out.len() - p,
        {
            proof {
                lemma_lex_total(x@, out@[p as int]@);
            }
            p = p + 1;
        }
        proof {
            if p < out.len() {
                lemma_lex_total(x@, out@[p as int]@);
            }
        }
        let ghost before = views(out@);
        let ghost old_out = out@;
        out.insert(p, x);
        proof {
            assert(views(out@) =~= before.insert(p as int, x@));
            let s = views(out@);
            assert forall|a: int, b: int| 0 <= a < b < s.len() implies lex_le(
                #[trigger] s[a],
                #[trigger] s[b],
            ) by {
                if a < p && b < p {
                    assert(s[a] == before[a] && s[b] == before[b]);
                } else if a < p && b == p {
                    assert(s[a] == old_out[a]@);
                } else if a < p && b > p {
                    assert(s[a] == before[a] && s[b] == before[b - 1]);
                    if p < before.len() {
                        assert(lex_le(before[a], x@));
                        assert(lex_le(x@, before[p as int]));
                        lemma_lex_trans(before[a], x@, before[p as int]);
                        if b - 1 > p {
                            lemma_lex_trans(before[a], before[p as int], before[b - 1]);
                        }
                    }
                } else if a == p {
                    assert(s[b] == before[b - 1]);
                    assert(lex_le(x@, before[p as int]));
                    if b - 1 > p {
                        lemma_lex_trans(x@, before[p as int], before[b - 1]);
                    }
                } else {
                    assert(s[a] == before[a - 1] && s[b] == before[b - 1]);
                }
            }
            vstd::seq_lib::to_multiset_insert(before, p as int, x@);
            assert(strs(names@).take(i + 1) =~= strs(names@).take(i as int).push(x@));
            vstd::seq_lib::to_multiset_build(strs(names@).take(i as int), x@);
        }
        i = i + 1;
    }
    assert(strs(names@).take(i as int) =~= strs(names@));
    let mut r: Vec<String> = Vec::new();
    let mut k: usize = 0;
    while k < out.len()
        invariant
            k <= out.len(),
            strs(r@) == views(out@).take(k as int),
        decreases out.len() - k,
    {
        let ghost before = r@;
        let s = string_of(&out[k]);
        r.push(s);
        assert(strs(r@) =~= strs(before).push(s@));
        assert(views(out@).take(k + 1) =~= views(out@).take(k as int).push(out@[k as int]@));
        k = k + 1;
    }
    assert(views(out@).take(k as int) =~= views(out@));
    r
}

/// The character sequences of a sequence of strings.
pub open spec fn strs(v: Seq<String>) -> Seq<Seq<char>> {
    v.map_values(|s: String| s@)
}

/// Sequences with the same elements, counted with multiplicity, have the
/// same set of elements, and one has no duplicates when the other has none.
pub proof fn lemma_same_multiset(a: Seq<Seq<char>>, b: Seq<Seq<char>>)
    requires
        a.to_multiset() == b.to_multiset(),
    ensures
        a.to_set() == b.to_set(),
        a.no_duplicates() ==> b.no_duplicates(),
{
    broadcast use vstd::seq_lib::group_to_multiset_ensures;
    assert forall|x: Seq<char>| #[trigger] a.to_set().contains(x) == b.to_set().contains(x) by {
        assert(a.contains(x) == (a.to_multiset().count(x) > 0));
        assert(b.contains(x) == (b.to_multiset().count(x) > 0));
    }
    assert(a.to_set() =~= b.to_set());
    if a.no_duplicates() {
        a.lemma_multiset_has_no_duplicates();
        b.lemma_multiset_has_no_duplicates_conv();
    }
}

} // verus!
