//! Estrato queries: `>a>b` (down), `<<` (up), `>?` and `<?` (listings).
use vstd::prelude::*;
use crate::text::{chars_of, string_of, views};
use crate::pathstr::{split_chars, split_on};
use crate::scan::{count_leading, leading};
use crate::estrato::down::names_view;

verus! {

/// Parsed representation of a query string like `'>tech-decisions>impl'` or `'<<'`.
#[derive(Debug, PartialEq, Eq)]
pub enum Query {
    Down(Vec<String>),
    Up(usize),
    ListDown,
    ListUp,
}

/// Why a query is refused.
#[derive(Debug, PartialEq, Eq)]
pub enum QueryError {
    Empty,
    InvalidSyntax(String),
    InvalidSegment(String),
}

/// What a query denotes.
pub enum QueryView {
    Down(Seq<Seq<char>>),
    Up(nat),
    ListDown,
    ListUp,
}

/// What a query error denotes.
pub enum QueryFault {
    Empty,
    InvalidSyntax(Seq<char>),
    InvalidSegment(Seq<char>),
}

impl View for Query {
    type V = QueryView;

    open spec fn view(&self) -> QueryView {
        match self {
            Query::Down(v) => QueryView::Down(names_view(v@)),
            Query::Up(n) => QueryView::Up(*n as nat),
            Query::ListDown => QueryView::ListDown,
            Query::ListUp => QueryView::ListUp,
        }
    }
}

impl View for QueryError {
    type V = QueryFault;

    open spec fn view(&self) -> QueryFault {
        match self {
            QueryError::Empty => QueryFault::Empty,
            QueryError::InvalidSyntax(s) => QueryFault::InvalidSyntax(s@),
            QueryError::InvalidSegment(s) => QueryFault::InvalidSegment(s@),
        }
    }
}

/// What a query text means: `>?` and `<?` are the listings; a text that
/// starts with `>` names the layers between its `>`s, none of them empty;
/// a text made only of `<` climbs one level per `<`.
pub open spec fn query_spec(q: Seq<char>) -> Result<QueryView, QueryFault> {
    if q.len() == 0 {
        Err(QueryFault::Empty)
    } else if q == seq!['>', '?'] {
        Ok(QueryView::ListDown)
    } else if q == seq!['<', '?'] {
        Ok(QueryView::ListUp)
    } else if q[0] == '>' {
        let segs = split_on(q.skip(1), '>');
        if exists|i: int| 0 <= i < segs.len() && #[trigger] segs[i].len() == 0 {
            Err(QueryFault::InvalidSegment(seq![]))
        } else {
            Ok(QueryView::Down(segs))
        }
    } else if leading(q, '<') == q.len() {
        Ok(QueryView::Up(q.len()))
    } else {
        Err(QueryFault::InvalidSyntax(q))
    }
}

/// Parses a query (see `query_spec`).
pub fn parse(query: &str) -> (r: Result<Query, QueryError>)
    ensures
        match r {
            Ok(q) => query_spec(query@) == Ok::<QueryView, QueryFault>(q@),
            Err(e) => query_spec(query@) == Err::<QueryView, QueryFault>(e@),
        },
{
    let v = chars_of(query);
    if v.len() == 0 {
        return Err(QueryError::Empty);
    }
    if v.len() == 2 && v[1] == '?' && (v[0] == '>' || v[0] == '<') {
        assert(v@ =~= seq![v@[0], '?']);
        if v[0] == '>' {
            return Ok(Query::ListDown);
        } else {
            return Ok(Query::ListUp);
        }
    }
    assert(v@.len() == 2 ==> v@ == seq![v@[0], v@[1]]);
    if v[0] == '>' {
        let rest: Vec<char> = crate::text::copy_range(&v, 1, v.len());
        assert(rest@ =~= v@.skip(1));
        let pieces = split_chars(&rest, '>');
        let ghost segs = views(pieces@);
        assert(v@ != seq!['>', '?']);
        assert(v@ != seq!['<', '?']);
        let mut out: Vec<String> = Vec::new();
        let mut i: usize = 0;
        while i < pieces.len()
            invariant
                i <= pieces.len(),
                segs == views(pieces@),
                segs == split_on(v@.skip(1), '>'),
                v@ == query@,
                v@.len() > 0,
                v@[0] == '>',
                v@ != seq!['>', '?'],
                v@ != seq!['<', '?'],
                names_view(out@) == segs.take(i as int),
                forall|j: int| 0 <= j < i ==> #[trigger] segs[j].len() > 0,
            decreases pieces.len() - i,
        {
            if pieces[i].len() == 0 {
                let e = String::new();
                assert(e@ =~= Seq::<char>::empty());
                assert(segs[i as int].len() == 0);
                return Err(QueryError::InvalidSegment(e));
            }
            let ghost before = out@;
            let s = string_of(&pieces[i]);
            out.push(s);
            assert(names_view(out@) =~= names_view(before).push(s@));
            assert(segs.take(i + 1) =~= segs.take(i as int).push(segs[i as int]));
            i = i + 1;
        }
        assert(segs.take(i as int) =~= segs);
        return Ok(Query::Down(out));
    }
    let n = count_leading(&v, 0, '<');
    assert(v@.skip(0) =~= v@);
    if n == v.len() {
        Ok(Query::Up(n))
    } else {
        Err(QueryError::InvalidSyntax(string_of(&v)))
    }
}

} // verus!
