//! Command-line queries: a stratum path, or one of the listings `>?` and `<?`.
use vstd::prelude::*;
use crate::text::chars_of;
use crate::path::{ParseError, StratumPath, parse_path, parse_spec, tokens_view};

verus! {

/// A CLI query: either a path expression or an info command.
#[derive(Debug, PartialEq, Eq)]
pub enum Query {
    Path(StratumPath),
    /// `>?`
    ListDown,
    /// `<?`
    ListUp,
}

/// Why a query is refused.
#[derive(Debug, PartialEq, Eq)]
pub enum QueryError {
    Empty,
    ParseError(ParseError),
}

/// Parses a query: `>?` and `<?` are the listings, anything else non-empty
/// is a stratum path.
pub fn parse(s: &str) -> (r: Result<Query, QueryError>)
    ensures
        s@.len() == 0 ==> r matches Err(QueryError::Empty),
        s@ == seq!['>', '?'] ==> r matches Ok(Query::ListDown),
        s@ == seq!['<', '?'] ==> r matches Ok(Query::ListUp),
        s@.len() > 0 && s@ != seq!['>', '?'] && s@ != seq!['<', '?'] ==> match r {
            Ok(Query::Path(t)) => parse_spec(s@) == Ok::<_, crate::path::ParseFault>(
                tokens_view(t@),
            ),
            Err(QueryError::ParseError(e)) => parse_spec(s@) == Err::<Seq<crate::path::Token>, _>(
                e@,
            ),
            _ => false,
        },
{
    let v = chars_of(s);
    if v.len() == 0 {
        return Err(QueryError::Empty);
    }
    if v.len() == 2 && v[1] == '?' && (v[0] == '>' || v[0] == '<') {
        assert(v@ =~= seq![v@[0], '?']);
        if v[0] == '>' {
            return Ok(Query::ListDown);
        } else {
            return Ok(Query::ListUp);
        }
    }
    assert(v@.len() == 2 ==> v@ == seq![v@[0], v@[1]]);
    match parse_path(s) {
        Ok(t) => Ok(Query::Path(t)),
        Err(e) => Err(QueryError::ParseError(e)),
    }
}

} // verus!
