use vstd::prelude::*;
use vstd::slice::slice_subrange;

use crate::error::Error;
use crate::text::{find_byte, find_byte_x, first_token, lemma_find_byte, token_split};

verus! {

/// The text between the first `(` and the `)` that follows it (to the end
/// when no `)` follows); empty when `s` has no `(` at all.
pub open spec fn inner_parens(s: Seq<u8>) -> Seq<u8> {
    match find_byte(s, 40) {
        None => Seq::empty(),
        Some(i) => {
            let t = s.skip(i + 1);
            match find_byte(t, 41) {
                None => t,
                Some(j) => t.take(j),
            }
        },
    }
}

/// The first token of each comma-separated piece of `s`, in order. A piece
/// with no token at all names no column and is refused.
pub open spec fn tokens_of(s: Seq<u8>) -> Result<Seq<Seq<u8>>, Error>
    decreases s.len(),
    via tokens_of_dec
{
    match find_byte(s, 44) {
        None => {
            let t = first_token(s);
            if t.len() == 0 {
                Err(Error::UnknownColumn)
            } else {
                Ok(seq![t])
            }
        },
        Some(q) => {
            let t = first_token(s.take(q));
            if t.len() == 0 {
                Err(Error::UnknownColumn)
            } else {
                match tokens_of(s.skip(q + 1)) {
                    Err(e) => Err(e),
                    Ok(rest) => Ok(seq![t] + rest),
                }
            }
        },
    }
}

#[via_fn]
proof fn tokens_of_dec(s: Seq<u8>) {
    lemma_find_byte(s, 44);
}

/// The declared column names of a `CREATE TABLE` text: the first token of
/// each comma-separated definition inside the outermost parentheses.
pub open spec fn spec_column_names(sql: Seq<u8>) -> Result<Seq<Seq<u8>>, Error> {
    tokens_of(inner_parens(sql))
}

/// The first indexed column of a `CREATE INDEX` text.
pub open spec fn spec_index_col(sql: Seq<u8>) -> Result<Seq<u8>, Error> {
    match tokens_of(inner_parens(sql)) {
        Err(e) => Err(e),
        Ok(ts) => Ok(ts[0]),
    }
}

/// Prefixes already-gathered names onto the outcome for the rest.
pub open spec fn names_combine(pre: Seq<Seq<u8>>, rest: Result<Seq<Seq<u8>>, Error>) -> Result<
    Seq<Seq<u8>>,
    Error,
> {
    match rest {
        Err(e) => Err(e),
        Ok(s) => Ok(pre + s),
    }
}

/// Pulls the ordered column names out of a `CREATE TABLE` text: the pieces
/// between the outermost parentheses, split on commas, each reduced to its
/// first whitespace-separated token.
#[verifier::loop_isolation(false)]
pub fn sql_column_names(sql: &[u8]) -> (r: Result<Vec<Vec<u8>>, Error>)
    ensures
        match r {
            Ok(names) => spec_column_names(sql@) == Ok::<Seq<Seq<u8>>, Error>(names.deep_view()),
            Err(e) => spec_column_names(sql@) == Err::<Seq<Seq<u8>>, Error>(e),
        },
{
    let total = sql.len();
    let open = match find_byte_x(sql, 40) {
        Some(i) => i,
        None => {
            proof {
                assert(inner_parens(sql@) =~= Seq::<u8>::empty());
                assert(first_token(Seq::<u8>::empty()).len() == 0);
            }
            return Err(Error::UnknownColumn);
        },
    };
    let after = slice_subrange(sql, open + 1, total);
    proof {
        assert(after@ =~= sql@.skip(open as int + 1));
    }
    let end: usize = match find_byte_x(after, 41) {
        Some(j) => open + 1 + j,
        None => total,
    };
    let inner = slice_subrange(sql, open + 1, end);
    proof {
        match find_byte(after@, 41) {
            Some(j) => {
                assert(inner@ =~= sql@.skip(open as int + 1).take(j));
            },
            None => {
                assert(inner@ =~= sql@.skip(open as int + 1));
            },
        }
        assert(inner@ == inner_parens(sql@));
    }
    let ilen = inner.len();
    let mut acc: Vec<Vec<u8>> = Vec::new();
    let mut p: usize = 0;
    proof {
        assert(inner@.skip(0) =~= inner@);
        let x = tokens_of(inner@);
        if let Ok(s) = x {
            assert(Seq::<Seq<u8>>::empty() + s =~= s);
        }
        assert(acc.deep_view() =~= Seq::<Seq<u8>>::empty());
    }
    loop
        invariant
            p <= ilen,
            spec_column_names(sql@) == names_combine(
                acc.deep_view(),
                tokens_of(inner@.skip(p as int)),
            ),
        decreases ilen - p,
    {
        let segslice = slice_subrange(inner, p, ilen);
        proof {
            assert(segslice@ =~= inner@.skip(p as int));
        }
        match find_byte_x(segslice, 44) {
            None => {
                let (tok, _rest) = token_split(segslice);
                if tok.len() == 0 {
                    return Err(Error::UnknownColumn);
                }
                let ghost old_acc = acc.deep_view();
                let ghost tokv = tok@;
                acc.push(tok);
                proof {
                    assert(acc.deep_view() =~~= old_acc.push(tokv));
                    assert(old_acc + seq![tokv] =~= old_acc.push(tokv));
                }
                return Ok(acc);
            },
            Some(q) => {
                let seg = slice_subrange(inner, p, p + q);
                proof {
                    assert(seg@ =~= inner@.skip(p as int).take(q as int));
                }
                let (tok, _rest) = token_split(seg);
                if tok.len() == 0 {
                    return Err(Error::UnknownColumn);
                }
                let ghost old_acc = acc.deep_view();
                let ghost tokv = tok@;
                acc.push(tok);
                proof {
                    assert(acc.deep_view() =~~= old_acc.push(tokv));
                    assert(inner@.skip(p as int).skip(q as int + 1) =~= inner@.skip(
                        p as int + q as int + 1,
                    ));
                    let rest = tokens_of(inner@.skip(p as int + q as int + 1));
                    if let Ok(s) = rest {
                        assert(old_acc + (seq![tokv] + s) =~= old_acc.push(tokv) + s);
                    }
                }
                p = p + q + 1;
            },
        }
    }
}

/// The first indexed column named by a `CREATE INDEX` text.
pub fn index_first_column(sql: &[u8]) -> (r: Result<Vec<u8>, Error>)
    ensures
        match r {
            Ok(name) => spec_index_col(sql@) == Ok::<Seq<u8>, Error>(name@),
            Err(e) => spec_index_col(sql@) == Err::<Seq<u8>, Error>(e),
        },
{
    let mut names = match sql_column_names(sql) {
        Ok(v) => v,
        Err(e) => {
            return Err(e);
        },
    };
    proof {
        assert(tokens_of(inner_parens(sql@)) matches Ok(ts) ==> ts.len() > 0);
        assert(names.deep_view().len() > 0);
        assert(names.deep_view()[0] == names@[0].deep_view());
        assert(names@[0].deep_view() =~= names@[0]@);
    }
    let first = names.remove(0);
    Ok(first)
}

} // verus!
