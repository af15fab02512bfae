use vstd::prelude::*;
use vstd::slice::slice_subrange;
use vstd::string::StringSliceAdditionalSpecFns;

use crate::error::Error;
use crate::text::{
    after_token, find_byte, find_byte_x, first_token, skip_ws, skip_ws_idx, token_split, trim,
    trim_x,
};
use crate::value::{bytes_eq, lower, spec_lower};

verus! {

/// One parsed command: the two dot directives, the row-count shorthand, and
/// the one `SELECT` shape the executor supports, an optional single equality
/// on a column.
#[derive(Debug, PartialEq)]
pub enum Command {
    DbInfo,
    Tables,
    Count { table: Vec<u8> },
    Select { cols: Vec<Vec<u8>>, table: Vec<u8>, filter: Option<(Vec<u8>, Vec<u8>)> },
}

/// The mathematical shadow of `Command`.
pub ghost enum CommandV {
    DbInfo,
    Tables,
    Count { table: Seq<u8> },
    Select { cols: Seq<Seq<u8>>, table: Seq<u8>, filter: Option<(Seq<u8>, Seq<u8>)> },
}

impl View for Command {
    type V = CommandV;

    open spec fn view(&self) -> CommandV {
        match self {
            Command::DbInfo => CommandV::DbInfo,
            Command::Tables => CommandV::Tables,
            Command::Count { table } => CommandV::Count { table: table@ },
            Command::Select { cols, table, filter } => CommandV::Select {
                cols: cols.deep_view(),
                table: table@,
                filter: match filter {
                    None => None,
                    Some((c, v)) => Some((c@, v@)),
                },
            },
        }
    }
}

/// Whether `s` begins with `pre`, comparing letters without case. `pre` is
/// given already lowered.
pub open spec fn starts_with_ci(s: Seq<u8>, pre: Seq<u8>) -> bool {
    s.len() >= pre.len() && (forall|i: int| 0 <= i < pre.len() ==> spec_lower(s[i]) == pre[i])
}

/// Decides `starts_with_ci`.
#[verifier::loop_isolation(false)]
pub fn starts_ci(s: &[u8], pre: &[u8]) -> (r: bool)
    ensures
        r == starts_with_ci(s@, pre@),
{
    let n = pre.len();
    if s.len() < n {
        return false;
    }
    let mut i: usize = 0;
    while i < n
        invariant
            i <= n,
            forall|k: int| 0 <= k < i ==> spec_lower(s@[k]) == pre@[k],
        decreases n - i,
    {
        if lower(s[i]) != pre[i] {
            proof {
                assert(spec_lower(s@[i as int]) != pre@[i as int]);
            }
            return false;
        }
        i = i + 1;
    }
    true
}

/// The first position where `pat` begins in `s`, letters compared without
/// case, if any.
pub open spec fn find_ci(s: Seq<u8>, pat: Seq<u8>) -> Option<int>
    decreases s.len(),
{
    if s.len() < pat.len() {
        None
    } else if starts_with_ci(s, pat) {
        Some(0int)
    } else {
        match find_ci(s.skip(1), pat) {
            None => None,
            Some(j) => Some(j + 1),
        }
    }
}

/// A found pattern fits inside `s` and begins where claimed.
pub proof fn lemma_find_ci(s: Seq<u8>, pat: Seq<u8>)
    ensures
        find_ci(s, pat) matches Some(j) ==> 0 <= j && j + pat.len() <= s.len() && starts_with_ci(
            s.skip(j),
            pat,
        ),
    decreases s.len(),
{
    if s.len() >= pat.len() && !starts_with_ci(s, pat) {
        lemma_find_ci(s.skip(1), pat);
        if let Some(j) = find_ci(s.skip(1), pat) {
            assert(s.skip(1).skip(j) =~= s.skip(j + 1));
        }
    } else if s.len() >= pat.len() {
        assert(s.skip(0) =~= s);
    }
}

/// Finds the first case-insensitive occurrence of `pat` in `s`.
#[verifier::loop_isolation(false)]
pub fn find_ci_x(s: &[u8], pat: &[u8]) -> (r: Option<usize>)
    ensures
        match r {
            Some(p) => find_ci(s@, pat@) == Some(p as int) && p + pat@.len() <= s@.len()
                && starts_with_ci(s@.skip(p as int), pat@),
            None => find_ci(s@, pat@) == None::<int>,
        },
{
    let n = s.len();
    let m = pat.len();
    if n < m {
        return None;
    }
    let mut i: usize = 0;
    proof {
        assert(s@.skip(0) =~= s@);
    }
    while i <= n - m
        invariant
            i <= n - m + 1,
            n >= m,
            find_ci(s@, pat@) == (match find_ci(s@.skip(i as int), pat@) {
                None => None::<int>,
                Some(j) => Some(j + i),
            }),
        decreases n - i,
    {
        let here = slice_subrange(s, i, n);
        proof {
            assert(here@ =~= s@.skip(i as int));
            assert(s@.skip(i as int).skip(1) =~= s@.skip(i as int + 1));
        }
        if starts_ci(here, pat) {
            proof {
                lemma_find_ci(s@, pat@);
            }
            return Some(i);
        }
        i = i + 1;
    }
    proof {
        assert(s@.skip(i as int).len() < pat@.len());
    }
    None
}

/// `s` without any leading single quotes.
pub open spec fn skip_quotes(s: Seq<u8>) -> Seq<u8>
    decreases s.len(),
{
    if s.len() > 0 && s[0] == 39 {
        skip_quotes(s.skip(1))
    } else {
        s
    }
}

/// `skip_quotes`, from the other end.
pub open spec fn skip_quotes_end(s: Seq<u8>) -> Seq<u8>
    decreases s.len(),
{
    if s.len() > 0 && s[s.len() - 1] == 39 {
        skip_quotes_end(s.drop_last())
    } else {
        s
    }
}

/// `s` without leading or trailing single quotes.
pub open spec fn strip_quotes(s: Seq<u8>) -> Seq<u8> {
    skip_quotes_end(skip_quotes(s))
}

/// Strips single quotes off both ends of `s`.
#[verifier::loop_isolation(false)]
pub fn strip_quotes_x(s: &[u8]) -> (r: Vec<u8>)
    ensures
        r@ == strip_quotes(s@),
{
    let n = s.len();
    let mut i: usize = 0;
    proof {
        assert(s@.skip(0) =~= s@);
    }
    while i < n && s[i] == 39
        invariant
            i <= n,
            skip_quotes(s@) == skip_quotes(s@.skip(i as int)),
        decreases n - i,
    {
        proof {
            assert(s@.skip(i as int)[0] == s@[i as int]);
            assert(s@.skip(i as int).skip(1) =~= s@.skip(i as int + 1));
        }
        i = i + 1;
    }
    proof {
        if i < n {
            assert(s@.skip(i as int)[0] == s@[i as int]);
        }
        assert(skip_quotes(s@) == s@.skip(i as int));
        assert(s@.skip(i as int) =~= s@.subrange(i as int, n as int));
    }
    let mut j: usize = n;
    while j > i && s[j - 1] == 39
        invariant
            i <= j <= n,
            skip_quotes_end(s@.skip(i as int)) == skip_quotes_end(s@.subrange(i as int, j as int)),
        decreases j,
    {
        proof {
            let cur = s@.subrange(i as int, j as int);
            assert(cur[cur.len() - 1] == s@[j as int - 1]);
            assert(cur.drop_last() =~= s@.subrange(i as int, j as int - 1));
        }
        j = j - 1;
    }
    proof {
        let cur = s@.subrange(i as int, j as int);
        if j > i {
            assert(cur[cur.len() - 1] == s@[j as int - 1]);
        }
        assert(skip_quotes_end(cur) == cur);
    }
    vstd::slice::slice_to_vec(slice_subrange(s, i, j))
}

/// The `k`-th whitespace-separated token of `s`, counting from zero; empty
/// when `s` runs out of tokens first.
pub open spec fn nth_token(s: Seq<u8>, k: int) -> Seq<u8>
    decreases k,
{
    if k <= 0 {
        first_token(s)
    } else {
        nth_token(after_token(s), k - 1)
    }
}

/// Picks the `k`-th whitespace-separated token out of `s`.
pub fn nth_token_x(s: &[u8], k: usize) -> (r: Vec<u8>)
    ensures
        r@ == nth_token(s@, k as int),
    decreases k,
{
    let (tok, rest_at) = token_split(s);
    if k == 0 {
        tok
    } else {
        let rest = slice_subrange(s, rest_at, s.len());
        proof {
            assert(rest@ =~= s@.skip(rest_at as int));
        }
        nth_token_x(rest, k - 1)
    }
}

/// `s` split on commas, each piece trimmed of surrounding whitespace.
pub open spec fn trimmed_segs(s: Seq<u8>) -> Seq<Seq<u8>>
    decreases s.len(),
    via trimmed_segs_dec
{
    match find_byte(s, 44) {
        None => seq![trim(s)],
        Some(q) => seq![trim(s.take(q))] + trimmed_segs(s.skip(q + 1)),
    }
}

#[via_fn]
proof fn trimmed_segs_dec(s: Seq<u8>) {
    crate::text::lemma_find_byte(s, 44);
}

/// Splits `s` on commas and trims each piece.
#[verifier::loop_isolation(false)]
pub fn cols_split(s: &[u8]) -> (r: Vec<Vec<u8>>)
    ensures
        r.deep_view() == trimmed_segs(s@),
{
    let n = s.len();
    let mut acc: Vec<Vec<u8>> = Vec::new();
    let mut p: usize = 0;
    proof {
        assert(s@.skip(0) =~= s@);
        assert(acc.deep_view() =~= Seq::<Seq<u8>>::empty());
        assert(Seq::<Seq<u8>>::empty() + trimmed_segs(s@) =~= trimmed_segs(s@));
    }
    loop
        invariant
            p <= n,
            trimmed_segs(s@) == acc.deep_view() + trimmed_segs(s@.skip(p as int)),
        decreases n - p,
    {
        let segslice = slice_subrange(s, p, n);
        proof {
            assert(segslice@ =~= s@.skip(p as int));
        }
        match find_byte_x(segslice, 44) {
            None => {
                let t = trim_x(segslice);
                let ghost old_acc = acc.deep_view();
                let ghost tv = t@;
                acc.push(t);
                proof {
                    assert(acc.deep_view() =~~= old_acc.push(tv));
                    assert(old_acc + seq![tv] =~= old_acc.push(tv));
                }
                return acc;
            },
            Some(q) => {
                let seg = slice_subrange(s, p, p + q);
                proof {
                    assert(seg@ =~= s@.skip(p as int).take(q as int));
                }
                let t = trim_x(seg);
                let ghost old_acc = acc.deep_view();
                let ghost tv = t@;
                acc.push(t);
                proof {
                    assert(acc.deep_view() =~~= old_acc.push(tv));
                    assert(s@.skip(p as int).skip(q as int + 1) =~= s@.skip(
                        p as int + q as int + 1,
                    ));
                    assert(old_acc + (seq![tv] + trimmed_segs(s@.skip(p as int + q as int + 1)))
                        =~= old_acc.push(tv) + trimmed_segs(s@.skip(p as int + q as int + 1)));
                }
                p = p + q + 1;
            },
        }
    }
}

/// What `cmd` asks for. The dot directives match exactly; keywords of the
/// `SELECT` shapes match without case; identifiers keep their case. A
/// command of no supported shape is `UnknownCommand`.
pub open spec fn spec_parse(cmd: Seq<u8>) -> Result<CommandV, Error> {
    if cmd == ".dbinfo".spec_bytes() {
        Ok(CommandV::DbInfo)
    } else if cmd == ".tables".spec_bytes() {
        Ok(CommandV::Tables)
    } else if starts_with_ci(cmd, "select count(*) from".spec_bytes()) {
        let t = nth_token(cmd, 3);
        if t.len() == 0 {
            Err(Error::UnknownCommand)
        } else {
            Ok(CommandV::Count { table: t })
        }
    } else if starts_with_ci(cmd, "select ".spec_bytes()) {
        match find_ci(cmd, " from ".spec_bytes()) {
            None => Err(Error::UnknownCommand),
            Some(p) => if p < "select ".spec_bytes().len() {
                Err(Error::UnknownCommand)
            } else {
                let cols = trimmed_segs(cmd.subrange("select ".spec_bytes().len() as int, p));
                let rest = cmd.skip(p + " from ".spec_bytes().len());
                let table = first_token(rest);
                if table.len() == 0 {
                    Err(Error::UnknownCommand)
                } else {
                    let rem = skip_ws(after_token(rest));
                    if rem.len() == 0 {
                        Ok(CommandV::Select { cols, table, filter: None })
                    } else if starts_with_ci(rem, "where ".spec_bytes()) {
                        let ftext = rem.skip("where ".spec_bytes().len() as int);
                        match find_byte(ftext, 61) {
                            None => Err(Error::UnknownCommand),
                            Some(q) => {
                                let fcol = trim(ftext.take(q));
                                let rest2 = ftext.skip(q + 1);
                                let vraw = match find_byte(rest2, 61) {
                                    None => rest2,
                                    Some(q2) => rest2.take(q2),
                                };
                                let fval = strip_quotes(trim(vraw));
                                Ok(CommandV::Select { cols, table, filter: Some((fcol, fval)) })
                            },
                        }
                    } else {
                        Err(Error::UnknownCommand)
                    }
                }
            },
        }
    } else {
        Err(Error::UnknownCommand)
    }
}

/// Parses one command line into the shape the executor runs.
pub fn parse_command(cmd: &[u8]) -> (r: Result<Command, Error>)
    ensures
        match r {
            Ok(c) => spec_parse(cmd@) == Ok::<CommandV, Error>(c@),
            Err(e) => spec_parse(cmd@) == Err::<CommandV, Error>(e),
        },
{
    if bytes_eq(cmd, ".dbinfo".as_bytes()) {
        return Ok(Command::DbInfo);
    }
    if bytes_eq(cmd, ".tables".as_bytes()) {
        return Ok(Command::Tables);
    }
    if starts_ci(cmd, "select count(*) from".as_bytes()) {
        let t = nth_token_x(cmd, 3);
        if t.len() == 0 {
            return Err(Error::UnknownCommand);
        }
        return Ok(Command::Count { table: t });
    }
    let sel_kw = "select ".as_bytes();
    if !starts_ci(cmd, sel_kw) {
        return Err(Error::UnknownCommand);
    }
    let total = cmd.len();
    let from_kw = " from ".as_bytes();
    let p = match find_ci_x(cmd, from_kw) {
        Some(p) => p,
        None => {
            return Err(Error::UnknownCommand);
        },
    };
    if p < sel_kw.len() {
        return Err(Error::UnknownCommand);
    }
    let colspart = slice_subrange(cmd, sel_kw.len(), p);
    proof {
        assert(colspart@ =~= cmd@.subrange("select ".spec_bytes().len() as int, p as int));
    }
    let cols = cols_split(colspart);
    let rest = slice_subrange(cmd, p + from_kw.len(), total);
    proof {
        assert(rest@ =~= cmd@.skip(p as int + " from ".spec_bytes().len()));
    }
    let (table, rest_at) = token_split(rest);
    if table.len() == 0 {
        return Err(Error::UnknownCommand);
    }
    let rem0 = slice_subrange(rest, rest_at, rest.len());
    proof {
        assert(rem0@ =~= rest@.skip(rest_at as int));
    }
    let w = skip_ws_idx(rem0);
    let rem = slice_subrange(rem0, w, rem0.len());
    proof {
        assert(rem@ =~= rem0@.skip(w as int));
        assert(rem@ == skip_ws(after_token(rest@)));
    }
    if rem.len() == 0 {
        return Ok(Command::Select { cols, table, filter: None });
    }
    let where_kw = "where ".as_bytes();
    if !starts_ci(rem, where_kw) {
        return Err(Error::UnknownCommand);
    }
    let ftext = slice_subrange(rem, where_kw.len(), rem.len());
    proof {
        assert(ftext@ =~= rem@.skip("where ".spec_bytes().len() as int));
    }
    let q = match find_byte_x(ftext, 61) {
        Some(q) => q,
        None => {
            return Err(Error::UnknownCommand);
        },
    };
    let fcolraw = slice_subrange(ftext, 0, q);
    proof {
        assert(fcolraw@ =~= ftext@.take(q as int));
    }
    let fcol = trim_x(fcolraw);
    let rest2 = slice_subrange(ftext, q + 1, ftext.len());
    proof {
        assert(rest2@ =~= ftext@.skip(q as int + 1));
    }
    let vend = match find_byte_x(rest2, 61) {
        Some(q2) => q2,
        None => rest2.len(),
    };
    let vraw = slice_subrange(rest2, 0, vend);
    proof {
        match find_byte(rest2@, 61) {
            Some(q2) => {
                assert(vraw@ =~= rest2@.take(q2));
            },
            None => {
                assert(vraw@ =~= rest2@);
            },
        }
    }
    let tr = trim_x(vraw);
    let fval = strip_quotes_x(tr.as_slice());
    Ok(Command::Select { cols, table, filter: Some((fcol, fval)) })
}

} // verus!
