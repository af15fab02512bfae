use vstd::prelude::*;
use vstd::string::StringSliceAdditionalSpecFns;

use crate::btree::{scan, seek, spec_scan, spec_seek};
use crate::ddl::{names_combine, spec_column_names, spec_index_col, sql_column_names};
use crate::error::Error;
use crate::index::{find, spec_find};
use crate::page::{be16, page_in_bounds, read_page, spec_be16, spec_page};
use crate::parse::{parse_command, spec_parse, Command, CommandV};
use crate::schema::{spec_schema, tables, Table, TableV};
use crate::value::{
    bytes_eq, dup_bytes, dup_col, render_col, render_u64, spec_render_col, spec_render_int, ColV,
    Column,
};

verus! {

/// The first schema row carrying `name`, in file order.
pub open spec fn find_by_name(ts: Seq<TableV>, name: Seq<u8>) -> Option<TableV>
    decreases ts.len(),
{
    if ts.len() == 0 {
        None
    } else if ts[0].name == name {
        Some(ts[0])
    } else {
        find_by_name(ts.skip(1), name)
    }
}

/// Looks a schema row up by name.
#[verifier::loop_isolation(false)]
pub fn find_by_name_x<'a>(ts: &'a Vec<Table>, name: &[u8]) -> (r: Option<&'a Table>)
    ensures
        match r {
            Some(t) => find_by_name(ts.deep_view(), name@) == Some(t.deep_view()),
            None => find_by_name(ts.deep_view(), name@) == None::<TableV>,
        },
{
    let n = ts.len();
    let mut i: usize = 0;
    proof {
        assert(ts.deep_view().skip(0) =~= ts.deep_view());
    }
    while i < n
        invariant
            i <= n,
            find_by_name(ts.deep_view(), name@) == find_by_name(
                ts.deep_view().skip(i as int),
                name@,
            ),
        decreases n - i,
    {
        proof {
            assert(ts.deep_view().skip(i as int)[0] == ts@[i as int].deep_view());
            assert(ts.deep_view().skip(i as int).skip(1) =~= ts.deep_view().skip(i as int + 1));
        }
        if bytes_eq(ts[i].name.as_slice(), name) {
            return Some(&ts[i]);
        }
        i = i + 1;
    }
    None
}

/// Where `c` stands in the declared column order, if anywhere.
pub open spec fn position_of(names: Seq<Seq<u8>>, c: Seq<u8>) -> Option<int>
    decreases names.len(),
{
    if names.len() == 0 {
        None
    } else if names[0] == c {
        Some(0int)
    } else {
        match position_of(names.skip(1), c) {
            None => None,
            Some(j) => Some(j + 1),
        }
    }
}

/// Finds `c` in the declared column order.
#[verifier::loop_isolation(false)]
pub fn position_of_x(names: &Vec<Vec<u8>>, c: &[u8]) -> (r: Option<usize>)
    ensures
        match r {
            Some(j) => position_of(names.deep_view(), c@) == Some(j as int) && j < names@.len(),
            None => position_of(names.deep_view(), c@) == None::<int>,
        },
{
    let n = names.len();
    let mut i: usize = 0;
    proof {
        assert(names.deep_view().skip(0) =~= names.deep_view());
    }
    while i < n
        invariant
            i <= n,
            position_of(names.deep_view(), c@) == (match position_of(
                names.deep_view().skip(i as int),
                c@,
            ) {
                None => None::<int>,
                Some(j) => Some(j + i),
            }),
        decreases n - i,
    {
        proof {
            assert(names.deep_view().skip(i as int)[0] == names@[i as int].deep_view());
            assert(names@[i as int].deep_view() =~= names@[i as int]@);
            assert(names.deep_view().skip(i as int).skip(1) =~= names.deep_view().skip(
                i as int + 1,
            ));
        }
        if bytes_eq(names[i].as_slice(), c) {
            return Some(i);
        }
        i = i + 1;
    }
    None
}

/// The `usize` positions a resolver returns, as mathematical integers.
pub open spec fn to_ints(s: Seq<usize>) -> Seq<int> {
    s.map_values(|u: usize| u as int)
}

/// Each requested column mapped to its position in the declared order; a
/// name the declaration lacks is `UnknownColumn`.
pub open spec fn resolve_cols(names: Seq<Seq<u8>>, cols: Seq<Seq<u8>>) -> Result<Seq<int>, Error>
    decreases cols.len(),
{
    if cols.len() == 0 {
        Ok(Seq::empty())
    } else {
        match position_of(names, cols[0]) {
            None => Err(Error::UnknownColumn),
            Some(j) => match resolve_cols(names, cols.skip(1)) {
                Err(e) => Err(e),
                Ok(rest) => Ok(seq![j] + rest),
            },
        }
    }
}

/// Maps requested column names to their declared positions.
#[verifier::loop_isolation(false)]
pub fn resolve_cols_x(names: &Vec<Vec<u8>>, cols: &Vec<Vec<u8>>) -> (r: Result<Vec<usize>, Error>)
    ensures
        match r {
            Ok(idxs) => resolve_cols(names.deep_view(), cols.deep_view()) == Ok::<Seq<int>, Error>(
                to_ints(idxs@),
            ) && (forall|k: int| 0 <= k < idxs@.len() ==> idxs@[k] < names@.len()),
            Err(e) => resolve_cols(names.deep_view(), cols.deep_view()) == Err::<Seq<int>, Error>(
                e,
            ),
        },
{
    let n = cols.len();
    let mut acc: Vec<usize> = Vec::new();
    let mut i: usize = 0;
    proof {
        assert(cols.deep_view().skip(0) =~= cols.deep_view());
        assert(to_ints(acc@) =~= Seq::<int>::empty());
        let x = resolve_cols(names.deep_view(), cols.deep_view());
        if let Ok(s) = x {
            assert(Seq::<int>::empty() + s =~= s);
        }
    }
    while i < n
        invariant
            i <= n,
            forall|k: int| 0 <= k < acc@.len() ==> acc@[k] < names@.len(),
            resolve_cols(names.deep_view(), cols.deep_view()) == (match resolve_cols(
                names.deep_view(),
                cols.deep_view().skip(i as int),
            ) {
                Err(e) => Err::<Seq<int>, Error>(e),
                Ok(rest) => Ok::<Seq<int>, Error>(to_ints(acc@) + rest),
            }),
        decreases n - i,
    {
        proof {
            assert(cols.deep_view().skip(i as int)[0] == cols@[i as int].deep_view());
            assert(cols@[i as int].deep_view() =~= cols@[i as int]@);
            assert(cols.deep_view().skip(i as int).skip(1) =~= cols.deep_view().skip(i as int + 1));
        }
        let j = match position_of_x(names, cols[i].as_slice()) {
            Some(j) => j,
            None => {
                return Err(Error::UnknownColumn);
            },
        };
        let ghost old_acc = acc@;
        acc.push(j);
        proof {
            assert(to_ints(acc@) =~= to_ints(old_acc).push(j as int));
            let rest = resolve_cols(names.deep_view(), cols.deep_view().skip(i as int + 1));
            if let Ok(s) = rest {
                assert(to_ints(old_acc) + (seq![j as int] + s) =~= to_ints(old_acc).push(j as int)
                    + s);
            }
        }
        i = i + 1;
    }
    proof {
        assert(to_ints(acc@) + Seq::<int>::empty() =~= to_ints(acc@));
    }
    Ok(acc)
}

/// The first index of the schema that is on table `tname` and whose first
/// indexed column is `col`; one whose declaration cannot be read does not
/// apply.
pub open spec fn find_index(ts: Seq<TableV>, tname: Seq<u8>, col: Seq<u8>) -> Option<TableV>
    decreases ts.len(),
{
    if ts.len() == 0 {
        None
    } else if ts[0].ty == "index".spec_bytes() && ts[0].tbl_name == tname && spec_index_col(
        ts[0].sql,
    ) == Ok::<Seq<u8>, Error>(col) {
        Some(ts[0])
    } else {
        find_index(ts.skip(1), tname, col)
    }
}

/// Picks the index to probe for `WHERE col = value` on `tname`, if one is
/// declared on that column.
#[verifier::loop_isolation(false)]
pub fn find_index_x<'a>(ts: &'a Vec<Table>, tname: &[u8], col: &[u8]) -> (r: Option<&'a Table>)
    ensures
        match r {
            Some(t) => find_index(ts.deep_view(), tname@, col@) == Some(t.deep_view()),
            None => find_index(ts.deep_view(), tname@, col@) == None::<TableV>,
        },
{
    let n = ts.len();
    let mut i: usize = 0;
    proof {
        assert(ts.deep_view().skip(0) =~= ts.deep_view());
    }
    while i < n
        invariant
            i <= n,
            find_index(ts.deep_view(), tname@, col@) == find_index(
                ts.deep_view().skip(i as int),
                tname@,
                col@,
            ),
        decreases n - i,
    {
        proof {
            assert(ts.deep_view().skip(i as int)[0] == ts@[i as int].deep_view());
            assert(ts.deep_view().skip(i as int).skip(1) =~= ts.deep_view().skip(i as int + 1));
        }
        if bytes_eq(ts[i].ty.as_slice(), "index".as_bytes()) && bytes_eq(
            ts[i].tbl_name.as_slice(),
            tname,
        ) {
            match crate::ddl::index_first_column(ts[i].sql.as_slice()) {
                Ok(c) => {
                    if bytes_eq(c.as_slice(), col) {
                        return Some(&ts[i]);
                    }
                },
                Err(_) => {},
            }
        }
        i = i + 1;
    }
    None
}

/// The table rowid an index entry carries: its last column, which must be a
/// non-negative integer.
pub open spec fn entry_rowid(row: Seq<ColV>) -> Result<u64, Error> {
    if row.len() == 0 {
        Err(Error::UnsupportedPageType)
    } else {
        match row[row.len() - 1] {
            ColV::Integer(i) => if 0 <= i < 0x1_0000_0000_0000_0000 {
                Ok(i as u64)
            } else {
                Err(Error::UnsupportedPageType)
            },
            ColV::Text(_) => Err(Error::UnsupportedPageType),
        }
    }
}

/// Reads the rowid off an index entry.
pub fn entry_rowid_x(row: &Vec<Column>) -> (r: Result<u64, Error>)
    ensures
        match r {
            Ok(rid) => entry_rowid(row.deep_view()) == Ok::<u64, Error>(rid),
            Err(e) => entry_rowid(row.deep_view()) == Err::<u64, Error>(e),
        },
{
    let n = row.len();
    if n == 0 {
        return Err(Error::UnsupportedPageType);
    }
    proof {
        assert(row.deep_view()[n - 1] == row@[n - 1].deep_view());
    }
    match &row[n - 1] {
        Column::Integer(i) => {
            if *i >= 0 {
                Ok(*i as u64)
            } else {
                Err(Error::UnsupportedPageType)
            }
        },
        Column::Text(_) => Err(Error::UnsupportedPageType),
    }
}

/// The table rows the index entries `k ..` point at, each fetched by one
/// rowid seek; an entry whose row the table lacks is a structural error.
pub open spec fn fetch_rows(
    db: Seq<u8>,
    ps: int,
    root: int,
    entries: Seq<Seq<ColV>>,
    k: int,
    fuel: nat,
) -> Result<Seq<Seq<ColV>>, Error>
    decreases entries.len() - k,
{
    if k >= entries.len() {
        Ok(Seq::empty())
    } else {
        match entry_rowid(entries[k]) {
            Err(e) => Err(e),
            Ok(rid) => match spec_seek(db, ps, root, rid, fuel) {
                Err(e) => Err(e),
                Ok(None) => Err(Error::UnsupportedPageType),
                Ok(Some(row)) => match fetch_rows(db, ps, root, entries, k + 1, fuel) {
                    Err(e) => Err(e),
                    Ok(rest) => Ok(seq![row] + rest),
                },
            },
        }
    }
}

/// Prefixes already-gathered rows onto the outcome for the rest.
pub open spec fn sel_combine(pre: Seq<Seq<ColV>>, rest: Result<Seq<Seq<ColV>>, Error>) -> Result<
    Seq<Seq<ColV>>,
    Error,
> {
    match rest {
        Err(e) => Err(e),
        Ok(s) => Ok(pre + s),
    }
}

/// Fetches the table row behind each index entry.
#[verifier::loop_isolation(false)]
pub fn fetch_rows_x(
    db: &[u8],
    ps: usize,
    root: u32,
    entries: &Vec<Vec<Column>>,
    fuel: u64,
) -> (r: Result<Vec<Vec<Column>>, Error>)
    requires
        1 <= ps <= 0x10000,
    ensures
        match r {
            Ok(rows) => fetch_rows(
                db@,
                ps as int,
                root as int,
                entries.deep_view(),
                0,
                fuel as nat,
            ) == Ok::<Seq<Seq<ColV>>, Error>(rows.deep_view()),
            Err(e) => fetch_rows(db@, ps as int, root as int, entries.deep_view(), 0, fuel as nat)
                == Err::<Seq<Seq<ColV>>, Error>(e),
        },
{
    let n = entries.len();
    let mut acc: Vec<Vec<Column>> = Vec::new();
    let mut i: usize = 0;
    proof {
        let x = fetch_rows(db@, ps as int, root as int, entries.deep_view(), 0, fuel as nat);
        if let Ok(s) = x {
            assert(Seq::<Seq<ColV>>::empty() + s =~= s);
        }
        assert(acc.deep_view() =~= Seq::<Seq<ColV>>::empty());
    }
    while i < n
        invariant
            i <= n,
            fetch_rows(db@, ps as int, root as int, entries.deep_view(), 0, fuel as nat)
                == sel_combine(
                acc.deep_view(),
                fetch_rows(db@, ps as int, root as int, entries.deep_view(), i as int, fuel as nat),
            ),
        decreases n - i,
    {
        proof {
            assert(entries.deep_view()[i as int] == entries@[i as int].deep_view());
        }
        let rid = match entry_rowid_x(&entries[i]) {
            Ok(rid) => rid,
            Err(e) => {
                return Err(e);
            },
        };
        let row = match seek(db, ps, root, rid, fuel) {
            Ok(Some(row)) => row,
            Ok(None) => {
                return Err(Error::UnsupportedPageType);
            },
            Err(e) => {
                return Err(e);
            },
        };
        let ghost old_acc = acc.deep_view();
        let ghost rowv = row.deep_view();
        acc.push(row);
        proof {
            assert(acc.deep_view() =~= old_acc.push(rowv));
            let rest = fetch_rows(
                db@,
                ps as int,
                root as int,
                entries.deep_view(),
                i as int + 1,
                fuel as nat,
            );
            if let Ok(s) = rest {
                assert(old_acc + (seq![rowv] + s) =~= old_acc.push(rowv) + s);
            }
        }
        i = i + 1;
    }
    proof {
        assert(acc.deep_view() + Seq::<Seq<ColV>>::empty() =~= acc.deep_view());
    }
    Ok(acc)
}

/// The rows of `rows[k ..]` that pass the filter: all of them when there is
/// none, else those whose filtered column is text equal to the value. A row
/// too short for the filtered column is `UnknownColumn`.
pub open spec fn filter_rows(
    rows: Seq<(u64, Seq<ColV>)>,
    f: Option<(int, Seq<u8>)>,
    k: int,
) -> Result<Seq<Seq<ColV>>, Error>
    decreases rows.len() - k,
{
    if k >= rows.len() {
        Ok(Seq::empty())
    } else {
        let row = rows[k].1;
        let keep_or_err: Result<bool, Error> = match f {
            None => Ok(true),
            Some((ci, v)) => if !(0 <= ci < row.len()) {
                Err(Error::UnknownColumn)
            } else {
                Ok(row[ci] == ColV::Text(v))
            },
        };
        match keep_or_err {
            Err(e) => Err(e),
            Ok(keep) => match filter_rows(rows, f, k + 1) {
                Err(e) => Err(e),
                Ok(rest) => if keep {
                    Ok(seq![row] + rest)
                } else {
                    Ok(rest)
                },
            },
        }
    }
}

/// A fresh copy of a row.
#[verifier::loop_isolation(false)]
fn copy_row(row: &Vec<Column>) -> (r: Vec<Column>)
    ensures
        r.deep_view() == row.deep_view(),
{
    let n = row.len();
    let mut out: Vec<Column> = Vec::new();
    let mut i: usize = 0;
    while i < n
        invariant
            i <= n,
            n == row@.len(),
            out.deep_view() == row.deep_view().take(i as int),
        decreases n - i,
    {
        let c = dup_col(&row[i]);
        out.push(c);
        proof {
            assert(row.deep_view()[i as int] == row@[i as int].deep_view());
            assert(out.deep_view() =~~= row.deep_view().take(i as int + 1));
        }
        i = i + 1;
    }
    proof {
        assert(row.deep_view().take(n as int) =~= row.deep_view());
    }
    out
}

/// The view of the filter the executor carries.
pub open spec fn filter_view(f: &Option<(usize, Vec<u8>)>) -> Option<(int, Seq<u8>)> {
    match f {
        None => None,
        Some((ci, v)) => Some((*ci as int, v@)),
    }
}

/// Keeps the scanned rows that pass the filter.
#[verifier::loop_isolation(false)]
pub fn filter_rows_x(rows: &Vec<(u64, Vec<Column>)>, f: &Option<(usize, Vec<u8>)>) -> (r: Result<
    Vec<Vec<Column>>,
    Error,
>)
    ensures
        match r {
            Ok(sel) => filter_rows(rows.deep_view(), filter_view(f), 0) == Ok::<
                Seq<Seq<ColV>>,
                Error,
            >(sel.deep_view()),
            Err(e) => filter_rows(rows.deep_view(), filter_view(f), 0) == Err::<
                Seq<Seq<ColV>>,
                Error,
            >(e),
        },
{
    let n = rows.len();
    let mut acc: Vec<Vec<Column>> = Vec::new();
    let mut i: usize = 0;
    proof {
        let x = filter_rows(rows.deep_view(), filter_view(f), 0);
        if let Ok(s) = x {
            assert(Seq::<Seq<ColV>>::empty() + s =~= s);
        }
        assert(acc.deep_view() =~= Seq::<Seq<ColV>>::empty());
    }
    while i < n
        invariant
            i <= n,
            filter_rows(rows.deep_view(), filter_view(f), 0) == sel_combine(
                acc.deep_view(),
                filter_rows(rows.deep_view(), filter_view(f), i as int),
            ),
        decreases n - i,
    {
        proof {
            assert(rows.deep_view()[i as int] == rows@[i as int].deep_view());
        }
        let row = &rows[i].1;
        let keep: bool = match f {
            None => true,
            Some((ci, v)) => {
                if *ci >= row.len() {
                    return Err(Error::UnknownColumn);
                }
                proof {
                    assert(row.deep_view()[*ci as int] == row@[*ci as int].deep_view());
                }
                match &row[*ci] {
                    Column::Text(t) => bytes_eq(t.as_slice(), v.as_slice()),
                    Column::Integer(_) => false,
                }
            },
        };
        let ghost old_acc = acc.deep_view();
        let ghost rowv = row.deep_view();
        if keep {
            let c = copy_row(row);
            acc.push(c);
            proof {
                assert(acc.deep_view() =~= old_acc.push(rowv));
                assert(old_acc + seq![rowv] =~= old_acc.push(rowv));
            }
        } else {
            proof {
                assert(old_acc + Seq::<Seq<ColV>>::empty() =~= old_acc);
            }
        }
        proof {
            let rest = filter_rows(rows.deep_view(), filter_view(f), i as int + 1);
            if let Ok(s) = rest {
                assert(old_acc + (seq![rowv] + s) =~= old_acc.push(rowv) + s);
            }
        }
        i = i + 1;
    }
    proof {
        assert(acc.deep_view() + Seq::<Seq<ColV>>::empty() =~= acc.deep_view());
    }
    Ok(acc)
}

/// The requested columns of one row, rendered, in request order; a position
/// past the row's end is `UnknownColumn`.
pub open spec fn project_row(row: Seq<ColV>, idxs: Seq<int>, k: int) -> Result<Seq<Seq<u8>>, Error>
    decreases idxs.len() - k,
{
    if k >= idxs.len() {
        Ok(Seq::empty())
    } else if !(0 <= idxs[k] < row.len()) {
        Err(Error::UnknownColumn)
    } else {
        match project_row(row, idxs, k + 1) {
            Err(e) => Err(e),
            Ok(rest) => Ok(seq![spec_render_col(row[idxs[k]])] + rest),
        }
    }
}

/// Renders the requested columns of one row.
#[verifier::loop_isolation(false)]
pub fn project_row_x(row: &Vec<Column>, idxs: &Vec<usize>) -> (r: Result<Vec<Vec<u8>>, Error>)
    ensures
        match r {
            Ok(fields) => project_row(row.deep_view(), to_ints(idxs@), 0) == Ok::<
                Seq<Seq<u8>>,
                Error,
            >(fields.deep_view()),
            Err(e) => project_row(row.deep_view(), to_ints(idxs@), 0) == Err::<
                Seq<Seq<u8>>,
                Error,
            >(e),
        },
{
    let n = idxs.len();
    let mut acc: Vec<Vec<u8>> = Vec::new();
    let mut i: usize = 0;
    proof {
        let x = project_row(row.deep_view(), to_ints(idxs@), 0);
        if let Ok(s) = x {
            assert(Seq::<Seq<u8>>::empty() + s =~= s);
        }
        assert(acc.deep_view() =~= Seq::<Seq<u8>>::empty());
    }
    while i < n
        invariant
            i <= n,
            project_row(row.deep_view(), to_ints(idxs@), 0) == names_combine(
                acc.deep_view(),
                project_row(row.deep_view(), to_ints(idxs@), i as int),
            ),
        decreases n - i,
    {
        let j = idxs[i];
        if j >= row.len() {
            return Err(Error::UnknownColumn);
        }
        proof {
            assert(row.deep_view()[j as int] == row@[j as int].deep_view());
        }
        let field = render_col(&row[j]);
        let ghost old_acc = acc.deep_view();
        let ghost fv = field@;
        acc.push(field);
        proof {
            assert(acc.deep_view() =~~= old_acc.push(fv));
            let rest = project_row(row.deep_view(), to_ints(idxs@), i as int + 1);
            if let Ok(s) = rest {
                assert(old_acc + (seq![fv] + s) =~= old_acc.push(fv) + s);
            }
        }
        i = i + 1;
    }
    proof {
        assert(acc.deep_view() + Seq::<Seq<u8>>::empty() =~= acc.deep_view());
    }
    Ok(acc)
}

/// `items[i ..]` joined with `sep` between neighbours.
pub open spec fn join_from(items: Seq<Seq<u8>>, i: int, sep: u8) -> Seq<u8>
    decreases items.len() - i,
{
    if i >= items.len() {
        Seq::empty()
    } else if i == items.len() - 1 {
        items[i]
    } else {
        items[i] + seq![sep] + join_from(items, i + 1, sep)
    }
}

/// Joins byte strings with a separator.
#[verifier::loop_isolation(false)]
pub fn join_x(items: &Vec<Vec<u8>>, sep: u8) -> (r: Vec<u8>)
    ensures
        r@ == join_from(items.deep_view(), 0, sep),
{
    let n = items.len();
    let mut out: Vec<u8> = Vec::new();
    let mut i: usize = 0;
    proof {
        assert(Seq::<u8>::empty() + join_from(items.deep_view(), 0, sep) =~= join_from(
            items.deep_view(),
            0,
            sep,
        ));
    }
    while i < n
        invariant
            i <= n,
            join_from(items.deep_view(), 0, sep) == out@ + join_from(
                items.deep_view(),
                i as int,
                sep,
            ),
        decreases n - i,
    {
        proof {
            assert(items.deep_view()[i as int] == items@[i as int].deep_view());
            assert(items@[i as int].deep_view() =~= items@[i as int]@);
        }
        let ghost old_out = out@;
        let mut piece = dup_bytes(items[i].as_slice());
        out.append(&mut piece);
        if i + 1 < n {
            out.push(sep);
            proof {
                assert(out@ =~= old_out + (items.deep_view()[i as int] + seq![sep]));
                assert(old_out + (items.deep_view()[i as int] + seq![sep] + join_from(
                    items.deep_view(),
                    i as int + 1,
                    sep,
                )) =~= (old_out + (items.deep_view()[i as int] + seq![sep])) + join_from(
                    items.deep_view(),
                    i as int + 1,
                    sep,
                ));
            }
        } else {
            proof {
                assert(out@ =~= old_out + items.deep_view()[i as int]);
                assert(join_from(items.deep_view(), i as int + 1, sep) =~= Seq::<u8>::empty());
                assert(out@ + Seq::<u8>::empty() =~= out@);
            }
        }
        i = i + 1;
    }
    proof {
        assert(join_from(items.deep_view(), i as int, sep) =~= Seq::<u8>::empty());
        assert(out@ + Seq::<u8>::empty() =~= out@);
    }
    out
}

/// One output line for a row: the requested columns rendered and joined
/// with `|`, ended by a newline.
pub open spec fn row_line(row: Seq<ColV>, idxs: Seq<int>) -> Result<Seq<u8>, Error> {
    match project_row(row, idxs, 0) {
        Err(e) => Err(e),
        Ok(fields) => Ok(join_from(fields, 0, 124) + seq![10u8]),
    }
}

/// The output for rows `k ..`, one line each.
pub open spec fn rows_out(rows: Seq<Seq<ColV>>, idxs: Seq<int>, k: int) -> Result<Seq<u8>, Error>
    decreases rows.len() - k,
{
    if k >= rows.len() {
        Ok(Seq::empty())
    } else {
        match row_line(rows[k], idxs) {
            Err(e) => Err(e),
            Ok(line) => match rows_out(rows, idxs, k + 1) {
                Err(e) => Err(e),
                Ok(rest) => Ok(line + rest),
            },
        }
    }
}

/// Prefixes already-printed bytes onto the outcome for the rest.
pub open spec fn bytes_combine(pre: Seq<u8>, rest: Result<Seq<u8>, Error>) -> Result<
    Seq<u8>,
    Error,
> {
    match rest {
        Err(e) => Err(e),
        Ok(s) => Ok(pre + s),
    }
}

/// Prints the selected rows, one line per row.
#[verifier::loop_isolation(false)]
pub fn rows_out_x(rows: &Vec<Vec<Column>>, idxs: &Vec<usize>) -> (r: Result<Vec<u8>, Error>)
    ensures
        match r {
            Ok(out) => rows_out(rows.deep_view(), to_ints(idxs@), 0) == Ok::<Seq<u8>, Error>(out@),
            Err(e) => rows_out(rows.deep_view(), to_ints(idxs@), 0) == Err::<Seq<u8>, Error>(e),
        },
{
    let n = rows.len();
    let mut out: Vec<u8> = Vec::new();
    let mut i: usize = 0;
    proof {
        let x = rows_out(rows.deep_view(), to_ints(idxs@), 0);
        if let Ok(s) = x {
            assert(Seq::<u8>::empty() + s =~= s);
        }
    }
    while i < n
        invariant
            i <= n,
            rows_out(rows.deep_view(), to_ints(idxs@), 0) == bytes_combine(
                out@,
                rows_out(rows.deep_view(), to_ints(idxs@), i as int),
            ),
        decreases n - i,
    {
        proof {
            assert(rows.deep_view()[i as int] == rows@[i as int].deep_view());
        }
        let fields = match project_row_x(&rows[i], idxs) {
            Ok(fs) => fs,
            Err(e) => {
                return Err(e);
            },
        };
        let mut line = join_x(&fields, 124);
        let ghost old_out = out@;
        let ghost linev = line@;
        out.append(&mut line);
        out.push(10);
        proof {
            assert(out@ =~= old_out + (linev + seq![10u8]));
            let rest = rows_out(rows.deep_view(), to_ints(idxs@), i as int + 1);
            if let Ok(s) = rest {
                assert(old_out + ((linev + seq![10u8]) + s) =~= (old_out + (linev + seq![10u8]))
                    + s);
            }
        }
        i = i + 1;
    }
    proof {
        assert(out@ + Seq::<u8>::empty() =~= out@);
    }
    Ok(out)
}

/// The view of the parsed filter the executor carries.
pub open spec fn filter_opt_view(f: &Option<(Vec<u8>, Vec<u8>)>) -> Option<(Seq<u8>, Seq<u8>)> {
    match f {
        None => None,
        Some((c, v)) => Some((c@, v@)),
    }
}

/// The rows a `SELECT` yields before printing, with the positions of the
/// requested columns: the table resolved by name, requested and filtered
/// columns resolved against its declaration, and the rows found either
/// through an index probe on the filtered column followed by one rowid seek
/// per match, or by a full scan filtered row by row.
pub open spec fn spec_select_rows(
    db: Seq<u8>,
    ps: int,
    ts: Seq<TableV>,
    cols: Seq<Seq<u8>>,
    tname: Seq<u8>,
    filter: Option<(Seq<u8>, Seq<u8>)>,
    fuel: nat,
) -> Result<(Seq<Seq<ColV>>, Seq<int>), Error> {
    match find_by_name(ts, tname) {
        None => Err(Error::UnknownTable),
        Some(t) => match spec_column_names(t.sql) {
            Err(e) => Err(e),
            Ok(names) => match resolve_cols(names, cols) {
                Err(e) => Err(e),
                Ok(idxs) => match filter {
                    None => match spec_scan(db, ps, t.rootpage as int, fuel) {
                        Err(e) => Err(e),
                        Ok(rows) => match filter_rows(rows, None, 0) {
                            Err(e) => Err(e),
                            Ok(sel) => Ok((sel, idxs)),
                        },
                    },
                    Some((fc, fv)) => match position_of(names, fc) {
                        None => Err(Error::UnknownColumn),
                        Some(ci) => match find_index(ts, tname, fc) {
                            Some(ix) => match spec_find(db, ps, ix.rootpage as int, fv, fuel) {
                                Err(e) => Err(e),
                                Ok(entries) => match fetch_rows(
                                    db,
                                    ps,
                                    t.rootpage as int,
                                    entries,
                                    0,
                                    fuel,
                                ) {
                                    Err(e) => Err(e),
                                    Ok(rows) => Ok((rows, idxs)),
                                },
                            },
                            None => match spec_scan(db, ps, t.rootpage as int, fuel) {
                                Err(e) => Err(e),
                                Ok(rows) => match filter_rows(rows, Some((ci, fv)), 0) {
                                    Err(e) => Err(e),
                                    Ok(sel) => Ok((sel, idxs)),
                                },
                            },
                        },
                    },
                },
            },
        },
    }
}

/// The full output of a `SELECT`: its rows, printed one line each.
pub open spec fn spec_select(
    db: Seq<u8>,
    ps: int,
    ts: Seq<TableV>,
    cols: Seq<Seq<u8>>,
    tname: Seq<u8>,
    filter: Option<(Seq<u8>, Seq<u8>)>,
    fuel: nat,
) -> Result<Seq<u8>, Error> {
    match spec_select_rows(db, ps, ts, cols, tname, filter, fuel) {
        Err(e) => Err(e),
        Ok((rows, idxs)) => rows_out(rows, idxs, 0),
    }
}

/// Runs a `SELECT` against the schema `ts` of the file `db`.
pub fn run_select(
    db: &[u8],
    ps: usize,
    ts: &Vec<Table>,
    cols: &Vec<Vec<u8>>,
    tname: &[u8],
    filter: &Option<(Vec<u8>, Vec<u8>)>,
    fuel: u64,
) -> (r: Result<Vec<u8>, Error>)
    requires
        1 <= ps <= 0x10000,
    ensures
        match r {
            Ok(out) => spec_select(
                db@,
                ps as int,
                ts.deep_view(),
                cols.deep_view(),
                tname@,
                filter_opt_view(filter),
                fuel as nat,
            ) == Ok::<Seq<u8>, Error>(out@),
            Err(e) => spec_select(
                db@,
                ps as int,
                ts.deep_view(),
                cols.deep_view(),
                tname@,
                filter_opt_view(filter),
                fuel as nat,
            ) == Err::<Seq<u8>, Error>(e),
        },
{
    let t = match find_by_name_x(ts, tname) {
        Some(t) => t,
        None => {
            return Err(Error::UnknownTable);
        },
    };
    let names = match sql_column_names(t.sql.as_slice()) {
        Ok(ns) => ns,
        Err(e) => {
            return Err(e);
        },
    };
    let idxs = match resolve_cols_x(&names, cols) {
        Ok(v) => v,
        Err(e) => {
            return Err(e);
        },
    };
    match filter {
        None => {
            let rows = match scan(db, ps, t.rootpage, fuel) {
                Ok(rows) => rows,
                Err(e) => {
                    return Err(e);
                },
            };
            let fo: Option<(usize, Vec<u8>)> = None;
            let sel = match filter_rows_x(&rows, &fo) {
                Ok(sel) => sel,
                Err(e) => {
                    return Err(e);
                },
            };
            rows_out_x(&sel, &idxs)
        },
        Some((fc, fv)) => {
            let ci = match position_of_x(&names, fc.as_slice()) {
                Some(ci) => ci,
                None => {
                    return Err(Error::UnknownColumn);
                },
            };
            match find_index_x(ts, tname, fc.as_slice()) {
                Some(ix) => {
                    let entries = match find(db, ps, ix.rootpage, fv.as_slice(), fuel) {
                        Ok(es) => es,
                        Err(e) => {
                            return Err(e);
                        },
                    };
                    let rows = match fetch_rows_x(db, ps, t.rootpage, &entries, fuel) {
                        Ok(rows) => rows,
                        Err(e) => {
                            return Err(e);
                        },
                    };
                    rows_out_x(&rows, &idxs)
                },
                None => {
                    let rows = match scan(db, ps, t.rootpage, fuel) {
                        Ok(rows) => rows,
                        Err(e) => {
                            return Err(e);
                        },
                    };
                    let fo: Option<(usize, Vec<u8>)> = Some((ci, dup_bytes(fv.as_slice())));
                    let sel = match filter_rows_x(&rows, &fo) {
                        Ok(sel) => sel,
                        Err(e) => {
                            return Err(e);
                        },
                    };
                    rows_out_x(&sel, &idxs)
                },
            }
        },
    }
}

/// The names the `.tables` directive prints: every table of the schema but
/// the internal `sqlite_sequence`, in file order.
pub open spec fn table_names(ts: Seq<TableV>, k: int) -> Seq<Seq<u8>>
    decreases ts.len() - k,
{
    if k >= ts.len() {
        Seq::empty()
    } else {
        let rest = table_names(ts, k + 1);
        if ts[k].ty == "table".spec_bytes() && ts[k].name != "sqlite_sequence".spec_bytes() {
            seq![ts[k].name] + rest
        } else {
            rest
        }
    }
}

/// How many descents a walk may take: a tree over this file can never be
/// deeper than the file has bytes.
pub open spec fn scan_fuel(db: Seq<u8>) -> nat {
    db.len() as nat
}

/// What a command prints on the file `db`, byte for byte. The page size
/// comes from the file header; the schema from page 1; everything else
/// follows the command.
pub open spec fn spec_run(db: Seq<u8>, cmd: Seq<u8>) -> Result<Seq<u8>, Error> {
    match spec_parse(cmd) {
        Err(e) => Err(e),
        Ok(c) => if db.len() < 100 {
            Err(Error::ShortRead)
        } else {
            let ps = spec_be16(db, 16);
            match c {
                CommandV::DbInfo => if db.len() < 105 {
                    Err(Error::ShortRead)
                } else {
                    Ok(
                        "database page size: ".spec_bytes() + spec_render_int(ps) + seq![10u8]
                            + "number of tables: ".spec_bytes() + spec_render_int(
                            spec_be16(db, 103),
                        ) + seq![10u8],
                    )
                },
                CommandV::Tables => if !page_in_bounds(db, ps, 1) {
                    Err(Error::ShortRead)
                } else {
                    match spec_schema(spec_page(db, ps, 1)) {
                        Err(e) => Err(e),
                        Ok(ts) => Ok(join_from(table_names(ts, 0), 0, 32) + seq![10u8]),
                    }
                },
                CommandV::Count { table } => if !page_in_bounds(db, ps, 1) {
                    Err(Error::ShortRead)
                } else {
                    match spec_schema(spec_page(db, ps, 1)) {
                        Err(e) => Err(e),
                        Ok(ts) => match find_by_name(ts, table) {
                            None => Err(Error::UnknownTable),
                            Some(t) => if !page_in_bounds(db, ps, t.rootpage as int) {
                                Err(Error::ShortRead)
                            } else {
                                let pg = spec_page(db, ps, t.rootpage as int);
                                if pg.len() < 5 {
                                    Err(Error::ShortRead)
                                } else {
                                    Ok(spec_render_int(spec_be16(pg, 3)) + seq![10u8])
                                }
                            },
                        },
                    }
                },
                CommandV::Select { cols, table, filter } => if !page_in_bounds(db, ps, 1) {
                    Err(Error::ShortRead)
                } else {
                    match spec_schema(spec_page(db, ps, 1)) {
                        Err(e) => Err(e),
                        Ok(ts) => spec_select(db, ps, ts, cols, table, filter, scan_fuel(db)),
                    }
                },
            }
        },
    }
}

/// Answers one command over the whole bytes of a database file: the output
/// to print, or the error to report. This is the library's door; everything
/// it returns is pinned to `spec_run`.
pub fn run_command(db: &[u8], cmd: &[u8]) -> (r: Result<Vec<u8>, Error>)
    ensures
        match r {
            Ok(out) => spec_run(db@, cmd@) == Ok::<Seq<u8>, Error>(out@),
            Err(e) => spec_run(db@, cmd@) == Err::<Seq<u8>, Error>(e),
        },
{
    let c = match parse_command(cmd) {
        Ok(c) => c,
        Err(e) => {
            return Err(e);
        },
    };
    if db.len() < 100 {
        return Err(Error::ShortRead);
    }
    let ps16 = be16(db, 16);
    let ps = ps16 as usize;
    match c {
        Command::DbInfo => {
            if db.len() < 105 {
                return Err(Error::ShortRead);
            }
            let ncells = be16(db, 103);
            let mut out: Vec<u8> = dup_bytes("database page size: ".as_bytes());
            let mut piece = render_u64(ps16 as u64);
            out.append(&mut piece);
            out.push(10);
            let mut lab = dup_bytes("number of tables: ".as_bytes());
            out.append(&mut lab);
            let mut piece2 = render_u64(ncells as u64);
            out.append(&mut piece2);
            out.push(10);
            proof {
                assert(spec_render_int(spec_be16(db@, 16)) == crate::value::dec_digits(
                    ps16 as nat,
                ));
                assert(spec_render_int(spec_be16(db@, 103)) == crate::value::dec_digits(
                    ncells as nat,
                ));
                assert(out@ =~= "database page size: ".spec_bytes() + spec_render_int(
                    spec_be16(db@, 16),
                ) + seq![10u8] + "number of tables: ".spec_bytes() + spec_render_int(
                    spec_be16(db@, 103),
                ) + seq![10u8]);
            }
            Ok(out)
        },
        Command::Tables => {
            if ps == 0 {
                return Err(Error::ShortRead);
            }
            let p1 = match read_page(db, ps, 1) {
                Ok(p) => p,
                Err(e) => {
                    return Err(e);
                },
            };
            let ts = match tables(p1) {
                Ok(ts) => ts,
                Err(e) => {
                    return Err(e);
                },
            };
            let names = gather_table_names(&ts);
            let mut out = join_x(&names, 32);
            out.push(10);
            proof {
                assert(out@ =~= join_from(table_names(ts.deep_view(), 0), 0, 32) + seq![10u8]);
            }
            Ok(out)
        },
        Command::Count { table } => {
            if ps == 0 {
                return Err(Error::ShortRead);
            }
            let p1 = match read_page(db, ps, 1) {
                Ok(p) => p,
                Err(e) => {
                    return Err(e);
                },
            };
            let ts = match tables(p1) {
                Ok(ts) => ts,
                Err(e) => {
                    return Err(e);
                },
            };
            let t = match find_by_name_x(&ts, table.as_slice()) {
                Some(t) => t,
                None => {
                    return Err(Error::UnknownTable);
                },
            };
            let pg = match read_page(db, ps, t.rootpage) {
                Ok(p) => p,
                Err(e) => {
                    return Err(e);
                },
            };
            if pg.len() < 5 {
                return Err(Error::ShortRead);
            }
            let nc = be16(pg, 3);
            let mut out = render_u64(nc as u64);
            out.push(10);
            proof {
                assert(spec_render_int(spec_be16(pg@, 3)) == crate::value::dec_digits(nc as nat));
                assert(out@ =~= spec_render_int(spec_be16(pg@, 3)) + seq![10u8]);
            }
            Ok(out)
        },
        Command::Select { cols, table, filter } => {
            if ps == 0 {
                return Err(Error::ShortRead);
            }
            let p1 = match read_page(db, ps, 1) {
                Ok(p) => p,
                Err(e) => {
                    return Err(e);
                },
            };
            let ts = match tables(p1) {
                Ok(ts) => ts,
                Err(e) => {
                    return Err(e);
                },
            };
            let fuel: u64 = db.len() as u64;
            run_select(db, ps, &ts, &cols, table.as_slice(), &filter, fuel)
        },
    }
}

/// Collects what `.tables` prints.
#[verifier::loop_isolation(false)]
fn gather_table_names(ts: &Vec<Table>) -> (r: Vec<Vec<u8>>)
    ensures
        r.deep_view() == table_names(ts.deep_view(), 0),
{
    let n = ts.len();
    let mut acc: Vec<Vec<u8>> = Vec::new();
    let mut i: usize = 0;
    proof {
        assert(Seq::<Seq<u8>>::empty() + table_names(ts.deep_view(), 0) =~= table_names(
            ts.deep_view(),
            0,
        ));
        assert(acc.deep_view() =~= Seq::<Seq<u8>>::empty());
    }
    while i < n
        invariant
            i <= n,
            table_names(ts.deep_view(), 0) == acc.deep_view() + table_names(
                ts.deep_view(),
                i as int,
            ),
        decreases n - i,
    {
        proof {
            assert(ts.deep_view()[i as int] == ts@[i as int].deep_view());
        }
        let ghost old_acc = acc.deep_view();
        if bytes_eq(ts[i].ty.as_slice(), "table".as_bytes()) && !bytes_eq(
            ts[i].name.as_slice(),
            "sqlite_sequence".as_bytes(),
        ) {
            let name = dup_bytes(ts[i].name.as_slice());
            acc.push(name);
            proof {
                assert(acc.deep_view() =~~= old_acc.push(ts.deep_view()[i as int].name));
                let rest = table_names(ts.deep_view(), i as int + 1);
                assert(old_acc + (seq![ts.deep_view()[i as int].name] + rest) =~= old_acc.push(
                    ts.deep_view()[i as int].name,
                ) + rest);
            }
        }
        i = i + 1;
    }
    proof {
        assert(acc.deep_view() + Seq::<Seq<u8>>::empty() =~= acc.deep_view());
    }
    acc
}

/// Asking for columns `a, b` and asking for `b, a` resolve to the same two
/// positions, swapped, and project any row to the same two fields, swapped:
/// the one output is a column-reordered view of the other.
pub proof fn lemma_projection_stability(
    names: Seq<Seq<u8>>,
    row: Seq<ColV>,
    a: Seq<u8>,
    b: Seq<u8>,
    idxs: Seq<int>,
)
    requires
        resolve_cols(names, seq![a, b]) == Ok::<Seq<int>, Error>(idxs),
    ensures
        resolve_cols(names, seq![b, a]) == Ok::<Seq<int>, Error>(seq![idxs[1], idxs[0]]),
        project_row(row, idxs, 0) matches Ok(fields) ==> project_row(
            row,
            seq![idxs[1], idxs[0]],
            0,
        ) == Ok::<Seq<Seq<u8>>, Error>(seq![fields[1], fields[0]]),
{
    let empty_c: Seq<Seq<u8>> = Seq::empty();
    let empty_i: Seq<int> = Seq::empty();
    let empty_f: Seq<Seq<u8>> = Seq::empty();
    assert(seq![a, b][0] == a);
    assert(seq![a, b].skip(1) =~= seq![b]);
    assert(seq![b][0] == b);
    assert(seq![b].skip(1) =~= empty_c);
    assert(seq![b, a][0] == b);
    assert(seq![b, a].skip(1) =~= seq![a]);
    assert(seq![a][0] == a);
    assert(seq![a].skip(1) =~= empty_c);
    let r_ab = resolve_cols(names, seq![a, b]);
    let r_b = resolve_cols(names, seq![b]);
    let r_empty = resolve_cols(names, empty_c);
    assert(r_empty == Ok::<Seq<int>, Error>(empty_i));
    assert(resolve_cols(names, seq![a, b].skip(1)) == r_b);
    let pa = position_of(names, a);
    let pb = position_of(names, b);
    assert(pa is Some);
    let ia = pa->0;
    assert(r_b is Ok);
    assert(pb is Some);
    let ib = pb->0;
    assert(r_b == Ok::<Seq<int>, Error>(seq![ib] + empty_i));
    assert(idxs == seq![ia] + (seq![ib] + empty_i));
    assert(idxs =~= seq![ia, ib]);
    let r_ba = resolve_cols(names, seq![b, a]);
    let r_a = resolve_cols(names, seq![a]);
    assert(resolve_cols(names, seq![b, a].skip(1)) == r_a);
    assert(r_a == Ok::<Seq<int>, Error>(seq![ia] + empty_i));
    assert(r_ba == Ok::<Seq<int>, Error>(seq![ib] + (seq![ia] + empty_i)));
    assert(seq![ib] + (seq![ia] + empty_i) =~= seq![idxs[1], idxs[0]]);
    if let Ok(fields) = project_row(row, idxs, 0) {
        let p1 = project_row(row, idxs, 1);
        let p2 = project_row(row, idxs, 2);
        assert(0 <= ia < row.len());
        assert(p1 is Ok);
        assert(0 <= ib < row.len());
        assert(p2 == Ok::<Seq<Seq<u8>>, Error>(empty_f));
        let fa = spec_render_col(row[ia]);
        let fb = spec_render_col(row[ib]);
        assert(p1 == Ok::<Seq<Seq<u8>>, Error>(seq![fb] + empty_f));
        assert(fields == seq![fa] + (seq![fb] + empty_f));
        assert(fields =~= seq![fa, fb]);
        let swapped = seq![idxs[1], idxs[0]];
        assert(swapped[0] == ib && swapped[1] == ia);
        let q1 = project_row(row, swapped, 1);
        let q2 = project_row(row, swapped, 2);
        assert(q2 == Ok::<Seq<Seq<u8>>, Error>(empty_f));
        assert(q1 == Ok::<Seq<Seq<u8>>, Error>(seq![fa] + empty_f));
        assert(project_row(row, swapped, 0) == Ok::<Seq<Seq<u8>>, Error>(seq![fb] + (seq![fa]
            + empty_f)));
        assert(seq![fb] + (seq![fa] + empty_f) =~= seq![fields[1], fields[0]]);
    }
}

/// The whole-query face of projection stability: `SELECT a,b` and
/// `SELECT b,a` select exactly the same rows, with the two requested
/// positions swapped.
pub proof fn lemma_select_swap(
    db: Seq<u8>,
    ps: int,
    ts: Seq<TableV>,
    a: Seq<u8>,
    b: Seq<u8>,
    tname: Seq<u8>,
    filter: Option<(Seq<u8>, Seq<u8>)>,
    fuel: nat,
    rows: Seq<Seq<ColV>>,
    idxs: Seq<int>,
)
    requires
        spec_select_rows(db, ps, ts, seq![a, b], tname, filter, fuel) == Ok::<
            (Seq<Seq<ColV>>, Seq<int>),
            Error,
        >((rows, idxs)),
    ensures
        spec_select_rows(db, ps, ts, seq![b, a], tname, filter, fuel) == Ok::<
            (Seq<Seq<ColV>>, Seq<int>),
            Error,
        >((rows, seq![idxs[1], idxs[0]])),
{
    assert(find_by_name(ts, tname) is Some);
    let t = find_by_name(ts, tname)->Some_0;
    assert(spec_column_names(t.sql) is Ok);
    let names = spec_column_names(t.sql)->Ok_0;
    assert(resolve_cols(names, seq![a, b]) is Ok);
    assert(resolve_cols(names, seq![a, b])->Ok_0 == idxs);
    lemma_projection_stability(names, Seq::empty(), a, b, idxs);
}

/// A read-only command is a function of the file's bytes and the command
/// text alone: two runs of the same command on the same file produce
/// byte-identical output.
pub proof fn lemma_read_only_idempotent(
    db: Seq<u8>,
    cmd: Seq<u8>,
    r1: Result<Seq<u8>, Error>,
    r2: Result<Seq<u8>, Error>,
)
    requires
        r1 == spec_run(db, cmd),
        r2 == spec_run(db, cmd),
    ensures
        r1 == r2,
{
}

} // verus!
