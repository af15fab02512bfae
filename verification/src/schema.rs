use vstd::prelude::*;

use crate::btree::{spec_table_cell, table_cell};
use crate::error::Error;
use crate::page::{be16, spec_be16};
use crate::value::{ColV, Column};

verus! {

/// One `sqlite_schema` row: what kind of object it is ("table" or "index"),
/// its name, the table it belongs to, the page its B-tree starts on, and
/// the `CREATE ...` text that declared it.
#[derive(Debug, PartialEq)]
pub struct Table {
    pub ty: Vec<u8>,
    pub name: Vec<u8>,
    pub tbl_name: Vec<u8>,
    pub rootpage: u32,
    pub sql: Vec<u8>,
}

/// The mathematical shadow of `Table`.
pub ghost struct TableV {
    pub ty: Seq<u8>,
    pub name: Seq<u8>,
    pub tbl_name: Seq<u8>,
    pub rootpage: u32,
    pub sql: Seq<u8>,
}

impl View for Table {
    type V = TableV;

    open spec fn view(&self) -> TableV {
        TableV {
            ty: self.ty@,
            name: self.name@,
            tbl_name: self.tbl_name@,
            rootpage: self.rootpage,
            sql: self.sql@,
        }
    }
}

impl DeepView for Table {
    type V = TableV;

    open spec fn deep_view(&self) -> TableV {
        self.view()
    }
}

/// Shapes one decoded schema row into a descriptor: five columns, text but
/// for the root page number, which must fit a page address.
pub open spec fn mk_table(cols: Seq<ColV>) -> Result<TableV, Error> {
    if cols.len() == 5 && cols[0] is Text && cols[1] is Text && cols[2] is Text && cols[3]
        is Integer && cols[4] is Text && 1 <= cols[3]->Integer_0 <= 0xffff_ffff {
        Ok(
            TableV {
                ty: cols[0]->Text_0,
                name: cols[1]->Text_0,
                tbl_name: cols[2]->Text_0,
                rootpage: cols[3]->Integer_0 as u32,
                sql: cols[4]->Text_0,
            },
        )
    } else {
        Err(Error::UnsupportedPageType)
    }
}

/// Decodes schema cell `i` of the first page: a table-leaf cell whose
/// record shapes into a descriptor.
pub open spec fn spec_schema_cell(page: Seq<u8>, ncells: int, i: int) -> Result<TableV, Error> {
    match spec_table_cell(page, 100, ncells, i) {
        Err(e) => Err(e),
        Ok((_rid, cols)) => mk_table(cols),
    }
}

/// The schema rows of cells `i ..` in on-page order.
pub open spec fn schema_cells(page: Seq<u8>, ncells: int, i: int) -> Result<Seq<TableV>, Error>
    decreases ncells - i,
{
    if i >= ncells {
        Ok(Seq::empty())
    } else {
        match spec_schema_cell(page, ncells, i) {
            Err(e) => Err(e),
            Ok(t) => match schema_cells(page, ncells, i + 1) {
                Err(e) => Err(e),
                Ok(rest) => Ok(seq![t] + rest),
            },
        }
    }
}

/// Prefixes already-decoded schema rows onto the outcome for the rest.
pub open spec fn tv_combine(pre: Seq<TableV>, rest: Result<Seq<TableV>, Error>) -> Result<
    Seq<TableV>,
    Error,
> {
    match rest {
        Err(e) => Err(e),
        Ok(ts) => Ok(pre + ts),
    }
}

/// Every schema row of the first page. The schema sits in a table-leaf
/// B-tree page whose header starts at byte 100, after the file header.
pub open spec fn spec_schema(page: Seq<u8>) -> Result<Seq<TableV>, Error> {
    if page.len() < 108 {
        Err(Error::ShortRead)
    } else if page[100] != 0x0d {
        Err(Error::UnsupportedPageType)
    } else {
        let ncells = spec_be16(page, 103);
        if page.len() < 108 + 2 * ncells {
            Err(Error::ShortRead)
        } else {
            schema_cells(page, ncells, 0)
        }
    }
}

/// Reads the schema out of the file's first page: one descriptor per table
/// or index, in on-page cell order.
#[verifier::loop_isolation(false)]
pub fn tables(first_page: &[u8]) -> (r: Result<Vec<Table>, Error>)
    ensures
        match r {
            Ok(ts) => spec_schema(first_page@) == Ok::<Seq<TableV>, Error>(ts.deep_view()),
            Err(e) => spec_schema(first_page@) == Err::<Seq<TableV>, Error>(e),
        },
{
    let plen_total = first_page.len();
    if plen_total < 108 {
        return Err(Error::ShortRead);
    }
    if first_page[100] != 0x0d {
        return Err(Error::UnsupportedPageType);
    }
    let ncells = be16(first_page, 103) as usize;
    if (plen_total - 108) / 2 < ncells {
        proof {
            assert(first_page@.len() < 108 + 2 * (ncells as int));
        }
        return Err(Error::ShortRead);
    }
    proof {
        assert(108 + 2 * (ncells as int) <= first_page@.len());
    }
    let mut acc: Vec<Table> = Vec::new();
    let mut i: usize = 0;
    proof {
        let x = schema_cells(first_page@, ncells as int, 0);
        if let Ok(ts) = x {
            assert(Seq::<TableV>::empty() + ts =~= ts);
        }
        assert(acc.deep_view() =~= Seq::<TableV>::empty());
    }
    while i < ncells
        invariant
            i <= ncells,
            spec_schema(first_page@) == tv_combine(
                acc.deep_view(),
                schema_cells(first_page@, ncells as int, i as int),
            ),
        decreases ncells - i,
    {
        let (_rid, mut cols) = match table_cell(first_page, 100, ncells, i) {
            Ok(p) => p,
            Err(e) => {
                return Err(e);
            },
        };
        if cols.len() != 5 {
            return Err(Error::UnsupportedPageType);
        }
        proof {
            assert(cols.deep_view().len() == 5);
            assert(cols.deep_view()[4] == cols@[4].deep_view());
            assert(cols.deep_view()[3] == cols@[3].deep_view());
            assert(cols.deep_view()[2] == cols@[2].deep_view());
            assert(cols.deep_view()[1] == cols@[1].deep_view());
            assert(cols.deep_view()[0] == cols@[0].deep_view());
        }
        let ghost cols0 = cols.deep_view();
        let sql = match cols.pop() {
            Some(Column::Text(t)) => t,
            _ => {
                return Err(Error::UnsupportedPageType);
            },
        };
        let rootpage64 = match cols.pop() {
            Some(Column::Integer(v)) => v,
            _ => {
                return Err(Error::UnsupportedPageType);
            },
        };
        if rootpage64 < 1 || rootpage64 > 0xffff_ffff {
            return Err(Error::UnsupportedPageType);
        }
        let tbl_name = match cols.pop() {
            Some(Column::Text(t)) => t,
            _ => {
                return Err(Error::UnsupportedPageType);
            },
        };
        let name = match cols.pop() {
            Some(Column::Text(t)) => t,
            _ => {
                return Err(Error::UnsupportedPageType);
            },
        };
        let ty = match cols.pop() {
            Some(Column::Text(t)) => t,
            _ => {
                return Err(Error::UnsupportedPageType);
            },
        };
        let t = Table { ty, name, tbl_name, rootpage: rootpage64 as u32, sql };
        proof {
            assert(mk_table(cols0) == Ok::<TableV, Error>(t.deep_view()));
        }
        let ghost old_acc = acc.deep_view();
        acc.push(t);
        proof {
            assert(acc.deep_view() =~= old_acc.push(t.deep_view()));
            let rest = schema_cells(first_page@, ncells as int, i as int + 1);
            if let Ok(ts) = rest {
                assert(old_acc + (seq![t.deep_view()] + ts) =~= old_acc.push(t.deep_view()) + ts);
            }
        }
        i = i + 1;
    }
    proof {
        assert(acc.deep_view() + Seq::<TableV>::empty() =~= acc.deep_view());
    }
    Ok(acc)
}

} // verus!
