use vstd::prelude::*;
use vstd::slice::slice_subrange;

use crate::error::Error;
use crate::page::{
    be16, be32, cell_ptr, page_in_bounds, read_page, spec_be16, spec_be32, spec_cell_ptr,
    spec_page,
};
use crate::record::{row, spec_record};
use crate::value::{ColV, Column};
use crate::varint::{spec_varint, variant};

verus! {

/// A decoded table-leaf cell: rowid varint, payload-length varint, then the
/// record, which must consume exactly the declared payload. `h` is where the
/// page's B-tree header sits (100 on the schema page, 0 elsewhere).
pub open spec fn spec_table_cell(page: Seq<u8>, h: int, ncells: int, i: int) -> Result<
    (u64, Seq<ColV>),
    Error,
> {
    match spec_cell_ptr(page, h, 8, ncells, i) {
        Err(e) => Err(e),
        Ok(off) => {
            let cell = page.skip(off);
            match spec_varint(cell) {
                Err(e) => Err(e),
                Ok((plen, n1)) => match spec_varint(cell.skip(n1)) {
                    Err(e) => Err(e),
                    Ok((rid, n2)) => match spec_record(cell.skip(n1 + n2), rid) {
                        Err(e) => Err(e),
                        Ok((cols, used)) => if used != plen as int {
                            Err(Error::UnsupportedPageType)
                        } else {
                            Ok((rid, cols))
                        },
                    },
                },
            }
        },
    }
}

/// Decodes table-leaf cell `i` of `page`: the cell's rowid and its row.
#[verifier::loop_isolation(false)]
pub fn table_cell(page: &[u8], h: usize, ncells: usize, i: usize) -> (r: Result<
    (u64, Vec<Column>),
    Error,
>)
    requires
        i < ncells,
        h + 8 + 2 * ncells <= page@.len(),
    ensures
        match r {
            Ok((rid, cols)) => spec_table_cell(page@, h as int, ncells as int, i as int) == Ok::<
                (u64, Seq<ColV>),
                Error,
            >((rid, cols.deep_view())),
            Err(e) => spec_table_cell(page@, h as int, ncells as int, i as int) == Err::<
                (u64, Seq<ColV>),
                Error,
            >(e),
        },
{
    let plen_total = page.len();
    let off = match cell_ptr(page, h, 8, ncells, i) {
        Ok(o) => o,
        Err(e) => {
            return Err(e);
        },
    };
    let cellslice = slice_subrange(page, off, plen_total);
    proof {
        assert(cellslice@ =~= page@.skip(off as int));
    }
    let (plen, n1) = match variant(cellslice) {
        Ok(p) => p,
        Err(e) => {
            return Err(e);
        },
    };
    let s1 = slice_subrange(page, off + n1, plen_total);
    proof {
        assert(s1@ =~= page@.skip(off as int).skip(n1 as int));
    }
    let (rid, n2) = match variant(s1) {
        Ok(p) => p,
        Err(e) => {
            return Err(e);
        },
    };
    let s2 = slice_subrange(page, off + n1 + n2, plen_total);
    proof {
        assert(s2@ =~= page@.skip(off as int).skip(n1 as int + n2 as int));
    }
    let (cols, used) = match row(s2, rid) {
        Ok(p) => p,
        Err(e) => {
            return Err(e);
        },
    };
    if (used as u64) != plen {
        return Err(Error::UnsupportedPageType);
    }
    Ok((rid, cols))
}

/// Every table-leaf cell a walk accepts is structurally sound: its decoded
/// offset lands inside the page at or past the end of the cell-pointer
/// array, and its record consumes exactly the payload length the cell
/// declares.
pub proof fn lemma_cell_structure(page: Seq<u8>, h: int, ncells: int, i: int)
    ensures
        spec_table_cell(page, h, ncells, i) is Ok ==> {
            let off = spec_cell_ptr(page, h, 8, ncells, i)->Ok_0;
            let cell = page.skip(off);
            let (plen, n1) = spec_varint(cell)->Ok_0;
            let (rid, n2) = spec_varint(cell.skip(n1))->Ok_0;
            &&& spec_cell_ptr(page, h, 8, ncells, i) is Ok
            &&& crate::page::header_end(h, 8, ncells) <= off < page.len()
            &&& spec_record(cell.skip(n1 + n2), rid) is Ok
            &&& spec_record(cell.skip(n1 + n2), rid)->Ok_0.1 == plen as int
        },
{
}

/// A decoded table-interior cell: the left child's page number and the
/// separator rowid, an inclusive upper bound on the left subtree.
pub open spec fn spec_interior_cell(page: Seq<u8>, ncells: int, i: int) -> Result<
    (u32, u64),
    Error,
> {
    match spec_cell_ptr(page, 0, 12, ncells, i) {
        Err(e) => Err(e),
        Ok(off) => if page.len() < off + 4 {
            Err(Error::ShortRead)
        } else {
            match spec_varint(page.skip(off + 4)) {
                Err(e) => Err(e),
                Ok((key, _n)) => Ok((spec_be32(page, off) as u32, key)),
            }
        },
    }
}

/// Decodes table-interior cell `i` of `page`.
pub fn interior_cell(page: &[u8], ncells: usize, i: usize) -> (r: Result<(u32, u64), Error>)
    requires
        i < ncells,
        12 + 2 * ncells <= page@.len(),
    ensures
        match r {
            Ok((child, key)) => spec_interior_cell(page@, ncells as int, i as int) == Ok::<
                (u32, u64),
                Error,
            >((child, key)),
            Err(e) => spec_interior_cell(page@, ncells as int, i as int) == Err::<
                (u32, u64),
                Error,
            >(e),
        },
{
    let plen_total = page.len();
    let off = match cell_ptr(page, 0, 12, ncells, i) {
        Ok(o) => o,
        Err(e) => {
            return Err(e);
        },
    };
    if plen_total < off + 4 || plen_total - off < 4 {
        return Err(Error::ShortRead);
    }
    let child = be32(page, off);
    let s = slice_subrange(page, off + 4, plen_total);
    proof {
        assert(s@ =~= page@.skip(off as int + 4));
    }
    let key = match variant(s) {
        Ok((k, _)) => k,
        Err(e) => {
            return Err(e);
        },
    };
    Ok((child, key))
}

/// The rows of table-leaf cells `i ..`, each with its rowid, in cell order.
pub open spec fn leaf_rows(page: Seq<u8>, ncells: int, i: int) -> Result<
    Seq<(u64, Seq<ColV>)>,
    Error,
>
    decreases ncells - i,
{
    if i >= ncells {
        Ok(Seq::empty())
    } else {
        match spec_table_cell(page, 0, ncells, i) {
            Err(e) => Err(e),
            Ok(rw) => match leaf_rows(page, ncells, i + 1) {
                Err(e) => Err(e),
                Ok(rest) => Ok(seq![rw] + rest),
            },
        }
    }
}

/// The rows under the left children of interior cells `i ..`, in cell order.
pub open spec fn interior_rows(
    db: Seq<u8>,
    ps: int,
    page: Seq<u8>,
    ncells: int,
    i: int,
    fuel: nat,
) -> Result<Seq<(u64, Seq<ColV>)>, Error>
    decreases fuel, 1int, ncells - i,
{
    if i >= ncells {
        Ok(Seq::empty())
    } else {
        match spec_interior_cell(page, ncells, i) {
            Err(e) => Err(e),
            Ok((child, _key)) => match spec_scan(db, ps, child as int, fuel) {
                Err(e) => Err(e),
                Ok(s) => match interior_rows(db, ps, page, ncells, i + 1, fuel) {
                    Err(e) => Err(e),
                    Ok(rest) => Ok(s + rest),
                },
            },
        }
    }
}

/// Every row of the table B-tree rooted at page `pgno`, with its rowid, in
/// tree order: on a leaf the cells in on-page order, on an interior page
/// each cell's left subtree in cell order and the right-most subtree last.
/// `fuel` bounds the descent; a well-formed tree never runs out, since its
/// depth cannot exceed its page count.
pub open spec fn spec_scan(db: Seq<u8>, ps: int, pgno: int, fuel: nat) -> Result<
    Seq<(u64, Seq<ColV>)>,
    Error,
>
    decreases fuel, 0int, 0int,
{
    if fuel == 0 {
        Err(Error::UnsupportedPageType)
    } else if !page_in_bounds(db, ps, pgno) {
        Err(Error::ShortRead)
    } else {
        let page = spec_page(db, ps, pgno);
        if page.len() < 12 {
            Err(Error::ShortRead)
        } else if page[0] == 0x0d {
            let ncells = spec_be16(page, 3);
            if page.len() < 8 + 2 * ncells {
                Err(Error::ShortRead)
            } else {
                leaf_rows(page, ncells, 0)
            }
        } else if page[0] == 0x05 {
            let ncells = spec_be16(page, 3);
            if page.len() < 12 + 2 * ncells {
                Err(Error::ShortRead)
            } else {
                match interior_rows(db, ps, page, ncells, 0, (fuel - 1) as nat) {
                    Err(e) => Err(e),
                    Ok(s) => match spec_scan(db, ps, spec_be32(page, 8), (fuel - 1) as nat) {
                        Err(e) => Err(e),
                        Ok(t) => Ok(s + t),
                    },
                }
            }
        } else {
            Err(Error::UnsupportedPageType)
        }
    }
}

/// Prefixes already-gathered rows onto the outcome for the rest.
pub open spec fn rows_combine(
    pre: Seq<(u64, Seq<ColV>)>,
    rest: Result<Seq<(u64, Seq<ColV>)>, Error>,
) -> Result<Seq<(u64, Seq<ColV>)>, Error> {
    match rest {
        Err(e) => Err(e),
        Ok(s) => Ok(pre + s),
    }
}

/// Walks the whole table B-tree under page `pgno` and gathers every row
/// with its rowid, in tree order.
#[verifier::loop_isolation(false)]
pub fn scan(db: &[u8], ps: usize, pgno: u32, fuel: u64) -> (r: Result<
    Vec<(u64, Vec<Column>)>,
    Error,
>)
    requires
        1 <= ps <= 0x10000,
    ensures
        match r {
            Ok(rows) => spec_scan(db@, ps as int, pgno as int, fuel as nat) == Ok::<
                Seq<(u64, Seq<ColV>)>,
                Error,
            >(rows.deep_view()),
            Err(e) => spec_scan(db@, ps as int, pgno as int, fuel as nat) == Err::<
                Seq<(u64, Seq<ColV>)>,
                Error,
            >(e),
        },
    decreases fuel,
{
    if fuel == 0 {
        return Err(Error::UnsupportedPageType);
    }
    let page = match read_page(db, ps, pgno) {
        Ok(p) => p,
        Err(e) => {
            return Err(e);
        },
    };
    if page.len() < 12 {
        return Err(Error::ShortRead);
    }
    if page[0] == 0x0d {
        let ncells = be16(page, 3) as usize;
        if (page.len() - 8) / 2 < ncells {
            proof {
                assert(page@.len() < 8 + 2 * (ncells as int));
            }
            return Err(Error::ShortRead);
        }
        proof {
            assert(8 + 2 * (ncells as int) <= page@.len());
        }
        let mut acc: Vec<(u64, Vec<Column>)> = Vec::new();
        let mut i: usize = 0;
        proof {
            let x = leaf_rows(page@, ncells as int, 0);
            if let Ok(s) = x {
                assert(Seq::<(u64, Seq<ColV>)>::empty() + s =~= s);
            }
            assert(acc.deep_view() =~= Seq::<(u64, Seq<ColV>)>::empty());
        }
        while i < ncells
            invariant
                i <= ncells,
                spec_scan(db@, ps as int, pgno as int, fuel as nat) == rows_combine(
                    acc.deep_view(),
                    leaf_rows(page@, ncells as int, i as int),
                ),
            decreases ncells - i,
        {
            let (rid, cols) = match table_cell(page, 0, ncells, i) {
                Ok(p) => p,
                Err(e) => {
                    return Err(e);
                },
            };
            let ghost old_acc = acc.deep_view();
            let ghost rw = (rid, cols.deep_view());
            acc.push((rid, cols));
            proof {
                assert(acc.deep_view() =~= old_acc.push(rw));
                let rest = leaf_rows(page@, ncells as int, i as int + 1);
                if let Ok(s) = rest {
                    assert(old_acc + (seq![rw] + s) =~= old_acc.push(rw) + s);
                }
            }
            i = i + 1;
        }
        proof {
            assert(acc.deep_view() + Seq::<(u64, Seq<ColV>)>::empty() =~= acc.deep_view());
        }
        Ok(acc)
    } else if page[0] == 0x05 {
        let ncells = be16(page, 3) as usize;
        if (page.len() - 12) / 2 < ncells {
            proof {
                assert(page@.len() < 12 + 2 * (ncells as int));
            }
            return Err(Error::ShortRead);
        }
        proof {
            assert(12 + 2 * (ncells as int) <= page@.len());
        }
        let mut acc: Vec<(u64, Vec<Column>)> = Vec::new();
        let mut i: usize = 0;
        proof {
            let x = interior_rows(db@, ps as int, page@, ncells as int, 0, (fuel - 1) as nat);
            if let Ok(s) = x {
                assert(Seq::<(u64, Seq<ColV>)>::empty() + s =~= s);
            }
            assert(acc.deep_view() =~= Seq::<(u64, Seq<ColV>)>::empty());
        }
        while i < ncells
            invariant
                i <= ncells,
                interior_rows(db@, ps as int, page@, ncells as int, 0, (fuel - 1) as nat)
                    == rows_combine(
                    acc.deep_view(),
                    interior_rows(db@, ps as int, page@, ncells as int, i as int, (fuel - 1) as nat),
                ),
            decreases ncells - i,
        {
            let (child, _key) = match interior_cell(page, ncells, i) {
                Ok(p) => p,
                Err(e) => {
                    return Err(e);
                },
            };
            let mut sub = match scan(db, ps, child, fuel - 1) {
                Ok(s) => s,
                Err(e) => {
                    return Err(e);
                },
            };
            let ghost old_acc = acc.deep_view();
            let ghost subv = sub.deep_view();
            acc.append(&mut sub);
            proof {
                assert(acc.deep_view() =~= old_acc + subv);
                let rest = interior_rows(
                    db@,
                    ps as int,
                    page@,
                    ncells as int,
                    i as int + 1,
                    (fuel - 1) as nat,
                );
                if let Ok(s) = rest {
                    assert(old_acc + (subv + s) =~= (old_acc + subv) + s);
                }
            }
            i = i + 1;
        }
        let right = be32(page, 8);
        let mut tail = match scan(db, ps, right, fuel - 1) {
            Ok(s) => s,
            Err(e) => {
                return Err(e);
            },
        };
        let ghost old_acc = acc.deep_view();
        let ghost tailv = tail.deep_view();
        acc.append(&mut tail);
        proof {
            assert(acc.deep_view() =~= old_acc + tailv);
            assert(old_acc + Seq::<(u64, Seq<ColV>)>::empty() =~= old_acc);
        }
        Ok(acc)
    } else {
        Err(Error::UnsupportedPageType)
    }
}

/// Table-leaf cells `i ..` decode, and their rowids ascend strictly,
/// all within `(lo, hi]`.
pub open spec fn wf_leaf(page: Seq<u8>, ncells: int, i: int, lo: int, hi: int) -> bool
    decreases ncells - i,
{
    i >= ncells || (match spec_table_cell(page, 0, ncells, i) {
        Err(_) => false,
        Ok((rid, _cols)) => lo < rid <= hi && wf_leaf(page, ncells, i + 1, rid as int, hi),
    })
}

/// Interior cells `i ..` decode, their separators ascend within `[lo, hi]`,
/// each left subtree is well formed under its separator, and the right-most
/// subtree is well formed above the last separator.
pub open spec fn wf_interior(
    db: Seq<u8>,
    ps: int,
    page: Seq<u8>,
    ncells: int,
    i: int,
    fuel: nat,
    lo: int,
    hi: int,
) -> bool
    decreases fuel, 1int, ncells - i,
{
    if i >= ncells {
        wf_table(db, ps, spec_be32(page, 8), fuel, lo, hi)
    } else {
        match spec_interior_cell(page, ncells, i) {
            Err(_) => false,
            Ok((child, key)) => lo <= key <= hi && wf_table(
                db,
                ps,
                child as int,
                fuel,
                lo,
                key as int,
            ) && wf_interior(db, ps, page, ncells, i + 1, fuel, key as int, hi),
        }
    }
}

/// A well-formed table B-tree under page `pgno`, holding rowids in
/// `(lo, hi]` only: the file format's ordering invariant, stated over the
/// raw bytes.
pub open spec fn wf_table(db: Seq<u8>, ps: int, pgno: int, fuel: nat, lo: int, hi: int) -> bool
    decreases fuel, 0int, 0int,
{
    fuel > 0 && page_in_bounds(db, ps, pgno) && (spec_page(db, ps, pgno).len() >= 12) && {
        let page = spec_page(db, ps, pgno);
        if page[0] == 0x0d {
            let ncells = spec_be16(page, 3);
            page.len() >= 8 + 2 * ncells && wf_leaf(page, ncells, 0, lo, hi)
        } else if page[0] == 0x05 {
            let ncells = spec_be16(page, 3);
            page.len() >= 12 + 2 * ncells && wf_interior(
                db,
                ps,
                page,
                ncells,
                0,
                (fuel - 1) as nat,
                lo,
                hi,
            )
        } else {
            false
        }
    }
}

/// Rowids of `rows` lie in `(lo, hi]` and ascend strictly.
pub open spec fn rows_ordered(rows: Seq<(u64, Seq<ColV>)>, lo: int, hi: int) -> bool {
    (forall|i: int| 0 <= i < rows.len() ==> lo < #[trigger] rows[i].0 <= hi) && (forall|i: int, j: int|
        0 <= i < j < rows.len() ==> #[trigger] rows[i].0 < #[trigger] rows[j].0)
}

/// Ordered runs over adjacent ranges concatenate to an ordered run.
proof fn lemma_ordered_concat(
    aa: Seq<(u64, Seq<ColV>)>,
    bb: Seq<(u64, Seq<ColV>)>,
    lo: int,
    mid: int,
    hi: int,
)
    requires
        rows_ordered(aa, lo, mid),
        rows_ordered(bb, mid, hi),
        lo <= mid <= hi,
    ensures
        rows_ordered(aa + bb, lo, hi),
{
    let cc = aa + bb;
    assert forall|i: int| 0 <= i < cc.len() implies lo < #[trigger] cc[i].0 <= hi by {
        if i < aa.len() {
            assert(cc[i] == aa[i]);
        } else {
            assert(cc[i] == bb[i - aa.len()]);
        }
    }
    assert forall|i: int, j: int| 0 <= i < j < cc.len() implies #[trigger] cc[i].0
        < #[trigger] cc[j].0 by {
        if j < aa.len() {
            assert(cc[i] == aa[i] && cc[j] == aa[j]);
        } else if i >= aa.len() {
            assert(cc[i] == bb[i - aa.len()] && cc[j] == bb[j - aa.len()]);
        } else {
            assert(cc[i] == aa[i] && cc[j] == bb[j - aa.len()]);
            assert(aa[i].0 <= mid);
            assert(bb[j - aa.len()].0 > mid);
        }
    }
}

/// Scanning well-formed table-leaf cells succeeds and yields strictly
/// ascending rowids in `(lo, hi]`.
proof fn lemma_leaf_rows_ordered(page: Seq<u8>, ncells: int, i: int, lo: int, hi: int)
    requires
        wf_leaf(page, ncells, i, lo, hi),
    ensures
        leaf_rows(page, ncells, i) is Ok,
        rows_ordered(leaf_rows(page, ncells, i)->Ok_0, lo, hi),
    decreases ncells - i,
{
    if i >= ncells {
        assert(leaf_rows(page, ncells, i)->Ok_0 =~= Seq::<(u64, Seq<ColV>)>::empty());
    } else {
        let rw = spec_table_cell(page, 0, ncells, i)->Ok_0;
        let rid = rw.0 as int;
        lemma_leaf_rows_ordered(page, ncells, i + 1, rid, hi);
        let rest = leaf_rows(page, ncells, i + 1)->Ok_0;
        assert(rows_ordered(seq![rw], lo, rid));
        lemma_ordered_concat(seq![rw], rest, lo, rid, hi);
    }
}

/// Scanning the subtrees of well-formed interior cells `i ..`, and then the
/// right-most subtree, succeeds and yields strictly ascending rowids in
/// `(lo, hi]`.
proof fn lemma_interior_rows_ordered(
    db: Seq<u8>,
    ps: int,
    page: Seq<u8>,
    ncells: int,
    i: int,
    fuel: nat,
    lo: int,
    hi: int,
)
    requires
        wf_interior(db, ps, page, ncells, i, fuel, lo, hi),
    ensures
        interior_rows(db, ps, page, ncells, i, fuel) is Ok,
        spec_scan(db, ps, spec_be32(page, 8), fuel) is Ok,
        rows_ordered(
            interior_rows(db, ps, page, ncells, i, fuel)->Ok_0 + spec_scan(
                db,
                ps,
                spec_be32(page, 8),
                fuel,
            )->Ok_0,
            lo,
            hi,
        ),
    decreases fuel, 1int, ncells - i,
{
    if i >= ncells {
        lemma_scan_ordered(db, ps, spec_be32(page, 8), fuel, lo, hi);
        let right = spec_scan(db, ps, spec_be32(page, 8), fuel)->Ok_0;
        assert(interior_rows(db, ps, page, ncells, i, fuel)->Ok_0 + right =~= right);
    } else {
        let (child, key) = spec_interior_cell(page, ncells, i)->Ok_0;
        lemma_scan_ordered(db, ps, child as int, fuel, lo, key as int);
        lemma_interior_rows_ordered(db, ps, page, ncells, i + 1, fuel, key as int, hi);
        let sub = spec_scan(db, ps, child as int, fuel)->Ok_0;
        let rest = interior_rows(db, ps, page, ncells, i + 1, fuel)->Ok_0;
        let right = spec_scan(db, ps, spec_be32(page, 8), fuel)->Ok_0;
        lemma_ordered_concat(sub, rest + right, lo, key as int, hi);
        assert((sub + rest) + right =~= sub + (rest + right));
    }
}

/// Table scan ordering: over a well-formed table B-tree the scan succeeds
/// and yields its rows in strictly increasing rowid order, every rowid
/// inside the tree's key range.
pub proof fn lemma_scan_ordered(db: Seq<u8>, ps: int, pgno: int, fuel: nat, lo: int, hi: int)
    requires
        wf_table(db, ps, pgno, fuel, lo, hi),
    ensures
        spec_scan(db, ps, pgno, fuel) is Ok,
        rows_ordered(spec_scan(db, ps, pgno, fuel)->Ok_0, lo, hi),
    decreases fuel, 0int, 0int,
{
    let page = spec_page(db, ps, pgno);
    if page[0] == 0x0d {
        let ncells = spec_be16(page, 3);
        lemma_leaf_rows_ordered(page, ncells, 0, lo, hi);
    } else {
        let ncells = spec_be16(page, 3);
        lemma_interior_rows_ordered(db, ps, page, ncells, 0, (fuel - 1) as nat, lo, hi);
    }
}

/// Searches table-leaf cells `i ..` for the one whose rowid is `rid`:
/// its row, or nothing when no cell matches.
pub open spec fn leaf_seek(page: Seq<u8>, ncells: int, i: int, rid: u64) -> Result<
    Option<Seq<ColV>>,
    Error,
>
    decreases ncells - i,
{
    if i >= ncells {
        Ok(None)
    } else {
        match spec_cell_ptr(page, 0, 8, ncells, i) {
            Err(e) => Err(e),
            Ok(off) => {
                let cell = page.skip(off);
                match spec_varint(cell) {
                    Err(e) => Err(e),
                    Ok((plen, n1)) => match spec_varint(cell.skip(n1)) {
                        Err(e) => Err(e),
                        Ok((k, n2)) => if k != rid {
                            leaf_seek(page, ncells, i + 1, rid)
                        } else {
                            match spec_record(cell.skip(n1 + n2), k) {
                                Err(e) => Err(e),
                                Ok((cols, used)) => if used != plen as int {
                                    Err(Error::UnsupportedPageType)
                                } else {
                                    Ok(Some(cols))
                                },
                            }
                        },
                    },
                }
            },
        }
    }
}

/// Picks the subtree of interior cells `i ..` that can hold rowid `rid`:
/// the first cell whose separator is at least `rid`, or the right-most
/// child when every separator is below it.
pub open spec fn interior_seek(
    db: Seq<u8>,
    ps: int,
    page: Seq<u8>,
    ncells: int,
    i: int,
    rid: u64,
    fuel: nat,
) -> Result<Option<Seq<ColV>>, Error>
    decreases fuel, 1int, ncells - i,
{
    if i >= ncells {
        spec_seek(db, ps, spec_be32(page, 8), rid, fuel)
    } else {
        match spec_interior_cell(page, ncells, i) {
            Err(e) => Err(e),
            Ok((child, key)) => if rid <= key {
                spec_seek(db, ps, child as int, rid, fuel)
            } else {
                interior_seek(db, ps, page, ncells, i + 1, rid, fuel)
            },
        }
    }
}

/// The row with rowid `rid` in the table B-tree under page `pgno`, found
/// along one root-to-leaf path, or nothing when the tree holds no such row.
pub open spec fn spec_seek(db: Seq<u8>, ps: int, pgno: int, rid: u64, fuel: nat) -> Result<
    Option<Seq<ColV>>,
    Error,
>
    decreases fuel, 0int, 0int,
{
    if fuel == 0 {
        Err(Error::UnsupportedPageType)
    } else if !page_in_bounds(db, ps, pgno) {
        Err(Error::ShortRead)
    } else {
        let page = spec_page(db, ps, pgno);
        if page.len() < 12 {
            Err(Error::ShortRead)
        } else if page[0] == 0x0d {
            let ncells = spec_be16(page, 3);
            if page.len() < 8 + 2 * ncells {
                Err(Error::ShortRead)
            } else {
                leaf_seek(page, ncells, 0, rid)
            }
        } else if page[0] == 0x05 {
            let ncells = spec_be16(page, 3);
            if page.len() < 12 + 2 * ncells {
                Err(Error::ShortRead)
            } else {
                interior_seek(db, ps, page, ncells, 0, rid, (fuel - 1) as nat)
            }
        } else {
            Err(Error::UnsupportedPageType)
        }
    }
}

/// Finds the row with rowid `rid` in the table B-tree under page `pgno`,
/// descending one root-to-leaf path.
#[verifier::loop_isolation(false)]
#[verifier::rlimit(60)]
pub fn seek(db: &[u8], ps: usize, pgno: u32, rid: u64, fuel: u64) -> (r: Result<
    Option<Vec<Column>>,
    Error,
>)
    requires
        1 <= ps <= 0x10000,
    ensures
        match r {
            Ok(Some(cols)) => spec_seek(db@, ps as int, pgno as int, rid, fuel as nat) == Ok::<
                Option<Seq<ColV>>,
                Error,
            >(Some(cols.deep_view())),
            Ok(None) => spec_seek(db@, ps as int, pgno as int, rid, fuel as nat) == Ok::<
                Option<Seq<ColV>>,
                Error,
            >(None),
            Err(e) => spec_seek(db@, ps as int, pgno as int, rid, fuel as nat) == Err::<
                Option<Seq<ColV>>,
                Error,
            >(e),
        },
    decreases fuel,
{
    if fuel == 0 {
        return Err(Error::UnsupportedPageType);
    }
    let page = match read_page(db, ps, pgno) {
        Ok(p) => p,
        Err(e) => {
            return Err(e);
        },
    };
    if page.len() < 12 {
        return Err(Error::ShortRead);
    }
    let plen_total = page.len();
    if page[0] == 0x0d {
        let ncells = be16(page, 3) as usize;
        if (page.len() - 8) / 2 < ncells {
            proof {
                assert(page@.len() < 8 + 2 * (ncells as int));
            }
            return Err(Error::ShortRead);
        }
        proof {
            assert(8 + 2 * (ncells as int) <= page@.len());
        }
        let mut i: usize = 0;
        while i < ncells
            invariant
                i <= ncells,
                leaf_seek(page@, ncells as int, 0, rid) == leaf_seek(
                    page@,
                    ncells as int,
                    i as int,
                    rid,
                ),
            decreases ncells - i,
        {
            let off = match cell_ptr(page, 0, 8, ncells, i) {
                Ok(o) => o,
                Err(e) => {
                    return Err(e);
                },
            };
            let cellslice = slice_subrange(page, off, plen_total);
            proof {
                assert(cellslice@ =~= page@.skip(off as int));
            }
            let (plen, n1) = match variant(cellslice) {
                Ok(p) => p,
                Err(e) => {
                    return Err(e);
                },
            };
            let s1 = slice_subrange(page, off + n1, plen_total);
            proof {
                assert(s1@ =~= page@.skip(off as int).skip(n1 as int));
            }
            let (k, n2) = match variant(s1) {
                Ok(p) => p,
                Err(e) => {
                    return Err(e);
                },
            };
            if k == rid {
                let s2 = slice_subrange(page, off + n1 + n2, plen_total);
                proof {
                    assert(s2@ =~= page@.skip(off as int).skip(n1 as int + n2 as int));
                }
                let (cols, used) = match row(s2, k) {
                    Ok(p) => p,
                    Err(e) => {
                        return Err(e);
                    },
                };
                if (used as u64) != plen {
                    return Err(Error::UnsupportedPageType);
                }
                return Ok(Some(cols));
            }
            i = i + 1;
        }
        Ok(None)
    } else if page[0] == 0x05 {
        let ncells = be16(page, 3) as usize;
        if (page.len() - 12) / 2 < ncells {
            proof {
                assert(page@.len() < 12 + 2 * (ncells as int));
            }
            return Err(Error::ShortRead);
        }
        proof {
            assert(12 + 2 * (ncells as int) <= page@.len());
        }
        let mut i: usize = 0;
        while i < ncells
            invariant
                i <= ncells,
                interior_seek(db@, ps as int, page@, ncells as int, 0, rid, (fuel - 1) as nat)
                    == interior_seek(
                    db@,
                    ps as int,
                    page@,
                    ncells as int,
                    i as int,
                    rid,
                    (fuel - 1) as nat,
                ),
            decreases ncells - i,
        {
            let (child, key) = match interior_cell(page, ncells, i) {
                Ok(p) => p,
                Err(e) => {
                    return Err(e);
                },
            };
            if rid <= key {
                return seek(db, ps, child, rid, fuel - 1);
            }
            i = i + 1;
        }
        let right = be32(page, 8);
        seek(db, ps, right, rid, fuel - 1)
    } else {
        Err(Error::UnsupportedPageType)
    }
}

} // verus!
