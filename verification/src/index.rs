use vstd::prelude::*;
use vstd::slice::slice_subrange;

use crate::error::Error;
use crate::page::{
    be16, be32, cell_ptr, page_in_bounds, read_page, spec_be16, spec_be32, spec_cell_ptr,
    spec_page,
};
use crate::record::{row, spec_record};
use crate::value::{
    bytes_eq, bytes_lt, lemma_lex_irrefl, lemma_lex_trans, lex_lt, render_col, spec_render_col,
    ColV, Column,
};
use crate::varint::{spec_varint, variant};

verus! {

/// A decoded index-leaf cell: payload-length varint, then a record whose
/// first column is the indexed key and whose last column is the table
/// rowid. The record must consume exactly the declared payload and must
/// hold at least one column.
pub open spec fn spec_index_leaf_cell(page: Seq<u8>, ncells: int, i: int) -> Result<
    Seq<ColV>,
    Error,
> {
    match spec_cell_ptr(page, 0, 8, ncells, i) {
        Err(e) => Err(e),
        Ok(off) => {
            let cell = page.skip(off);
            match spec_varint(cell) {
                Err(e) => Err(e),
                Ok((plen, n1)) => match spec_record(cell.skip(n1), 0) {
                    Err(e) => Err(e),
                    Ok((cols, used)) => if used != plen as int || cols.len() == 0 {
                        Err(Error::UnsupportedPageType)
                    } else {
                        Ok(cols)
                    },
                },
            }
        },
    }
}

/// A decoded index-interior cell: the left child's page number, then the
/// same payload shape as a leaf cell.
pub open spec fn spec_index_interior_cell(page: Seq<u8>, ncells: int, i: int) -> Result<
    (u32, Seq<ColV>),
    Error,
> {
    match spec_cell_ptr(page, 0, 12, ncells, i) {
        Err(e) => Err(e),
        Ok(off) => if page.len() < off + 4 {
            Err(Error::ShortRead)
        } else {
            let cell = page.skip(off + 4);
            match spec_varint(cell) {
                Err(e) => Err(e),
                Ok((plen, n1)) => match spec_record(cell.skip(n1), 0) {
                    Err(e) => Err(e),
                    Ok((cols, used)) => if used != plen as int || cols.len() == 0 {
                        Err(Error::UnsupportedPageType)
                    } else {
                        Ok((spec_be32(page, off) as u32, cols))
                    },
                },
            }
        },
    }
}

/// Decodes index-leaf cell `i` of `page`.
pub fn index_leaf_cell(page: &[u8], ncells: usize, i: usize) -> (r: Result<Vec<Column>, Error>)
    requires
        i < ncells,
        8 + 2 * ncells <= page@.len(),
    ensures
        match r {
            Ok(cols) => spec_index_leaf_cell(page@, ncells as int, i as int) == Ok::<
                Seq<ColV>,
                Error,
            >(cols.deep_view()) && cols@.len() > 0,
            Err(e) => spec_index_leaf_cell(page@, ncells as int, i as int) == Err::<
                Seq<ColV>,
                Error,
            >(e),
        },
{
    let plen_total = page.len();
    let off = match cell_ptr(page, 0, 8, ncells, i) {
        Ok(o) => o,
        Err(e) => {
            return Err(e);
        },
    };
    let cellslice = slice_subrange(page, off, plen_total);
    proof {
        assert(cellslice@ =~= page@.skip(off as int));
    }
    let (plen, n1) = match variant(cellslice) {
        Ok(p) => p,
        Err(e) => {
            return Err(e);
        },
    };
    let s1 = slice_subrange(page, off + n1, plen_total);
    proof {
        assert(s1@ =~= page@.skip(off as int).skip(n1 as int));
    }
    let (cols, used) = match row(s1, 0) {
        Ok(p) => p,
        Err(e) => {
            return Err(e);
        },
    };
    if (used as u64) != plen || cols.len() == 0 {
        return Err(Error::UnsupportedPageType);
    }
    Ok(cols)
}

/// Decodes index-interior cell `i` of `page`.
pub fn index_interior_cell(page: &[u8], ncells: usize, i: usize) -> (r: Result<
    (u32, Vec<Column>),
    Error,
>)
    requires
        i < ncells,
        12 + 2 * ncells <= page@.len(),
    ensures
        match r {
            Ok((child, cols)) => spec_index_interior_cell(page@, ncells as int, i as int) == Ok::<
                (u32, Seq<ColV>),
                Error,
            >((child, cols.deep_view())) && cols@.len() > 0,
            Err(e) => spec_index_interior_cell(page@, ncells as int, i as int) == Err::<
                (u32, Seq<ColV>),
                Error,
            >(e),
        },
{
    let plen_total = page.len();
    let off = match cell_ptr(page, 0, 12, ncells, i) {
        Ok(o) => o,
        Err(e) => {
            return Err(e);
        },
    };
    if plen_total < off + 4 || plen_total - off < 4 {
        return Err(Error::ShortRead);
    }
    let child = be32(page, off);
    let cellslice = slice_subrange(page, off + 4, plen_total);
    proof {
        assert(cellslice@ =~= page@.skip(off as int + 4));
    }
    let (plen, n1) = match variant(cellslice) {
        Ok(p) => p,
        Err(e) => {
            return Err(e);
        },
    };
    let s1 = slice_subrange(page, off + 4 + n1, plen_total);
    proof {
        assert(s1@ =~= page@.skip(off as int + 4).skip(n1 as int));
    }
    let (cols, used) = match row(s1, 0) {
        Ok(p) => p,
        Err(e) => {
            return Err(e);
        },
    };
    if (used as u64) != plen || cols.len() == 0 {
        return Err(Error::UnsupportedPageType);
    }
    Ok((child, cols))
}

/// `a` is at most `b`, byte-wise.
pub open spec fn lex_le(a: Seq<u8>, b: Seq<u8>) -> bool {
    a == b || lex_lt(a, b)
}

/// The entries of index-leaf cells `i ..` whose key prints as `key`.
pub open spec fn index_leaf_find(page: Seq<u8>, ncells: int, i: int, key: Seq<u8>) -> Result<
    Seq<Seq<ColV>>,
    Error,
>
    decreases ncells - i,
{
    if i >= ncells {
        Ok(Seq::empty())
    } else {
        match spec_index_leaf_cell(page, ncells, i) {
            Err(e) => Err(e),
            Ok(cols) => {
                let m: Seq<Seq<ColV>> = if spec_render_col(cols[0]) == key {
                    seq![cols]
                } else {
                    Seq::empty()
                };
                match index_leaf_find(page, ncells, i + 1, key) {
                    Err(e) => Err(e),
                    Ok(rest) => Ok(m + rest),
                }
            },
        }
    }
}

/// Walks index-interior cells `i ..`, carrying the separator of the cell
/// before (`prev`). A cell whose key equals `key` is itself a match. The
/// walk descends into a cell's left child exactly when `key` falls between
/// `prev` and the cell's separator, both ends inclusive, since keys may
/// repeat on either side of a separator; it stops early once a separator
/// exceeds `key` with a previous separator present, and it descends the
/// right-most child only when every separator is below `key`.
pub open spec fn index_interior_find(
    db: Seq<u8>,
    ps: int,
    page: Seq<u8>,
    ncells: int,
    i: int,
    prev: Option<Seq<u8>>,
    key: Seq<u8>,
    fuel: nat,
) -> Result<Seq<Seq<ColV>>, Error>
    decreases fuel, 1int, ncells - i,
{
    if i >= ncells {
        if prev matches Some(p) && !lex_lt(p, key) {
            Ok(Seq::empty())
        } else {
            spec_find(db, ps, spec_be32(page, 8), key, fuel)
        }
    } else {
        match spec_index_interior_cell(page, ncells, i) {
            Err(e) => Err(e),
            Ok((child, cols)) => {
                let sep = spec_render_col(cols[0]);
                let m: Seq<Seq<ColV>> = if sep == key {
                    seq![cols]
                } else {
                    Seq::empty()
                };
                let descend = match prev {
                    None => lex_le(key, sep),
                    Some(p) => lex_le(p, key) && lex_le(key, sep),
                };
                if descend {
                    match spec_find(db, ps, child as int, key, fuel) {
                        Err(e) => Err(e),
                        Ok(sub) => match index_interior_find(
                            db,
                            ps,
                            page,
                            ncells,
                            i + 1,
                            Some(sep),
                            key,
                            fuel,
                        ) {
                            Err(e) => Err(e),
                            Ok(rest) => Ok(m + (sub + rest)),
                        },
                    }
                } else if prev is Some && lex_lt(key, sep) {
                    Ok(m)
                } else {
                    match index_interior_find(db, ps, page, ncells, i + 1, Some(sep), key, fuel) {
                        Err(e) => Err(e),
                        Ok(rest) => Ok(m + rest),
                    }
                }
            },
        }
    }
}

/// Every entry of the index B-tree under page `pgno` whose key prints as
/// `key`: full index records, each ending in the table rowid it points at.
pub open spec fn spec_find(db: Seq<u8>, ps: int, pgno: int, key: Seq<u8>, fuel: nat) -> Result<
    Seq<Seq<ColV>>,
    Error,
>
    decreases fuel, 0int, 0int,
{
    if fuel == 0 {
        Err(Error::UnsupportedPageType)
    } else if !page_in_bounds(db, ps, pgno) {
        Err(Error::ShortRead)
    } else {
        let page = spec_page(db, ps, pgno);
        if page.len() < 12 {
            Err(Error::ShortRead)
        } else if page[0] == 0x0a {
            let ncells = spec_be16(page, 3);
            if page.len() < 8 + 2 * ncells {
                Err(Error::ShortRead)
            } else {
                index_leaf_find(page, ncells, 0, key)
            }
        } else if page[0] == 0x02 {
            let ncells = spec_be16(page, 3);
            if page.len() < 12 + 2 * ncells {
                Err(Error::ShortRead)
            } else {
                index_interior_find(db, ps, page, ncells, 0, None, key, (fuel - 1) as nat)
            }
        } else {
            Err(Error::UnsupportedPageType)
        }
    }
}

/// Every entry of `es` carries the probed key in its first column.
pub open spec fn entries_match(es: Seq<Seq<ColV>>, key: Seq<u8>) -> bool {
    forall|i: int|
        0 <= i < es.len() ==> (#[trigger] es[i]).len() > 0 && spec_render_col(es[i][0]) == key
}

/// Leaf probing is sound: it collects only entries whose key prints as the
/// one probed for.
proof fn lemma_leaf_find_sound(page: Seq<u8>, ncells: int, i: int, key: Seq<u8>)
    ensures
        index_leaf_find(page, ncells, i, key) matches Ok(es) ==> entries_match(es, key),
    decreases ncells - i,
{
    if i < ncells {
        lemma_leaf_find_sound(page, ncells, i + 1, key);
    }
}

/// Interior probing is sound in the same sense.
proof fn lemma_interior_find_sound(
    db: Seq<u8>,
    ps: int,
    page: Seq<u8>,
    ncells: int,
    i: int,
    prev: Option<Seq<u8>>,
    key: Seq<u8>,
    fuel: nat,
)
    ensures
        index_interior_find(db, ps, page, ncells, i, prev, key, fuel) matches Ok(es)
            ==> entries_match(es, key),
    decreases fuel, 1int, ncells - i,
{
    if i >= ncells {
        if !(prev matches Some(p) && !lex_lt(p, key)) {
            lemma_find_sound(db, ps, spec_be32(page, 8), key, fuel);
        }
    } else {
        match spec_index_interior_cell(page, ncells, i) {
            Err(_) => {},
            Ok((child, cols)) => {
                let sep = spec_render_col(cols[0]);
                lemma_find_sound(db, ps, child as int, key, fuel);
                lemma_interior_find_sound(db, ps, page, ncells, i + 1, Some(sep), key, fuel);
            },
        }
    }
}

/// Index correctness, the sound half, with nothing assumed of the tree:
/// every entry `spec_find` returns has the probed key as its first column.
/// The complete half, over well-ordered trees, is `lemma_find_complete`.
pub proof fn lemma_find_sound(db: Seq<u8>, ps: int, pgno: int, key: Seq<u8>, fuel: nat)
    ensures
        spec_find(db, ps, pgno, key, fuel) matches Ok(es) ==> entries_match(es, key),
    decreases fuel, 0int, 0int,
{
    if fuel > 0 && page_in_bounds(db, ps, pgno) {
        let page = spec_page(db, ps, pgno);
        if page.len() >= 12 {
            if page[0] == 0x0a {
                lemma_leaf_find_sound(page, spec_be16(page, 3), 0, key);
            } else if page[0] == 0x02 {
                lemma_interior_find_sound(
                    db,
                    ps,
                    page,
                    spec_be16(page, 3),
                    0,
                    None,
                    key,
                    (fuel - 1) as nat,
                );
            }
        }
    }
}

/// Every entry of the index B-tree under page `pgno`, in traversal order:
/// on an interior page each cell's own entry, then its left subtree, then
/// the cells after it, and the right-most subtree last.
pub open spec fn spec_index_entries(db: Seq<u8>, ps: int, pgno: int, fuel: nat) -> Result<
    Seq<Seq<ColV>>,
    Error,
>
    decreases fuel, 0int, 0int,
{
    if fuel == 0 {
        Err(Error::UnsupportedPageType)
    } else if !page_in_bounds(db, ps, pgno) {
        Err(Error::ShortRead)
    } else {
        let page = spec_page(db, ps, pgno);
        if page.len() < 12 {
            Err(Error::ShortRead)
        } else if page[0] == 0x0a {
            let ncells = spec_be16(page, 3);
            if page.len() < 8 + 2 * ncells {
                Err(Error::ShortRead)
            } else {
                index_leaf_entries(page, ncells, 0)
            }
        } else if page[0] == 0x02 {
            let ncells = spec_be16(page, 3);
            if page.len() < 12 + 2 * ncells {
                Err(Error::ShortRead)
            } else {
                index_interior_entries(db, ps, page, ncells, 0, (fuel - 1) as nat)
            }
        } else {
            Err(Error::UnsupportedPageType)
        }
    }
}

/// The entries of index-leaf cells `i ..`, in cell order.
pub open spec fn index_leaf_entries(page: Seq<u8>, ncells: int, i: int) -> Result<
    Seq<Seq<ColV>>,
    Error,
>
    decreases ncells - i,
{
    if i >= ncells {
        Ok(Seq::empty())
    } else {
        match spec_index_leaf_cell(page, ncells, i) {
            Err(e) => Err(e),
            Ok(cols) => match index_leaf_entries(page, ncells, i + 1) {
                Err(e) => Err(e),
                Ok(rest) => Ok(seq![cols] + rest),
            },
        }
    }
}

/// The entries under interior cells `i ..` and the right-most subtree.
pub open spec fn index_interior_entries(
    db: Seq<u8>,
    ps: int,
    page: Seq<u8>,
    ncells: int,
    i: int,
    fuel: nat,
) -> Result<Seq<Seq<ColV>>, Error>
    decreases fuel, 1int, ncells - i,
{
    if i >= ncells {
        spec_index_entries(db, ps, spec_be32(page, 8), fuel)
    } else {
        match spec_index_interior_cell(page, ncells, i) {
            Err(e) => Err(e),
            Ok((child, cols)) => match spec_index_entries(db, ps, child as int, fuel) {
                Err(e) => Err(e),
                Ok(sub) => match index_interior_entries(db, ps, page, ncells, i + 1, fuel) {
                    Err(e) => Err(e),
                    Ok(rest) => Ok(seq![cols] + (sub + rest)),
                },
            },
        }
    }
}

/// The entries of `es` whose key prints as `key`, in order.
pub open spec fn filter_key(es: Seq<Seq<ColV>>, key: Seq<u8>) -> Seq<Seq<ColV>>
    decreases es.len(),
{
    if es.len() == 0 {
        Seq::empty()
    } else {
        (if es[0].len() > 0 && spec_render_col(es[0][0]) == key {
            seq![es[0]]
        } else {
            Seq::empty()
        }) + filter_key(es.skip(1), key)
    }
}

/// Filtering distributes over concatenation.
proof fn lemma_filter_key_add(aa: Seq<Seq<ColV>>, bb: Seq<Seq<ColV>>, key: Seq<u8>)
    ensures
        filter_key(aa + bb, key) == filter_key(aa, key) + filter_key(bb, key),
    decreases aa.len(),
{
    if aa.len() == 0 {
        assert(aa + bb =~= bb);
        assert(filter_key(aa, key) + filter_key(bb, key) =~= filter_key(bb, key));
    } else {
        assert((aa + bb)[0] == aa[0]);
        assert((aa + bb).skip(1) =~= aa.skip(1) + bb);
        lemma_filter_key_add(aa.skip(1), bb, key);
        let head: Seq<Seq<ColV>> = if aa[0].len() > 0 && spec_render_col(aa[0][0]) == key {
            seq![aa[0]]
        } else {
            Seq::empty()
        };
        assert(head + (filter_key(aa.skip(1), key) + filter_key(bb, key)) =~= (head + filter_key(
            aa.skip(1),
            key,
        )) + filter_key(bb, key));
    }
}

/// A lower bound on a key, inclusive or strict.
pub open spec fn key_above(lo: Option<Seq<u8>>, strict: bool, k: Seq<u8>) -> bool {
    match lo {
        None => true,
        Some(l) => if strict {
            lex_lt(l, k)
        } else {
            lex_le(l, k)
        },
    }
}

/// An upper bound on a key, inclusive.
pub open spec fn key_at_most(hi: Option<Seq<u8>>, k: Seq<u8>) -> bool {
    match hi {
        None => true,
        Some(h) => lex_le(k, h),
    }
}

/// Every entry of `es` is non-empty and keyed within the given bounds.
pub open spec fn all_within(
    es: Seq<Seq<ColV>>,
    lo: Option<Seq<u8>>,
    strict: bool,
    hi: Option<Seq<u8>>,
) -> bool {
    forall|j: int|
        0 <= j < es.len() ==> (#[trigger] es[j]).len() > 0 && key_above(
            lo,
            strict,
            spec_render_col(es[j][0]),
        ) && key_at_most(hi, spec_render_col(es[j][0]))
}

/// Index-leaf cells `i ..` decode and their keys lie within the bounds.
pub open spec fn wf_index_leaf(
    page: Seq<u8>,
    ncells: int,
    i: int,
    lo: Option<Seq<u8>>,
    strict: bool,
    hi: Option<Seq<u8>>,
) -> bool
    decreases ncells - i,
{
    i >= ncells || (match spec_index_leaf_cell(page, ncells, i) {
        Err(_) => false,
        Ok(cols) => key_above(lo, strict, spec_render_col(cols[0])) && key_at_most(
            hi,
            spec_render_col(cols[0]),
        ) && wf_index_leaf(page, ncells, i + 1, lo, strict, hi),
    })
}

/// Interior cells `i ..` decode; each separator lies within the bounds, its
/// left subtree's keys stay at or below it and at or above the one before,
/// and the right-most subtree's keys lie strictly above the last separator.
pub open spec fn wf_index_interior(
    db: Seq<u8>,
    ps: int,
    page: Seq<u8>,
    ncells: int,
    i: int,
    fuel: nat,
    lo: Option<Seq<u8>>,
    strict: bool,
    hi: Option<Seq<u8>>,
) -> bool
    decreases fuel, 1int, ncells - i,
{
    if i >= ncells {
        wf_index(
            db,
            ps,
            spec_be32(page, 8),
            fuel,
            lo,
            if i == 0 {
                strict
            } else {
                true
            },
            hi,
        )
    } else {
        match spec_index_interior_cell(page, ncells, i) {
            Err(_) => false,
            Ok((child, cols)) => {
                let sep = spec_render_col(cols[0]);
                key_above(lo, strict, sep) && key_at_most(hi, sep) && wf_index(
                    db,
                    ps,
                    child as int,
                    fuel,
                    lo,
                    strict,
                    Some(sep),
                ) && wf_index_interior(db, ps, page, ncells, i + 1, fuel, Some(sep), false, hi)
            },
        }
    }
}

/// A well-ordered index B-tree under page `pgno`, all of whose keys lie
/// within the given bounds: the format's ordering invariant over the raw
/// bytes, strengthened so that no key repeats past the last separator into
/// a right-most subtree.
pub open spec fn wf_index(
    db: Seq<u8>,
    ps: int,
    pgno: int,
    fuel: nat,
    lo: Option<Seq<u8>>,
    strict: bool,
    hi: Option<Seq<u8>>,
) -> bool
    decreases fuel, 0int, 0int,
{
    fuel > 0 && page_in_bounds(db, ps, pgno) && spec_page(db, ps, pgno).len() >= 12 && {
        let page = spec_page(db, ps, pgno);
        if page[0] == 0x0a {
            let ncells = spec_be16(page, 3);
            page.len() >= 8 + 2 * ncells && wf_index_leaf(page, ncells, 0, lo, strict, hi)
        } else if page[0] == 0x02 {
            let ncells = spec_be16(page, 3);
            page.len() >= 12 + 2 * ncells && wf_index_interior(
                db,
                ps,
                page,
                ncells,
                0,
                (fuel - 1) as nat,
                lo,
                strict,
                hi,
            )
        } else {
            false
        }
    }
}

/// Inclusive byte order composes.
proof fn lemma_lex_le_trans(a: Seq<u8>, b: Seq<u8>, c: Seq<u8>)
    requires
        lex_le(a, b),
        lex_le(b, c),
    ensures
        lex_le(a, c),
{
    if a != b && b != c {
        lemma_lex_trans(a, b, c);
    }
}

/// A bound carried by a subtree widens to the bound around it.
proof fn lemma_key_above_widen(lo: Option<Seq<u8>>, strict: bool, sep: Seq<u8>, k: Seq<u8>)
    requires
        key_above(lo, strict, sep),
        lex_le(sep, k),
    ensures
        key_above(lo, strict, k),
{
    if let Some(l) = lo {
        if strict {
            if sep != k {
                lemma_lex_trans(l, sep, k);
            }
        } else {
            lemma_lex_le_trans(l, sep, k);
        }
    }
}

/// Well-formed leaf cells enumerate successfully, within bounds.
proof fn lemma_leaf_entries_bounds(
    page: Seq<u8>,
    ncells: int,
    i: int,
    lo: Option<Seq<u8>>,
    strict: bool,
    hi: Option<Seq<u8>>,
)
    requires
        wf_index_leaf(page, ncells, i, lo, strict, hi),
    ensures
        index_leaf_entries(page, ncells, i) is Ok,
        all_within(index_leaf_entries(page, ncells, i)->Ok_0, lo, strict, hi),
    decreases ncells - i,
{
    if i < ncells {
        lemma_leaf_entries_bounds(page, ncells, i + 1, lo, strict, hi);
        let cols = spec_index_leaf_cell(page, ncells, i)->Ok_0;
        let es = index_leaf_entries(page, ncells, i)->Ok_0;
        let rest = index_leaf_entries(page, ncells, i + 1)->Ok_0;
        assert forall|j: int| 0 <= j < es.len() implies (#[trigger] es[j]).len() > 0 && key_above(
            lo,
            strict,
            spec_render_col(es[j][0]),
        ) && key_at_most(hi, spec_render_col(es[j][0])) by {
            if j == 0 {
                assert(es[j] == cols);
            } else {
                assert(es[j] == rest[j - 1]);
            }
        }
    }
}

/// Well-formed interior cells and the right-most subtree enumerate
/// successfully, within bounds.
proof fn lemma_interior_entries_bounds(
    db: Seq<u8>,
    ps: int,
    page: Seq<u8>,
    ncells: int,
    i: int,
    fuel: nat,
    lo: Option<Seq<u8>>,
    strict: bool,
    hi: Option<Seq<u8>>,
)
    requires
        wf_index_interior(db, ps, page, ncells, i, fuel, lo, strict, hi),
    ensures
        index_interior_entries(db, ps, page, ncells, i, fuel) is Ok,
        all_within(index_interior_entries(db, ps, page, ncells, i, fuel)->Ok_0, lo, strict, hi),
    decreases fuel, 1int, ncells - i,
{
    if i >= ncells {
        lemma_entries_bounds(
            db,
            ps,
            spec_be32(page, 8),
            fuel,
            lo,
            if i == 0 {
                strict
            } else {
                true
            },
            hi,
        );
        let es = index_interior_entries(db, ps, page, ncells, i, fuel)->Ok_0;
        assert forall|j: int| 0 <= j < es.len() implies (#[trigger] es[j]).len() > 0 && key_above(
            lo,
            strict,
            spec_render_col(es[j][0]),
        ) && key_at_most(hi, spec_render_col(es[j][0])) by {
            if strict && i > 0 {
                assert(key_above(lo, true, spec_render_col(es[j][0])));
            }
        }
    } else {
        let (child, cols) = spec_index_interior_cell(page, ncells, i)->Ok_0;
        let sep = spec_render_col(cols[0]);
        lemma_entries_bounds(db, ps, child as int, fuel, lo, strict, Some(sep));
        lemma_interior_entries_bounds(db, ps, page, ncells, i + 1, fuel, Some(sep), false, hi);
        let sub = spec_index_entries(db, ps, child as int, fuel)->Ok_0;
        let rest = index_interior_entries(db, ps, page, ncells, i + 1, fuel)->Ok_0;
        let es = index_interior_entries(db, ps, page, ncells, i, fuel)->Ok_0;
        assert(es =~= seq![cols] + (sub + rest));
        assert forall|j: int| 0 <= j < es.len() implies (#[trigger] es[j]).len() > 0 && key_above(
            lo,
            strict,
            spec_render_col(es[j][0]),
        ) && key_at_most(hi, spec_render_col(es[j][0])) by {
            if j == 0 {
                assert(es[j] == cols);
            } else if j - 1 < sub.len() {
                assert(es[j] == sub[j - 1]);
                assert(key_at_most(Some(sep), spec_render_col(sub[j - 1][0])));
                lemma_lex_le_trans_opt(spec_render_col(sub[j - 1][0]), sep, hi);
            } else {
                assert(es[j] == rest[j - 1 - sub.len()]);
                let k = spec_render_col(rest[j - 1 - sub.len()][0]);
                assert(key_above(Some(sep), false, k));
                lemma_key_above_widen(lo, strict, sep, k);
            }
        }
    }
}

/// An upper bound composes through a separator.
proof fn lemma_lex_le_trans_opt(k: Seq<u8>, sep: Seq<u8>, hi: Option<Seq<u8>>)
    requires
        lex_le(k, sep),
        key_at_most(hi, sep),
    ensures
        key_at_most(hi, k),
{
    if let Some(h) = hi {
        lemma_lex_le_trans(k, sep, h);
    }
}

/// A well-ordered index tree enumerates successfully, within bounds.
proof fn lemma_entries_bounds(
    db: Seq<u8>,
    ps: int,
    pgno: int,
    fuel: nat,
    lo: Option<Seq<u8>>,
    strict: bool,
    hi: Option<Seq<u8>>,
)
    requires
        wf_index(db, ps, pgno, fuel, lo, strict, hi),
    ensures
        spec_index_entries(db, ps, pgno, fuel) is Ok,
        all_within(spec_index_entries(db, ps, pgno, fuel)->Ok_0, lo, strict, hi),
    decreases fuel, 0int, 0int,
{
    let page = spec_page(db, ps, pgno);
    if page[0] == 0x0a {
        lemma_leaf_entries_bounds(page, spec_be16(page, 3), 0, lo, strict, hi);
    } else {
        lemma_interior_entries_bounds(
            db,
            ps,
            page,
            spec_be16(page, 3),
            0,
            (fuel - 1) as nat,
            lo,
            strict,
            hi,
        );
    }
}

/// Entries none of whose keys print as `key` filter away entirely.
proof fn lemma_filter_key_none(es: Seq<Seq<ColV>>, key: Seq<u8>)
    requires
        forall|j: int| 0 <= j < es.len() ==> spec_render_col((#[trigger] es[j])[0]) != key,
    ensures
        filter_key(es, key) == Seq::<Seq<ColV>>::empty(),
    decreases es.len(),
{
    if es.len() > 0 {
        assert forall|j: int| 0 <= j < es.skip(1).len() implies spec_render_col(
            (#[trigger] es.skip(1)[j])[0],
        ) != key by {
            assert(es.skip(1)[j] == es[j + 1]);
        }
        lemma_filter_key_none(es.skip(1), key);
        assert(filter_key(es, key) =~= Seq::<Seq<ColV>>::empty());
    }
}

/// Leaf probing gathers exactly the matching entries, in cell order.
proof fn lemma_leaf_find_complete(page: Seq<u8>, ncells: int, i: int, key: Seq<u8>)
    ensures
        index_leaf_entries(page, ncells, i) matches Ok(es) ==> index_leaf_find(
            page,
            ncells,
            i,
            key,
        ) == Ok::<Seq<Seq<ColV>>, Error>(filter_key(es, key)),
    decreases ncells - i,
{
    if i < ncells {
        lemma_leaf_find_complete(page, ncells, i + 1, key);
        if let Ok(es) = index_leaf_entries(page, ncells, i) {
            let cols = spec_index_leaf_cell(page, ncells, i)->Ok_0;
            let rest = index_leaf_entries(page, ncells, i + 1)->Ok_0;
            assert(es[0] == cols);
            assert(es.skip(1) =~= rest);
        }
    }
}

/// Interior probing gathers exactly the matching entries under cells
/// `i ..` and the right-most subtree, provided the walk's last separator
/// matches the tree's lower bound.
proof fn lemma_interior_find_complete(
    db: Seq<u8>,
    ps: int,
    page: Seq<u8>,
    ncells: int,
    i: int,
    prev: Option<Seq<u8>>,
    key: Seq<u8>,
    fuel: nat,
    lo: Option<Seq<u8>>,
    strict: bool,
    hi: Option<Seq<u8>>,
)
    requires
        0 <= i,
        wf_index_interior(db, ps, page, ncells, i, fuel, lo, strict, hi),
        prev matches Some(p) ==> lo == Some(p) && !strict,
        i == 0 ==> prev is None,
    ensures
        index_interior_entries(db, ps, page, ncells, i, fuel) is Ok,
        index_interior_find(db, ps, page, ncells, i, prev, key, fuel) == Ok::<
            Seq<Seq<ColV>>,
            Error,
        >(filter_key(index_interior_entries(db, ps, page, ncells, i, fuel)->Ok_0, key)),
    decreases fuel, 1int, ncells - i,
{
    if i >= ncells {
        let right_strict = if i == 0 {
            strict
        } else {
            true
        };
        lemma_entries_bounds(db, ps, spec_be32(page, 8), fuel, lo, right_strict, hi);
        let es = spec_index_entries(db, ps, spec_be32(page, 8), fuel)->Ok_0;
        if prev matches Some(p) && !lex_lt(p, key) {
            assert forall|j: int| 0 <= j < es.len() implies spec_render_col(
                (#[trigger] es[j])[0],
            ) != key by {
                assert(key_above(lo, right_strict, spec_render_col(es[j][0])));
            }
            lemma_filter_key_none(es, key);
        } else {
            lemma_find_complete(db, ps, spec_be32(page, 8), key, fuel, lo, right_strict, hi);
        }
    } else {
        let (child, cols) = spec_index_interior_cell(page, ncells, i)->Ok_0;
        let sep = spec_render_col(cols[0]);
        let m: Seq<Seq<ColV>> = if sep == key {
            seq![cols]
        } else {
            Seq::empty()
        };
        let descend = match prev {
            None => lex_le(key, sep),
            Some(p) => lex_le(p, key) && lex_le(key, sep),
        };
        lemma_interior_find_complete(
            db,
            ps,
            page,
            ncells,
            i + 1,
            Some(sep),
            key,
            fuel,
            Some(sep),
            false,
            hi,
        );
        let rest = index_interior_entries(db, ps, page, ncells, i + 1, fuel)->Ok_0;
        lemma_entries_bounds(db, ps, child as int, fuel, lo, strict, Some(sep));
        let sub = spec_index_entries(db, ps, child as int, fuel)->Ok_0;
        let es = index_interior_entries(db, ps, page, ncells, i, fuel)->Ok_0;
        assert(es == seq![cols] + (sub + rest));
        assert(cols.len() > 0);
        assert(filter_key(seq![cols], key) =~= m) by {
            assert(seq![cols][0] == cols);
            assert(seq![cols].skip(1) =~= Seq::<Seq<ColV>>::empty());
            assert(filter_key(Seq::<Seq<ColV>>::empty(), key) == Seq::<Seq<ColV>>::empty());
        }
        lemma_filter_key_add(seq![cols], sub + rest, key);
        lemma_filter_key_add(sub, rest, key);
        if descend {
            lemma_find_complete(db, ps, child as int, key, fuel, lo, strict, Some(sep));
            assert(index_interior_find(db, ps, page, ncells, i, prev, key, fuel)->Ok_0 == m + (
            filter_key(sub, key) + filter_key(rest, key)));
        } else {
            // the walk passes this subtree over: nothing in it can match
            assert forall|j: int| 0 <= j < sub.len() implies spec_render_col(
                (#[trigger] sub[j])[0],
            ) != key by {
                let k = spec_render_col(sub[j][0]);
                assert(key_above(lo, strict, k) && key_at_most(Some(sep), k));
                if k == key {
                    assert(lex_le(key, sep));
                    match prev {
                        Some(p) => {
                            assert(lex_le(p, key));
                            assert(!(lex_le(p, key) && lex_le(key, sep)));
                        },
                        None => {
                            assert(!lex_le(key, sep));
                        },
                    }
                }
            }
            lemma_filter_key_none(sub, key);
            if prev is Some && lex_lt(key, sep) {
                // the walk stops here: nothing to the right can match either
                if sep == key {
                    lemma_lex_irrefl(key);
                }
                lemma_interior_entries_bounds(
                    db,
                    ps,
                    page,
                    ncells,
                    i + 1,
                    fuel,
                    Some(sep),
                    false,
                    hi,
                );
                assert forall|j: int| 0 <= j < rest.len() implies spec_render_col(
                    (#[trigger] rest[j])[0],
                ) != key by {
                    let k = spec_render_col(rest[j][0]);
                    assert(key_above(Some(sep), false, k));
                    if k == key {
                        if sep == key {
                            lemma_lex_irrefl(key);
                        } else {
                            lemma_lex_trans(key, sep, key);
                            lemma_lex_irrefl(key);
                        }
                    }
                }
                lemma_filter_key_none(rest, key);
                assert(m =~= m + (Seq::<Seq<ColV>>::empty() + Seq::<Seq<ColV>>::empty()));
            } else {
                assert(index_interior_find(db, ps, page, ncells, i, prev, key, fuel)->Ok_0 == m
                    + filter_key(rest, key));
                assert(m + filter_key(rest, key) =~= m + (Seq::<Seq<ColV>>::empty() + filter_key(
                    rest,
                    key,
                )));
            }
        }
    }
}

/// Index correctness, the complete half: over a well-ordered index tree the
/// probe returns exactly the entries whose key prints as the one probed
/// for, in traversal order, whatever the bounds around the tree.
pub proof fn lemma_find_complete(
    db: Seq<u8>,
    ps: int,
    pgno: int,
    key: Seq<u8>,
    fuel: nat,
    lo: Option<Seq<u8>>,
    strict: bool,
    hi: Option<Seq<u8>>,
)
    requires
        wf_index(db, ps, pgno, fuel, lo, strict, hi),
    ensures
        spec_index_entries(db, ps, pgno, fuel) is Ok,
        spec_find(db, ps, pgno, key, fuel) == Ok::<Seq<Seq<ColV>>, Error>(
            filter_key(spec_index_entries(db, ps, pgno, fuel)->Ok_0, key),
        ),
    decreases fuel, 0int, 0int,
{
    let page = spec_page(db, ps, pgno);
    if page[0] == 0x0a {
        lemma_leaf_entries_bounds(page, spec_be16(page, 3), 0, lo, strict, hi);
        lemma_leaf_find_complete(page, spec_be16(page, 3), 0, key);
    } else {
        lemma_interior_find_complete(
            db,
            ps,
            page,
            spec_be16(page, 3),
            0,
            None,
            key,
            (fuel - 1) as nat,
            lo,
            strict,
            hi,
        );
    }
}

/// Prefixes already-gathered entries onto the outcome for the rest.
pub open spec fn entries_combine(pre: Seq<Seq<ColV>>, rest: Result<Seq<Seq<ColV>>, Error>) -> Result<
    Seq<Seq<ColV>>,
    Error,
> {
    match rest {
        Err(e) => Err(e),
        Ok(s) => Ok(pre + s),
    }
}

/// The view of an optional separator the walk carries.
pub open spec fn opt_bytes_view(o: Option<Vec<u8>>) -> Option<Seq<u8>> {
    match o {
        None => None,
        Some(v) => Some(v@),
    }
}

/// Probes the index B-tree under page `pgno` for every entry whose key
/// prints as `key`, across duplicate separators and split subtrees.
#[verifier::loop_isolation(false)]
#[verifier::rlimit(80)]
pub fn find(db: &[u8], ps: usize, pgno: u32, key: &[u8], fuel: u64) -> (r: Result<
    Vec<Vec<Column>>,
    Error,
>)
    requires
        1 <= ps <= 0x10000,
    ensures
        match r {
            Ok(entries) => spec_find(db@, ps as int, pgno as int, key@, fuel as nat) == Ok::<
                Seq<Seq<ColV>>,
                Error,
            >(entries.deep_view()),
            Err(e) => spec_find(db@, ps as int, pgno as int, key@, fuel as nat) == Err::<
                Seq<Seq<ColV>>,
                Error,
            >(e),
        },
    decreases fuel,
{
    if fuel == 0 {
        return Err(Error::UnsupportedPageType);
    }
    let page = match read_page(db, ps, pgno) {
        Ok(p) => p,
        Err(e) => {
            return Err(e);
        },
    };
    if page.len() < 12 {
        return Err(Error::ShortRead);
    }
    if page[0] == 0x0a {
        let ncells = be16(page, 3) as usize;
        if (page.len() - 8) / 2 < ncells {
            proof {
                assert(page@.len() < 8 + 2 * (ncells as int));
            }
            return Err(Error::ShortRead);
        }
        proof {
            assert(8 + 2 * (ncells as int) <= page@.len());
        }
        let mut acc: Vec<Vec<Column>> = Vec::new();
        let mut i: usize = 0;
        proof {
            let x = index_leaf_find(page@, ncells as int, 0, key@);
            if let Ok(s) = x {
                assert(Seq::<Seq<ColV>>::empty() + s =~= s);
            }
            assert(acc.deep_view() =~= Seq::<Seq<ColV>>::empty());
        }
        while i < ncells
            invariant
                i <= ncells,
                spec_find(db@, ps as int, pgno as int, key@, fuel as nat) == entries_combine(
                    acc.deep_view(),
                    index_leaf_find(page@, ncells as int, i as int, key@),
                ),
            decreases ncells - i,
        {
            let cols = match index_leaf_cell(page, ncells, i) {
                Ok(c) => c,
                Err(e) => {
                    return Err(e);
                },
            };
            proof {
                assert(cols.deep_view()[0] == cols@[0].deep_view());
            }
            let sep = render_col(&cols[0]);
            let ghost old_acc = acc.deep_view();
            let ghost colsv = cols.deep_view();
            let ghost m: Seq<Seq<ColV>> = if spec_render_col(colsv[0]) == key@ {
                seq![colsv]
            } else {
                Seq::empty()
            };
            if bytes_eq(sep.as_slice(), key) {
                acc.push(cols);
                proof {
                    assert(acc.deep_view() =~= old_acc.push(colsv));
                    assert(old_acc + m =~= old_acc.push(colsv));
                }
            } else {
                proof {
                    assert(old_acc + m =~= old_acc);
                }
            }
            proof {
                let rest = index_leaf_find(page@, ncells as int, i as int + 1, key@);
                if let Ok(s) = rest {
                    assert((old_acc + m) + s =~= old_acc + (m + s));
                }
            }
            i = i + 1;
        }
        proof {
            assert(acc.deep_view() + Seq::<Seq<ColV>>::empty() =~= acc.deep_view());
        }
        Ok(acc)
    } else if page[0] == 0x02 {
        let ncells = be16(page, 3) as usize;
        if (page.len() - 12) / 2 < ncells {
            proof {
                assert(page@.len() < 12 + 2 * (ncells as int));
            }
            return Err(Error::ShortRead);
        }
        proof {
            assert(12 + 2 * (ncells as int) <= page@.len());
        }
        let mut acc: Vec<Vec<Column>> = Vec::new();
        let mut prev_key: Option<Vec<u8>> = None;
        let mut i: usize = 0;
        proof {
            let x = index_interior_find(
                db@,
                ps as int,
                page@,
                ncells as int,
                0,
                None,
                key@,
                (fuel - 1) as nat,
            );
            if let Ok(s) = x {
                assert(Seq::<Seq<ColV>>::empty() + s =~= s);
            }
            assert(acc.deep_view() =~= Seq::<Seq<ColV>>::empty());
        }
        while i < ncells
            invariant
                i <= ncells,
                spec_find(db@, ps as int, pgno as int, key@, fuel as nat) == entries_combine(
                    acc.deep_view(),
                    index_interior_find(
                        db@,
                        ps as int,
                        page@,
                        ncells as int,
                        i as int,
                        opt_bytes_view(prev_key),
                        key@,
                        (fuel - 1) as nat,
                    ),
                ),
            decreases ncells - i,
        {
            let (child, cols) = match index_interior_cell(page, ncells, i) {
                Ok(p) => p,
                Err(e) => {
                    return Err(e);
                },
            };
            proof {
                assert(cols.deep_view()[0] == cols@[0].deep_view());
            }
            let sep = render_col(&cols[0]);
            let ghost old_acc = acc.deep_view();
            let ghost colsv = cols.deep_view();
            let ghost sepv = sep@;
            let ghost m: Seq<Seq<ColV>> = if sepv == key@ {
                seq![colsv]
            } else {
                Seq::empty()
            };
            let key_eq_sep = bytes_eq(key, sep.as_slice());
            let key_lt_sep = bytes_lt(key, sep.as_slice());
            if key_eq_sep {
                acc.push(cols);
                proof {
                    assert(acc.deep_view() =~= old_acc.push(colsv));
                    assert(old_acc + m =~= old_acc.push(colsv));
                }
            } else {
                proof {
                    assert(old_acc + m =~= old_acc);
                }
            }
            let descend = match &prev_key {
                None => key_eq_sep || key_lt_sep,
                Some(p) => (bytes_eq(p.as_slice(), key) || bytes_lt(p.as_slice(), key)) && (
                key_eq_sep || key_lt_sep),
            };
            if descend {
                let mut sub = match find(db, ps, child, key, fuel - 1) {
                    Ok(s) => s,
                    Err(e) => {
                        return Err(e);
                    },
                };
                let ghost acc_m = acc.deep_view();
                let ghost subv = sub.deep_view();
                acc.append(&mut sub);
                proof {
                    assert(acc.deep_view() =~= acc_m + subv);
                    let rest = index_interior_find(
                        db@,
                        ps as int,
                        page@,
                        ncells as int,
                        i as int + 1,
                        Some(sepv),
                        key@,
                        (fuel - 1) as nat,
                    );
                    if let Ok(s) = rest {
                        assert(old_acc + (m + (subv + s)) =~= ((old_acc + m) + subv) + s);
                    }
                }
            } else if prev_key.is_some() && key_lt_sep {
                return Ok(acc);
            } else {
                proof {
                    let rest = index_interior_find(
                        db@,
                        ps as int,
                        page@,
                        ncells as int,
                        i as int + 1,
                        Some(sepv),
                        key@,
                        (fuel - 1) as nat,
                    );
                    if let Ok(s) = rest {
                        assert(old_acc + (m + s) =~= (old_acc + m) + s);
                    }
                }
            }
            prev_key = Some(sep);
            i = i + 1;
        }
        let descend_right = match &prev_key {
            None => true,
            Some(p) => bytes_lt(p.as_slice(), key),
        };
        if descend_right {
            let right = be32(page, 8);
            let mut tail = match find(db, ps, right, key, fuel - 1) {
                Ok(s) => s,
                Err(e) => {
                    return Err(e);
                },
            };
            let ghost old_acc = acc.deep_view();
            let ghost tailv = tail.deep_view();
            acc.append(&mut tail);
            proof {
                assert(acc.deep_view() =~= old_acc + tailv);
            }
            Ok(acc)
        } else {
            proof {
                assert(acc.deep_view() + Seq::<Seq<ColV>>::empty() =~= acc.deep_view());
            }
            Ok(acc)
        }
    } else {
        Err(Error::UnsupportedPageType)
    }
}

} // verus!
