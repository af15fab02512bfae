use vstd::prelude::*;
use vstd::slice::slice_subrange;

use crate::error::Error;

verus! {

/// The bytes of page `pgno` (1-based): the file is an array of pages of
/// `ps` bytes each, and page `pgno` starts at byte `(pgno - 1) * ps`.
pub open spec fn spec_page(db: Seq<u8>, ps: int, pgno: int) -> Seq<u8> {
    db.subrange((pgno - 1) * ps, pgno * ps)
}

/// Whether page `pgno` lies whole inside the file.
pub open spec fn page_in_bounds(db: Seq<u8>, ps: int, pgno: int) -> bool {
    1 <= pgno && ps >= 1 && pgno * ps <= db.len()
}

/// The big-endian 16-bit value at offset `o` of `s`.
pub open spec fn spec_be16(s: Seq<u8>, o: int) -> int {
    s[o] * 0x100 + s[o + 1]
}

/// The big-endian 32-bit value at offset `o` of `s`.
pub open spec fn spec_be32(s: Seq<u8>, o: int) -> int {
    s[o] * 0x100_0000 + s[o + 1] * 0x1_0000 + s[o + 2] * 0x100 + s[o + 3]
}

/// Reads the big-endian 16-bit value at offset `o` of `p`.
pub fn be16(p: &[u8], o: usize) -> (r: u16)
    requires
        o + 2 <= p@.len(),
    ensures
        r == spec_be16(p@, o as int),
{
    (p[o] as u16) * 0x100 + (p[o + 1] as u16)
}

/// Reads the big-endian 32-bit value at offset `o` of `p`.
pub fn be32(p: &[u8], o: usize) -> (r: u32)
    requires
        o + 4 <= p@.len(),
    ensures
        r == spec_be32(p@, o as int),
{
    (p[o] as u32) * 0x100_0000 + (p[o + 1] as u32) * 0x1_0000 + (p[o + 2] as u32) * 0x100 + (p[o
        + 3] as u32)
}

/// Hands out page `pgno` of the file as a slice, or `ShortRead` when the
/// file ends before that page does.
pub fn read_page<'a>(db: &'a [u8], ps: usize, pgno: u32) -> (r: Result<&'a [u8], Error>)
    requires
        1 <= ps <= 0x10000,
    ensures
        match r {
            Ok(p) => page_in_bounds(db@, ps as int, pgno as int) && p@ == spec_page(
                db@,
                ps as int,
                pgno as int,
            ) && p@.len() == ps,
            Err(e) => e == Error::ShortRead && !page_in_bounds(db@, ps as int, pgno as int),
        },
{
    if pgno < 1 {
        return Err(Error::ShortRead);
    }
    proof {
        assert(1 * (ps as int) <= (pgno as int) * (ps as int) <= 0xffff_ffff * 0x10000)
            by (nonlinear_arith)
            requires
                1 <= pgno <= 0xffff_ffffu32,
                1 <= ps <= 0x10000,
        ;
    }
    let end: u64 = (pgno as u64) * (ps as u64);
    if (db.len() as u64) < end {
        proof {
            assert(!page_in_bounds(db@, ps as int, pgno as int));
        }
        return Err(Error::ShortRead);
    }
    let start: usize = (end as usize) - ps;
    proof {
        assert((pgno as int - 1) * (ps as int) == (pgno as int) * (ps as int) - (ps as int))
            by (nonlinear_arith);
    }
    Ok(slice_subrange(db, start, end as usize))
}

/// The first byte past the cell-pointer array: cell content must start at or
/// after it. `h` is where the B-tree header sits in the page (100 on page 1,
/// 0 elsewhere) and `csa` where the cell-pointer array starts relative to the
/// header (12 on interior pages, 8 on leaves).
pub open spec fn header_end(h: int, csa: int, ncells: int) -> int {
    h + csa + 2 * ncells
}

/// The offset of cell `i` inside the page, decoded from the cell-pointer
/// array. Fails as a structural error unless the offset lies inside the
/// page, at or past the end of the cell-pointer array.
pub open spec fn spec_cell_ptr(p: Seq<u8>, h: int, csa: int, ncells: int, i: int) -> Result<
    int,
    Error,
> {
    let off = spec_be16(p, h + csa + 2 * i);
    if header_end(h, csa, ncells) <= off < p.len() {
        Ok(off)
    } else {
        Err(Error::UnsupportedPageType)
    }
}

/// Reads cell pointer `i`, enforcing that every decoded cell offset lies in
/// `[header_end, page size)`.
pub fn cell_ptr(p: &[u8], h: usize, csa: usize, ncells: usize, i: usize) -> (r: Result<
    usize,
    Error,
>)
    requires
        i < ncells,
        header_end(h as int, csa as int, ncells as int) <= p@.len(),
    ensures
        match r {
            Ok(off) => spec_cell_ptr(p@, h as int, csa as int, ncells as int, i as int)
                == Ok::<int, Error>(off as int) && header_end(h as int, csa as int, ncells as int)
                <= off < p@.len(),
            Err(e) => spec_cell_ptr(p@, h as int, csa as int, ncells as int, i as int)
                == Err::<int, Error>(e),
        },
{
    let plen = p.len();
    let off = be16(p, h + csa + 2 * i) as usize;
    if h + csa + 2 * ncells <= off && off < plen {
        Ok(off)
    } else {
        Err(Error::UnsupportedPageType)
    }
}

} // verus!
