use vstd::prelude::*;
use vstd::slice::{slice_subrange, slice_to_vec};

use crate::error::Error;
use crate::page::spec_be16;
use crate::value::{ColV, Column};
use crate::varint::{lemma_varint_from_bounds, spec_varint, variant};

verus! {

/// How many body bytes a serial type takes: nothing for `0` (rowid alias),
/// `8` and `9` (the constants zero and one), one to three bytes for the
/// small signed integers, `(t - 13) / 2` for odd text types of at least 13.
/// Every other code is refused.
pub open spec fn serial_size(t: u64) -> Result<int, Error> {
    if t == 0 || t == 8 || t == 9 {
        Ok(0int)
    } else if t == 1 {
        Ok(1int)
    } else if t == 2 {
        Ok(2int)
    } else if t == 3 {
        Ok(3int)
    } else if t >= 13 && t % 2 == 1 {
        Ok((((t - 13) / 2) as u64) as int)
    } else {
        Err(Error::UnknownSerialType)
    }
}

/// The value a `u64` holds when reinterpreted as a signed 64-bit integer.
pub open spec fn as_i64_spec(u: u64) -> int {
    if u < 0x8000_0000_0000_0000 {
        u as int
    } else {
        u - 0x1_0000_0000_0000_0000
    }
}

/// The big-endian 24-bit value at offset `o` of `s`.
pub open spec fn spec_be24(s: Seq<u8>, o: int) -> int {
    s[o] * 0x1_0000 + s[o + 1] * 0x100 + s[o + 2]
}

/// The column a serial type `t` decodes to, given exactly its body bytes.
/// Serial type `0` stands for the enclosing cell's rowid; integers of one,
/// two and three bytes are big-endian and sign-extended; `8` and `9` are the
/// constants; odd types of at least 13 are text.
pub open spec fn spec_col_val(t: u64, body: Seq<u8>, rowid: u64) -> ColV {
    if t == 0 {
        ColV::Integer(as_i64_spec(rowid))
    } else if t == 1 {
        ColV::Integer(
            if body[0] >= 0x80 {
                body[0] - 0x100
            } else {
                body[0] as int
            },
        )
    } else if t == 2 {
        ColV::Integer(
            if body[0] >= 0x80 {
                spec_be16(body, 0) - 0x1_0000
            } else {
                spec_be16(body, 0)
            },
        )
    } else if t == 3 {
        ColV::Integer(
            if body[0] >= 0x80 {
                spec_be24(body, 0) - 0x100_0000
            } else {
                spec_be24(body, 0)
            },
        )
    } else if t == 8 {
        ColV::Integer(0)
    } else if t == 9 {
        ColV::Integer(1)
    } else {
        ColV::Text(body)
    }
}

/// Decodes the columns named by the serial types in `hdr`, consuming their
/// bodies from the front of `body`: the columns and the count of body bytes
/// consumed.
pub open spec fn record_cols(hdr: Seq<u8>, body: Seq<u8>, rowid: u64) -> Result<
    (Seq<ColV>, int),
    Error,
>
    decreases hdr.len(),
    via record_cols_dec
{
    if hdr.len() == 0 {
        Ok((Seq::empty(), 0int))
    } else {
        match spec_varint(hdr) {
            Err(e) => Err(e),
            Ok((t, vn)) => match serial_size(t) {
                Err(e) => Err(e),
                Ok(sz) => if body.len() < sz {
                    Err(Error::ShortRead)
                } else {
                    match record_cols(hdr.skip(vn), body.skip(sz), rowid) {
                        Err(e) => Err(e),
                        Ok((cs, u)) => Ok(
                            (seq![spec_col_val(t, body.take(sz), rowid)] + cs, sz + u),
                        ),
                    }
                },
            },
        }
    }
}

#[via_fn]
proof fn record_cols_dec(hdr: Seq<u8>, body: Seq<u8>, rowid: u64) {
    lemma_varint_from_bounds(hdr, 0);
}

/// A whole record: a header-length varint that counts its own bytes, the
/// serial types, then the bodies. On success, the columns and the count of
/// cell bytes the record occupies.
pub open spec fn spec_record(cell: Seq<u8>, rowid: u64) -> Result<(Seq<ColV>, int), Error> {
    match spec_varint(cell) {
        Err(e) => Err(e),
        Ok((hlen, hn)) => if (hlen as int) < hn || cell.len() < hlen as int {
            Err(Error::ShortRead)
        } else {
            match record_cols(cell.subrange(hn, hlen as int), cell.skip(hlen as int), rowid) {
                Err(e) => Err(e),
                Ok((cs, u)) => Ok((cs, hlen as int + u)),
            }
        },
    }
}

/// Prefixes a decoded run of columns onto the outcome of decoding the rest.
pub open spec fn rc_combine(pre: Seq<ColV>, used: int, rest: Result<(Seq<ColV>, int), Error>) -> Result<
    (Seq<ColV>, int),
    Error,
> {
    match rest {
        Err(e) => Err(e),
        Ok((cs, u)) => Ok((pre + cs, used + u)),
    }
}

/// Sizes a serial type, or refuses it.
fn serial_size_x(t: u64) -> (r: Result<u64, Error>)
    ensures
        match r {
            Ok(s) => serial_size(t) == Ok::<int, Error>(s as int),
            Err(e) => serial_size(t) == Err::<int, Error>(e),
        },
{
    if t == 0 || t == 8 || t == 9 {
        Ok(0)
    } else if t == 1 {
        Ok(1)
    } else if t == 2 {
        Ok(2)
    } else if t == 3 {
        Ok(3)
    } else if t >= 13 && t % 2 == 1 {
        Ok((t - 13) / 2)
    } else {
        Err(Error::UnknownSerialType)
    }
}

/// Decodes the record held in `cell` into a row of columns. Serial type `0`
/// is materialized as `rowid`; callers that have no rowid pass zero and
/// accept zero. On success also returns how many bytes of `cell` the record
/// occupied, which the decoder pins exactly to what the header dictates.
#[verifier::loop_isolation(false)]
pub fn row(cell: &[u8], rowid: u64) -> (r: Result<(Vec<Column>, usize), Error>)
    ensures
        match r {
            Ok((cols, used)) => spec_record(cell@, rowid) == Ok::<(Seq<ColV>, int), Error>(
                (cols.deep_view(), used as int),
            ),
            Err(e) => spec_record(cell@, rowid) == Err::<(Seq<ColV>, int), Error>(e),
        },
{
    let (hlen64, hn) = match variant(cell) {
        Ok(p) => p,
        Err(e) => {
            return Err(e);
        },
    };
    if hlen64 < hn as u64 || (cell.len() as u64) < hlen64 {
        return Err(Error::ShortRead);
    }
    let hlen = hlen64 as usize;
    let mut hoff: usize = hn;
    let mut boff: usize = hlen;
    let mut cols: Vec<Column> = Vec::new();
    proof {
        let x = record_cols(cell@.subrange(hn as int, hlen as int), cell@.skip(hlen as int), rowid);
        if let Ok((cs, u)) = x {
            assert(Seq::<ColV>::empty() + cs =~= cs);
        }
        assert(cols.deep_view() =~= Seq::<ColV>::empty());
    }
    while hoff < hlen
        invariant
            hn <= hoff <= hlen <= cell@.len(),
            hlen <= boff <= cell@.len(),
            record_cols(cell@.subrange(hn as int, hlen as int), cell@.skip(hlen as int), rowid)
                == rc_combine(
                cols.deep_view(),
                boff - hlen,
                record_cols(
                    cell@.subrange(hoff as int, hlen as int),
                    cell@.skip(boff as int),
                    rowid,
                ),
            ),
        decreases hlen - hoff,
    {
        let ghost hdr_rest = cell@.subrange(hoff as int, hlen as int);
        let ghost body_rest = cell@.skip(boff as int);
        let hslice = slice_subrange(cell, hoff, hlen);
        let (t, vn) = match variant(hslice) {
            Ok(p) => p,
            Err(e) => {
                proof {
                    assert(record_cols(hdr_rest, body_rest, rowid) == Err::<
                        (Seq<ColV>, int),
                        Error,
                    >(e));
                }
                return Err(e);
            },
        };
        let sz64 = match serial_size_x(t) {
            Ok(s) => s,
            Err(e) => {
                proof {
                    assert(record_cols(hdr_rest, body_rest, rowid) == Err::<
                        (Seq<ColV>, int),
                        Error,
                    >(e));
                }
                return Err(e);
            },
        };
        let remaining = cell.len() - boff;
        if (remaining as u64) < sz64 {
            proof {
                assert(body_rest.len() < sz64 as int);
                assert(record_cols(hdr_rest, body_rest, rowid) == Err::<(Seq<ColV>, int), Error>(
                    Error::ShortRead,
                ));
            }
            return Err(Error::ShortRead);
        }
        let sz = sz64 as usize;
        proof {
            assert(body_rest.len() == cell@.len() - boff);
        }
        let val: Column = if t == 0 {
            let v: i64 = if rowid < 0x8000_0000_0000_0000 {
                rowid as i64
            } else {
                -1 - ((u64::MAX - rowid) as i64)
            };
            Column::Integer(v)
        } else if t == 1 {
            let b = cell[boff];
            Column::Integer(
                if b >= 0x80 {
                    (b as i64) - 0x100
                } else {
                    b as i64
                },
            )
        } else if t == 2 {
            let b0 = cell[boff];
            let b1 = cell[boff + 1];
            let u: i64 = (b0 as i64) * 0x100 + (b1 as i64);
            Column::Integer(
                if b0 >= 0x80 {
                    u - 0x1_0000
                } else {
                    u
                },
            )
        } else if t == 3 {
            let b0 = cell[boff];
            let b1 = cell[boff + 1];
            let b2 = cell[boff + 2];
            let u: i64 = (b0 as i64) * 0x1_0000 + (b1 as i64) * 0x100 + (b2 as i64);
            Column::Integer(
                if b0 >= 0x80 {
                    u - 0x100_0000
                } else {
                    u
                },
            )
        } else if t == 8 {
            Column::Integer(0)
        } else if t == 9 {
            Column::Integer(1)
        } else {
            Column::Text(slice_to_vec(slice_subrange(cell, boff, boff + sz)))
        };
        proof {
            let bt = body_rest.take(sz as int);
            assert(bt =~= cell@.subrange(boff as int, boff + sz));
            if sz > 0 {
                assert(bt[0] == cell@[boff as int]);
                if sz > 1 {
                    assert(bt[1] == cell@[boff as int + 1]);
                }
                if sz > 2 {
                    assert(bt[2] == cell@[boff as int + 2]);
                }
            }
            assert(val.deep_view() == spec_col_val(t, bt, rowid));
            assert(hdr_rest.skip(vn as int) =~= cell@.subrange(hoff + vn, hlen as int));
            assert(body_rest.skip(sz as int) =~= cell@.skip(boff + sz));
        }
        let ghost old_cols = cols.deep_view();
        cols.push(val);
        proof {
            assert(cols.deep_view() =~= old_cols.push(val.deep_view()));
            let inner = record_cols(
                cell@.subrange(hoff + vn, hlen as int),
                cell@.skip(boff + sz),
                rowid,
            );
            if let Ok((cs, u)) = inner {
                assert(old_cols + (seq![spec_col_val(t, body_rest.take(sz as int), rowid)] + cs)
                    =~= old_cols.push(val.deep_view()) + cs);
            }
        }
        hoff = hoff + vn;
        boff = boff + sz;
    }
    proof {
        assert(cell@.subrange(hoff as int, hlen as int).len() == 0);
        let tail = record_cols(
            cell@.subrange(hoff as int, hlen as int),
            cell@.skip(boff as int),
            rowid,
        );
        assert(tail == Ok::<(Seq<ColV>, int), Error>((Seq::<ColV>::empty(), 0int)));
        assert(cols.deep_view() + Seq::<ColV>::empty() =~= cols.deep_view());
    }
    Ok((cols, boff))
}

} // verus!
