use vstd::prelude::*;

use crate::error::Error;

verus! {

/// Value and byte count of the variable-length integer at the head of `s`,
/// continuing from the partial value `acc`: each byte contributes its low
/// seven bits, and a set high bit asks for another byte.
pub open spec fn varint_from(s: Seq<u8>, acc: u64) -> Result<(u64, int), Error>
    decreases s.len(),
{
    if s.len() == 0 {
        Err(Error::MalformedVarint)
    } else {
        let v = (acc << 7) | ((s[0] & 0x7f) as u64);
        if s[0] & 0x80 == 0 {
            Ok((v, 1))
        } else {
            match varint_from(s.skip(1), v) {
                Err(e) => Err(e),
                Ok((val, n)) => Ok((val, n + 1)),
            }
        }
    }
}

/// The variable-length integer at the head of `s`: its value and the count
/// of bytes it occupies, or `MalformedVarint` when `s` ends first.
pub open spec fn spec_varint(s: Seq<u8>) -> Result<(u64, int), Error> {
    varint_from(s, 0)
}

/// A decoded varint occupies between one byte and the whole buffer.
pub proof fn lemma_varint_from_bounds(s: Seq<u8>, acc: u64)
    ensures
        varint_from(s, acc) matches Ok((v, n)) ==> 1 <= n <= s.len(),
    decreases s.len(),
{
    if s.len() > 0 && s[0] & 0x80 != 0 {
        lemma_varint_from_bounds(s.skip(1), (acc << 7) | ((s[0] & 0x7f) as u64));
    }
}

/// Decodes the varint at the head of `buf`: on success the value and the
/// count of bytes consumed; `MalformedVarint` when `buf` ends before a byte
/// with a clear high bit.
pub fn variant(buf: &[u8]) -> (r: Result<(u64, usize), Error>)
    ensures
        match r {
            Ok((v, n)) => spec_varint(buf@) == Ok::<(u64, int), Error>((v, n as int)) && 1 <= n
                <= buf@.len(),
            Err(e) => spec_varint(buf@) == Err::<(u64, int), Error>(e),
        },
{
    let ghost whole = buf@;
    let mut i: usize = 0;
    let mut v: u64 = 0;
    proof {
        assert(whole.skip(0) =~= whole);
    }
    loop
        invariant
            0 <= i <= whole.len(),
            buf@ == whole,
            varint_from(whole, 0) == match varint_from(whole.skip(i as int), v) {
                Err(e) => Err::<(u64, int), Error>(e),
                Ok((val, n)) => Ok::<(u64, int), Error>((val, n + i)),
            },
        decreases whole.len() - i,
    {
        if i == buf.len() {
            return Err(Error::MalformedVarint);
        }
        let b = buf[i];
        let v2 = (v << 7) | ((b & 0x7f) as u64);
        proof {
            assert(whole.skip(i as int)[0] == whole[i as int]);
            assert(whole.skip(i as int).skip(1) =~= whole.skip(i as int + 1));
        }
        if b & 0x80 == 0 {
            return Ok((v2, i + 1));
        }
        v = v2;
        i = i + 1;
    }
}

/// How many bytes the encoding of `v` takes: the least `n >= 1` with
/// `v` under `2^(7n)`, for values below `2^56`.
pub open spec fn encoded_len(v: u64) -> int {
    if v < 0x80 {
        1
    } else if v < 0x4000 {
        2
    } else if v < 0x200000 {
        3
    } else if v < 0x10000000 {
        4
    } else if v < 0x8_0000_0000 {
        5
    } else if v < 0x400_0000_0000 {
        6
    } else if v < 0x2_0000_0000_0000 {
        7
    } else {
        8
    }
}

/// The byte at position `k` of the encoding of `v` into `n` bytes: seven
/// bits of the value, high bit set on every byte but the last.
pub open spec fn enc_byte(v: u64, n: int, k: int) -> u8 {
    let digit = ((v >> ((7 * (n - 1 - k)) as u64)) & 0x7f) as u8;
    if k < n - 1 {
        digit | 0x80u8
    } else {
        digit
    }
}

/// Decoding the tail `s.skip(i)` of a big-endian seven-bit digit string for
/// `v`, having already accumulated the digits before `i`, yields `v` itself
/// and consumes the remaining bytes.
proof fn lemma_decode_digits(s: Seq<u8>, v: u64, n: int, i: int, acc: u64)
    requires
        s.len() == n,
        1 <= n <= 8,
        0 <= i < n,
        forall|k: int| 0 <= k < n ==> s[k] == enc_byte(v, n, k),
        acc == v >> ((7 * (n - i)) as u64),
        v < 0x100_0000_0000_0000,
    ensures
        varint_from(s.skip(i), acc) == Ok::<(u64, int), Error>((v, n - i)),
    decreases n - i,
{
    let sh: u64 = (7 * (n - 1 - i)) as u64;
    let b = s[i];
    assert(s.skip(i)[0] == s[i]);
    assert(b == enc_byte(v, n, i));
    if i == n - 1 {
        assert(sh == 0);
        assert(acc == v >> ((sh + 7) as u64));
        assert(b == ((v >> sh) & 0x7f) as u8);
        assert(b & 0x80 == 0 && ((acc << 7) | ((b & 0x7f) as u64)) == v) by (bit_vector)
            requires
                sh == 0,
                acc == v >> ((sh + 7) as u64),
                b == ((v >> sh) & 0x7f) as u8,
                v < 0x100_0000_0000_0000,
        ;
    } else {
        assert(b == ((v >> sh) & 0x7f) as u8 | 0x80u8);
        let acc2: u64 = (acc << 7) | ((b & 0x7f) as u64);
        assert(b & 0x80 != 0 && acc2 == v >> sh) by (bit_vector)
            requires
                sh <= 49,
                acc == v >> ((sh + 7) as u64),
                b == ((v >> sh) & 0x7f) as u8 | 0x80u8,
                acc2 == (acc << 7) | ((b & 0x7f) as u64),
                v < 0x100_0000_0000_0000,
        ;
        assert(s.skip(i).skip(1) =~= s.skip(i + 1));
        assert(acc2 == v >> ((7 * (n - (i + 1))) as u64));
        lemma_decode_digits(s, v, n, i + 1, acc2);
    }
}

/// Encodes `v` as a varint. Decoding the result gives `v` back and consumes
/// every byte: the round trip is exact for all values below `2^56`.
pub fn encode(v: u64) -> (r: Vec<u8>)
    requires
        v < 0x100_0000_0000_0000,
    ensures
        r@.len() == encoded_len(v),
        spec_varint(r@) == Ok::<(u64, int), Error>((v, r@.len() as int)),
{
    let n: usize = if v < 0x80 {
        1
    } else if v < 0x4000 {
        2
    } else if v < 0x200000 {
        3
    } else if v < 0x10000000 {
        4
    } else if v < 0x8_0000_0000 {
        5
    } else if v < 0x400_0000_0000 {
        6
    } else if v < 0x2_0000_0000_0000 {
        7
    } else {
        8
    };
    let mut r: Vec<u8> = Vec::new();
    let mut k: usize = 0;
    while k < n
        invariant
            0 <= k <= n,
            n == encoded_len(v),
            r@.len() == k,
            forall|j: int| 0 <= j < k ==> r@[j] == enc_byte(v, n as int, j),
        decreases n - k,
    {
        let sh: u64 = (7 * (n - 1 - k)) as u64;
        assert(sh <= 49);
        let base: u8 = ((v >> sh) & 0x7f) as u8;
        let b: u8 = if k < n - 1 {
            base | 0x80
        } else {
            base
        };
        r.push(b);
        k = k + 1;
    }
    proof {
        if v < 0x80 {
            assert(v < 0x80 ==> v >> 7u64 == 0) by (bit_vector);
        } else if v < 0x4000 {
            assert(v < 0x4000 ==> v >> 14u64 == 0) by (bit_vector);
        } else if v < 0x200000 {
            assert(v < 0x200000 ==> v >> 21u64 == 0) by (bit_vector);
        } else if v < 0x10000000 {
            assert(v < 0x10000000 ==> v >> 28u64 == 0) by (bit_vector);
        } else if v < 0x8_0000_0000 {
            assert(v < 0x8_0000_0000 ==> v >> 35u64 == 0) by (bit_vector);
        } else if v < 0x400_0000_0000 {
            assert(v < 0x400_0000_0000 ==> v >> 42u64 == 0) by (bit_vector);
        } else if v < 0x2_0000_0000_0000 {
            assert(v < 0x2_0000_0000_0000 ==> v >> 49u64 == 0) by (bit_vector);
        } else {
            assert(v < 0x100_0000_0000_0000 ==> v >> 56u64 == 0) by (bit_vector);
        }
        assert(0u64 == v >> ((7 * (n as int - 0)) as u64));
        assert(r@.skip(0) =~= r@);
        lemma_decode_digits(r@, v, n as int, 0, 0);
    }
    r
}

} // verus!
