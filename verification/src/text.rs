use vstd::prelude::*;
use vstd::slice::{slice_subrange, slice_to_vec};

use crate::value::{lower, spec_lower};

verus! {

/// ASCII whitespace, as identifier tokens are delimited.
pub open spec fn is_ws(b: u8) -> bool {
    b == 32 || b == 9 || b == 10 || b == 13
}

/// The index of the first `b` in `s`, if any.
pub open spec fn find_byte(s: Seq<u8>, b: u8) -> Option<int>
    decreases s.len(),
{
    if s.len() == 0 {
        None
    } else if s[0] == b {
        Some(0int)
    } else {
        match find_byte(s.skip(1), b) {
            None => None,
            Some(j) => Some(j + 1),
        }
    }
}

/// A found byte lies inside `s` and is the first of its kind.
pub proof fn lemma_find_byte(s: Seq<u8>, b: u8)
    ensures
        find_byte(s, b) matches Some(j) ==> 0 <= j < s.len() && s[j] == b,
    decreases s.len(),
{
    if s.len() > 0 && s[0] != b {
        lemma_find_byte(s.skip(1), b);
    }
}

/// Finds the first `b` in `s`.
#[verifier::loop_isolation(false)]
pub fn find_byte_x(s: &[u8], b: u8) -> (r: Option<usize>)
    ensures
        match r {
            Some(i) => find_byte(s@, b) == Some(i as int) && i < s@.len() && s@[i as int] == b,
            None => find_byte(s@, b) == None::<int>,
        },
{
    let n = s.len();
    let mut i: usize = 0;
    proof {
        assert(s@.skip(0) =~= s@);
    }
    while i < n
        invariant
            i <= n,
            find_byte(s@, b) == (match find_byte(s@.skip(i as int), b) {
                None => None::<int>,
                Some(j) => Some(j + i),
            }),
        decreases n - i,
    {
        proof {
            assert(s@.skip(i as int)[0] == s@[i as int]);
            assert(s@.skip(i as int).skip(1) =~= s@.skip(i as int + 1));
        }
        if s[i] == b {
            proof {
                lemma_find_byte(s@, b);
            }
            return Some(i);
        }
        i = i + 1;
    }
    None
}

/// `s` without its leading whitespace.
pub open spec fn skip_ws(s: Seq<u8>) -> Seq<u8>
    decreases s.len(),
{
    if s.len() > 0 && is_ws(s[0]) {
        skip_ws(s.skip(1))
    } else {
        s
    }
}

/// The longest whitespace-free prefix of `s`.
pub open spec fn take_until_ws(s: Seq<u8>) -> Seq<u8>
    decreases s.len(),
{
    if s.len() > 0 && !is_ws(s[0]) {
        seq![s[0]] + take_until_ws(s.skip(1))
    } else {
        Seq::empty()
    }
}

/// The first whitespace-separated token of `s`; empty when `s` holds none.
pub open spec fn first_token(s: Seq<u8>) -> Seq<u8> {
    take_until_ws(skip_ws(s))
}

/// What is left of `s` after its first token.
pub open spec fn after_token(s: Seq<u8>) -> Seq<u8> {
    skip_ws(s).skip(take_until_ws(skip_ws(s)).len() as int)
}

/// Whether `b` is ASCII whitespace.
pub fn is_ws_x(b: u8) -> (r: bool)
    ensures
        r == is_ws(b),
{
    b == 32 || b == 9 || b == 10 || b == 13
}

/// Splits the first token off `s`: the token and the index where the rest
/// of `s` begins.
#[verifier::loop_isolation(false)]
pub fn token_split(s: &[u8]) -> (r: (Vec<u8>, usize))
    ensures
        r.0@ == first_token(s@),
        r.1 <= s@.len(),
        s@.skip(r.1 as int) == after_token(s@),
{
    let n = s.len();
    let mut i: usize = 0;
    proof {
        assert(s@.skip(0) =~= s@);
    }
    while i < n && is_ws_x(s[i])
        invariant
            i <= n,
            skip_ws(s@) == skip_ws(s@.skip(i as int)),
        decreases n - i,
    {
        proof {
            assert(s@.skip(i as int)[0] == s@[i as int]);
            assert(s@.skip(i as int).skip(1) =~= s@.skip(i as int + 1));
        }
        i = i + 1;
    }
    proof {
        if i < n {
            assert(s@.skip(i as int)[0] == s@[i as int]);
        }
        assert(skip_ws(s@) == s@.skip(i as int));
    }
    let mut j: usize = i;
    while j < n && !is_ws_x(s[j])
        invariant
            i <= j <= n,
            skip_ws(s@) == s@.skip(i as int),
            take_until_ws(s@.skip(i as int)) == s@.subrange(i as int, j as int) + take_until_ws(
                s@.skip(j as int),
            ),
        decreases n - j,
    {
        proof {
            assert(s@.skip(j as int)[0] == s@[j as int]);
            assert(s@.skip(j as int).skip(1) =~= s@.skip(j as int + 1));
            assert(s@.subrange(i as int, j as int + 1) =~= s@.subrange(i as int, j as int) + seq![
                s@[j as int],
            ]);
            assert((s@.subrange(i as int, j as int) + seq![s@[j as int]]) + take_until_ws(
                s@.skip(j as int + 1),
            ) =~= s@.subrange(i as int, j as int) + (seq![s@[j as int]] + take_until_ws(
                s@.skip(j as int + 1),
            )));
        }
        j = j + 1;
    }
    proof {
        assert(take_until_ws(s@.skip(j as int)) =~= Seq::<u8>::empty());
        assert(s@.subrange(i as int, j as int) + Seq::<u8>::empty() =~= s@.subrange(
            i as int,
            j as int,
        ));
        assert(first_token(s@) == s@.subrange(i as int, j as int));
        assert(s@.skip(i as int).skip((j - i) as int) =~= s@.skip(j as int));
    }
    (slice_to_vec(slice_subrange(s, i, j)), j)
}

/// Where the leading whitespace of `s` ends.
#[verifier::loop_isolation(false)]
pub fn skip_ws_idx(s: &[u8]) -> (i: usize)
    ensures
        i <= s@.len(),
        skip_ws(s@) == s@.skip(i as int),
{
    let n = s.len();
    let mut i: usize = 0;
    proof {
        assert(s@.skip(0) =~= s@);
    }
    while i < n && is_ws_x(s[i])
        invariant
            i <= n,
            skip_ws(s@) == skip_ws(s@.skip(i as int)),
        decreases n - i,
    {
        proof {
            assert(s@.skip(i as int)[0] == s@[i as int]);
            assert(s@.skip(i as int).skip(1) =~= s@.skip(i as int + 1));
        }
        i = i + 1;
    }
    proof {
        if i < n {
            assert(s@.skip(i as int)[0] == s@[i as int]);
        }
    }
    i
}

/// `s` without leading or trailing whitespace.
pub open spec fn skip_ws_end(s: Seq<u8>) -> Seq<u8>
    decreases s.len(),
{
    if s.len() > 0 && is_ws(s[s.len() - 1]) {
        skip_ws_end(s.drop_last())
    } else {
        s
    }
}

/// `s` trimmed of whitespace on both ends.
pub open spec fn trim(s: Seq<u8>) -> Seq<u8> {
    skip_ws_end(skip_ws(s))
}

/// Trims whitespace off both ends of `s`.
#[verifier::loop_isolation(false)]
pub fn trim_x(s: &[u8]) -> (r: Vec<u8>)
    ensures
        r@ == trim(s@),
{
    let n = s.len();
    let mut i: usize = 0;
    proof {
        assert(s@.skip(0) =~= s@);
    }
    while i < n && is_ws_x(s[i])
        invariant
            i <= n,
            skip_ws(s@) == skip_ws(s@.skip(i as int)),
        decreases n - i,
    {
        proof {
            assert(s@.skip(i as int)[0] == s@[i as int]);
            assert(s@.skip(i as int).skip(1) =~= s@.skip(i as int + 1));
        }
        i = i + 1;
    }
    proof {
        if i < n {
            assert(s@.skip(i as int)[0] == s@[i as int]);
        }
        assert(skip_ws(s@) == s@.skip(i as int));
        assert(s@.skip(i as int) =~= s@.subrange(i as int, n as int));
    }
    let mut j: usize = n;
    while j > i && is_ws_x(s[j - 1])
        invariant
            i <= j <= n,
            skip_ws_end(s@.skip(i as int)) == skip_ws_end(s@.subrange(i as int, j as int)),
        decreases j,
    {
        proof {
            let cur = s@.subrange(i as int, j as int);
            assert(cur[cur.len() - 1] == s@[j as int - 1]);
            assert(cur.drop_last() =~= s@.subrange(i as int, j as int - 1));
        }
        j = j - 1;
    }
    proof {
        let cur = s@.subrange(i as int, j as int);
        if j > i {
            assert(cur[cur.len() - 1] == s@[j as int - 1]);
        }
        assert(skip_ws_end(cur) == cur);
        assert(s@.skip(i as int) =~= s@.subrange(i as int, n as int));
    }
    slice_to_vec(slice_subrange(s, i, j))
}

} // verus!
