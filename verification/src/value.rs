use vstd::prelude::*;
use vstd::slice::slice_to_vec;

verus! {

/// A single column value of a decoded row: the format stores integers and
/// UTF-8 text; text is kept as its raw bytes, since the format orders and
/// compares text byte-wise.
#[derive(Debug, PartialEq)]
pub enum Column {
    Integer(i64),
    Text(Vec<u8>),
}

/// The mathematical shadow of `Column`.
pub ghost enum ColV {
    Integer(int),
    Text(Seq<u8>),
}

impl View for Column {
    type V = ColV;

    open spec fn view(&self) -> ColV {
        match self {
            Column::Integer(i) => ColV::Integer(*i as int),
            Column::Text(t) => ColV::Text(t@),
        }
    }
}

impl DeepView for Column {
    type V = ColV;

    open spec fn deep_view(&self) -> ColV {
        self.view()
    }
}

/// The decimal digits of `n`, most significant first.
pub open spec fn dec_digits(n: nat) -> Seq<u8>
    decreases n,
{
    if n < 10 {
        seq![(48 + n) as u8]
    } else {
        dec_digits(n / 10) + seq![(48 + n % 10) as u8]
    }
}

/// The decimal rendering of `i`: a leading minus sign when negative.
pub open spec fn spec_render_int(i: int) -> Seq<u8> {
    if i < 0 {
        seq![45u8] + dec_digits((-i) as nat)
    } else {
        dec_digits(i as nat)
    }
}

/// How a column prints: an integer as decimal text, text as itself.
pub open spec fn spec_render_col(c: ColV) -> Seq<u8> {
    match c {
        ColV::Integer(i) => spec_render_int(i),
        ColV::Text(t) => t,
    }
}

/// `s` backwards.
pub open spec fn rev_bytes(s: Seq<u8>) -> Seq<u8> {
    Seq::new(s.len(), |j: int| s[s.len() - 1 - j])
}

/// The decimal digits of `m`, as bytes.
pub fn render_u64(m: u64) -> (r: Vec<u8>)
    ensures
        r@ == dec_digits(m as nat),
{
    let ghost m0 = m;
    let mut m = m;
    let mut tmp: Vec<u8> = Vec::new();
    if m == 0 {
        tmp.push(48);
        proof {
            assert(rev_bytes(tmp@) =~= seq![48u8]);
            assert(dec_digits(m0 as nat) == rev_bytes(tmp@));
        }
    } else {
        while m > 0
            invariant
                m0 > 0,
                (tmp@.len() == 0 && m == m0) || (tmp@.len() > 0 && dec_digits(m0 as nat) == (
                if m > 0 {
                    dec_digits(m as nat) + rev_bytes(tmp@)
                } else {
                    rev_bytes(tmp@)
                })),
            decreases m,
        {
            let d: u8 = (m % 10) as u8 + 48;
            let ghost old_tmp = tmp@;
            let ghost old_m = m as nat;
            tmp.push(d);
            m = m / 10;
            proof {
                assert(rev_bytes(tmp@) =~= seq![d] + rev_bytes(old_tmp));
                if old_m < 10 {
                    assert(dec_digits(old_m) =~= seq![d]);
                } else {
                    assert(dec_digits(old_m) == dec_digits(old_m / 10) + seq![d]);
                    assert(m as nat == old_m / 10);
                    assert(dec_digits(old_m / 10) + (seq![d] + rev_bytes(old_tmp)) =~= (dec_digits(
                        old_m / 10,
                    ) + seq![d]) + rev_bytes(old_tmp));
                }
                if old_tmp.len() == 0 {
                    assert(dec_digits(m0 as nat) == dec_digits(old_m));
                    assert(seq![d] + rev_bytes(old_tmp) =~= seq![d]);
                }
                if m > 0 {
                    assert(dec_digits(m0 as nat) == dec_digits(m as nat) + rev_bytes(tmp@));
                } else {
                    assert(dec_digits(m0 as nat) == rev_bytes(tmp@));
                }
            }
        }
    }
    let mut r: Vec<u8> = Vec::new();
    let n = tmp.len();
    let mut j: usize = 0;
    while j < n
        invariant
            n == tmp@.len(),
            0 < n,
            j <= n,
            dec_digits(m0 as nat) == rev_bytes(tmp@),
            r@ =~= rev_bytes(tmp@).take(j as int),
        decreases n - j,
    {
        r.push(tmp[n - 1 - j]);
        proof {
            assert(r@ =~= rev_bytes(tmp@).take(j as int + 1));
        }
        j = j + 1;
    }
    proof {
        assert(rev_bytes(tmp@).take(n as int) =~= rev_bytes(tmp@));
    }
    r
}

/// The decimal rendering of `i`, with its sign.
pub fn render_int(i: i64) -> (r: Vec<u8>)
    ensures
        r@ == spec_render_int(i as int),
{
    if i >= 0 {
        render_u64(i as u64)
    } else {
        let m: u64 = (-(i + 1)) as u64 + 1;
        let mut r: Vec<u8> = Vec::new();
        r.push(45);
        let mut d = render_u64(m);
        r.append(&mut d);
        proof {
            assert(m as nat == (-(i as int)) as nat);
            assert(r@ =~= seq![45u8] + dec_digits((-(i as int)) as nat));
        }
        r
    }
}

/// A column as it prints on an output line.
pub fn render_col(c: &Column) -> (r: Vec<u8>)
    ensures
        r@ == spec_render_col(c@),
{
    match c {
        Column::Integer(i) => render_int(*i),
        Column::Text(t) => slice_to_vec(t.as_slice()),
    }
}

/// Whether `a` and `b` hold the same bytes.
pub fn bytes_eq(a: &[u8], b: &[u8]) -> (r: bool)
    ensures
        r == (a@ == b@),
{
    if a.len() != b.len() {
        return false;
    }
    let n = a.len();
    let mut i: usize = 0;
    while i < n
        invariant
            n == a@.len() == b@.len(),
            i <= n,
            forall|k: int| 0 <= k < i ==> a@[k] == b@[k],
        decreases n - i,
    {
        if a[i] != b[i] {
            return false;
        }
        i = i + 1;
    }
    proof {
        assert(a@ =~= b@);
    }
    true
}

/// Strict byte-wise lexicographic order, as text keys are ordered.
pub open spec fn lex_lt(a: Seq<u8>, b: Seq<u8>) -> bool
    decreases a.len(),
{
    if b.len() == 0 {
        false
    } else if a.len() == 0 {
        true
    } else if a[0] < b[0] {
        true
    } else if a[0] > b[0] {
        false
    } else {
        lex_lt(a.skip(1), b.skip(1))
    }
}

/// Decides `lex_lt` on byte slices.
pub fn bytes_lt(a: &[u8], b: &[u8]) -> (r: bool)
    ensures
        r == lex_lt(a@, b@),
{
    let mut i: usize = 0;
    proof {
        assert(a@.skip(0) =~= a@);
        assert(b@.skip(0) =~= b@);
    }
    loop
        invariant
            i <= a@.len(),
            i <= b@.len(),
            lex_lt(a@, b@) == lex_lt(a@.skip(i as int), b@.skip(i as int)),
        decreases a@.len() - i,
    {
        if i == b.len() {
            return false;
        }
        if i == a.len() {
            return true;
        }
        proof {
            assert(a@.skip(i as int)[0] == a@[i as int]);
            assert(b@.skip(i as int)[0] == b@[i as int]);
            assert(a@.skip(i as int).skip(1) =~= a@.skip(i as int + 1));
            assert(b@.skip(i as int).skip(1) =~= b@.skip(i as int + 1));
        }
        if a[i] < b[i] {
            return true;
        }
        if a[i] > b[i] {
            return false;
        }
        i = i + 1;
    }
}

/// No byte string sorts strictly before itself.
pub proof fn lemma_lex_irrefl(a: Seq<u8>)
    ensures
        !lex_lt(a, a),
    decreases a.len(),
{
    if a.len() > 0 {
        lemma_lex_irrefl(a.skip(1));
    }
}

/// Strict byte order composes.
pub proof fn lemma_lex_trans(a: Seq<u8>, b: Seq<u8>, c: Seq<u8>)
    requires
        lex_lt(a, b),
        lex_lt(b, c),
    ensures
        lex_lt(a, c),
    decreases a.len() + b.len() + c.len(),
{
    if a.len() > 0 && b.len() > 0 && c.len() > 0 && a[0] == b[0] && b[0] == c[0] {
        lemma_lex_trans(a.skip(1), b.skip(1), c.skip(1));
    }
}

/// Lowers one ASCII letter; anything else passes through.
pub open spec fn spec_lower(b: u8) -> u8 {
    if 65 <= b && b <= 90 {
        (b + 32) as u8
    } else {
        b
    }
}

/// ASCII lower-casing of a byte, for case-insensitive keywords.
pub fn lower(b: u8) -> (r: u8)
    ensures
        r == spec_lower(b),
{
    if 65 <= b && b <= 90 {
        b + 32
    } else {
        b
    }
}

/// A fresh copy of a byte slice.
pub fn dup_bytes(v: &[u8]) -> (r: Vec<u8>)
    ensures
        r@ == v@,
{
    slice_to_vec(v)
}

/// A fresh copy of a column value.
pub fn dup_col(c: &Column) -> (r: Column)
    ensures
        r.deep_view() == c.deep_view(),
{
    match c {
        Column::Integer(i) => Column::Integer(*i),
        Column::Text(t) => Column::Text(slice_to_vec(t.as_slice())),
    }
}

} // verus!
