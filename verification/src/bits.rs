//! Fixed-width line masks.
//!
//! A line of a board is encoded in a `u32`: bit `i` is the cell at position
//! `i` of the line. All reasoning about masks goes through the spec function
//! [`bit`]; the lemmas here relate the bitwise operators to it.
use vstd::prelude::*;

verus! {

/// Number of bits in a line mask; no board side may exceed this.
pub const BIT_WIDTH: usize = 32;

/// True iff bit `i` of `m` is set. Bits outside `0..32` do not exist.
pub open spec fn bit(m: u32, i: int) -> bool {
    0 <= i < 32 && (m >> (i as u32)) & 1u32 == 1u32
}

/// All bits of `m` at positions `len..32` are clear: `m` encodes a line of
/// length `len`.
pub open spec fn mask_fits(m: u32, len: int) -> bool {
    forall|i: int| len <= i < 32 ==> !bit(m, i)
}

/// Every bit set in `a` is also set in `b`.
pub open spec fn mask_le(a: u32, b: u32) -> bool {
    forall|i: int| bit(a, i) ==> bit(b, i)
}

/// The cells of a line of length `len` encoded by `m`, as a boolean sequence.
pub open spec fn mask_seq(m: u32, len: int) -> Seq<bool> {
    Seq::new(len as nat, |i: int| bit(m, i))
}

/// The mask whose bits `0..len` are set and whose other bits are clear.
pub open spec fn spec_full_mask(len: int) -> u32 {
    if len <= 0 {
        0u32
    } else if len >= 32 {
        u32::MAX
    } else {
        u32::MAX >> ((32 - len) as u32)
    }
}

/// Number of set bits of `m` at positions `0..n`.
pub open spec fn count_bits_upto(m: u32, n: int) -> int
    decreases n,
{
    if n <= 0 {
        0
    } else {
        count_bits_upto(m, n - 1) + if bit(m, n - 1) {
            1int
        } else {
            0int
        }
    }
}

/// `out` is the bit-matrix transpose of `inp`: bit `j` of `out[i]` is bit `i`
/// of `inp[j]`.
pub open spec fn is_transpose(out: Seq<u32>, inp: Seq<u32>) -> bool {
    &&& out.len() == 32
    &&& inp.len() == 32
    &&& forall|i: int, j: int|
        #![trigger bit(out[i], j)]
        0 <= i < 32 && 0 <= j < 32 ==> bit(out[i], j) == bit(inp[j], i)
}

/// Reads bit `i` of `m`.
pub fn get_bit(m: u32, i: usize) -> (r: bool)
    requires
        i < 32,
    ensures
        r == bit(m, i as int),
{
    (m >> (i as u32)) & 1u32 == 1u32
}

/// Builds the mask with exactly the bits `0..len` set.
pub fn full_mask(len: usize) -> (r: u32)
    requires
        len <= 32,
    ensures
        r == spec_full_mask(len as int),
{
    if len == 0 {
        0u32
    } else if len >= 32 {
        u32::MAX
    } else {
        u32::MAX >> ((32 - len) as u32)
    }
}

pub proof fn lemma_bit_and(a: u32, b: u32, i: int)
    requires
        0 <= i < 32,
    ensures
        bit(a & b, i) == (bit(a, i) && bit(b, i)),
{
    let j = i as u32;
    assert((((a & b) >> j) & 1u32 == 1u32) == (((a >> j) & 1u32 == 1u32) && ((b >> j) & 1u32
        == 1u32))) by (bit_vector);
}

pub proof fn lemma_bit_or(a: u32, b: u32, i: int)
    requires
        0 <= i < 32,
    ensures
        bit(a | b, i) == (bit(a, i) || bit(b, i)),
{
    let j = i as u32;
    assert((((a | b) >> j) & 1u32 == 1u32) == (((a >> j) & 1u32 == 1u32) || ((b >> j) & 1u32
        == 1u32))) by (bit_vector);
}

pub proof fn lemma_bit_not(a: u32, i: int)
    requires
        0 <= i < 32,
    ensures
        bit(!a, i) == !bit(a, i),
{
    let j = i as u32;
    assert((((!a) >> j) & 1u32 == 1u32) == !((a >> j) & 1u32 == 1u32)) by (bit_vector)
        requires
            j < 32,
    ;
}

pub proof fn lemma_bit_zero(i: int)
    ensures
        !bit(0u32, i),
{
    if 0 <= i < 32 {
        let j = i as u32;
        assert((0u32 >> j) & 1u32 == 0u32) by (bit_vector);
    }
}

/// Setting bit `c` of `m` sets that bit and leaves every other bit alone.
pub proof fn lemma_bit_set(m: u32, c: u32, i: int)
    requires
        c < 32,
        0 <= i < 32,
    ensures
        bit(m | (1u32 << c), i) == (bit(m, i) || i == c),
{
    let j = i as u32;
    assert((((m | (1u32 << c)) >> j) & 1u32 == 1u32) == (((m >> j) & 1u32 == 1u32) || j == c))
        by (bit_vector)
        requires
            c < 32,
            j < 32,
    ;
}

pub proof fn lemma_full_mask_bit(len: int, i: int)
    requires
        0 <= len <= 32,
        0 <= i < 32,
    ensures
        bit(spec_full_mask(len), i) == (i < len),
{
    let l = len as u32;
    let j = i as u32;
    if len <= 0 {
        assert((0u32 >> j) & 1u32 == 0u32) by (bit_vector);
    } else if len >= 32 {
        assert((u32::MAX >> j) & 1u32 == 1u32) by (bit_vector)
            requires
                j < 32,
        ;
    } else {
        assert((((u32::MAX >> ((32 - l) as u32)) >> j) & 1u32 == 1u32) == (j < l)) by (bit_vector)
            requires
                0 < l < 32,
                j < 32,
        ;
        assert(spec_full_mask(len) == u32::MAX >> ((32 - l) as u32));
    }
}

/// Two masks with the same bits are the same value.
pub proof fn lemma_mask_ext(a: u32, b: u32)
    requires
        forall|i: int| 0 <= i < 32 ==> bit(a, i) == bit(b, i),
    ensures
        a == b,
{
    assert(a == b) by (bit_vector)
        requires
            bit(a, 0) == bit(b, 0),
            bit(a, 1) == bit(b, 1),
            bit(a, 2) == bit(b, 2),
            bit(a, 3) == bit(b, 3),
            bit(a, 4) == bit(b, 4),
            bit(a, 5) == bit(b, 5),
            bit(a, 6) == bit(b, 6),
            bit(a, 7) == bit(b, 7),
            bit(a, 8) == bit(b, 8),
            bit(a, 9) == bit(b, 9),
            bit(a, 10) == bit(b, 10),
            bit(a, 11) == bit(b, 11),
            bit(a, 12) == bit(b, 12),
            bit(a, 13) == bit(b, 13),
            bit(a, 14) == bit(b, 14),
            bit(a, 15) == bit(b, 15),
            bit(a, 16) == bit(b, 16),
            bit(a, 17) == bit(b, 17),
            bit(a, 18) == bit(b, 18),
            bit(a, 19) == bit(b, 19),
            bit(a, 20) == bit(b, 20),
            bit(a, 21) == bit(b, 21),
            bit(a, 22) == bit(b, 22),
            bit(a, 23) == bit(b, 23),
            bit(a, 24) == bit(b, 24),
            bit(a, 25) == bit(b, 25),
            bit(a, 26) == bit(b, 26),
            bit(a, 27) == bit(b, 27),
            bit(a, 28) == bit(b, 28),
            bit(a, 29) == bit(b, 29),
            bit(a, 30) == bit(b, 30),
            bit(a, 31) == bit(b, 31),
    ;
}

/// A mask with no set bit is zero.
pub proof fn lemma_mask_no_bits_zero(a: u32)
    requires
        forall|i: int| !bit(a, i),
    ensures
        a == 0u32,
{
    assert forall|i: int| 0 <= i < 32 implies bit(a, i) == bit(0u32, i) by {
        lemma_bit_zero(i);
    }
    lemma_mask_ext(a, 0u32);
}

pub proof fn lemma_count_bound(m: u32, n: int)
    requires
        n >= 0,
    ensures
        0 <= count_bits_upto(m, n) <= n,
    decreases n,
{
    if n > 0 {
        lemma_count_bound(m, n - 1);
    }
}

/// Counting set bits is monotone under bitwise inclusion.
pub proof fn lemma_count_le(a: u32, b: u32, n: int)
    requires
        n >= 0,
        forall|i: int| 0 <= i < n ==> (bit(a, i) ==> bit(b, i)),
    ensures
        count_bits_upto(a, n) <= count_bits_upto(b, n),
    decreases n,
{
    if n > 0 {
        lemma_count_le(a, b, n - 1);
    }
}

/// A mask included in another with the same number of set bits has the same
/// bits.
pub proof fn lemma_count_eq_bits(a: u32, b: u32, n: int)
    requires
        n >= 0,
        forall|i: int| 0 <= i < n ==> (bit(a, i) ==> bit(b, i)),
        count_bits_upto(a, n) == count_bits_upto(b, n),
    ensures
        forall|i: int| 0 <= i < n ==> bit(a, i) == bit(b, i),
    decreases n,
{
    if n > 0 {
        lemma_count_le(a, b, n - 1);
        if bit(b, n - 1) && !bit(a, n - 1) {
            assert(count_bits_upto(b, n) > count_bits_upto(a, n));
            assert(false);
        }
        lemma_count_eq_bits(a, b, n - 1);
    }
}

/// Included masks of equal bit count over their whole width are equal.
pub proof fn lemma_count_eq_mask(a: u32, b: u32, n: int)
    requires
        0 <= n <= 32,
        mask_le(a, b),
        mask_fits(a, n),
        mask_fits(b, n),
        count_bits_upto(a, n) == count_bits_upto(b, n),
    ensures
        a == b,
{
    lemma_count_eq_bits(a, b, n);
    assert forall|i: int| 0 <= i < 32 implies bit(a, i) == bit(b, i) by {
        if i >= n {
            assert(!bit(a, i));
            assert(!bit(b, i));
        }
    }
    lemma_mask_ext(a, b);
}

/// Mutual bitwise inclusion is equality.
pub proof fn lemma_mask_le_antisym(a: u32, b: u32)
    requires
        mask_le(a, b),
        mask_le(b, a),
    ensures
        a == b,
{
    assert forall|i: int| 0 <= i < 32 implies bit(a, i) == bit(b, i) by {}
    lemma_mask_ext(a, b);
}

/// The count over `0..n` reaches `n` exactly when every one of those bits is
/// set.
pub proof fn lemma_count_full(m: u32, n: int)
    requires
        n >= 0,
    ensures
        (count_bits_upto(m, n) == n) <==> (forall|i: int| 0 <= i < n ==> bit(m, i)),
    decreases n,
{
    if n > 0 {
        lemma_count_full(m, n - 1);
        lemma_count_bound(m, n - 1);
    }
}

/// Counts the set bits of `m` at positions `0..n`.
pub fn count_bits(m: u32, n: usize) -> (r: usize)
    requires
        n <= 32,
    ensures
        r == count_bits_upto(m, n as int),
        r <= n,
{
    let mut c: usize = 0;
    for i in 0..n
        invariant
            c == count_bits_upto(m, i as int),
            c <= i,
            n <= 32,
    {
        if get_bit(m, i) {
            c = c + 1;
        }
    }
    c
}

/// Extends `m` with zero masks up to 32 entries.
pub fn pad_to_32(m: &Vec<u32>) -> (r: Vec<u32>)
    requires
        m@.len() <= 32,
    ensures
        r@.len() == 32,
        forall|i: int| 0 <= i < m@.len() ==> r@[i] == m@[i],
        forall|i: int| m@.len() <= i < 32 ==> r@[i] == 0u32,
{
    let mut out: Vec<u32> = Vec::new();
    let n = m.len();
    for i in 0..n
        invariant
            n == m@.len() <= 32,
            out@.len() == i,
            forall|j: int| 0 <= j < i ==> out@[j] == m@[j],
    {
        out.push(m[i]);
    }
    for i in n..32
        invariant
            n == m@.len() <= 32,
            out@.len() == i,
            n <= i <= 32,
            forall|j: int| 0 <= j < n ==> out@[j] == m@[j],
            forall|j: int| n <= j < i ==> out@[j] == 0u32,
    {
        out.push(0u32);
    }
    out
}

/// Returns the first `n` entries of `m`.
pub fn take_prefix(m: &Vec<u32>, n: usize) -> (r: Vec<u32>)
    requires
        n <= m@.len(),
    ensures
        r@ == m@.subrange(0, n as int),
{
    let mut out: Vec<u32> = Vec::new();
    for i in 0..n
        invariant
            n <= m@.len(),
            out@.len() == i,
            forall|j: int| 0 <= j < i ==> out@[j] == m@[j],
    {
        out.push(m[i]);
    }
    proof {
        assert(out@ =~= m@.subrange(0, n as int));
    }
    out
}

/// Transposes a 32 by 32 bit matrix: bit `j` of row `i` of the result is bit
/// `i` of row `j` of the input.
pub fn transpose(m: &Vec<u32>) -> (r: Vec<u32>)
    requires
        m@.len() == 32,
    ensures
        is_transpose(r@, m@),
{
    let mut out: Vec<u32> = Vec::new();
    for i in 0..32usize
        invariant
            m@.len() == 32,
            out@.len() == i,
            forall|a: int, b: int|
                0 <= a < i && 0 <= b < 32 ==> bit(#[trigger] out@[a], b) == bit(#[trigger] m@[b], a),
    {
        let mut acc: u32 = 0;
        proof {
            assert forall|b: int| 0 <= b < 32 implies !bit(acc, b) by {
                lemma_bit_zero(b);
            }
        }
        for j in 0..32usize
            invariant
                m@.len() == 32,
                i < 32,
                forall|b: int| 0 <= b < j ==> bit(acc, b) == bit(#[trigger] m@[b], i as int),
                forall|b: int| j <= b < 32 ==> !bit(acc, b),
        {
            if get_bit(m[j], i) {
                let ghost a0 = acc;
                acc = acc | (1u32 << (j as u32));
                proof {
                    assert forall|b: int| 0 <= b < 32 implies bit(acc, b) == (bit(a0, b) || b
                        == j as int) by {
                        lemma_bit_set(a0, j as u32, b);
                    }
                }
            }
        }
        out.push(acc);
    }
    out
}

/// Every boolean line of at most 32 cells is encoded by some mask.
pub proof fn lemma_seq_to_mask(s: Seq<bool>) -> (m: u32)
    requires
        s.len() <= 32,
    ensures
        mask_fits(m, s.len() as int),
        mask_seq(m, s.len() as int) == s,
    decreases s.len(),
{
    if s.len() == 0 {
        assert forall|i: int| 0 <= i < 32 implies !bit(0u32, i) by {
            lemma_bit_zero(i);
        }
        assert(mask_seq(0u32, 0) =~= s);
        0u32
    } else {
        let sp = s.drop_last();
        let mp = lemma_seq_to_mask(sp);
        let k = (s.len() - 1) as int;
        if s.last() {
            let m = mp | (1u32 << (k as u32));
            assert forall|i: int| 0 <= i < 32 implies bit(m, i) == (bit(mp, i) || i == k) by {
                lemma_bit_set(mp, k as u32, i);
            }
            assert forall|i: int| 0 <= i < s.len() implies bit(m, i) == s[i] by {
                if i < k {
                    assert(bit(mp, i) == sp[i]);
                } else {
                    assert(!bit(mp, k));
                }
            }
            assert(mask_seq(m, s.len() as int) =~= s);
            m
        } else {
            assert forall|i: int| 0 <= i < s.len() implies bit(mp, i) == s[i] by {
                if i < k {
                    assert(bit(mp, i) == sp[i]);
                } else {
                    assert(!bit(mp, k));
                }
            }
            assert(mask_seq(mp, s.len() as int) =~= s);
            mp
        }
    }
}

/// Transposing twice gives back the original bit matrix: if `b` is the
/// transpose of `a` and `c` is the transpose of `b`, then `c` is `a`.
pub proof fn lemma_transpose_involution(a: Seq<u32>, b: Seq<u32>, c: Seq<u32>)
    requires
        is_transpose(b, a),
        is_transpose(c, b),
    ensures
        c == a,
{
    assert forall|i: int| 0 <= i < 32 implies c[i] == a[i] by {
        assert forall|j: int| 0 <= j < 32 implies bit(c[i], j) == bit(a[i], j) by {
            assert(bit(c[i], j) == bit(b[j], i));
            assert(bit(b[j], i) == bit(a[i], j));
        }
        lemma_mask_ext(c[i], a[i]);
    }
    assert(c =~= a);
}

} // verus!
