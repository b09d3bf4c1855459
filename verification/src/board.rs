//! The propagation orchestrator.
//!
//! The board owns the global state: one `filled` and one `known` mask per
//! row, with `filled` always a subset of `known`, plus the live candidate
//! sets of every row and column. Solving alternates row and column passes;
//! each pass filters the candidate sets against the current knowledge,
//! extracts their consensus and merges it back, until the board is fully
//! known, a contradiction surfaces, or a full pass learns nothing.
use vstd::prelude::*;

use crate::bits::{BIT_WIDTH, bit, mask_fits, mask_le, mask_seq, spec_full_mask, count_bits_upto,
    lemma_bit_set,
    get_bit, full_mask, count_bits, pad_to_32, take_prefix, transpose, lemma_bit_and, lemma_bit_or,
    lemma_bit_not, lemma_bit_zero, lemma_full_mask_bit, lemma_mask_ext, lemma_mask_no_bits_zero,
    lemma_count_bound, lemma_count_full, lemma_count_le, lemma_count_eq_mask,
    lemma_mask_le_antisym, lemma_seq_to_mask};
use crate::model::{CellState, Constraint, Constraints, Dimensions, Line};
use crate::runs::{runs_of, runs_go, to_ints, lemma_to_ints_inj};
use crate::generate::{generate, is_placement};

verus! {

/// Terminal state of a solving run.
#[derive(Debug, Clone, Copy, PartialEq, Eq, Structural)]
pub enum Status {
    Solved,
    Contradiction,
    Stuck,
}

/// Why a board could not be built.
#[derive(Debug, Clone, Copy, PartialEq, Eq, Structural)]
pub enum BoardError {
    DimensionOverflow,
    ConstraintCountMismatch,
}

/// A candidate agrees with every cell of a line already known: where `k` has
/// a bit, the candidate and `f` coincide.
pub open spec fn compat(cand: u32, f: u32, k: u32) -> bool {
    forall|i: int| 0 <= i < 32 && #[trigger] bit(k, i) ==> bit(cand, i) == bit(f, i)
}

/// Column counterpart of [`compat`], read directly off the row-major state:
/// the candidate for column `c` agrees with every known cell of that column.
pub open spec fn compat_col(cand: u32, filled: Seq<u32>, known: Seq<u32>, c: int, rows: int) -> bool {
    forall|r: int|
        0 <= r < rows && #[trigger] bit(known[r], c) ==> bit(cand, r) == bit(filled[r], c)
}

/// The candidates of `s` compatible with the line knowledge (`f`, `k`).
pub open spec fn filter_row(s: Seq<u32>, f: u32, k: u32) -> Seq<u32>
    decreases s.len(),
{
    if s.len() == 0 {
        Seq::empty()
    } else {
        filter_row(s.drop_last(), f, k) + if compat(s.last(), f, k) {
            seq![s.last()]
        } else {
            Seq::empty()
        }
    }
}

/// The candidates of `s` compatible with column `c` of the board state.
pub open spec fn filter_col(s: Seq<u32>, filled: Seq<u32>, known: Seq<u32>, c: int, rows: int) -> Seq<
    u32,
>
    decreases s.len(),
{
    if s.len() == 0 {
        Seq::empty()
    } else {
        filter_col(s.drop_last(), filled, known, c, rows) + if compat_col(
            s.last(),
            filled,
            known,
            c,
            rows,
        ) {
            seq![s.last()]
        } else {
            Seq::empty()
        }
    }
}

/// Bitwise AND over all of `s`, starting from `init`.
pub open spec fn and_fold(s: Seq<u32>, init: u32) -> u32
    decreases s.len(),
{
    if s.len() == 0 {
        init
    } else {
        and_fold(s.drop_last(), init) & s.last()
    }
}

/// Bitwise OR over all of `s`, starting from `init`.
pub open spec fn or_fold(s: Seq<u32>, init: u32) -> u32
    decreases s.len(),
{
    if s.len() == 0 {
        init
    } else {
        or_fold(s.drop_last(), init) | s.last()
    }
}

/// Cells full in every candidate of a line of length `len`.
pub open spec fn forced_full(s: Seq<u32>, len: int) -> u32 {
    and_fold(s, spec_full_mask(len))
}

/// Cells empty in every candidate of a line of length `len`.
pub open spec fn forced_empty(s: Seq<u32>, len: int) -> u32 {
    spec_full_mask(len) & !or_fold(s, 0u32)
}

/// Cells determined (one way or the other) by every candidate.
pub open spec fn certain(s: Seq<u32>, len: int) -> u32 {
    forced_full(s, len) | forced_empty(s, len)
}

/// Merging the consensus of `cands` into a line with knowledge (`f`, `k`)
/// would clear an already known bit.
pub open spec fn merge_conflict(f: u32, k: u32, cands: Seq<u32>, len: int) -> bool {
    (f & forced_empty(cands, len)) != 0 || ((k & !f) & forced_full(cands, len)) != 0
}

pub proof fn lemma_and_fold_bit(s: Seq<u32>, init: u32, i: int)
    requires
        0 <= i < 32,
    ensures
        bit(and_fold(s, init), i) == (bit(init, i) && forall|j: int|
            0 <= j < s.len() ==> bit(#[trigger] s[j], i)),
    decreases s.len(),
{
    if s.len() == 0 {
    } else {
        let sp = s.drop_last();
        lemma_and_fold_bit(sp, init, i);
        lemma_bit_and(and_fold(sp, init), s.last(), i);
        if bit(and_fold(s, init), i) {
            assert forall|j: int| 0 <= j < s.len() implies bit(#[trigger] s[j], i) by {
                if j < s.len() - 1 {
                    assert(bit(sp[j], i));
                } else {
                    assert(bit(s.last(), i));
                }
            }
        } else {
            if bit(init, i) && forall|j: int| 0 <= j < s.len() ==> bit(#[trigger] s[j], i) {
                assert forall|j: int| 0 <= j < sp.len() implies bit(#[trigger] sp[j], i) by {
                    assert(bit(s[j], i));
                }
                assert(bit(s.last(), i) == bit(s[s.len() - 1], i));
                assert(false);
            }
        }
    }
}

pub proof fn lemma_or_fold_bit(s: Seq<u32>, init: u32, i: int)
    requires
        0 <= i < 32,
    ensures
        bit(or_fold(s, init), i) == (bit(init, i) || exists|j: int|
            0 <= j < s.len() && bit(#[trigger] s[j], i)),
    decreases s.len(),
{
    if s.len() == 0 {
    } else {
        let sp = s.drop_last();
        lemma_or_fold_bit(sp, init, i);
        lemma_bit_or(or_fold(sp, init), s.last(), i);
        if bit(or_fold(s, init), i) {
            if bit(or_fold(sp, init), i) {
                if !bit(init, i) {
                    let j = choose|j: int| 0 <= j < sp.len() && bit(#[trigger] sp[j], i);
                    assert(bit(s[j], i));
                }
            } else {
                assert(bit(s[s.len() - 1], i));
            }
        } else {
            if bit(init, i) {
                assert(false);
            }
            if exists|j: int| 0 <= j < s.len() && bit(#[trigger] s[j], i) {
                let j = choose|j: int| 0 <= j < s.len() && bit(#[trigger] s[j], i);
                if j < s.len() - 1 {
                    assert(bit(sp[j], i));
                    assert(false);
                } else {
                    assert(bit(s.last(), i));
                    assert(false);
                }
            }
        }
    }
}

/// What the consensus masks say, bit by bit: a forced-full bit is set in
/// every candidate, a forced-empty bit in none.
proof fn lemma_consensus_bits(s: Seq<u32>, len: int, t: int)
    requires
        0 <= len <= 32,
        0 <= t < 32,
    ensures
        bit(forced_full(s, len), t) == (t < len && forall|j: int|
            0 <= j < s.len() ==> bit(#[trigger] s[j], t)),
        bit(forced_empty(s, len), t) == (t < len && !exists|j: int|
            0 <= j < s.len() && bit(#[trigger] s[j], t)),
{
    lemma_and_fold_bit(s, spec_full_mask(len), t);
    lemma_full_mask_bit(len, t);
    lemma_or_fold_bit(s, 0u32, t);
    lemma_bit_zero(t);
    lemma_bit_not(or_fold(s, 0u32), t);
    lemma_bit_and(spec_full_mask(len), !or_fold(s, 0u32), t);
}

/// A conflict-free merge grows the masks without flipping anything known.
proof fn lemma_merge_stable(f: u32, k: u32, cands: Seq<u32>, len: int)
    requires
        0 <= len <= 32,
        !merge_conflict(f, k, cands, len),
    ensures
        forall|t: int|
            0 <= t < 32 && #[trigger] bit(k, t) ==> bit(k | certain(cands, len), t) && bit(
                f | forced_full(cands, len),
                t,
            ) == bit(f, t),
{
    let ff = forced_full(cands, len);
    let ct = certain(cands, len);
    assert forall|t: int|
        0 <= t < 32 && #[trigger] bit(k, t) implies bit(k | ct, t) && bit(f | ff, t) == bit(
        f,
        t,
    ) by {
        lemma_bit_or(k, ct, t);
        lemma_bit_or(f, ff, t);
        if bit(ff, t) && !bit(f, t) {
            lemma_bit_not(f, t);
            lemma_bit_and(k, !f, t);
            lemma_bit_and(k & !f, ff, t);
            lemma_bit_zero(t);
            assert(bit((k & !f) & ff, t));
            assert(false);
        }
    }
}

/// Absorbing a line's consensus keeps every surviving candidate compatible.
proof fn lemma_merge_keeps_compat(m: u32, f: u32, k: u32, cands: Seq<u32>, len: int)
    requires
        0 <= len <= 32,
        cands.len() > 0,
        !merge_conflict(f, k, cands, len),
        cands.contains(m),
        compat(m, f, k),
    ensures
        compat(m, f | forced_full(cands, len), k | certain(cands, len)),
{
    let ff = forced_full(cands, len);
    let fe = forced_empty(cands, len);
    let ct = certain(cands, len);
    let j0 = choose|j: int| 0 <= j < cands.len() && cands[j] == m;
    assert forall|t: int|
        0 <= t < 32 && #[trigger] bit(k | ct, t) implies bit(m, t) == bit(f | ff, t) by {
        lemma_bit_or(k, ct, t);
        lemma_bit_or(ff, fe, t);
        lemma_bit_or(f, ff, t);
        lemma_consensus_bits(cands, len, t);
        if bit(k, t) {
            if bit(ff, t) && !bit(f, t) {
                lemma_bit_not(f, t);
                lemma_bit_and(k, !f, t);
                lemma_bit_and(k & !f, ff, t);
                lemma_bit_zero(t);
                assert(bit((k & !f) & ff, t));
                assert(false);
            }
        } else if bit(ff, t) {
            assert(bit(cands[j0], t));
        } else {
            assert(bit(fe, t));
            assert(!bit(cands[j0], t));
            if bit(f, t) {
                lemma_bit_and(f, fe, t);
                lemma_bit_zero(t);
                assert(bit(f & fe, t));
                assert(false);
            }
        }
    }
}

/// A filter keeps every compatible element.
proof fn lemma_filter_row_keeps(s: Seq<u32>, f: u32, k: u32, m: u32)
    requires
        s.contains(m),
        compat(m, f, k),
    ensures
        filter_row(s, f, k).contains(m),
    decreases s.len(),
{
    if s.len() > 0 {
        let sp = s.drop_last();
        let r = filter_row(s, f, k);
        let rp = filter_row(sp, f, k);
        if s.last() == m {
            assert(r[rp.len() as int] == m);
            assert(r.contains(m));
        } else {
            let t = choose|t: int| 0 <= t < s.len() && s[t] == m;
            assert(sp[t] == m);
            assert(sp.contains(m));
            lemma_filter_row_keeps(sp, f, k, m);
            let u = choose|u: int| 0 <= u < rp.len() && rp[u] == m;
            assert(r[u] == m);
            assert(r.contains(m));
        }
    }
}

/// Column counterpart of [`lemma_filter_row_keeps`].
proof fn lemma_filter_col_keeps(
    s: Seq<u32>,
    filled: Seq<u32>,
    known: Seq<u32>,
    c: int,
    rows: int,
    m: u32,
)
    requires
        s.contains(m),
        compat_col(m, filled, known, c, rows),
    ensures
        filter_col(s, filled, known, c, rows).contains(m),
    decreases s.len(),
{
    if s.len() > 0 {
        let sp = s.drop_last();
        let r = filter_col(s, filled, known, c, rows);
        let rp = filter_col(sp, filled, known, c, rows);
        if s.last() == m {
            assert(r[rp.len() as int] == m);
            assert(r.contains(m));
        } else {
            let t = choose|t: int| 0 <= t < s.len() && s[t] == m;
            assert(sp[t] == m);
            assert(sp.contains(m));
            lemma_filter_col_keeps(sp, filled, known, c, rows, m);
            let u = choose|u: int| 0 <= u < rp.len() && rp[u] == m;
            assert(r[u] == m);
            assert(r.contains(m));
        }
    }
}

/// Knowledge that only grows without flipping keeps compatibility downward:
/// whatever agrees with the later knowledge agreed with the earlier.
proof fn lemma_compat_weaken(m: u32, f1: u32, k1: u32, f2: u32, k2: u32)
    requires
        compat(m, f2, k2),
        forall|t: int|
            0 <= t < 32 && #[trigger] bit(k1, t) ==> bit(k2, t) && bit(f2, t) == bit(f1, t),
    ensures
        compat(m, f1, k1),
{
    assert forall|t: int| 0 <= t < 32 && #[trigger] bit(k1, t) implies bit(m, t) == bit(
        f1,
        t,
    ) by {
        assert(bit(k2, t));
    }
}

/// Column counterpart of [`lemma_compat_weaken`].
proof fn lemma_compat_col_weaken(
    m: u32,
    f1: Seq<u32>,
    k1: Seq<u32>,
    f2: Seq<u32>,
    k2: Seq<u32>,
    c: int,
    rows: int,
)
    requires
        compat_col(m, f2, k2, c, rows),
        forall|r: int|
            0 <= r < rows && #[trigger] bit(k1[r], c) ==> bit(k2[r], c) && bit(f2[r], c) == bit(
                f1[r],
                c,
            ),
    ensures
        compat_col(m, f1, k1, c, rows),
{
    assert forall|r: int|
        0 <= r < rows && #[trigger] bit(k1[r], c) implies bit(m, r) == bit(f1[r], c) by {
        assert(bit(k2[r], c));
    }
}

/// Absorbing a column's consensus keeps a surviving column candidate's cell
/// right: a newly known cell agrees with it.
proof fn lemma_col_merge_keeps_cell(
    sol_bit: bool,
    mc: u32,
    cands: Seq<u32>,
    rows: int,
    r: int,
    f_old: bool,
    k_old: bool,
    f_new: bool,
    k_new: bool,
)
    requires
        0 <= rows <= 32,
        0 <= r < rows,
        cands.len() > 0,
        cands.contains(mc),
        bit(mc, r) == sol_bit,
        k_old ==> sol_bit == f_old,
        f_new == (f_old || bit(forced_full(cands, rows), r)),
        k_new == (k_old || bit(certain(cands, rows), r)),
        !(f_old && bit(forced_empty(cands, rows), r)),
        !(k_old && !f_old && bit(forced_full(cands, rows), r)),
    ensures
        k_new ==> sol_bit == f_new,
{
    lemma_consensus_bits(cands, rows, r);
    lemma_bit_or(forced_full(cands, rows), forced_empty(cands, rows), r);
    let j0 = choose|j: int| 0 <= j < cands.len() && cands[j] == mc;
    if k_new {
        if k_old {
        } else if bit(forced_full(cands, rows), r) {
            assert(bit(cands[j0], r));
        } else {
            assert(bit(forced_empty(cands, rows), r));
            assert(!bit(cands[j0], r));
        }
    }
}

/// A nonzero mask has a set bit, and conversely.
pub proof fn lemma_mask_nonzero(m: u32)
    ensures
        (m != 0) <==> exists|i: int| 0 <= i < 32 && #[trigger] bit(m, i),
{
    if m != 0 {
        if !(exists|i: int| 0 <= i < 32 && #[trigger] bit(m, i)) {
            assert forall|i: int| !bit(m, i) by {
                if 0 <= i < 32 {
                    assert(!bit(m, i));
                }
            }
            lemma_mask_no_bits_zero(m);
            assert(false);
        }
    } else {
        assert forall|i: int| 0 <= i < 32 implies !#[trigger] bit(m, i) by {
            lemma_bit_zero(i);
        }
    }
}

pub proof fn lemma_mask_le_trans(a: u32, b: u32, c: u32)
    requires
        mask_le(a, b),
        mask_le(b, c),
    ensures
        mask_le(a, c),
{
    assert forall|i: int| bit(a, i) implies bit(c, i) by {
        assert(bit(b, i));
    }
}

/// Filtering keeps only elements of the original sequence, preserving any
/// pointwise property such as fitting the line length.
pub proof fn lemma_filter_row_fits(s: Seq<u32>, f: u32, k: u32, len: int)
    requires
        forall|j: int| 0 <= j < s.len() ==> mask_fits(#[trigger] s[j], len),
    ensures
        forall|j: int|
            0 <= j < filter_row(s, f, k).len() ==> mask_fits(#[trigger] filter_row(s, f, k)[j], len),
        filter_row(s, f, k).len() <= s.len(),
    decreases s.len(),
{
    if s.len() > 0 {
        let sp = s.drop_last();
        assert forall|j: int| 0 <= j < sp.len() implies mask_fits(#[trigger] sp[j], len) by {
            assert(sp[j] == s[j]);
        }
        lemma_filter_row_fits(sp, f, k, len);
        let r = filter_row(s, f, k);
        let rp = filter_row(sp, f, k);
        assert forall|j: int| 0 <= j < r.len() implies mask_fits(#[trigger] r[j], len) by {
            if j < rp.len() {
                assert(r[j] == rp[j]);
            } else {
                assert(r[j] == s.last());
                assert(s.last() == s[s.len() - 1]);
            }
        }
    }
}

/// Column counterpart of [`lemma_filter_row_fits`].
pub proof fn lemma_filter_col_fits(
    s: Seq<u32>,
    filled: Seq<u32>,
    known: Seq<u32>,
    c: int,
    rows: int,
    len: int,
)
    requires
        forall|j: int| 0 <= j < s.len() ==> mask_fits(#[trigger] s[j], len),
    ensures
        forall|j: int|
            0 <= j < filter_col(s, filled, known, c, rows).len() ==> mask_fits(
                #[trigger] filter_col(s, filled, known, c, rows)[j],
                len,
            ),
        filter_col(s, filled, known, c, rows).len() <= s.len(),
    decreases s.len(),
{
    if s.len() > 0 {
        let sp = s.drop_last();
        assert forall|j: int| 0 <= j < sp.len() implies mask_fits(#[trigger] sp[j], len) by {
            assert(sp[j] == s[j]);
        }
        lemma_filter_col_fits(sp, filled, known, c, rows, len);
        let r = filter_col(s, filled, known, c, rows);
        let rp = filter_col(sp, filled, known, c, rows);
        assert forall|j: int| 0 <= j < r.len() implies mask_fits(#[trigger] r[j], len) by {
            if j < rp.len() {
                assert(r[j] == rp[j]);
            } else {
                assert(r[j] == s.last());
                assert(s.last() == s[s.len() - 1]);
            }
        }
    }
}

/// Filtering never invents a candidate: everything kept was already there,
/// so a discarded candidate can never come back.
pub proof fn lemma_filter_row_subset(s: Seq<u32>, f: u32, k: u32)
    ensures
        forall|j: int|
            0 <= j < filter_row(s, f, k).len() ==> s.contains(#[trigger] filter_row(s, f, k)[j]),
    decreases s.len(),
{
    if s.len() > 0 {
        let sp = s.drop_last();
        lemma_filter_row_subset(sp, f, k);
        let r = filter_row(s, f, k);
        let rp = filter_row(sp, f, k);
        assert forall|j: int| 0 <= j < r.len() implies s.contains(#[trigger] r[j]) by {
            if j < rp.len() {
                assert(r[j] == rp[j]);
                assert(sp.contains(rp[j]));
                let t = choose|t: int| 0 <= t < sp.len() && sp[t] == rp[j];
                assert(s[t] == rp[j]);
            } else {
                assert(r[j] == s.last());
                assert(s[s.len() - 1] == s.last());
            }
        }
    }
}

/// Column counterpart of [`lemma_filter_row_subset`].
pub proof fn lemma_filter_col_subset(
    s: Seq<u32>,
    filled: Seq<u32>,
    known: Seq<u32>,
    c: int,
    rows: int,
)
    ensures
        forall|j: int|
            0 <= j < filter_col(s, filled, known, c, rows).len() ==> s.contains(
                #[trigger] filter_col(s, filled, known, c, rows)[j],
            ),
    decreases s.len(),
{
    if s.len() > 0 {
        let sp = s.drop_last();
        lemma_filter_col_subset(sp, filled, known, c, rows);
        let r = filter_col(s, filled, known, c, rows);
        let rp = filter_col(sp, filled, known, c, rows);
        assert forall|j: int| 0 <= j < r.len() implies s.contains(#[trigger] r[j]) by {
            if j < rp.len() {
                assert(r[j] == rp[j]);
                assert(sp.contains(rp[j]));
                let t = choose|t: int| 0 <= t < sp.len() && sp[t] == rp[j];
                assert(s[t] == rp[j]);
            } else {
                assert(r[j] == s.last());
                assert(s[s.len() - 1] == s.last());
            }
        }
    }
}

/// Everything a filter keeps is compatible.
proof fn lemma_filter_row_all_compat(s: Seq<u32>, f: u32, k: u32)
    ensures
        forall|j: int|
            0 <= j < filter_row(s, f, k).len() ==> compat(#[trigger] filter_row(s, f, k)[j], f, k),
    decreases s.len(),
{
    if s.len() > 0 {
        lemma_filter_row_all_compat(s.drop_last(), f, k);
        let r = filter_row(s, f, k);
        let rp = filter_row(s.drop_last(), f, k);
        assert forall|j: int| 0 <= j < r.len() implies compat(#[trigger] r[j], f, k) by {
            if j < rp.len() {
                assert(r[j] == rp[j]);
            } else {
                assert(r[j] == s.last());
            }
        }
    }
}

/// Filtering a sequence of compatible candidates keeps all of them.
proof fn lemma_filter_row_of_compat(s: Seq<u32>, f: u32, k: u32)
    requires
        forall|j: int| 0 <= j < s.len() ==> compat(#[trigger] s[j], f, k),
    ensures
        filter_row(s, f, k) == s,
    decreases s.len(),
{
    if s.len() > 0 {
        let sp = s.drop_last();
        assert forall|j: int| 0 <= j < sp.len() implies compat(#[trigger] sp[j], f, k) by {
            assert(sp[j] == s[j]);
        }
        lemma_filter_row_of_compat(sp, f, k);
        assert(compat(s.last(), f, k));
        assert(filter_row(s, f, k) =~= s);
    }
}

/// Column counterpart of [`lemma_filter_row_all_compat`].
proof fn lemma_filter_col_all_compat(s: Seq<u32>, filled: Seq<u32>, known: Seq<u32>, c: int, rows: int)
    ensures
        forall|j: int|
            0 <= j < filter_col(s, filled, known, c, rows).len() ==> compat_col(
                #[trigger] filter_col(s, filled, known, c, rows)[j],
                filled,
                known,
                c,
                rows,
            ),
    decreases s.len(),
{
    if s.len() > 0 {
        lemma_filter_col_all_compat(s.drop_last(), filled, known, c, rows);
        let r = filter_col(s, filled, known, c, rows);
        let rp = filter_col(s.drop_last(), filled, known, c, rows);
        assert forall|j: int|
            0 <= j < r.len() implies compat_col(#[trigger] r[j], filled, known, c, rows) by {
            if j < rp.len() {
                assert(r[j] == rp[j]);
            } else {
                assert(r[j] == s.last());
            }
        }
    }
}

/// Column counterpart of [`lemma_filter_row_of_compat`].
proof fn lemma_filter_col_of_compat(s: Seq<u32>, filled: Seq<u32>, known: Seq<u32>, c: int, rows: int)
    requires
        forall|j: int| 0 <= j < s.len() ==> compat_col(#[trigger] s[j], filled, known, c, rows),
    ensures
        filter_col(s, filled, known, c, rows) == s,
    decreases s.len(),
{
    if s.len() > 0 {
        let sp = s.drop_last();
        assert forall|j: int|
            0 <= j < sp.len() implies compat_col(#[trigger] sp[j], filled, known, c, rows) by {
            assert(sp[j] == s[j]);
        }
        lemma_filter_col_of_compat(sp, filled, known, c, rows);
        assert(compat_col(s.last(), filled, known, c, rows));
        assert(filter_col(s, filled, known, c, rows) =~= s);
    }
}

/// When row-level and column-level compatibility coincide, so do the two
/// filters.
pub proof fn lemma_filter_row_col(
    s: Seq<u32>,
    f: u32,
    k: u32,
    filled: Seq<u32>,
    known: Seq<u32>,
    c: int,
    rows: int,
)
    requires
        forall|cand: u32| #[trigger] compat(cand, f, k) == compat_col(cand, filled, known, c, rows),
    ensures
        filter_row(s, f, k) == filter_col(s, filled, known, c, rows),
    decreases s.len(),
{
    if s.len() > 0 {
        lemma_filter_row_col(s.drop_last(), f, k, filled, known, c, rows);
        assert(compat(s.last(), f, k) == compat_col(s.last(), filled, known, c, rows));
    }
}

/// True iff the candidate agrees with every known cell of the line.
pub fn is_compatible(cand: u32, f: u32, k: u32) -> (r: bool)
    ensures
        r == compat(cand, f, k),
{
    let r = (cand & k) == (f & k);
    proof {
        if cand & k == f & k {
            assert forall|i: int| 0 <= i < 32 && #[trigger] bit(k, i) implies bit(cand, i) == bit(
                f,
                i,
            ) by {
                lemma_bit_and(cand, k, i);
                lemma_bit_and(f, k, i);
            }
        } else {
            if compat(cand, f, k) {
                assert forall|i: int| 0 <= i < 32 implies bit(cand & k, i) == bit(f & k, i) by {
                    lemma_bit_and(cand, k, i);
                    lemma_bit_and(f, k, i);
                }
                lemma_mask_ext(cand & k, f & k);
                assert(false);
            }
        }
    }
    r
}

/// Keeps the candidates compatible with the line knowledge (`f`, `k`).
fn filter_candidates(cands: &Vec<u32>, f: u32, k: u32) -> (r: Vec<u32>)
    ensures
        r@ == filter_row(cands@, f, k),
{
    let mut out: Vec<u32> = Vec::new();
    let n = cands.len();
    proof {
        assert(cands@.take(0) =~= Seq::<u32>::empty());
    }
    for i in 0..n
        invariant
            n == cands@.len(),
            out@ == filter_row(cands@.take(i as int), f, k),
    {
        proof {
            assert(cands@.take(i + 1).drop_last() =~= cands@.take(i as int));
            assert(cands@.take(i + 1).last() == cands@[i as int]);
        }
        if is_compatible(cands[i], f, k) {
            out.push(cands[i]);
            proof {
                assert(out@ =~= filter_row(cands@.take(i as int), f, k) + seq![
                    cands@[i as int],
                ]);
            }
        } else {
            proof {
                assert(out@ =~= filter_row(cands@.take(i as int), f, k) + Seq::<u32>::empty());
            }
        }
    }
    proof {
        assert(cands@.take(n as int) =~= cands@);
    }
    out
}

/// The two consensus parts of a line: cells full in every candidate and
/// cells empty in every candidate.
fn consensus_parts(cands: &Vec<u32>, len: usize) -> (r: (u32, u32))
    requires
        len <= 32,
    ensures
        r.0 == forced_full(cands@, len as int),
        r.1 == forced_empty(cands@, len as int),
{
    let full = full_mask(len);
    let mut a: u32 = full;
    let mut o: u32 = 0;
    let n = cands.len();
    proof {
        assert(cands@.take(0) =~= Seq::<u32>::empty());
    }
    for i in 0..n
        invariant
            n == cands@.len(),
            full == spec_full_mask(len as int),
            a == and_fold(cands@.take(i as int), full),
            o == or_fold(cands@.take(i as int), 0u32),
    {
        proof {
            assert(cands@.take(i + 1).drop_last() =~= cands@.take(i as int));
            assert(cands@.take(i + 1).last() == cands@[i as int]);
        }
        a = a & cands[i];
        o = o | cands[i];
    }
    proof {
        assert(cands@.take(n as int) =~= cands@);
    }
    (a, full & !o)
}

/// Consensus of a line's remaining candidates: the cells forced full in all
/// of them, and the cells whose state is certain (forced full or forced
/// empty) across all of them.
pub fn consensus(cands: &Vec<u32>, len: usize) -> (r: (u32, u32))
    requires
        len <= 32,
        cands@.len() > 0,
    ensures
        r.0 == forced_full(cands@, len as int),
        r.1 == certain(cands@, len as int),
{
    let (ff, fe) = consensus_parts(cands, len);
    (ff, ff | fe)
}

/// Column views of a row-major mask array: bit `i` of entry `c` is bit `c`
/// of row `i`, with rows beyond the array reading as empty.
fn col_views(masks: &Vec<u32>) -> (r: Vec<u32>)
    requires
        masks@.len() <= 32,
    ensures
        r@.len() == 32,
        forall|c: int, i: int|
            #![trigger bit(r@[c], i)]
            0 <= c < 32 && 0 <= i < 32 ==> bit(r@[c], i) == (i < masks@.len() && bit(
                masks@[i],
                c,
            )),
{
    let p = pad_to_32(masks);
    let t = transpose(&p);
    proof {
        assert forall|c: int, i: int|
            #![trigger bit(t@[c], i)]
            0 <= c < 32 && 0 <= i < 32 implies bit(t@[c], i) == (i < masks@.len()
            && bit(masks@[i], c)) by {
            assert(bit(t@[c], i) == bit(p@[i], c));
            if i < masks@.len() {
                assert(p@[i] == masks@[i]);
            } else {
                assert(p@[i] == 0u32);
                lemma_bit_zero(c);
            }
        }
    }
    t
}

/// Merging the consensus of column `c`'s candidates would clear a bit of
/// that column already known in the row-major state.
pub open spec fn col_merge_conflict(
    filled: Seq<u32>,
    known: Seq<u32>,
    cands: Seq<u32>,
    c: int,
    rows: int,
) -> bool {
    exists|r: int|
        #![trigger bit(filled[r], c)]
        0 <= r < rows && ((bit(filled[r], c) && bit(forced_empty(cands, rows), r)) || (bit(
            known[r],
            c,
        ) && !bit(filled[r], c) && bit(forced_full(cands, rows), r)))
}

/// Merging a line's consensus into its knowledge (`f`, `k`): what the new
/// masks look like, that they only grow, and that a fully known line is left
/// untouched.
proof fn lemma_merge_row(f: u32, k: u32, cands: Seq<u32>, len: int)
    requires
        0 <= len <= 32,
        mask_fits(f, len),
        mask_fits(k, len),
        mask_le(f, k),
        !merge_conflict(f, k, cands, len),
    ensures
        mask_fits(f | forced_full(cands, len), len),
        mask_fits(k | certain(cands, len), len),
        mask_le(f | forced_full(cands, len), k | certain(cands, len)),
        mask_le(f, f | forced_full(cands, len)),
        mask_le(k, k | certain(cands, len)),
        forall|i: int|
            0 <= i < 32 ==> bit(#[trigger] (f | forced_full(cands, len)), i) == (bit(f, i) || bit(
                forced_full(cands, len),
                i,
            )),
        forall|i: int|
            0 <= i < 32 ==> bit(#[trigger] (k | certain(cands, len)), i) == (bit(k, i) || bit(
                certain(cands, len),
                i,
            )),
        (forall|c: int| 0 <= c < len ==> bit(k, c)) ==> (f | forced_full(cands, len)) == f && (k
            | certain(cands, len)) == k,
{
    let ff = forced_full(cands, len);
    let fe = forced_empty(cands, len);
    let ct = certain(cands, len);
    assert forall|i: int| 0 <= i < 32 implies (bit(ff, i) ==> i < len) && (bit(fe, i) ==> i
        < len) && (bit(ct, i) == (bit(ff, i) || bit(fe, i))) by {
        lemma_and_fold_bit(cands, spec_full_mask(len), i);
        lemma_bit_and(spec_full_mask(len), !or_fold(cands, 0u32), i);
        lemma_full_mask_bit(len, i);
        lemma_bit_or(ff, fe, i);
    }
    // without a conflict, a forced-full bit on a known-empty cell is
    // impossible
    assert forall|i: int| 0 <= i < 32 implies !(bit(k, i) && !bit(f, i) && bit(ff, i)) by {
        if bit(k, i) && !bit(f, i) && bit(ff, i) {
            lemma_bit_not(f, i);
            lemma_bit_and(k, !f, i);
            lemma_bit_and(k & !f, ff, i);
            lemma_bit_zero(i);
            assert((k & !f) & ff != 0);
        }
    }
    assert forall|i: int| 0 <= i < 32 implies bit(#[trigger] (f | ff), i) == (bit(f, i) || bit(
        ff,
        i,
    )) by {
        lemma_bit_or(f, ff, i);
    }
    assert forall|i: int| 0 <= i < 32 implies bit(#[trigger] (k | ct), i) == (bit(k, i) || bit(
        ct,
        i,
    )) by {
        lemma_bit_or(k, ct, i);
    }
    assert forall|i: int| len <= i < 32 implies !bit(f | ff, i) by {
        assert(bit(f | ff, i) == (bit(f, i) || bit(ff, i)));
    }
    assert(mask_fits(f | ff, len));
    assert forall|i: int| len <= i < 32 implies !bit(k | ct, i) by {
        assert(bit(k | ct, i) == (bit(k, i) || bit(ct, i)));
    }
    assert(mask_fits(k | ct, len));
    assert forall|i: int| bit(f | ff, i) implies bit(k | ct, i) by {
        if 0 <= i < 32 {
            assert(bit(f | ff, i) == (bit(f, i) || bit(ff, i)));
            assert(bit(k | ct, i) == (bit(k, i) || bit(ct, i)));
        }
    }
    assert(mask_le(f | ff, k | ct));
    if forall|c: int| 0 <= c < len ==> bit(k, c) {
        assert forall|i: int| 0 <= i < 32 implies bit(f | ff, i) == bit(f, i) by {
            if bit(ff, i) {
                assert(i < len);
                assert(bit(k, i));
            }
        }
        lemma_mask_ext(f | ff, f);
        assert forall|i: int| 0 <= i < 32 implies bit(k | ct, i) == bit(k, i) by {
            if bit(ct, i) {
                assert(i < len);
                assert(bit(k, i));
            }
        }
        lemma_mask_ext(k | ct, k);
    }
}

/// The conflict test on a column's transposed views is the conflict on the
/// row-major state.
proof fn lemma_col_conflict_bridge(
    fc: u32,
    kc: u32,
    filled: Seq<u32>,
    known: Seq<u32>,
    cands: Seq<u32>,
    c: int,
    rows: int,
)
    requires
        0 <= c < 32,
        0 <= rows <= 32,
        filled.len() == rows,
        known.len() == rows,
        forall|i: int| 0 <= i < 32 ==> #[trigger] bit(fc, i) == (i < rows && bit(filled[i], c)),
        forall|i: int| 0 <= i < 32 ==> #[trigger] bit(kc, i) == (i < rows && bit(known[i], c)),
    ensures
        merge_conflict(fc, kc, cands, rows) == col_merge_conflict(filled, known, cands, c, rows),
{
    let ff = forced_full(cands, rows);
    let fe = forced_empty(cands, rows);
    assert forall|i: int|
        #![trigger bit(fc & fe, i)]
        0 <= i < 32 implies bit(fc & fe, i) == (bit(fc, i) && bit(fe, i)) by {
        lemma_bit_and(fc, fe, i);
    }
    assert forall|i: int|
        #![trigger bit((kc & !fc) & ff, i)]
        0 <= i < 32 implies bit((kc & !fc) & ff, i) == (bit(kc, i) && !bit(fc, i) && bit(
        ff,
        i,
    )) by {
        lemma_bit_not(fc, i);
        lemma_bit_and(kc, !fc, i);
        lemma_bit_and(kc & !fc, ff, i);
    }
    lemma_mask_nonzero(fc & fe);
    lemma_mask_nonzero((kc & !fc) & ff);
    if merge_conflict(fc, kc, cands, rows) {
        if fc & fe != 0 {
            let i = choose|i: int| 0 <= i < 32 && #[trigger] bit(fc & fe, i);
            assert(bit(filled[i], c) && bit(fe, i));
            assert(col_merge_conflict(filled, known, cands, c, rows));
        } else {
            let i = choose|i: int| 0 <= i < 32 && #[trigger] bit((kc & !fc) & ff, i);
            assert(bit(known[i], c) && !bit(filled[i], c) && bit(ff, i));
            assert(col_merge_conflict(filled, known, cands, c, rows));
        }
    }
    if col_merge_conflict(filled, known, cands, c, rows) {
        let r = choose|r: int|
            #![trigger bit(filled[r], c)]
            0 <= r < rows && ((bit(filled[r], c) && bit(fe, r)) || (bit(known[r], c) && !bit(
                filled[r],
                c,
            ) && bit(ff, r)));
        if bit(filled[r], c) && bit(fe, r) {
            assert(bit(fc & fe, r));
            assert(fc & fe != 0);
        } else {
            assert(bit((kc & !fc) & ff, r));
            assert((kc & !fc) & ff != 0);
        }
    }
}

/// Row `i` can absorb its consensus: candidates remain and no known bit
/// would flip.
pub open spec fn row_ok(b: Board, i: int) -> bool {
    b.row_candidates@[i]@.len() > 0 && !merge_conflict(
        b.filled@[i],
        b.known@[i],
        b.row_candidates@[i]@,
        b.cols(),
    )
}

/// Column `c` can absorb its consensus.
pub open spec fn col_ok(b: Board, c: int) -> bool {
    b.col_candidates@[c]@.len() > 0 && !col_merge_conflict(
        b.filled@,
        b.known@,
        b.col_candidates@[c]@,
        c,
        b.rows(),
    )
}

/// Some line of the board has run out of candidates or demands flipping an
/// already known cell.
pub open spec fn has_contradiction(b: Board) -> bool {
    (exists|i: int| 0 <= i < b.rows() && !#[trigger] row_ok(b, i)) || (exists|c: int|
        0 <= c < b.cols() && !#[trigger] col_ok(b, c))
}

/// Everything known in `a` is still known, the same way, in `b`: knowledge
/// only grows from `a` to `b`.
pub open spec fn keeps_knowledge(a: Board, b: Board) -> bool {
    forall|i: int|
        0 <= i < a.rows() ==> mask_le(#[trigger] a.filled@[i], b.filled@[i]) && mask_le(
            a.known@[i],
            b.known@[i],
        )
}

/// Every candidate of `b` was already a candidate of `a`: a discarded
/// candidate never comes back.
pub open spec fn keeps_candidates(a: Board, b: Board) -> bool {
    &&& forall|i: int, j: int|
        0 <= i < a.rows() && 0 <= j < b.row_candidates@[i]@.len() ==> a.row_candidates@[i]@.contains(
            #[trigger] b.row_candidates@[i]@[j],
        )
    &&& forall|c: int, j: int|
        0 <= c < a.cols() && 0 <= j < b.col_candidates@[c]@.len() ==> a.col_candidates@[c]@.contains(
            #[trigger] b.col_candidates@[c]@[j],
        )
}

proof fn lemma_contains_trans(a: Seq<u32>, b: Seq<u32>, x: u32)
    requires
        b.contains(x),
        forall|j: int| 0 <= j < b.len() ==> a.contains(#[trigger] b[j]),
    ensures
        a.contains(x),
{
    let t = choose|t: int| 0 <= t < b.len() && b[t] == x;
    assert(a.contains(b[t]));
}

/// Candidate shrinkage composes across passes.
proof fn lemma_keeps_candidates_trans(a: Board, b: Board, c: Board)
    requires
        a.rows() == b.rows(),
        a.cols() == b.cols(),
        keeps_candidates(a, b),
        keeps_candidates(b, c),
    ensures
        keeps_candidates(a, c),
{
    assert forall|i: int, j: int|
        0 <= i < a.rows() && 0 <= j < c.row_candidates@[i]@.len() implies a.row_candidates@[i]@.contains(
        #[trigger] c.row_candidates@[i]@[j],
    ) by {
        assert(b.row_candidates@[i]@.contains(c.row_candidates@[i]@[j]));
        lemma_contains_trans(
            a.row_candidates@[i]@,
            b.row_candidates@[i]@,
            c.row_candidates@[i]@[j],
        );
    }
    assert forall|c2: int, j: int|
        0 <= c2 < a.cols() && 0 <= j < c.col_candidates@[c2]@.len()
        implies a.col_candidates@[c2]@.contains(#[trigger] c.col_candidates@[c2]@[j]) by {
        assert(b.col_candidates@[c2]@.contains(c.col_candidates@[c2]@[j]));
        lemma_contains_trans(
            a.col_candidates@[c2]@,
            b.col_candidates@[c2]@,
            c.col_candidates@[c2]@[j],
        );
    }
}

/// A board keeps its own candidates.
proof fn lemma_keeps_candidates_refl(a: Board, b: Board)
    requires
        b.row_candidates == a.row_candidates,
        b.col_candidates == a.col_candidates,
    ensures
        keeps_candidates(a, b),
{
    assert forall|i: int, j: int|
        0 <= i < a.rows() && 0 <= j < b.row_candidates@[i]@.len() implies a.row_candidates@[i]@.contains(
        #[trigger] b.row_candidates@[i]@[j],
    ) by {
        assert(a.row_candidates@[i]@[j] == b.row_candidates@[i]@[j]);
    }
    assert forall|c: int, j: int|
        0 <= c < a.cols() && 0 <= j < b.col_candidates@[c]@.len() implies a.col_candidates@[c]@.contains(
        #[trigger] b.col_candidates@[c]@[j],
    ) by {
        assert(a.col_candidates@[c]@[j] == b.col_candidates@[c]@[j]);
    }
}

/// A candidate of `a` is only ever missing from `b` because it conflicts
/// with what `b` knows: everything still compatible with `b`'s knowledge
/// survives.
pub open spec fn drops_only_incompatible(a: Board, b: Board) -> bool {
    &&& forall|i: int, m: u32|
        0 <= i < a.rows() && #[trigger] a.row_candidates@[i]@.contains(m) && compat(
            m,
            b.filled@[i],
            b.known@[i],
        ) ==> b.row_candidates@[i]@.contains(m)
    &&& forall|c: int, m: u32|
        0 <= c < a.cols() && #[trigger] a.col_candidates@[c]@.contains(m) && compat_col(
            m,
            b.filled@,
            b.known@,
            c,
            a.rows(),
        ) ==> b.col_candidates@[c]@.contains(m)
}

/// The candidate sets hold every placement still compatible with what is
/// known of its line: nothing valid has ever been lost.
pub open spec fn candidates_complete(b: Board) -> bool {
    &&& forall|i: int, m: u32|
        0 <= i < b.rows() && #[trigger] is_placement(m, b.cols(), b.row_constraints@[i]@)
            && compat(m, b.filled@[i], b.known@[i]) ==> b.row_candidates@[i]@.contains(m)
    &&& forall|c: int, m: u32|
        0 <= c < b.cols() && #[trigger] is_placement(m, b.rows(), b.col_constraints@[c]@)
            && compat_col(m, b.filled@, b.known@, c, b.rows()) ==> b.col_candidates@[c]@.contains(
            m,
        )
}

/// `sol` is a full grid, one mask per row, that satisfies every row and
/// column constraint of `b` and agrees with every cell `b` already knows.
pub open spec fn is_solution(sol: Seq<u32>, b: Board) -> bool {
    &&& sol.len() == b.rows()
    &&& forall|r: int|
        0 <= r < b.rows() ==> is_placement(#[trigger] sol[r], b.cols(), b.row_constraints@[r]@)
    &&& forall|c: int|
        0 <= c < b.cols() ==> runs_of(col_seq(sol, c, b.rows())) == #[trigger] b.col_constraints@[c]@
    &&& forall|r: int|
        0 <= r < b.rows() ==> compat(#[trigger] sol[r], b.filled@[r], b.known@[r])
}

/// The column `c` of a solution, as a mask: one placement of that column's
/// constraint that agrees with everything the board knows.
proof fn lemma_solution_col_mask(sol: Seq<u32>, b: Board, c: int) -> (mc: u32)
    requires
        b.wf(),
        is_solution(sol, b),
        0 <= c < b.cols(),
    ensures
        mask_fits(mc, b.rows()),
        forall|r: int| 0 <= r < b.rows() ==> bit(mc, r) == bit(#[trigger] sol[r], c),
        is_placement(mc, b.rows(), b.col_constraints@[c]@),
        compat_col(mc, b.filled@, b.known@, c, b.rows()),
{
    let cs = col_seq(sol, c, b.rows());
    let mc = lemma_seq_to_mask(cs);
    assert forall|r: int| 0 <= r < b.rows() implies bit(mc, r) == bit(#[trigger] sol[r], c) by {
        assert(mask_seq(mc, b.rows())[r] == bit(mc, r));
        assert(cs[r] == bit(sol[r], c));
    }
    assert(mask_seq(mc, b.rows()) == cs);
    assert(is_placement(mc, b.rows(), b.col_constraints@[c]@));
    assert forall|r: int|
        0 <= r < b.rows() && #[trigger] bit(b.known@[r], c) implies bit(mc, r) == bit(
        b.filled@[r],
        c,
    ) by {
        assert(compat(sol[r], b.filled@[r], b.known@[r]));
    }
    mc
}

/// The cells of column `c`, read off the row-major filled masks.
pub open spec fn col_seq(filled: Seq<u32>, c: int, rows: int) -> Seq<bool> {
    Seq::new(rows as nat, |r: int| bit(filled[r], c))
}

/// A grid of filled masks satisfies the puzzle: every row's and every
/// column's filled cells read back as exactly its run-length constraint.
pub open spec fn spec_grid_ok(
    fs: Seq<u32>,
    rows: int,
    cols: int,
    rcons: Seq<Constraint>,
    ccons: Seq<Constraint>,
) -> bool {
    &&& forall|i: int|
        0 <= i < rows ==> runs_of(mask_seq(#[trigger] fs[i], cols)) == rcons[i]@
    &&& forall|c: int| 0 <= c < cols ==> runs_of(col_seq(fs, c, rows)) == (#[trigger] ccons[c])@
}

/// The board's filled grid satisfies the puzzle.
pub open spec fn grid_ok(b: Board) -> bool {
    spec_grid_ok(b.filled@, b.rows(), b.cols(), b.row_constraints@, b.col_constraints@)
}

/// The candidate sets of all lines, as plain sequences.
pub open spec fn cand_views(v: Seq<Vec<u32>>) -> Seq<Seq<u32>> {
    Seq::new(v.len(), |i: int| v[i]@)
}

/// The row filtering step of one pass, over the whole board.
pub open spec fn spec_filter_rows(rcs: Seq<Seq<u32>>, fs: Seq<u32>, ks: Seq<u32>) -> Seq<Seq<u32>> {
    Seq::new(rcs.len(), |i: int| filter_row(rcs[i], fs[i], ks[i]))
}

/// Every row still has a candidate and can absorb its consensus.
pub open spec fn spec_rows_ok(rcs: Seq<Seq<u32>>, fs: Seq<u32>, ks: Seq<u32>, cols: int) -> bool {
    forall|i: int|
        0 <= i < rcs.len() ==> (#[trigger] rcs[i]).len() > 0 && !merge_conflict(
            fs[i],
            ks[i],
            rcs[i],
            cols,
        )
}

/// The row merge step: every row's forced cells folded into `filled`.
pub open spec fn spec_merge_rows_filled(rcs: Seq<Seq<u32>>, fs: Seq<u32>, cols: int) -> Seq<u32> {
    Seq::new(fs.len(), |i: int| fs[i] | forced_full(rcs[i], cols))
}

/// The row merge step: every row's determined cells folded into `known`.
pub open spec fn spec_merge_rows_known(rcs: Seq<Seq<u32>>, ks: Seq<u32>, cols: int) -> Seq<u32> {
    Seq::new(ks.len(), |i: int| ks[i] | certain(rcs[i], cols))
}

/// The column filtering step of one pass, over the whole board.
pub open spec fn spec_filter_cols(ccs: Seq<Seq<u32>>, fs: Seq<u32>, ks: Seq<u32>, rows: int) -> Seq<
    Seq<u32>,
> {
    Seq::new(ccs.len(), |c: int| filter_col(ccs[c], fs, ks, c, rows))
}

/// Every column still has a candidate and can absorb its consensus.
pub open spec fn spec_cols_ok(ccs: Seq<Seq<u32>>, fs: Seq<u32>, ks: Seq<u32>, rows: int) -> bool {
    forall|c: int|
        0 <= c < ccs.len() ==> (#[trigger] ccs[c]).len() > 0 && !col_merge_conflict(
            fs,
            ks,
            ccs[c],
            c,
            rows,
        )
}

/// The cells of row `r` that the first `c` columns force full, as a mask.
pub open spec fn gather_forced(ccs: Seq<Seq<u32>>, rows: int, r: int, c: int) -> u32
    decreases c,
{
    if c <= 0 {
        0u32
    } else {
        gather_forced(ccs, rows, r, c - 1) | (if bit(forced_full(ccs[c - 1], rows), r) {
            1u32 << ((c - 1) as u32)
        } else {
            0u32
        })
    }
}

/// The cells of row `r` that the first `c` columns determine, as a mask.
pub open spec fn gather_certain(ccs: Seq<Seq<u32>>, rows: int, r: int, c: int) -> u32
    decreases c,
{
    if c <= 0 {
        0u32
    } else {
        gather_certain(ccs, rows, r, c - 1) | (if bit(certain(ccs[c - 1], rows), r) {
            1u32 << ((c - 1) as u32)
        } else {
            0u32
        })
    }
}

proof fn lemma_gather_forced_bit(ccs: Seq<Seq<u32>>, rows: int, r: int, c: int, t: int)
    requires
        0 <= c <= 32,
        0 <= t < 32,
    ensures
        bit(gather_forced(ccs, rows, r, c), t) == (t < c && bit(forced_full(ccs[t], rows), r)),
    decreases c,
{
    if c > 0 {
        lemma_gather_forced_bit(ccs, rows, r, c - 1, t);
        let prev = gather_forced(ccs, rows, r, c - 1);
        if bit(forced_full(ccs[c - 1], rows), r) {
            lemma_bit_set(prev, (c - 1) as u32, t);
        } else {
            lemma_bit_or(prev, 0u32, t);
            lemma_bit_zero(t);
        }
    } else {
        lemma_bit_zero(t);
    }
}

proof fn lemma_gather_certain_bit(ccs: Seq<Seq<u32>>, rows: int, r: int, c: int, t: int)
    requires
        0 <= c <= 32,
        0 <= t < 32,
    ensures
        bit(gather_certain(ccs, rows, r, c), t) == (t < c && bit(certain(ccs[t], rows), r)),
    decreases c,
{
    if c > 0 {
        lemma_gather_certain_bit(ccs, rows, r, c - 1, t);
        let prev = gather_certain(ccs, rows, r, c - 1);
        if bit(certain(ccs[c - 1], rows), r) {
            lemma_bit_set(prev, (c - 1) as u32, t);
        } else {
            lemma_bit_or(prev, 0u32, t);
            lemma_bit_zero(t);
        }
    } else {
        lemma_bit_zero(t);
    }
}

/// The column merge step: what the columns force, folded into each row mask.
pub open spec fn spec_merge_cols_filled(
    ccs: Seq<Seq<u32>>,
    fs: Seq<u32>,
    rows: int,
    cols: int,
) -> Seq<u32> {
    Seq::new(fs.len(), |r: int| fs[r] | gather_forced(ccs, rows, r, cols))
}

/// The column merge step: what the columns determine, folded into `known`.
pub open spec fn spec_merge_cols_known(
    ccs: Seq<Seq<u32>>,
    ks: Seq<u32>,
    rows: int,
    cols: int,
) -> Seq<u32> {
    Seq::new(ks.len(), |r: int| ks[r] | gather_certain(ccs, rows, r, cols))
}

/// The whole propagation run, at the specification level: alternating
/// filtered and merged row and column passes until an exit, exactly as
/// [`Board::solve`] runs them. The outcome is a function of the starting
/// state alone.
pub open spec fn spec_run(
    fs: Seq<u32>,
    ks: Seq<u32>,
    rcs: Seq<Seq<u32>>,
    ccs: Seq<Seq<u32>>,
    rows: int,
    cols: int,
    rcons: Seq<Constraint>,
    ccons: Seq<Constraint>,
) -> (Seq<u32>, Seq<u32>, Seq<Seq<u32>>, Seq<Seq<u32>>, Status)
    decreases (if unknown_in(ks, rows, cols) >= 0 {
        unknown_in(ks, rows, cols)
    } else {
        0
    }),
{
    let before = unknown_in(ks, rows, cols);
    let rcs1 = spec_filter_rows(rcs, fs, ks);
    if !spec_rows_ok(rcs1, fs, ks, cols) {
        (fs, ks, rcs1, ccs, Status::Contradiction)
    } else {
        let fs2 = spec_merge_rows_filled(rcs1, fs, cols);
        let ks2 = spec_merge_rows_known(rcs1, ks, cols);
        let ccs3 = spec_filter_cols(ccs, fs2, ks2, rows);
        if !spec_cols_ok(ccs3, fs2, ks2, rows) {
            (fs2, ks2, rcs1, ccs3, Status::Contradiction)
        } else {
            let fs4 = spec_merge_cols_filled(ccs3, fs2, rows, cols);
            let ks4 = spec_merge_cols_known(ccs3, ks2, rows, cols);
            let after = unknown_in(ks4, rows, cols);
            if after == 0 {
                if spec_grid_ok(fs4, rows, cols, rcons, ccons) {
                    (fs4, ks4, rcs1, ccs3, Status::Solved)
                } else {
                    (fs4, ks4, rcs1, ccs3, Status::Contradiction)
                }
            } else if 0 <= after && after < before {
                spec_run(fs4, ks4, rcs1, ccs3, rows, cols, rcons, ccons)
            } else {
                (fs4, ks4, rcs1, ccs3, Status::Stuck)
            }
        }
    }
}

/// The board is a fixed point of propagation: filtering any line against
/// the current knowledge removes nothing, and every line's consensus is
/// already absorbed into `filled` and `known` — a further full pass would
/// change nothing.
pub open spec fn is_fixed_point(b: Board) -> bool {
    &&& forall|i: int|
        0 <= i < b.rows() ==> #[trigger] filter_row(b.row_candidates@[i]@, b.filled@[i], b.known@[i])
            == b.row_candidates@[i]@
    &&& forall|c: int|
        0 <= c < b.cols() ==> #[trigger] filter_col(
            b.col_candidates@[c]@,
            b.filled@,
            b.known@,
            c,
            b.rows(),
        ) == b.col_candidates@[c]@
    &&& forall|i: int|
        0 <= i < b.rows() ==> mask_le(
            forced_full(#[trigger] b.row_candidates@[i]@, b.cols()),
            b.filled@[i],
        ) && mask_le(certain(b.row_candidates@[i]@, b.cols()), b.known@[i])
    &&& forall|r: int, c: int|
        #![trigger bit(forced_full(b.col_candidates@[c]@, b.rows()), r)]
        0 <= r < b.rows() && 0 <= c < b.cols() && bit(
            forced_full(b.col_candidates@[c]@, b.rows()),
            r,
        ) ==> bit(b.filled@[r], c)
    &&& forall|r: int, c: int|
        #![trigger bit(certain(b.col_candidates@[c]@, b.rows()), r)]
        0 <= r < b.rows() && 0 <= c < b.cols() && bit(
            certain(b.col_candidates@[c]@, b.rows()),
            r,
        ) ==> bit(b.known@[r], c)
}


/// A full row-and-column pass that leaves the number of unknown cells
/// unchanged has changed no mask at all and has reached a fixed point:
/// filtering and merging once more would change nothing.
proof fn lemma_no_progress_fixed_point(
    mid0: Board,
    mid1: Board,
    mid2: Board,
    mid3: Board,
    fin: Board,
)
    requires
        mid0.wf(),
        mid1.wf(),
        mid2.wf(),
        mid3.wf(),
        fin.wf(),
        mid1.dimensions == mid0.dimensions,
        mid2.dimensions == mid0.dimensions,
        mid3.dimensions == mid0.dimensions,
        fin.dimensions == mid0.dimensions,
        // row filtering left the masks alone
        mid1.filled == mid0.filled,
        mid1.known == mid0.known,
        mid1.col_candidates == mid0.col_candidates,
        forall|i: int|
            0 <= i < mid0.rows() ==> #[trigger] mid1.row_candidates@[i]@ == filter_row(
                mid0.row_candidates@[i]@,
                mid0.filled@[i],
                mid0.known@[i],
            ),
        // row merge, conflict-free
        mid2.row_candidates == mid1.row_candidates,
        mid2.col_candidates == mid1.col_candidates,
        forall|i: int| 0 <= i < mid1.rows() ==> #[trigger] row_ok(mid1, i),
        forall|i: int|
            #![trigger mid2.filled@[i]]
            #![trigger mid2.known@[i]]
            0 <= i < mid1.rows() ==> mid2.filled@[i] == (mid1.filled@[i] | forced_full(
                mid1.row_candidates@[i]@,
                mid1.cols(),
            )) && mid2.known@[i] == (mid1.known@[i] | certain(
                mid1.row_candidates@[i]@,
                mid1.cols(),
            )),
        // column filtering left the masks alone
        mid3.filled == mid2.filled,
        mid3.known == mid2.known,
        mid3.row_candidates == mid2.row_candidates,
        forall|c: int|
            0 <= c < mid2.cols() ==> #[trigger] mid3.col_candidates@[c]@ == filter_col(
                mid2.col_candidates@[c]@,
                mid2.filled@,
                mid2.known@,
                c,
                mid2.rows(),
            ),
        // column merge, conflict-free
        fin.row_candidates == mid3.row_candidates,
        fin.col_candidates == mid3.col_candidates,
        forall|c: int| 0 <= c < mid3.cols() ==> #[trigger] col_ok(mid3, c),
        forall|r: int, c: int|
            #![trigger bit(fin.filled@[r], c)]
            #![trigger bit(fin.known@[r], c)]
            0 <= r < mid3.rows() && 0 <= c < mid3.cols() ==> bit(fin.filled@[r], c) == (bit(
                mid3.filled@[r],
                c,
            ) || bit(forced_full(mid3.col_candidates@[c]@, mid3.rows()), r)) && bit(
                fin.known@[r],
                c,
            ) == (bit(mid3.known@[r], c) || bit(
                certain(mid3.col_candidates@[c]@, mid3.rows()),
                r,
            )),
        forall|r: int|
            0 <= r < mid3.rows() ==> mask_le(#[trigger] mid3.filled@[r], fin.filled@[r])
                && mask_le(mid3.known@[r], fin.known@[r]),
        // the pass pair learned nothing
        unknown_in(fin.known@, fin.rows(), fin.cols()) == unknown_in(
            mid0.known@,
            mid0.rows(),
            mid0.cols(),
        ),
    ensures
        is_fixed_point(fin),
        forall|r: int|
            0 <= r < mid0.rows() ==> #[trigger] fin.filled@[r] == mid0.filled@[r]
                && fin.known@[r] == mid0.known@[r],
{
    let rows = mid0.rows();
    let cols = mid0.cols();
    // knowledge grew monotonically over the pair
    assert forall|r: int|
        0 <= r < rows implies mask_le(#[trigger] mid0.known@[r], mid2.known@[r]) by {
        assert forall|t: int| bit(mid0.known@[r], t) implies bit(mid2.known@[r], t) by {
            lemma_bit_or(mid1.known@[r], certain(mid1.row_candidates@[r]@, cols), t);
        }
    }
    assert forall|r: int|
        0 <= r < rows implies mask_le(#[trigger] mid0.known@[r], fin.known@[r]) by {
        lemma_mask_le_trans(mid0.known@[r], mid2.known@[r], fin.known@[r]);
    }
    // ... yet the unknown count is unchanged, so `known` has not moved
    lemma_unknown_eq_rows(mid0.known@, fin.known@, rows, cols);
    assert forall|r: int|
        0 <= r < rows implies #[trigger] mid2.known@[r] == mid0.known@[r] by {
        assert(mask_le(mid2.known@[r], fin.known@[r]));
        assert(fin.known@[r] == mid0.known@[r]);
        lemma_mask_le_antisym(mid0.known@[r], mid2.known@[r]);
    }
    // the row merge added no filled bit: its forced cells were already known
    // in an unchanged `known`, and without a conflict a known forced cell was
    // already filled
    assert forall|r: int|
        0 <= r < rows implies #[trigger] mid2.filled@[r] == mid0.filled@[r] by {
        let cands = mid1.row_candidates@[r]@;
        let ff = forced_full(cands, cols);
        let ct = certain(cands, cols);
        let f = mid1.filled@[r];
        let k = mid1.known@[r];
        assert(row_ok(mid1, r));
        assert((k & !f) & ff == 0);
        assert forall|t: int| 0 <= t < 32 implies bit(mid2.filled@[r], t) == bit(f, t) by {
            lemma_bit_or(f, ff, t);
            if bit(ff, t) {
                lemma_bit_or(ff, forced_empty(cands, cols), t);
                lemma_bit_or(k, ct, t);
                assert(bit(mid2.known@[r], t));
                assert(bit(k, t));
                if !bit(f, t) {
                    lemma_bit_not(f, t);
                    lemma_bit_and(k, !f, t);
                    lemma_bit_and(k & !f, ff, t);
                    lemma_bit_zero(t);
                    assert(bit((k & !f) & ff, t));
                    assert(false);
                }
            }
        }
        lemma_mask_ext(mid2.filled@[r], f);
    }
    // the column merge added none either, for the same reason read columnwise
    assert forall|r: int|
        0 <= r < rows implies #[trigger] fin.filled@[r] == mid0.filled@[r] && fin.known@[r]
        == mid0.known@[r] by {
        assert forall|c: int|
            0 <= c < 32 implies bit(fin.filled@[r], c) == bit(mid3.filled@[r], c) by {
            if c < cols {
                let cands = mid3.col_candidates@[c]@;
                let ffc = forced_full(cands, rows);
                if bit(ffc, r) {
                    lemma_bit_or(ffc, forced_empty(cands, rows), r);
                    assert(bit(certain(cands, rows), r));
                    assert(bit(fin.known@[r], c));
                    assert(fin.known@[r] == mid0.known@[r]);
                    assert(mid3.known@[r] == mid2.known@[r]);
                    assert(bit(mid3.known@[r], c));
                    assert(col_ok(mid3, c));
                    if !bit(mid3.filled@[r], c) {
                        assert(col_merge_conflict(
                            mid3.filled@,
                            mid3.known@,
                            cands,
                            c,
                            rows,
                        ));
                        assert(false);
                    }
                }
            } else {
                assert(!bit(fin.filled@[r], c));
                assert(!bit(mid3.filled@[r], c));
            }
        }
        lemma_mask_ext(fin.filled@[r], mid3.filled@[r]);
        assert(mid3.filled@[r] == mid2.filled@[r]);
    }
    // the candidate sets are already filtered against the final masks
    assert forall|i: int|
        0 <= i < rows implies #[trigger] filter_row(
        fin.row_candidates@[i]@,
        fin.filled@[i],
        fin.known@[i],
    ) == fin.row_candidates@[i]@ by {
        assert(fin.row_candidates@[i]@ == filter_row(
            mid0.row_candidates@[i]@,
            mid0.filled@[i],
            mid0.known@[i],
        ));
        lemma_filter_row_all_compat(mid0.row_candidates@[i]@, mid0.filled@[i], mid0.known@[i]);
        assert(fin.filled@[i] == mid0.filled@[i]);
        assert(fin.known@[i] == mid0.known@[i]);
        lemma_filter_row_of_compat(fin.row_candidates@[i]@, fin.filled@[i], fin.known@[i]);
    }
    assert(mid2.filled@ =~= fin.filled@);
    assert(mid2.known@ =~= fin.known@);
    assert forall|c: int|
        0 <= c < cols implies #[trigger] filter_col(
        fin.col_candidates@[c]@,
        fin.filled@,
        fin.known@,
        c,
        rows,
    ) == fin.col_candidates@[c]@ by {
        assert(fin.col_candidates@[c]@ == filter_col(
            mid2.col_candidates@[c]@,
            mid2.filled@,
            mid2.known@,
            c,
            rows,
        ));
        lemma_filter_col_all_compat(mid2.col_candidates@[c]@, mid2.filled@, mid2.known@, c, rows);
        lemma_filter_col_of_compat(fin.col_candidates@[c]@, fin.filled@, fin.known@, c, rows);
    }
    // every consensus is already absorbed in the final masks
    assert forall|i: int|
        0 <= i < rows implies mask_le(
        forced_full(#[trigger] fin.row_candidates@[i]@, cols),
        fin.filled@[i],
    ) && mask_le(certain(fin.row_candidates@[i]@, cols), fin.known@[i]) by {
        let cands = fin.row_candidates@[i]@;
        assert(cands == mid1.row_candidates@[i]@);
        assert(mid2.filled@[i] == (mid1.filled@[i] | forced_full(cands, cols)));
        assert(mid2.known@[i] == (mid1.known@[i] | certain(cands, cols)));
        assert forall|t: int| bit(forced_full(cands, cols), t) implies bit(
            fin.filled@[i],
            t,
        ) by {
            lemma_bit_or(mid1.filled@[i], forced_full(cands, cols), t);
            assert(bit(mid2.filled@[i], t));
        }
        assert forall|t: int| bit(certain(cands, cols), t) implies bit(fin.known@[i], t) by {
            lemma_bit_or(mid1.known@[i], certain(cands, cols), t);
            assert(bit(mid2.known@[i], t));
        }
    }
    assert forall|r: int, c: int|
        #![trigger bit(forced_full(fin.col_candidates@[c]@, rows), r)]
        0 <= r < rows && 0 <= c < cols && bit(
            forced_full(fin.col_candidates@[c]@, rows),
            r,
        ) implies bit(fin.filled@[r], c) by {
        assert(fin.col_candidates@[c]@ == mid3.col_candidates@[c]@);
        assert(bit(fin.filled@[r], c) == (bit(mid3.filled@[r], c) || bit(
            forced_full(mid3.col_candidates@[c]@, rows),
            r,
        )));
    }
    assert forall|r: int, c: int|
        #![trigger bit(certain(fin.col_candidates@[c]@, rows), r)]
        0 <= r < rows && 0 <= c < cols && bit(
            certain(fin.col_candidates@[c]@, rows),
            r,
        ) implies bit(fin.known@[r], c) by {
        assert(fin.col_candidates@[c]@ == mid3.col_candidates@[c]@);
        assert(bit(fin.known@[r], c) == (bit(mid3.known@[r], c) || bit(
            certain(mid3.col_candidates@[c]@, rows),
            r,
        )));
    }
}

/// A line still holding one of a solution's rows cannot fail: its candidate
/// set is nonempty and its consensus flips nothing known.
proof fn lemma_solution_row_ok(solr: u32, b: Board, i: int)
    requires
        b.wf(),
        0 <= i < b.rows(),
        b.row_candidates@[i]@.contains(solr),
        compat(solr, b.filled@[i], b.known@[i]),
    ensures
        row_ok(b, i),
{
    let cands = b.row_candidates@[i]@;
    let f = b.filled@[i];
    let k = b.known@[i];
    let cols = b.cols();
    let j0 = choose|j: int| 0 <= j < cands.len() && cands[j] == solr;
    assert(cands.len() > 0);
    if (f & forced_empty(cands, cols)) != 0 {
        lemma_mask_nonzero(f & forced_empty(cands, cols));
        let t = choose|t: int| 0 <= t < 32 && #[trigger] bit(f & forced_empty(cands, cols), t);
        lemma_bit_and(f, forced_empty(cands, cols), t);
        lemma_consensus_bits(cands, cols, t);
        assert(!bit(cands[j0], t));
        assert(mask_le(f, k));
        assert(bit(k, t));
        assert(bit(solr, t) == bit(f, t));
        assert(false);
    }
    if ((k & !f) & forced_full(cands, cols)) != 0 {
        lemma_mask_nonzero((k & !f) & forced_full(cands, cols));
        let t = choose|t: int|
            0 <= t < 32 && #[trigger] bit((k & !f) & forced_full(cands, cols), t);
        lemma_bit_and(k & !f, forced_full(cands, cols), t);
        lemma_bit_and(k, !f, t);
        lemma_bit_not(f, t);
        lemma_consensus_bits(cands, cols, t);
        assert(bit(cands[j0], t));
        assert(bit(solr, t) == bit(f, t));
        assert(false);
    }
}

/// A column still holding one of a solution's columns cannot fail either.
proof fn lemma_solution_col_ok(mc: u32, b: Board, c: int)
    requires
        b.wf(),
        0 <= c < b.cols(),
        b.col_candidates@[c]@.contains(mc),
        compat_col(mc, b.filled@, b.known@, c, b.rows()),
    ensures
        col_ok(b, c),
{
    let cands = b.col_candidates@[c]@;
    let rows = b.rows();
    let j0 = choose|j: int| 0 <= j < cands.len() && cands[j] == mc;
    assert(cands.len() > 0);
    if col_merge_conflict(b.filled@, b.known@, cands, c, rows) {
        let r = choose|r: int|
            #![trigger bit(b.filled@[r], c)]
            0 <= r < rows && ((bit(b.filled@[r], c) && bit(forced_empty(cands, rows), r)) || (bit(
                b.known@[r],
                c,
            ) && !bit(b.filled@[r], c) && bit(forced_full(cands, rows), r)));
        lemma_consensus_bits(cands, rows, r);
        if bit(b.filled@[r], c) && bit(forced_empty(cands, rows), r) {
            assert(!bit(cands[j0], r));
            assert(mask_le(b.filled@[r], b.known@[r]));
            assert(bit(b.known@[r], c));
            assert(bit(mc, r) == bit(b.filled@[r], c));
            assert(false);
        } else {
            assert(bit(cands[j0], r));
            assert(bit(mc, r) == bit(b.filled@[r], c));
            assert(false);
        }
    }
}

/// A fully known board that a solution still agrees with carries exactly
/// that solution, so its grid satisfies every constraint.
proof fn lemma_solution_grid_ok(sol: Seq<u32>, b: Board)
    requires
        b.wf(),
        is_solution(sol, b),
        b.all_known(),
    ensures
        grid_ok(b),
{
    assert forall|r: int| 0 <= r < b.rows() implies #[trigger] b.filled@[r] == sol[r] by {
        assert(compat(sol[r], b.filled@[r], b.known@[r]));
        assert(is_placement(sol[r], b.cols(), b.row_constraints@[r]@));
        assert forall|t: int| 0 <= t < 32 implies bit(b.filled@[r], t) == bit(sol[r], t) by {
            if t < b.cols() {
                assert(bit(b.known@[r], t));
            } else {
                assert(!bit(b.filled@[r], t));
                assert(!bit(sol[r], t));
            }
        }
        lemma_mask_ext(b.filled@[r], sol[r]);
    }
    assert forall|c: int|
        0 <= c < b.cols() implies runs_of(col_seq(b.filled@, c, b.rows()))
        == #[trigger] b.col_constraints@[c]@ by {
        assert(col_seq(b.filled@, c, b.rows()) =~= col_seq(sol, c, b.rows()));
    }
}

/// Cells still unknown in the first `upto` rows, each row having `cols`
/// cells.
pub open spec fn unknown_in(known: Seq<u32>, upto: int, cols: int) -> int
    decreases upto,
{
    if upto <= 0 {
        0
    } else {
        unknown_in(known, upto - 1, cols) + (cols - count_bits_upto(known[upto - 1], cols))
    }
}

pub proof fn lemma_unknown_in_bounds(known: Seq<u32>, upto: int, cols: int)
    requires
        upto >= 0,
        cols >= 0,
    ensures
        0 <= unknown_in(known, upto, cols) <= upto * cols,
    decreases upto,
{
    if upto > 0 {
        lemma_unknown_in_bounds(known, upto - 1, cols);
        lemma_count_bound(known[upto - 1], cols);
        assert((upto - 1) * cols + cols == upto * cols) by (nonlinear_arith);
    }
}

/// No unknown cell is left exactly when every bit of every row is known.
pub proof fn lemma_unknown_in_zero(known: Seq<u32>, upto: int, cols: int)
    requires
        upto >= 0,
        cols >= 0,
    ensures
        (unknown_in(known, upto, cols) == 0) <==> (forall|r: int, c: int|
            #![trigger bit(known[r], c)]
            0 <= r < upto && 0 <= c < cols ==> bit(known[r], c)),
    decreases upto,
{
    if upto > 0 {
        lemma_unknown_in_zero(known, upto - 1, cols);
        lemma_unknown_in_bounds(known, upto - 1, cols);
        lemma_count_bound(known[upto - 1], cols);
        lemma_count_full(known[upto - 1], cols);
        if unknown_in(known, upto, cols) == 0 {
            assert forall|r: int, c: int|
                #![trigger bit(known[r], c)]
                0 <= r < upto && 0 <= c < cols implies bit(known[r], c) by {
                if r < upto - 1 {
                } else {
                    assert(count_bits_upto(known[upto - 1], cols) == cols);
                }
            }
        }
    }
}

/// Known bits only growing means the unknown count cannot grow.
pub proof fn lemma_unknown_in_mono(k1: Seq<u32>, k2: Seq<u32>, upto: int, cols: int)
    requires
        upto >= 0,
        0 <= cols <= 32,
        forall|r: int| 0 <= r < upto ==> mask_le(#[trigger] k1[r], k2[r]),
    ensures
        unknown_in(k2, upto, cols) <= unknown_in(k1, upto, cols),
    decreases upto,
{
    if upto > 0 {
        lemma_unknown_in_mono(k1, k2, upto - 1, cols);
        assert(mask_le(k1[upto - 1], k2[upto - 1]));
        lemma_count_le(k1[upto - 1], k2[upto - 1], cols);
    }
}

/// Known bits that only grow while the unknown count stays put have not
/// moved at all.
proof fn lemma_unknown_eq_rows(k1: Seq<u32>, k2: Seq<u32>, upto: int, cols: int)
    requires
        upto >= 0,
        0 <= cols <= 32,
        forall|r: int| 0 <= r < upto ==> mask_le(#[trigger] k1[r], k2[r]),
        forall|r: int| 0 <= r < upto ==> mask_fits(#[trigger] k1[r], cols),
        forall|r: int| 0 <= r < upto ==> mask_fits(#[trigger] k2[r], cols),
        unknown_in(k1, upto, cols) == unknown_in(k2, upto, cols),
    ensures
        forall|r: int| 0 <= r < upto ==> #[trigger] k1[r] == k2[r],
    decreases upto,
{
    if upto > 0 {
        lemma_unknown_in_mono(k1, k2, upto - 1, cols);
        lemma_count_le(k1[upto - 1], k2[upto - 1], cols);
        assert(unknown_in(k1, upto - 1, cols) == unknown_in(k2, upto - 1, cols));
        lemma_unknown_eq_rows(k1, k2, upto - 1, cols);
        lemma_count_eq_mask(k1[upto - 1], k2[upto - 1], cols);
    }
}

/// The outcome of solving: the terminal status and the final global
/// knowledge, one `filled` and one `known` mask per row.
pub struct SolveResult {
    pub status: Status,
    pub filled: Vec<u32>,
    pub known: Vec<u32>,
}

/// The full solver state.
pub struct Board {
    pub dimensions: Dimensions,
    pub row_constraints: Vec<Constraint>,
    pub col_constraints: Vec<Constraint>,
    pub row_candidates: Vec<Vec<u32>>,
    pub col_candidates: Vec<Vec<u32>>,
    pub filled: Vec<u32>,
    pub known: Vec<u32>,
}

impl Board {
    pub open spec fn rows(&self) -> int {
        self.dimensions.num_rows as int
    }

    pub open spec fn cols(&self) -> int {
        self.dimensions.num_cols as int
    }

    /// Structural well-formedness: sides within the mask width, one mask and
    /// one candidate set per line, every mask within its line length, and
    /// every filled cell also known.
    pub open spec fn wf(&self) -> bool {
        &&& 1 <= self.rows() <= 32
        &&& 1 <= self.cols() <= 32
        &&& self.filled@.len() == self.rows()
        &&& self.known@.len() == self.rows()
        &&& forall|r: int|
            0 <= r < self.rows() ==> mask_fits(#[trigger] self.filled@[r], self.cols())
        &&& forall|r: int|
            0 <= r < self.rows() ==> mask_fits(#[trigger] self.known@[r], self.cols())
        &&& forall|r: int|
            0 <= r < self.rows() ==> mask_le(#[trigger] self.filled@[r], self.known@[r])
        &&& self.row_constraints@.len() == self.rows()
        &&& self.col_constraints@.len() == self.cols()
        &&& self.row_candidates@.len() == self.rows()
        &&& self.col_candidates@.len() == self.cols()
        &&& forall|i: int, j: int|
            0 <= i < self.rows() && 0 <= j < self.row_candidates@[i]@.len() ==> mask_fits(
                #[trigger] self.row_candidates@[i]@[j],
                self.cols(),
            )
        &&& forall|i: int, j: int|
            0 <= i < self.cols() && 0 <= j < self.col_candidates@[i]@.len() ==> mask_fits(
                #[trigger] self.col_candidates@[i]@[j],
                self.rows(),
            )
    }

    /// Every cell of the board is determined.
    pub open spec fn all_known(&self) -> bool {
        forall|r: int, c: int|
            #![trigger bit(self.known@[r], c)]
            0 <= r < self.rows() && 0 <= c < self.cols() ==> bit(self.known@[r], c)
    }

    /// What is known of the cell in row `r`, column `c`.
    pub open spec fn cell_at(&self, r: int, c: int) -> CellState {
        if !bit(self.known@[r], c) {
            CellState::Unknown
        } else if bit(self.filled@[r], c) {
            CellState::Full
        } else {
            CellState::Empty
        }
    }

    /// Number of cells not yet determined.
    pub open spec fn spec_num_unknown(&self) -> int {
        unknown_in(self.known@, self.rows(), self.cols())
    }

    /// Builds a board from its constraints: validates the dimensions and the
    /// constraint counts, then generates every line's full initial candidate
    /// set; the global state starts fully unknown.
    pub fn new(constraints: Constraints, dimensions: Dimensions) -> (r: Result<Board, BoardError>)
        requires
            constraints.wf(),
        ensures
            r is Err <==> (dimensions.num_rows < 1 || dimensions.num_rows > 32
                || dimensions.num_cols < 1 || dimensions.num_cols > 32 || constraints.rows@.len()
                != dimensions.num_rows || constraints.cols@.len() != dimensions.num_cols),
            (dimensions.num_rows < 1 || dimensions.num_rows > 32 || dimensions.num_cols < 1
                || dimensions.num_cols > 32) ==> r == Err::<Board, BoardError>(
                BoardError::DimensionOverflow,
            ),
            (r is Err && !(dimensions.num_rows < 1 || dimensions.num_rows > 32
                || dimensions.num_cols < 1 || dimensions.num_cols > 32)) ==> r == Err::<
                Board,
                BoardError,
            >(BoardError::ConstraintCountMismatch),
            r is Ok ==> {
                let b = r.unwrap();
                &&& b.wf()
                &&& b.dimensions == dimensions
                &&& b.row_constraints@ == constraints.rows@
                &&& b.col_constraints@ == constraints.cols@
                &&& forall|i: int| 0 <= i < b.rows() ==> #[trigger] b.filled@[i] == 0u32
                &&& forall|i: int| 0 <= i < b.rows() ==> #[trigger] b.known@[i] == 0u32
                &&& forall|i: int, j: int|
                    0 <= i < b.rows() && 0 <= j < b.row_candidates@[i]@.len() ==> is_placement(
                        #[trigger] b.row_candidates@[i]@[j],
                        b.cols(),
                        constraints.rows@[i]@,
                    )
                &&& forall|i: int, m: u32|
                    0 <= i < b.rows() && #[trigger] is_placement(m, b.cols(), constraints.rows@[i]@)
                        ==> b.row_candidates@[i]@.contains(m)
                &&& forall|i: int, j: int|
                    0 <= i < b.cols() && 0 <= j < b.col_candidates@[i]@.len() ==> is_placement(
                        #[trigger] b.col_candidates@[i]@[j],
                        b.rows(),
                        constraints.cols@[i]@,
                    )
                &&& forall|i: int, m: u32|
                    0 <= i < b.cols() && #[trigger] is_placement(m, b.rows(), constraints.cols@[i]@)
                        ==> b.col_candidates@[i]@.contains(m)
                &&& forall|i: int, j1: int, j2: int|
                    #![trigger b.row_candidates@[i]@[j1], b.row_candidates@[i]@[j2]]
                    0 <= i < b.rows() && 0 <= j1 < j2 < b.row_candidates@[i]@.len()
                        ==> b.row_candidates@[i]@[j1] != b.row_candidates@[i]@[j2]
                &&& forall|i: int, j1: int, j2: int|
                    #![trigger b.col_candidates@[i]@[j1], b.col_candidates@[i]@[j2]]
                    0 <= i < b.cols() && 0 <= j1 < j2 < b.col_candidates@[i]@.len()
                        ==> b.col_candidates@[i]@[j1] != b.col_candidates@[i]@[j2]
                &&& candidates_complete(b)
            },
    {
        let num_rows = dimensions.num_rows;
        let num_cols = dimensions.num_cols;
        if num_rows < 1 || num_rows > BIT_WIDTH || num_cols < 1 || num_cols > BIT_WIDTH {
            return Err(BoardError::DimensionOverflow);
        }
        if constraints.rows.len() != num_rows || constraints.cols.len() != num_cols {
            return Err(BoardError::ConstraintCountMismatch);
        }
        let mut row_candidates: Vec<Vec<u32>> = Vec::new();
        for i in 0..num_rows
            invariant
                num_rows == constraints.rows@.len(),
                num_cols <= 32,
                constraints.wf(),
                row_candidates@.len() == i,
                forall|x: int, j: int|
                    0 <= x < i && 0 <= j < row_candidates@[x]@.len() ==> is_placement(
                        #[trigger] row_candidates@[x]@[j],
                        num_cols as int,
                        constraints.rows@[x]@,
                    ),
                forall|x: int, m: u32|
                    0 <= x < i && #[trigger] is_placement(m, num_cols as int, constraints.rows@[x]@)
                        ==> row_candidates@[x]@.contains(m),
                forall|x: int, j1: int, j2: int|
                    #![trigger row_candidates@[x]@[j1], row_candidates@[x]@[j2]]
                    0 <= x < i && 0 <= j1 < j2 < row_candidates@[x]@.len()
                        ==> row_candidates@[x]@[j1] != row_candidates@[x]@[j2],
        {
            let cands = generate(num_cols, &constraints.rows[i]);
            row_candidates.push(cands);
        }
        let mut col_candidates: Vec<Vec<u32>> = Vec::new();
        for i in 0..num_cols
            invariant
                num_cols == constraints.cols@.len(),
                num_rows <= 32,
                constraints.wf(),
                col_candidates@.len() == i,
                forall|x: int, j: int|
                    0 <= x < i && 0 <= j < col_candidates@[x]@.len() ==> is_placement(
                        #[trigger] col_candidates@[x]@[j],
                        num_rows as int,
                        constraints.cols@[x]@,
                    ),
                forall|x: int, m: u32|
                    0 <= x < i && #[trigger] is_placement(m, num_rows as int, constraints.cols@[x]@)
                        ==> col_candidates@[x]@.contains(m),
                forall|x: int, j1: int, j2: int|
                    #![trigger col_candidates@[x]@[j1], col_candidates@[x]@[j2]]
                    0 <= x < i && 0 <= j1 < j2 < col_candidates@[x]@.len()
                        ==> col_candidates@[x]@[j1] != col_candidates@[x]@[j2],
        {
            let cands = generate(num_rows, &constraints.cols[i]);
            col_candidates.push(cands);
        }
        let filled: Vec<u32> = vec![0u32; num_rows];
        let known: Vec<u32> = vec![0u32; num_rows];
        let b = Board {
            dimensions,
            row_constraints: constraints.rows,
            col_constraints: constraints.cols,
            row_candidates,
            col_candidates,
            filled,
            known,
        };
        proof {
            assert forall|i: int| 0 <= i < 32 implies !bit(0u32, i) by {
                lemma_bit_zero(i);
            }
            assert(b.wf());
        }
        Ok(b)
    }

    /// Counts the cells whose state is not yet determined.
    pub fn num_unknown(&self) -> (r: usize)
        requires
            self.wf(),
        ensures
            r == self.spec_num_unknown(),
    {
        let rows = self.dimensions.num_rows;
        let cols = self.dimensions.num_cols;
        let mut t: usize = 0;
        for i in 0..rows
            invariant
                self.wf(),
                rows == self.dimensions.num_rows,
                cols == self.dimensions.num_cols,
                t == unknown_in(self.known@, i as int, cols as int),
                t <= i * 32,
        {
            let cnt = count_bits(self.known[i], cols);
            t = t + (cols - cnt);
        }
        t
    }

    /// True iff every cell is determined.
    pub fn is_solved(&self) -> (r: bool)
        requires
            self.wf(),
        ensures
            r == (self.spec_num_unknown() == 0),
            r == self.all_known(),
    {
        let r = self.num_unknown() == 0;
        proof {
            lemma_unknown_in_zero(self.known@, self.rows(), self.cols());
        }
        r
    }

    /// The per-cell view of row `idx` (over the columns) or of column `idx`
    /// (over the rows).
    pub fn to_line(&self, idx: usize, is_row: bool) -> (r: Line)
        requires
            self.wf(),
            is_row ==> idx < self.rows(),
            !is_row ==> idx < self.cols(),
        ensures
            is_row ==> r@.len() == self.cols() && forall|c: int|
                0 <= c < self.cols() ==> r@[c] == self.cell_at(idx as int, c),
            !is_row ==> r@.len() == self.rows() && forall|rr: int|
                0 <= rr < self.rows() ==> r@[rr] == self.cell_at(rr, idx as int),
    {
        let mut cells: Vec<CellState> = Vec::new();
        if is_row {
            let cols = self.dimensions.num_cols;
            let f = self.filled[idx];
            let k = self.known[idx];
            for c in 0..cols
                invariant
                    self.wf(),
                    idx < self.rows(),
                    cols == self.dimensions.num_cols,
                    f == self.filled@[idx as int],
                    k == self.known@[idx as int],
                    cells@.len() == c,
                    forall|j: int| 0 <= j < c ==> cells@[j] == self.cell_at(idx as int, j),
            {
                let cell = if !get_bit(k, c) {
                    CellState::Unknown
                } else if get_bit(f, c) {
                    CellState::Full
                } else {
                    CellState::Empty
                };
                cells.push(cell);
            }
        } else {
            let rows = self.dimensions.num_rows;
            for rr in 0..rows
                invariant
                    self.wf(),
                    idx < self.cols(),
                    rows == self.dimensions.num_rows,
                    cells@.len() == rr,
                    forall|j: int| 0 <= j < rr ==> cells@[j] == self.cell_at(j, idx as int),
            {
                let f = self.filled[rr];
                let k = self.known[rr];
                let cell = if !get_bit(k, idx) {
                    CellState::Unknown
                } else if get_bit(f, idx) {
                    CellState::Full
                } else {
                    CellState::Empty
                };
                cells.push(cell);
            }
        }
        Line::new(cells)
    }

    /// The characters row `r` is drawn as.
    pub open spec fn row_chars(&self, r: int) -> Seq<char> {
        Seq::new(self.cols() as nat, |c: int| self.cell_at(r, c).symbol())
    }

    /// The rendering of the board from row `r` on: each row's characters
    /// followed by a newline, and one closing newline.
    pub open spec fn render_from(&self, r: int) -> Seq<char>
        decreases self.rows() - r,
    {
        if r >= self.rows() {
            seq!['\n']
        } else {
            self.row_chars(r) + seq!['\n'] + self.render_from(r + 1)
        }
    }

    /// Draws the whole board, one line of symbols per row, with a blank
    /// line at the end.
    pub fn to_string(&self) -> (r: String)
        requires
            self.wf(),
        ensures
            r@ == self.render_from(0),
    {
        let rows = self.dimensions.num_rows;
        let cols = self.dimensions.num_cols;
        let mut s = String::from_str("");
        proof {
            reveal_strlit("");
            assert(s@ + self.render_from(0) =~= self.render_from(0));
        }
        for rr in 0..rows
            invariant
                self.wf(),
                rows == self.dimensions.num_rows,
                cols == self.dimensions.num_cols,
                s@ + self.render_from(rr as int) == self.render_from(0),
        {
            let line = self.to_line(rr, true);
            let t = line.to_string();
            let ghost s0 = s@;
            s.append(t.as_str());
            s.append("\n");
            proof {
                reveal_strlit("\n");
                assert(crate::model::line_chars(line@) =~= self.row_chars(rr as int));
                assert(s@ =~= s0 + self.row_chars(rr as int) + seq!['\n']);
                assert(self.render_from(rr as int) == self.row_chars(rr as int) + seq!['\n']
                    + self.render_from(rr + 1));
                assert(s@ + self.render_from(rr + 1) =~= s0 + self.render_from(rr as int));
            }
        }
        s.append("\n");
        proof {
            reveal_strlit("\n");
            assert(self.render_from(rows as int) =~= seq!['\n']);
            assert(s@ =~= self.render_from(0));
        }
        s
    }

    /// Filters every line of one orientation: a candidate survives exactly
    /// when it agrees with each cell of that line already known. Discarded
    /// candidates are gone for good.
    pub fn update_candidates(&mut self, is_row: bool)
        requires
            old(self).wf(),
        ensures
            final(self).wf(),
            final(self).dimensions == old(self).dimensions,
            final(self).row_constraints == old(self).row_constraints,
            final(self).col_constraints == old(self).col_constraints,
            final(self).filled == old(self).filled,
            final(self).known == old(self).known,
            is_row ==> final(self).col_candidates == old(self).col_candidates,
            is_row ==> final(self).row_candidates@.len() == old(self).row_candidates@.len()
                && forall|i: int|
                0 <= i < old(self).rows() ==> #[trigger] final(self).row_candidates@[i]@
                    == filter_row(
                    old(self).row_candidates@[i]@,
                    old(self).filled@[i],
                    old(self).known@[i],
                ),
            !is_row ==> final(self).row_candidates == old(self).row_candidates,
            !is_row ==> final(self).col_candidates@.len() == old(self).col_candidates@.len()
                && forall|c: int|
                0 <= c < old(self).cols() ==> #[trigger] final(self).col_candidates@[c]@
                    == filter_col(
                    old(self).col_candidates@[c]@,
                    old(self).filled@,
                    old(self).known@,
                    c,
                    old(self).rows(),
                ),
            is_row ==> forall|i: int, j: int|
                0 <= i < old(self).rows() && 0 <= j < final(self).row_candidates@[i]@.len()
                    ==> old(self).row_candidates@[i]@.contains(
                    #[trigger] final(self).row_candidates@[i]@[j],
                ),
            !is_row ==> forall|c: int, j: int|
                0 <= c < old(self).cols() && 0 <= j < final(self).col_candidates@[c]@.len()
                    ==> old(self).col_candidates@[c]@.contains(
                    #[trigger] final(self).col_candidates@[c]@[j],
                ),
    {
        if is_row {
            let rows = self.dimensions.num_rows;
            for i in 0..rows
                invariant
                    self.wf(),
                    rows == self.dimensions.num_rows,
                    self.dimensions == old(self).dimensions,
                    self.row_constraints == old(self).row_constraints,
                    self.col_constraints == old(self).col_constraints,
                    self.filled == old(self).filled,
                    self.known == old(self).known,
                    self.col_candidates == old(self).col_candidates,
                    self.row_candidates@.len() == old(self).row_candidates@.len(),
                    forall|x: int|
                        0 <= x < i ==> #[trigger] self.row_candidates@[x]@ == filter_row(
                            old(self).row_candidates@[x]@,
                            old(self).filled@[x],
                            old(self).known@[x],
                        ),
                    forall|x: int|
                        i <= x < rows ==> #[trigger] self.row_candidates@[x]
                            == old(self).row_candidates@[x],
            {
                let f = self.filled[i];
                let k = self.known[i];
                let nc = filter_candidates(&self.row_candidates[i], f, k);
                proof {
                    lemma_filter_row_fits(self.row_candidates@[i as int]@, f, k, self.cols());
                }
                self.row_candidates.set(i, nc);
            }
            proof {
                assert forall|i: int, j: int|
                    0 <= i < old(self).rows() && 0 <= j < self.row_candidates@[i]@.len()
                    implies old(self).row_candidates@[i]@.contains(
                    #[trigger] self.row_candidates@[i]@[j],
                ) by {
                    lemma_filter_row_subset(
                        old(self).row_candidates@[i]@,
                        old(self).filled@[i],
                        old(self).known@[i],
                    );
                }
            }
        } else {
            let rows = self.dimensions.num_rows;
            let cols = self.dimensions.num_cols;
            let tf = col_views(&self.filled);
            let tk = col_views(&self.known);
            for c in 0..cols
                invariant
                    self.wf(),
                    rows == self.dimensions.num_rows,
                    cols == self.dimensions.num_cols,
                    self.dimensions == old(self).dimensions,
                    self.row_constraints == old(self).row_constraints,
                    self.col_constraints == old(self).col_constraints,
                    self.filled == old(self).filled,
                    self.known == old(self).known,
                    self.row_candidates == old(self).row_candidates,
                    self.col_candidates@.len() == old(self).col_candidates@.len(),
                    tf@.len() == 32,
                    tk@.len() == 32,
                    forall|c2: int, i: int|
                        #![trigger bit(tf@[c2], i)]
                        0 <= c2 < 32 && 0 <= i < 32 ==> bit(tf@[c2], i) == (i < rows && bit(
                            self.filled@[i],
                            c2,
                        )),
                    forall|c2: int, i: int|
                        #![trigger bit(tk@[c2], i)]
                        0 <= c2 < 32 && 0 <= i < 32 ==> bit(tk@[c2], i) == (i < rows && bit(
                            self.known@[i],
                            c2,
                        )),
                    forall|x: int|
                        0 <= x < c ==> #[trigger] self.col_candidates@[x]@ == filter_col(
                            old(self).col_candidates@[x]@,
                            old(self).filled@,
                            old(self).known@,
                            x,
                            old(self).rows(),
                        ),
                    forall|x: int|
                        c <= x < cols ==> #[trigger] self.col_candidates@[x]
                            == old(self).col_candidates@[x],
            {
                let fc = tf[c];
                let kc = tk[c];
                let nc = filter_candidates(&self.col_candidates[c], fc, kc);
                proof {
                    assert forall|cand: u32| #[trigger]
                        compat(cand, fc, kc) == compat_col(
                        cand,
                        self.filled@,
                        self.known@,
                        c as int,
                        rows as int,
                    ) by {
                        if compat(cand, fc, kc) {
                            assert forall|r: int|
                                0 <= r < rows as int && #[trigger] bit(self.known@[r], c as int)
                                    implies bit(cand, r) == bit(self.filled@[r], c as int) by {
                                assert(bit(tk@[c as int], r));
                                assert(bit(tf@[c as int], r) == bit(self.filled@[r], c as int));
                            }
                        }
                        if compat_col(cand, self.filled@, self.known@, c as int, rows as int) {
                            assert forall|i: int|
                                0 <= i < 32 && #[trigger] bit(kc, i) implies bit(cand, i) == bit(
                                fc,
                                i,
                            ) by {
                                assert(i < rows && bit(self.known@[i], c as int));
                                assert(bit(tf@[c as int], i) == bit(self.filled@[i], c as int));
                            }
                        }
                    }
                    lemma_filter_row_col(
                        self.col_candidates@[c as int]@,
                        fc,
                        kc,
                        self.filled@,
                        self.known@,
                        c as int,
                        rows as int,
                    );
                    lemma_filter_col_fits(
                        self.col_candidates@[c as int]@,
                        self.filled@,
                        self.known@,
                        c as int,
                        rows as int,
                        self.rows(),
                    );
                }
                self.col_candidates.set(c, nc);
            }
            proof {
                assert forall|c: int, j: int|
                    0 <= c < old(self).cols() && 0 <= j < self.col_candidates@[c]@.len()
                    implies old(self).col_candidates@[c]@.contains(
                    #[trigger] self.col_candidates@[c]@[j],
                ) by {
                    lemma_filter_col_subset(
                        old(self).col_candidates@[c]@,
                        old(self).filled@,
                        old(self).known@,
                        c,
                        old(self).rows(),
                    );
                }
            }
        }
    }

    /// Row phase of the merge step: consensus of every row's candidates
    /// folded into the global state.
    #[verifier::rlimit(60)]
    #[verifier::spinoff_prover]
    fn merge_rows(&mut self) -> (ok: bool)
        requires
            old(self).wf(),
        ensures
            final(self).wf(),
            final(self).dimensions == old(self).dimensions,
            final(self).row_constraints == old(self).row_constraints,
            final(self).col_constraints == old(self).col_constraints,
            final(self).row_candidates == old(self).row_candidates,
            final(self).col_candidates == old(self).col_candidates,
            ok <==> forall|i: int|
                0 <= i < old(self).rows() ==> #[trigger] row_ok(*old(self), i),
            !ok ==> final(self).filled == old(self).filled && final(self).known == old(self).known,
            ok ==> forall|i: int|
                0 <= i < old(self).rows() ==> #[trigger] final(self).filled@[i] == (old(self).filled@[i] | forced_full(old(self).row_candidates@[i]@, old(self).cols()))
                    && final(self).known@[i] == (old(self).known@[i] | certain(
                    old(self).row_candidates@[i]@,
                    old(self).cols(),
                )),
            forall|r: int|
                0 <= r < old(self).rows() ==> mask_le(#[trigger] old(self).filled@[r], final(self).filled@[r]) && mask_le(old(self).known@[r], final(self).known@[r]),
            old(self).all_known() ==> final(self).filled@ == old(self).filled@ && final(self).known@ == old(self).known@,
    {
        let rows = self.dimensions.num_rows;
        let cols = self.dimensions.num_cols;
        let ghost orig = *self;
            let mut ffs: Vec<u32> = Vec::new();
            let mut fes: Vec<u32> = Vec::new();
            let mut i: usize = 0;
            while i < rows
                invariant
                    i <= rows,
                    *self == orig,
                    orig == *old(self),
                    self.wf(),
                    rows == self.dimensions.num_rows,
                    cols == self.dimensions.num_cols,
                    ffs@.len() == i,
                    fes@.len() == i,
                    forall|x: int|
                        0 <= x < i ==> #[trigger] ffs@[x] == forced_full(
                            orig.row_candidates@[x]@,
                            cols as int,
                        ),
                    forall|x: int|
                        0 <= x < i ==> #[trigger] fes@[x] == forced_empty(
                            orig.row_candidates@[x]@,
                            cols as int,
                        ),
                    forall|x: int| 0 <= x < i ==> #[trigger] row_ok(orig, x),
                decreases rows - i,
            {
                if self.row_candidates[i].len() == 0 {
                    proof {
                        assert(!row_ok(orig, i as int));
                    }
                    return false;
                }
                let (ff, fe) = consensus_parts(&self.row_candidates[i], cols);
                let f = self.filled[i];
                let k = self.known[i];
                if (f & fe) != 0 || ((k & !f) & ff) != 0 {
                    proof {
                        assert(merge_conflict(
                            self.filled@[i as int],
                            self.known@[i as int],
                            self.row_candidates@[i as int]@,
                            cols as int,
                        ));
                        assert(!row_ok(orig, i as int));
                    }
                    return false;
                }
                let ghost ffs0 = ffs@;
                let ghost fes0 = fes@;
                ffs.push(ff);
                fes.push(fe);
                proof {
                    assert forall|x: int|
                        0 <= x < i + 1 implies #[trigger] ffs@[x] == forced_full(
                        orig.row_candidates@[x]@,
                        cols as int,
                    ) by {
                        if x < i as int {
                            assert(ffs@[x] == ffs0[x]);
                        } else {
                            assert(ffs@[x] == ff);
                            assert(orig.row_candidates@[x]@ == self.row_candidates@[x]@);
                        }
                    }
                    assert forall|x: int|
                        0 <= x < i + 1 implies #[trigger] fes@[x] == forced_empty(
                        orig.row_candidates@[x]@,
                        cols as int,
                    ) by {
                        if x < i as int {
                            assert(fes@[x] == fes0[x]);
                        } else {
                            assert(fes@[x] == fe);
                            assert(orig.row_candidates@[x]@ == self.row_candidates@[x]@);
                        }
                    }
                }
                i = i + 1;
            }
            let mut i: usize = 0;
            while i < rows
                invariant
                    i <= rows,
                    self.wf(),
                    rows == self.dimensions.num_rows,
                    cols == self.dimensions.num_cols,
                    orig == *old(self),
                    orig.wf(),
                    self.dimensions == orig.dimensions,
                    self.row_constraints == orig.row_constraints,
                    self.col_constraints == orig.col_constraints,
                    self.row_candidates == orig.row_candidates,
                    self.col_candidates == orig.col_candidates,
                    self.filled@.len() == rows,
                    self.known@.len() == rows,
                    ffs@.len() == rows,
                    fes@.len() == rows,
                    forall|x: int|
                        0 <= x < rows ==> #[trigger] ffs@[x] == forced_full(
                            orig.row_candidates@[x]@,
                            cols as int,
                        ),
                    forall|x: int|
                        0 <= x < rows ==> #[trigger] fes@[x] == forced_empty(
                            orig.row_candidates@[x]@,
                            cols as int,
                        ),
                    forall|x: int| 0 <= x < rows ==> #[trigger] row_ok(orig, x),
                    forall|x: int|
                        0 <= x < i ==> #[trigger] self.filled@[x] == (orig.filled@[x]
                            | forced_full(orig.row_candidates@[x]@, cols as int))
                            && self.known@[x] == (orig.known@[x] | certain(
                            orig.row_candidates@[x]@,
                            cols as int,
                        )),
                    forall|x: int|
                        i <= x < rows ==> #[trigger] self.filled@[x] == orig.filled@[x]
                            && self.known@[x] == orig.known@[x],
                decreases rows - i,
            {
                let nf = self.filled[i] | ffs[i];
                let nk = self.known[i] | (ffs[i] | fes[i]);
                proof {
                    assert(row_ok(orig, i as int));
                    assert(orig.cols() == cols as int);
                    lemma_merge_row(
                        orig.filled@[i as int],
                        orig.known@[i as int],
                        orig.row_candidates@[i as int]@,
                        cols as int,
                    );
                }
                let ghost pf = self.filled@;
                let ghost pk = self.known@;
                proof {
                    assert forall|x: int|
                        i as int <= x < rows implies pf[x] == orig.filled@[x] && pk[x]
                        == orig.known@[x] by {
                        assert(self.filled@[x] == orig.filled@[x]);
                        assert(self.known@[x] == orig.known@[x]);
                    }
                }
                self.filled.set(i, nf);
                self.known.set(i, nk);
                proof {
                    assert(self.filled@ == pf.update(i as int, nf));
                    assert(self.known@ == pk.update(i as int, nk));
                    assert forall|x: int|
                        i + 1 <= x < rows implies #[trigger] self.filled@[x] == orig.filled@[x]
                        && self.known@[x] == orig.known@[x] by {
                        assert(self.filled@[x] == pf[x]);
                        assert(self.known@[x] == pk[x]);
                    }
                    assert forall|x: int|
                        0 <= x < i + 1 implies #[trigger] self.filled@[x] == (orig.filled@[x]
                        | forced_full(orig.row_candidates@[x]@, cols as int)) && self.known@[x]
                        == (orig.known@[x] | certain(orig.row_candidates@[x]@, cols as int)) by {
                        if x < i as int {
                            assert(self.filled@[x] == pf[x]);
                            assert(self.known@[x] == pk[x]);
                        } else {
                            assert(self.filled@[x] == nf);
                            assert(self.known@[x] == nk);
                        }
                    }
                }
                i = i + 1;
            }
            proof {
                assert forall|r: int|
                    0 <= r < orig.rows() implies mask_le(
                    #[trigger] orig.filled@[r],
                    self.filled@[r],
                ) && mask_le(orig.known@[r], self.known@[r]) by {
                    assert(row_ok(orig, r));
                    lemma_merge_row(
                        orig.filled@[r],
                        orig.known@[r],
                        orig.row_candidates@[r]@,
                        cols as int,
                    );
                }
                if orig.all_known() {
                    assert forall|r: int|
                        0 <= r < rows as int implies #[trigger] self.filled@[r] == orig.filled@[r] by {
                        assert forall|c: int| 0 <= c < cols as int implies bit(
                            orig.known@[r],
                            c,
                        ) by {}
                        assert(row_ok(orig, r));
                        lemma_merge_row(
                            orig.filled@[r],
                            orig.known@[r],
                            orig.row_candidates@[r]@,
                            cols as int,
                        );
                    }
                    assert forall|r: int|
                        0 <= r < rows as int implies #[trigger] self.known@[r] == orig.known@[r] by {
                        assert forall|c: int| 0 <= c < cols as int implies bit(
                            orig.known@[r],
                            c,
                        ) by {}
                        assert(row_ok(orig, r));
                        lemma_merge_row(
                            orig.filled@[r],
                            orig.known@[r],
                            orig.row_candidates@[r]@,
                            cols as int,
                        );
                    }
                    assert(self.filled@ =~= orig.filled@);
                    assert(self.known@ =~= orig.known@);
                }
            }
            true
    }

    /// Column phase of the merge step: the state is transposed, every
    /// column's consensus folded in, and the result transposed back.
    #[verifier::rlimit(60)]
    #[verifier::spinoff_prover]
    fn merge_cols(&mut self) -> (ok: bool)
        requires
            old(self).wf(),
        ensures
            final(self).wf(),
            final(self).dimensions == old(self).dimensions,
            final(self).row_constraints == old(self).row_constraints,
            final(self).col_constraints == old(self).col_constraints,
            final(self).row_candidates == old(self).row_candidates,
            final(self).col_candidates == old(self).col_candidates,
            ok <==> forall|c: int|
                0 <= c < old(self).cols() ==> #[trigger] col_ok(*old(self), c),
            !ok ==> final(self).filled == old(self).filled && final(self).known == old(self).known,
            ok ==> forall|r: int, c: int|
                #![trigger bit(final(self).filled@[r], c)]
                #![trigger bit(final(self).known@[r], c)]
                0 <= r < old(self).rows() && 0 <= c < old(self).cols() ==> bit(
                    final(self).filled@[r],
                    c,
                ) == (bit(old(self).filled@[r], c) || bit(
                    forced_full(old(self).col_candidates@[c]@, old(self).rows()),
                    r,
                )) && bit(final(self).known@[r], c) == (bit(old(self).known@[r], c) || bit(
                    certain(old(self).col_candidates@[c]@, old(self).rows()),
                    r,
                )),
            forall|r: int|
                0 <= r < old(self).rows() ==> mask_le(#[trigger] old(self).filled@[r], final(self).filled@[r]) && mask_le(old(self).known@[r], final(self).known@[r]),
            old(self).all_known() ==> final(self).filled@ == old(self).filled@ && final(self).known@ == old(self).known@,
    {
        let rows = self.dimensions.num_rows;
        let cols = self.dimensions.num_cols;
        let ghost orig = *self;
            let ghost f0 = self.filled@;
            let ghost k0 = self.known@;
            let tf = col_views(&self.filled);
            let tk = col_views(&self.known);
            let ghost tf0 = tf@;
            let ghost tk0 = tk@;
            let mut ntf = tf;
            let mut ntk = tk;
            let mut c: usize = 0;
            while c < cols
                invariant
                    c <= cols,
                    *self == orig,
                    orig == *old(self),
                    self.wf(),
                    rows == self.dimensions.num_rows,
                    cols == self.dimensions.num_cols,
                    f0 == self.filled@,
                    k0 == self.known@,
                    ntf@.len() == 32,
                    ntk@.len() == 32,
                    forall|c2: int, i: int|
                        #![trigger bit(tf0[c2], i)]
                        0 <= c2 < 32 && 0 <= i < 32 ==> bit(tf0[c2], i) == (i < rows && bit(
                            f0[i],
                            c2,
                        )),
                    forall|c2: int, i: int|
                        #![trigger bit(tk0[c2], i)]
                        0 <= c2 < 32 && 0 <= i < 32 ==> bit(tk0[c2], i) == (i < rows && bit(
                            k0[i],
                            c2,
                        )),
                    forall|x: int|
                        0 <= x < c ==> #[trigger] ntf@[x] == (tf0[x] | forced_full(
                            orig.col_candidates@[x]@,
                            rows as int,
                        )) && ntk@[x] == (tk0[x] | certain(orig.col_candidates@[x]@, rows as int)),
                    forall|x: int| c <= x < 32 ==> #[trigger] ntf@[x] == tf0[x] && ntk@[x] == tk0[x],
                    forall|x: int| 0 <= x < c ==> #[trigger] col_ok(orig, x),
                decreases cols - c,
            {
                if self.col_candidates[c].len() == 0 {
                    proof {
                        assert(!col_ok(orig, c as int));
                    }
                    return false;
                }
                let (ff, fe) = consensus_parts(&self.col_candidates[c], rows);
                let fc = ntf[c];
                let kc = ntk[c];
                proof {
                    assert(fc == tf0[c as int]);
                    assert(kc == tk0[c as int]);
                    lemma_col_conflict_bridge(
                        fc,
                        kc,
                        f0,
                        k0,
                        self.col_candidates@[c as int]@,
                        c as int,
                        rows as int,
                    );
                }
                if (fc & fe) != 0 || ((kc & !fc) & ff) != 0 {
                    proof {
                        assert(merge_conflict(
                            fc,
                            kc,
                            self.col_candidates@[c as int]@,
                            rows as int,
                        ));
                        assert(!col_ok(orig, c as int));
                    }
                    return false;
                }
                let ghost ptf = ntf@;
                let ghost ptk = ntk@;
                ntf.set(c, fc | ff);
                ntk.set(c, kc | (ff | fe));
                proof {
                    assert(ntf@ == ptf.update(c as int, fc | ff));
                    assert(ntk@ == ptk.update(c as int, kc | (ff | fe)));
                    assert forall|x: int|
                        0 <= x < c + 1 implies #[trigger] ntf@[x] == (tf0[x] | forced_full(
                        orig.col_candidates@[x]@,
                        rows as int,
                    )) && ntk@[x] == (tk0[x] | certain(orig.col_candidates@[x]@, rows as int)) by {
                        if x < c as int {
                            assert(ntf@[x] == ptf[x]);
                            assert(ntk@[x] == ptk[x]);
                        } else {
                            assert(ntf@[x] == (fc | ff));
                            assert(ntk@[x] == (kc | (ff | fe)));
                            assert(orig.col_candidates@[x]@ == self.col_candidates@[x]@);
                        }
                    }
                    assert forall|x: int|
                        c + 1 <= x < 32 implies #[trigger] ntf@[x] == tf0[x] && ntk@[x]
                        == tk0[x] by {
                        assert(ntf@[x] == ptf[x]);
                        assert(ntk@[x] == ptk[x]);
                    }
                }
                c = c + 1;
            }
            let nf = transpose(&ntf);
            let nk = transpose(&ntk);
            let new_filled = take_prefix(&nf, rows);
            let new_known = take_prefix(&nk, rows);
            self.filled = new_filled;
            self.known = new_known;
            proof {
                // column views fit their rows and respect filled-within-known
                assert forall|x: int|
                    0 <= x < 32 implies mask_fits(tf0[x], rows as int) && mask_fits(
                    tk0[x],
                    rows as int,
                ) && mask_le(tf0[x], tk0[x]) by {}
                assert forall|x: int|
                    0 <= x < cols as int implies !merge_conflict(
                    tf0[x],
                    tk0[x],
                    orig.col_candidates@[x]@,
                    rows as int,
                ) by {
                    assert(col_ok(orig, x));
                    assert(orig.rows() == rows as int);
                    lemma_col_conflict_bridge(
                        tf0[x],
                        tk0[x],
                        f0,
                        k0,
                        orig.col_candidates@[x]@,
                        x,
                        rows as int,
                    );
                }
                // bit-level description of the written-back state
                assert forall|r: int, c: int|
                    #![trigger bit(self.filled@[r], c)]
                    #![trigger bit(self.known@[r], c)]
                    0 <= r < rows as int && 0 <= c < 32 implies bit(self.filled@[r], c) == bit(
                    ntf@[c],
                    r,
                ) && bit(self.known@[r], c) == bit(ntk@[c], r) by {
                    assert(self.filled@[r] == nf@[r]);
                    assert(self.known@[r] == nk@[r]);
                }
                assert forall|x: int|
                    0 <= x < cols as int implies mask_fits(#[trigger] ntf@[x], rows as int)
                    && mask_fits(ntk@[x], rows as int) && mask_le(ntf@[x], ntk@[x]) by {
                    lemma_merge_row(tf0[x], tk0[x], orig.col_candidates@[x]@, rows as int);
                }
                assert forall|x: int, i: int|
                    #![trigger bit(ntf@[x], i)]
                    #![trigger bit(ntk@[x], i)]
                    0 <= x < cols as int && 0 <= i < 32 implies bit(ntf@[x], i) == (bit(
                    tf0[x],
                    i,
                ) || bit(forced_full(orig.col_candidates@[x]@, rows as int), i)) && bit(
                    ntk@[x],
                    i,
                ) == (bit(tk0[x], i) || bit(certain(orig.col_candidates@[x]@, rows as int), i)) by {
                    assert(mask_fits(tf0[x], rows as int));
                    assert(mask_fits(tk0[x], rows as int));
                    assert(mask_le(tf0[x], tk0[x]));
                    assert(!merge_conflict(tf0[x], tk0[x], orig.col_candidates@[x]@, rows as int));
                    assert(ntf@[x] == (tf0[x] | forced_full(orig.col_candidates@[x]@, rows as int)));
                    assert(ntk@[x] == (tk0[x] | certain(orig.col_candidates@[x]@, rows as int)));
                    lemma_merge_row(tf0[x], tk0[x], orig.col_candidates@[x]@, rows as int);
                }
                // well-formedness of the new masks
                assert forall|r: int|
                    0 <= r < rows as int implies mask_fits(
                    #[trigger] self.filled@[r],
                    cols as int,
                ) && mask_fits(self.known@[r], cols as int) && mask_le(
                    self.filled@[r],
                    self.known@[r],
                ) && mask_le(orig.filled@[r], self.filled@[r]) && mask_le(
                    orig.known@[r],
                    self.known@[r],
                ) by {
                    assert forall|c: int| cols as int <= c < 32 implies !bit(
                        self.filled@[r],
                        c,
                    ) && !bit(self.known@[r], c) by {
                        assert(ntf@[c] == tf0[c]);
                        assert(!bit(tf0[c], r));
                        assert(!bit(tk0[c], r));
                    }
                    assert forall|c: int|
                        0 <= c < 32 && bit(orig.filled@[r], c) implies bit(
                        self.filled@[r],
                        c,
                    ) by {
                        assert(c < cols as int);
                        assert(bit(tf0[c], r));
                    }
                    assert forall|c: int|
                        0 <= c < 32 && bit(orig.known@[r], c) implies bit(self.known@[r], c) by {
                        assert(c < cols as int);
                        assert(bit(tk0[c], r));
                    }
                    assert forall|c: int|
                        0 <= c < 32 && bit(self.filled@[r], c) implies bit(self.known@[r], c) by {
                        if c < cols as int {
                            assert(bit(ntf@[c], r));
                            assert(bit(ntk@[c], r));
                        } else {
                            assert(ntf@[c] == tf0[c]);
                        }
                    }
                }
                assert forall|r: int, c: int|
                    #![trigger bit(self.filled@[r], c)]
                    #![trigger bit(self.known@[r], c)]
                    0 <= r < rows as int && 0 <= c < cols as int implies bit(self.filled@[r], c)
                    == (bit(orig.filled@[r], c) || bit(
                    forced_full(orig.col_candidates@[c]@, rows as int),
                    r,
                )) && bit(self.known@[r], c) == (bit(orig.known@[r], c) || bit(
                    certain(orig.col_candidates@[c]@, rows as int),
                    r,
                )) by {
                    assert(bit(self.filled@[r], c) == bit(ntf@[c], r));
                    assert(bit(ntf@[c], r) == (bit(tf0[c], r) || bit(
                        forced_full(orig.col_candidates@[c]@, rows as int),
                        r,
                    )));
                    assert(bit(tf0[c], r) == bit(f0[r], c));
                    assert(bit(self.known@[r], c) == bit(ntk@[c], r));
                    assert(bit(ntk@[c], r) == (bit(tk0[c], r) || bit(
                        certain(orig.col_candidates@[c]@, rows as int),
                        r,
                    )));
                    assert(bit(tk0[c], r) == bit(k0[r], c));
                }
                if orig.all_known() {
                    assert forall|x: int|
                        0 <= x < cols as int implies #[trigger] ntf@[x] == tf0[x] && ntk@[x]
                        == tk0[x] by {
                        assert forall|i: int| 0 <= i < rows as int implies bit(tk0[x], i) by {
                            assert(bit(k0[i], x));
                        }
                        lemma_merge_row(tf0[x], tk0[x], orig.col_candidates@[x]@, rows as int);
                    }
                    assert forall|r: int|
                        0 <= r < rows as int implies #[trigger] self.filled@[r] == orig.filled@[r] by {
                        assert forall|c: int|
                            0 <= c < 32 implies bit(self.filled@[r], c) == bit(
                            orig.filled@[r],
                            c,
                        ) by {
                            assert(ntf@[c] == tf0[c]);
                            if c >= cols as int {
                                assert(!bit(tf0[c], r));
                                assert(!bit(orig.filled@[r], c));
                            }
                        }
                        lemma_mask_ext(self.filled@[r], orig.filled@[r]);
                    }
                    assert forall|r: int|
                        0 <= r < rows as int implies #[trigger] self.known@[r] == orig.known@[r] by {
                        assert forall|c: int|
                            0 <= c < 32 implies bit(self.known@[r], c) == bit(
                            orig.known@[r],
                            c,
                        ) by {
                            assert(ntf@[c] == tf0[c]);
                            assert(ntk@[c] == tk0[c]);
                            if c >= cols as int {
                                assert(!bit(tk0[c], r));
                                assert(!bit(orig.known@[r], c));
                            }
                        }
                        lemma_mask_ext(self.known@[r], orig.known@[r]);
                    }
                    assert(self.filled@ =~= orig.filled@);
                    assert(self.known@ =~= orig.known@);
                }
            }
            true
    }

    /// Extracts the consensus of every line of one orientation from its
    /// remaining candidates and merges it into the global state: forced-full
    /// bits into `filled`, determined bits into `known`. Returns `false` —
    /// leaving the state untouched — exactly when some line has no candidate
    /// left or its consensus would flip an already known cell.
    pub fn update_cells(&mut self, is_row: bool) -> (ok: bool)
        requires
            old(self).wf(),
        ensures
            final(self).wf(),
            final(self).dimensions == old(self).dimensions,
            final(self).row_constraints == old(self).row_constraints,
            final(self).col_constraints == old(self).col_constraints,
            final(self).row_candidates == old(self).row_candidates,
            final(self).col_candidates == old(self).col_candidates,
            is_row ==> (ok <==> forall|i: int|
                0 <= i < old(self).rows() ==> #[trigger] row_ok(*old(self), i)),
            !is_row ==> (ok <==> forall|c: int|
                0 <= c < old(self).cols() ==> #[trigger] col_ok(*old(self), c)),
            !ok ==> final(self).filled == old(self).filled && final(self).known == old(self).known,
            ok && is_row ==> forall|i: int|
                0 <= i < old(self).rows() ==> #[trigger] final(self).filled@[i] == (old(self).filled@[i] | forced_full(old(self).row_candidates@[i]@, old(self).cols()))
                    && final(self).known@[i] == (old(self).known@[i] | certain(
                    old(self).row_candidates@[i]@,
                    old(self).cols(),
                )),
            ok && !is_row ==> forall|r: int, c: int|
                #![trigger bit(final(self).filled@[r], c)]
                #![trigger bit(final(self).known@[r], c)]
                0 <= r < old(self).rows() && 0 <= c < old(self).cols() ==> bit(
                    final(self).filled@[r],
                    c,
                ) == (bit(old(self).filled@[r], c) || bit(
                    forced_full(old(self).col_candidates@[c]@, old(self).rows()),
                    r,
                )) && bit(final(self).known@[r], c) == (bit(old(self).known@[r], c) || bit(
                    certain(old(self).col_candidates@[c]@, old(self).rows()),
                    r,
                )),
            forall|r: int|
                0 <= r < old(self).rows() ==> mask_le(#[trigger] old(self).filled@[r], final(self).filled@[r]) && mask_le(old(self).known@[r], final(self).known@[r]),
            old(self).all_known() ==> final(self).filled@ == old(self).filled@ && final(self).known@ == old(self).known@,
    {
        if is_row {
            self.merge_rows()
        } else {
            self.merge_cols()
        }
    }

    /// True iff the filled cells of the line encoded by `m` read back as
    /// exactly the runs of `c`.
    fn mask_runs_match(m: u32, len: usize, c: &Constraint) -> (r: bool)
        requires
            len <= 32,
        ensures
            r == (runs_of(mask_seq(m, len as int)) == c@),
    {
        let ghost fb = mask_seq(m, len as int);
        let mut values: Vec<usize> = Vec::new();
        let mut cur: usize = 0;
        let mut i: usize = 0;
        proof {
            assert(fb.skip(0) =~= fb);
        }
        while i < len
            invariant
                i <= len <= 32,
                fb == mask_seq(m, len as int),
                cur <= i,
                runs_of(fb) == to_ints(values@) + runs_go(fb.skip(i as int), cur as int),
            decreases len - i,
        {
            let ghost tail = fb.skip(i as int);
            proof {
                assert(tail.len() > 0);
                assert(tail[0] == fb[i as int]);
                assert(tail.drop_first() =~= fb.skip(i + 1));
            }
            if get_bit(m, i) {
                cur = cur + 1;
            } else {
                if cur > 0 {
                    values.push(cur);
                    proof {
                        assert(to_ints(values@) =~= to_ints(values@.drop_last()) + seq![
                            cur as int,
                        ]);
                    }
                    cur = 0;
                }
            }
            i = i + 1;
        }
        proof {
            assert(fb.skip(len as int) =~= Seq::<bool>::empty());
        }
        if cur > 0 {
            values.push(cur);
            proof {
                assert(to_ints(values@) =~= to_ints(values@.drop_last()) + seq![cur as int]);
            }
        } else {
            proof {
                assert(to_ints(values@) + Seq::<int>::empty() =~= to_ints(values@));
            }
        }
        proof {
            assert(runs_of(fb) == to_ints(values@));
        }
        let got = Constraint { values };
        let r = got.eq(c);
        proof {
            if r {
                assert(got.values@ == c.values@);
            } else {
                if runs_of(fb) == c@ {
                    assert(to_ints(got.values@) == to_ints(c.values@));
                    lemma_to_ints_inj(got.values@, c.values@);
                    assert(false);
                }
            }
        }
        r
    }

    /// True iff every row and every column of the filled grid reads back as
    /// its constraint.
    fn grid_matches(&self) -> (r: bool)
        requires
            self.wf(),
        ensures
            r == grid_ok(*self),
    {
        let rows = self.dimensions.num_rows;
        let cols = self.dimensions.num_cols;
        let mut i: usize = 0;
        while i < rows
            invariant
                self.wf(),
                rows == self.dimensions.num_rows,
                cols == self.dimensions.num_cols,
                i <= rows,
                forall|x: int|
                    0 <= x < i ==> runs_of(mask_seq(#[trigger] self.filled@[x], cols as int))
                        == self.row_constraints@[x]@,
            decreases rows - i,
        {
            if !Board::mask_runs_match(self.filled[i], cols, &self.row_constraints[i]) {
                return false;
            }
            i = i + 1;
        }
        let tf = col_views(&self.filled);
        let mut c: usize = 0;
        while c < cols
            invariant
                self.wf(),
                rows == self.dimensions.num_rows,
                cols == self.dimensions.num_cols,
                c <= cols,
                tf@.len() == 32,
                forall|c2: int, r2: int|
                    #![trigger bit(tf@[c2], r2)]
                    0 <= c2 < 32 && 0 <= r2 < 32 ==> bit(tf@[c2], r2) == (r2 < rows && bit(
                        self.filled@[r2],
                        c2,
                    )),
                forall|x: int|
                    0 <= x < i ==> runs_of(mask_seq(#[trigger] self.filled@[x], cols as int))
                        == self.row_constraints@[x]@,
                i == rows,
                forall|x: int|
                    0 <= x < c ==> runs_of(col_seq(self.filled@, x, rows as int))
                        == #[trigger] self.col_constraints@[x]@,
            decreases cols - c,
        {
            proof {
                assert(mask_seq(tf@[c as int], rows as int) =~= col_seq(
                    self.filled@,
                    c as int,
                    rows as int,
                ));
            }
            if !Board::mask_runs_match(tf[c], rows, &self.col_constraints[c]) {
                return false;
            }
            c = c + 1;
        }
        true
    }

    /// The result snapshot for the current state.
    fn snapshot(&self, status: Status) -> (r: SolveResult)
        requires
            self.wf(),
        ensures
            r.status == status,
            r.filled@ == self.filled@,
            r.known@ == self.known@,
    {
        let rows = self.dimensions.num_rows;
        let filled = take_prefix(&self.filled, rows);
        let known = take_prefix(&self.known, rows);
        proof {
            assert(filled@ =~= self.filled@);
            assert(known@ =~= self.known@);
        }
        SolveResult { status, filled, known }
    }

    /// Runs constraint propagation to its fixed point: alternating full row
    /// and column passes, each filtering the candidate sets and merging the
    /// consensus back, until the board is fully known, a line rules out
    /// every candidate or demands flipping a known cell (`Contradiction`),
    /// or a full pass pair learns no new cell (`Stuck`). A fully known grid
    /// is validated against every row and column constraint before it is
    /// reported `Solved`; a mismatch is a `Contradiction`, never a solved
    /// board.
    #[verifier::rlimit(50)]
    #[verifier::spinoff_prover]
    pub fn solve(&mut self) -> (r: SolveResult)
        requires
            old(self).wf(),
        ensures
            final(self).wf(),
            final(self).dimensions == old(self).dimensions,
            final(self).row_constraints == old(self).row_constraints,
            final(self).col_constraints == old(self).col_constraints,
            r.filled@ == final(self).filled@,
            r.known@ == final(self).known@,
            keeps_knowledge(*old(self), *final(self)),
            keeps_candidates(*old(self), *final(self)),
            drops_only_incompatible(*old(self), *final(self)),
            forall|sol: Seq<u32>|
                candidates_complete(*old(self)) && #[trigger] is_solution(sol, *old(self))
                    ==> is_solution(sol, *final(self)),
            candidates_complete(*old(self)) && (exists|sol: Seq<u32>|
                #[trigger] is_solution(sol, *old(self))) ==> r.status != Status::Contradiction,
            ({
                let run = spec_run(
                    old(self).filled@,
                    old(self).known@,
                    cand_views(old(self).row_candidates@),
                    cand_views(old(self).col_candidates@),
                    old(self).rows(),
                    old(self).cols(),
                    old(self).row_constraints@,
                    old(self).col_constraints@,
                );
                final(self).filled@ == run.0 && final(self).known@ == run.1 && cand_views(
                    final(self).row_candidates@,
                ) == run.2 && cand_views(final(self).col_candidates@) == run.3 && r.status
                    == run.4
            }),
            (r.status == Status::Solved) <==> (final(self).all_known() && r.status
                != Status::Contradiction),
            r.status == Status::Solved ==> grid_ok(*final(self)),
            r.status == Status::Stuck ==> !final(self).all_known(),
            r.status == Status::Stuck ==> is_fixed_point(*final(self)),
            r.status == Status::Contradiction ==> has_contradiction(*final(self))
                || (final(self).all_known() && !grid_ok(*final(self))),
            r.status != Status::Contradiction ==> (forall|i: int|
                0 <= i < final(self).rows() ==> (#[trigger] final(self).row_candidates@[i]@).len()
                    > 0) && (forall|c: int|
                0 <= c < final(self).cols() ==> (#[trigger] final(self).col_candidates@[c]@).len()
                    > 0),
    {
        let rows = self.dimensions.num_rows;
        #[verifier::loop_isolation(false)]
        loop
            invariant
                self.wf(),
                rows == self.dimensions.num_rows,
                self.dimensions == old(self).dimensions,
                self.row_constraints == old(self).row_constraints,
                self.col_constraints == old(self).col_constraints,
                keeps_knowledge(*old(self), *self),
                keeps_candidates(*old(self), *self),
                drops_only_incompatible(*old(self), *self),
                forall|sol: Seq<u32>|
                    candidates_complete(*old(self)) && #[trigger] is_solution(sol, *old(self))
                        ==> forall|r: int|
                        0 <= r < old(self).rows() ==> compat(
                            #[trigger] sol[r],
                            self.filled@[r],
                            self.known@[r],
                        ),
                spec_run(
                    old(self).filled@,
                    old(self).known@,
                    cand_views(old(self).row_candidates@),
                    cand_views(old(self).col_candidates@),
                    old(self).rows(),
                    old(self).cols(),
                    old(self).row_constraints@,
                    old(self).col_constraints@,
                ) == spec_run(
                    self.filled@,
                    self.known@,
                    cand_views(self.row_candidates@),
                    cand_views(self.col_candidates@),
                    old(self).rows(),
                    old(self).cols(),
                    old(self).row_constraints@,
                    old(self).col_constraints@,
                ),
            decreases self.spec_num_unknown(),
        {
            proof {
                lemma_unknown_in_bounds(self.known@, self.rows(), self.cols());
            }
            let before = self.num_unknown();
            let ghost mid0 = *self;
            let ghost g_rows = old(self).rows();
            let ghost g_cols = old(self).cols();
            let ghost g_rcs = cand_views(mid0.row_candidates@);
            let ghost g_ccs = cand_views(mid0.col_candidates@);
            let ghost g_rcs1 = spec_filter_rows(g_rcs, mid0.filled@, mid0.known@);
            let ghost g_fs2 = spec_merge_rows_filled(g_rcs1, mid0.filled@, g_cols);
            let ghost g_ks2 = spec_merge_rows_known(g_rcs1, mid0.known@, g_cols);
            let ghost g_ccs3 = spec_filter_cols(g_ccs, g_fs2, g_ks2, g_rows);
            let ghost g_fs4 = spec_merge_cols_filled(g_ccs3, g_fs2, g_rows, g_cols);
            let ghost g_ks4 = spec_merge_cols_known(g_ccs3, g_ks2, g_rows, g_cols);
            self.update_candidates(true);
            let ghost mid1 = *self;
            proof {
                assert forall|i: int, j: int|
                    0 <= i < mid0.rows() && 0 <= j < mid1.row_candidates@[i]@.len()
                    implies mid0.row_candidates@[i]@.contains(
                    #[trigger] mid1.row_candidates@[i]@[j],
                ) by {}
                assert forall|c: int, j: int|
                    0 <= c < mid0.cols() && 0 <= j < mid1.col_candidates@[c]@.len()
                    implies mid0.col_candidates@[c]@.contains(
                    #[trigger] mid1.col_candidates@[c]@[j],
                ) by {
                    assert(mid0.col_candidates@[c]@[j] == mid1.col_candidates@[c]@[j]);
                }
                assert(keeps_candidates(mid0, mid1));
                lemma_keeps_candidates_trans(*old(self), mid0, mid1);
                // honesty: the filter drops only what conflicts with the
                // (unchanged) knowledge
                assert forall|i: int, m: u32|
                    0 <= i < old(self).rows() && #[trigger] old(
                        self,
                    ).row_candidates@[i]@.contains(m) && compat(m, self.filled@[i], self.known@[i])
                    implies self.row_candidates@[i]@.contains(m) by {
                    assert(self.filled@[i] == mid0.filled@[i]);
                    assert(self.known@[i] == mid0.known@[i]);
                    assert(mid0.row_candidates@[i]@.contains(m));
                    lemma_filter_row_keeps(
                        mid0.row_candidates@[i]@,
                        mid0.filled@[i],
                        mid0.known@[i],
                        m,
                    );
                }
                assert forall|c: int, m: u32|
                    0 <= c < old(self).cols() && #[trigger] old(
                        self,
                    ).col_candidates@[c]@.contains(m) && compat_col(
                        m,
                        self.filled@,
                        self.known@,
                        c,
                        old(self).rows(),
                    ) implies self.col_candidates@[c]@.contains(m) by {
                    assert(self.filled@ == mid0.filled@);
                    assert(self.known@ == mid0.known@);
                    assert(mid0.col_candidates@[c]@.contains(m));
                    assert(self.col_candidates@[c]@ == mid0.col_candidates@[c]@);
                }
                assert(drops_only_incompatible(*old(self), *self));
                // a surviving solution still agrees with the (unchanged)
                // knowledge
                assert forall|sol: Seq<u32>|
                    candidates_complete(*old(self)) && #[trigger] is_solution(sol, *old(self))
                    implies forall|r: int|
                    0 <= r < old(self).rows() ==> compat(
                        #[trigger] sol[r],
                        self.filled@[r],
                        self.known@[r],
                    ) by {
                    assert forall|r: int|
                        0 <= r < old(self).rows() implies compat(
                        #[trigger] sol[r],
                        self.filled@[r],
                        self.known@[r],
                    ) by {
                        assert(compat(sol[r], mid0.filled@[r], mid0.known@[r]));
                        assert(self.filled@[r] == mid0.filled@[r]);
                        assert(self.known@[r] == mid0.known@[r]);
                    }
                }
                // the filtered sets are the specification's filtered sets
                assert forall|i: int|
                    0 <= i < g_rcs1.len() implies cand_views(self.row_candidates@)[i]
                    == #[trigger] g_rcs1[i] by {
                    assert(self.row_candidates@[i]@ == filter_row(
                        mid0.row_candidates@[i]@,
                        mid0.filled@[i],
                        mid0.known@[i],
                    ));
                }
                assert(cand_views(self.row_candidates@) =~= g_rcs1);
            }
            let ok1 = self.update_cells(true);
            proof {
                lemma_keeps_candidates_refl(mid1, *self);
                lemma_keeps_candidates_trans(*old(self), mid1, *self);
                if ok1 {
                    // honesty survives the merge: the new knowledge flips no
                    // known cell, so compatibility with it is stricter
                    assert forall|i: int, m: u32|
                        0 <= i < old(self).rows() && #[trigger] old(
                            self,
                        ).row_candidates@[i]@.contains(m) && compat(
                            m,
                            self.filled@[i],
                            self.known@[i],
                        ) implies self.row_candidates@[i]@.contains(m) by {
                        assert(row_ok(mid1, i));
                        lemma_merge_stable(
                            mid1.filled@[i],
                            mid1.known@[i],
                            mid1.row_candidates@[i]@,
                            mid1.cols(),
                        );
                        assert(self.filled@[i] == (mid1.filled@[i] | forced_full(
                            mid1.row_candidates@[i]@,
                            mid1.cols(),
                        )));
                        assert(self.known@[i] == (mid1.known@[i] | certain(
                            mid1.row_candidates@[i]@,
                            mid1.cols(),
                        )));
                        lemma_compat_weaken(
                            m,
                            mid1.filled@[i],
                            mid1.known@[i],
                            self.filled@[i],
                            self.known@[i],
                        );
                        assert(mid1.row_candidates@[i]@.contains(m));
                        assert(self.row_candidates@[i]@ == mid1.row_candidates@[i]@);
                    }
                    assert forall|c: int, m: u32|
                        0 <= c < old(self).cols() && #[trigger] old(
                            self,
                        ).col_candidates@[c]@.contains(m) && compat_col(
                            m,
                            self.filled@,
                            self.known@,
                            c,
                            old(self).rows(),
                        ) implies self.col_candidates@[c]@.contains(m) by {
                        assert forall|r: int|
                            0 <= r < old(self).rows() && #[trigger] bit(mid1.known@[r], c)
                            implies bit(self.known@[r], c) && bit(self.filled@[r], c) == bit(
                            mid1.filled@[r],
                            c,
                        ) by {
                            assert(row_ok(mid1, r));
                            lemma_merge_stable(
                                mid1.filled@[r],
                                mid1.known@[r],
                                mid1.row_candidates@[r]@,
                                mid1.cols(),
                            );
                            assert(self.filled@[r] == (mid1.filled@[r] | forced_full(
                                mid1.row_candidates@[r]@,
                                mid1.cols(),
                            )));
                            assert(self.known@[r] == (mid1.known@[r] | certain(
                                mid1.row_candidates@[r]@,
                                mid1.cols(),
                            )));
                        }
                        lemma_compat_col_weaken(
                            m,
                            mid1.filled@,
                            mid1.known@,
                            self.filled@,
                            self.known@,
                            c,
                            old(self).rows(),
                        );
                        assert(mid1.col_candidates@[c]@.contains(m));
                        assert(self.col_candidates@[c]@ == mid1.col_candidates@[c]@);
                    }
                    // a surviving solution's rows sit in the merged sets, so
                    // the merged knowledge still agrees with it
                    assert forall|sol: Seq<u32>|
                        candidates_complete(*old(self)) && #[trigger] is_solution(
                            sol,
                            *old(self),
                        ) implies forall|r: int|
                        0 <= r < old(self).rows() ==> compat(
                            #[trigger] sol[r],
                            self.filled@[r],
                            self.known@[r],
                        ) by {
                        assert forall|r: int|
                            0 <= r < old(self).rows() implies compat(
                            #[trigger] sol[r],
                            self.filled@[r],
                            self.known@[r],
                        ) by {
                            assert(compat(sol[r], mid1.filled@[r], mid1.known@[r]));
                            assert(is_placement(
                                sol[r],
                                old(self).cols(),
                                old(self).row_constraints@[r]@,
                            ));
                            assert(compat(sol[r], old(self).filled@[r], old(self).known@[r]));
                            assert(old(self).row_candidates@[r]@.contains(sol[r]));
                            assert(mid1.row_candidates@[r]@.contains(sol[r]));
                            assert(row_ok(mid1, r));
                            lemma_merge_keeps_compat(
                                sol[r],
                                mid1.filled@[r],
                                mid1.known@[r],
                                mid1.row_candidates@[r]@,
                                mid1.cols(),
                            );
                            assert(self.filled@[r] == (mid1.filled@[r] | forced_full(
                                mid1.row_candidates@[r]@,
                                mid1.cols(),
                            )));
                            assert(self.known@[r] == (mid1.known@[r] | certain(
                                mid1.row_candidates@[r]@,
                                mid1.cols(),
                            )));
                        }
                    }
                } else {
                    assert(*self == mid1);
                }
                assert(drops_only_incompatible(*old(self), *self));
                // the merge's outcome matches the specification's row pass
                assert(ok1 == spec_rows_ok(g_rcs1, mid0.filled@, mid0.known@, g_cols)) by {
                    if ok1 {
                        assert forall|i: int|
                            0 <= i < g_rcs1.len() implies (#[trigger] g_rcs1[i]).len() > 0
                            && !merge_conflict(
                            mid0.filled@[i],
                            mid0.known@[i],
                            g_rcs1[i],
                            g_cols,
                        ) by {
                            assert(row_ok(mid1, i));
                            assert(mid1.row_candidates@[i]@ == g_rcs1[i]);
                        }
                    } else {
                        assert(!forall|i: int|
                            0 <= i < mid1.rows() ==> #[trigger] row_ok(mid1, i));
                        let i = choose|i: int| 0 <= i < mid1.rows() && !#[trigger] row_ok(mid1, i);
                        assert(mid1.row_candidates@[i]@ == g_rcs1[i]);
                        assert(!(g_rcs1[i].len() > 0 && !merge_conflict(
                            mid0.filled@[i],
                            mid0.known@[i],
                            g_rcs1[i],
                            g_cols,
                        )));
                    }
                }
                if ok1 {
                    assert forall|i: int|
                        0 <= i < g_fs2.len() implies self.filled@[i] == #[trigger] g_fs2[i]
                        && self.known@[i] == g_ks2[i] by {
                        assert(self.filled@[i] == (mid1.filled@[i] | forced_full(
                            mid1.row_candidates@[i]@,
                            mid1.cols(),
                        )));
                        assert(self.known@[i] == (mid1.known@[i] | certain(
                            mid1.row_candidates@[i]@,
                            mid1.cols(),
                        )));
                        assert(mid1.row_candidates@[i]@ == g_rcs1[i]);
                    }
                    assert(self.filled@ =~= g_fs2);
                    assert(self.known@ =~= g_ks2);
                }
            }
            if !ok1 {
                proof {
                    assert(*self == mid1);
                    assert(!forall|i: int| 0 <= i < mid1.rows() ==> #[trigger] row_ok(mid1, i));
                    let i = choose|i: int| 0 <= i < mid1.rows() && !#[trigger] row_ok(mid1, i);
                    assert(!row_ok(*self, i));
                    assert(has_contradiction(*self));
                    assert forall|x: int|
                        0 <= x < old(self).rows() implies mask_le(
                        #[trigger] old(self).filled@[x],
                        self.filled@[x],
                    ) && mask_le(old(self).known@[x], self.known@[x]) by {
                        assert(mask_le(old(self).filled@[x], mid0.filled@[x]));
                        assert(mask_le(old(self).known@[x], mid0.known@[x]));
                        assert(self.filled@[x] == mid0.filled@[x]);
                        assert(self.known@[x] == mid0.known@[x]);
                    }
                    assert(keeps_knowledge(*old(self), *self));
                    // with a solution still alive the failing line would
                    // hold its row, so no such solution can exist
                    if candidates_complete(*old(self)) && (exists|sol: Seq<u32>|
                        #[trigger] is_solution(sol, *old(self))) {
                        let sol = choose|sol: Seq<u32>| is_solution(sol, *old(self));
                        assert(compat(sol[i], mid1.filled@[i], mid1.known@[i]));
                        assert(is_placement(
                            sol[i],
                            old(self).cols(),
                            old(self).row_constraints@[i]@,
                        ));
                        assert(compat(sol[i], old(self).filled@[i], old(self).known@[i]));
                        assert(old(self).row_candidates@[i]@.contains(sol[i]));
                        assert(mid1.row_candidates@[i]@.contains(sol[i]));
                        lemma_solution_row_ok(sol[i], mid1, i);
                        assert(false);
                    }
                    assert forall|sol: Seq<u32>|
                        candidates_complete(*old(self)) && #[trigger] is_solution(
                            sol,
                            *old(self),
                        ) implies is_solution(sol, *self) by {
                        assert(false);
                    }
                    // the specification's run fails its row pass here too
                    assert(cand_views(self.col_candidates@) =~= g_ccs);
                    assert(spec_run(
                        mid0.filled@,
                        mid0.known@,
                        g_rcs,
                        g_ccs,
                        g_rows,
                        g_cols,
                        old(self).row_constraints@,
                        old(self).col_constraints@,
                    ) == (
                        self.filled@,
                        self.known@,
                        cand_views(self.row_candidates@),
                        cand_views(self.col_candidates@),
                        Status::Contradiction,
                    ));
                }
                return self.snapshot(Status::Contradiction);
            }
            let ghost mid2 = *self;
            self.update_candidates(false);
            let ghost mid3 = *self;
            proof {
                assert forall|c: int, j: int|
                    0 <= c < mid2.cols() && 0 <= j < mid3.col_candidates@[c]@.len()
                    implies mid2.col_candidates@[c]@.contains(
                    #[trigger] mid3.col_candidates@[c]@[j],
                ) by {}
                assert forall|i: int, j: int|
                    0 <= i < mid2.rows() && 0 <= j < mid3.row_candidates@[i]@.len()
                    implies mid2.row_candidates@[i]@.contains(
                    #[trigger] mid3.row_candidates@[i]@[j],
                ) by {
                    assert(mid2.row_candidates@[i]@[j] == mid3.row_candidates@[i]@[j]);
                }
                assert(keeps_candidates(mid2, mid3));
                lemma_keeps_candidates_trans(*old(self), mid2, mid3);
                // honesty through the column filter, masks unchanged
                assert forall|c: int, m: u32|
                    0 <= c < old(self).cols() && #[trigger] old(
                        self,
                    ).col_candidates@[c]@.contains(m) && compat_col(
                        m,
                        self.filled@,
                        self.known@,
                        c,
                        old(self).rows(),
                    ) implies self.col_candidates@[c]@.contains(m) by {
                    assert(self.filled@ == mid2.filled@);
                    assert(self.known@ == mid2.known@);
                    assert(mid2.col_candidates@[c]@.contains(m));
                    lemma_filter_col_keeps(
                        mid2.col_candidates@[c]@,
                        mid2.filled@,
                        mid2.known@,
                        c,
                        old(self).rows(),
                        m,
                    );
                    assert(self.col_candidates@[c]@ == filter_col(
                        mid2.col_candidates@[c]@,
                        mid2.filled@,
                        mid2.known@,
                        c,
                        mid2.rows(),
                    ));
                }
                assert forall|i: int, m: u32|
                    0 <= i < old(self).rows() && #[trigger] old(
                        self,
                    ).row_candidates@[i]@.contains(m) && compat(m, self.filled@[i], self.known@[i])
                    implies self.row_candidates@[i]@.contains(m) by {
                    assert(self.filled@[i] == mid2.filled@[i]);
                    assert(self.known@[i] == mid2.known@[i]);
                    assert(mid2.row_candidates@[i]@.contains(m));
                    assert(self.row_candidates@[i]@ == mid2.row_candidates@[i]@);
                }
                assert(drops_only_incompatible(*old(self), *self));
                assert forall|sol: Seq<u32>|
                    candidates_complete(*old(self)) && #[trigger] is_solution(sol, *old(self))
                    implies forall|r: int|
                    0 <= r < old(self).rows() ==> compat(
                        #[trigger] sol[r],
                        self.filled@[r],
                        self.known@[r],
                    ) by {
                    assert forall|r: int|
                        0 <= r < old(self).rows() implies compat(
                        #[trigger] sol[r],
                        self.filled@[r],
                        self.known@[r],
                    ) by {
                        assert(compat(sol[r], mid2.filled@[r], mid2.known@[r]));
                        assert(self.filled@[r] == mid2.filled@[r]);
                        assert(self.known@[r] == mid2.known@[r]);
                    }
                }
                // the filtered column sets are the specification's
                assert(mid2.filled@ == g_fs2);
                assert(mid2.known@ == g_ks2);
                assert forall|c: int|
                    0 <= c < g_ccs3.len() implies cand_views(self.col_candidates@)[c]
                    == #[trigger] g_ccs3[c] by {
                    assert(self.col_candidates@[c]@ == filter_col(
                        mid2.col_candidates@[c]@,
                        mid2.filled@,
                        mid2.known@,
                        c,
                        mid2.rows(),
                    ));
                    assert(mid2.col_candidates@[c]@ == g_ccs[c]);
                }
                assert(cand_views(self.col_candidates@) =~= g_ccs3);
            }
            let ok2 = self.update_cells(false);
            proof {
                lemma_keeps_candidates_refl(mid3, *self);
                lemma_keeps_candidates_trans(*old(self), mid3, *self);
                if ok2 {
                    // honesty survives the column merge likewise
                    assert forall|i: int, m: u32|
                        0 <= i < old(self).rows() && #[trigger] old(
                            self,
                        ).row_candidates@[i]@.contains(m) && compat(
                            m,
                            self.filled@[i],
                            self.known@[i],
                        ) implies self.row_candidates@[i]@.contains(m) by {
                        assert forall|t: int|
                            0 <= t < 32 && #[trigger] bit(mid3.known@[i], t) implies bit(
                            self.known@[i],
                            t,
                        ) && bit(self.filled@[i], t) == bit(mid3.filled@[i], t) by {
                            if t < old(self).cols() {
                                assert(col_ok(mid3, t));
                                assert(bit(self.known@[i], t) == (bit(mid3.known@[i], t) || bit(
                                    certain(mid3.col_candidates@[t]@, mid3.rows()),
                                    i,
                                )));
                                assert(bit(self.filled@[i], t) == (bit(mid3.filled@[i], t) || bit(
                                    forced_full(mid3.col_candidates@[t]@, mid3.rows()),
                                    i,
                                )));
                                if bit(forced_full(mid3.col_candidates@[t]@, mid3.rows()), i)
                                    && !bit(mid3.filled@[i], t) {
                                    assert(col_merge_conflict(
                                        mid3.filled@,
                                        mid3.known@,
                                        mid3.col_candidates@[t]@,
                                        t,
                                        mid3.rows(),
                                    ));
                                    assert(false);
                                }
                            } else {
                                assert(!bit(mid3.known@[i], t));
                            }
                        }
                        lemma_compat_weaken(
                            m,
                            mid3.filled@[i],
                            mid3.known@[i],
                            self.filled@[i],
                            self.known@[i],
                        );
                        assert(mid3.row_candidates@[i]@.contains(m));
                        assert(self.row_candidates@[i]@ == mid3.row_candidates@[i]@);
                    }
                    assert forall|c: int, m: u32|
                        0 <= c < old(self).cols() && #[trigger] old(
                            self,
                        ).col_candidates@[c]@.contains(m) && compat_col(
                            m,
                            self.filled@,
                            self.known@,
                            c,
                            old(self).rows(),
                        ) implies self.col_candidates@[c]@.contains(m) by {
                        assert forall|r: int|
                            0 <= r < old(self).rows() && #[trigger] bit(mid3.known@[r], c)
                            implies bit(self.known@[r], c) && bit(self.filled@[r], c) == bit(
                            mid3.filled@[r],
                            c,
                        ) by {
                            if 0 <= c < old(self).cols() {
                                assert(col_ok(mid3, c));
                                assert(bit(self.known@[r], c) == (bit(mid3.known@[r], c) || bit(
                                    certain(mid3.col_candidates@[c]@, mid3.rows()),
                                    r,
                                )));
                                assert(bit(self.filled@[r], c) == (bit(mid3.filled@[r], c) || bit(
                                    forced_full(mid3.col_candidates@[c]@, mid3.rows()),
                                    r,
                                )));
                                if bit(forced_full(mid3.col_candidates@[c]@, mid3.rows()), r)
                                    && !bit(mid3.filled@[r], c) {
                                    assert(col_merge_conflict(
                                        mid3.filled@,
                                        mid3.known@,
                                        mid3.col_candidates@[c]@,
                                        c,
                                        mid3.rows(),
                                    ));
                                    assert(false);
                                }
                            } else {
                                assert(!bit(mid3.known@[r], c));
                            }
                        }
                        lemma_compat_col_weaken(
                            m,
                            mid3.filled@,
                            mid3.known@,
                            self.filled@,
                            self.known@,
                            c,
                            old(self).rows(),
                        );
                        assert(mid3.col_candidates@[c]@.contains(m));
                        assert(self.col_candidates@[c]@ == mid3.col_candidates@[c]@);
                    }
                    // a surviving solution's columns sit in the merged sets,
                    // so the new knowledge still agrees with it
                    assert forall|sol: Seq<u32>|
                        candidates_complete(*old(self)) && #[trigger] is_solution(
                            sol,
                            *old(self),
                        ) implies forall|r: int|
                        0 <= r < old(self).rows() ==> compat(
                            #[trigger] sol[r],
                            self.filled@[r],
                            self.known@[r],
                        ) by {
                        assert forall|r: int|
                            0 <= r < old(self).rows() implies compat(
                            #[trigger] sol[r],
                            self.filled@[r],
                            self.known@[r],
                        ) by {
                            assert forall|t: int|
                                0 <= t < 32 && #[trigger] bit(self.known@[r], t) implies bit(
                                sol[r],
                                t,
                            ) == bit(self.filled@[r], t) by {
                                if t < old(self).cols() {
                                    let mc = lemma_solution_col_mask(sol, *old(self), t);
                                    assert(old(self).col_candidates@[t]@.contains(mc));
                                    assert(compat_col(
                                        mc,
                                        mid3.filled@,
                                        mid3.known@,
                                        t,
                                        old(self).rows(),
                                    )) by {
                                        assert forall|r2: int|
                                            0 <= r2 < old(self).rows() && #[trigger] bit(
                                                mid3.known@[r2],
                                                t,
                                            ) implies bit(mc, r2) == bit(mid3.filled@[r2], t) by {
                                            assert(compat(
                                                sol[r2],
                                                mid3.filled@[r2],
                                                mid3.known@[r2],
                                            ));
                                            assert(bit(mc, r2) == bit(sol[r2], t));
                                        }
                                    }
                                    assert(mid3.col_candidates@[t]@.contains(mc));
                                    assert(col_ok(mid3, t));
                                    assert(compat(sol[r], mid3.filled@[r], mid3.known@[r]));
                                    assert(bit(self.filled@[r], t) == (bit(mid3.filled@[r], t)
                                        || bit(
                                        forced_full(mid3.col_candidates@[t]@, mid3.rows()),
                                        r,
                                    )));
                                    assert(bit(self.known@[r], t) == (bit(mid3.known@[r], t) || bit(
                                        certain(mid3.col_candidates@[t]@, mid3.rows()),
                                        r,
                                    )));
                                    lemma_col_merge_keeps_cell(
                                        bit(sol[r], t),
                                        mc,
                                        mid3.col_candidates@[t]@,
                                        mid3.rows(),
                                        r,
                                        bit(mid3.filled@[r], t),
                                        bit(mid3.known@[r], t),
                                        bit(self.filled@[r], t),
                                        bit(self.known@[r], t),
                                    );
                                } else {
                                    assert(!bit(self.known@[r], t));
                                }
                            }
                        }
                    }
                } else {
                    assert(*self == mid3);
                }
                assert(drops_only_incompatible(*old(self), *self));
                // the column merge's outcome matches the specification's
                assert(mid3.filled@ == g_fs2);
                assert(mid3.known@ == g_ks2);
                assert(ok2 == spec_cols_ok(g_ccs3, g_fs2, g_ks2, g_rows)) by {
                    if ok2 {
                        assert forall|c: int|
                            0 <= c < g_ccs3.len() implies (#[trigger] g_ccs3[c]).len() > 0
                            && !col_merge_conflict(g_fs2, g_ks2, g_ccs3[c], c, g_rows) by {
                            assert(col_ok(mid3, c));
                            assert(mid3.col_candidates@[c]@ == g_ccs3[c]);
                        }
                    } else {
                        assert(!forall|c: int|
                            0 <= c < mid3.cols() ==> #[trigger] col_ok(mid3, c));
                        let c = choose|c: int| 0 <= c < mid3.cols() && !#[trigger] col_ok(mid3, c);
                        assert(mid3.col_candidates@[c]@ == g_ccs3[c]);
                        assert(!(g_ccs3[c].len() > 0 && !col_merge_conflict(
                            g_fs2,
                            g_ks2,
                            g_ccs3[c],
                            c,
                            g_rows,
                        )));
                    }
                }
                if ok2 {
                    assert forall|r: int|
                        0 <= r < g_fs4.len() implies self.filled@[r] == #[trigger] g_fs4[r]
                        && self.known@[r] == g_ks4[r] by {
                        assert forall|t: int|
                            0 <= t < 32 implies bit(self.filled@[r], t) == bit(g_fs4[r], t)
                            && bit(self.known@[r], t) == bit(g_ks4[r], t) by {
                            lemma_gather_forced_bit(g_ccs3, g_rows, r, g_cols, t);
                            lemma_gather_certain_bit(g_ccs3, g_rows, r, g_cols, t);
                            lemma_bit_or(g_fs2[r], gather_forced(g_ccs3, g_rows, r, g_cols), t);
                            lemma_bit_or(g_ks2[r], gather_certain(g_ccs3, g_rows, r, g_cols), t);
                            if t < g_cols {
                                assert(bit(self.filled@[r], t) == (bit(mid3.filled@[r], t) || bit(
                                    forced_full(mid3.col_candidates@[t]@, mid3.rows()),
                                    r,
                                )));
                                assert(bit(self.known@[r], t) == (bit(mid3.known@[r], t) || bit(
                                    certain(mid3.col_candidates@[t]@, mid3.rows()),
                                    r,
                                )));
                                assert(mid3.col_candidates@[t]@ == g_ccs3[t]);
                            } else {
                                assert(!bit(self.filled@[r], t));
                                assert(!bit(self.known@[r], t));
                                assert(!bit(g_fs2[r], t));
                                assert(!bit(g_ks2[r], t));
                            }
                        }
                        lemma_mask_ext(self.filled@[r], g_fs4[r]);
                        lemma_mask_ext(self.known@[r], g_ks4[r]);
                    }
                    assert(self.filled@ =~= g_fs4);
                    assert(self.known@ =~= g_ks4);
                    assert(cand_views(self.row_candidates@) =~= g_rcs1);
                }
            }
            if !ok2 {
                proof {
                    assert(*self == mid3);
                    assert(!forall|c: int| 0 <= c < mid3.cols() ==> #[trigger] col_ok(mid3, c));
                    let c = choose|c: int| 0 <= c < mid3.cols() && !#[trigger] col_ok(mid3, c);
                    assert(!col_ok(*self, c));
                    assert(has_contradiction(*self));
                    assert forall|x: int|
                        0 <= x < old(self).rows() implies mask_le(
                        #[trigger] old(self).filled@[x],
                        self.filled@[x],
                    ) && mask_le(old(self).known@[x], self.known@[x]) by {
                        assert(mask_le(old(self).filled@[x], mid0.filled@[x]));
                        assert(mask_le(old(self).known@[x], mid0.known@[x]));
                        assert(mask_le(mid1.filled@[x], mid2.filled@[x]));
                        assert(mask_le(mid1.known@[x], mid2.known@[x]));
                        assert(self.filled@[x] == mid2.filled@[x]);
                        assert(self.known@[x] == mid2.known@[x]);
                        lemma_mask_le_trans(old(self).filled@[x], mid1.filled@[x], self.filled@[x]);
                        lemma_mask_le_trans(old(self).known@[x], mid1.known@[x], self.known@[x]);
                    }
                    assert(keeps_knowledge(*old(self), *self));
                    // with a solution still alive the failing column would
                    // hold the solution's column, so no such solution exists
                    if candidates_complete(*old(self)) && (exists|sol: Seq<u32>|
                        #[trigger] is_solution(sol, *old(self))) {
                        let sol = choose|sol: Seq<u32>| is_solution(sol, *old(self));
                        let mc = lemma_solution_col_mask(sol, *old(self), c);
                        assert(old(self).col_candidates@[c]@.contains(mc));
                        assert(compat_col(mc, mid3.filled@, mid3.known@, c, old(self).rows())) by {
                            assert forall|r2: int|
                                0 <= r2 < old(self).rows() && #[trigger] bit(mid3.known@[r2], c)
                                implies bit(mc, r2) == bit(mid3.filled@[r2], c) by {
                                assert(compat(sol[r2], mid3.filled@[r2], mid3.known@[r2]));
                                assert(bit(mc, r2) == bit(sol[r2], c));
                            }
                        }
                        assert(mid3.col_candidates@[c]@.contains(mc));
                        lemma_solution_col_ok(mc, mid3, c);
                        assert(false);
                    }
                    assert forall|sol: Seq<u32>|
                        candidates_complete(*old(self)) && #[trigger] is_solution(
                            sol,
                            *old(self),
                        ) implies is_solution(sol, *self) by {
                        assert(false);
                    }
                    // the specification's run fails its column pass here too
                    assert(cand_views(self.row_candidates@) =~= g_rcs1);
                    assert(cand_views(self.col_candidates@) =~= g_ccs3);
                    assert(spec_run(
                        mid0.filled@,
                        mid0.known@,
                        g_rcs,
                        g_ccs,
                        g_rows,
                        g_cols,
                        old(self).row_constraints@,
                        old(self).col_constraints@,
                    ) == (
                        self.filled@,
                        self.known@,
                        cand_views(self.row_candidates@),
                        cand_views(self.col_candidates@),
                        Status::Contradiction,
                    ));
                }
                return self.snapshot(Status::Contradiction);
            }
            proof {
                // knowledge only grew over the two merge phases
                assert forall|i: int|
                    0 <= i < old(self).rows() implies mask_le(
                    #[trigger] old(self).filled@[i],
                    self.filled@[i],
                ) && mask_le(old(self).known@[i], self.known@[i]) by {
                    assert(keeps_knowledge(*old(self), mid0));
                    assert(mask_le(old(self).filled@[i], mid0.filled@[i]));
                    assert(mask_le(old(self).known@[i], mid0.known@[i]));
                    assert(mask_le(old(self).filled@[i], mid1.filled@[i]));
                    assert(mask_le(mid1.filled@[i], mid2.filled@[i]));
                    assert(mid3.filled@[i] == mid2.filled@[i]);
                    assert(mask_le(mid3.filled@[i], self.filled@[i]));
                    lemma_mask_le_trans(old(self).filled@[i], mid1.filled@[i], mid2.filled@[i]);
                    lemma_mask_le_trans(old(self).filled@[i], mid3.filled@[i], self.filled@[i]);
                    assert(mask_le(old(self).known@[i], mid1.known@[i]));
                    assert(mask_le(mid1.known@[i], mid2.known@[i]));
                    assert(mid3.known@[i] == mid2.known@[i]);
                    assert(mask_le(mid3.known@[i], self.known@[i]));
                    lemma_mask_le_trans(old(self).known@[i], mid1.known@[i], mid2.known@[i]);
                    lemma_mask_le_trans(old(self).known@[i], mid3.known@[i], self.known@[i]);
                }
                assert(keeps_knowledge(*old(self), *self));
                // a surviving solution is still a solution of the final state
                assert forall|sol: Seq<u32>|
                    candidates_complete(*old(self)) && #[trigger] is_solution(sol, *old(self))
                    implies is_solution(sol, *self) by {
                    assert forall|r: int|
                        0 <= r < old(self).rows() implies compat(
                        #[trigger] sol[r],
                        self.filled@[r],
                        self.known@[r],
                    ) by {}
                    assert forall|r: int|
                        0 <= r < self.rows() implies is_placement(
                        #[trigger] sol[r],
                        self.cols(),
                        self.row_constraints@[r]@,
                    ) by {
                        assert(self.row_constraints@[r] == old(self).row_constraints@[r]);
                        assert(is_placement(
                            sol[r],
                            old(self).cols(),
                            old(self).row_constraints@[r]@,
                        ));
                    }
                    assert forall|c: int|
                        0 <= c < self.cols() implies runs_of(col_seq(sol, c, self.rows()))
                        == #[trigger] self.col_constraints@[c]@ by {
                        assert(self.col_constraints@[c] == old(self).col_constraints@[c]);
                    }
                }
            }
            let after = self.num_unknown();
            proof {
                lemma_unknown_in_bounds(self.known@, old(self).rows(), old(self).cols());
                assert(unknown_in(g_ks4, g_rows, g_cols) == after as int);
                assert(unknown_in(mid0.known@, g_rows, g_cols) == before as int);
            }
            if after == 0 || after >= before {
                proof {
                    lemma_unknown_in_zero(self.known@, self.rows(), self.cols());
                    // every line kept at least one candidate through both
                    // phases, or the pass would have reported a contradiction
                    assert forall|i: int|
                        0 <= i < self.rows() implies (#[trigger] self.row_candidates@[i]@).len()
                        > 0 by {
                        assert(row_ok(mid1, i));
                        assert(self.row_candidates@[i] == mid1.row_candidates@[i]);
                    }
                    assert forall|c: int|
                        0 <= c < self.cols() implies (#[trigger] self.col_candidates@[c]@).len()
                        > 0 by {
                        assert(col_ok(mid3, c));
                        assert(self.col_candidates@[c] == mid3.col_candidates@[c]);
                    }
                }
                if after == 0 {
                    // a fully known grid is reported solved only when every
                    // row and column actually reads back its constraint;
                    // otherwise the board is contradictory, not solved
                    proof {
                        // the specification's run exits on a full grid here
                        assert(grid_ok(*self) == spec_grid_ok(
                            g_fs4,
                            g_rows,
                            g_cols,
                            old(self).row_constraints@,
                            old(self).col_constraints@,
                        ));
                        if grid_ok(*self) {
                            assert(spec_run(
                                mid0.filled@,
                                mid0.known@,
                                g_rcs,
                                g_ccs,
                                g_rows,
                                g_cols,
                                old(self).row_constraints@,
                                old(self).col_constraints@,
                            ) == (
                                self.filled@,
                                self.known@,
                                cand_views(self.row_candidates@),
                                cand_views(self.col_candidates@),
                                Status::Solved,
                            ));
                        } else {
                            assert(spec_run(
                                mid0.filled@,
                                mid0.known@,
                                g_rcs,
                                g_ccs,
                                g_rows,
                                g_cols,
                                old(self).row_constraints@,
                                old(self).col_constraints@,
                            ) == (
                                self.filled@,
                                self.known@,
                                cand_views(self.row_candidates@),
                                cand_views(self.col_candidates@),
                                Status::Contradiction,
                            ));
                        }
                    }
                    if self.grid_matches() {
                        return self.snapshot(Status::Solved);
                    }
                    proof {
                        // a surviving solution would make the fully known
                        // grid satisfy every constraint, which it does not
                        if candidates_complete(*old(self)) && (exists|sol: Seq<u32>|
                            #[trigger] is_solution(sol, *old(self))) {
                            let sol = choose|sol: Seq<u32>| is_solution(sol, *old(self));
                            assert(is_solution(sol, *self));
                            assert(self.all_known());
                            lemma_solution_grid_ok(sol, *self);
                            assert(false);
                        }
                    }
                    return self.snapshot(Status::Contradiction);
                }
                proof {
                    // the pair learned nothing: knowledge is unchanged, so
                    // the board has reached a fixed point of propagation
                    assert forall|r: int|
                        0 <= r < mid0.rows() implies mask_le(
                        #[trigger] mid0.known@[r],
                        self.known@[r],
                    ) by {
                        assert(mask_le(mid1.filled@[r], mid2.filled@[r]));
                        assert(mask_le(mid1.known@[r], mid2.known@[r]));
                        assert(mask_le(mid3.filled@[r], self.filled@[r]));
                        assert(mask_le(mid3.known@[r], self.known@[r]));
                        lemma_mask_le_trans(mid0.known@[r], mid2.known@[r], self.known@[r]);
                    }
                    lemma_unknown_in_mono(mid0.known@, self.known@, self.rows(), self.cols());
                    assert(unknown_in(self.known@, self.rows(), self.cols()) == unknown_in(
                        mid0.known@,
                        mid0.rows(),
                        mid0.cols(),
                    ));
                    lemma_no_progress_fixed_point(mid0, mid1, mid2, mid3, *self);
                }
                proof {
                    // the specification's run gets stuck here too
                    assert(spec_run(
                        mid0.filled@,
                        mid0.known@,
                        g_rcs,
                        g_ccs,
                        g_rows,
                        g_cols,
                        old(self).row_constraints@,
                        old(self).col_constraints@,
                    ) == (
                        self.filled@,
                        self.known@,
                        cand_views(self.row_candidates@),
                        cand_views(self.col_candidates@),
                        Status::Stuck,
                    ));
                }
                return self.snapshot(Status::Stuck);
            }
            proof {
                // one more specification pass from the head state lands on
                // the state this iteration computed
                assert(spec_run(
                    mid0.filled@,
                    mid0.known@,
                    g_rcs,
                    g_ccs,
                    g_rows,
                    g_cols,
                    old(self).row_constraints@,
                    old(self).col_constraints@,
                ) == spec_run(
                    self.filled@,
                    self.known@,
                    cand_views(self.row_candidates@),
                    cand_views(self.col_candidates@),
                    g_rows,
                    g_cols,
                    old(self).row_constraints@,
                    old(self).col_constraints@,
                ));
            }
        }
    }
}

} // verus!
