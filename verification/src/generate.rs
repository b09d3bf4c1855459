//! Candidate generation for one line.
//!
//! Every placement of a run-length constraint in a line of a given length is
//! enumerated as a bitmask. The runs occupy their lengths plus one mandatory
//! separator between neighbours; the remaining slack is distributed over the
//! gaps before, between and after the runs, which is a choice of divider
//! positions among `slack + runs` slots.
use vstd::prelude::*;

use itertools::Itertools;

use crate::bits::{bit, mask_fits, mask_seq, get_bit, lemma_bit_set, lemma_bit_zero,
    lemma_mask_ext, lemma_mask_no_bits_zero, lemma_seq_to_mask};
use crate::model::{CellState, Constraint, Line, full_bits, views_of};
use crate::runs::{falses, trues, runs_of, layout, layout_wf, to_ints, seq_sum, lemma_sum_concat,
    lemma_sum_singleton, lemma_sum_take_succ, lemma_sum_take_mono, lemma_runs_go_all_false,
    lemma_runs_of_layout, lemma_runs_inversion, lemma_layout_len, lemma_layout_inj,
    lemma_to_ints_inj, lemma_wf_gap_sum};

verus! {

/// `m` is one valid placement of the runs `vals` in a line of `len` cells.
pub open spec fn is_placement(m: u32, len: int, vals: Seq<int>) -> bool {
    mask_fits(m, len) && runs_of(mask_seq(m, len)) == vals
}

/// A strictly increasing pick of `k` positions below `n`.
pub open spec fn sorted_combo(w: Seq<usize>, n: int, k: int) -> bool {
    &&& w.len() == k
    &&& forall|t: int| 0 <= t < w.len() ==> (#[trigger] w[t]) < n
    &&& forall|t: int| 1 <= t < w.len() ==> w[t - 1] < #[trigger] w[t]
}

/// The absolute gaps encoded by divider positions `w` over `total` slots:
/// cells before the first divider, between consecutive dividers, and the
/// slots after the last divider. Only used with at least one divider.
pub open spec fn gaps_of_indices(w: Seq<int>, total: int) -> Seq<int> {
    Seq::new((w.len() + 1) as nat, |i: int|
        if i == 0 {
            w[0]
        } else if i < w.len() {
            w[i] - w[i - 1]
        } else {
            total - 1 - w[w.len() - 1]
        })
}

/// The divider positions encoding the absolute gaps `gaps`: prefix sums.
pub open spec fn indices_of_gaps(gaps: Seq<int>) -> Seq<int> {
    Seq::new((gaps.len() - 1) as nat, |i: int| seq_sum(gaps.take(i + 1)))
}

/// Relies on itertools' `combinations` over the range `0..n`: it yields
/// exactly the `k`-element subsets of the range, each as a vector of
/// positions in increasing order, each subset once (the subsets come in
/// strictly increasing lexicographic order, so no two yields are equal).
#[verifier::external_body]
fn index_combinations(n: usize, k: usize) -> (r: Vec<Vec<usize>>)
    ensures
        forall|j: int|
            0 <= j < r@.len() ==> #[trigger] sorted_combo(r@[j]@, n as int, k as int),
        forall|w: Seq<usize>|
            #[trigger] sorted_combo(w, n as int, k as int) ==> exists|j: int|
                0 <= j < r@.len() && r@[j]@ == w,
        forall|i: int, j: int|
            #![trigger r@[i]@, r@[j]@]
            0 <= i < j < r@.len() ==> r@[i]@ != r@[j]@,
{
    (0..n).combinations(k).collect()
}

/// The gaps of a divider pick sum to the slot count minus one.
proof fn lemma_gaps_sum(w: Seq<int>, total: int)
    requires
        w.len() >= 1,
    ensures
        seq_sum(gaps_of_indices(w, total)) == total - 1,
    decreases w.len(),
{
    let g = gaps_of_indices(w, total);
    if w.len() == 1 {
        assert(g =~= seq![w[0]] + seq![total - 1 - w[0]]);
        lemma_sum_concat(seq![w[0]], seq![total - 1 - w[0]]);
        lemma_sum_singleton(w[0]);
        lemma_sum_singleton(total - 1 - w[0]);
    } else {
        let wp = w.drop_last();
        let gp = gaps_of_indices(wp, w.last() + 1);
        assert(g =~= gp + seq![total - 1 - w.last()]);
        lemma_sum_concat(gp, seq![total - 1 - w.last()]);
        lemma_gaps_sum(wp, w.last() + 1);
        lemma_sum_singleton(total - 1 - w.last());
    }
}

/// The prefix sums of a pick's gaps give back the pick's positions.
proof fn lemma_gaps_prefix_sum(w: Seq<int>, total: int, t: int)
    requires
        w.len() >= 1,
        0 <= t < w.len(),
    ensures
        seq_sum(gaps_of_indices(w, total).take(t + 1)) == w[t],
    decreases t,
{
    let g = gaps_of_indices(w, total);
    lemma_sum_take_succ(g, t);
    if t == 0 {
        assert(g.take(0) =~= Seq::<int>::empty());
    } else {
        lemma_gaps_prefix_sum(w, total, t - 1);
    }
}

/// Reading the divider positions back off a pick's gaps gives the pick:
/// gaps determine their dividers.
proof fn lemma_indices_of_gaps_inverse(w: Seq<int>, total: int)
    requires
        w.len() >= 1,
    ensures
        indices_of_gaps(gaps_of_indices(w, total)) == w,
{
    let g = gaps_of_indices(w, total);
    let w2 = indices_of_gaps(g);
    assert forall|t: int| 0 <= t < w.len() implies w2[t] == w[t] by {
        lemma_gaps_prefix_sum(w, total, t);
    }
    assert(w2 =~= w);
}

/// The positions of a strictly increasing pick, as integers with their
/// bounds and ordering.
proof fn lemma_combo_ints(wu: Seq<usize>, n: int, total: int) -> (w: Seq<int>)
    requires
        sorted_combo(wu, total, n),
    ensures
        w == to_ints(wu),
        w.len() == n,
        forall|t: int| 0 <= t < w.len() ==> 0 <= #[trigger] w[t] < total,
        forall|t: int| 1 <= t < w.len() ==> w[t - 1] < #[trigger] w[t],
{
    let w = to_ints(wu);
    assert forall|t: int| 0 <= t < w.len() implies 0 <= #[trigger] w[t] < total by {
        assert(wu[t] < total);
    }
    assert forall|t: int| 1 <= t < w.len() implies w[t - 1] < #[trigger] w[t] by {
        assert(wu[t - 1] < wu[t]);
    }
    w
}

/// A strictly increasing divider pick encodes a well-formed layout of the
/// right line length.
proof fn lemma_combo_layout_wf(w: Seq<int>, vals: Seq<int>, total: int, ll: int)
    requires
        w.len() == vals.len(),
        vals.len() >= 1,
        forall|i: int| 0 <= i < vals.len() ==> #[trigger] vals[i] >= 1,
        forall|t: int| 0 <= t < w.len() ==> 0 <= #[trigger] w[t] < total,
        forall|t: int| 1 <= t < w.len() ==> w[t - 1] < #[trigger] w[t],
        ll == seq_sum(vals) + total - 1,
    ensures
        layout_wf(gaps_of_indices(w, total), vals),
        layout(gaps_of_indices(w, total), vals).len() == ll,
{
    let n = w.len() as int;
    let gi = gaps_of_indices(w, total);
    assert forall|t: int| 0 <= t < gi.len() implies #[trigger] gi[t] >= 0 by {
        if t == 0 {
        } else if t < n {
            assert(w[t - 1] < w[t]);
        } else {
            assert(w[n - 1] < total);
        }
    }
    assert forall|t: int| 1 <= t < vals.len() implies #[trigger] gi[t] >= 1 by {
        assert(w[t - 1] < w[t]);
    }
    assert(layout_wf(gi, vals));
    lemma_gaps_sum(w, total);
    lemma_layout_len(gi, vals);
}

/// Two masks that encode the same line of length `ll` are equal.
proof fn lemma_same_mask(m1: u32, m2: u32, ll: int)
    requires
        0 <= ll <= 32,
        mask_fits(m1, ll),
        mask_fits(m2, ll),
        mask_seq(m1, ll) == mask_seq(m2, ll),
    ensures
        m1 == m2,
{
    assert forall|i: int| 0 <= i < 32 implies bit(m1, i) == bit(m2, i) by {
        if i < ll {
            assert(mask_seq(m1, ll)[i] == bit(m1, i));
            assert(mask_seq(m2, ll)[i] == bit(m2, i));
        } else {
            assert(!bit(m1, i));
            assert(!bit(m2, i));
        }
    }
    lemma_mask_ext(m1, m2);
}

/// Every placement arises from some strictly increasing divider pick.
proof fn lemma_placement_combo(m: u32, ll: int, vals: Seq<int>, total: int) -> (wu: Seq<usize>)
    requires
        is_placement(m, ll, vals),
        0 <= ll,
        vals.len() >= 1,
        forall|i: int| 0 <= i < vals.len() ==> #[trigger] vals[i] >= 1,
        ll == seq_sum(vals) + total - 1,
        0 < total <= usize::MAX,
    ensures
        sorted_combo(wu, total, vals.len() as int),
        mask_seq(m, ll) == layout(gaps_of_indices(to_ints(wu), total), vals),
{
    let n = vals.len() as int;
    let gaps = lemma_runs_inversion(mask_seq(m, ll));
    lemma_layout_len(gaps, vals);
    assert(seq_sum(gaps) + seq_sum(vals) == ll);
    assert(seq_sum(gaps) == total - 1);
    let w = indices_of_gaps(gaps);
    assert(w.len() == n);
    assert(gaps.len() == n + 1);
    // each divider position is nonnegative and below the slot count
    assert forall|t: int| 0 <= t < n implies 0 <= #[trigger] w[t] < total by {
        assert(w[t] == seq_sum(gaps.take(t + 1)));
        assert(gaps.take(0) =~= Seq::<int>::empty());
        lemma_sum_take_mono(gaps, 0, t + 1);
        lemma_sum_take_mono(gaps, t + 1, n);
        lemma_sum_take_succ(gaps, n);
        assert(gaps.take(n + 1) =~= gaps);
        assert(seq_sum(gaps.take(n)) == seq_sum(gaps) - gaps[n]);
        assert(gaps[n] >= 0);
    }
    // and they strictly increase: each inner gap is positive
    assert forall|t: int| 1 <= t < n implies w[t - 1] < #[trigger] w[t] by {
        lemma_sum_take_succ(gaps, t);
        assert(gaps[t] >= 1);
    }
    let wu = Seq::new(w.len() as nat, |i: int| w[i] as usize);
    assert(to_ints(wu) =~= w);
    assert(sorted_combo(wu, total, n));
    // the gaps computed back from those dividers are the original gaps
    assert(gaps_of_indices(w, total) =~= gaps) by {
        assert forall|t: int|
            0 <= t < gaps.len() implies #[trigger] gaps_of_indices(w, total)[t] == gaps[t] by {
            if t == 0 {
                lemma_sum_take_succ(gaps, 0);
                assert(gaps.take(0) =~= Seq::<int>::empty());
                assert(gaps.take(1)[0] == gaps[0]);
            } else if t < n {
                lemma_sum_take_succ(gaps, t);
            } else {
                lemma_sum_take_succ(gaps, n);
                assert(gaps.take(n + 1) =~= gaps);
            }
        }
    }
    wu
}

/// Converts divider positions to the gap lengths they encode.
fn gaps_from_indices(w: &Vec<usize>, total: usize) -> (g: Vec<usize>)
    requires
        w@.len() >= 1,
        sorted_combo(w@, total as int, w@.len() as int),
    ensures
        g@.len() == w@.len() + 1,
        to_ints(g@) == gaps_of_indices(to_ints(w@), total as int),
{
    let ghost target = gaps_of_indices(to_ints(w@), total as int);
    let n = w.len();
    let mut g: Vec<usize> = Vec::new();
    g.push(w[0]);
    for i in 1..n
        invariant
            n == w@.len(),
            sorted_combo(w@, total as int, n as int),
            target == gaps_of_indices(to_ints(w@), total as int),
            g@.len() == i,
            forall|j: int| 0 <= j < i ==> #[trigger] g@[j] as int == target[j],
    {
        proof {
            assert(w@[i - 1] < w@[i as int]);
        }
        g.push(w[i] - w[i - 1]);
    }
    proof {
        assert(w@[n - 1] < total);
    }
    g.push(total - 1 - w[n - 1]);
    proof {
        assert(to_ints(g@) =~= target);
    }
    g
}

/// Lays a line out from its gaps and run lengths, cell by cell.
fn build_cells(gaps: &Vec<usize>, values: &Vec<usize>) -> (v: Vec<bool>)
    requires
        gaps@.len() == values@.len() + 1,
    ensures
        v@ == layout(to_ints(gaps@), to_ints(values@)),
{
    let ghost gg = to_ints(gaps@);
    let ghost vv = to_ints(values@);
    let mut v: Vec<bool> = Vec::new();
    let n = values.len();
    proof {
        assert(gg.skip(0) =~= gg);
        assert(vv.skip(0) =~= vv);
        assert(layout(gg, vv) =~= v@ + layout(gg.skip(0), vv.skip(0)));
    }
    for k in 0..n
        invariant
            n == values@.len(),
            gaps@.len() == n + 1,
            gg == to_ints(gaps@),
            vv == to_ints(values@),
            layout(gg, vv) == v@ + layout(gg.skip(k as int), vv.skip(k as int)),
    {
        let ghost tail_g = gg.skip(k as int);
        let ghost tail_v = vv.skip(k as int);
        proof {
            assert(tail_v.len() > 0);
            assert(tail_g[0] == gaps@[k as int] as int);
            assert(tail_v[0] == values@[k as int] as int);
            assert(tail_g.drop_first() =~= gg.skip(k + 1));
            assert(tail_v.drop_first() =~= vv.skip(k + 1));
        }
        let ghost base = v@;
        let gk = gaps[k];
        for t in 0..gk
            invariant
                v@ == base + falses(t as int),
        {
            v.push(false);
            proof {
                assert(v@ =~= base + falses(t + 1));
            }
        }
        let ghost base2 = v@;
        let vk = values[k];
        for t in 0..vk
            invariant
                v@ == base2 + trues(t as int),
        {
            v.push(true);
            proof {
                assert(v@ =~= base2 + trues(t + 1));
            }
        }
        proof {
            assert(layout(tail_g, tail_v) == falses(tail_g[0]) + trues(tail_v[0]) + layout(
                gg.skip(k + 1),
                vv.skip(k + 1),
            ));
            assert(v@ =~= base + falses(gk as int) + trues(vk as int));
            assert(base + falses(gk as int) + trues(vk as int) + layout(
                gg.skip(k + 1),
                vv.skip(k + 1),
            ) =~= base + (falses(gk as int) + trues(vk as int) + layout(
                gg.skip(k + 1),
                vv.skip(k + 1),
            )));
            assert(layout(gg, vv) == v@ + layout(gg.skip(k + 1), vv.skip(k + 1)));
        }
    }
    let ghost base3 = v@;
    let gn = gaps[n];
    for t in 0..gn
        invariant
            v@ == base3 + falses(t as int),
    {
        v.push(false);
        proof {
            assert(v@ =~= base3 + falses(t + 1));
        }
    }
    proof {
        assert(vv.skip(n as int) =~= Seq::<int>::empty());
        assert(gg.skip(n as int).len() == 1);
        assert(gg.skip(n as int)[0] == gaps@[n as int] as int);
        assert(layout(gg.skip(n as int), vv.skip(n as int)) == falses(gn as int));
        assert(v@ =~= layout(gg, vv));
    }
    v
}

/// Packs a line of cells into a bitmask.
fn mask_from_bools(v: &Vec<bool>) -> (m: u32)
    requires
        v@.len() <= 32,
    ensures
        mask_fits(m, v@.len() as int),
        forall|i: int| 0 <= i < v@.len() ==> bit(m, i) == v@[i],
{
    let mut m: u32 = 0;
    proof {
        assert forall|i: int| 0 <= i < 32 implies !bit(m, i) by {
            lemma_bit_zero(i);
        }
    }
    let n = v.len();
    for i in 0..n
        invariant
            n == v@.len() <= 32,
            forall|j: int| 0 <= j < i ==> bit(m, j) == v@[j],
            forall|j: int| i <= j < 32 ==> !bit(m, j),
    {
        if v[i] {
            let ghost m0 = m;
            m = m | (1u32 << (i as u32));
            proof {
                assert forall|b: int| 0 <= b < 32 implies bit(m, b) == (bit(m0, b) || b
                    == i as int) by {
                    lemma_bit_set(m0, i as u32, b);
                }
            }
        }
    }
    m
}

/// No placement exists when the runs and their separators need more cells
/// than the line has.
proof fn lemma_unsatisfiable(len: int, vals: Seq<int>)
    requires
        len >= 0,
        forall|i: int| 0 <= i < vals.len() ==> #[trigger] vals[i] >= 1,
    ensures
        vals.len() - 1 + seq_sum(vals) > len ==> forall|m: u32| !is_placement(m, len, vals),
{
    if vals.len() - 1 + seq_sum(vals) > len {
        assert forall|m: u32| !is_placement(m, len, vals) by {
            if is_placement(m, len, vals) {
                let gaps = lemma_runs_inversion(mask_seq(m, len));
                lemma_layout_len(gaps, vals);
                lemma_wf_gap_sum(gaps, vals);
                assert(mask_seq(m, len).len() == len);
                assert(false);
            }
        }
    }
}

/// Enumerates every placement of `constraint` in a line of `length` cells,
/// each as a bitmask: each returned mask reads back as exactly the given
/// runs, and every mask that does so is returned. The result is empty
/// exactly when the constraint does not fit in the line. The number of
/// placements grows combinatorially — binomially in the free slack and the
/// run count — which the mask width keeps within bounds.
pub fn generate(length: usize, constraint: &Constraint) -> (r: Vec<u32>)
    requires
        length <= 32,
        constraint.wf(),
    ensures
        forall|j: int|
            0 <= j < r@.len() ==> is_placement(#[trigger] r@[j], length as int, constraint@),
        forall|m: u32| is_placement(m, length as int, constraint@) ==> r@.contains(m),
        forall|i: int, j: int|
            #![trigger r@[i], r@[j]]
            0 <= i < j < r@.len() ==> r@[i] != r@[j],
{
    let values = &constraint.values;
    let n = values.len();
    let ghost vals = constraint@;
    let ghost ll = length as int;
    proof {
        assert(vals.len() == n);
        assert forall|i: int| 0 <= i < vals.len() implies #[trigger] vals[i] >= 0 by {
            assert(vals[i] >= 1);
        }
    }
    if n == 0 {
        let mut r: Vec<u32> = Vec::new();
        r.push(0u32);
        proof {
            assert(vals =~= Seq::<int>::empty());
            assert forall|i: int| 0 <= i < 32 implies !bit(0u32, i) by {
                lemma_bit_zero(i);
            }
            assert(mask_seq(0u32, ll) =~= falses(ll));
            lemma_runs_go_all_false(ll, 0);
            assert(is_placement(0u32, ll, vals));
            assert forall|m: u32| is_placement(m, ll, vals) implies r@.contains(m) by {
                let gaps = lemma_runs_inversion(mask_seq(m, ll));
                assert(mask_seq(m, ll) == layout(gaps, vals));
                assert(layout(gaps, vals) == falses(gaps[0]));
                assert forall|i: int| !bit(m, i) by {
                    if 0 <= i < ll {
                        assert(mask_seq(m, ll)[i] == bit(m, i));
                        assert(!falses(gaps[0])[i]);
                    } else if 0 <= i < 32 {
                        assert(!bit(m, i));
                    }
                }
                lemma_mask_no_bits_zero(m);
                assert(r@[0] == m);
            }
        }
        return r;
    }
    // Space the runs need: their lengths plus one separator between
    // neighbours. Tracked incrementally so that the additions cannot
    // overflow; as soon as it exceeds the line length the constraint is
    // unsatisfiable and no candidate exists.
    let mut occ: usize = n - 1;
    if occ > length {
        proof {
            assert(vals.take(0) =~= Seq::<int>::empty());
            lemma_sum_take_mono(vals, 0, vals.len() as int);
            assert(vals.take(vals.len() as int) =~= vals);
            assert(seq_sum(vals) >= 0);
            lemma_unsatisfiable(ll, vals);
        }
        return Vec::new();
    }
    for k in 0..n
        invariant
            n == values@.len(),
            vals == constraint@,
            vals == to_ints(values@),
            vals.len() == n,
            constraint.wf(),
            ll == length as int,
            forall|i: int| 0 <= i < vals.len() ==> #[trigger] vals[i] >= 1,
            occ as int == n - 1 + seq_sum(vals.take(k as int)),
            occ <= length,
    {
        proof {
            lemma_sum_take_succ(vals, k as int);
        }
        let vk = values[k];
        proof {
            assert(vals[k as int] == vk as int);
        }
        if vk > length - occ {
            proof {
                // the whole constraint needs even more space than this prefix
                assert forall|i: int| 0 <= i < vals.len() implies #[trigger] vals[i] >= 0 by {
                    assert(vals[i] >= 1);
                }
                assert(vals.take(n as int) =~= vals);
                lemma_sum_take_mono(vals, k + 1, n as int);
                lemma_unsatisfiable(ll, vals);
            }
            return Vec::new();
        }
        occ = occ + vk;
    }
    proof {
        assert(vals.take(n as int) =~= vals);
        assert(occ as int == n - 1 + seq_sum(vals));
    }
    let free = length - occ;
    let total = free + n;
    let combs = index_combinations(total, n);
    let mut r: Vec<u32> = Vec::new();
    let nc = combs.len();
    for j2 in 0..nc
        invariant
            nc == combs@.len(),
            n == values@.len(),
            n >= 1,
            vals == constraint@,
            vals == to_ints(values@),
            vals.len() == n,
            forall|i: int| 0 <= i < vals.len() ==> #[trigger] vals[i] >= 1,
            ll == length as int,
            length <= 32,
            occ as int == n - 1 + seq_sum(vals),
            occ <= length,
            free == length - occ,
            total == free + n,
            forall|j: int|
                0 <= j < nc ==> #[trigger] sorted_combo(combs@[j]@, total as int, n as int),
            r@.len() == j2,
            forall|j: int| 0 <= j < j2 ==> is_placement(#[trigger] r@[j], ll, vals),
            forall|j: int|
                0 <= j < j2 ==> mask_seq(#[trigger] r@[j], ll) == layout(
                    gaps_of_indices(to_ints(combs@[j]@), total as int),
                    vals,
                ),
    {
        let w = &combs[j2];
        let ghost wi = to_ints(w@);
        let ghost gi = gaps_of_indices(wi, total as int);
        proof {
            assert(sorted_combo(combs@[j2 as int]@, total as int, n as int));
            assert(wi.len() == n);
            assert forall|t: int| 0 <= t < wi.len() implies 0 <= #[trigger] wi[t]
                < total as int by {
                assert(w@[t] < total);
            }
            assert forall|t: int| 1 <= t < wi.len() implies wi[t - 1] < #[trigger] wi[t] by {
                assert(w@[t - 1] < w@[t]);
            }
            lemma_combo_layout_wf(wi, vals, total as int, ll);
        }
        let g = gaps_from_indices(w, total);
        let cells = build_cells(&g, values);
        proof {
            assert(to_ints(values@) =~= vals);
            assert(cells@ == layout(gi, vals));
        }
        let m = mask_from_bools(&cells);
        proof {
            assert(mask_seq(m, ll) =~= layout(gi, vals));
            lemma_runs_of_layout(gi, vals);
            assert(is_placement(m, ll, vals));
        }
        r.push(m);
    }
    proof {
        assert forall|m: u32| is_placement(m, ll, vals) implies r@.contains(m) by {
            let wu = lemma_placement_combo(m, ll, vals, total as int);
            let j = choose|j: int| 0 <= j < combs@.len() && combs@[j]@ == wu;
            assert(mask_seq(r@[j], ll) == mask_seq(m, ll));
            lemma_same_mask(r@[j], m, ll);
            assert(r@.contains(m));
        }
        // two distinct divider picks lay their runs out differently, so no
        // placement is emitted twice
        assert forall|i: int, j: int|
            #![trigger r@[i], r@[j]]
            0 <= i < j < r@.len() implies r@[i] != r@[j] by {
            if r@[i] == r@[j] {
                let wi = lemma_combo_ints(combs@[i]@, n as int, total as int);
                let wj = lemma_combo_ints(combs@[j]@, n as int, total as int);
                lemma_combo_layout_wf(wi, vals, total as int, ll);
                lemma_combo_layout_wf(wj, vals, total as int, ll);
                assert(layout(gaps_of_indices(wi, total as int), vals) == layout(
                    gaps_of_indices(wj, total as int),
                    vals,
                ));
                lemma_layout_inj(
                    gaps_of_indices(wi, total as int),
                    gaps_of_indices(wj, total as int),
                    vals,
                );
                lemma_indices_of_gaps_inverse(wi, total as int);
                lemma_indices_of_gaps_inverse(wj, total as int);
                assert(wi == wj);
                lemma_to_ints_inj(combs@[i]@, combs@[j]@);
                assert(false);
            }
        }
    }
    r
}

/// The per-cell reading of the placement mask `m` on a line of `len` cells.
pub open spec fn cells_of_mask(m: u32, len: int) -> Seq<CellState> {
    Seq::new(len as nat, |i: int|
        if bit(m, i) {
            CellState::Full
        } else {
            CellState::Empty
        })
}

/// `l` is one per-cell candidate for the runs `vals` in a line of `len`
/// cells: fully determined, and reading back exactly those runs.
pub open spec fn is_candidate_line(l: Seq<CellState>, len: int, vals: Seq<int>) -> bool {
    &&& l.len() == len
    &&& forall|i: int|
        0 <= i < l.len() ==> (#[trigger] l[i] == CellState::Full || l[i] == CellState::Empty)
    &&& runs_of(full_bits(l)) == vals
}

impl Line {
    /// Every placement of `constraint` in a line of `length` cells, in
    /// per-cell form; the same candidates as [`generate`], spelled out as
    /// lines of full and empty cells.
    pub fn generate_initial_candidates(length: usize, constraint: &Constraint) -> (r: Vec<Line>)
        requires
            length <= 32,
            constraint.wf(),
        ensures
            forall|j: int|
                0 <= j < r@.len() ==> is_candidate_line(
                    #[trigger] views_of(r@)[j],
                    length as int,
                    constraint@,
                ),
            forall|l: Seq<CellState>|
                #[trigger] is_candidate_line(l, length as int, constraint@) ==> views_of(
                    r@,
                ).contains(l),
            forall|i: int, j: int|
                #![trigger views_of(r@)[i], views_of(r@)[j]]
                0 <= i < j < r@.len() ==> views_of(r@)[i] != views_of(r@)[j],
    {
        let ghost ll = length as int;
        let ghost vals = constraint@;
        let masks = generate(length, constraint);
        let mut r: Vec<Line> = Vec::new();
        let n = masks.len();
        for j in 0..n
            invariant
                n == masks@.len(),
                length <= 32,
                ll == length as int,
                vals == constraint@,
                forall|x: int|
                    0 <= x < n ==> is_placement(#[trigger] masks@[x], ll, vals),
                forall|m: u32| is_placement(m, ll, vals) ==> masks@.contains(m),
                r@.len() == j,
                forall|x: int|
                    0 <= x < j ==> #[trigger] views_of(r@)[x] == cells_of_mask(masks@[x], ll),
        {
            let m = masks[j];
            let mut cells: Vec<CellState> = Vec::new();
            for i in 0..length
                invariant
                    i <= length <= 32,
                    cells@.len() == i,
                    forall|t: int| 0 <= t < i ==> #[trigger] cells@[t] == cells_of_mask(m, length as int)[t],
            {
                let cell = if get_bit(m, i) {
                    CellState::Full
                } else {
                    CellState::Empty
                };
                cells.push(cell);
            }
            proof {
                assert(cells@ =~= cells_of_mask(m, ll));
            }
            let line = Line::new(cells);
            let ghost r0 = r@;
            r.push(line);
            proof {
                assert forall|x: int|
                    0 <= x < j + 1 implies #[trigger] views_of(r@)[x] == cells_of_mask(
                    masks@[x],
                    ll,
                ) by {
                    if x < j as int {
                        assert(views_of(r@)[x] == r0[x]@);
                        assert(views_of(r0)[x] == r0[x]@);
                    } else {
                        assert(views_of(r@)[x] == line@);
                    }
                }
            }
        }
        proof {
            // each produced line is a candidate: its cells read back as the
            // mask's placement
            assert forall|j: int|
                0 <= j < r@.len() implies is_candidate_line(
                #[trigger] views_of(r@)[j],
                ll,
                vals,
            ) by {
                let l = views_of(r@)[j];
                assert(l == cells_of_mask(masks@[j], ll));
                assert(is_placement(masks@[j], ll, vals));
                assert(full_bits(l) =~= mask_seq(masks@[j], ll));
            }
            // and every candidate line is produced: its cells encode as some
            // mask, which the mask generator is known to emit
            assert forall|l: Seq<CellState>|
                #[trigger] is_candidate_line(l, ll, vals) implies views_of(r@).contains(l) by {
                let s = full_bits(l);
                let m = lemma_seq_to_mask(s);
                assert(runs_of(mask_seq(m, ll)) == vals);
                assert(is_placement(m, ll, vals));
                assert(masks@.contains(m));
                let x = choose|x: int| 0 <= x < masks@.len() && masks@[x] == m;
                assert(views_of(r@)[x] == cells_of_mask(m, ll));
                assert forall|i: int| 0 <= i < ll implies cells_of_mask(m, ll)[i] == l[i] by {
                    assert(bit(m, i) == s[i]);
                    assert(s[i] == (l[i] == CellState::Full));
                    assert(l[i] == CellState::Full || l[i] == CellState::Empty);
                }
                assert(cells_of_mask(m, ll) =~= l);
                assert(views_of(r@).contains(l));
            }
            // distinct masks read as distinct lines
            assert forall|i: int, j: int|
                #![trigger views_of(r@)[i], views_of(r@)[j]]
                0 <= i < j < r@.len() implies views_of(r@)[i] != views_of(r@)[j] by {
                if views_of(r@)[i] == views_of(r@)[j] {
                    let mi = masks@[i];
                    let mj = masks@[j];
                    assert(cells_of_mask(mi, ll) == cells_of_mask(mj, ll));
                    assert forall|t: int| 0 <= t < ll implies mask_seq(mi, ll)[t] == mask_seq(
                        mj,
                        ll,
                    )[t] by {
                        assert(cells_of_mask(mi, ll)[t] == cells_of_mask(mj, ll)[t]);
                    }
                    assert(mask_seq(mi, ll) =~= mask_seq(mj, ll));
                    assert(is_placement(mi, ll, vals));
                    assert(is_placement(mj, ll, vals));
                    lemma_same_mask(mi, mj, ll);
                    assert(masks@[i] != masks@[j]);
                    assert(false);
                }
            }
        }
        r
    }
}

} // verus!
