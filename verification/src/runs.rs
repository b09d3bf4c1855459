//! Run-length signatures of lines.
//!
//! A line is a boolean sequence (`true` = full cell). Its signature is the
//! sequence of lengths of its maximal blocks of full cells; a nonogram
//! constraint is exactly such a signature. A line can equivalently be
//! described by a `layout`: alternating gaps of empty cells and runs of full
//! cells. The two main lemmas relate the descriptions in both directions.
use vstd::prelude::*;

verus! {

/// A block of `n` empty cells.
pub open spec fn falses(n: int) -> Seq<bool> {
    Seq::new(if n >= 0 { n } else { 0 } as nat, |i: int| false)
}

/// A block of `n` full cells.
pub open spec fn trues(n: int) -> Seq<bool> {
    Seq::new(if n >= 0 { n } else { 0 } as nat, |i: int| true)
}

/// Scans `s` for runs of `true`; `cur` is the length of the run open just
/// before `s` starts.
pub open spec fn runs_go(s: Seq<bool>, cur: int) -> Seq<int>
    decreases s.len(),
{
    if s.len() == 0 {
        if cur > 0 {
            seq![cur]
        } else {
            Seq::empty()
        }
    } else if s[0] {
        runs_go(s.drop_first(), cur + 1)
    } else if cur > 0 {
        seq![cur] + runs_go(s.drop_first(), 0)
    } else {
        runs_go(s.drop_first(), 0)
    }
}

/// The run-length signature of a line: the lengths of its maximal blocks of
/// full cells, in order.
pub open spec fn runs_of(s: Seq<bool>) -> Seq<int> {
    runs_go(s, 0)
}

/// A machine-integer sequence, seen as mathematical integers.
pub open spec fn to_ints(s: Seq<usize>) -> Seq<int> {
    Seq::new(s.len(), |i: int| s[i] as int)
}

pub proof fn lemma_to_ints_inj(a: Seq<usize>, b: Seq<usize>)
    requires
        to_ints(a) == to_ints(b),
    ensures
        a == b,
{
    assert(to_ints(a).len() == a.len());
    assert(to_ints(b).len() == b.len());
    assert forall|i: int| 0 <= i < a.len() implies a[i] == b[i] by {
        assert(to_ints(a)[i] == a[i] as int);
        assert(to_ints(b)[i] == b[i] as int);
    }
    assert(a =~= b);
}

/// Sum of an integer sequence.
pub open spec fn seq_sum(s: Seq<int>) -> int
    decreases s.len(),
{
    if s.len() == 0 {
        0
    } else {
        s[0] + seq_sum(s.drop_first())
    }
}

/// The line laid out from absolute gaps and run lengths: `gaps[0]` empty
/// cells, then `vals[0]` full cells, then `gaps[1]` empty cells, and so on,
/// ending with `gaps[vals.len()]` empty cells.
pub open spec fn layout(gaps: Seq<int>, vals: Seq<int>) -> Seq<bool>
    decreases vals.len(),
{
    if vals.len() == 0 {
        falses(gaps[0])
    } else {
        falses(gaps[0]) + trues(vals[0]) + layout(gaps.drop_first(), vals.drop_first())
    }
}

/// A well-formed layout: one more gap than runs, runs positive, inner gaps
/// positive (they contain the mandatory separator between adjacent runs),
/// outer gaps nonnegative.
pub open spec fn layout_wf(gaps: Seq<int>, vals: Seq<int>) -> bool {
    &&& gaps.len() == vals.len() + 1
    &&& forall|i: int| 0 <= i < vals.len() ==> #[trigger] vals[i] >= 1
    &&& forall|i: int| 0 <= i < gaps.len() ==> #[trigger] gaps[i] >= 0
    &&& forall|i: int| 1 <= i < vals.len() ==> #[trigger] gaps[i] >= 1
}

pub proof fn lemma_runs_go_falses(a: int, t: Seq<bool>)
    requires
        a >= 0,
    ensures
        runs_go(falses(a) + t, 0) == runs_go(t, 0),
    decreases a,
{
    if a == 0 {
        assert(falses(0) + t =~= t);
    } else {
        let s = falses(a) + t;
        assert(!s[0]);
        assert(s.drop_first() =~= falses(a - 1) + t);
        lemma_runs_go_falses(a - 1, t);
    }
}

pub proof fn lemma_runs_go_trues(v: int, t: Seq<bool>, cur: int)
    requires
        v >= 0,
    ensures
        runs_go(trues(v) + t, cur) == runs_go(t, cur + v),
    decreases v,
{
    if v == 0 {
        assert(trues(0) + t =~= t);
    } else {
        let s = trues(v) + t;
        assert(s[0]);
        assert(s.drop_first() =~= trues(v - 1) + t);
        lemma_runs_go_trues(v - 1, t, cur + 1);
    }
}

pub proof fn lemma_runs_go_all_false(a: int, cur: int)
    requires
        a >= 0,
    ensures
        runs_go(falses(a), cur) == if cur > 0 {
            seq![cur]
        } else {
            Seq::<int>::empty()
        },
    decreases a,
{
    if a > 0 {
        assert(!falses(a)[0]);
        assert(falses(a).drop_first() =~= falses(a - 1));
        lemma_runs_go_all_false(a - 1, 0);
        if cur > 0 {
            assert(seq![cur] + Seq::<int>::empty() =~= seq![cur]);
        }
    }
}

/// Every run in a signature is positive.
pub proof fn lemma_runs_pos(s: Seq<bool>, cur: int)
    requires
        cur >= 0,
    ensures
        forall|k: int| 0 <= k < runs_go(s, cur).len() ==> #[trigger] runs_go(s, cur)[k] >= 1,
    decreases s.len(),
{
    let r = runs_go(s, cur);
    if s.len() == 0 {
    } else if s[0] {
        lemma_runs_pos(s.drop_first(), cur + 1);
        assert(r == runs_go(s.drop_first(), cur + 1));
    } else {
        lemma_runs_pos(s.drop_first(), 0);
        let rest = runs_go(s.drop_first(), 0);
        assert forall|k: int| 0 <= k < r.len() implies #[trigger] r[k] >= 1 by {
            if cur > 0 {
                assert(r == seq![cur] + rest);
                if k >= 1 {
                    assert(r[k] == rest[k - 1]);
                }
            } else {
                assert(r == rest);
            }
        }
    }
}

pub proof fn lemma_sum_concat(a: Seq<int>, b: Seq<int>)
    ensures
        seq_sum(a + b) == seq_sum(a) + seq_sum(b),
    decreases a.len(),
{
    if a.len() == 0 {
        assert(a + b =~= b);
    } else {
        assert((a + b).drop_first() =~= a.drop_first() + b);
        lemma_sum_concat(a.drop_first(), b);
    }
}

pub proof fn lemma_sum_singleton(x: int)
    ensures
        seq_sum(seq![x]) == x,
{
    let s = seq![x];
    assert(s.drop_first() =~= Seq::<int>::empty());
    assert(seq_sum(Seq::<int>::empty()) == 0);
    assert(seq_sum(s) == s[0] + seq_sum(s.drop_first()));
}

pub proof fn lemma_sum_take_succ(s: Seq<int>, k: int)
    requires
        0 <= k < s.len(),
    ensures
        seq_sum(s.take(k + 1)) == seq_sum(s.take(k)) + s[k],
{
    assert(s.take(k + 1) =~= s.take(k) + seq![s[k]]);
    lemma_sum_concat(s.take(k), seq![s[k]]);
    lemma_sum_singleton(s[k]);
}

pub proof fn lemma_sum_take_mono(s: Seq<int>, k1: int, k2: int)
    requires
        0 <= k1 <= k2 <= s.len(),
        forall|i: int| 0 <= i < s.len() ==> #[trigger] s[i] >= 0,
    ensures
        seq_sum(s.take(k1)) <= seq_sum(s.take(k2)),
    decreases k2 - k1,
{
    if k1 < k2 {
        lemma_sum_take_mono(s, k1, k2 - 1);
        lemma_sum_take_succ(s, k2 - 1);
    }
}

pub proof fn lemma_sum_nonneg(s: Seq<int>)
    requires
        forall|i: int| 0 <= i < s.len() ==> #[trigger] s[i] >= 0,
    ensures
        seq_sum(s) >= 0,
    decreases s.len(),
{
    if s.len() > 0 {
        lemma_sum_nonneg(s.drop_first());
    }
}

pub proof fn lemma_sum_ge_len(s: Seq<int>)
    requires
        forall|i: int| 0 <= i < s.len() ==> #[trigger] s[i] >= 1,
    ensures
        seq_sum(s) >= s.len(),
    decreases s.len(),
{
    if s.len() > 0 {
        lemma_sum_ge_len(s.drop_first());
    }
}

/// A well-formed layout needs at least one separator cell between adjacent
/// runs: its gaps sum to at least the number of runs minus one.
pub proof fn lemma_wf_gap_sum(gaps: Seq<int>, vals: Seq<int>)
    requires
        layout_wf(gaps, vals),
    ensures
        seq_sum(gaps) >= vals.len() - 1,
{
    let n = vals.len() as int;
    if n == 0 {
        lemma_sum_nonneg(gaps);
    } else {
        let inner = gaps.subrange(1, n);
        let head = gaps.subrange(0, 1);
        let tail = gaps.subrange(n, n + 1);
        assert(gaps =~= head + inner + tail);
        assert((head + inner + tail) =~= head + (inner + tail));
        lemma_sum_concat(head, inner + tail);
        lemma_sum_concat(inner, tail);
        lemma_sum_ge_len(inner);
        assert(seq_sum(head) == head[0] + seq_sum(head.drop_first()));
        assert(head.drop_first() =~= Seq::<int>::empty());
        assert(seq_sum(tail) == tail[0] + seq_sum(tail.drop_first()));
        assert(tail.drop_first() =~= Seq::<int>::empty());
    }
}

/// The length of a layout is the sum of its gaps and runs.
pub proof fn lemma_layout_len(gaps: Seq<int>, vals: Seq<int>)
    requires
        gaps.len() == vals.len() + 1,
        forall|i: int| 0 <= i < gaps.len() ==> #[trigger] gaps[i] >= 0,
        forall|i: int| 0 <= i < vals.len() ==> #[trigger] vals[i] >= 0,
    ensures
        layout(gaps, vals).len() == seq_sum(gaps) + seq_sum(vals),
    decreases vals.len(),
{
    if vals.len() == 0 {
        assert(seq_sum(gaps) == gaps[0] + seq_sum(gaps.drop_first()));
        assert(gaps.drop_first() =~= Seq::<int>::empty());
    } else {
        lemma_layout_len(gaps.drop_first(), vals.drop_first());
        assert(seq_sum(gaps) == gaps[0] + seq_sum(gaps.drop_first()));
        assert(seq_sum(vals) == vals[0] + seq_sum(vals.drop_first()));
    }
}

/// Reading the runs back off a well-formed layout yields exactly its run
/// lengths.
pub proof fn lemma_runs_of_layout(gaps: Seq<int>, vals: Seq<int>)
    requires
        layout_wf(gaps, vals),
    ensures
        runs_of(layout(gaps, vals)) == vals,
    decreases vals.len(),
{
    if vals.len() == 0 {
        lemma_runs_go_all_false(gaps[0], 0);
        assert(vals =~= Seq::<int>::empty());
    } else {
        let v0 = vals[0];
        let rest = layout(gaps.drop_first(), vals.drop_first());
        assert(falses(gaps[0]) + trues(v0) + rest =~= falses(gaps[0]) + (trues(v0) + rest));
        lemma_runs_go_falses(gaps[0], trues(v0) + rest);
        lemma_runs_go_trues(v0, rest, 0);
        // runs_of(layout) == runs_go(rest, v0)
        if vals.len() == 1 {
            assert(rest =~= falses(gaps.drop_first()[0]));
            lemma_runs_go_all_false(gaps[1], v0);
            assert(vals =~= seq![v0]);
        } else {
            let gaps2 = gaps.drop_first();
            let vals2 = vals.drop_first();
            let g1 = gaps2[0];
            assert(g1 >= 1);
            // rest starts with an empty cell, so the open run of length v0
            // is flushed first.
            assert(rest =~= falses(g1) + (trues(vals2[0]) + layout(
                gaps2.drop_first(),
                vals2.drop_first(),
            )));
            assert(!rest[0]);
            assert(runs_go(rest, v0) == seq![v0] + runs_go(rest.drop_first(), 0));
            let gaps2s = gaps2.update(0, g1 - 1);
            assert(gaps2s.drop_first() =~= gaps2.drop_first());
            assert(rest.drop_first() =~= falses(g1 - 1) + trues(vals2[0]) + layout(
                gaps2s.drop_first(),
                vals2.drop_first(),
            ));
            assert(rest.drop_first() =~= layout(gaps2s, vals2));
            assert(layout_wf(gaps2s, vals2));
            lemma_runs_of_layout(gaps2s, vals2);
            assert(seq![v0] + vals2 =~= vals);
        }
    }
}

/// Two well-formed layouts of the same runs that draw the same line have
/// the same gaps: a line determines its gap sequence.
pub proof fn lemma_layout_inj(g1: Seq<int>, g2: Seq<int>, vals: Seq<int>)
    requires
        layout_wf(g1, vals),
        layout_wf(g2, vals),
        layout(g1, vals) == layout(g2, vals),
    ensures
        g1 == g2,
    decreases vals.len(),
{
    let s = layout(g1, vals);
    if vals.len() == 0 {
        assert(s.len() == g1[0]);
        assert(s.len() == g2[0]);
        assert(g1 =~= g2);
    } else {
        let a = g1[0];
        let b = g2[0];
        let v0 = vals[0];
        let r1 = layout(g1.drop_first(), vals.drop_first());
        let r2 = layout(g2.drop_first(), vals.drop_first());
        // the leading empty stretches agree: the first full cell sits right
        // after them
        if a < b {
            assert(s[a] == trues(v0)[0]);
            assert(s[a] == falses(b)[a]);
            assert(false);
        }
        if b < a {
            assert(s[b] == trues(v0)[0]);
            assert(s[b] == falses(a)[b]);
            assert(false);
        }
        assert(a == b);
        assert(layout(g2, vals) == falses(b) + trues(v0) + r2);
        assert(s == falses(a) + trues(v0) + r1);
        assert(s.len() == falses(a).len() + trues(v0).len() + r1.len());
        assert(s.len() == falses(b).len() + trues(v0).len() + r2.len());
        assert(falses(a).len() == falses(b).len());
        assert(r1.len() == r2.len());
        assert forall|k: int| 0 <= k < r1.len() implies r1[k] == r2[k] by {
            assert(r1[k] == s[a + v0 + k]);
            assert(r2[k] == s[a + v0 + k]);
        }
        assert(r1 =~= r2);
        assert(layout_wf(g1.drop_first(), vals.drop_first()));
        assert(layout_wf(g2.drop_first(), vals.drop_first()));
        lemma_layout_inj(g1.drop_first(), g2.drop_first(), vals.drop_first());
        assert forall|k: int| 0 <= k < g1.len() implies g1[k] == g2[k] by {
            if k >= 1 {
                assert(g1.drop_first()[k - 1] == g2.drop_first()[k - 1]);
            }
        }
        assert(g1 =~= g2);
    }
}

/// Length of the maximal prefix of full cells.
pub open spec fn lead_trues(s: Seq<bool>) -> int
    decreases s.len(),
{
    if s.len() == 0 {
        0
    } else if !s[0] {
        0
    } else {
        1 + lead_trues(s.drop_first())
    }
}

pub proof fn lemma_lead_trues(s: Seq<bool>)
    ensures
        0 <= lead_trues(s) <= s.len(),
        forall|i: int| 0 <= i < lead_trues(s) ==> s[i],
        lead_trues(s) < s.len() ==> !s[lead_trues(s)],
    decreases s.len(),
{
    if s.len() > 0 && s[0] {
        lemma_lead_trues(s.drop_first());
        assert forall|i: int| 0 <= i < lead_trues(s) implies s[i] by {
            if i > 0 {
                assert(s.drop_first()[i - 1]);
            }
        }
    }
}

/// Incrementing the first gap of a layout prepends one empty cell.
pub proof fn lemma_layout_prepend_false(gaps: Seq<int>, vals: Seq<int>)
    requires
        layout_wf(gaps, vals),
    ensures
        layout_wf(gaps.update(0, gaps[0] + 1), vals),
        layout(gaps.update(0, gaps[0] + 1), vals) =~= seq![false] + layout(gaps, vals),
{
    let gaps2 = gaps.update(0, gaps[0] + 1);
    assert(falses(gaps[0] + 1) =~= seq![false] + falses(gaps[0]));
    if vals.len() == 0 {
    } else {
        assert(gaps2.drop_first() =~= gaps.drop_first());
        assert(layout(gaps2, vals) =~= falses(gaps[0] + 1) + trues(vals[0]) + layout(
            gaps.drop_first(),
            vals.drop_first(),
        ));
        assert(layout(gaps2, vals) =~= seq![false] + layout(gaps, vals));
    }
}

/// Every line is the layout of some well-formed gap sequence around its own
/// run signature.
pub proof fn lemma_runs_inversion(s: Seq<bool>) -> (gaps: Seq<int>)
    ensures
        layout_wf(gaps, runs_of(s)),
        s == layout(gaps, runs_of(s)),
    decreases s.len(),
{
    if s.len() == 0 {
        let gaps = seq![0int];
        assert(s =~= layout(gaps, runs_of(s)));
        gaps
    } else if !s[0] {
        let s2 = s.drop_first();
        assert(runs_of(s) == runs_of(s2));
        let g2 = lemma_runs_inversion(s2);
        lemma_layout_prepend_false(g2, runs_of(s2));
        let gaps = g2.update(0, g2[0] + 1);
        assert(s =~= seq![false] + s2);
        assert(s =~= layout(gaps, runs_of(s)));
        gaps
    } else {
        let k = lead_trues(s);
        lemma_lead_trues(s);
        assert(k >= 1);
        let rest = s.skip(k);
        assert(s =~= trues(k) + rest);
        lemma_runs_go_trues(k, rest, 0);
        // runs_of(s) == runs_go(rest, k)
        if rest.len() == 0 {
            assert(runs_of(s) =~= seq![k]);
            let gaps = seq![0int, 0int];
            assert(gaps.drop_first() =~= seq![0int]);
            let vals = runs_of(s);
            assert(vals.drop_first() =~= Seq::<int>::empty());
            assert(layout(gaps.drop_first(), vals.drop_first()) =~= falses(0));
            assert(layout(gaps, vals) =~= falses(0) + trues(k) + falses(0));
            assert(s =~= layout(gaps, vals));
            assert(layout_wf(gaps, vals));
            gaps
        } else {
            assert(!rest[0]);
            assert(runs_go(rest, k) == seq![k] + runs_go(rest.drop_first(), 0));
            let rest2 = rest.drop_first();
            let vals2 = runs_of(rest2);
            let g2 = lemma_runs_inversion(rest2);
            lemma_layout_prepend_false(g2, vals2);
            let g2p = g2.update(0, g2[0] + 1);
            // rest == [false] + rest2 == layout with first gap bumped
            assert(rest =~= seq![false] + rest2);
            assert(rest =~= layout(g2p, vals2));
            let gaps = seq![0int] + g2p;
            let vals = runs_of(s);
            assert(vals =~= seq![k] + vals2);
            assert(gaps.drop_first() =~= g2p);
            assert(vals.drop_first() =~= vals2);
            assert(layout(gaps, vals) =~= falses(0) + trues(k) + layout(g2p, vals2));
            assert(layout(gaps, vals) =~= trues(k) + rest);
            assert(s =~= layout(gaps, vals));
            assert(layout_wf(gaps, vals)) by {
                assert(forall|i: int|
                    2 <= i < gaps.len() ==> #[trigger] gaps[i] == g2p[i - 1]);
            }
            gaps
        }
    }
}

} // verus!
