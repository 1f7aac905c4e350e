use vstd::prelude::*;
use crate::order::strict_weak_order;
use crate::order::lemma_swo_cross;
use crate::order::LessThan;
use crate::model::chain_ok;
use crate::model::first_not_less;
use crate::model::lemma_chain_props;
use crate::model::lemma_first_not_less_props;
use crate::model::lemma_state_inv;
use crate::model::lis_indices;
use crate::model::state_after;
use crate::model::state_inv;
use crate::model::step;
use crate::model::PileState;

verus! {

/// `ix` names a strictly increasing subsequence of the first `n` items of
/// `s`: its entries are indices below `n`, strictly increasing, with the
/// items at consecutive entries strictly increasing under the relation.
pub open spec fn increasing_indices_within<T, C: LessThan<T>>(
    cmp: C,
    s: Seq<T>,
    ix: Seq<int>,
    n: int,
) -> bool {
    &&& (forall|j: int| #![trigger ix[j]] 0 <= j < ix.len() ==> 0 <= ix[j] < n)
    &&& (forall|j: int| #![trigger ix[j]]
        0 <= j < ix.len() - 1 ==> ix[j] < ix[j + 1] && cmp.lt_spec(s[ix[j]], s[ix[j + 1]]))
}

/// Entries that increase step by step increase across any gap.
pub proof fn lemma_adjacent_lt(ix: Seq<int>, j1: int, j2: int)
    requires
        forall|j: int| #![trigger ix[j]] 0 <= j < ix.len() - 1 ==> ix[j] < ix[j + 1],
        0 <= j1 < j2 < ix.len(),
    ensures
        ix[j1] < ix[j2],
    decreases j2 - j1,
{
    if j1 + 1 < j2 {
        lemma_adjacent_lt(ix, j1 + 1, j2);
    }
}

/// The minimal-tails property: every strictly increasing subsequence of the
/// first `n` items is no longer than the number of piles, and the recorded
/// tail for its length is not greater than its own last item.
pub open spec fn minimal_tails<T, C: LessThan<T>>(cmp: C, s: Seq<T>, st: PileState, n: int) -> bool {
    forall|ix: Seq<int>| #![trigger increasing_indices_within(cmp, s, ix, n)]
        increasing_indices_within(cmp, s, ix, n) && ix.len() >= 1 ==> {
            &&& ix.len() <= st.starts.len()
            &&& !cmp.lt_spec(s[ix.last()], s[st.starts[ix.len() - 1]])
        }
}

/// A subsequence that already lies within the first `i` items keeps the
/// minimal-tails property across one step of the algorithm.
proof fn lemma_step_minimal_old<T, C: LessThan<T>>(cmp: C, s: Seq<T>, st: PileState, i: int, ix: Seq<int>)
    requires
        strict_weak_order(cmp),
        state_inv(cmp, s, st, i),
        minimal_tails(cmp, s, st, i),
        1 <= i < s.len(),
        increasing_indices_within(cmp, s, ix, i + 1),
        ix.len() >= 1,
        ix.last() < i,
    ensures
        ix.len() <= step(cmp, s, st, i).starts.len(),
        !cmp.lt_spec(s[ix.last()], s[step(cmp, s, st, i).starts[ix.len() - 1]]),
{
    let st2 = step(cmp, s, st, i);
    let k = st.starts.len() - 1;
    let m = ix.len() as int;
    let last = ix[m - 1];
    assert forall|j: int| 0 <= j < m implies 0 <= #[trigger] ix[j] < i by {
        if j < m - 1 {
            lemma_adjacent_lt(ix, j, m - 1);
        }
    }
    assert(increasing_indices_within(cmp, s, ix, i));
    assert(m <= st.starts.len());
    assert(!cmp.lt_spec(s[last], s[st.starts[m - 1]]));
    if cmp.lt_spec(s[st.starts[k]], s[i]) {
        // Fast path: the first m slots are unchanged.
        assert(st2.starts[m - 1] == st.starts[m - 1]);
    } else {
        let lo = first_not_less(cmp, s, st.starts, i, 0);
        lemma_first_not_less_props(cmp, s, st.starts, i, 0);
        if cmp.lt_spec(s[i], s[st.starts[lo]]) {
            if m - 1 == lo {
                // Slot lo now holds i, whose item is smaller still.
                assert(!cmp.lt_spec(s[last], s[i]));
            } else {
                assert(st2.starts[m - 1] == st.starts[m - 1]);
            }
        }
    }
}

/// A subsequence that ends at the new item `i` keeps the minimal-tails
/// property across one step of the algorithm.
proof fn lemma_step_minimal_new<T, C: LessThan<T>>(cmp: C, s: Seq<T>, st: PileState, i: int, ix: Seq<int>)
    requires
        strict_weak_order(cmp),
        state_inv(cmp, s, st, i),
        minimal_tails(cmp, s, st, i),
        1 <= i < s.len(),
        increasing_indices_within(cmp, s, ix, i + 1),
        ix.len() >= 1,
        ix.last() == i,
    ensures
        ix.len() <= step(cmp, s, st, i).starts.len(),
        !cmp.lt_spec(s[ix.last()], s[step(cmp, s, st, i).starts[ix.len() - 1]]),
{
    let st2 = step(cmp, s, st, i);
    let k = st.starts.len() - 1;
    let m = ix.len() as int;
    if m == 1 {
        if cmp.lt_spec(s[st.starts[k]], s[i]) {
            // Slot 0 is unchanged; its item cannot exceed s[i].
            assert(st2.starts[0] == st.starts[0]);
            if cmp.lt_spec(s[i], s[st.starts[0]]) {
                if k > 0 {
                    assert(cmp.lt_spec(s[st.starts[0]], s[st.starts[k]]));
                    assert(cmp.lt_spec(s[i], s[st.starts[k]]));
                }
                assert(cmp.lt_spec(s[i], s[i]));
            }
        } else {
            let lo = first_not_less(cmp, s, st.starts, i, 0);
            lemma_first_not_less_props(cmp, s, st.starts, i, 0);
            assert(!cmp.lt_spec(s[st.starts[lo]], s[i]));
            if cmp.lt_spec(s[i], s[st.starts[lo]]) {
                if lo == 0 {
                    assert(st2.starts[0] == i as int);
                    assert(!cmp.lt_spec(s[i], s[i]));
                } else {
                    assert(st2.starts[0] == st.starts[0]);
                    assert(cmp.lt_spec(s[st.starts[0]], s[i]));
                    if cmp.lt_spec(s[i], s[st.starts[0]]) {
                        assert(cmp.lt_spec(s[i], s[i]));
                    }
                }
            } else {
                assert(st2 == st);
                if lo > 0 {
                    assert(cmp.lt_spec(s[st.starts[0]], s[i]));
                    if cmp.lt_spec(s[i], s[st.starts[0]]) {
                        assert(cmp.lt_spec(s[i], s[i]));
                    }
                }
            }
        }
    } else {
        // Chop off the last entry and use the minimal-tails property of
        // what remains.
        let w = ix[m - 2];
        assert(w < i && cmp.lt_spec(s[w], s[i]));
        let prefix = ix.take(m - 1);
        assert forall|j: int| 0 <= j < m - 1 implies 0 <= #[trigger] prefix[j] < i by {
            assert(prefix[j] == ix[j]);
            if j < m - 2 {
                lemma_adjacent_lt(ix, j, m - 2);
            }
        }
        assert forall|j: int| 0 <= j < prefix.len() - 1
            implies #[trigger] prefix[j] < prefix[j + 1]
                && cmp.lt_spec(s[prefix[j]], s[prefix[j + 1]]) by {
            assert(prefix[j] == ix[j] && prefix[j + 1] == ix[j + 1]);
        }
        assert(increasing_indices_within(cmp, s, prefix, i));
        assert(prefix.last() == w);
        assert(m - 1 <= st.starts.len());
        assert(!cmp.lt_spec(s[w], s[st.starts[m - 2]]));
        // The recorded tail for length m-1 is below s[i].
        lemma_swo_cross(cmp, s[w], s[st.starts[m - 2]], s[i]);
        assert(cmp.lt_spec(s[st.starts[m - 2]], s[i]));

        if cmp.lt_spec(s[st.starts[k]], s[i]) {
            // Fast path: a new slot k+1 holding i was appended.
            assert(st2.starts.len() == st.starts.len() + 1);
            assert(m <= st2.starts.len());
            if m - 1 == k + 1 {
                assert(st2.starts[m - 1] == i as int);
                assert(!cmp.lt_spec(s[i], s[i]));
            } else {
                assert(st2.starts[m - 1] == st.starts[m - 1]);
                if cmp.lt_spec(s[i], s[st.starts[m - 1]]) {
                    if m - 1 < k {
                        assert(cmp.lt_spec(s[st.starts[m - 1]], s[st.starts[k]]));
                        assert(cmp.lt_spec(s[i], s[st.starts[k]]));
                    }
                    assert(cmp.lt_spec(s[i], s[i]));
                }
            }
        } else {
            let lo = first_not_less(cmp, s, st.starts, i, 0);
            lemma_first_not_less_props(cmp, s, st.starts, i, 0);
            assert(!cmp.lt_spec(s[st.starts[lo]], s[i]));
            // m-2 cannot reach lo: slot lo is not below s[i].
            if m - 2 >= lo {
                if m - 2 > lo {
                    assert(cmp.lt_spec(s[st.starts[lo]], s[st.starts[m - 2]]));
                }
                assert(cmp.lt_spec(s[st.starts[lo]], s[i]));
                assert(false);
            }
            // Hence m-1 <= lo <= k, and m <= the slot count.
            assert(m - 1 <= lo);
            assert(m <= st2.starts.len());
            if cmp.lt_spec(s[i], s[st.starts[lo]]) {
                if m - 1 == lo {
                    assert(st2.starts[m - 1] == i as int);
                    assert(!cmp.lt_spec(s[i], s[i]));
                } else {
                    assert(st2.starts[m - 1] == st.starts[m - 1]);
                    assert(cmp.lt_spec(s[st.starts[m - 1]], s[i]));
                    if cmp.lt_spec(s[i], s[st.starts[m - 1]]) {
                        assert(cmp.lt_spec(s[i], s[i]));
                    }
                }
            } else {
                assert(st2 == st);
                if m - 1 < lo {
                    assert(cmp.lt_spec(s[st.starts[m - 1]], s[i]));
                    if cmp.lt_spec(s[i], s[st.starts[m - 1]]) {
                        assert(cmp.lt_spec(s[i], s[i]));
                    }
                }
            }
        }
    }
}

/// The minimal-tails property holds after any number of processed items.
pub proof fn lemma_state_minimal<T, C: LessThan<T>>(cmp: C, s: Seq<T>, n: int)
    requires
        strict_weak_order(cmp),
        1 <= n <= s.len(),
    ensures
        minimal_tails(cmp, s, state_after(cmp, s, n), n),
    decreases n,
{
    if n == 1 {
        let st = state_after(cmp, s, 1);
        assert forall|ix: Seq<int>|
            increasing_indices_within(cmp, s, ix, 1) && ix.len() >= 1
            implies #[trigger] increasing_indices_within(cmp, s, ix, 1)
                && ix.len() <= st.starts.len()
                && !cmp.lt_spec(s[ix.last()], s[st.starts[ix.len() - 1]]) by {
            if ix.len() >= 2 {
                assert(0 <= ix[0] < 1);
                assert(0 <= ix[1] < 1);
                assert(ix[0] < ix[1]);
                assert(false);
            }
            assert(ix[0] == 0);
            assert(st.starts[0] == 0);
            assert(!cmp.lt_spec(s[0], s[0]));
        }
    } else {
        let i = n - 1;
        lemma_state_minimal(cmp, s, i);
        lemma_state_inv(cmp, s, i);
        let st = state_after(cmp, s, i);
        let st2 = state_after(cmp, s, n);
        assert(st2 == step(cmp, s, st, i));

        assert forall|ix: Seq<int>|
            increasing_indices_within(cmp, s, ix, n) && ix.len() >= 1
            implies #[trigger] increasing_indices_within(cmp, s, ix, n)
                && ix.len() <= st2.starts.len()
                && !cmp.lt_spec(s[ix.last()], s[st2.starts[ix.len() - 1]]) by {
            assert(0 <= ix[ix.len() - 1] < n);
            if ix.last() < i {
                lemma_step_minimal_old(cmp, s, st, i, ix);
            } else {
                lemma_step_minimal_new(cmp, s, st, i, ix);
            }
        }
    }
}

/// The engine's answer is longest: under a strict weak ordering, no
/// strictly increasing subsequence of the items is longer than the
/// discovered one.
pub proof fn lemma_lis_longest<T, C: LessThan<T>>(cmp: C, s: Seq<T>, ix: Seq<int>)
    requires
        strict_weak_order(cmp),
        increasing_indices_within(cmp, s, ix, s.len() as int),
    ensures
        ix.len() <= lis_indices(cmp, s).len(),
{
    if ix.len() >= 1 {
        assert(0 <= ix[0] < s.len());
        let n = s.len() as int;
        lemma_state_minimal(cmp, s, n);
        lemma_state_inv(cmp, s, n);
        let st = state_after(cmp, s, n);
        let cnt = st.starts.len() as int;
        assert(increasing_indices_within(cmp, s, ix, n));
        assert(ix.len() <= st.starts.len());
        assert(chain_ok(cmp, s, st.preds, st.starts[cnt - 1], cnt - 1));
        lemma_chain_props(cmp, s, st.preds, st.starts.last(), cnt);
    }
}

} // verus!
