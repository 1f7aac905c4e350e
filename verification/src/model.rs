use vstd::prelude::*;
use crate::order::LessThan;
use crate::order::transitive;

verus! {

/// The engine's running state, at the mathematical level: the valid prefix
/// of the tails array (`starts`, one slot per discovered subsequence length)
/// and the predecessor links written so far.
pub struct PileState {
    pub starts: Seq<int>,
    pub preds: Map<int, int>,
}

/// The leftmost slot of `st` (at or after `from`) whose item is not less
/// than `s[i]`; the last slot when every earlier one is less.
pub open spec fn first_not_less<T, C: LessThan<T>>(
    cmp: C,
    s: Seq<T>,
    st: Seq<int>,
    i: int,
    from: int,
) -> int
    decreases st.len() - from,
{
    if from >= st.len() - 1 {
        st.len() - 1
    } else if !cmp.lt_spec(s[st[from]], s[i]) {
        from
    } else {
        first_not_less(cmp, s, st, i, from + 1)
    }
}

/// One step of patience sorting: how the state changes on seeing index `i`.
///
/// If `i`'s item extends the longest subsequence so far, a slot is appended;
/// otherwise `i` replaces the leftmost tail it improves, if any, chaining
/// onto the slot before it. An item improving no tail is discarded.
pub open spec fn step<T, C: LessThan<T>>(cmp: C, s: Seq<T>, st: PileState, i: int) -> PileState {
    let k = st.starts.len() - 1;
    if cmp.lt_spec(s[st.starts[k]], s[i]) {
        PileState { starts: st.starts.push(i), preds: st.preds.insert(i, st.starts[k]) }
    } else {
        let lo = first_not_less(cmp, s, st.starts, i, 0);
        if cmp.lt_spec(s[i], s[st.starts[lo]]) {
            PileState {
                starts: st.starts.update(lo, i),
                preds: if lo > 0 {
                    st.preds.insert(i, st.starts[lo - 1])
                } else {
                    st.preds
                },
            }
        } else {
            st
        }
    }
}

/// The state after the first `n` items of `s` have been processed
/// (meaningful for `1 <= n <= s.len()`). Index 0 always starts the first
/// pile, so the state is a function of the items and the relation alone.
pub open spec fn state_after<T, C: LessThan<T>>(cmp: C, s: Seq<T>, n: int) -> PileState
    decreases n,
{
    if n <= 1 {
        PileState { starts: seq![0int], preds: Map::<int, int>::empty() }
    } else {
        step(cmp, s, state_after(cmp, s, n - 1), n - 1)
    }
}

/// The walk of `cnt` indices backward from `v` along the predecessor links.
pub open spec fn chain(preds: Map<int, int>, v: int, cnt: int) -> Seq<int>
    decreases cnt,
{
    if cnt <= 0 {
        Seq::<int>::empty()
    } else {
        seq![v] + chain(preds, preds[v], cnt - 1)
    }
}

/// The discovered subsequence, in the order the low-level routine emits it:
/// end of the subsequence first.
pub open spec fn lis_reversed<T, C: LessThan<T>>(cmp: C, s: Seq<T>) -> Seq<int> {
    if s.len() == 0 {
        Seq::<int>::empty()
    } else {
        let st = state_after(cmp, s, s.len() as int);
        chain(st.preds, st.starts.last(), st.starts.len() as int)
    }
}

/// The discovered subsequence in forward (start-to-end) order, as the
/// high-level entry point returns it.
pub open spec fn lis_indices<T, C: LessThan<T>>(cmp: C, s: Seq<T>) -> Seq<int> {
    lis_reversed(cmp, s).reverse()
}

/// A sequence of machine indices read as mathematical integers.
pub open spec fn as_ints(s: Seq<usize>) -> Seq<int> {
    s.map_values(|u: usize| u as int)
}

/// From `v` there are `links` predecessor links, each strictly decreasing
/// in index and, followed forward, strictly increasing in item value.
pub open spec fn chain_ok<T, C: LessThan<T>>(
    cmp: C,
    s: Seq<T>,
    preds: Map<int, int>,
    v: int,
    links: int,
) -> bool
    decreases links,
{
    &&& 0 <= v < s.len()
    &&& (links > 0 ==> {
        &&& preds.dom().contains(v)
        &&& 0 <= preds[v] < v
        &&& cmp.lt_spec(s[preds[v]], s[v])
        &&& chain_ok(cmp, s, preds, preds[v], links - 1)
    })
}

/// Everything the analysis keeps true of the state after `n` items: at
/// least one and at most `n` slots, every slot holding an index below `n`,
/// tails strictly increasing across slots, slot `l` carrying a predecessor
/// chain of `l` links, and links recorded only for indices below `n`.
pub open spec fn state_inv<T, C: LessThan<T>>(cmp: C, s: Seq<T>, st: PileState, n: int) -> bool {
    &&& 1 <= st.starts.len() <= n
    &&& (forall|l: int| #![trigger st.starts[l]] 0 <= l < st.starts.len() ==> 0 <= st.starts[l] < n)
    &&& (forall|l1: int, l2: int| #![trigger st.starts[l1], st.starts[l2]]
        0 <= l1 < l2 < st.starts.len() ==> cmp.lt_spec(s[st.starts[l1]], s[st.starts[l2]]))
    &&& (forall|l: int| #![trigger st.starts[l]]
        0 <= l < st.starts.len() ==> chain_ok(cmp, s, st.preds, st.starts[l], l))
    &&& (forall|key: int| #![trigger st.preds.dom().contains(key)]
        st.preds.dom().contains(key) ==> 0 <= key < n)
}

/// A predecessor chain is untouched by recording a link for a later index.
pub proof fn lemma_chain_ok_insert<T, C: LessThan<T>>(
    cmp: C,
    s: Seq<T>,
    preds: Map<int, int>,
    v: int,
    links: int,
    key: int,
    val: int,
)
    requires
        chain_ok(cmp, s, preds, v, links),
        v < key,
    ensures
        chain_ok(cmp, s, preds.insert(key, val), v, links),
    decreases links,
{
    if links > 0 {
        lemma_chain_ok_insert(cmp, s, preds, preds[v], links - 1, key, val);
    }
}

/// What `first_not_less` returns: a slot within range, every slot to its
/// left less than `s[i]`, and the slot itself not less unless the search
/// ran off the end.
pub proof fn lemma_first_not_less_props<T, C: LessThan<T>>(
    cmp: C,
    s: Seq<T>,
    st: Seq<int>,
    i: int,
    from: int,
)
    requires
        0 <= from <= st.len() - 1,
    ensures
        from <= first_not_less(cmp, s, st, i, from) <= st.len() - 1,
        forall|m: int| #![trigger st[m]]
            from <= m < first_not_less(cmp, s, st, i, from) ==> cmp.lt_spec(s[st[m]], s[i]),
        first_not_less(cmp, s, st, i, from) < st.len() - 1
            ==> !cmp.lt_spec(s[st[first_not_less(cmp, s, st, i, from)]], s[i]),
    decreases st.len() - from,
{
    if from < st.len() - 1 && cmp.lt_spec(s[st[from]], s[i]) {
        lemma_first_not_less_props(cmp, s, st, i, from + 1);
    }
}

/// `first_not_less` is pinned by its characterization: if every slot left of
/// `lo` is less than `s[i]` and slot `lo` is not, the search returns `lo`.
pub proof fn lemma_first_not_less_is<T, C: LessThan<T>>(
    cmp: C,
    s: Seq<T>,
    st: Seq<int>,
    i: int,
    lo: int,
    from: int,
)
    requires
        0 <= from <= lo < st.len(),
        forall|m: int| #![trigger st[m]] from <= m < lo ==> cmp.lt_spec(s[st[m]], s[i]),
        !cmp.lt_spec(s[st[lo]], s[i]),
    ensures
        first_not_less(cmp, s, st, i, from) == lo,
    decreases lo - from,
{
    if from < lo {
        lemma_first_not_less_is(cmp, s, st, i, lo, from + 1);
    }
}

/// One step of patience sorting preserves the state invariant.
pub proof fn lemma_step_inv<T, C: LessThan<T>>(cmp: C, s: Seq<T>, st: PileState, i: int)
    requires
        transitive(cmp),
        state_inv(cmp, s, st, i),
        1 <= i < s.len(),
    ensures
        state_inv(cmp, s, step(cmp, s, st, i), i + 1),
{
    let k = st.starts.len() - 1;
    let st2 = step(cmp, s, st, i);
    if cmp.lt_spec(s[st.starts[k]], s[i]) {
        // The fast path: i extends the longest subsequence found so far.
        assert forall|l1: int, l2: int|
            0 <= l1 < l2 < st2.starts.len()
            implies cmp.lt_spec(s[#[trigger] st2.starts[l1]], s[#[trigger] st2.starts[l2]]) by {
            if l2 == st.starts.len() && l1 < k {
                assert(cmp.lt_spec(s[st.starts[l1]], s[st.starts[k]]));
            }
        }
        assert forall|l: int| 0 <= l < st2.starts.len()
            implies chain_ok(cmp, s, st2.preds, #[trigger] st2.starts[l], l) by {
            if l < st.starts.len() {
                lemma_chain_ok_insert(cmp, s, st.preds, st.starts[l], l, i, st.starts[k]);
            } else {
                lemma_chain_ok_insert(cmp, s, st.preds, st.starts[k], k, i, st.starts[k]);
                assert(st2.preds[i] == st.starts[k]);
            }
        }
    } else {
        lemma_first_not_less_props(cmp, s, st.starts, i, 0);
        let lo = first_not_less(cmp, s, st.starts, i, 0);
        if cmp.lt_spec(s[i], s[st.starts[lo]]) {
            // i replaces the tail in slot lo, improving it.
            assert forall|l1: int, l2: int|
                0 <= l1 < l2 < st2.starts.len()
                implies cmp.lt_spec(s[#[trigger] st2.starts[l1]], s[#[trigger] st2.starts[l2]]) by {
                if l1 == lo {
                    assert(cmp.lt_spec(s[st.starts[lo]], s[st.starts[l2]]));
                    assert(cmp.lt_spec(s[i], s[st.starts[l2]]));
                } else if l2 == lo {
                    assert(cmp.lt_spec(s[st.starts[l1]], s[i]));
                }
            }
            assert forall|l: int| 0 <= l < st2.starts.len()
                implies chain_ok(cmp, s, st2.preds, #[trigger] st2.starts[l], l) by {
                if lo > 0 {
                    if l == lo {
                        lemma_chain_ok_insert(
                            cmp, s, st.preds, st.starts[lo - 1], lo - 1, i, st.starts[lo - 1],
                        );
                        assert(st2.preds[i] == st.starts[lo - 1]);
                        assert(cmp.lt_spec(s[st.starts[lo - 1]], s[i]));
                    } else {
                        lemma_chain_ok_insert(cmp, s, st.preds, st.starts[l], l, i, st.starts[lo - 1]);
                    }
                }
            }
        }
    }
}

/// The state invariant holds after any number of processed items.
pub proof fn lemma_state_inv<T, C: LessThan<T>>(cmp: C, s: Seq<T>, n: int)
    requires
        transitive(cmp),
        1 <= n <= s.len(),
    ensures
        state_inv(cmp, s, state_after(cmp, s, n), n),
    decreases n,
{
    if n == 1 {
        let st = state_after(cmp, s, 1);
        assert(st.starts[0] == 0);
        assert(chain_ok(cmp, s, st.preds, 0, 0));
    } else {
        lemma_state_inv(cmp, s, n - 1);
        lemma_step_inv(cmp, s, state_after(cmp, s, n - 1), n - 1);
    }
}

/// What the predecessor walk yields: `cnt` indices starting at `v`, each
/// within range, strictly decreasing, each consecutive pair a recorded link,
/// and each item less than the one after it in walk order.
pub proof fn lemma_chain_props<T, C: LessThan<T>>(
    cmp: C,
    s: Seq<T>,
    preds: Map<int, int>,
    v: int,
    cnt: int,
)
    requires
        cnt >= 1,
        chain_ok(cmp, s, preds, v, cnt - 1),
    ensures
        chain(preds, v, cnt).len() == cnt,
        chain(preds, v, cnt)[0] == v,
        forall|j: int| #![trigger chain(preds, v, cnt)[j]]
            0 <= j < cnt ==> 0 <= chain(preds, v, cnt)[j] < s.len(),
        forall|j: int| #![trigger chain(preds, v, cnt)[j]]
            0 <= j < cnt - 1 ==> chain(preds, v, cnt)[j + 1] < chain(preds, v, cnt)[j],
        forall|j: int| #![trigger chain(preds, v, cnt)[j]]
            0 <= j < cnt - 1
            ==> cmp.lt_spec(s[chain(preds, v, cnt)[j + 1]], s[chain(preds, v, cnt)[j]]),
        forall|j: int| #![trigger chain(preds, v, cnt)[j]]
            0 <= j < cnt - 1
            ==> preds.dom().contains(chain(preds, v, cnt)[j])
                && chain(preds, v, cnt)[j + 1] == preds[chain(preds, v, cnt)[j]],
    decreases cnt,
{
    let c = chain(preds, v, cnt);
    if cnt == 1 {
        assert(chain(preds, preds[v], 0) =~= Seq::<int>::empty());
        assert(c =~= seq![v]);
    } else {
        lemma_chain_props(cmp, s, preds, preds[v], cnt - 1);
        let rest = chain(preds, preds[v], cnt - 1);
        assert(c.len() == cnt);
        assert forall|j: int| 0 <= j < cnt implies #[trigger] c[j] == if j == 0 { v } else { rest[j - 1] } by {}
    }
}

/// Laws of the discovered subsequence, stated of the forward-order result:
/// it is never longer than the input; it is empty exactly when the input is
/// empty; its indices lie within the input and are strictly increasing; and
/// the items at those indices are strictly increasing under the relation.
pub proof fn lemma_lis_indices_props<T, C: LessThan<T>>(cmp: C, s: Seq<T>)
    requires
        transitive(cmp),
    ensures
        lis_indices(cmp, s).len() <= s.len(),
        lis_indices(cmp, s).len() == 0 <==> s.len() == 0,
        forall|j: int| #![trigger lis_indices(cmp, s)[j]]
            0 <= j < lis_indices(cmp, s).len() ==> 0 <= lis_indices(cmp, s)[j] < s.len(),
        forall|j: int| #![trigger lis_indices(cmp, s)[j]]
            0 <= j < lis_indices(cmp, s).len() - 1
            ==> lis_indices(cmp, s)[j] < lis_indices(cmp, s)[j + 1],
        forall|j: int| #![trigger lis_indices(cmp, s)[j]]
            0 <= j < lis_indices(cmp, s).len() - 1
            ==> cmp.lt_spec(s[lis_indices(cmp, s)[j]], s[lis_indices(cmp, s)[j + 1]]),
{
    if s.len() > 0 {
        let n = s.len() as int;
        lemma_state_inv(cmp, s, n);
        let st = state_after(cmp, s, n);
        let cnt = st.starts.len() as int;
        assert(chain_ok(cmp, s, st.preds, st.starts[cnt - 1], cnt - 1));
        lemma_chain_props(cmp, s, st.preds, st.starts.last(), cnt);
        let rev = lis_reversed(cmp, s);
        let r = lis_indices(cmp, s);
        assert(r.len() == rev.len());
        assert forall|j: int| 0 <= j < r.len() implies #[trigger] r[j] == rev[cnt - 1 - j] by {}
    }
}

/// Determinism: the discovered subsequence is a function of the items and
/// the relation alone, so two runs on the same input under the same relation
/// yield the identical index sequence.
pub proof fn lemma_lis_deterministic<T, C: LessThan<T>>(cmp: C, s: Seq<T>, r1: Seq<int>, r2: Seq<int>)
    requires
        r1 == lis_indices(cmp, s),
        r2 == lis_indices(cmp, s),
    ensures
        r1 == r2,
{
}

} // verus!
