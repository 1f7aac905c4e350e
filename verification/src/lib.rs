//! Longest strictly-increasing subsequence under a caller-supplied strict
//! order relation, computed by patience sorting in O(n log n) time with
//! caller-owned scratch buffers.

use vstd::prelude::*;

mod longest;
mod model;
mod order;

pub use longest::increasing_indices_within;
pub use longest::lemma_lis_longest;
pub use longest::lemma_state_minimal;
pub use longest::minimal_tails;

use model::lemma_chain_props;
use model::lemma_first_not_less_is;

pub use model::as_ints;
pub use model::chain;
pub use model::chain_ok;
pub use model::first_not_less;
pub use model::lemma_lis_deterministic;
pub use model::lemma_lis_indices_props;
pub use model::lemma_state_inv;
pub use model::lis_indices;
pub use model::lis_reversed;
pub use model::state_after;
pub use model::state_inv;
pub use model::step;
pub use model::PileState;
pub use order::lemma_natural_order_swo;
pub use order::lemma_natural_order_transitive;
pub use order::lemma_reverse_order_transitive;
pub use order::lemma_swo_cross;
pub use order::strict_weak_order;
pub use order::transitive;
pub use order::LessThan;
pub use order::NaturalOrder;
pub use order::ReverseOrder;

verus! {

/// The low-level entry point. Appends to `out_seq` the indices of one
/// longest strictly increasing subsequence of `items` under `less_than`,
/// end of the subsequence first (reverse order). `predecessors` and
/// `starts` are caller-owned scratch buffers of the same length as `items`;
/// what they hold on entry does not influence the result, and `out_seq` is
/// not cleared, so results of successive calls accumulate.
#[verifier::loop_isolation(false)]
pub fn lis_with<T, C: LessThan<T>>(
    items: &[T],
    out_seq: &mut Vec<usize>,
    less_than: &C,
    predecessors: &mut Vec<usize>,
    starts: &mut Vec<usize>,
)
    requires
        items@.len() == old(predecessors)@.len(),
        old(predecessors)@.len() == old(starts)@.len(),
        transitive(*less_than),
    ensures
        as_ints(final(out_seq)@) == as_ints(old(out_seq)@) + lis_reversed(*less_than, items@),
        final(predecessors)@.len() == old(predecessors)@.len(),
        final(starts)@.len() == old(starts)@.len(),
{
    let n = items.len();
    if n == 0 {
        proof {
            assert(as_ints(out_seq@) =~= as_ints(out_seq@) + lis_reversed(*less_than, items@));
        }
        return;
    }

    // Index 0 always starts the first pile.
    starts[0] = 0;
    let mut i: usize = 1;
    let mut k: usize = 0;
    proof {
        assert(state_after(*less_than, items@, 1).starts =~= seq![0int]);
    }
    while i < n
        invariant
            1 <= i <= n,
            k as int + 1 == state_after(*less_than, items@, i as int).starts.len(),
            predecessors@.len() == n,
            starts@.len() == n,
            out_seq@ == old(out_seq)@,
            forall|l: int| #![trigger starts@[l]]
                0 <= l <= k as int
                ==> starts@[l] as int == state_after(*less_than, items@, i as int).starts[l],
            forall|key: int|
                #![trigger state_after(*less_than, items@, i as int).preds.dom().contains(key)]
                state_after(*less_than, items@, i as int).preds.dom().contains(key)
                ==> predecessors@[key] as int == state_after(*less_than, items@, i as int).preds[key],
        decreases n - i,
    {
        proof {
            lemma_state_inv(*less_than, items@, i as int);
        }
        let ghost st = state_after(*less_than, items@, i as int);
        let ghost st2 = state_after(*less_than, items@, i as int + 1);
        proof {
            assert(st2 == step(*less_than, items@, st, i as int));
        }
        let j = starts[k];
        if less_than.lt(&items[j], &items[i]) {
            // Fast path: item i extends the longest subsequence so far.
            predecessors[i] = j;
            k = k + 1;
            starts[k] = i;
            proof {
                assert(st2.starts == st.starts.push(i as int));
                assert(st2.preds == st.preds.insert(i as int, j as int));
            }
        } else {
            // Binary search for the leftmost tail that item i could replace.
            let mut lo: usize = 0;
            let mut hi: usize = k;
            while lo < hi
                invariant
                    lo <= hi <= k,
                    forall|m: int| #![trigger st.starts[m]]
                        0 <= m < lo as int
                        ==> (*less_than).lt_spec(items@[st.starts[m]], items@[i as int]),
                    forall|m: int| #![trigger st.starts[m]]
                        hi as int <= m <= k as int
                        ==> !(*less_than).lt_spec(items@[st.starts[m]], items@[i as int]),
                decreases hi - lo,
            {
                // Overflow-safe midpoint.
                let mid = lo + (hi - lo) / 2;
                let sm = starts[mid];
                if less_than.lt(&items[sm], &items[i]) {
                    proof {
                        assert forall|m: int| 0 <= m < mid as int + 1
                            implies (*less_than).lt_spec(
                                items@[#[trigger] st.starts[m]], items@[i as int],
                            ) by {
                            if lo as int <= m && m < mid as int {
                                assert((*less_than).lt_spec(
                                    items@[st.starts[m]], items@[st.starts[mid as int]],
                                ));
                            }
                        }
                    }
                    lo = mid + 1;
                } else {
                    proof {
                        assert forall|m: int| mid as int <= m <= k as int
                            implies (!(*less_than).lt_spec(
                                items@[#[trigger] st.starts[m]], items@[i as int],
                            )) by {
                            if m > mid as int {
                                assert((*less_than).lt_spec(
                                    items@[st.starts[mid as int]], items@[st.starts[m]],
                                ));
                            }
                        }
                    }
                    hi = mid;
                }
            }
            proof {
                lemma_first_not_less_is(*less_than, items@, st.starts, i as int, lo as int, 0);
            }
            let sl = starts[lo];
            if less_than.lt(&items[i], &items[sl]) {
                // Item i improves the tail in slot lo.
                if lo > 0 {
                    let pr = starts[lo - 1];
                    predecessors[i] = pr;
                    proof {
                        assert(st2.preds == st.preds.insert(i as int, pr as int));
                    }
                }
                starts[lo] = i;
                proof {
                    assert(st2.starts == st.starts.update(lo as int, i as int));
                }
            } else {
                // Item i improves nothing and is discarded.
                proof {
                    assert(st2 == st);
                }
            }
        }
        i = i + 1;
    }

    // Reconstruct the subsequence by walking the predecessor links backward
    // from the end of the longest pile.
    proof {
        lemma_state_inv(*less_than, items@, n as int);
    }
    let ghost stf = state_after(*less_than, items@, n as int);
    let ghost cnt = stf.starts.len() as int;
    proof {
        assert(chain_ok(*less_than, items@, stf.preds, stf.starts[cnt - 1], cnt - 1));
        lemma_chain_props(*less_than, items@, stf.preds, stf.starts.last(), cnt);
    }
    let ghost fc = chain(stf.preds, stf.starts.last(), cnt);
    let ghost base = out_seq@;
    let u = k + 1;
    let mut v = starts[k];
    let mut c: usize = 0;
    proof {
        assert(as_ints(out_seq@) =~= as_ints(base) + fc.take(0));
    }
    while c < u
        invariant
            c <= u,
            u as int == cnt,
            predecessors@.len() == n,
            as_ints(out_seq@) == as_ints(base) + fc.take(c as int),
            c < u ==> v as int == fc[c as int],
            c < u ==> chain_ok(*less_than, items@, stf.preds, v as int, u as int - 1 - c as int),
        decreases u - c,
    {
        proof {
            assert(fc.take(c as int + 1) =~= fc.take(c as int).push(fc[c as int]));
            assert(as_ints(out_seq@.push(v)) =~= as_ints(out_seq@).push(v as int));
        }
        out_seq.push(v);
        v = predecessors[v];
        proof {
            if c as int + 1 < u as int {
                assert(fc[c as int + 1] == stf.preds[fc[c as int]]);
            }
            assert(as_ints(out_seq@) =~= as_ints(base) + fc.take(c as int + 1));
        }
        c = c + 1;
    }
    proof {
        assert(fc.take(u as int) =~= fc);
        assert(fc == lis_reversed(*less_than, items@));
    }
}

/// The high-level entry point: one longest strictly increasing subsequence
/// of `items` under the natural order on `i64`, returned as indices into
/// `items` in forward (start-to-end) order. Scratch space is allocated
/// internally.
#[verifier::loop_isolation(false)]
pub fn lis(items: &[i64]) -> (r: Vec<usize>)
    ensures
        as_ints(r@) == lis_indices(NaturalOrder, items@),
        r@.len() <= items@.len(),
        r@.len() == 0 <==> items@.len() == 0,
        forall|j: int| #![trigger r@[j]] 0 <= j < r@.len() ==> (r@[j] as int) < items@.len(),
        forall|j: int| #![trigger r@[j]] 0 <= j < r@.len() - 1 ==> r@[j] < r@[j + 1],
        forall|j: int| #![trigger r@[j]]
            0 <= j < r@.len() - 1 ==> items@[r@[j] as int] < items@[r@[j + 1] as int],
        forall|ix: Seq<int>| #![trigger increasing_indices_within(NaturalOrder, items@, ix, items@.len() as int)]
            increasing_indices_within(NaturalOrder, items@, ix, items@.len() as int)
                ==> ix.len() <= r@.len(),
{
    let n = items.len();
    let mut seq_rev: Vec<usize> = Vec::new();
    let mut p: Vec<usize> = Vec::new();
    let mut m: Vec<usize> = Vec::new();
    while p.len() < n
        invariant
            p@.len() <= n,
        decreases n - p@.len(),
    {
        p.push(0);
    }
    while m.len() < n
        invariant
            m@.len() <= n,
        decreases n - m@.len(),
    {
        m.push(0);
    }
    proof {
        lemma_natural_order_transitive();
    }
    lis_with(items, &mut seq_rev, &NaturalOrder, &mut p, &mut m);
    proof {
        lemma_lis_indices_props(NaturalOrder, items@);
        assert(as_ints(seq_rev@) =~= lis_reversed(NaturalOrder, items@));
    }
    let len = seq_rev.len();
    let mut r: Vec<usize> = Vec::new();
    let mut idx: usize = len;
    while idx > 0
        invariant
            idx <= len,
            len == seq_rev@.len(),
            r@.len() == len - idx,
            forall|j: int| #![trigger r@[j]]
                0 <= j < r@.len() ==> r@[j] == seq_rev@[len - 1 - j],
        decreases idx,
    {
        idx = idx - 1;
        let x = seq_rev[idx];
        r.push(x);
    }
    proof {
        assert(as_ints(r@) =~= lis_indices(NaturalOrder, items@));
        assert forall|j: int| 0 <= j < r@.len() implies (#[trigger] r@[j]) as int
            == lis_indices(NaturalOrder, items@)[j] by {
            assert(as_ints(r@)[j] == r@[j] as int);
        }
        lemma_natural_order_swo();
        assert forall|ix: Seq<int>|
            #[trigger] increasing_indices_within(NaturalOrder, items@, ix, items@.len() as int)
            implies ix.len() <= r@.len() by {
            lemma_lis_longest(NaturalOrder, items@, ix);
        }
    }
    r
}

} // verus!
