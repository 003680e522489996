//! The ordering laws of the reorder buffer, proved of its abstract run model:
//! releases carry consecutive indices from zero (so no index is released
//! twice), an index that never arrives blocks every higher index for the
//! whole run, and when uniquely-indexed fragments covering every index do
//! arrive — in whatever order — the released sequence is the fragments in
//! index order, independent of the arrival order.

use vstd::prelude::*;
use vstd::set_lib::lemma_set_subset_finite;

use crate::reorder::lemma_release_run_properties;
use crate::reorder::release_run;
use crate::reorder::run_model;
use crate::reorder::step;
use crate::reorder::BufferState;

verus! {

/// What holds of a reorder-buffer state after any sequence of arrivals: the
/// cursor counts the releases, the release at position `t` carried index `t`,
/// and every pending index lies strictly beyond the cursor.
pub open spec fn state_inv(st: BufferState) -> bool {
    &&& 0 <= st.next
    &&& st.pending.dom().finite()
    &&& forall|k: int| st.pending.dom().contains(k) ==> st.next < k
    &&& st.released.len() == st.next
    &&& forall|t: int| 0 <= t < st.released.len() ==> (#[trigger] st.released[t]).0 == t
}

/// Whether some arrival in the sequence carried index `t`.
pub open spec fn arrived_index(arrivals: Seq<(int, Seq<u8>)>, t: int) -> bool {
    exists|i: int| 0 <= i < arrivals.len() && (#[trigger] arrivals[i]).0 == t
}

/// One arrival keeps `state_inv`: the released run extends the consecutive
/// index sequence, and everything still pending lies beyond the new cursor.
pub proof fn lemma_step_preserves_inv(st: BufferState, arrival: (int, Seq<u8>))
    requires
        state_inv(st),
    ensures
        state_inv(step(st, arrival)),
{
    if arrival.0 < st.next {
    } else {
        let m1 = st.pending.insert(arrival.0, arrival.1);
        assert(m1.dom() =~= st.pending.dom().insert(arrival.0));
        lemma_release_run_properties(m1, st.next);
        let run = release_run(m1, st.next);
        let st2 = step(st, arrival);
        assert forall|t: int| 0 <= t < st2.released.len() implies (#[trigger] st2.released[t]).0
            == t by {
            if t < st.next {
                assert(st2.released[t] == st.released[t]);
            } else {
                assert(st2.released[t] == run[t - st.next]);
                assert(run[t - st.next] == (t, m1[t]));
            }
        }
        assert forall|k: int| st2.pending.dom().contains(k) implies st2.next < k by {
            assert(m1.dom().contains(k));
            assert(!(st.next <= k < st.next + run.len()));
            assert(!m1.dom().contains(st.next + run.len()));
        }
        assert(st2.pending.dom().subset_of(m1.dom()));
        lemma_set_subset_finite(m1.dom(), st2.pending.dom());
    }
}

/// `state_inv` holds after every run, whatever arrived.
pub proof fn lemma_run_model_inv(arrivals: Seq<(int, Seq<u8>)>)
    ensures
        state_inv(run_model(arrivals)),
    decreases arrivals.len(),
{
    if arrivals.len() == 0 {
        assert(run_model(arrivals).pending.dom() =~= Set::<int>::empty());
    } else {
        lemma_run_model_inv(arrivals.drop_last());
        lemma_step_preserves_inv(run_model(arrivals.drop_last()), arrivals.last());
    }
}

/// Law: each fragment index is released at most once across a run — two
/// distinct positions of the released sequence always carry distinct indices.
pub proof fn lemma_released_at_most_once(arrivals: Seq<(int, Seq<u8>)>, i: int, j: int)
    requires
        0 <= i < j < run_model(arrivals).released.len(),
    ensures
        run_model(arrivals).released[i].0 != run_model(arrivals).released[j].0,
{
    lemma_run_model_inv(arrivals);
}

/// If index `k` never arrives, the cursor never passes `k`, and `k` is never
/// pending either.
proof fn lemma_missing_index_stops_cursor(arrivals: Seq<(int, Seq<u8>)>, k: int)
    requires
        0 <= k,
        forall|i: int| 0 <= i < arrivals.len() ==> (#[trigger] arrivals[i]).0 != k,
    ensures
        run_model(arrivals).next <= k,
        !run_model(arrivals).pending.dom().contains(k),
    decreases arrivals.len(),
{
    if arrivals.len() == 0 {
        assert(run_model(arrivals).pending.dom() =~= Set::<int>::empty());
    } else {
        let prefix = arrivals.drop_last();
        let a = arrivals.last();
        lemma_missing_index_stops_cursor(prefix, k);
        lemma_run_model_inv(prefix);
        let st = run_model(prefix);
        assert(a == arrivals[arrivals.len() - 1]);
        if a.0 >= st.next {
            let m1 = st.pending.insert(a.0, a.1);
            assert(m1.dom() =~= st.pending.dom().insert(a.0));
            lemma_release_run_properties(m1, st.next);
            let run = release_run(m1, st.next);
            if st.next + run.len() > k {
                let t = k - st.next;
                assert(run[t] == (st.next + t, m1[st.next + t]));
                assert(m1.dom().contains(k));
                assert(false);
            }
            assert(!run_model(arrivals).pending.dom().contains(k));
        }
    }
}

/// Law (gap policy): if fragment index `k` never arrives, no fragment with an
/// index at or beyond `k` is ever released, however many of them arrived.
pub proof fn lemma_gap_blocks_release(arrivals: Seq<(int, Seq<u8>)>, k: int)
    requires
        0 <= k,
        forall|i: int| 0 <= i < arrivals.len() ==> (#[trigger] arrivals[i]).0 != k,
    ensures
        run_model(arrivals).next <= k,
        forall|t: int|
            0 <= t < run_model(arrivals).released.len() ==> (#[trigger] run_model(
                arrivals,
            ).released[t]).0 < k,
{
    lemma_missing_index_stops_cursor(arrivals, k);
    lemma_run_model_inv(arrivals);
}

/// After uniquely-indexed arrivals, every arrival is accounted for — released
/// at its own index, or still pending with its own bytes — and everything the
/// cursor passed, and everything pending, stems from some arrival.
proof fn lemma_unique_arrivals_tracked(arrivals: Seq<(int, Seq<u8>)>)
    requires
        forall|i: int, j: int|
            0 <= i < j < arrivals.len() ==> (#[trigger] arrivals[i]).0 != (
            #[trigger] arrivals[j]).0,
        forall|i: int| 0 <= i < arrivals.len() ==> 0 <= (#[trigger] arrivals[i]).0,
    ensures
        state_inv(run_model(arrivals)),
        forall|i: int|
            0 <= i < arrivals.len() ==> {
                let st = run_model(arrivals);
                let a = #[trigger] arrivals[i];
                (a.0 < st.next && st.released[a.0] == a) || (st.pending.dom().contains(a.0)
                    && st.pending[a.0] == a.1)
            },
        forall|t: int| 0 <= t < run_model(arrivals).next ==> #[trigger] arrived_index(arrivals, t),
        forall|k: int|
            run_model(arrivals).pending.dom().contains(k) ==> arrived_index(arrivals, k),
    decreases arrivals.len(),
{
    lemma_run_model_inv(arrivals);
    if arrivals.len() == 0 {
    } else {
        let prefix = arrivals.drop_last();
        let a = arrivals.last();
        let last = arrivals.len() - 1;
        assert(a == arrivals[last]);
        lemma_unique_arrivals_tracked(prefix);
        lemma_run_model_inv(prefix);
        let st = run_model(prefix);
        let st2 = run_model(arrivals);
        assert(st2 == step(st, a));
        assert forall|i: int| 0 <= i < prefix.len() implies (#[trigger] prefix[i]).0 != a.0 by {
            assert(arrivals[i] == prefix[i]);
        }
        if a.0 < st.next {
            // some earlier arrival already put index a.0 behind the cursor
            assert(arrived_index(prefix, a.0));
            let i = choose|i: int| 0 <= i < prefix.len() && (#[trigger] prefix[i]).0 == a.0;
            assert(prefix[i].0 == a.0);
            assert(false);
        }
        let m1 = st.pending.insert(a.0, a.1);
        assert(m1.dom() =~= st.pending.dom().insert(a.0));
        lemma_release_run_properties(m1, st.next);
        let run = release_run(m1, st.next);
        // every key of m1 carries the bytes of exactly one arrival
        assert forall|i: int| 0 <= i < arrivals.len() implies {
            let b = #[trigger] arrivals[i];
            (b.0 < st2.next && st2.released[b.0] == b) || (st2.pending.dom().contains(b.0)
                && st2.pending[b.0] == b.1)
        } by {
            let b = arrivals[i];
            if i < last {
                assert(prefix[i] == b);
                if b.0 < st.next {
                    assert(st2.released[b.0] == st.released[b.0]);
                } else {
                    assert(st.pending.dom().contains(b.0) && st.pending[b.0] == b.1);
                    assert(b.0 != a.0);
                    assert(m1.dom().contains(b.0) && m1[b.0] == b.1);
                    if st.next <= b.0 < st.next + run.len() {
                        assert(run[b.0 - st.next] == (b.0, m1[b.0]));
                        assert(st2.released[b.0] == run[b.0 - st.next]);
                    } else {
                        assert(st2.pending.dom().contains(b.0) && st2.pending[b.0] == b.1);
                    }
                }
            } else {
                assert(b == a);
                assert(m1.dom().contains(a.0) && m1[a.0] == a.1);
                if st.next <= a.0 < st.next + run.len() {
                    assert(run[a.0 - st.next] == (a.0, m1[a.0]));
                    assert(st2.released[a.0] == run[a.0 - st.next]);
                } else {
                    assert(st2.pending.dom().contains(a.0) && st2.pending[a.0] == a.1);
                }
            }
        }
        assert forall|t: int| 0 <= t < st2.next implies #[trigger] arrived_index(arrivals, t) by {
            if t < st.next {
                assert(arrived_index(prefix, t));
                let i = choose|i: int| 0 <= i < prefix.len() && (#[trigger] prefix[i]).0 == t;
                assert(arrivals[i] == prefix[i]);
                assert(0 <= i < arrivals.len() && arrivals[i].0 == t);
            } else {
                assert(run[t - st.next] == (st.next + (t - st.next), m1[t]));
                assert(m1.dom().contains(t));
                if t == a.0 {
                    assert(0 <= last < arrivals.len() && arrivals[last].0 == t);
                } else {
                    assert(st.pending.dom().contains(t));
                    assert(arrived_index(prefix, t));
                    let i = choose|i: int|
                        0 <= i < prefix.len() && (#[trigger] prefix[i]).0 == t;
                    assert(arrivals[i] == prefix[i]);
                    assert(0 <= i < arrivals.len() && arrivals[i].0 == t);
                }
            }
        }
        assert forall|k: int| st2.pending.dom().contains(k) implies arrived_index(
            arrivals,
            k,
        ) by {
            assert(m1.dom().contains(k));
            if k == a.0 {
                assert(0 <= last < arrivals.len() && arrivals[last].0 == k);
            } else {
                assert(st.pending.dom().contains(k));
                assert(arrived_index(prefix, k));
                let i = choose|i: int| 0 <= i < prefix.len() && (#[trigger] prefix[i]).0 == k;
                assert(arrivals[i] == prefix[i]);
                assert(0 <= i < arrivals.len() && arrivals[i].0 == k);
            }
        }
    }
}

/// Law: when uniquely-indexed fragments covering every index below `n` all
/// arrive, in whatever order, every one of them is released, in index order
/// and with its own bytes — so the released sequence does not depend on the
/// arrival order at all.
pub proof fn lemma_complete_arrivals_release_in_order(arrivals: Seq<(int, Seq<u8>)>, n: int)
    requires
        n >= 0,
        forall|i: int, j: int|
            0 <= i < j < arrivals.len() ==> (#[trigger] arrivals[i]).0 != (
            #[trigger] arrivals[j]).0,
        forall|i: int| 0 <= i < arrivals.len() ==> 0 <= (#[trigger] arrivals[i]).0 < n,
        forall|t: int| 0 <= t < n ==> #[trigger] arrived_index(arrivals, t),
    ensures
        run_model(arrivals).released.len() == n,
        forall|i: int|
            0 <= i < arrivals.len() ==> run_model(arrivals).released[(#[trigger] arrivals[i]).0]
                == arrivals[i],
{
    lemma_unique_arrivals_tracked(arrivals);
    let st = run_model(arrivals);
    if st.next > n {
        assert(arrived_index(arrivals, n));
        let i = choose|i: int| 0 <= i < arrivals.len() && (#[trigger] arrivals[i]).0 == n;
        assert(arrivals[i].0 < n);
        assert(false);
    }
    if st.next < n {
        assert(arrived_index(arrivals, st.next));
        let i = choose|i: int|
            0 <= i < arrivals.len() && (#[trigger] arrivals[i]).0 == st.next;
        let a = arrivals[i];
        assert((a.0 < st.next && st.released[a.0] == a) || (st.pending.dom().contains(a.0)
            && st.pending[a.0] == a.1));
        assert(false);
    }
    assert(st.next == n);
    assert forall|i: int| 0 <= i < arrivals.len() implies st.released[(
    #[trigger] arrivals[i]).0] == arrivals[i] by {
        let a = arrivals[i];
        assert((a.0 < st.next && st.released[a.0] == a) || (st.pending.dom().contains(a.0)
            && st.pending[a.0] == a.1));
    }
}

} // verus!
