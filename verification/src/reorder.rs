//! The reorder buffer: the component that consumes audio fragments arriving
//! in arbitrary order and releases them to the downstream consumer strictly
//! in index order.
//!
//! Fragments that arrive ahead of their turn wait in a pending map keyed by
//! index; a single cursor `next_index` names the next index eligible for
//! release. When the fragment at the cursor arrives, it is released together
//! with the whole consecutive run of pending successors. A fragment whose
//! index was already passed by the cursor is ignored, so no index is ever
//! released twice. An index that never arrives blocks everything behind it
//! for the rest of the run: ordering is deliberately preferred over
//! completeness.

use std::collections::HashMap;
use vstd::prelude::*;
use vstd::set_lib::set_int_range;

verus! {

broadcast use vstd::std_specs::hash::group_hash_axioms;

/// One synthesized audio fragment: the index of the chunk it was synthesized
/// from, and the raw audio bytes the synthesis service returned for it.
pub struct AudioFragment {
    pub index: usize,
    pub bytes: Vec<u8>,
}

impl AudioFragment {
    /// The fragment as the specification sees it: an index paired with bytes.
    pub open spec fn model(&self) -> (int, Seq<u8>) {
        (self.index as int, self.bytes@)
    }
}

/// The abstract state of a reorder buffer: the fragments that arrived early
/// and still wait for their turn, the release cursor, and everything released
/// so far (oldest first).
#[verifier::ext_equal]
pub struct BufferState {
    pub pending: Map<int, Seq<u8>>,
    pub next: int,
    pub released: Seq<(int, Seq<u8>)>,
}

/// The fragments a buffer with pending map `m` and cursor `next` releases in
/// one drain: the maximal consecutive run of pending indices starting at the
/// cursor, each paired with its bytes.
pub open spec fn release_run(m: Map<int, Seq<u8>>, next: int) -> Seq<(int, Seq<u8>)>
    decreases m.dom().len(),
    when m.dom().finite()
{
    if m.dom().contains(next) {
        seq![(next, m[next])] + release_run(m.remove(next), next + 1)
    } else {
        Seq::empty()
    }
}

/// The run released from `(m, next)` consists exactly of the pending entries
/// at `next`, `next + 1`, ... up to (and not including) the first missing
/// index.
pub proof fn lemma_release_run_properties(m: Map<int, Seq<u8>>, next: int)
    requires
        m.dom().finite(),
    ensures
        forall|t: int|
            0 <= t < release_run(m, next).len() ==> #[trigger] release_run(m, next)[t] == (
            next + t,
            m[next + t],
            ) && m.dom().contains(next + t),
        !m.dom().contains(next + release_run(m, next).len()),
    decreases m.dom().len(),
{
    let run = release_run(m, next);
    if m.dom().contains(next) {
        let m2 = m.remove(next);
        lemma_release_run_properties(m2, next + 1);
        let sub = release_run(m2, next + 1);
        assert(run == seq![(next, m[next])] + sub);
        assert forall|t: int| 0 <= t < run.len() implies #[trigger] run[t] == (next + t, m[next + t])
            && m.dom().contains(next + t) by {
            if t > 0 {
                assert(run[t] == sub[t - 1]);
                assert(sub[t - 1] == (next + t, m2[next + t]));
            }
        }
        assert(!m2.dom().contains(next + 1 + sub.len()));
        assert(!m.dom().contains(next + run.len()));
    }
}

/// The buffer's initial state: nothing pending, nothing released, cursor at
/// index zero.
pub open spec fn initial_state() -> BufferState {
    (BufferState { pending: Map::empty(), next: 0, released: Seq::empty() })
}

/// One arrival transition of the reorder buffer. A stale index (one the
/// cursor already passed) is ignored; otherwise the fragment joins the
/// pending map and the maximal consecutive run at the cursor is released.
pub open spec fn step(st: BufferState, arrival: (int, Seq<u8>)) -> BufferState {
    if arrival.0 < st.next {
        st
    } else {
        let m1 = st.pending.insert(arrival.0, arrival.1);
        let run = release_run(m1, st.next);
        (BufferState {
            pending: m1.remove_keys(set_int_range(st.next, st.next + run.len() as int)),
            next: st.next + run.len() as int,
            released: st.released + run,
        })
    }
}

/// The buffer state reached after a whole sequence of arrivals, oldest first.
pub open spec fn run_model(arrivals: Seq<(int, Seq<u8>)>) -> BufferState
    decreases arrivals.len(),
{
    if arrivals.len() == 0 {
        initial_state()
    } else {
        step(run_model(arrivals.drop_last()), arrivals.last())
    }
}

/// The reorder buffer, as the pipeline's consumer task owns it: out-of-order
/// arrivals wait in `pending_map`; `next_index` is the release cursor. The
/// ghost `released_hist` records every fragment released so far.
pub struct ReorderBuffer {
    pending_map: HashMap<usize, Vec<u8>>,
    next_index: usize,
    released_hist: Ghost<Seq<(int, Seq<u8>)>>,
}

impl ReorderBuffer {
    /// The pending fragments, keyed by index, as a mathematical map.
    pub closed spec fn pending(&self) -> Map<int, Seq<u8>> {
        Map::new(
            |k: int| 0 <= k <= usize::MAX && self.pending_map@.dom().contains(k as usize),
            |k: int| self.pending_map@[k as usize]@,
        )
    }

    /// The release cursor: the next index eligible for release.
    pub closed spec fn next(&self) -> int {
        self.next_index as int
    }

    /// Every fragment released so far, oldest first.
    pub closed spec fn released(&self) -> Seq<(int, Seq<u8>)> {
        self.released_hist@
    }

    /// The buffer as the abstract state machine sees it.
    pub open spec fn model(&self) -> BufferState {
        (BufferState { pending: self.pending(), next: self.next(), released: self.released() })
    }

    /// Well-formedness: the pending map is finite and holds only indices the
    /// cursor has not passed, each small enough that the cursor can move past
    /// it without overflowing.
    pub open spec fn wf(&self) -> bool {
        &&& 0 <= self.next() <= usize::MAX as int
        &&& self.pending().dom().finite()
        &&& forall|k: int|
            self.pending().dom().contains(k) ==> self.next() <= k < usize::MAX as int
    }

    /// A fresh buffer awaiting index zero.
    pub fn new() -> (buf: ReorderBuffer)
        ensures
            buf.wf(),
            buf.model() == initial_state(),
    {
        let buf = ReorderBuffer {
            pending_map: HashMap::new(),
            next_index: 0,
            released_hist: Ghost(Seq::empty()),
        };
        proof {
            assert(buf.pending() =~= Map::<int, Seq<u8>>::empty());
            assert(buf.model() =~= initial_state());
        }
        buf
    }

    /// How many fragments this buffer has released so far (the cursor value:
    /// releases are exactly the indices below it, once each).
    pub fn released_count(&self) -> (n: usize)
        ensures
            n as int == self.next(),
    {
        self.next_index
    }

    /// Feed one arrived fragment to the buffer; the returned vector holds the
    /// fragments this arrival lets the buffer release, in index order. The
    /// buffer follows `step`, so a sequence of calls follows `run_model`.
    pub fn on_arrival(&mut self, index: usize, bytes: Vec<u8>) -> (released: Vec<AudioFragment>)
        requires
            old(self).wf(),
            index < usize::MAX,
        ensures
            final(self).wf(),
            final(self).model() == step(old(self).model(), (index as int, bytes@)),
            released@.map_values(|f: AudioFragment| f.model()) == final(self).released().skip(
                old(self).released().len() as int,
            ),
            final(self).next() == old(self).next() + released@.len(),
            forall|t: int|
                0 <= t < released@.len() ==> (#[trigger] released@[t]).index as int == old(
                    self,
                ).next() + t,
    {
        let ghost arrival = (index as int, bytes@);
        let mut released: Vec<AudioFragment> = Vec::new();
        if index < self.next_index {
            proof {
                assert(self.model() =~= step(old(self).model(), arrival));
                assert(released@.map_values(|f: AudioFragment| f.model()) =~= self.released().skip(
                    old(self).released().len() as int,
                ));
            }
            return released;
        }
        let ghost n0 = self.next();
        self.pending_map.insert(index, bytes);
        let ghost m1 = old(self).pending().insert(index as int, bytes@);
        proof {
            assert(self.pending() =~= m1);
            assert(m1.dom() =~= old(self).pending().dom().insert(index as int));
        }
        let ghost run = release_run(m1, n0);
        proof {
            lemma_release_run_properties(m1, n0);
        }
        loop
            invariant
                self.pending().dom().finite(),
                m1.dom().finite(),
                run == release_run(m1, n0),
                forall|k: int| m1.dom().contains(k) ==> n0 <= k < usize::MAX as int,
                n0 <= self.next() <= n0 + run.len(),
                released@.len() == self.next() - n0,
                forall|t: int|
                    0 <= t < released@.len() ==> (#[trigger] released@[t]).model() == run[t]
                        && released@[t].index as int == n0 + t,
                self.pending() == m1.remove_keys(set_int_range(n0, self.next())),
                self.released_hist == old(self).released_hist,
                forall|t: int|
                    0 <= t < run.len() ==> #[trigger] run[t] == (n0 + t, m1[n0 + t])
                        && m1.dom().contains(n0 + t),
                !m1.dom().contains(n0 + run.len()),
            ensures
                !self.pending().dom().contains(self.next()),
            decreases n0 + run.len() - self.next(),
        {
            let idx = self.next_index;
            let ghost before = self.pending();
            let removed = self.pending_map.remove(&idx);
            proof {
                assert(self.pending() =~= before.remove(idx as int));
                assert(self.pending().dom() =~= before.dom().remove(idx as int));
            }
            match removed {
                Some(b) => {
                    proof {
                        assert(before.dom().contains(idx as int));
                        assert(m1.dom().contains(idx as int));
                        assert((idx as int) < n0 + run.len());
                        assert(before[idx as int] == m1[idx as int]);
                        assert(b@ == before[idx as int]);
                    }
                    released.push(AudioFragment { index: idx, bytes: b });
                    self.next_index = idx + 1;
                    proof {
                        assert(self.pending() =~= m1.remove_keys(
                            set_int_range(n0, self.next()),
                        ));
                    }
                }
                None => {
                    proof {
                        assert(!before.dom().contains(idx as int));
                        assert(self.pending() =~= before);
                    }
                    break ;
                },
            }
        }
        proof {
            let t = self.next() - n0;
            if t < run.len() {
                assert(run[t] == (n0 + t, m1[n0 + t]));
                assert(m1.dom().contains(n0 + t));
                assert(self.pending().dom().contains(n0 + t));
                assert(false);
            }
            assert(self.next() == n0 + run.len());
        }
        self.released_hist = Ghost(self.released_hist@ + run);
        proof {
            assert(self.model() =~= step(old(self).model(), arrival));
            assert(self.released().skip(old(self).released().len() as int) =~= run);
            assert(released@.map_values(|f: AudioFragment| f.model()) =~= run);
            assert forall|k: int| self.pending().dom().contains(k) implies self.next() <= k
                < usize::MAX as int by {
                assert(m1.dom().contains(k));
            }
        }
        released
    }
}

} // verus!
