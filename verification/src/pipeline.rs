//! The pipeline driver state: what the fetch dispatcher and the consumer loop
//! decide, kept apart from the I/O that surrounds those decisions.
//!
//! One synthesis task per chunk runs concurrently in the embedding
//! application; each task reports its result here. A successful result feeds
//! the reorder buffer and may release a run of in-order fragments for the
//! consumer; a failed one is only recorded — that index is never published
//! and never retried, which permanently blocks every higher index. The
//! consumer loop hands each released fragment to its sink (player or writer)
//! and reports whether the sink took it; a failed decode is skipped, a failed
//! write ends the run as fatal. The run's outcome gathers the counts the
//! caller decides the exit status by.

use vstd::prelude::*;

use crate::reorder::run_model;
use crate::reorder::step;
use crate::reorder::AudioFragment;
use crate::reorder::BufferState;
use crate::reorder::ReorderBuffer;

verus! {

/// Which ordered sink consumes the released fragments.
#[derive(Copy, Clone, Debug, PartialEq, Eq, Structural)]
pub enum ConsumerKind {
    /// Decode each fragment and play it to completion before the next one.
    StreamingPlayer,
    /// Append each fragment's raw bytes to a single output destination.
    SequentialWriter,
}

/// What the consumer loop must do after handing one fragment to its sink.
#[derive(Copy, Clone, Debug, PartialEq, Eq, Structural)]
pub enum ConsumeAction {
    /// The sink took the fragment; go on with the next one.
    Advance,
    /// The fragment could not be decoded; skip it and go on (playback only).
    Skip,
    /// The write failed; the run is fatal and stops (file output only).
    Abort,
}

/// How a run ended: how many fragments were released in order, which chunk
/// indices failed synthesis, and whether a write failure ended the run.
pub struct RunOutcome {
    pub released_count: usize,
    pub failed_indices: Vec<usize>,
    pub fatal: bool,
}

/// What one consume attempt means for the run: success always advances; a
/// failure is skipped under the streaming player but fatal under the
/// sequential writer, where a partial or corrupt output file would be worse
/// than none.
pub open spec fn spec_consume_decision(kind: ConsumerKind, ok: bool) -> ConsumeAction {
    if ok {
        ConsumeAction::Advance
    } else if kind == ConsumerKind::StreamingPlayer {
        ConsumeAction::Skip
    } else {
        ConsumeAction::Abort
    }
}

/// Decide what the consumer loop does after one consume attempt.
pub fn consume_decision(kind: ConsumerKind, ok: bool) -> (action: ConsumeAction)
    ensures
        action == spec_consume_decision(kind, ok),
{
    if ok {
        ConsumeAction::Advance
    } else {
        match kind {
            ConsumerKind::StreamingPlayer => ConsumeAction::Skip,
            ConsumerKind::SequentialWriter => ConsumeAction::Abort,
        }
    }
}

/// The state of one pipeline run. The embedding application drives it: every
/// synthesis result is reported through `on_synthesis_success` or
/// `on_synthesis_failure`, every released fragment's consume attempt through
/// `on_consume_result`, and `outcome` closes the run.
pub struct PipelineState {
    buffer: ReorderBuffer,
    kind: ConsumerKind,
    failed_indices: Vec<usize>,
    skipped_indices: Vec<usize>,
    consumed_count: usize,
    fatal: bool,
    arrivals_hist: Ghost<Seq<(int, Seq<u8>)>>,
}

impl PipelineState {
    /// The sink this run feeds.
    pub closed spec fn kind(&self) -> ConsumerKind {
        self.kind
    }

    /// Every successful synthesis result fed to the reorder buffer so far, in
    /// arrival order.
    pub closed spec fn arrivals(&self) -> Seq<(int, Seq<u8>)> {
        self.arrivals_hist@
    }

    /// The chunk indices whose synthesis failed, in report order.
    pub closed spec fn failed(&self) -> Seq<usize> {
        self.failed_indices@
    }

    /// The indices of released fragments the player could not decode and
    /// skipped, in report order.
    pub closed spec fn skipped(&self) -> Seq<usize> {
        self.skipped_indices@
    }

    /// How many released fragments the sink consumed successfully.
    pub closed spec fn consumed(&self) -> int {
        self.consumed_count as int
    }

    /// Whether a write failure ended the run.
    pub closed spec fn is_fatal(&self) -> bool {
        self.fatal
    }

    /// The reorder-buffer state this run's arrivals determine.
    pub open spec fn buffer_model(&self) -> BufferState {
        run_model(self.arrivals())
    }

    /// Everything released to the consumer so far, oldest first.
    pub open spec fn released(&self) -> Seq<(int, Seq<u8>)> {
        self.buffer_model().released
    }

    /// Well-formedness: the executable buffer is exactly the abstract state
    /// machine run over the recorded arrivals, and consume reports never
    /// outnumber the released fragments.
    pub closed spec fn wf(&self) -> bool {
        &&& self.buffer.wf()
        &&& self.buffer.model() == run_model(self.arrivals())
        &&& self.consumed() + self.skipped().len() <= self.released().len()
    }

    /// A fresh run feeding the given sink: nothing arrived, failed, or was
    /// consumed yet.
    pub fn new(kind: ConsumerKind) -> (st: PipelineState)
        ensures
            st.wf(),
            st.kind() == kind,
            st.arrivals() == Seq::<(int, Seq<u8>)>::empty(),
            st.failed() == Seq::<usize>::empty(),
            st.skipped() == Seq::<usize>::empty(),
            st.consumed() == 0,
            !st.is_fatal(),
    {
        let st = PipelineState {
            buffer: ReorderBuffer::new(),
            kind,
            failed_indices: Vec::new(),
            skipped_indices: Vec::new(),
            consumed_count: 0,
            fatal: false,
            arrivals_hist: Ghost(Seq::empty()),
        };
        st
    }

    /// Report one successful synthesis: the fragment joins the reorder
    /// buffer, and the returned vector holds everything this arrival lets the
    /// buffer release, in index order, for the consumer to take next.
    pub fn on_synthesis_success(&mut self, index: usize, bytes: Vec<u8>) -> (released: Vec<
        AudioFragment,
    >)
        requires
            old(self).wf(),
            index < usize::MAX,
        ensures
            final(self).wf(),
            final(self).arrivals() == old(self).arrivals().push((index as int, bytes@)),
            final(self).kind() == old(self).kind(),
            final(self).failed() == old(self).failed(),
            final(self).skipped() == old(self).skipped(),
            final(self).consumed() == old(self).consumed(),
            final(self).is_fatal() == old(self).is_fatal(),
            released@.map_values(|f: AudioFragment| f.model()) == final(self).released().skip(
                old(self).released().len() as int,
            ),
            forall|t: int|
                0 <= t < released@.len() ==> (#[trigger] released@[t]).index as int == old(
                    self,
                ).released().len() + t,
    {
        let ghost arrival = (index as int, bytes@);
        let ghost arrivals0 = self.arrivals_hist@;
        proof {
            crate::laws::lemma_run_model_inv(arrivals0);
        }
        let released = self.buffer.on_arrival(index, bytes);
        self.arrivals_hist = Ghost(arrivals0.push(arrival));
        proof {
            assert(self.arrivals_hist@.drop_last() =~= arrivals0);
            assert(self.arrivals_hist@.last() == arrival);
            assert(run_model(self.arrivals_hist@) == step(run_model(arrivals0), arrival));
            crate::laws::lemma_run_model_inv(self.arrivals_hist@);
        }
        released
    }

    /// Report one failed synthesis: the index is recorded as failed and never
    /// published — the permanent failure path for that chunk; nothing is
    /// released now or later for it.
    pub fn on_synthesis_failure(&mut self, index: usize)
        ensures
            final(self).wf() == old(self).wf(),
            final(self).failed() == old(self).failed().push(index),
            final(self).arrivals() == old(self).arrivals(),
            final(self).kind() == old(self).kind(),
            final(self).skipped() == old(self).skipped(),
            final(self).consumed() == old(self).consumed(),
            final(self).is_fatal() == old(self).is_fatal(),
    {
        self.failed_indices.push(index);
    }

    /// Report one synthesis task's result, as the dispatcher sees it: audio
    /// bytes are published to the reorder buffer and may release a run of
    /// in-order fragments; a failure is recorded and nothing is ever
    /// published for that index — its permanent failure path.
    pub fn on_synthesis_result(&mut self, index: usize, result: Option<Vec<u8>>) -> (released:
        Vec<AudioFragment>)
        requires
            old(self).wf(),
            index < usize::MAX,
        ensures
            final(self).wf(),
            final(self).kind() == old(self).kind(),
            final(self).skipped() == old(self).skipped(),
            final(self).consumed() == old(self).consumed(),
            final(self).is_fatal() == old(self).is_fatal(),
            match result {
                Some(bytes) => final(self).arrivals() == old(self).arrivals().push(
                    (index as int, bytes@),
                ) && final(self).failed() == old(self).failed(),
                None => final(self).failed() == old(self).failed().push(index)
                    && final(self).arrivals() == old(self).arrivals(),
            },
            released@.map_values(|f: AudioFragment| f.model()) == final(self).released().skip(
                old(self).released().len() as int,
            ),
            forall|t: int|
                0 <= t < released@.len() ==> (#[trigger] released@[t]).index as int == old(
                    self,
                ).released().len() + t,
    {
        match result {
            Some(bytes) => self.on_synthesis_success(index, bytes),
            None => {
                self.on_synthesis_failure(index);
                let released: Vec<AudioFragment> = Vec::new();
                proof {
                    assert(released@.map_values(|f: AudioFragment| f.model())
                        =~= self.released().skip(self.released().len() as int));
                }
                released
            },
        }
    }

    /// Report how the sink took one released fragment. Success advances the
    /// consumed count; a decode failure under the player records the fragment
    /// as skipped; a write failure under the writer makes the run fatal. The
    /// returned action tells the consumer loop whether to go on.
    pub fn on_consume_result(&mut self, index: usize, ok: bool) -> (action: ConsumeAction)
        requires
            old(self).wf(),
            old(self).consumed() + old(self).skipped().len() < old(self).released().len(),
        ensures
            final(self).wf(),
            action == spec_consume_decision(old(self).kind(), ok),
            final(self).kind() == old(self).kind(),
            final(self).arrivals() == old(self).arrivals(),
            final(self).failed() == old(self).failed(),
            ok ==> final(self).consumed() == old(self).consumed() + 1 && final(self).skipped()
                == old(self).skipped() && final(self).is_fatal() == old(self).is_fatal(),
            !ok && old(self).kind() == ConsumerKind::StreamingPlayer ==> final(self).consumed()
                == old(self).consumed() && final(self).skipped() == old(self).skipped().push(
                index,
            ) && final(self).is_fatal() == old(self).is_fatal(),
            !ok && old(self).kind() == ConsumerKind::SequentialWriter ==> final(self).consumed()
                == old(self).consumed() && final(self).skipped() == old(self).skipped()
                && final(self).is_fatal(),
    {
        proof {
            crate::laws::lemma_run_model_inv(self.arrivals());
        }
        let action = consume_decision(self.kind, ok);
        match action {
            ConsumeAction::Advance => {
                self.consumed_count = self.consumed_count + 1;
            },
            ConsumeAction::Skip => {
                self.skipped_indices.push(index);
            },
            ConsumeAction::Abort => {
                self.fatal = true;
            },
        }
        action
    }

    /// How many fragments have been released to the consumer so far.
    pub fn released_count(&self) -> (n: usize)
        requires
            self.wf(),
        ensures
            n as int == self.released().len(),
    {
        let n = self.buffer.released_count();
        proof {
            crate::laws::lemma_run_model_inv(self.arrivals());
        }
        n
    }

    /// Close the run and report its outcome: how many fragments were released
    /// in order, which chunk indices failed synthesis, and whether a write
    /// failure ended the run.
    pub fn outcome(self) -> (outcome: RunOutcome)
        requires
            self.wf(),
        ensures
            outcome.released_count as int == self.released().len(),
            outcome.failed_indices@ == self.failed(),
            outcome.fatal == self.is_fatal(),
    {
        proof {
            crate::laws::lemma_run_model_inv(self.arrivals());
        }
        let released_count = self.buffer.released_count();
        RunOutcome { released_count, failed_indices: self.failed_indices, fatal: self.fatal }
    }
}

} // verus!
