//! The run controller: it takes the chunks read and what the transform
//! returned, keeps the counters, applies the continuation policy and says
//! what is to be done next.
//!
//! The controller does no reading, transforming or writing of its own. The
//! caller performs the action that the controller names and reports what
//! came of it:
//!
//! * `Read`: read a chunk and [`Run::feed`] it; an empty chunk says that
//!   the source is exhausted;
//! * `Transform`: run the filter on [`Run::next_record`] and
//!   [`Run::settle`] what it returned;
//! * `Flush`: take the output with [`Run::flush`] and deliver it;
//! * `Finish`, `Fail`: the run is over.
//!
//! A collaborator's own fatal error is reported with [`Run::abort`].
use vstd::prelude::*;
use vstd::slice::slice_subrange;
use vstd::string::StringSliceAdditionalSpecFns;
use vstd::utf8::*;
use crate::counters::{RunCounters, Tally};
use crate::error::{Failure, RunError};
use crate::markers::OPEN_MARKER_LEN;
use crate::model::{
    aborted, accounted, action_of, fed, flushed, found, grown_text, initial, phase_of, settled,
    Action, Phase, Returned, RunView,
};
use crate::reassembly::ReassemblyBuffer;
use crate::sink::OutputSink;
use crate::splitter::{is_terminal, lemma_split_lengths, split, Split};
use crate::text::texts;
use crate::transform::{adapt, apply_policy, Outcome};

verus! {

/// One run over one stream.
pub struct Run {
    continue_on_error: bool,
    open_left: usize,
    buffer: ReassemblyBuffer,
    records: Vec<String>,
    next: usize,
    handled: Ghost<Seq<Seq<u8>>>,
    closing: bool,
    counters: RunCounters,
    sink: OutputSink,
    failure: Option<RunError>,
}

/// What a run leaves behind.
#[derive(Debug)]
pub struct RunReport {
    /// All output of the run that was not flushed before, in the order
    /// written.
    pub output: Vec<u8>,
    /// The counters at the end of the run.
    pub counters: RunCounters,
    /// The failure that aborted the run; none if it was not aborted.
    pub failure: Option<RunError>,
}

/// What a run leaves behind, over mathematical values.
pub struct ReportView {
    pub output: Seq<u8>,
    pub tally: Tally,
    pub failure: Option<Failure>,
}

impl View for RunReport {
    type V = ReportView;

    open spec fn view(&self) -> ReportView {
        ReportView {
            output: self.output@,
            tally: self.counters@,
            failure: match self.failure {
                Some(e) => Some(e@),
                None => None,
            },
        }
    }
}

/// What a run in the state `v` leaves behind when it ends there.
pub open spec fn report_of(v: RunView) -> ReportView {
    ReportView { output: v.written, tally: v.tally, failure: v.failure }
}

/// What `returned` is over mathematical values.
pub open spec fn returned_view(returned: Result<String, String>) -> Returned {
    match returned {
        Ok(output) => Ok(output@),
        Err(cause) => Err(cause@),
    }
}

impl View for Run {
    type V = RunView;

    closed spec fn view(&self) -> RunView {
        RunView {
            continue_on_error: self.continue_on_error,
            open_left: self.open_left as nat,
            carry: self.buffer.carry(),
            text: self.buffer.text(),
            handled: self.handled@,
            queue: texts(self.records@).skip(self.next as int),
            closing: self.closing,
            tally: self.counters@,
            written: self.sink@,
            failure: match self.failure {
                Some(e) => Some(e@),
                None => None,
            },
        }
    }
}

impl Run {
    /// The run's invariant: see [`accounted`].
    pub closed spec fn wf(&self) -> bool {
        &&& self.next <= self.records@.len()
        &&& accounted(self@)
    }

    /// What the invariant says of the state.
    pub proof fn lemma_wf(&self)
        requires
            self.wf(),
        ensures
            accounted(self@),
    {
    }

    /// A run at its start.
    pub fn new(continue_on_error: bool) -> (run: Run)
        ensures
            run.wf(),
            run@ == initial(continue_on_error),
    {
        let run = Run {
            continue_on_error,
            open_left: OPEN_MARKER_LEN,
            buffer: ReassemblyBuffer::new(),
            records: Vec::new(),
            next: 0,
            handled: Ghost(Seq::empty()),
            closing: false,
            counters: RunCounters::new(),
            sink: OutputSink::new(),
            failure: None,
        };
        assert(run@.queue =~= Seq::<Seq<u8>>::empty());
        run
    }

    /// The counters as they stand.
    pub fn counters(&self) -> (c: RunCounters)
        ensures
            c@ == self@.tally,
    {
        self.counters
    }

    /// The failure that aborted the run, if one did.
    pub fn failure(&self) -> (f: Option<&RunError>)
        ensures
            f is Some <==> self@.failure is Some,
            f matches Some(e) ==> Some(e@) == self@.failure,
    {
        self.failure.as_ref()
    }

    /// The phase the run is in.
    pub fn phase(&self) -> (p: Phase)
        requires
            self.wf(),
        ensures
            p == phase_of(self@),
    {
        let queued = self.records.len() - self.next;
        if self.failure.is_some() {
            Phase::Aborted
        } else if self.closing {
            if queued > 1 {
                Phase::Streaming
            } else if queued == 1 || !self.sink.is_empty() {
                Phase::Finalizing
            } else {
                Phase::Done
            }
        } else if self.open_left > 0 {
            Phase::Priming
        } else {
            Phase::Streaming
        }
    }

    /// What the caller is to do next.
    pub fn next_action(&self) -> (a: Action)
        requires
            self.wf(),
        ensures
            a == action_of(self@),
    {
        if self.failure.is_none() && self.records.len() - self.next > 0 {
            Action::Transform
        } else if !self.sink.is_empty() {
            Action::Flush
        } else if self.failure.is_some() {
            Action::Fail
        } else if self.closing {
            Action::Finish
        } else {
            Action::Read
        }
    }

    /// The record that is to be transformed next: the oldest one found and
    /// not settled. None after a failure.
    pub fn next_record(&self) -> (r: Option<&String>)
        requires
            self.wf(),
        ensures
            r is Some <==> self@.failure is None && self@.queue.len() > 0,
            r matches Some(text) ==> encode_utf8(text@) == self@.queue[0],
    {
        if self.failure.is_none() && self.next < self.records.len() {
            Some(&self.records[self.next])
        } else {
            None
        }
    }

    /// Takes one chunk read from the source; an empty chunk says that the
    /// source is exhausted. The new state is [`fed`], the result the action
    /// that it asks for.
    pub fn feed(&mut self, chunk: &[u8]) -> (a: Action)
        requires
            old(self).wf(),
            old(self)@.tally.bytes + chunk@.len() <= u64::MAX,
        ensures
            final(self).wf(),
            final(self)@ == fed(old(self)@, chunk@),
            a == action_of(final(self)@),
    {
        if self.failure.is_some() || self.closing {
            return self.next_action();
        }
        if chunk.len() == 0 {
            self.failure = Some(RunError::UnexpectedEof);
            return self.next_action();
        }
        let skip = if self.open_left <= chunk.len() {
            self.open_left
        } else {
            chunk.len()
        };
        let ghost before = self@;
        self.open_left = self.open_left - skip;
        self.counters.bytes_consumed = self.counters.bytes_consumed + chunk.len() as u64;
        let body = slice_subrange(chunk, skip, chunk.len());
        match self.buffer.absorb(body) {
            Err(_) => {
                self.failure = Some(RunError::Decode);
            },
            Ok(()) => {
                let Split { records, tail } = split(self.buffer.as_text());
                let mut records = records;
                let ghost grown = grown_text(before, chunk@);
                proof {
                    lemma_split_lengths(grown);
                }
                match is_terminal(tail.as_str()) {
                    Some(last) => {
                        let ghost complete = records@;
                        records.push(last);
                        assert(texts(records@) =~= texts(complete).push(encode_utf8(last@)));
                        self.buffer.take_and_reset(String::new());
                        self.closing = true;
                    },
                    None => {
                        self.buffer.take_and_reset(tail);
                    },
                }
                let ghost queued = self.records@;
                let ghost added = records@;
                self.records.append(&mut records);
                assert(texts(self.records@) =~= texts(queued) + texts(added));
                assert(texts(self.records@).skip(self.next as int) =~= texts(queued).skip(
                    self.next as int,
                ) + texts(added));
            },
        }
        self.next_action()
    }

    /// Takes what the transform of [`Run::next_record`] returned and
    /// applies the continuation policy. The new state is [`settled`], the
    /// result the action that it asks for.
    pub fn settle(&mut self, returned: Result<String, String>) -> (a: Action)
        requires
            old(self).wf(),
        ensures
            final(self).wf(),
            final(self)@ == settled(old(self)@, returned_view(returned)),
            a == action_of(final(self)@),
    {
        if self.failure.is_some() || self.next >= self.records.len() {
            return self.next_action();
        }
        let ghost before = self@;
        let failed = returned.is_err();
        let result = adapt(self.records[self.next].as_str(), returned);
        self.next = self.next + 1;
        self.handled = Ghost(before.handled.push(before.queue[0]));
        self.counters.records_seen = self.counters.records_seen + 1;
        assert(texts(self.records@).skip(self.next as int) =~= before.queue.drop_first());
        match apply_policy(result, self.continue_on_error) {
            Outcome::Emit(bytes) => {
                self.sink.write(bytes.as_slice());
                if failed {
                    self.counters.records_skipped = self.counters.records_skipped + 1;
                } else {
                    self.counters.records_emitted = self.counters.records_emitted + 1;
                }
            },
            Outcome::Skip => {},
            Outcome::Fatal(e) => {
                self.failure = Some(RunError::Transform(e));
            },
        }
        if self.next == self.records.len() {
            self.records.clear();
            self.next = 0;
            assert(texts(self.records@).skip(self.next as int) =~= before.queue.drop_first());
        }
        self.next_action()
    }

    /// Hands out the output written since the last flush, in the order
    /// written. The caller delivers it to the destination; this is due
    /// whenever the action is `Flush`, on an aborted run too.
    pub fn flush(&mut self) -> (bytes: Vec<u8>)
        requires
            old(self).wf(),
        ensures
            final(self).wf(),
            bytes@ == old(self)@.written,
            final(self)@ == flushed(old(self)@),
    {
        self.sink.flush()
    }

    /// Ends the run: flushes the output and hands out what the run leaves
    /// behind.
    pub fn into_report(self) -> (r: RunReport)
        requires
            self.wf(),
        ensures
            r@ == report_of(self@),
    {
        let mut run = self;
        let output = run.sink.flush();
        RunReport { output, counters: run.counters, failure: run.failure }
    }

    /// Records a fatal error of a collaborator: of the source, of the
    /// filter's compilation or of the destination. The first failure of a
    /// run stays.
    pub fn abort(&mut self, error: RunError) -> (a: Action)
        requires
            old(self).wf(),
        ensures
            final(self).wf(),
            final(self)@ == aborted(old(self)@, error@),
            a == action_of(final(self)@),
    {
        if self.failure.is_none() {
            self.failure = Some(error);
        }
        self.next_action()
    }
}

} // verus!
