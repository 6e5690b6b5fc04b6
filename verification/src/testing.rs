//! A sink whose every answer is set by its user, for trying out rules of
//! the mirror loop before a destination has them.
use std::collections::VecDeque;

use vstd::prelude::*;

use crate::error::SinkError;
use crate::mirror::Sink;
use crate::mock::queue_of;
use crate::record::{Record, RecordView};

verus! {

/// One call that a sink received.
#[derive(Debug, Clone, Copy, PartialEq, Eq, Structural)]
pub enum Call {
    NextExpectedOffset,
    Write { source_offset: u64 },
    Flush,
    AllowsCompactedSource,
    AlignToSourceLowWatermark { low_watermark: u64 },
}

/// The positions that a sink reports.
#[derive(Debug)]
pub enum Positions {
    /// The same one each time.
    Fixed(u64),
    /// Each in turn, then an error.
    Sequence(VecDeque<u64>),
}

/// A sink with scripted answers that remembers every call.
pub struct BlanketMockSink {
    pub positions: Positions,
    /// The answers of the next writes; later writes succeed.
    pub write_results: VecDeque<Result<(), SinkError>>,
    /// The error of every write, where all are to fail.
    pub write_error: Option<SinkError>,
    /// The answers of the next flushes; later flushes succeed.
    pub flush_results: VecDeque<Result<(), SinkError>>,
    pub compacted_source_allowed: bool,
    /// The answers of the next alignments; later alignments succeed.
    pub align_results: VecDeque<Result<(), SinkError>>,
    /// The calls so far, in order.
    pub calls: Vec<Call>,
    /// The offsets of the writes that succeeded.
    pub accepted: Ghost<Seq<u64>>,
}

/// The answer that stands first in `answers`, and success without one.
pub open spec fn next_answer(answers: Seq<Result<(), SinkError>>) -> Result<(), SinkError> {
    if answers.len() > 0 {
        answers[0]
    } else {
        Ok(())
    }
}

/// The answers that are left after the next one was given.
pub open spec fn later_answers(answers: Seq<Result<(), SinkError>>) -> Seq<
    Result<(), SinkError>,
> {
    if answers.len() > 0 {
        answers.skip(1)
    } else {
        answers
    }
}

fn take_answer(answers: &mut VecDeque<Result<(), SinkError>>) -> (r: Result<(), SinkError>)
    ensures
        r == next_answer(old(answers)@),
        final(answers)@ == later_answers(old(answers)@),
{
    let ghost before = answers@;
    match answers.pop_front() {
        Some(r) => {
            assert(answers@ =~= before.skip(1));
            r
        },
        None => Ok(()),
    }
}

impl Default for BlanketMockSink {
    fn default() -> (r: Self)
        ensures
            r.positions == Positions::Fixed(0),
            r.write_results@ == Seq::<Result<(), SinkError>>::empty(),
            r.write_error is None,
            r.flush_results@ == Seq::<Result<(), SinkError>>::empty(),
            !r.compacted_source_allowed,
            r.align_results@ == Seq::<Result<(), SinkError>>::empty(),
            r.calls@ == Seq::<Call>::empty(),
    {
        BlanketMockSink {
            positions: Positions::Fixed(0),
            write_results: VecDeque::new(),
            write_error: None,
            flush_results: VecDeque::new(),
            compacted_source_allowed: false,
            align_results: VecDeque::new(),
            calls: Vec::new(),
            accepted: Ghost(Seq::empty()),
        }
    }
}

impl BlanketMockSink {
    /// A sink that stands at zero, lets everything succeed and does not
    /// tolerate a compacted source.
    pub fn builder() -> (r: Self)
        ensures
            r.positions == Positions::Fixed(0),
            r.write_results@ == Seq::<Result<(), SinkError>>::empty(),
            r.write_error is None,
            r.flush_results@ == Seq::<Result<(), SinkError>>::empty(),
            !r.compacted_source_allowed,
            r.align_results@ == Seq::<Result<(), SinkError>>::empty(),
            r.calls@ == Seq::<Call>::empty(),
    {
        BlanketMockSink::default()
    }

    /// Report `value` as the position each time.
    pub fn with_next_expected_offset(self, value: u64) -> (r: Self)
        ensures
            r == (BlanketMockSink { positions: Positions::Fixed(value), ..self }),
    {
        BlanketMockSink { positions: Positions::Fixed(value), ..self }
    }

    /// Report each of `values` in turn, then fail.
    pub fn with_next_expected_offset_sequence(self, values: Vec<u64>) -> (r: Self)
        ensures
            r.positions matches Positions::Sequence(q) && q@ == values@,
            r == (BlanketMockSink { positions: r.positions, ..self }),
    {
        BlanketMockSink { positions: Positions::Sequence(queue_of(values)), ..self }
    }

    /// Let every write fail with `err`.
    pub fn with_write_always_errors(self, err: SinkError) -> (r: Self)
        ensures
            r == (BlanketMockSink { write_error: Some(err), ..self }),
    {
        BlanketMockSink { write_error: Some(err), ..self }
    }

    /// Answer the next writes with `results`, in turn; later ones succeed.
    pub fn with_write_results(self, results: Vec<Result<(), SinkError>>) -> (r: Self)
        ensures
            r.write_results@ == results@,
            r == (BlanketMockSink {
                write_results: r.write_results,
                write_error: None,
                ..self
            }),
    {
        BlanketMockSink { write_results: queue_of(results), write_error: None, ..self }
    }

    /// Answer the next flushes with `results`, in turn; later ones succeed.
    pub fn with_flush_results(self, results: Vec<Result<(), SinkError>>) -> (r: Self)
        ensures
            r.flush_results@ == results@,
            r == (BlanketMockSink { flush_results: r.flush_results, ..self }),
    {
        BlanketMockSink { flush_results: queue_of(results), ..self }
    }

    /// Set whether a compacted source is tolerated.
    pub fn with_allows_compacted_source(self, value: bool) -> (r: Self)
        ensures
            r == (BlanketMockSink { compacted_source_allowed: value, ..self }),
    {
        BlanketMockSink { compacted_source_allowed: value, ..self }
    }

    /// Answer the next alignments with `results`, in turn; later ones
    /// succeed.
    pub fn with_align_results(self, results: Vec<Result<(), SinkError>>) -> (r: Self)
        ensures
            r.align_results@ == results@,
            r == (BlanketMockSink { align_results: r.align_results, ..self }),
    {
        BlanketMockSink { align_results: queue_of(results), ..self }
    }

    /// The calls so far, in order.
    pub fn calls(&self) -> (r: Vec<Call>)
        ensures
            r@ == self.calls@,
    {
        let r = self.calls.clone();
        assert(r@ =~= self.calls@);
        r
    }
}

impl Sink for BlanketMockSink {
    open spec fn valid(&self) -> bool {
        true
    }

    open spec fn tolerates_gaps(&self) -> bool {
        self.compacted_source_allowed
    }

    open spec fn accepted_offsets(&self) -> Seq<u64> {
        self.accepted@
    }

    open spec fn reports_position(&self, after: &Self, r: Result<u64, SinkError>) -> bool {
        &&& *after == (BlanketMockSink {
            positions: after.positions,
            calls: after.calls,
            ..*self
        })
        &&& after.calls@ == self.calls@.push(Call::NextExpectedOffset)
        &&& match self.positions {
            Positions::Fixed(v) => r == Ok::<u64, SinkError>(v) && after.positions
                == self.positions,
            Positions::Sequence(q) => {
                &&& after.positions matches Positions::Sequence(rest)
                &&& if q@.len() > 0 {
                    r == Ok::<u64, SinkError>(q@[0]) && rest@ == q@.skip(1)
                } else {
                    rest@ == q@ && (r matches Err(SinkError::Transport(m)) && m@
                        == "BlanketMockSink: next_expected_offset sequence exhausted"@)
                }
            },
        }
    }

    open spec fn takes_record(
        &self,
        after: &Self,
        record: RecordView,
        r: Result<(), SinkError>,
    ) -> bool {
        &&& *after == (BlanketMockSink {
            write_results: after.write_results,
            accepted: after.accepted,
            calls: after.calls,
            ..*self
        })
        &&& after.calls@ == self.calls@.push(Call::Write { source_offset: record.source_offset })
        &&& match self.write_error {
            Some(e) => r == Err::<(), SinkError>(e) && after.write_results@
                == self.write_results@,
            None => r == next_answer(self.write_results@) && after.write_results@
                == later_answers(self.write_results@),
        }
    }

    open spec fn tells_tolerance(&self, after: &Self) -> bool {
        &&& *after == (BlanketMockSink { calls: after.calls, ..*self })
        &&& after.calls@ == self.calls@.push(Call::AllowsCompactedSource)
    }

    open spec fn aligns_to(
        &self,
        after: &Self,
        low_watermark: u64,
        r: Result<(), SinkError>,
    ) -> bool {
        &&& *after == (BlanketMockSink {
            align_results: after.align_results,
            calls: after.calls,
            ..*self
        })
        &&& after.calls@ == self.calls@.push(Call::AlignToSourceLowWatermark { low_watermark })
        &&& r == next_answer(self.align_results@)
        &&& after.align_results@ == later_answers(self.align_results@)
    }

    open spec fn flushes(&self, after: &Self, r: Result<(), SinkError>) -> bool {
        &&& *after == (BlanketMockSink {
            flush_results: after.flush_results,
            calls: after.calls,
            ..*self
        })
        &&& after.calls@ == self.calls@.push(Call::Flush)
        &&& r == next_answer(self.flush_results@)
        &&& after.flush_results@ == later_answers(self.flush_results@)
    }

    fn next_expected_offset(&mut self) -> (r: Result<u64, SinkError>) {
        self.calls.push(Call::NextExpectedOffset);
        match &mut self.positions {
            Positions::Fixed(v) => Ok(*v),
            Positions::Sequence(q) => {
                let ghost before = q@;
                match q.pop_front() {
                    Some(v) => {
                        assert(q@ =~= before.skip(1));
                        Ok(v)
                    },
                    None => Err(
                        SinkError::Transport(
                            "BlanketMockSink: next_expected_offset sequence exhausted".to_owned(),
                        ),
                    ),
                }
            },
        }
    }

    fn write(&mut self, record: Record) -> (r: Result<(), SinkError>) {
        self.calls.push(Call::Write { source_offset: record.source_offset });
        let r = match &self.write_error {
            Some(e) => Err(e.clone()),
            None => take_answer(&mut self.write_results),
        };
        if r.is_ok() {
            self.accepted = Ghost(self.accepted@.push(record.source_offset));
        }
        r
    }

    fn flush(&mut self) -> (r: Result<(), SinkError>) {
        self.calls.push(Call::Flush);
        take_answer(&mut self.flush_results)
    }

    fn allows_compacted_source(&mut self) -> (r: bool) {
        self.calls.push(Call::AllowsCompactedSource);
        self.compacted_source_allowed
    }

    fn align_to_source_low_watermark(&mut self, low_watermark: u64) -> (r: Result<
        (),
        SinkError,
    >) {
        self.calls.push(Call::AlignToSourceLowWatermark { low_watermark });
        take_answer(&mut self.align_results)
    }
}

} // verus!
