//! The errors of sources, sinks, notifiers and the run loop.
use vstd::prelude::*;
use vstd::string::*;

use crate::text::{dec, decimal};

verus! {

/// A source failed.
#[derive(Debug, PartialEq, Eq)]
pub enum SourceError {
    Transport(String),
}

/// A sink refused a record or failed.
#[derive(Debug, PartialEq, Eq)]
pub enum SinkError {
    /// The destination is not where the record belongs.
    UnexpectedPosition { expected: u64, actual: u64 },
    Transport(String),
}

/// A notifier failed.
#[derive(Debug, PartialEq, Eq)]
pub enum NotifyError {
    Transport(String),
    /// Every attempt failed.
    Exhausted { attempts: u32, last_error: String },
}

/// Why a mirror stopped.
#[derive(Debug, PartialEq, Eq)]
pub enum MirrorError {
    Source(SourceError),
    Sink(SinkError),
    Notify(NotifyError),
    /// The source delivered an offset below the expected one.
    SourceWentBackwards { expected: u64, got: u64 },
    /// The source skipped offsets that the destination must hold.
    SourceGapAboveExpected { expected: u64, got: u64 },
    /// The destination moved while the source was idle.
    DestinationDrift { expected: u64, actual: u64 },
    /// The source no longer retains the offset to resume from.
    SourceCompactedBelowExpected { start: u64, low_watermark: u64, low_watermark_minus_one: u64 },
}

impl SourceError {
    pub open spec fn text(&self) -> Seq<char> {
        match self {
            SourceError::Transport(m) => "source transport: "@ + m@,
        }
    }

    /// The error in words.
    pub fn message(&self) -> (s: String)
        ensures
            s@ == self.text(),
    {
        match self {
            SourceError::Transport(m) => "source transport: ".to_owned().concat(m.as_str()),
        }
    }
}

impl Clone for SinkError {
    fn clone(&self) -> (r: Self)
        ensures
            r == *self,
    {
        match self {
            SinkError::UnexpectedPosition { expected, actual } => SinkError::UnexpectedPosition {
                expected: *expected,
                actual: *actual,
            },
            SinkError::Transport(m) => SinkError::Transport(m.clone()),
        }
    }
}

impl SinkError {
    pub open spec fn text(&self) -> Seq<char> {
        match self {
            SinkError::UnexpectedPosition { expected, actual } => {
                "destination advanced: expected next-offset "@ + dec(*expected as nat)
                    + ", found "@ + dec(*actual as nat)
            },
            SinkError::Transport(m) => "sink transport: "@ + m@,
        }
    }

    /// The error in words.
    pub fn message(&self) -> (s: String)
        ensures
            s@ == self.text(),
    {
        match self {
            SinkError::UnexpectedPosition { expected, actual } => {
                "destination advanced: expected next-offset ".to_owned().concat(
                    decimal(*expected).as_str(),
                ).concat(", found ").concat(decimal(*actual).as_str())
            },
            SinkError::Transport(m) => "sink transport: ".to_owned().concat(m.as_str()),
        }
    }
}

impl NotifyError {
    pub open spec fn text(&self) -> Seq<char> {
        match self {
            NotifyError::Transport(m) => "notify transport: "@ + m@,
            NotifyError::Exhausted { attempts, last_error } => {
                "notify exhausted after "@ + dec(*attempts as nat) + " attempts: "@ + last_error@
            },
        }
    }

    /// The error in words.
    pub fn message(&self) -> (s: String)
        ensures
            s@ == self.text(),
    {
        match self {
            NotifyError::Transport(m) => "notify transport: ".to_owned().concat(m.as_str()),
            NotifyError::Exhausted { attempts, last_error } => {
                "notify exhausted after ".to_owned().concat(
                    decimal(*attempts as u64).as_str(),
                ).concat(" attempts: ").concat(last_error.as_str())
            },
        }
    }
}

impl MirrorError {
    pub open spec fn text(&self) -> Seq<char> {
        match self {
            MirrorError::Source(e) => e.text(),
            MirrorError::Sink(e) => e.text(),
            MirrorError::Notify(e) => e.text(),
            MirrorError::SourceWentBackwards { expected, got } => {
                "source delivered offset "@ + dec(*got as nat) + ", expected at least "@ + dec(
                    *expected as nat,
                ) + " (went backwards)"@
            },
            MirrorError::SourceGapAboveExpected { expected, got } => {
                "source delivered offset "@ + dec(*got as nat) + ", expected "@ + dec(
                    *expected as nat,
                ) + " (gap above expected)"@
            },
            MirrorError::DestinationDrift { expected, actual } => {
                "destination drift while idle: expected next-offset "@ + dec(*expected as nat)
                    + ", found "@ + dec(*actual as nat)
            },
            MirrorError::SourceCompactedBelowExpected {
                start,
                low_watermark,
                low_watermark_minus_one,
            } => {
                "source has been compacted past start offset: sink wants "@ + dec(*start as nat)
                    + ", broker's earliest is "@ + dec(*low_watermark as nat)
                    + ". Either set `compaction: log` on this mirror (destination becomes a key→latest-value snapshot, missing earlier offsets are harmless), or seed the destination from a backup that covers up to offset "@
                    + dec(*low_watermark_minus_one as nat) + "."@
            },
        }
    }

    /// The error in words.
    pub fn message(&self) -> (s: String)
        ensures
            s@ == self.text(),
    {
        match self {
            MirrorError::Source(e) => e.message(),
            MirrorError::Sink(e) => e.message(),
            MirrorError::Notify(e) => e.message(),
            MirrorError::SourceWentBackwards { expected, got } => {
                "source delivered offset ".to_owned().concat(decimal(*got).as_str()).concat(
                    ", expected at least ",
                ).concat(decimal(*expected).as_str()).concat(" (went backwards)")
            },
            MirrorError::SourceGapAboveExpected { expected, got } => {
                "source delivered offset ".to_owned().concat(decimal(*got).as_str()).concat(
                    ", expected ",
                ).concat(decimal(*expected).as_str()).concat(" (gap above expected)")
            },
            MirrorError::DestinationDrift { expected, actual } => {
                "destination drift while idle: expected next-offset ".to_owned().concat(
                    decimal(*expected).as_str(),
                ).concat(", found ").concat(decimal(*actual).as_str())
            },
            MirrorError::SourceCompactedBelowExpected {
                start,
                low_watermark,
                low_watermark_minus_one,
            } => {
                "source has been compacted past start offset: sink wants ".to_owned().concat(
                    decimal(*start).as_str(),
                ).concat(", broker's earliest is ").concat(decimal(*low_watermark).as_str()).concat(
                    ". Either set `compaction: log` on this mirror (destination becomes a key→latest-value snapshot, missing earlier offsets are harmless), or seed the destination from a backup that covers up to offset ",
                ).concat(decimal(*low_watermark_minus_one).as_str()).concat(".")
            },
        }
    }
}

} // verus!
