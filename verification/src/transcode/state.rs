//! Resumable state of a batch transcode job and the per-file steps that advance it.

use vstd::prelude::*;
use crate::ids::{push_i32, signed_decimal, uuid_hyphenated, uuid_text};
use crate::text::{push_str, string_from_chars};

verus! {

/// Job execution phase.
#[derive(Clone, Copy, Debug, PartialEq, Eq, Structural)]
pub enum TranscodePhase {
    Discovery,
    Processing,
    Complete,
}

/// Totals of a finished batch transcode.
#[derive(Clone, Copy, Debug, PartialEq, Eq, Structural)]
pub struct TranscodeJobOutput {
    pub total_processed: usize,
    pub success_count: usize,
    pub error_count: usize,
    pub total_encoding_time_secs: u64,
}

/// What happened to one video of the batch.
#[derive(Clone, Copy, Debug, PartialEq, Eq, Structural)]
pub enum FileStep {
    /// Its output existed and regeneration is off.
    Skipped,
    /// It was encoded in this many seconds.
    Encoded(u64),
    /// Encoding failed; the batch goes on.
    Failed,
}

/// Resumable state of a batch transcode: entries (entry id, source path, content
/// UUID) found in discovery, and how far processing has gone.
#[derive(Clone, Debug)]
pub struct TranscodeState {
    pub phase: TranscodePhase,
    pub entries: Vec<(i32, String, Option<u128>)>,
    pub processed: usize,
    pub success_count: usize,
    pub error_count: usize,
    pub total_encoding_time_secs: u64,
}

/// The stem of a video's output file: its content UUID when known, else
/// `entry_` and its entry id.
pub open spec fn output_stem_spec(entry_id: i32, content_uuid: Option<u128>) -> Seq<char> {
    match content_uuid {
        Some(u) => uuid_hyphenated(u),
        None => "entry_"@ + signed_decimal(entry_id as int),
    }
}

/// The stem of a video's output file.
pub fn output_stem(entry_id: i32, content_uuid: Option<u128>) -> (s: String)
    ensures
        s@ == output_stem_spec(entry_id, content_uuid),
{
    match content_uuid {
        Some(u) => uuid_text(u),
        None => {
            let mut v: Vec<char> = Vec::new();
            push_str(&mut v, "entry_");
            push_i32(&mut v, entry_id);
            assert(v@ =~= "entry_"@ + signed_decimal(entry_id as int));
            string_from_chars(v.as_slice())
        },
    }
}

/// The output file name of a stem and an extension: `stem.extension`.
pub fn output_file_name(stem: &str, extension: &str) -> (s: String)
    ensures
        s@ == stem@ + "."@ + extension@,
{
    let mut v: Vec<char> = Vec::new();
    push_str(&mut v, stem);
    push_str(&mut v, ".");
    push_str(&mut v, extension);
    string_from_chars(v.as_slice())
}

impl TranscodeState {
    /// Counters never pass the number of processed entries, which never passes
    /// the number of entries.
    pub open spec fn wf(&self) -> bool {
        self.success_count + self.error_count <= self.processed && self.processed <= self.entries@.len()
    }

    /// A state that has discovered nothing yet.
    pub fn new() -> (r: Self)
        ensures
            r.wf(),
            r.phase == TranscodePhase::Discovery,
            r.entries@.len() == 0,
            r.processed == 0,
            r.success_count == 0,
            r.error_count == 0,
            r.total_encoding_time_secs == 0,
    {
        TranscodeState {
            phase: TranscodePhase::Discovery,
            entries: Vec::new(),
            processed: 0,
            success_count: 0,
            error_count: 0,
            total_encoding_time_secs: 0,
        }
    }

    /// Whether every entry has been processed.
    pub fn is_done(&self) -> (b: bool)
        ensures
            b == (self.processed >= self.entries@.len()),
    {
        self.processed >= self.entries.len()
    }

    /// Record what happened to the next entry: it counts as processed, an encode
    /// adds a success and its time, a failure adds an error.
    pub fn record(&mut self, step: FileStep)
        requires
            old(self).wf(),
            old(self).processed < old(self).entries@.len(),
            step matches FileStep::Encoded(secs) ==> old(self).total_encoding_time_secs + secs <= u64::MAX,
        ensures
            final(self).wf(),
            final(self).phase == old(self).phase,
            final(self).entries == old(self).entries,
            final(self).processed == old(self).processed + 1,
            final(self).success_count == old(self).success_count + (if step is Encoded { 1int } else { 0 }),
            final(self).error_count == old(self).error_count + (if step is Failed { 1int } else { 0 }),
            final(self).total_encoding_time_secs == old(self).total_encoding_time_secs + match step {
                FileStep::Encoded(secs) => secs as int,
                _ => 0,
            },
    {
        let n = self.entries.len();
        assert(self.processed < n);
        match step {
            FileStep::Skipped => {},
            FileStep::Encoded(secs) => {
                self.total_encoding_time_secs = self.total_encoding_time_secs + secs;
                self.success_count = self.success_count + 1;
            },
            FileStep::Failed => {
                self.error_count = self.error_count + 1;
            },
        }
        self.processed = self.processed + 1;
    }

    /// The totals of the job.
    pub fn output(&self) -> (r: TranscodeJobOutput)
        ensures
            r.total_processed == self.processed,
            r.success_count == self.success_count,
            r.error_count == self.error_count,
            r.total_encoding_time_secs == self.total_encoding_time_secs,
    {
        TranscodeJobOutput {
            total_processed: self.processed,
            success_count: self.success_count,
            error_count: self.error_count,
            total_encoding_time_secs: self.total_encoding_time_secs,
        }
    }
}

} // verus!
