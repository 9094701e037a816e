//! What the run reports at its end.

use crate::text::{decimal, push_char, push_decimal_u64};
use vstd::prelude::*;

verus! {

/// `n` in decimal, with zeros in front up to three digits.
pub open spec fn three_digits(n: nat) -> Seq<char> {
    if n < 10 {
        seq!['0', '0'] + decimal(n)
    } else if n < 100 {
        seq!['0'] + decimal(n)
    } else {
        decimal(n)
    }
}

/// An elapsed time for a reader: hours, minutes and seconds from an hour
/// on; minutes and seconds from a minute on; below that the seconds with
/// the milliseconds behind a point.
pub open spec fn elapsed_text(secs: nat, millis: nat) -> Seq<char> {
    if secs >= 3600 {
        decimal(secs / 3600) + seq!['h', ' '] + decimal((secs % 3600) / 60) + seq!['m', ' ']
            + decimal(secs % 60) + seq!['s']
    } else if secs >= 60 {
        decimal(secs / 60) + seq!['m', ' '] + decimal(secs % 60) + seq!['s']
    } else {
        decimal(secs) + seq!['.'] + three_digits(millis) + seq!['s']
    }
}

/// An elapsed time of `secs` whole seconds and `millis` milliseconds.
pub fn format_elapsed(secs: u64, millis: u32) -> (r: String)
    ensures
        r@ == elapsed_text(secs as nat, millis as nat),
{
    let mut r = String::new();
    if secs >= 3600 {
        push_decimal_u64(&mut r, secs / 3600);
        push_char(&mut r, 'h');
        push_char(&mut r, ' ');
        push_decimal_u64(&mut r, (secs % 3600) / 60);
        push_char(&mut r, 'm');
        push_char(&mut r, ' ');
        push_decimal_u64(&mut r, secs % 60);
        push_char(&mut r, 's');
        assert(r@ =~= elapsed_text(secs as nat, millis as nat));
    } else if secs >= 60 {
        push_decimal_u64(&mut r, secs / 60);
        push_char(&mut r, 'm');
        push_char(&mut r, ' ');
        push_decimal_u64(&mut r, secs % 60);
        push_char(&mut r, 's');
        assert(r@ =~= elapsed_text(secs as nat, millis as nat));
    } else {
        push_decimal_u64(&mut r, secs);
        push_char(&mut r, '.');
        if millis < 10 {
            push_char(&mut r, '0');
            push_char(&mut r, '0');
        } else if millis < 100 {
            push_char(&mut r, '0');
        }
        push_decimal_u64(&mut r, millis as u64);
        push_char(&mut r, 's');
        assert(r@ =~= elapsed_text(secs as nat, millis as nat));
    }
    r
}

/// What can go wrong in a run.
#[derive(PartialEq, Eq, Structural, Debug, Clone, Copy)]
pub enum Failure {
    /// A line is no JSON document: the line is skipped.
    MalformedLine,
    /// A file cannot be opened or decoded: the file is skipped.
    UnreadableFile,
    /// The writer is gone while a worker still has batches to send.
    ChannelDisconnected,
    /// An output destination cannot be opened, written or flushed.
    OutputFailure,
}

impl Failure {
    /// Whether the failure is fatal: whether the run as a whole has failed
    /// with it. A skipped line or file is not.
    pub open spec fn fatal(self) -> bool {
        self == Failure::ChannelDisconnected || self == Failure::OutputFailure
    }

    /// Whether the failure is fatal.
    pub fn is_fatal(&self) -> (b: bool)
        ensures
            b == self.fatal(),
    {
        match self {
            Failure::MalformedLine => false,
            Failure::UnreadableFile => false,
            Failure::ChannelDisconnected => true,
            Failure::OutputFailure => true,
        }
    }
}

/// `n` and `more` together, as far as the machine can count.
pub open spec fn counted_with(n: u64, more: u64) -> u64 {
    if n + more <= u64::MAX {
        (n + more) as u64
    } else {
        u64::MAX
    }
}

/// One more than `n`, as far as the machine can count.
pub open spec fn counted(n: u64) -> u64 {
    counted_with(n, 1)
}

fn count_with(n: u64, more: u64) -> (m: u64)
    ensures
        m == counted_with(n, more),
{
    if n <= u64::MAX - more {
        n + more
    } else {
        u64::MAX
    }
}

fn count(n: u64) -> (m: u64)
    ensures
        m == counted(n),
{
    count_with(n, 1)
}

/// What a run has to say at its end: the files that were read and those
/// that were not, the lines that were skipped, and whether something fatal
/// happened.
pub struct RunSummary {
    pub files_succeeded: u64,
    pub files_failed: u64,
    pub lines_skipped: u64,
    pub fatal: bool,
}

impl RunSummary {
    /// Nothing has happened yet.
    pub fn new() -> (summary: RunSummary)
        ensures
            summary.files_succeeded == 0,
            summary.files_failed == 0,
            summary.lines_skipped == 0,
            !summary.fatal,
    {
        RunSummary { files_succeeded: 0, files_failed: 0, lines_skipped: 0, fatal: false }
    }

    /// Counts a file that was read to its end.
    pub fn file_done(&mut self)
        ensures
            *final(self) == (RunSummary {
                files_succeeded: counted(old(self).files_succeeded),
                ..*old(self)
            }),
    {
        self.files_succeeded = count(self.files_succeeded);
    }

    /// Counts the lines of a file that were skipped as malformed.
    pub fn lines_skipped(&mut self, lines: u64)
        ensures
            *final(self) == (RunSummary {
                lines_skipped: counted_with(old(self).lines_skipped, lines),
                ..*old(self)
            }),
    {
        self.lines_skipped = count_with(self.lines_skipped, lines);
    }

    /// Takes note of a failure: a skipped line or file is counted, a fatal
    /// failure is remembered. A worker whose writer is gone has failed with
    /// its file.
    pub fn note(&mut self, failure: Failure)
        ensures
            final(self).files_succeeded == old(self).files_succeeded,
            final(self).lines_skipped == if failure == Failure::MalformedLine {
                counted(old(self).lines_skipped)
            } else {
                old(self).lines_skipped
            },
            final(self).files_failed == if failure == Failure::UnreadableFile || failure
                == Failure::ChannelDisconnected {
                counted(old(self).files_failed)
            } else {
                old(self).files_failed
            },
            final(self).fatal == (old(self).fatal || failure.fatal()),
    {
        match failure {
            Failure::MalformedLine => {
                self.lines_skipped = count(self.lines_skipped);
            },
            Failure::UnreadableFile => {
                self.files_failed = count(self.files_failed);
            },
            Failure::ChannelDisconnected => {
                self.files_failed = count(self.files_failed);
                self.fatal = true;
            },
            Failure::OutputFailure => {
                self.fatal = true;
            },
        }
    }

    /// The exit status of the process: zero unless something fatal happened.
    pub fn exit_code(&self) -> (code: u8)
        ensures
            code == if self.fatal {
                1u8
            } else {
                0u8
            },
    {
        if self.fatal {
            1
        } else {
            0
        }
    }
}

} // verus!
