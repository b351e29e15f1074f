//! Validation of a saved translation checkpoint against the current chunking.

use vstd::prelude::*;

use crate::text::{decimal, push_decimal, push_str};
pub use crate::types::TranslationCheckpoint;

verus! {

/// One way in which a checkpoint disagrees with the current chunking.
#[derive(Debug, PartialEq, Eq, Structural)]
pub enum ValidationFailure {
    /// The checkpoint was made for another number of chunks.
    TotalChunksMismatch { checkpoint_total: usize, current_total: usize },
    /// The checkpoint claims more completed chunks than it has chunks.
    CompletedExceedsTotal { completed: usize, total: usize },
    /// The checkpoint holds another number of translations than it claims.
    ContentLengthMismatch { content_len: usize, completed: usize },
}

/// A checkpoint that failed validation, with every check that failed, in
/// the order they are made.
#[derive(Debug)]
pub struct CheckpointError {
    pub failures: Vec<ValidationFailure>,
}

/// The checks that `checkpoint` fails against `current_total_chunks`
/// chunks, in order.
pub open spec fn failed_checks(
    completed: usize,
    total: usize,
    content_len: usize,
    current_total_chunks: usize,
) -> Seq<ValidationFailure> {
    (if total == current_total_chunks {
        Seq::empty()
    } else {
        seq![
            ValidationFailure::TotalChunksMismatch {
                checkpoint_total: total,
                current_total: current_total_chunks,
            },
        ]
    }) + (if completed <= total {
        Seq::empty()
    } else {
        seq![ValidationFailure::CompletedExceedsTotal { completed, total }]
    }) + (if content_len == completed {
        Seq::empty()
    } else {
        seq![ValidationFailure::ContentLengthMismatch { content_len, completed }]
    })
}

impl TranslationCheckpoint {
    /// Validate that the checkpoint matches the current chunking configuration
    pub fn validate(&self, current_total_chunks: usize) -> (r: Result<(), CheckpointError>)
        ensures
            r is Ok <==> (self.total_chunks == current_total_chunks && self.completed_chunks
                <= self.total_chunks && self.translated_content.len() == self.completed_chunks),
            r matches Err(e) ==> e.failures@ == failed_checks(
                self.completed_chunks,
                self.total_chunks,
                self.translated_content.len(),
                current_total_chunks,
            ),
    {
        let mut failures: Vec<ValidationFailure> = Vec::new();
        if self.total_chunks != current_total_chunks {
            failures.push(
                ValidationFailure::TotalChunksMismatch {
                    checkpoint_total: self.total_chunks,
                    current_total: current_total_chunks,
                },
            );
        }
        if !(self.completed_chunks <= self.total_chunks) {
            failures.push(
                ValidationFailure::CompletedExceedsTotal {
                    completed: self.completed_chunks,
                    total: self.total_chunks,
                },
            );
        }
        if self.translated_content.len() != self.completed_chunks {
            failures.push(
                ValidationFailure::ContentLengthMismatch {
                    content_len: self.translated_content.len(),
                    completed: self.completed_chunks,
                },
            );
        }
        proof {
            assert(failures@ =~= failed_checks(
                self.completed_chunks,
                self.total_chunks,
                self.translated_content.len(),
                current_total_chunks,
            ));
        }
        if failures.len() == 0 {
            Ok(())
        } else {
            Err(CheckpointError { failures })
        }
    }
}

/// The line that reports one failed check.
pub open spec fn failure_text(f: ValidationFailure) -> Seq<char> {
    match f {
        ValidationFailure::TotalChunksMismatch { checkpoint_total, current_total } =>
            "Checkpoint total_chunks ("@ + decimal(checkpoint_total as nat)
            + ") does not match current chunks ("@ + decimal(current_total as nat) + ")"@,
        ValidationFailure::CompletedExceedsTotal { completed, total } =>
            "Checkpoint completed_chunks ("@ + decimal(completed as nat) + ") exceeds total_chunks ("@
            + decimal(total as nat) + ")"@,
        ValidationFailure::ContentLengthMismatch { content_len, completed } =>
            "Checkpoint translated_content length ("@ + decimal(content_len as nat)
            + ") does not match completed_chunks ("@ + decimal(completed as nat) + ")"@,
    }
}

/// The lines for `fs`, one after another, separated by newlines.
pub open spec fn failure_lines(fs: Seq<ValidationFailure>) -> Seq<char>
    decreases fs.len(),
{
    if fs.len() == 0 {
        Seq::empty()
    } else if fs.len() == 1 {
        failure_text(fs[0])
    } else {
        failure_lines(fs.drop_last()) + "\n"@ + failure_text(fs.last())
    }
}

impl ValidationFailure {
    /// The line that reports this failed check.
    pub fn message(&self) -> (s: String)
        ensures
            s@ == failure_text(*self),
    {
        let mut s = String::new();
        match self {
            ValidationFailure::TotalChunksMismatch { checkpoint_total, current_total } => {
                push_str(&mut s, "Checkpoint total_chunks (");
                push_decimal(&mut s, *checkpoint_total);
                push_str(&mut s, ") does not match current chunks (");
                push_decimal(&mut s, *current_total);
                push_str(&mut s, ")");
            },
            ValidationFailure::CompletedExceedsTotal { completed, total } => {
                push_str(&mut s, "Checkpoint completed_chunks (");
                push_decimal(&mut s, *completed);
                push_str(&mut s, ") exceeds total_chunks (");
                push_decimal(&mut s, *total);
                push_str(&mut s, ")");
            },
            ValidationFailure::ContentLengthMismatch { content_len, completed } => {
                push_str(&mut s, "Checkpoint translated_content length (");
                push_decimal(&mut s, *content_len);
                push_str(&mut s, ") does not match completed_chunks (");
                push_decimal(&mut s, *completed);
                push_str(&mut s, ")");
            },
        }
        proof {
            assert(s@ =~= failure_text(*self));
        }
        s
    }
}

impl CheckpointError {
    /// The error text: a header line, then one line per failed check.
    pub fn message(&self) -> (s: String)
        ensures
            s@ == "Checkpoint validation failed:\n"@ + failure_lines(self.failures@),
    {
        let mut s = String::new();
        push_str(&mut s, "Checkpoint validation failed:\n");
        let ghost head = s@;
        let mut i: usize = 0;
        while i < self.failures.len()
            invariant
                i <= self.failures.len(),
                head == "Checkpoint validation failed:\n"@,
                s@ == head + failure_lines(self.failures@.take(i as int)),
            decreases self.failures.len() - i,
        {
            let line = self.failures[i].message();
            let ghost prev = s@;
            if i > 0 {
                push_str(&mut s, "\n");
            }
            push_str(&mut s, line.as_str());
            proof {
                let t = self.failures@.take(i + 1);
                assert(t.drop_last() =~= self.failures@.take(i as int));
                assert(t.last() == self.failures@[i as int]);
                if i == 0 {
                    assert(failure_lines(self.failures@.take(0)) =~= Seq::<char>::empty());
                    assert(s@ =~= head + failure_lines(t));
                } else {
                    assert(s@ =~= head + failure_lines(t));
                }
            }
            i = i + 1;
        }
        proof {
            assert(self.failures@.take(self.failures.len() as int) =~= self.failures@);
        }
        s
    }
}

} // verus!
