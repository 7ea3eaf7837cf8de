//! Checksumming one input, and the errors that come of it.
use vstd::prelude::*;
use vstd::string::StringExecFns;
use crate::checksum::{crc32_of, Checksum};

verus! {

/// An input whose checksum could not be computed: which one, and why.
pub struct SourceError {
    pub path: String,
    pub reason: String,
}

/// `path: reason`, the text under which a failure is shown.
pub open spec fn annotated(path: Seq<char>, reason: Seq<char>) -> Seq<char> {
    path + ": "@ + reason
}

/// What a worker reports for an input when it ended without an outcome.
pub open spec fn worker_failure_reason() -> Seq<char> {
    "worker failed unexpectedly"@
}

impl SourceError {
    /// The failure of a worker that ended without producing an outcome for
    /// `path`.
    pub fn worker_failed(path: &str) -> (r: SourceError)
        ensures
            r.path@ == path@,
            r.reason@ == worker_failure_reason(),
    {
        SourceError {
            path: String::from_str(path),
            reason: String::from_str("worker failed unexpectedly"),
        }
    }

    /// The message for this failure, naming the input it concerns.
    pub fn message(&self) -> (r: String)
        ensures
            r@ == annotated(self.path@, self.reason@),
    {
        let mut m = String::from_str(self.path.as_str());
        m.append(": ");
        m.append(self.reason.as_str());
        m
    }
}

/// The checksum of the file at `path`, given what reading it produced: a
/// checksum fed with its content in the order it was read, or the reason
/// reading failed. A read failure is kept, with the path, and never turned
/// into the checksum of no bytes.
pub fn crc32_path(path: &str, read: Result<Checksum, String>) -> (r: Result<u32, SourceError>)
    ensures
        read is Ok ==> r == Ok::<u32, SourceError>(crc32_of(read->Ok_0@)),
        read is Ok && read->Ok_0@.len() == 0 ==> r == Ok::<u32, SourceError>(0),
        read is Err ==> r is Err && r->Err_0.path@ == path@ && r->Err_0.reason == read->Err_0,
{
    match read {
        Ok(sum) => Ok(sum.finalize()),
        Err(reason) => Err(SourceError { path: String::from_str(path), reason }),
    }
}

/// The outcome shown for the input at `path`: its checksum, or the reason it
/// failed prefixed with the path, so that the message stands on its own.
pub fn compute_crc_for_display(path: &str, read: Result<Checksum, String>) -> (r: Result<
    u32,
    String,
>)
    ensures
        read is Ok ==> r == Ok::<u32, String>(crc32_of(read->Ok_0@)),
        read is Err ==> r is Err && r->Err_0@ == annotated(path@, read->Err_0@),
{
    match crc32_path(path, read) {
        Ok(crc) => Ok(crc),
        Err(e) => Err(e.message()),
    }
}

} // verus!
