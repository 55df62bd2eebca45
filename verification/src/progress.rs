//! Live progress and cancellation of a running scan.
use vstd::prelude::*;

verus! {

/// How far an operation has come, and whether it should stop.
#[derive(Debug)]
pub struct Progress {
    files: u64,
    bytes: u64,
    cancel: bool,
}

/// Progress, as a mathematical value.
pub struct ProgressRec {
    pub files: u64,
    pub bytes: u64,
    pub cancelled: bool,
}

impl View for Progress {
    type V = ProgressRec;

    closed spec fn view(&self) -> ProgressRec {
        ProgressRec { files: self.files, bytes: self.bytes, cancelled: self.cancel }
    }
}

impl Default for Progress {
    fn default() -> (r: Self)
        ensures
            r@ == (ProgressRec { files: 0, bytes: 0, cancelled: false }),
    {
        Progress { files: 0, bytes: 0, cancel: false }
    }
}

impl ProgressRec {
    /// After `files` more files with `bytes` more bytes. The counters wrap around.
    pub open spec fn advanced(self, files: u64, bytes: u64) -> ProgressRec {
        ProgressRec {
            files: self.files.wrapping_add(files),
            bytes: self.bytes.wrapping_add(bytes),
            cancelled: self.cancelled,
        }
    }
}

impl Progress {
    /// Files seen so far.
    pub fn files(&self) -> (r: u64)
        ensures
            r == self@.files,
    {
        self.files
    }

    /// Bytes seen so far.
    pub fn bytes(&self) -> (r: u64)
        ensures
            r == self@.bytes,
    {
        self.bytes
    }

    /// Ask the running operation to stop as soon as possible.
    pub fn cancel(&mut self)
        ensures
            final(self)@ == (ProgressRec { cancelled: true, ..old(self)@ }),
    {
        self.cancel = true;
    }

    /// Whether cancellation has been requested.
    pub fn cancelled(&self) -> (r: bool)
        ensures
            r == self@.cancelled,
    {
        self.cancel
    }

    /// Count `files` more files with `bytes` more bytes.
    pub fn advance(&mut self, files: u64, bytes: u64)
        ensures
            final(self)@ == old(self)@.advanced(files, bytes),
    {
        self.files = self.files.wrapping_add(files);
        self.bytes = self.bytes.wrapping_add(bytes);
    }
}

} // verus!
