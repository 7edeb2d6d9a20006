use vstd::prelude::*;

verus! {

/// Why a read from the cache failed.
#[derive(Debug)]
pub enum CacheError {
    /// No chunk starting at or before `start` was scheduled for the file.
    NotScheduled { file_id: String, start: u64, length: usize },
    /// The covering chunk holds fewer bytes than the read asks for.
    Overflow { file_id: String, start: u64, length: usize },
    /// The download of the covering chunk failed.
    DownloadFailed { file_id: String, start: u64, length: usize, reason: String },
}

impl CacheError {
    /// A copy of this error.
    pub fn duplicate(&self) -> (r: CacheError)
        ensures
            r == *self,
    {
        match self {
            CacheError::NotScheduled { file_id, start, length } => CacheError::NotScheduled {
                file_id: file_id.clone(),
                start: *start,
                length: *length,
            },
            CacheError::Overflow { file_id, start, length } => CacheError::Overflow {
                file_id: file_id.clone(),
                start: *start,
                length: *length,
            },
            CacheError::DownloadFailed { file_id, start, length, reason } =>
                CacheError::DownloadFailed {
                file_id: file_id.clone(),
                start: *start,
                length: *length,
                reason: reason.clone(),
            },
        }
    }
}

} // verus!
