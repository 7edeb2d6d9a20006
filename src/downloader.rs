use vstd::prelude::*;

verus! {

/// A remote file to download ranges of: where it lives and how long it is.
pub struct Downloader {
    url: String,
    length: u64,
}

impl Downloader {
    /// A downloader for the file at `url`, `length` bytes long.
    pub fn new(url: String, length: u64) -> (r: Self)
        ensures
            r.url() == url@,
            r.length() == length,
    {
        Downloader { url, length }
    }

    /// The location of the file.
    pub closed spec fn url(&self) -> Seq<char> {
        self.url@
    }

    /// The length of the file.
    pub closed spec fn length(&self) -> u64 {
        self.length
    }

    /// Accepts a hint that `length` bytes at `start` will be read. This
    /// downloader fetches nothing ahead, so the hint changes nothing.
    pub fn schedule(&self, start: u64, length: usize) {
    }
}

} // verus!
