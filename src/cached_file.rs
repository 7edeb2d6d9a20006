use vstd::prelude::*;

use crate::cached_read::CachedRead;
use crate::chunk_map::{floor_of, DownloadState};
use crate::dispatcher::{after_submit, opt_view, DownloadRequest, RequestView};
use crate::error::CacheError;
use crate::file_table::{chunks_in, table_set};
use crate::range_cache::RangeCache;
use crate::registry::registered;

verus! {

/// The mathematical value of a `CachedFile`.
pub struct CachedFileView {
    pub downloader_id: Seq<char>,
    pub file_id: Seq<char>,
    pub length: u64,
    pub auto_schedule: bool,
}

/// One remote file seen as a random-access byte source over a shared
/// cache: its id, its total length, the source that serves it, and whether
/// each read schedules its own download. The cache is handed to each call.
pub struct CachedFile {
    dler_id: String,
    file_id: String,
    length: u64,
    auto_schedule: bool,
}

impl View for CachedFile {
    type V = CachedFileView;

    closed spec fn view(&self) -> CachedFileView {
        CachedFileView {
            downloader_id: self.dler_id@,
            file_id: self.file_id@,
            length: self.length,
            auto_schedule: self.auto_schedule,
        }
    }
}

impl CachedFile {
    /// Binds the file to the cache, registering its downloader with
    /// `dler_creator` unless one is registered for `dler_id`. Starts no
    /// download.
    pub fn new<D, F: Fn() -> D>(
        file_id: String,
        length: u64,
        cache: &mut RangeCache<D>,
        dler_id: String,
        dler_creator: F,
        auto_schedule: bool,
    ) -> (r: Self)
        requires
            dler_creator.requires(()),
        ensures
            r@ == (CachedFileView { downloader_id: dler_id@, file_id: file_id@, length, auto_schedule }),
            final(cache).chunks() == old(cache).chunks(),
            final(cache).dispatch() == old(cache).dispatch(),
            old(cache).downloaders().contains_key(dler_id@) ==> final(cache).downloaders()
                == old(cache).downloaders(),
            !old(cache).downloaders().contains_key(dler_id@) ==> exists|d: D|
                dler_creator.ensures((), d) && final(cache).downloaders() == registered(
                    old(cache).downloaders(),
                    dler_id@,
                    d,
                ),
    {
        cache.register_downloader(dler_id.as_str(), dler_creator);
        CachedFile { dler_id, file_id, length, auto_schedule }
    }

    /// Schedules the download of `length` bytes at `start`, ahead of the
    /// reads that need them; returns the request to start now, if any.
    pub fn prefetch<D>(&self, cache: &mut RangeCache<D>, start: u64, length: usize) -> (r: Option<DownloadRequest>)
        ensures
            final(cache).chunks() == table_set(
                old(cache).chunks(),
                (self@.downloader_id, self@.file_id),
                start,
                DownloadState::Pending,
            ),
            final(cache).downloaders() == old(cache).downloaders(),
            opt_view(r) == after_submit(
                old(cache).dispatch(),
                (RequestView { source: self@.downloader_id, file: self@.file_id, start, length }),
            ).1,
            final(cache).dispatch() == after_submit(
                old(cache).dispatch(),
                (RequestView { source: self@.downloader_id, file: self@.file_id, start, length }),
            ).0,
    {
        cache.schedule(self.dler_id.clone(), self.file_id.clone(), start, length)
    }

    /// The id of the file at its source.
    pub fn file_id(&self) -> (r: &String)
        ensures
            r@ == self@.file_id,
    {
        &self.file_id
    }

    /// The id of the source that serves the file.
    pub fn downloader_id(&self) -> (r: &String)
        ensures
            r@ == self@.downloader_id,
    {
        &self.dler_id
    }

    /// The total length of the file.
    pub fn len(&self) -> (r: u64)
        ensures
            r == self@.length,
    {
        self.length
    }

    /// A reader for `length` bytes at `start`. With auto-scheduling the
    /// range is scheduled first (the request to start now, if any, comes
    /// back too) and the reader always comes; without it the range must have
    /// been scheduled before, else the read fails with `NotScheduled`.
    pub fn get_read<D>(&self, cache: &mut RangeCache<D>, start: u64, length: usize) -> (r: (
        Option<DownloadRequest>,
        Result<CachedRead, CacheError>,
    ))
        ensures
            final(cache).downloaders() == old(cache).downloaders(),
            self@.auto_schedule ==> {
                &&& final(cache).chunks() == table_set(
                    old(cache).chunks(),
                    (self@.downloader_id, self@.file_id),
                    start,
                    DownloadState::Pending,
                )
                &&& opt_view(r.0) == after_submit(
                    old(cache).dispatch(),
                    (RequestView { source: self@.downloader_id, file: self@.file_id, start, length }),
                ).1
                &&& final(cache).dispatch() == after_submit(
                    old(cache).dispatch(),
                    (RequestView { source: self@.downloader_id, file: self@.file_id, start, length }),
                ).0
                &&& r.1 is Ok
            },
            !self@.auto_schedule ==> {
                &&& final(cache).chunks() == old(cache).chunks()
                &&& final(cache).dispatch() == old(cache).dispatch()
                &&& r.0 is None
                &&& (r.1 is Ok <==> floor_of(
                    chunks_in(old(cache).chunks(), (self@.downloader_id, self@.file_id)),
                    start,
                ) is Some)
                &&& r.1 matches Err(e) ==> e matches CacheError::NotScheduled {
                    file_id,
                    start: s,
                    length: l,
                } && file_id@ == self@.file_id && s == start && l == length
            },
            r.1 matches Ok(reader) ==> reader@ is None,
    {
        let mut started: Option<DownloadRequest> = None;
        if self.auto_schedule {
            started = cache.schedule(self.dler_id.clone(), self.file_id.clone(), start, length);
            assert(chunks_in(cache.chunks(), (self@.downloader_id, self@.file_id)).contains_key(
                start,
            ));
        }
        let read = cache.get(self.dler_id.clone(), self.file_id.clone(), start, length);
        (started, read)
    }
}

} // verus!
