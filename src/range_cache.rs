use vstd::prelude::*;

use vstd::slice::{slice_subrange, slice_to_vec};

use crate::cached_read::{CachedRead, CachedReadData};
use crate::chunk_map::{floor_of, lemma_floor_unique, is_floor, Download, DownloadState};
use crate::dispatcher::{
    after_finish, after_submit, dispatch_wf, opt_view, DispatchState, Dispatcher, DownloadRequest, RequestView,
};
use crate::error::CacheError;
use crate::file_table::{chunks_in, table_set, FileKey, FileTable, TableView};
use crate::registry::{registered, Registry};

verus! {

/// A source of file bytes: fetches `length` bytes of `file_id` from `start`
/// on, all of them or an error with its reason. Implementations bring their
/// own retry and timeout policy.
pub trait Downloader: Send + Sync {
    fn download(&self, file_id: String, start: u64, length: usize) -> Result<Vec<u8>, String>;
}

/// What a read of `length` bytes at `start` finds in the chunks of its file.
pub enum ReadResolution {
    /// The covering chunk is still downloading.
    Waiting,
    /// The bytes of the read.
    Ready(Seq<u8>),
    /// No chunk starts at or before `start`.
    NotScheduled,
    /// The covering chunk is too short for the read.
    Overflow,
    /// The download of the covering chunk failed, for this reason.
    Failed(Seq<char>),
}

/// A read resolves against the chunk with the largest start at most
/// `start`; it takes bytes from `start - chunk start` on, and fails if the
/// chunk ends before the read does.
pub open spec fn resolve_spec(chunks: Map<u64, DownloadState>, start: u64, length: usize) -> ReadResolution {
    match floor_of(chunks, start) {
        None => ReadResolution::NotScheduled,
        Some(c) => match chunks[c] {
            DownloadState::Pending => ReadResolution::Waiting,
            DownloadState::Error(reason) => ReadResolution::Failed(reason),
            DownloadState::Done(bytes) => {
                let skip = start - c;
                if bytes.len() < skip + length {
                    ReadResolution::Overflow
                } else {
                    ReadResolution::Ready(bytes.subrange(skip, skip + length))
                }
            },
        },
    }
}

/// The state that a finished download leaves in its chunk.
pub open spec fn outcome_state(outcome: Result<Vec<u8>, String>) -> DownloadState {
    match outcome {
        Ok(bytes) => DownloadState::Done(bytes@),
        Err(reason) => DownloadState::Error(reason@),
    }
}

/// `r` is what `resolve` returns for resolution `res` of a read of `length`
/// bytes at `start` of `file`.
pub open spec fn resolved_as(
    r: Option<Result<CachedReadData, CacheError>>,
    file: Seq<char>,
    start: u64,
    length: usize,
    res: ReadResolution,
) -> bool {
    match res {
        ReadResolution::Waiting => r is None,
        ReadResolution::Ready(bytes) => r matches Some(Ok(d)) && d@ == bytes,
        ReadResolution::NotScheduled => r matches Some(Err(CacheError::NotScheduled { file_id, start: s, length: l }))
            && file_id@ == file && s == start && l == length,
        ReadResolution::Overflow => r matches Some(Err(CacheError::Overflow { file_id, start: s, length: l }))
            && file_id@ == file && s == start && l == length,
        ReadResolution::Failed(reason) => r matches Some(Err(CacheError::DownloadFailed { file_id, start: s, length: l, reason: why }))
            && file_id@ == file && s == start && l == length && why@ == reason,
    }
}

/// Scheduling a range and reading exactly that range once its download
/// finished gives back the bytes the downloader returned, whatever else the
/// cache held.
pub proof fn lemma_round_trip(t: TableView, key: FileKey, start: u64, length: usize, bytes: Seq<u8>)
    requires
        bytes.len() == length,
    ensures
        resolve_spec(
            chunks_in(
                table_set(table_set(t, key, start, DownloadState::Pending), key, start, DownloadState::Done(bytes)),
                key,
            ),
            start,
            length,
        ) == ReadResolution::Ready(bytes),
{
    let t2 = table_set(table_set(t, key, start, DownloadState::Pending), key, start, DownloadState::Done(bytes));
    let m = chunks_in(t2, key);
    assert(m.contains_key(start));
    assert(m[start] == DownloadState::Done(bytes));
    assert(is_floor(m, start, start));
    lemma_floor_unique(m, start, start);
    assert(bytes.subrange(0, length as int) =~= bytes);
}

/// While the download of a scheduled range runs, every read inside that
/// range waits for it, whatever the file held before.
pub proof fn lemma_readers_wait_for_pending(t: TableView, key: FileKey, start: u64, offset: u64, length: usize)
    requires
        start <= offset,
        forall|k: u64| chunks_in(t, key).contains_key(k) ==> k <= start || k > offset,
    ensures
        resolve_spec(chunks_in(table_set(t, key, start, DownloadState::Pending), key), offset, length)
            == ReadResolution::Waiting,
{
    let m = chunks_in(table_set(t, key, start, DownloadState::Pending), key);
    assert(is_floor(m, offset, start)) by {
        assert forall|j: u64| #[trigger] m.contains_key(j) && j <= offset implies j <= start by {
            if j != start {
                assert(chunks_in(t, key).contains_key(j));
            }
        }
    }
    lemma_floor_unique(m, offset, start);
}

/// The cache: the chunks of every file, the downloaders by source, and the
/// admission of downloads. It holds no lock and starts no task; the runtime
/// around it serialises the calls, runs the downloads that `schedule` and
/// `complete` hand out, and wakes the readers after `complete`.
pub struct RangeCache<D> {
    data: FileTable,
    downloaders: Registry<D>,
    dispatcher: Dispatcher,
}

impl<D> RangeCache<D> {
    #[verifier::type_invariant]
    spec fn parts_well_formed(&self) -> bool {
        &&& self.data.wf()
        &&& self.downloaders.wf()
        &&& self.dispatcher.wf()
    }

    /// The chunks of every file, by (source, file).
    pub closed spec fn chunks(&self) -> TableView {
        self.data@
    }

    /// The registered downloaders, by source.
    pub closed spec fn downloaders(&self) -> Map<Seq<char>, D> {
        self.downloaders@
    }

    /// The state of download admission.
    pub closed spec fn dispatch(&self) -> DispatchState {
        self.dispatcher@
    }

    /// An empty cache that runs at most `concurrent_downloads` downloads at
    /// once.
    pub fn new(concurrent_downloads: usize) -> (r: Self)
        ensures
            r.chunks() == TableView::empty(),
            r.downloaders() == Map::<Seq<char>, D>::empty(),
            r.dispatch().capacity == concurrent_downloads,
            r.dispatch().running == 0,
            r.dispatch().waiting.len() == 0,
            dispatch_wf(r.dispatch()),
    {
        RangeCache {
            data: FileTable::new(),
            downloaders: Registry::new(),
            dispatcher: Dispatcher::new(concurrent_downloads),
        }
    }

    /// Registers the downloader that `downloader_creator` builds for
    /// `downloader_id`, unless one is registered already; the creator is
    /// called only then.
    pub fn register_downloader<F: Fn() -> D>(&mut self, downloader_id: &str, downloader_creator: F)
        requires
            downloader_creator.requires(()),
        ensures
            final(self).chunks() == old(self).chunks(),
            final(self).dispatch() == old(self).dispatch(),
            old(self).downloaders().contains_key(downloader_id@) ==> final(self).downloaders()
                == old(self).downloaders(),
            !old(self).downloaders().contains_key(downloader_id@) ==> exists|d: D|
                downloader_creator.ensures((), d) && final(self).downloaders() == registered(
                    old(self).downloaders(),
                    downloader_id@,
                    d,
                ),
    {
        proof {
            use_type_invariant(&*self);
        }
        let mut downloaders = Registry::new();
        std::mem::swap(&mut downloaders, &mut self.downloaders);
        downloaders.register(downloader_id, downloader_creator);
        std::mem::swap(&mut downloaders, &mut self.downloaders);
    }

    /// How many downloads run now.
    pub fn running_downloads(&self) -> (r: usize)
        ensures
            r == self.dispatch().running,
            dispatch_wf(self.dispatch()),
    {
        proof {
            use_type_invariant(&*self);
        }
        self.dispatcher.running()
    }

    /// The downloader registered for `downloader_id`, if any.
    pub fn downloader(&self, downloader_id: &String) -> (r: Option<&D>)
        ensures
            r is None <==> !self.downloaders().contains_key(downloader_id@),
            r matches Some(d) ==> *d == self.downloaders()[downloader_id@],
    {
        proof {
            use_type_invariant(&*self);
        }
        self.downloaders.get(downloader_id)
    }

    /// Marks the chunk at `start` of the file pending and queues its
    /// download; returns the request to start now if a download slot is
    /// free. Scheduling an offset again replaces its state and queues
    /// another download.
    pub fn schedule(&mut self, downloader_id: String, file_id: String, start: u64, length: usize) -> (r: Option<DownloadRequest>)
        ensures
            final(self).chunks() == table_set(
                old(self).chunks(),
                (downloader_id@, file_id@),
                start,
                DownloadState::Pending,
            ),
            final(self).downloaders() == old(self).downloaders(),
            (final(self).dispatch(), opt_view(r)) == after_submit(
                old(self).dispatch(),
                (RequestView { source: downloader_id@, file: file_id@, start, length }),
            ),
            dispatch_wf(final(self).dispatch()),
    {
        proof {
            use_type_invariant(&*self);
        }
        let mut data = FileTable::new();
        std::mem::swap(&mut data, &mut self.data);
        data.set(&downloader_id, &file_id, start, Download::Pending);
        std::mem::swap(&mut data, &mut self.data);
        let mut dispatcher = Dispatcher::new(0);
        std::mem::swap(&mut dispatcher, &mut self.dispatcher);
        let started = dispatcher.submit(
            DownloadRequest { source: downloader_id, file: file_id, start, length },
        );
        std::mem::swap(&mut dispatcher, &mut self.dispatcher);
        started
    }

    /// Records the outcome of the download of `request` in its chunk and
    /// frees its slot; returns the waiting request to start in that slot,
    /// if any.
    pub fn complete(&mut self, request: &DownloadRequest, outcome: Result<Vec<u8>, String>) -> (r: Option<DownloadRequest>)
        requires
            old(self).dispatch().running > 0,
        ensures
            final(self).chunks() == table_set(
                old(self).chunks(),
                (request.source@, request.file@),
                request.start,
                outcome_state(outcome),
            ),
            final(self).downloaders() == old(self).downloaders(),
            (final(self).dispatch(), opt_view(r)) == after_finish(old(self).dispatch()),
            dispatch_wf(final(self).dispatch()),
    {
        proof {
            use_type_invariant(&*self);
        }
        let download = match outcome {
            Ok(bytes) => Download::Done(bytes),
            Err(reason) => Download::Error(reason),
        };
        let mut data = FileTable::new();
        std::mem::swap(&mut data, &mut self.data);
        data.set(&request.source, &request.file, request.start, download);
        std::mem::swap(&mut data, &mut self.data);
        let mut dispatcher = Dispatcher::new(0);
        std::mem::swap(&mut dispatcher, &mut self.dispatcher);
        let next = dispatcher.finish();
        std::mem::swap(&mut dispatcher, &mut self.dispatcher);
        next
    }

    /// A reader for `length` bytes at `start` of the file, or `NotScheduled`
    /// when no chunk of the file starts at or before `start`. Never waits:
    /// the reader gets its result later, from `resolve`.
    pub fn get(&self, downloader_id: String, file_id: String, start: u64, length: usize) -> (r: Result<CachedRead, CacheError>)
        ensures
            r is Ok <==> floor_of(chunks_in(self.chunks(), (downloader_id@, file_id@)), start) is Some,
            r matches Ok(reader) ==> reader@ is None,
            r matches Err(e) ==> e == (CacheError::NotScheduled { file_id, start, length }),
    {
        proof {
            use_type_invariant(&*self);
        }
        match self.data.floor(&downloader_id, &file_id, start) {
            Some(_) => Ok(CachedRead::new()),
            None => Err(CacheError::NotScheduled { file_id, start, length }),
        }
    }

    /// What a reader of `length` bytes at `start` of the file gets now:
    /// `None` while the covering chunk downloads, else its bytes or its
    /// failure.
    pub fn resolve(&self, downloader_id: &String, file_id: &String, start: u64, length: usize) -> (r: Option<Result<CachedReadData, CacheError>>)
        ensures
            resolved_as(
                r,
                file_id@,
                start,
                length,
                resolve_spec(chunks_in(self.chunks(), (downloader_id@, file_id@)), start, length),
            ),
    {
        proof {
            use_type_invariant(&*self);
        }
        match self.data.floor(downloader_id, file_id, start) {
            None => Some(Err(CacheError::NotScheduled { file_id: file_id.clone(), start, length })),
            Some(chunk) => match &chunk.download {
                Download::Pending => None,
                Download::Error(reason) => Some(
                    Err(
                        CacheError::DownloadFailed {
                            file_id: file_id.clone(),
                            start,
                            length,
                            reason: reason.clone(),
                        },
                    ),
                ),
                Download::Done(bytes) => {
                    let skip: u64 = start - chunk.start;
                    let held: usize = bytes.len();
                    if skip > held as u64 || held - (skip as usize) < length {
                        Some(Err(CacheError::Overflow { file_id: file_id.clone(), start, length }))
                    } else {
                        let from: usize = skip as usize;
                        let part = slice_to_vec(slice_subrange(bytes.as_slice(), from, from + length));
                        let data = CachedReadData::new(part, 0, length as u64);
                        assert(data@ =~= bytes@.subrange(from as int, from + length));
                        Some(Ok(data))
                    }
                },
            },
        }
    }
}

} // verus!
