use vstd::prelude::*;

verus! {

/// Where the download of one chunk stands.
pub enum Download {
    /// Scheduled, not finished yet.
    Pending,
    /// Finished with the bytes the downloader returned.
    Done(Vec<u8>),
    /// Finished with a failure and its reason.
    Error(String),
}

/// The mathematical value of a `Download`.
pub enum DownloadState {
    Pending,
    Done(Seq<u8>),
    Error(Seq<char>),
}

impl View for Download {
    type V = DownloadState;

    open spec fn view(&self) -> DownloadState {
        match self {
            Download::Pending => DownloadState::Pending,
            Download::Done(bytes) => DownloadState::Done(bytes@),
            Download::Error(reason) => DownloadState::Error(reason@),
        }
    }
}

/// One scheduled chunk of a file: its start offset and its download.
pub struct Chunk {
    pub start: u64,
    pub download: Download,
}

/// `k` is the largest key of `m` that is at most `offset`.
pub open spec fn is_floor<V>(m: Map<u64, V>, offset: u64, k: u64) -> bool {
    &&& m.contains_key(k)
    &&& k <= offset
    &&& forall|j: u64| #[trigger] m.contains_key(j) && j <= offset ==> j <= k
}

/// Some key of `m` is at most `offset`.
pub open spec fn has_floor<V>(m: Map<u64, V>, offset: u64) -> bool {
    exists|k: u64| #[trigger] m.contains_key(k) && k <= offset
}

/// The largest key of `m` that is at most `offset`, if there is one.
pub open spec fn floor_of<V>(m: Map<u64, V>, offset: u64) -> Option<u64> {
    if has_floor(m, offset) {
        Some(choose|k: u64| is_floor(m, offset, k))
    } else {
        None
    }
}

/// A key that satisfies `is_floor` is the one `floor_of` picks.
pub proof fn lemma_floor_unique<V>(m: Map<u64, V>, offset: u64, k: u64)
    requires
        is_floor(m, offset, k),
    ensures
        floor_of(m, offset) == Some(k),
{
    assert(has_floor(m, offset));
    let c = choose|c: u64| is_floor(m, offset, c);
    assert(is_floor(m, offset, c));
    assert(c <= k && k <= c);
}

/// No key at most `offset` means no floor.
pub proof fn lemma_no_floor<V>(m: Map<u64, V>, offset: u64)
    requires
        forall|j: u64| m.contains_key(j) ==> j > offset,
    ensures
        floor_of(m, offset) is None,
{
}

/// The chunks of one file, ordered by start offset, one chunk per offset.
pub struct ChunkMap {
    entries: Vec<Chunk>,
}

/// The offsets of `s` strictly increase.
pub open spec fn strictly_sorted(s: Seq<Chunk>) -> bool {
    forall|i: int, j: int| 0 <= i < j < s.len() ==> s[i].start < s[j].start
}

/// The position in `s` of the chunk that starts at `k`.
pub open spec fn position_of(s: Seq<Chunk>, k: u64) -> int {
    choose|i: int| 0 <= i < s.len() && s[i].start == k
}

/// The map from start offset to download state that `s` holds.
pub open spec fn chunks_view(s: Seq<Chunk>) -> Map<u64, DownloadState> {
    Map::new(
        |k: u64| exists|i: int| 0 <= i < s.len() && s[i].start == k,
        |k: u64| s[position_of(s, k)].download@,
    )
}

proof fn lemma_position(s: Seq<Chunk>, i: int)
    requires
        strictly_sorted(s),
        0 <= i < s.len(),
    ensures
        position_of(s, s[i].start) == i,
        chunks_view(s).contains_key(s[i].start),
        chunks_view(s)[s[i].start] == s[i].download@,
{
    let k = s[i].start;
    assert(exists|j: int| 0 <= j < s.len() && s[j].start == k);
    let p = position_of(s, k);
    if p < i {
        assert(s[p].start < s[i].start);
    } else if p > i {
        assert(s[i].start < s[p].start);
    }
}

impl View for ChunkMap {
    type V = Map<u64, DownloadState>;

    closed spec fn view(&self) -> Map<u64, DownloadState> {
        chunks_view(self.entries@)
    }
}

impl ChunkMap {
    /// Offsets are unique and kept in increasing order.
    pub closed spec fn wf(&self) -> bool {
        strictly_sorted(self.entries@)
    }

    /// An empty chunk map.
    pub fn new() -> (r: Self)
        ensures
            r.wf(),
            r@ == Map::<u64, DownloadState>::empty(),
    {
        let r = ChunkMap { entries: Vec::new() };
        assert(r@ =~= Map::<u64, DownloadState>::empty());
        r
    }

    /// The number of entries whose start is at most `offset`.
    fn partition_point(&self, offset: u64) -> (p: usize)
        requires
            self.wf(),
        ensures
            p <= self.entries@.len(),
            forall|i: int| 0 <= i < p ==> self.entries@[i].start <= offset,
            forall|i: int| p <= i < self.entries@.len() ==> self.entries@[i].start > offset,
    {
        let mut lo: usize = 0;
        let mut hi: usize = self.entries.len();
        while lo < hi
            invariant
                0 <= lo <= hi <= self.entries@.len(),
                strictly_sorted(self.entries@),
                forall|i: int| 0 <= i < lo ==> self.entries@[i].start <= offset,
                forall|i: int| hi <= i < self.entries@.len() ==> self.entries@[i].start > offset,
            decreases hi - lo,
        {
            let mid: usize = lo + (hi - lo) / 2;
            if self.entries[mid].start <= offset {
                lo = mid + 1;
            } else {
                hi = mid;
            }
        }
        lo
    }

    /// The chunk with the largest start at most `offset`, if any.
    pub fn floor(&self, offset: u64) -> (r: Option<&Chunk>)
        requires
            self.wf(),
        ensures
            r is None <==> floor_of(self@, offset) is None,
            r matches Some(c) ==> {
                &&& is_floor(self@, offset, c.start)
                &&& floor_of(self@, offset) == Some(c.start)
                &&& self@[c.start] == c.download@
            },
    {
        let p = self.partition_point(offset);
        proof {
            let s = self.entries@;
            assert forall|j: u64| #[trigger] self@.contains_key(j) && j <= offset implies exists|
                i: int,
            |
                0 <= i < p && s[i].start == j by {
                let i = choose|i: int| 0 <= i < s.len() && s[i].start == j;
                assert(0 <= i < s.len() && s[i].start == j);
            }
        }
        if p == 0 {
            proof {
                assert forall|j: u64| self@.contains_key(j) implies j > offset by {
                    if j <= offset {
                        assert(self@.contains_key(j) && j <= offset);
                    }
                }
                lemma_no_floor(self@, offset);
            }
            None
        } else {
            let c = &self.entries[p - 1];
            proof {
                let s = self.entries@;
                lemma_position(s, p - 1);
                assert forall|j: u64| #[trigger] self@.contains_key(j) && j <= offset implies j
                    <= c.start by {
                    let i = choose|i: int| 0 <= i < p && s[i].start == j;
                    if i < p - 1 {
                        assert(s[i].start < s[p - 1].start);
                    }
                }
                lemma_floor_unique(self@, offset, c.start);
            }
            Some(c)
        }
    }

    /// Sets the download state at `start`, replacing any earlier state there.
    pub fn insert(&mut self, start: u64, download: Download)
        requires
            old(self).wf(),
        ensures
            final(self).wf(),
            final(self)@ == old(self)@.insert(start, download@),
    {
        let ghost dv = download@;
        let p = self.partition_point(start);
        let ghost s0 = self.entries@;
        if p > 0 && self.entries[p - 1].start == start {
            self.entries.set(p - 1, Chunk { start, download });
            proof {
                let s1 = self.entries@;
                assert(strictly_sorted(s1)) by {
                    assert forall|i: int, j: int| 0 <= i < j < s1.len() implies s1[i].start
                        < s1[j].start by {
                        assert(s0[i].start < s0[j].start);
                    }
                }
                assert forall|k: u64| #[trigger] self@.contains_key(k) <==> old(self)@.insert(
                    start,
                    dv,
                ).contains_key(k) by {
                    if self@.contains_key(k) {
                        let i = choose|i: int| 0 <= i < s1.len() && s1[i].start == k;
                        if i != p - 1 {
                            assert(0 <= i < s0.len() && s0[i].start == k);
                        }
                    }
                    if old(self)@.contains_key(k) {
                        let i = choose|i: int| 0 <= i < s0.len() && s0[i].start == k;
                        assert(0 <= i < s1.len() && s1[i].start == k);
                    }
                    if k == start {
                        assert(s1[p - 1].start == k);
                    }
                }
                assert forall|k: u64| #[trigger] self@.contains_key(k) implies self@[k]
                    == old(self)@.insert(start, dv)[k] by {
                    let i = choose|i: int| 0 <= i < s1.len() && s1[i].start == k;
                    lemma_position(s1, i);
                    if i != p - 1 {
                        lemma_position(s0, i);
                    }
                }
                assert(self@ =~= old(self)@.insert(start, dv));
            }
        } else {
            self.entries.insert(p, Chunk { start, download });
            proof {
                let s1 = self.entries@;
                assert(forall|i: int| 0 <= i < p ==> s1[i] == s0[i]);
                assert(forall|i: int| p < i < s1.len() ==> s1[i] == s0[i - 1]);
                assert(p > 0 ==> s0[p - 1].start < start);
                assert(strictly_sorted(s1)) by {
                    assert forall|i: int, j: int| 0 <= i < j < s1.len() implies s1[i].start
                        < s1[j].start by {
                        if j < p {
                            assert(s0[i].start < s0[j].start);
                        } else if j == p {
                            assert(s0[i].start <= s0[p - 1].start);
                        } else if i < p {
                            assert(s0[i].start <= start);
                        } else if i > p {
                            assert(s0[i - 1].start < s0[j - 1].start);
                        }
                    }
                }
                assert forall|k: u64| #[trigger] self@.contains_key(k) <==> old(self)@.insert(
                    start,
                    dv,
                ).contains_key(k) by {
                    if self@.contains_key(k) {
                        let i = choose|i: int| 0 <= i < s1.len() && s1[i].start == k;
                        if i < p {
                            assert(0 <= i < s0.len() && s0[i].start == k);
                        } else if i > p {
                            assert(0 <= i - 1 < s0.len() && s0[i - 1].start == k);
                        }
                    }
                    if old(self)@.contains_key(k) {
                        let i = choose|i: int| 0 <= i < s0.len() && s0[i].start == k;
                        if i < p {
                            assert(0 <= i < s1.len() && s1[i].start == k);
                        } else {
                            assert(0 <= i + 1 < s1.len() && s1[i + 1].start == k);
                        }
                    }
                    if k == start {
                        assert(s1[p as int].start == k);
                    }
                }
                assert forall|k: u64| #[trigger] self@.contains_key(k) implies self@[k]
                    == old(self)@.insert(start, dv)[k] by {
                    let i = choose|i: int| 0 <= i < s1.len() && s1[i].start == k;
                    lemma_position(s1, i);
                    if i < p {
                        lemma_position(s0, i);
                    } else if i > p {
                        lemma_position(s0, i - 1);
                    }
                }
                assert(self@ =~= old(self)@.insert(start, dv));
            }
        }
    }
}

} // verus!
