use vstd::prelude::*;

use crate::chunk_map::{floor_of, is_floor, Chunk, ChunkMap, Download, DownloadState};

verus! {

/// The identity of a cached file: which source serves it, and its id there.
pub type FileKey = (Seq<char>, Seq<char>);

/// The chunks of every cached file, by source and file id.
pub type TableView = Map<FileKey, Map<u64, DownloadState>>;

/// The chunk map of `key` in `t`; empty for a file never scheduled.
pub open spec fn chunks_in(t: TableView, key: FileKey) -> Map<u64, DownloadState> {
    if t.contains_key(key) {
        t[key]
    } else {
        Map::empty()
    }
}

/// `t` with the state at `start` of file `key` set to `d`.
pub open spec fn table_set(t: TableView, key: FileKey, start: u64, d: DownloadState) -> TableView {
    t.insert(key, chunks_in(t, key).insert(start, d))
}

struct FileEntry {
    source: String,
    file: String,
    chunks: ChunkMap,
}

spec fn key_of(e: FileEntry) -> FileKey {
    (e.source@, e.file@)
}

spec fn entry_position(s: Seq<FileEntry>, key: FileKey) -> int {
    choose|i: int| 0 <= i < s.len() && key_of(s[i]) == key
}

spec fn table_view(s: Seq<FileEntry>) -> TableView {
    Map::new(
        |key: FileKey| exists|i: int| 0 <= i < s.len() && key_of(s[i]) == key,
        |key: FileKey| s[entry_position(s, key)].chunks@,
    )
}

spec fn keys_unique(s: Seq<FileEntry>) -> bool {
    forall|i: int, j: int| 0 <= i < s.len() && 0 <= j < s.len() && i != j ==> key_of(s[i]) != key_of(s[j])
}

proof fn lemma_entry_position(s: Seq<FileEntry>, i: int)
    requires
        keys_unique(s),
        0 <= i < s.len(),
    ensures
        entry_position(s, key_of(s[i])) == i,
        table_view(s).contains_key(key_of(s[i])),
        table_view(s)[key_of(s[i])] == s[i].chunks@,
{
    let k = key_of(s[i]);
    assert(0 <= i < s.len() && key_of(s[i]) == k);
    assert(exists|j: int| 0 <= j < s.len() && key_of(s[j]) == k);
    let p = entry_position(s, k);
    assert(0 <= p < s.len() && key_of(s[p]) == k);
}

/// The chunk maps of all cached files, one per (source, file) pair.
pub struct FileTable {
    files: Vec<FileEntry>,
}

impl View for FileTable {
    type V = TableView;

    closed spec fn view(&self) -> TableView {
        table_view(self.files@)
    }
}

impl FileTable {
    /// Each file appears once and each chunk map is well formed.
    pub closed spec fn wf(&self) -> bool {
        &&& keys_unique(self.files@)
        &&& forall|i: int| 0 <= i < self.files@.len() ==> (#[trigger] self.files@[i]).chunks.wf()
    }

    /// A table with no file.
    pub fn new() -> (r: Self)
        ensures
            r.wf(),
            r@ == TableView::empty(),
    {
        let r = FileTable { files: Vec::new() };
        assert(r@ =~= TableView::empty());
        r
    }

    /// The position of the entry of (`source`, `file`), if there is one.
    fn find(&self, source: &String, file: &String) -> (r: Option<usize>)
        requires
            self.wf(),
        ensures
            r is None <==> !self@.contains_key((source@, file@)),
            r matches Some(i) ==> i < self.files@.len() && key_of(self.files@[i as int]) == (
                source@,
                file@,
            ),
    {
        let mut i: usize = 0;
        while i < self.files.len()
            invariant
                i <= self.files@.len(),
                forall|j: int| 0 <= j < i ==> key_of(#[trigger] self.files@[j]) != (source@, file@),
            decreases self.files@.len() - i,
        {
            if self.files[i].source == *source && self.files[i].file == *file {
                return Some(i);
            }
            i = i + 1;
        }
        proof {
            if self@.contains_key((source@, file@)) {
                let j = choose|j: int|
                    0 <= j < self.files@.len() && key_of(self.files@[j]) == (source@, file@);
                assert(key_of(self.files@[j]) != (source@, file@));
            }
        }
        None
    }

    /// Sets the state at `start` of the file (`source`, `file`).
    pub fn set(&mut self, source: &String, file: &String, start: u64, download: Download)
        requires
            old(self).wf(),
        ensures
            final(self).wf(),
            final(self)@ == table_set(old(self)@, (source@, file@), start, download@),
    {
        let ghost key = (source@, file@);
        let ghost dv = download@;
        let ghost s0 = self.files@;
        match self.find(source, file) {
            Some(i) => {
                let mut entry = self.files.remove(i);
                proof {
                    lemma_entry_position(s0, i as int);
                }
                entry.chunks.insert(start, download);
                self.files.insert(i, entry);
                proof {
                    let s1 = self.files@;
                    assert(s1 =~= s0.update(i as int, s1[i as int]));
                    assert(keys_unique(s1)) by {
                        assert forall|a: int, b: int|
                            0 <= a < s1.len() && 0 <= b < s1.len() && a != b implies key_of(s1[a])
                            != key_of(s1[b]) by {
                            assert(key_of(s0[a]) != key_of(s0[b]));
                        }
                    }
                    assert forall|j: int| 0 <= j < s1.len() implies (#[trigger] s1[j]).chunks.wf() by {
                        if j != i {
                            assert(s0[j].chunks.wf());
                        }
                    }
                    let target = table_set(old(self)@, key, start, dv);
                    assert forall|k: FileKey| #[trigger] self@.contains_key(k)
                        <==> target.contains_key(k) by {
                        if old(self)@.contains_key(k) {
                            let j = choose|j: int| 0 <= j < s0.len() && key_of(s0[j]) == k;
                            assert(0 <= j < s1.len() && key_of(s1[j]) == k);
                        }
                        if self@.contains_key(k) {
                            let j = choose|j: int| 0 <= j < s1.len() && key_of(s1[j]) == k;
                            assert(0 <= j < s0.len() && key_of(s0[j]) == k);
                        }
                    }
                    assert forall|k: FileKey| #[trigger] self@.contains_key(k) implies self@[k]
                        == target[k] by {
                        let j = choose|j: int| 0 <= j < s1.len() && key_of(s1[j]) == k;
                        lemma_entry_position(s1, j);
                        lemma_entry_position(s0, j);
                    }
                    assert(self@ =~= target);
                }
            },
            None => {
                let mut chunks = ChunkMap::new();
                chunks.insert(start, download);
                let entry = FileEntry { source: source.clone(), file: file.clone(), chunks };
                self.files.push(entry);
                proof {
                    let s1 = self.files@;
                    let n = s0.len() as int;
                    assert(s1 =~= s0.push(s1[n]));
                    assert(keys_unique(s1)) by {
                        assert forall|a: int, b: int|
                            0 <= a < s1.len() && 0 <= b < s1.len() && a != b implies key_of(s1[a])
                            != key_of(s1[b]) by {
                            if a < n && b < n {
                                assert(key_of(s0[a]) != key_of(s0[b]));
                            } else if a < n {
                                assert(old(self)@.contains_key(key_of(s0[a])));
                            } else {
                                assert(old(self)@.contains_key(key_of(s0[b])));
                            }
                        }
                    }
                    assert forall|j: int| 0 <= j < s1.len() implies (#[trigger] s1[j]).chunks.wf() by {
                        if j < n {
                            assert(s0[j].chunks.wf());
                        }
                    }
                    let target = table_set(old(self)@, key, start, dv);
                    assert forall|k: FileKey| #[trigger] self@.contains_key(k)
                        <==> target.contains_key(k) by {
                        if old(self)@.contains_key(k) {
                            let j = choose|j: int| 0 <= j < s0.len() && key_of(s0[j]) == k;
                            assert(0 <= j < s1.len() && key_of(s1[j]) == k);
                        }
                        if k == key {
                            assert(key_of(s1[n]) == k);
                        }
                        if self@.contains_key(k) && k != key {
                            let j = choose|j: int| 0 <= j < s1.len() && key_of(s1[j]) == k;
                            assert(0 <= j < s0.len() && key_of(s0[j]) == k);
                        }
                    }
                    assert forall|k: FileKey| #[trigger] self@.contains_key(k) implies self@[k]
                        == target[k] by {
                        let j = choose|j: int| 0 <= j < s1.len() && key_of(s1[j]) == k;
                        lemma_entry_position(s1, j);
                        if j < n {
                            lemma_entry_position(s0, j);
                        } else {
                            assert(chunks_in(old(self)@, key) =~= Map::empty());
                        }
                    }
                    assert(self@ =~= target);
                }
            },
        }
    }

    /// The chunk of (`source`, `file`) with the largest start at most `offset`.
    pub fn floor(&self, source: &String, file: &String, offset: u64) -> (r: Option<&Chunk>)
        requires
            self.wf(),
        ensures
            r is None <==> floor_of(chunks_in(self@, (source@, file@)), offset) is None,
            r matches Some(c) ==> {
                &&& is_floor(chunks_in(self@, (source@, file@)), offset, c.start)
                &&& floor_of(chunks_in(self@, (source@, file@)), offset) == Some(c.start)
                &&& chunks_in(self@, (source@, file@))[c.start] == c.download@
            },
    {
        match self.find(source, file) {
            Some(i) => {
                proof {
                    lemma_entry_position(self.files@, i as int);
                }
                self.files[i].chunks.floor(offset)
            },
            None => {
                assert(chunks_in(self@, (source@, file@)) =~= Map::empty());
                None
            },
        }
    }
}

} // verus!
