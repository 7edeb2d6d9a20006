use vstd::prelude::*;

verus! {

/// `m` after registering `d` under `id`: the first registration wins.
pub open spec fn registered<D>(m: Map<Seq<char>, D>, id: Seq<char>, d: D) -> Map<Seq<char>, D> {
    if m.contains_key(id) {
        m
    } else {
        m.insert(id, d)
    }
}

/// Registering twice under one id keeps what the first registration stored.
pub proof fn lemma_first_registration_wins<D>(m: Map<Seq<char>, D>, id: Seq<char>, a: D, b: D)
    ensures
        registered(registered(m, id, a), id, b) == registered(m, id, a),
        !m.contains_key(id) ==> registered(registered(m, id, a), id, b)[id] == a,
{
}

struct Entry<D> {
    id: String,
    downloader: D,
}

spec fn entry_index<D>(s: Seq<Entry<D>>, id: Seq<char>) -> int {
    choose|i: int| 0 <= i < s.len() && s[i].id@ == id
}

spec fn entries_view<D>(s: Seq<Entry<D>>) -> Map<Seq<char>, D> {
    Map::new(
        |id: Seq<char>| exists|i: int| 0 <= i < s.len() && s[i].id@ == id,
        |id: Seq<char>| s[entry_index(s, id)].downloader,
    )
}

spec fn ids_unique<D>(s: Seq<Entry<D>>) -> bool {
    forall|i: int, j: int| 0 <= i < s.len() && 0 <= j < s.len() && i != j ==> s[i].id@ != s[j].id@
}

proof fn lemma_entry_index<D>(s: Seq<Entry<D>>, i: int)
    requires
        ids_unique(s),
        0 <= i < s.len(),
    ensures
        entries_view(s).contains_key(s[i].id@),
        entries_view(s)[s[i].id@] == s[i].downloader,
{
    let id = s[i].id@;
    assert(0 <= i < s.len() && s[i].id@ == id);
    let p = entry_index(s, id);
    assert(0 <= p < s.len() && s[p].id@ == id);
}

/// The downloaders, by the id of the source they serve.
pub struct Registry<D> {
    entries: Vec<Entry<D>>,
}

impl<D> View for Registry<D> {
    type V = Map<Seq<char>, D>;

    closed spec fn view(&self) -> Map<Seq<char>, D> {
        entries_view(self.entries@)
    }
}

impl<D> Registry<D> {
    /// Each id appears once.
    pub closed spec fn wf(&self) -> bool {
        ids_unique(self.entries@)
    }

    /// A registry with no downloader.
    pub fn new() -> (r: Self)
        ensures
            r.wf(),
            r@ == Map::<Seq<char>, D>::empty(),
    {
        let r = Registry { entries: Vec::new() };
        assert(r@ =~= Map::<Seq<char>, D>::empty());
        r
    }

    fn find(&self, id: &String) -> (r: Option<usize>)
        requires
            self.wf(),
        ensures
            r is None <==> !self@.contains_key(id@),
            r matches Some(i) ==> i < self.entries@.len() && self.entries@[i as int].id@ == id@,
    {
        let mut i: usize = 0;
        while i < self.entries.len()
            invariant
                i <= self.entries@.len(),
                forall|j: int| 0 <= j < i ==> (#[trigger] self.entries@[j]).id@ != id@,
            decreases self.entries@.len() - i,
        {
            if self.entries[i].id == *id {
                return Some(i);
            }
            i = i + 1;
        }
        proof {
            if self@.contains_key(id@) {
                let j = choose|j: int| 0 <= j < self.entries@.len() && self.entries@[j].id@ == id@;
                assert(self.entries@[j].id@ != id@);
            }
        }
        None
    }

    /// Stores the downloader that `creator` builds under `id`, unless one is
    /// there already; `creator` is called only in that case.
    pub fn register<F: Fn() -> D>(&mut self, id: &str, creator: F)
        requires
            old(self).wf(),
            creator.requires(()),
        ensures
            final(self).wf(),
            old(self)@.contains_key(id@) ==> final(self)@ == old(self)@,
            !old(self)@.contains_key(id@) ==> exists|d: D|
                creator.ensures((), d) && final(self)@ == registered(old(self)@, id@, d),
    {
        let owned = id.to_owned();
        match self.find(&owned) {
            Some(_) => {},
            None => {
                let downloader = creator();
                let ghost s0 = self.entries@;
                let ghost d = downloader;
                self.entries.push(Entry { id: owned, downloader });
                proof {
                    let s1 = self.entries@;
                    let n = s0.len() as int;
                    assert(ids_unique(s1)) by {
                        assert forall|a: int, b: int|
                            0 <= a < s1.len() && 0 <= b < s1.len() && a != b implies s1[a].id@
                            != s1[b].id@ by {
                            if a < n && b < n {
                                assert(s0[a].id@ != s0[b].id@);
                            } else if a < n {
                                lemma_entry_index(s0, a);
                            } else {
                                lemma_entry_index(s0, b);
                            }
                        }
                    }
                    let target = old(self)@.insert(id@, d);
                    assert forall|k: Seq<char>| #[trigger] self@.contains_key(k)
                        <==> target.contains_key(k) by {
                        if old(self)@.contains_key(k) {
                            let j = choose|j: int| 0 <= j < s0.len() && s0[j].id@ == k;
                            assert(0 <= j < s1.len() && s1[j].id@ == k);
                        }
                        if k == id@ {
                            assert(s1[n].id@ == k);
                        }
                        if self@.contains_key(k) && k != id@ {
                            let j = choose|j: int| 0 <= j < s1.len() && s1[j].id@ == k;
                            assert(0 <= j < s0.len() && s0[j].id@ == k);
                        }
                    }
                    assert forall|k: Seq<char>| #[trigger] self@.contains_key(k) implies self@[k]
                        == target[k] by {
                        let j = choose|j: int| 0 <= j < s1.len() && s1[j].id@ == k;
                        lemma_entry_index(s1, j);
                        if j < n {
                            lemma_entry_index(s0, j);
                        }
                    }
                    assert(self@ =~= target);
                    assert(creator.ensures((), d) && self@ == registered(old(self)@, id@, d));
                }
            },
        }
    }

    /// The downloader registered under `id`, if any.
    pub fn get(&self, id: &String) -> (r: Option<&D>)
        requires
            self.wf(),
        ensures
            r is None <==> !self@.contains_key(id@),
            r matches Some(d) ==> *d == self@[id@],
    {
        match self.find(id) {
            Some(i) => {
                proof {
                    lemma_entry_index(self.entries@, i as int);
                }
                Some(&self.entries[i].downloader)
            },
            None => None,
        }
    }
}

} // verus!
