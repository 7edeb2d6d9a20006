use vstd::prelude::*;

use std::collections::VecDeque;

verus! {

/// One range of one file to fetch with the downloader of `source`.
pub struct DownloadRequest {
    pub source: String,
    pub file: String,
    pub start: u64,
    pub length: usize,
}

/// The mathematical value of a `DownloadRequest`.
pub struct RequestView {
    pub source: Seq<char>,
    pub file: Seq<char>,
    pub start: u64,
    pub length: usize,
}

impl View for DownloadRequest {
    type V = RequestView;

    open spec fn view(&self) -> RequestView {
        RequestView { source: self.source@, file: self.file@, start: self.start, length: self.length }
    }
}

/// The value of a request that may be absent.
pub open spec fn opt_view(r: Option<DownloadRequest>) -> Option<RequestView> {
    match r {
        Some(q) => Some(q@),
        None => None,
    }
}

/// The mathematical value of a dispatcher.
pub struct DispatchState {
    /// How many downloads may run at once.
    pub capacity: nat,
    /// How many run now.
    pub running: nat,
    /// The requests waiting for a free slot, oldest first.
    pub waiting: Seq<RequestView>,
}

/// No more downloads run than the capacity allows, and none waits while a
/// slot is free.
pub open spec fn dispatch_wf(s: DispatchState) -> bool {
    &&& s.running <= s.capacity
    &&& s.waiting.len() > 0 ==> s.running == s.capacity
}

/// The state after `r` arrives, and the request to start now, if any.
pub open spec fn after_submit(s: DispatchState, r: RequestView) -> (DispatchState, Option<RequestView>) {
    if s.running < s.capacity {
        (DispatchState { running: s.running + 1, ..s }, Some(r))
    } else {
        (DispatchState { waiting: s.waiting.push(r), ..s }, None)
    }
}

/// The state after a running download finishes, and the request to start
/// in its slot, if any.
pub open spec fn after_finish(s: DispatchState) -> (DispatchState, Option<RequestView>) {
    if s.waiting.len() > 0 {
        (DispatchState { waiting: s.waiting.drop_first(), ..s }, Some(s.waiting[0]))
    } else {
        (DispatchState { running: (s.running - 1) as nat, ..s }, None)
    }
}

/// The state after the requests of `rs` arrive in order.
pub open spec fn after_submit_all(s: DispatchState, rs: Seq<RequestView>) -> DispatchState
    decreases rs.len(),
{
    if rs.len() == 0 {
        s
    } else {
        after_submit_all(after_submit(s, rs[0]).0, rs.drop_first())
    }
}

/// Every step keeps a well-formed dispatcher well formed: at no time do
/// more downloads run than the capacity.
pub proof fn lemma_steps_keep_bound(s: DispatchState, r: RequestView)
    requires
        dispatch_wf(s),
    ensures
        dispatch_wf(after_submit(s, r).0),
        after_submit(s, r).0.running <= s.capacity,
        s.running > 0 ==> dispatch_wf(after_finish(s).0),
        s.running > 0 ==> after_finish(s).0.running <= s.capacity,
{
}

/// The state of an idle dispatcher `s` after the first `k` requests of
/// `rs` arrived: the first `capacity` run, the later ones wait in order.
pub open spec fn batch_state(s: DispatchState, rs: Seq<RequestView>, k: nat) -> DispatchState {
    if k <= s.capacity {
        DispatchState { running: k, ..s }
    } else {
        DispatchState { running: s.capacity, waiting: rs.subrange(s.capacity as int, k as int), ..s }
    }
}

/// Requests that reach an idle dispatcher: the first `capacity` start at
/// once, the others wait in the order they came.
pub proof fn lemma_idle_batch(s: DispatchState, rs: Seq<RequestView>)
    requires
        s.running == 0,
        s.waiting.len() == 0,
    ensures
        after_submit_all(s, rs) == batch_state(s, rs, rs.len()),
{
    assert(batch_state(s, rs, 0) == s) by {
        assert(s.waiting =~= Seq::<RequestView>::empty());
    }
    assert(rs.skip(0) =~= rs);
    lemma_batch_from(s, rs, 0);
}

proof fn lemma_batch_from(s: DispatchState, rs: Seq<RequestView>, k: nat)
    requires
        s.running == 0,
        s.waiting.len() == 0,
        k <= rs.len(),
    ensures
        after_submit_all(batch_state(s, rs, k), rs.skip(k as int)) == batch_state(s, rs, rs.len()),
    decreases rs.len() - k,
{
    let t = batch_state(s, rs, k);
    if k == rs.len() {
        assert(rs.skip(k as int).len() == 0);
    } else {
        let rest = rs.skip(k as int);
        assert(rest[0] == rs[k as int]);
        assert(rest.drop_first() =~= rs.skip(k as int + 1));
        let t1 = after_submit(t, rs[k as int]).0;
        if k < s.capacity {
            assert(t1 == batch_state(s, rs, k + 1));
        } else if k == s.capacity {
            assert(rs.subrange(s.capacity as int, k as int + 1) =~= seq![rs[k as int]]);
            assert(s.waiting.push(rs[k as int]) =~= seq![rs[k as int]]);
            assert(t1 == batch_state(s, rs, k + 1));
        } else {
            assert(rs.subrange(s.capacity as int, k as int).push(rs[k as int]) =~= rs.subrange(
                s.capacity as int,
                k as int + 1,
            ));
            assert(t1 == batch_state(s, rs, k + 1));
        }
        lemma_batch_from(s, rs, k + 1);
    }
}

/// Admission control for downloads: at most `capacity` run at once, the
/// others wait in arrival order for a slot.
pub struct Dispatcher {
    capacity: usize,
    running: usize,
    waiting: VecDeque<DownloadRequest>,
}

impl View for Dispatcher {
    type V = DispatchState;

    closed spec fn view(&self) -> DispatchState {
        DispatchState {
            capacity: self.capacity as nat,
            running: self.running as nat,
            waiting: self.waiting@.map_values(|q: DownloadRequest| q@),
        }
    }
}

impl Dispatcher {
    pub open spec fn wf(&self) -> bool {
        dispatch_wf(self@)
    }

    /// An idle dispatcher that runs at most `capacity` downloads at once.
    pub fn new(capacity: usize) -> (r: Self)
        ensures
            r.wf(),
            r@.capacity == capacity,
            r@.running == 0,
            r@.waiting.len() == 0,
    {
        let r = Dispatcher { capacity, running: 0, waiting: VecDeque::new() };
        assert(r@.waiting =~= Seq::<RequestView>::empty());
        r
    }

    /// How many downloads run now.
    pub fn running(&self) -> (r: usize)
        ensures
            r == self@.running,
    {
        self.running
    }

    /// Takes a new request: it starts now (returned) if a slot is free, else
    /// it waits.
    pub fn submit(&mut self, request: DownloadRequest) -> (r: Option<DownloadRequest>)
        requires
            old(self).wf(),
        ensures
            final(self).wf(),
            (final(self)@, opt_view(r)) == after_submit(old(self)@, request@),
    {
        if self.running < self.capacity {
            self.running = self.running + 1;
            Some(request)
        } else {
            let ghost w0 = self.waiting@;
            self.waiting.push_back(request);
            assert(self.waiting@.map_values(|q: DownloadRequest| q@) =~= w0.map_values(
                |q: DownloadRequest| q@,
            ).push(request@));
            None
        }
    }

    /// Records that a running download finished; the oldest waiting request,
    /// if any, takes its slot and is returned to be started.
    pub fn finish(&mut self) -> (r: Option<DownloadRequest>)
        requires
            old(self).wf(),
            old(self)@.running > 0,
        ensures
            final(self).wf(),
            (final(self)@, opt_view(r)) == after_finish(old(self)@),
    {
        let ghost w0 = self.waiting@;
        match self.waiting.pop_front() {
            Some(next) => {
                assert(self.waiting@.map_values(|q: DownloadRequest| q@) =~= w0.map_values(
                    |q: DownloadRequest| q@,
                ).drop_first());
                Some(next)
            },
            None => {
                self.running = self.running - 1;
                None
            },
        }
    }
}

} // verus!
