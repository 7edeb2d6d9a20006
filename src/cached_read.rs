use vstd::prelude::*;

use crate::error::CacheError;

verus! {

/// How many bytes a read with a buffer of `capacity` bytes takes from `unread`.
pub open spec fn read_count(unread: Seq<u8>, capacity: nat) -> nat {
    if capacity < unread.len() {
        capacity
    } else {
        unread.len()
    }
}

/// The sum of `capacities`.
pub open spec fn total(capacities: Seq<nat>) -> nat
    decreases capacities.len(),
{
    if capacities.len() == 0 {
        0
    } else {
        capacities[0] + total(capacities.drop_first())
    }
}

/// The bytes that successive reads with buffers of `capacities` bytes take
/// from `unread`, one read after the other.
pub open spec fn reads_output(unread: Seq<u8>, capacities: Seq<nat>) -> Seq<u8>
    decreases capacities.len(),
{
    if capacities.len() == 0 {
        Seq::empty()
    } else {
        let n = read_count(unread, capacities[0]);
        unread.take(n as int) + reads_output(unread.skip(n as int), capacities.drop_first())
    }
}

/// Successive reads hand out the bytes in order, none skipped and none
/// twice: together they give the first `min(total, len)` bytes. Once all
/// bytes are out, a read takes none.
pub proof fn lemma_reads_in_order(unread: Seq<u8>, capacities: Seq<nat>)
    ensures
        reads_output(unread, capacities) == unread.take(
            (if total(capacities) < unread.len() {
                total(capacities)
            } else {
                unread.len()
            }) as int,
        ),
        forall|c: nat| read_count(Seq::<u8>::empty(), c) == 0,
    decreases capacities.len(),
{
    if capacities.len() > 0 {
        let n = read_count(unread, capacities[0]);
        let rest = capacities.drop_first();
        lemma_reads_in_order(unread.skip(n as int), rest);
        let m = if total(rest) < unread.len() - n {
            total(rest)
        } else {
            (unread.len() - n) as nat
        };
        assert(unread.take(n as int) + unread.skip(n as int).take(m as int) =~= unread.take(
            (n + m) as int,
        ));
    } else {
        assert(unread.take(0) =~= Seq::<u8>::empty());
    }
}

/// The bytes of one chunk that a reader was bound to, with a cursor.
pub struct CachedReadData {
    data: Vec<u8>,
    position: u64,
    remaining: u64,
}

impl View for CachedReadData {
    type V = Seq<u8>;

    /// The bytes not read yet.
    closed spec fn view(&self) -> Seq<u8> {
        self.data@.subrange(self.position as int, self.position + self.remaining)
    }
}

impl CachedReadData {
    /// The cursor stays within the bytes held.
    #[verifier::type_invariant]
    spec fn cursor_in_bounds(&self) -> bool {
        self.position + self.remaining <= self.data@.len()
    }

    /// A reader over `remaining` bytes of `data` from `position` on.
    pub fn new(data: Vec<u8>, position: u64, remaining: u64) -> (r: Self)
        requires
            position + remaining <= data@.len(),
        ensures
            r@ == data@.subrange(position as int, position + remaining),
    {
        CachedReadData { data, position, remaining }
    }

    /// The number of bytes not read yet.
    pub fn remaining(&self) -> (r: u64)
        ensures
            r == self@.len(),
    {
        proof {
            use_type_invariant(self);
        }
        self.remaining
    }

    /// Copies the next `min(buf.len(), remaining)` bytes to the front of
    /// `buf`, moves the cursor past them and returns their number; 0 once
    /// every byte was read.
    pub fn read(&mut self, buf: &mut [u8]) -> (n: usize)
        ensures
            n == read_count(old(self)@, old(buf)@.len()),
            final(buf)@.len() == old(buf)@.len(),
            final(buf)@.subrange(0, n as int) == old(self)@.subrange(0, n as int),
            final(buf)@.subrange(n as int, old(buf)@.len() as int) == old(buf)@.subrange(
                n as int,
                old(buf)@.len() as int,
            ),
            final(self)@ == old(self)@.subrange(n as int, old(self)@.len() as int),
    {
        proof {
            use_type_invariant(&*self);
        }
        let n: usize = if (buf.len() as u64) < self.remaining {
            buf.len()
        } else {
            self.remaining as usize
        };
        let held: usize = self.data.len();
        assert(self.position <= held);
        let start: usize = self.position as usize;
        let mut i: usize = 0;
        while i < n
            invariant
                self.position == start,
                start + self.remaining <= self.data@.len(),
                held == self.data@.len(),
                n <= buf@.len(),
                n <= self.remaining,
                buf@.len() == old(buf)@.len(),
                forall|j: int| 0 <= j < i ==> buf@[j] == self.data@[start + j],
                forall|j: int| n <= j < buf@.len() ==> buf@[j] == old(buf)@[j],
                i <= n,
            decreases n - i,
        {
            buf[i] = self.data[start + i];
            i = i + 1;
        }
        self.remaining = self.remaining - n as u64;
        self.position = self.position + n as u64;
        assert(buf@.subrange(0, n as int) =~= old(self)@.subrange(0, n as int));
        assert(buf@.subrange(n as int, buf@.len() as int) =~= old(buf)@.subrange(
            n as int,
            old(buf)@.len() as int,
        ));
        assert(self@ =~= old(self)@.subrange(n as int, old(self)@.len() as int));
        n
    }
}

/// What a reader returned by the cache holds: nothing until the result of
/// its chunk arrives, then the bytes or the failure, for good.
pub struct CachedRead {
    outcome: Option<Result<CachedReadData, CacheError>>,
}

/// The mathematical value of a reader: `None` while it waits, else the
/// unread bytes or the failure.
pub type CachedReadView = Option<Result<Seq<u8>, CacheError>>;

impl View for CachedRead {
    type V = CachedReadView;

    closed spec fn view(&self) -> CachedReadView {
        match self.outcome {
            None => None,
            Some(Ok(data)) => Some(Ok(data@)),
            Some(Err(e)) => Some(Err(e)),
        }
    }
}

impl CachedRead {
    /// A reader whose result has not arrived yet.
    pub fn new() -> (r: Self)
        ensures
            r@ is None,
    {
        CachedRead { outcome: None }
    }

    /// Whether the result has arrived.
    pub fn is_ready(&self) -> (r: bool)
        ensures
            r == (self@ is Some),
    {
        self.outcome.is_some()
    }

    /// Hands the reader the result of its chunk. Only the first result
    /// counts: a reader serves one chunk.
    pub fn deliver(&mut self, result: Result<CachedReadData, CacheError>)
        ensures
            old(self)@ is Some ==> final(self)@ == old(self)@,
            old(self)@ is None ==> final(self)@ == match result {
                Ok(data) => Some(Ok(data@)),
                Err(e) => Some(Err(e)),
            },
    {
        if self.outcome.is_none() {
            self.outcome = Some(result);
        }
    }

    /// Reads the next bytes into `buf`, as `CachedReadData::read` does, or
    /// returns the failure that the result carried.
    pub fn read(&mut self, buf: &mut [u8]) -> (r: Result<usize, CacheError>)
        requires
            old(self)@ is Some,
        ensures
            match old(self)@ {
                Some(Ok(unread)) => r matches Ok(n) && {
                    &&& n == read_count(unread, old(buf)@.len())
                    &&& final(buf)@.len() == old(buf)@.len()
                    &&& final(buf)@.subrange(0, n as int) == unread.subrange(0, n as int)
                    &&& final(buf)@.subrange(n as int, old(buf)@.len() as int) == old(
                        buf,
                    )@.subrange(n as int, old(buf)@.len() as int)
                    &&& final(self)@ == Some(
                        Ok::<Seq<u8>, CacheError>(unread.subrange(n as int, unread.len() as int)),
                    )
                },
                Some(Err(e)) => r == Err::<usize, CacheError>(e) && final(self)@ == old(self)@
                    && final(buf)@ == old(buf)@,
                None => false,
            },
    {
        match &mut self.outcome {
            Some(Ok(data)) => Ok(data.read(buf)),
            Some(Err(e)) => Err(e.duplicate()),
            None => Ok(0),
        }
    }
}

} // verus!
