use vstd::prelude::*;

verus! {

/// What `acquire` tells its caller to do.
#[derive(Debug, Clone, Copy, PartialEq, Eq, Structural)]
pub enum Lease {
    /// Use the idle connection with this id.
    Reuse(u64),
    /// Open and handshake a new connection under this id.
    Create(u64),
    /// Every slot is taken: wait for a release, then try again.
    Wait,
}

/// What became of a released connection.
#[derive(Debug, Clone, Copy, PartialEq, Eq, Structural)]
pub enum Returned {
    /// It was ready and went back to the idle set.
    Pooled,
    /// It was not ready: close its socket.
    Closed,
}

/// The bookkeeping of a bounded pool of connections, each known by an id.
///
/// The sockets themselves live with the caller; the pool decides which
/// connection a caller may use and when a new one may be opened.
pub struct ConnectionPool {
    capacity: usize,
    idle: Vec<u64>,
    in_use: Vec<u64>,
    next_id: u64,
    retired: Ghost<Set<u64>>,
}

impl ConnectionPool {
    pub closed spec fn capacity(&self) -> nat {
        self.capacity as nat
    }

    /// The ids of the connections waiting to be leased.
    pub closed spec fn idle(&self) -> Seq<u64> {
        self.idle@
    }

    /// The ids of the connections leased out.
    pub closed spec fn in_use(&self) -> Seq<u64> {
        self.in_use@
    }

    /// The ids of the connections that were closed; none comes back.
    pub closed spec fn retired(&self) -> Set<u64> {
        self.retired@
    }

    pub closed spec fn next_id(&self) -> u64 {
        self.next_id
    }

    /// The number of open connections.
    pub open spec fn open_count(&self) -> nat {
        self.idle().len() + self.in_use().len()
    }

    pub closed spec fn wf(&self) -> bool {
        &&& self.idle@.len() + self.in_use@.len() <= self.capacity
        &&& self.idle@.no_duplicates()
        &&& self.in_use@.no_duplicates()
        &&& forall|i: int, j: int|
            0 <= i < self.idle@.len() && 0 <= j < self.in_use@.len() ==> self.idle@[i] != self.in_use@[j]
        &&& forall|i: int| 0 <= i < self.idle@.len() ==> self.idle@[i] < self.next_id
        &&& forall|i: int| 0 <= i < self.in_use@.len() ==> self.in_use@[i] < self.next_id
        &&& forall|x: u64| self.retired@.contains(x) ==> x < self.next_id
        &&& forall|i: int| 0 <= i < self.idle@.len() ==> !self.retired@.contains(self.idle@[i])
        &&& forall|i: int| 0 <= i < self.in_use@.len() ==> !self.retired@.contains(self.in_use@[i])
    }

    /// The number of open connections never exceeds the capacity.
    pub proof fn lemma_bounded(&self)
        requires
            self.wf(),
        ensures
            self.open_count() <= self.capacity(),
    {
    }

    /// An empty pool that may open up to `capacity` connections.
    pub fn new(capacity: usize) -> (r: Self)
        ensures
            r.wf(),
            r.capacity() == capacity,
            r.idle().len() == 0,
            r.in_use().len() == 0,
            r.retired().is_empty(),
    {
        ConnectionPool {
            capacity,
            idle: Vec::new(),
            in_use: Vec::new(),
            next_id: 0,
            retired: Ghost(Set::empty()),
        }
    }

    /// Decides how a caller gets a connection: the most recently pooled idle
    /// one if any; else a new one while below capacity; else it waits.
    pub fn acquire(&mut self) -> (r: Lease)
        requires
            old(self).wf(),
        ensures
            final(self).wf(),
            final(self).capacity() == old(self).capacity(),
            final(self).retired() == old(self).retired(),
            old(self).idle().len() > 0 ==> {
                let id = old(self).idle().last();
                &&& r == Lease::Reuse(id)
                &&& final(self).idle() == old(self).idle().drop_last()
                &&& final(self).in_use() == old(self).in_use().push(id)
            },
            old(self).idle().len() == 0 && old(self).open_count() < old(self).capacity() && old(
                self,
            ).next_id() < u64::MAX ==> {
                &&& r == Lease::Create(old(self).next_id())
                &&& final(self).idle() == old(self).idle()
                &&& final(self).in_use() == old(self).in_use().push(old(self).next_id())
            },
            r == Lease::Wait ==> *final(self) == *old(self),
            r is Reuse ==> final(self).next_id() == old(self).next_id(),
            r is Create ==> final(self).next_id() == old(self).next_id() + 1,
            forall|id: u64|
                (r == Lease::Reuse(id) || r == Lease::Create(id)) ==> !old(self).in_use().contains(id),
            r is Wait <==> old(self).idle().len() == 0 && (old(self).open_count() >= old(self).capacity()
                || old(self).next_id() == u64::MAX),
            forall|id: u64|
                (r == Lease::Reuse(id) || r == Lease::Create(id)) ==> !final(self).retired().contains(id),
    {
        if self.idle.len() > 0 {
            let id = self.idle.pop().unwrap();
            self.in_use.push(id);
            proof {
                assert forall|i: int, j: int|
                    0 <= i < self.idle@.len() && 0 <= j < self.in_use@.len() implies self.idle@[i]
                    != self.in_use@[j] by {
                    assert(old(self).idle@[i] == self.idle@[i]);
                    assert(old(self).idle@[old(self).idle@.len() - 1] == id);
                }
                assert forall|i: int, j: int| 0 <= i < j < self.in_use@.len() implies self.in_use@[i]
                    != self.in_use@[j] by {
                    if j == self.in_use@.len() - 1 {
                        assert(old(self).idle@[old(self).idle@.len() - 1] == id);
                    }
                }
            }
            Lease::Reuse(id)
        } else if self.in_use.len() < self.capacity && self.next_id < u64::MAX {
            let id = self.next_id;
            self.in_use.push(id);
            self.next_id = self.next_id + 1;
            proof {
                assert forall|i: int, j: int| 0 <= i < j < self.in_use@.len() implies self.in_use@[i]
                    != self.in_use@[j] by {
                    if j == self.in_use@.len() - 1 {
                        assert(old(self).in_use@[i] < id);
                    }
                }
            }
            Lease::Create(id)
        } else {
            Lease::Wait
        }
    }

    /// Takes back a leased connection: a ready one joins the idle set, any
    /// other is retired and must be closed.
    pub fn release(&mut self, id: u64, ready: bool) -> (r: Returned)
        requires
            old(self).wf(),
            old(self).in_use().contains(id),
        ensures
            final(self).wf(),
            final(self).capacity() == old(self).capacity(),
            final(self).next_id() == old(self).next_id(),
            final(self).in_use().len() == old(self).in_use().len() - 1,
            final(self).in_use().to_set() == old(self).in_use().to_set().remove(id),
            ready ==> r == Returned::Pooled && final(self).idle() == old(self).idle().push(id)
                && final(self).retired() == old(self).retired(),
            !ready ==> r == Returned::Closed && final(self).idle() == old(self).idle()
                && final(self).retired() == old(self).retired().insert(id),
    {
        let mut k: usize = 0;
        while k < self.in_use.len() && self.in_use[k] != id
            invariant
                self == old(self),
                k <= self.in_use@.len(),
                forall|i: int| 0 <= i < k ==> self.in_use@[i] != id,
            decreases self.in_use.len() - k,
        {
            k = k + 1;
        }
        assert(k < self.in_use@.len() && self.in_use@[k as int] == id);
        let ghost before = self.in_use@;
        self.in_use.remove(k);
        proof {
            assert(self.in_use@ == before.remove(k as int));
            assert forall|x: u64| self.in_use@.to_set().contains(x) <==> before.to_set().remove(id).contains(
                x,
            ) by {
                if before.to_set().remove(id).contains(x) {
                    let j = choose|j: int| 0 <= j < before.len() && before[j] == x;
                    if j < k {
                        assert(self.in_use@[j] == x);
                    } else {
                        assert(j != k);
                        assert(self.in_use@[j - 1] == x);
                    }
                }
                if self.in_use@.to_set().contains(x) {
                    let j = choose|j: int| 0 <= j < self.in_use@.len() && self.in_use@[j] == x;
                    if j < k {
                        assert(before[j] == x);
                    } else {
                        assert(before[j + 1] == x);
                    }
                }
            }
            assert(self.in_use@.to_set() =~= before.to_set().remove(id));
        }
        if ready {
            self.idle.push(id);
            Returned::Pooled
        } else {
            self.retired = Ghost(self.retired@.insert(id));
            Returned::Closed
        }
    }

    /// Empties the idle set on shutdown; gives the ids whose sockets to close.
    pub fn drain(&mut self) -> (r: Vec<u64>)
        requires
            old(self).wf(),
        ensures
            final(self).wf(),
            final(self).capacity() == old(self).capacity(),
            final(self).next_id() == old(self).next_id(),
            r@ == old(self).idle(),
            final(self).idle().len() == 0,
            final(self).in_use() == old(self).in_use(),
            final(self).retired() == old(self).retired().union(old(self).idle().to_set()),
    {
        let mut r: Vec<u64> = Vec::new();
        let mut i: usize = 0;
        while i < self.idle.len()
            invariant
                self == old(self),
                i <= self.idle@.len(),
                r@ == self.idle@.take(i as int),
            decreases self.idle.len() - i,
        {
            r.push(self.idle[i]);
            i = i + 1;
            assert(r@ =~= self.idle@.take(i as int));
        }
        assert(r@ =~= self.idle@);
        self.idle = Vec::new();
        self.retired = Ghost(self.retired@.union(r@.to_set()));
        proof {
            assert forall|i: int| 0 <= i < self.in_use@.len() implies !self.retired@.contains(self.in_use@[i]) by {
                if r@.to_set().contains(self.in_use@[i]) {
                    let j = choose|j: int| 0 <= j < r@.len() && r@[j] == self.in_use@[i];
                }
            }
        }
        r
    }
}

} // verus!
