//! A fixed pool of reusable byte buffers with a FIFO free-list.
//!
//! Workers take buffers out as exclusive leases and hand them back when a
//! chunk is parsed; the pool keeps the working set bounded at its capacity
//! times the chunk size. A leased slot is marked until its lease returns, so
//! a buffer cannot be handed out twice and the books always balance: free
//! plus leased equals capacity.

use vstd::prelude::*;

verus! {

/// How many of `s` are set.
pub open spec fn count_true(s: Seq<bool>) -> int
    decreases s.len(),
{
    if s.len() == 0 {
        0
    } else {
        count_true(s.drop_last()) + if s.last() {
            1int
        } else {
            0int
        }
    }
}

proof fn lemma_count_true_update(s: Seq<bool>, i: int, b: bool)
    requires
        0 <= i < s.len(),
    ensures
        count_true(s.update(i, b)) == count_true(s) - (if s[i] {
            1int
        } else {
            0int
        }) + (if b {
            1int
        } else {
            0int
        }),
    decreases s.len(),
{
    let t = s.update(i, b);
    if i == s.len() - 1 {
        assert(t.drop_last() =~= s.drop_last());
        assert(t.last() == b);
    } else {
        assert(t.drop_last() =~= s.drop_last().update(i, b));
        lemma_count_true_update(s.drop_last(), i, b);
        assert(t.last() == s.last());
    }
}

/// A bounded pool of pre-allocated growable byte buffers.
pub struct BufferQueue {
    buffers: Vec<Vec<u8>>,
    leased: Vec<bool>,
    free: Vec<usize>,
}

/// An exclusive lease on one pooled buffer.
///
/// The lease owns the bytes while it is out; the pool remembers the slot as
/// leased until `release` hands the buffer back.
pub struct Buffer {
    /// The pool slot this lease came from.
    pub id: usize,
    /// The leased bytes; scratch space for one chunk.
    pub data: Vec<u8>,
}

impl BufferQueue {
    /// The number of slots of the pool.
    pub closed spec fn capacity(&self) -> int {
        self.leased@.len() as int
    }

    /// The ids waiting in the free-list, oldest first.
    pub closed spec fn free_list(&self) -> Seq<usize> {
        self.free@
    }

    /// How many buffers are in the free-list.
    pub open spec fn free_count(&self) -> int {
        self.free_list().len() as int
    }

    /// How many buffers are out on lease.
    pub closed spec fn leased_count(&self) -> int {
        count_true(self.leased@)
    }

    /// Whether slot `k` is out on lease.
    pub closed spec fn slot_leased(&self, k: int) -> bool {
        self.leased@[k]
    }

    pub closed spec fn wf(&self) -> bool {
        &&& self.buffers@.len() == self.leased@.len()
        &&& forall|i: int|
            0 <= i < self.free@.len() ==> (#[trigger] self.free@[i]) < self.leased@.len()
                && !self.leased@[self.free@[i] as int]
        &&& forall|i: int, j: int|
            0 <= i < j < self.free@.len() ==> self.free@[i] != self.free@[j]
        &&& self.free@.len() + count_true(self.leased@) == self.leased@.len()
    }

    /// Builds a pool of `size` buffers, each pre-allocated to `buffer_size`
    /// bytes, all free.
    pub fn new(size: usize, buffer_size: usize) -> (r: Self)
        ensures
            r.wf(),
            r.capacity() == size,
            r.free_count() == size,
            forall|k: int| 0 <= k < size ==> !r.slot_leased(k),
            forall|i: int| 0 <= i < size ==> r.free_list()[i] == i,
    {
        let mut buffers: Vec<Vec<u8>> = Vec::new();
        let mut leased: Vec<bool> = Vec::new();
        let mut free: Vec<usize> = Vec::new();
        let mut i: usize = 0;
        while i < size
            invariant
                i <= size,
                buffers@.len() == i,
                leased@.len() == i,
                free@.len() == i,
                count_true(leased@) == 0,
                forall|k: int| 0 <= k < i ==> !leased@[k],
                forall|k: int| 0 <= k < i ==> free@[k] == k,
            decreases size - i,
        {
            let ghost l0 = leased@;
            buffers.push(Vec::with_capacity(buffer_size));
            leased.push(false);
            free.push(i);
            proof {
                assert(leased@.drop_last() =~= l0);
            }
            i += 1;
        }
        let r = BufferQueue { buffers, leased, free };
        r
    }

    /// Takes the oldest free buffer out of the pool as an exclusive lease.
    ///
    /// The bytes of the lease are scratch left over from earlier use; a
    /// caller fills them before reading them.
    pub fn pop(&mut self) -> (r: Buffer)
        requires
            old(self).wf(),
            old(self).free_count() > 0,
        ensures
            final(self).wf(),
            final(self).capacity() == old(self).capacity(),
            final(self).free_count() == old(self).free_count() - 1,
            final(self).free_list() == old(self).free_list().drop_first(),
            r.id() == old(self).free_list()[0],
            0 <= r.id() < final(self).capacity(),
            final(self).slot_leased(r.id() as int),
            forall|k: int|
                0 <= k < old(self).capacity() && k != r.id() ==> final(self).slot_leased(k)
                    == old(self).slot_leased(k),
    {
        let ghost l0 = self.leased@;
        let id = self.free.remove(0);
        proof {
            assert(self.free@ =~= old(self).free@.drop_first());
        }
        self.leased[id] = true;
        proof {
            lemma_count_true_update(l0, id as int, true);
        }
        let data = self.buffers.remove(id);
        self.buffers.insert(id, Vec::new());
        Buffer { id, data }
    }
}

impl Buffer {
    /// The pool slot this lease came from.
    pub open spec fn id(&self) -> usize {
        self.id
    }

    /// A read-only view of the leased bytes.
    pub fn borrow(&self) -> (r: &Vec<u8>)
        ensures
            r@ == self.data@,
    {
        &self.data
    }

    /// Hands the buffer back to the pool and queues its slot as free again.
    ///
    /// A lease is consumed here, so a buffer cannot be returned twice.
    pub fn release(self, queue: &mut BufferQueue)
        requires
            old(queue).wf(),
            self.id() < old(queue).capacity(),
            old(queue).slot_leased(self.id() as int),
        ensures
            final(queue).wf(),
            final(queue).capacity() == old(queue).capacity(),
            final(queue).free_count() == old(queue).free_count() + 1,
            final(queue).free_list() == old(queue).free_list().push(self.id()),
            !final(queue).slot_leased(self.id() as int),
            forall|k: int|
                0 <= k < old(queue).capacity() && k != self.id() ==> final(queue).slot_leased(k)
                    == old(queue).slot_leased(k),
    {
        let ghost l0 = queue.leased@;
        let Buffer { id, data } = self;
        queue.leased[id] = false;
        proof {
            lemma_count_true_update(l0, id as int, false);
        }
        let _scratch = queue.buffers.remove(id);
        queue.buffers.insert(id, data);
        queue.free.push(id);
        proof {
            assert forall|i: int, j: int|
                0 <= i < j < queue.free@.len() implies queue.free@[i] != queue.free@[j] by {
                if j == queue.free@.len() - 1 {
                    assert(!l0[old(queue).free@[i] as int]);
                }
            }
        }
    }
}

/// Pool conservation: at all times the buffers in the free-list and the
/// buffers out on lease together account for exactly the pool's capacity.
pub proof fn lemma_pool_conservation(q: &BufferQueue)
    requires
        q.wf(),
    ensures
        q.free_count() + q.leased_count() == q.capacity(),
{
}

} // verus!
