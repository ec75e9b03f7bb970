//! Reusable byte buffers.

use vstd::prelude::*;

verus! {

/// A small pool of reusable byte buffers.
///
/// Every logged packet needs its own owned copy of the payload bytes. A pool
/// hands out buffers that were allocated before and takes them back, so that
/// steady logging does not keep pressing the allocator. The size is a hint, not
/// a cap: an empty pool allocates.
pub struct BufferPool {
    buf_size: usize,
    max_idle: usize,
    free: Vec<Vec<u8>>,
}

impl BufferPool {
    /// At most `max_idle` buffers are parked, and all of them are empty.
    pub closed spec fn wf(&self) -> bool {
        &&& self.buf_size <= isize::MAX
        &&& self.free@.len() <= self.max_idle
        &&& forall|i: int| 0 <= i < self.free@.len() ==> (#[trigger] self.free@[i])@.len() == 0
    }

    /// The parked buffers, in the order in which they came back.
    pub closed spec fn parked(&self) -> Seq<Vec<u8>> {
        self.free@
    }

    /// How many buffers are parked at most.
    pub closed spec fn max_idle(&self) -> nat {
        self.max_idle as nat
    }

    /// The capacity asked for when a buffer is allocated.
    pub closed spec fn buf_size(&self) -> nat {
        self.buf_size as nat
    }

    /// A buffer was handed out: the one that came back last, or a new one when
    /// none was parked. It is empty.
    pub open spec fn handed_out(before: BufferPool, after: BufferPool, buf: Vec<u8>) -> bool {
        &&& after.wf()
        &&& after.max_idle() == before.max_idle()
        &&& after.buf_size() == before.buf_size()
        &&& buf@ == Seq::<u8>::empty()
        &&& before.parked().len() > 0 ==> {
            &&& buf == before.parked().last()
            &&& after.parked() == before.parked().drop_last()
        }
        &&& before.parked().len() == 0 ==> after.parked() == before.parked()
    }

    /// A buffer was taken back: an empty one is parked behind the others, or none is
    /// when as many as may be are parked already. A buffer is known by its bytes
    /// here: that the parked one keeps the allocation of the one taken back is left
    /// unsaid.
    pub open spec fn taken_back(before: BufferPool, after: BufferPool) -> bool {
        &&& after.wf()
        &&& after.max_idle() == before.max_idle()
        &&& after.buf_size() == before.buf_size()
        &&& before.parked().len() < before.max_idle() ==> {
            &&& after.parked().len() == before.parked().len() + 1
            &&& after.parked().drop_last() == before.parked()
            &&& after.parked().last()@ == Seq::<u8>::empty()
        }
        &&& before.parked().len() >= before.max_idle() ==> after.parked() == before.parked()
    }

    /// After a buffer was taken back into a pool with room, what is handed out next is
    /// the empty buffer that was parked for it, and the pool then holds what it held
    /// before. That its allocation is that of the buffer taken back is left unsaid.
    pub proof fn a_parked_buffer_is_handed_out_next(
        before: BufferPool,
        between: BufferPool,
        after: BufferPool,
        buf: Vec<u8>,
    )
        requires
            before.parked().len() < before.max_idle(),
            BufferPool::taken_back(before, between),
            BufferPool::handed_out(between, after, buf),
        ensures
            buf == between.parked().last(),
            buf@ == Seq::<u8>::empty(),
            after.parked() == before.parked(),
    {
    }

    /// The number of parked buffers never passes the limit, and a parked buffer
    /// holds no bytes.
    pub proof fn parked_buffers_are_few_and_empty(&self)
        requires
            self.wf(),
        ensures
            self.parked().len() <= self.max_idle(),
            forall|i: int|
                0 <= i < self.parked().len() ==> (#[trigger] self.parked()[i])@ == Seq::<u8>::empty(),
    {
        assert forall|i: int| 0 <= i < self.parked().len() implies (#[trigger] self.parked()[i])@
            == Seq::<u8>::empty() by {
            assert(self.free@[i]@ =~= Seq::<u8>::empty());
        }
    }

    /// An empty pool. A vector of bytes cannot ask for more than `isize::MAX`
    /// bytes.
    pub fn new(buf_size: usize, max_idle: usize) -> (pool: Self)
        requires
            buf_size <= isize::MAX,
        ensures
            pool.wf(),
            pool.parked() == Seq::<Vec<u8>>::empty(),
            pool.max_idle() == max_idle,
            pool.buf_size() == buf_size,
    {
        BufferPool { buf_size, max_idle, free: Vec::new() }
    }

    /// Borrow a buffer, empty and ready to be filled: the one that came back
    /// last, or a new one when none is parked.
    pub fn acquire(&mut self) -> (buf: Vec<u8>)
        requires
            old(self).wf(),
        ensures
            BufferPool::handed_out(*old(self), *final(self), buf),
    {
        match self.free.pop() {
            Some(buf) => {
                assert(buf@ =~= Seq::<u8>::empty());
                buf
            },
            None => Vec::with_capacity(self.buf_size),
        }
    }

    /// Return a buffer for reuse. It is dropped when `max_idle` buffers are
    /// already parked, so that a traffic spike does not leave the pool holding
    /// memory that nothing uses.
    pub fn release(&mut self, buf: Vec<u8>)
        requires
            old(self).wf(),
        ensures
            BufferPool::taken_back(*old(self), *final(self)),
    {
        let mut buf = buf;
        buf.clear();
        if self.free.len() < self.max_idle {
            self.free.push(buf);
            assert(self.free@.drop_last() =~= old(self).free@);
        }
    }

    /// How many buffers are parked.
    pub fn idle(&self) -> (n: usize)
        ensures
            n == self.parked().len(),
    {
        self.free.len()
    }
}

impl Default for BufferPool {
    /// Buffers of 4096 bytes, at most 64 of them parked.
    fn default() -> (pool: Self)
        ensures
            pool.wf(),
            pool.parked() == Seq::<Vec<u8>>::empty(),
            pool.max_idle() == 64,
            pool.buf_size() == 4096,
    {
        BufferPool::new(4096, 64)
    }
}

impl BufferPool {
    /// A full pool takes no more, an empty one hands out a new buffer and stays empty, and
    /// neither way do its limits change.
    pub proof fn a_full_pool_takes_no_more(before: BufferPool, after: BufferPool, buf: Vec<u8>)
        ensures
            BufferPool::taken_back(before, after) ==> {
                &&& before.parked().len() >= before.max_idle() ==> after.parked()
                    == before.parked()
                &&& before.parked().len() < before.max_idle() ==> after.parked().len()
                    == before.parked().len() + 1
                &&& after.max_idle() == before.max_idle()
                &&& after.buf_size() == before.buf_size()
            },
            BufferPool::handed_out(before, after, buf) ==> {
                &&& buf@.len() == 0
                &&& before.parked().len() == 0 ==> after.parked().len() == 0
                &&& before.parked().len() > 0 ==> after.parked().len() == before.parked().len() - 1
                &&& after.max_idle() == before.max_idle()
                &&& after.buf_size() == before.buf_size()
            },
    {
    }
}

} // verus!
