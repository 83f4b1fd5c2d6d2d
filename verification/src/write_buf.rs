//! The write buffer: up to 32 pending page writes, in the order in which
//! their addresses first arrived.

use vstd::prelude::*;
use std::collections::HashMap;

verus! {

/// The number of pending writes that makes a batch.
pub const WRITE_CACHE_CAPACITY: usize = 32;

/// Pending writes as the contracts see them: address and page bytes, in
/// arrival order.
pub type Pending = Seq<(u32, Seq<u8>)>;

/// Some pending write is for `address`.
pub open spec fn pending_contains(buf: Pending, address: u32) -> bool {
    exists|i: int| 0 <= i < buf.len() && (#[trigger] buf[i]).0 == address
}

/// The position of the pending write for `address`.
pub open spec fn pending_index(buf: Pending, address: u32) -> int {
    choose|i: int| 0 <= i < buf.len() && (#[trigger] buf[i]).0 == address
}

/// No address is pending twice.
pub open spec fn pending_distinct(buf: Pending) -> bool {
    forall|i: int, j: int| 0 <= i < j < buf.len() ==> (#[trigger] buf[i]).0 != (#[trigger] buf[j]).0
}

/// The page pending for `address`, if any.
pub open spec fn pending_get(buf: Pending, address: u32) -> Option<Seq<u8>> {
    if pending_contains(buf, address) {
        Some(buf[pending_index(buf, address)].1)
    } else {
        None
    }
}

/// The pending writes after one for `address`: overwritten in place where the
/// address was pending, appended where it was not.
pub open spec fn pending_put(buf: Pending, address: u32, data: Seq<u8>) -> Pending {
    if pending_contains(buf, address) {
        buf.update(pending_index(buf, address), (address, data))
    } else {
        buf.push((address, data))
    }
}

/// The pending writes without the one for `address`.
pub open spec fn pending_discard(buf: Pending, address: u32) -> Pending {
    if pending_contains(buf, address) {
        buf.remove(pending_index(buf, address))
    } else {
        buf
    }
}

/// Where no address is pending twice, a position that holds `address` is the
/// position of `address`.
pub proof fn lemma_pending_index_unique(buf: Pending, address: u32, i: int)
    requires
        pending_distinct(buf),
        0 <= i < buf.len(),
        buf[i].0 == address,
    ensures
        pending_contains(buf, address),
        pending_index(buf, address) == i,
{
    let k = pending_index(buf, address);
    assert(0 <= k < buf.len() && buf[k].0 == address);
    if k < i {
        assert(buf[k].0 != buf[i].0);
    } else if i < k {
        assert(buf[i].0 != buf[k].0);
    }
}

/// After a put, each pending write is the new one or one that was pending
/// before, in its old place; the buffer grows by one exactly when the address
/// was not pending.
pub proof fn lemma_pending_put_elements(buf: Pending, address: u32, data: Seq<u8>)
    ensures
        pending_put(buf, address, data).len() == (if pending_contains(buf, address) {
            buf.len()
        } else {
            buf.len() + 1
        }),
        forall|i: int|
            0 <= i < pending_put(buf, address, data).len() ==> #[trigger] pending_put(
                buf,
                address,
                data,
            )[i] == (address, data) || (i < buf.len() && pending_put(buf, address, data)[i] == buf[i]),
        pending_contains(pending_put(buf, address, data), address),
{
    let after = pending_put(buf, address, data);
    if pending_contains(buf, address) {
        let k = pending_index(buf, address);
        assert(after[k].0 == address);
    } else {
        assert(after[buf.len() as int].0 == address);
    }
}

/// After a discard, each pending write was pending before, the address is
/// pending no more, and every other address is pending as before, with the
/// same page.
pub proof fn lemma_pending_discard_elements(buf: Pending, address: u32)
    requires
        pending_distinct(buf),
    ensures
        pending_distinct(pending_discard(buf, address)),
        pending_discard(buf, address).len() <= buf.len(),
        forall|i: int|
            0 <= i < pending_discard(buf, address).len() ==> buf.contains(
                #[trigger] pending_discard(buf, address)[i],
            ),
        !pending_contains(pending_discard(buf, address), address),
        forall|a: u32|
            a != address ==> (#[trigger] pending_contains(pending_discard(buf, address), a)
                <==> pending_contains(buf, a)) && pending_get(pending_discard(buf, address), a)
                == pending_get(buf, a),
{
    let after = pending_discard(buf, address);
    if pending_contains(buf, address) {
        let k = pending_index(buf, address);
        assert forall|i: int, j: int| 0 <= i < j < after.len() implies (#[trigger] after[i]).0 != (
        #[trigger] after[j]).0 by {
            let bi = if i < k { i } else { i + 1 };
            let bj = if j < k { j } else { j + 1 };
            assert(buf[bi].0 != buf[bj].0);
        }
        assert forall|i: int| 0 <= i < after.len() implies buf.contains(#[trigger] after[i]) by {
            let bi = if i < k { i } else { i + 1 };
            assert(after[i] == buf[bi]);
        }
        if pending_contains(after, address) {
            let i = pending_index(after, address);
            let bi = if i < k { i } else { i + 1 };
            assert(after[i] == buf[bi]);
            if bi < k {
                assert(buf[bi].0 != buf[k].0);
            } else {
                assert(buf[k].0 != buf[bi].0);
            }
        }
        assert forall|a: u32| a != address implies (#[trigger] pending_contains(after, a)
            <==> pending_contains(buf, a)) && pending_get(after, a) == pending_get(buf, a) by {
            if pending_contains(buf, a) {
                let j = pending_index(buf, a);
                let ai = if j < k { j } else { j - 1 };
                assert(after[ai] == buf[j]);
                lemma_pending_index_unique(after, a, ai);
            }
            if pending_contains(after, a) {
                let i = pending_index(after, a);
                let bi = if i < k { i } else { i + 1 };
                assert(after[i] == buf[bi]);
                lemma_pending_index_unique(buf, a, bi);
            }
        }
    } else {
        assert forall|i: int| 0 <= i < after.len() implies buf.contains(#[trigger] after[i]) by {
            assert(after[i] == buf[i]);
        }
    }
}

/// One pending write.
#[derive(Clone, Copy)]
pub struct WriteBuf {
    pub address: u32,
    pub data: [u8; 4096],
}

impl WriteBuf {
    pub fn new(address: u32, data: [u8; 4096]) -> (buf: WriteBuf)
        ensures
            buf.address == address,
            buf.data == data,
    {
        WriteBuf { address, data }
    }
}

/// The write buffer. `cache` holds the pending writes in arrival order and
/// `table` the set of their addresses; `sync` is raised when the batch is
/// complete.
pub struct WriteCache {
    pub capacity: usize,
    pub cache: Vec<WriteBuf>,
    pub table: HashMap<u32, bool>,
    pub sync: bool,
}

impl WriteCache {
    /// The pending writes, in arrival order.
    pub open spec fn entries(&self) -> Pending {
        Seq::new(self.cache@.len(), |i: int| (self.cache@[i].address, self.cache@[i].data@))
    }

    /// The buffer holds at most a batch, no address twice, and `table` holds
    /// exactly the pending addresses.
    pub open spec fn wf(&self) -> bool {
        &&& self.capacity == WRITE_CACHE_CAPACITY
        &&& self.cache@.len() <= self.capacity
        &&& pending_distinct(self.entries())
        &&& forall|a: u32| #[trigger] self.table@.contains_key(a) <==> pending_contains(self.entries(), a)
    }

    /// An empty buffer for batches of 32.
    pub fn new() -> (cache: WriteCache)
        ensures
            cache.wf(),
            cache.entries().len() == 0,
            !cache.sync,
    {
        let cache = WriteCache { capacity: 32, cache: Vec::new(), sync: false, table: HashMap::new() };
        assert(cache.entries() =~= Seq::<(u32, Seq<u8>)>::empty());
        cache
    }

    /// The size of a batch, cut to 32 bits.
    pub fn get_size(&self) -> (size: u32)
        ensures
            size == self.capacity as u32,
    {
        #[verifier::truncate]
        (self.capacity as u32)
    }

    /// Whether a write for `address` is pending.
    pub fn contains_address(&self, address: u32) -> (r: bool)
        ensures
            r == self.table@.contains_key(address),
            self.wf() ==> r == pending_contains(self.entries(), address),
    {
        self.table.contains_key(&address)
    }

    /// Whether the batch is complete.
    pub fn need_sync(&self) -> (r: bool)
        ensures
            r == self.sync,
    {
        self.sync
    }

    /// Empties the buffer and lowers the batch flag.
    pub fn sync(&mut self)
        ensures
            final(self).capacity == old(self).capacity,
            final(self).capacity == WRITE_CACHE_CAPACITY ==> final(self).wf(),
            final(self).entries().len() == 0,
            final(self).table@.len() == 0,
            !final(self).sync,
    {
        self.sync = false;
        self.cache.clear();
        self.table.clear();
        assert(self.entries() =~= Seq::<(u32, Seq<u8>)>::empty());
    }

    /// The position in `cache` of the pending write for `address`.
    fn position(&self, address: u32) -> (index: usize)
        requires
            self.wf(),
            pending_contains(self.entries(), address),
        ensures
            index < self.cache@.len(),
            index == pending_index(self.entries(), address),
            self.cache@[index as int].address == address,
    {
        let ghost k = pending_index(self.entries(), address);
        let mut index: usize = 0;
        while index < self.cache.len()
            invariant
                self.wf(),
                index <= k < self.cache@.len(),
                self.entries()[k].0 == address,
                forall|j: int| 0 <= j < index ==> self.cache@[j].address != address,
            decreases self.cache@.len() - index,
        {
            if self.cache[index].address == address {
                proof {
                    lemma_pending_index_unique(self.entries(), address, index as int);
                }
                return index;
            }
            index = index + 1;
        }
        proof {
            assert(false);
        }
        index
    }

    /// Buffers a write of `data` to `address`. A write to a pending address
    /// replaces the page in place; another is appended, and the 32nd raises
    /// the batch flag.
    pub fn write(&mut self, address: u32, data: [u8; 4096])
        requires
            old(self).wf(),
            old(self).entries().len() < WRITE_CACHE_CAPACITY || pending_contains(
                old(self).entries(),
                address,
            ),
        ensures
            final(self).wf(),
            final(self).entries() == pending_put(old(self).entries(), address, data@),
            final(self).sync == (old(self).sync || (!pending_contains(old(self).entries(), address)
                && final(self).entries().len() == WRITE_CACHE_CAPACITY)),
    {
        let buf = WriteBuf { address, data };
        if !self.table.contains_key(&address) {
            self.cache.push(buf);
            self.table.insert(address, true);
            if self.cache.len() == self.capacity {
                self.sync = true;
            }
            proof {
                let before = old(self).entries();
                let after = self.entries();
                assert(after =~= before.push((address, data@)));
                assert forall|a: u32| #[trigger]
                    self.table@.contains_key(a) <==> pending_contains(after, a) by {
                    if pending_contains(before, a) {
                        let i = pending_index(before, a);
                        assert(after[i].0 == a);
                    }
                    if a == address {
                        assert(after[before.len() as int].0 == a);
                    }
                    if pending_contains(after, a) && a != address {
                        let i = pending_index(after, a);
                        assert(before[i].0 == a);
                    }
                }
                assert forall|i: int, j: int| 0 <= i < j < after.len() implies (#[trigger] after[i]).0
                    != (#[trigger] after[j]).0 by {
                    if j == before.len() {
                        assert(before[i].0 == after[i].0);
                    } else {
                        assert(before[i].0 != before[j].0);
                    }
                }
            }
        } else {
            let index: usize = self.position(address);
            self.cache[index] = buf;
            proof {
                let before = old(self).entries();
                let after = self.entries();
                assert(after =~= before.update(index as int, (address, data@)));
                assert forall|i: int| 0 <= i < after.len() implies (#[trigger] after[i]).0
                    == before[i].0 by {}
                assert forall|a: u32| #[trigger]
                    self.table@.contains_key(a) <==> pending_contains(after, a) by {
                    if pending_contains(before, a) {
                        let i = pending_index(before, a);
                        assert(after[i].0 == a);
                    }
                    if pending_contains(after, a) {
                        let i = pending_index(after, a);
                        assert(before[i].0 == a);
                    }
                }
                assert forall|i: int, j: int| 0 <= i < j < after.len() implies (#[trigger] after[i]).0
                    != (#[trigger] after[j]).0 by {
                    assert(before[i].0 != before[j].0);
                }
            }
        }
    }

    /// The page pending for `address`, if any.
    pub fn read(&self, address: u32) -> (r: Option<[u8; 4096]>)
        requires
            self.wf(),
        ensures
            r is Some <==> pending_contains(self.entries(), address),
            r is Some ==> pending_get(self.entries(), address) == Some(r->0@),
    {
        if !self.table.contains_key(&address) {
            return None;
        }
        let index: usize = self.position(address);
        Some(self.cache[index].data)
    }

    /// Every pending write, in arrival order.
    pub fn get_all(&self) -> (buf: Vec<(u32, [u8; 4096])>)
        ensures
            buf@.len() == self.entries().len(),
            forall|i: int|
                0 <= i < buf@.len() ==> (#[trigger] buf@[i]).0 == self.entries()[i].0 && buf@[i].1@
                    == self.entries()[i].1,
    {
        let mut buf: Vec<(u32, [u8; 4096])> = Vec::new();
        let mut i: usize = 0;
        while i < self.cache.len()
            invariant
                i <= self.cache@.len(),
                buf@.len() == i,
                forall|j: int|
                    0 <= j < i ==> (#[trigger] buf@[j]).0 == self.cache@[j].address && buf@[j].1
                        == self.cache@[j].data,
            decreases self.cache@.len() - i,
        {
            buf.push((self.cache[i].address, self.cache[i].data));
            i = i + 1;
        }
        buf
    }

    /// Drops the pending write for `address`, if there is one. The batch flag
    /// stays as it is.
    pub fn recall_write(&mut self, address: u32)
        requires
            old(self).wf(),
        ensures
            final(self).wf(),
            final(self).entries() == pending_discard(old(self).entries(), address),
            final(self).sync == old(self).sync,
    {
        if self.table.contains_key(&address) {
            let index: usize = self.position(address);
            self.cache.remove(index);
            self.table.remove(&address);
            proof {
                let before = old(self).entries();
                let after = self.entries();
                let k = index as int;
                assert(after =~= before.remove(k));
                assert forall|a: u32| #[trigger]
                    self.table@.contains_key(a) <==> pending_contains(after, a) by {
                    if pending_contains(before, a) && a != address {
                        let i = pending_index(before, a);
                        if i < k {
                            assert(after[i].0 == a);
                        } else {
                            assert(after[i - 1].0 == a);
                        }
                    }
                    if pending_contains(after, a) {
                        let i = pending_index(after, a);
                        if i < k {
                            assert(before[i].0 == a);
                        } else {
                            assert(before[i + 1].0 == a);
                            assert(before[k].0 != before[i + 1].0);
                        }
                        if a == address {
                            if i < k {
                                assert(before[i].0 != before[k].0);
                            }
                        }
                    }
                }
                assert forall|i: int, j: int| 0 <= i < j < after.len() implies (#[trigger] after[i]).0
                    != (#[trigger] after[j]).0 by {
                    let bi = if i < k { i } else { i + 1 };
                    let bj = if j < k { j } else { j + 1 };
                    assert(before[bi].0 != before[bj].0);
                }
            }
        }
    }
}

} // verus!
