//! The page cache in front of the translation layer, and the read / write /
//! erase interface that the upper layers use.

use vstd::prelude::*;
use crate::error::FlashError;
use crate::tl::check_center::CheckType;
use crate::tl::laws::{
    lemma_direct_keeps_other_blocks,
    lemma_direct_lands,
    lemma_direct_then_read,
    lemma_erase_keeps_other_blocks,
    lemma_sealed_reads_pass,
    lemma_write_keeps_other_pages,
    lemma_write_then_read,
};
use crate::tl::model::{TlModel, block_lpas};
use crate::write_buf::pending_contains;
use crate::tl::tl::TranslationLayer;
use crate::util::array::Array1;
use crate::util::lru_cache::{
    LRUCache,
    lru_contains,
    lru_distinct,
    lru_get,
    lru_index,
    lru_put,
    lru_remove,
    lru_touch,
    lemma_lru_index_unique,
    lemma_lru_kept_elements,
    lemma_lru_put,
    lemma_lru_put_elements,
    lemma_lru_remove_distinct,
    };
use crate::util::page::page_views;

verus! {

/// The entries of the page cache.
pub const BUF_CACHE_CAPACITY: usize = 1024;

/// One cached page.
#[derive(Clone, Copy)]
pub struct Buf {
    address: u32,
    data: [u8; 4096],
}

impl Buf {
    /// The bytes of the cached page.
    pub closed spec fn page(&self) -> Seq<u8> {
        self.data@
    }

    /// The logical address of the cached page.
    pub closed spec fn spec_address(&self) -> u32 {
        self.address
    }

    pub fn new(address: u32, data: [u8; 4096]) -> (buf: Buf)
        ensures
            buf.page() == data@,
            buf.spec_address() == address,
    {
        Buf { address, data }
    }
}

/// The cached pages as the contracts see them: address and page bytes, least
/// recently used first.
pub open spec fn cached_pages(s: Seq<(u32, Buf)>) -> Seq<(u32, Seq<u8>)> {
    Seq::new(s.len(), |i: int| (s[i].0, s[i].1.page()))
}

/// The cache after the first `k` of `pages` were cached for the addresses
/// from `start` on, in order.
pub open spec fn lru_fill(
    s: Seq<(u32, Seq<u8>)>,
    capacity: nat,
    start: u32,
    pages: Seq<Seq<u8>>,
    k: nat,
) -> Seq<(u32, Seq<u8>)>
    decreases k,
{
    if k == 0 {
        s
    } else {
        lru_put(
            lru_fill(s, capacity, start, pages, (k - 1) as nat),
            capacity,
            (start + k - 1) as u32,
            pages[k - 1],
        )
    }
}

/// The cache without the entries for the `k` addresses from `start` on.
pub open spec fn lru_clear(s: Seq<(u32, Seq<u8>)>, start: u32, k: nat) -> Seq<(u32, Seq<u8>)>
    decreases k,
{
    if k == 0 {
        s
    } else {
        lru_remove(lru_clear(s, start, (k - 1) as nat), (start + k - 1) as u32)
    }
}

/// The pages of a cache have the keys of the cache, in the same places.
proof fn lemma_cached_keys(s: Seq<(u32, Buf)>, key: u32)
    requires
        lru_distinct(s),
    ensures
        lru_distinct(cached_pages(s)),
        lru_contains(cached_pages(s), key) <==> lru_contains(s, key),
        lru_contains(s, key) ==> lru_index(cached_pages(s), key) == lru_index(s, key),
{
    let p = cached_pages(s);
    assert forall|i: int, j: int| 0 <= i < j < p.len() implies (#[trigger] p[i]).0 != (#[trigger] p[j]).0 by {
        assert(s[i].0 != s[j].0);
    }
    if lru_contains(s, key) {
        let i = lru_index(s, key);
        assert(p[i].0 == key);
        lemma_lru_index_unique(p, key, i);
    }
    if lru_contains(p, key) {
        let i = lru_index(p, key);
        assert(s[i].0 == key);
    }
}

/// Another key is cached after a put only if it was before, and with the
/// same value.
pub proof fn lemma_lru_put_keeps_values<T>(
    s: Seq<(u32, T)>,
    capacity: nat,
    key: u32,
    value: T,
    other: u32,
)
    requires
        lru_distinct(s),
        s.len() <= capacity,
        capacity > 0,
        other != key,
        lru_contains(lru_put(s, capacity, key, value), other),
    ensures
        lru_contains(s, other),
        lru_get(lru_put(s, capacity, key, value), other) == lru_get(s, other),
{
    let after = lru_put(s, capacity, key, value);
    lemma_lru_put(s, capacity, key, value);
    let i = lru_index(after, other);
    assert(after[i].0 == other);
    assert(i < after.len() - 1);
    if lru_contains(s, key) {
        let k = lru_index(s, key);
        let si = if i < k { i } else { i + 1 };
        assert(after[i] == s[si]);
        lemma_lru_index_unique(s, other, si);
    } else if s.len() >= capacity {
        assert(after[i] == s[i + 1]);
        lemma_lru_index_unique(s, other, i + 1);
    } else {
        assert(after[i] == s[i]);
        lemma_lru_index_unique(s, other, i);
    }
}

/// The cached page agrees with the layer: it lies in the user region and
/// holds what the layer reads the page as.
pub open spec fn entry_agrees(entry: (u32, Seq<u8>), m: TlModel) -> bool {
    entry.0 / 128 <= m.use_max && entry.1 == m.logical_page(entry.0)
}

/// Every cached page agrees with the layer.
pub open spec fn coherent(s: Seq<(u32, Seq<u8>)>, m: TlModel) -> bool {
    forall|i: int| 0 <= i < s.len() ==> entry_agrees(#[trigger] s[i], m)
}

/// Every cached page agrees with the layer, but for those of the addresses
/// from `start + from` to `start + 128`.
pub open spec fn coherent_except(s: Seq<(u32, Seq<u8>)>, m: TlModel, start: int, from: int) -> bool {
    forall|i: int|
        0 <= i < s.len() ==> (start + from <= (#[trigger] s[i]).0 < start + 128) || entry_agrees(
            s[i],
            m,
        )
}

/// Caching the pages of a block as the layer reads them leaves the cache in
/// agreement with the layer, but for what it held of the pages of the block
/// not yet cached anew.
pub proof fn lemma_fill_coherent(
    s: Seq<(u32, Seq<u8>)>,
    capacity: nat,
    start: u32,
    pages: Seq<Seq<u8>>,
    k: nat,
    m: TlModel,
)
    requires
        lru_distinct(s),
        s.len() <= capacity,
        capacity > 0,
        k <= 128,
        start + 128 <= u32::MAX,
        coherent_except(s, m, start as int, 0),
        forall|j: int| 0 <= j < 128 ==> entry_agrees(((start + j) as u32, #[trigger] pages[j]), m),
    ensures
        lru_distinct(lru_fill(s, capacity, start, pages, k)),
        lru_fill(s, capacity, start, pages, k).len() <= capacity,
        coherent_except(lru_fill(s, capacity, start, pages, k), m, start as int, k as int),
    decreases k,
{
    if k > 0 {
        lemma_fill_coherent(s, capacity, start, pages, (k - 1) as nat, m);
        let before = lru_fill(s, capacity, start, pages, (k - 1) as nat);
        let key = (start + k - 1) as u32;
        let after = lru_fill(s, capacity, start, pages, k);
        lemma_lru_put(before, capacity, key, pages[k - 1]);
        lemma_lru_put_elements(before, capacity, key, pages[k - 1]);
        assert forall|i: int| 0 <= i < after.len() implies (start + k <= (#[trigger] after[i]).0
            < start + 128) || entry_agrees(after[i], m) by {
            if after[i] == (key, pages[k - 1]) {
                assert(entry_agrees(((start + (k - 1)) as u32, pages[k - 1]), m));
            } else {
                assert(before.contains(after[i]));
                let j = choose|j: int| 0 <= j < before.len() && before[j] == after[i];
                assert((start + (k - 1) <= before[j].0 < start + 128) || entry_agrees(before[j], m));
            }
        }
    }
}

/// Dropping the cached pages of a block leaves the cache in agreement with
/// the layer where it was so but for the pages of the block.
pub proof fn lemma_clear_coherent(s: Seq<(u32, Seq<u8>)>, start: u32, k: nat, m: TlModel)
    requires
        lru_distinct(s),
        k <= 128,
        start + 128 <= u32::MAX,
        coherent_except(s, m, start as int, 0),
    ensures
        lru_distinct(lru_clear(s, start, k)),
        lru_clear(s, start, k).len() <= s.len(),
        coherent_except(lru_clear(s, start, k), m, start as int, k as int),
    decreases k,
{
    if k > 0 {
        lemma_clear_coherent(s, start, (k - 1) as nat, m);
        let before = lru_clear(s, start, (k - 1) as nat);
        let key = (start + k - 1) as u32;
        let after = lru_clear(s, start, k);
        lemma_lru_kept_elements(before, key);
        if lru_contains(before, key) {
            lemma_lru_remove_distinct(before, lru_index(before, key));
        }
        assert forall|i: int| 0 <= i < after.len() implies (start + k <= (#[trigger] after[i]).0
            < start + 128) || entry_agrees(after[i], m) by {
            assert(before.contains(after[i]));
            let j = choose|j: int| 0 <= j < before.len() && before[j] == after[i];
            assert((start + (k - 1) <= before[j].0 < start + 128) || entry_agrees(before[j], m));
        }
    }
}

/// The page cache over the translation layer.
pub struct BufCache {
    pub capacity: usize,
    pub cache: LRUCache<Buf>,
    pub translation_layer: TranslationLayer,
}

impl BufCache {
    /// The cached pages, least recently used first.
    pub open spec fn cached(&self) -> Seq<(u32, Seq<u8>)> {
        cached_pages(self.cache@)
    }

    /// The state of the translation layer underneath.
    pub open spec fn layer(&self) -> TlModel {
        self.translation_layer@
    }

    /// Every cached page is what the layer reads the page as: the cache
    /// saves reads and changes no answer.
    pub open spec fn is_coherent(&self) -> bool {
        coherent(self.cached(), self.layer())
    }

    /// The cache and the layer underneath are sound.
    pub open spec fn inv(&self) -> bool {
        &&& self.cache.wf()
        &&& self.cache.spec_capacity() == self.capacity
        &&& self.translation_layer.inv()
    }

    /// A cache of 1024 pages over a fresh translation layer.
    pub fn new() -> (cache: BufCache)
        ensures
            cache.inv(),
            cache.cached().len() == 0,
            cache.capacity == BUF_CACHE_CAPACITY,
            cache.layer().pending.len() == 0,
            cache.layer().disk.len() == 4096,
            forall|i: int| 0 <= i < 4096 ==> crate::util::page::is_zero_page(#[trigger] cache.layer().disk[i]),
            cache.layer().use_max == 27,
            cache.layer().max == 31,
            cache.layer().err_block_num == 0,
            cache.layer().remap == Map::<u32, u32>::empty(),
            cache.layer().sign_block_of == Map::<u32, u32>::empty(),
            cache.layer().sealed(),
            cache.layer().started() == cache.layer(),
            cache.is_coherent(),
    {
        let capacity: usize = 1024;
        BufCache {
            capacity,
            cache: LRUCache::new(capacity),
            translation_layer: TranslationLayer::new(),
        }
    }

    /// Start-up of the layer underneath.
    pub fn init(&mut self)
        requires
            old(self).inv(),
        ensures
            final(self).cache == old(self).cache,
            final(self).capacity == old(self).capacity,
            final(self).layer() == old(self).layer().started(),
            final(self).translation_layer.wf(),
            old(self).layer().started().inv() ==> final(self).inv(),
    {
        self.translation_layer.init();
    }

    /// The cached page for `address`, if any; a hit makes the entry the most
    /// recently used.
    pub fn get_data(&mut self, address: u32) -> (r: Option<[u8; 4096]>)
        requires
            old(self).cache.wf(),
        ensures
            final(self).cache.wf(),
            final(self).cache.spec_capacity() == old(self).cache.spec_capacity(),
            final(self).capacity == old(self).capacity,
            final(self).translation_layer == old(self).translation_layer,
            final(self).cached() == lru_touch(old(self).cached(), address),
            r is Some <==> lru_contains(old(self).cached(), address),
            r is Some ==> Some(r->0@) == lru_get(old(self).cached(), address),
    {
        proof {
            lemma_cached_keys(self.cache@, address);
        }
        let data = self.cache.get(address);
        proof {
            if lru_contains(old(self).cache@, address) {
                let k = lru_index(old(self).cache@, address);
                assert(self.cached() =~= lru_touch(old(self).cached(), address));
            }
        }
        match data {
            Some(buf) => Some(buf.data),
            None => None,
        }
    }

    /// Caches `data` for `address` as the most recently used page.
    pub fn put_data(&mut self, address: u32, data: [u8; 4096])
        requires
            old(self).cache.wf(),
        ensures
            final(self).cache.wf(),
            final(self).cache.spec_capacity() == old(self).cache.spec_capacity(),
            final(self).capacity == old(self).capacity,
            final(self).translation_layer == old(self).translation_layer,
            final(self).cached() == lru_put(
                old(self).cached(),
                old(self).cache.spec_capacity(),
                address,
                data@,
            ),
    {
        proof {
            lemma_cached_keys(self.cache@, address);
        }
        let buf = Buf::new(address, data);
        self.cache.put(address, buf);
        proof {
            assert(self.cached() =~= lru_put(
                old(self).cached(),
                old(self).cache.spec_capacity(),
                address,
                data@,
            ));
        }
    }

    /// Drops the cached page for `address`, if there is one.
    pub fn remove_data(&mut self, address: u32)
        requires
            old(self).cache.wf(),
        ensures
            final(self).cache.wf(),
            final(self).cache.spec_capacity() == old(self).cache.spec_capacity(),
            final(self).capacity == old(self).capacity,
            final(self).translation_layer == old(self).translation_layer,
            final(self).cached() == lru_remove(old(self).cached(), address),
    {
        proof {
            lemma_cached_keys(self.cache@, address);
        }
        self.cache.remove(address);
        proof {
            assert(self.cached() =~= lru_remove(old(self).cached(), address));
        }
    }

    /// Reads logical page `address`. A cached page is handed out as it is.
    /// Otherwise the layer reads the logical block that owns the page, all of
    /// its 128 pages are cached, and the page asked for is handed out.
    pub fn read(&mut self, dev: u8, address: u32) -> (r: Result<[u8; 4096], FlashError>)
        requires
            old(self).inv(),
            address / 128 <= old(self).layer().use_max,
        ensures
            final(self).inv(),
            final(self).capacity == old(self).capacity,
            old(self).layer().sealed() ==> final(self).layer().sealed(),
            old(self).layer().sealed() && old(self).is_coherent() ==> final(self).is_coherent() && (r is Ok
                ==> r->Ok_0@ == old(self).layer().logical_page(address)),
            lru_contains(old(self).cached(), address) ==> r is Ok && Some(r->Ok_0@) == lru_get(
                old(self).cached(),
                address,
            ) && final(self).cached() == lru_touch(old(self).cached(), address) && final(self).layer() == old(self).layer(),
            !lru_contains(old(self).cached(), address) ==> match old(self).layer().read_result(
                address / 128,
            ) {
                Ok((pages, m)) => r is Ok && r->Ok_0@ == pages[(address % 128) as int] && final(self).layer() == m && final(self).cached() == lru_touch(
                    lru_fill(
                        old(self).cached(),
                        old(self).capacity as nat,
                        (address / 128 * 128) as u32,
                        pages,
                        128,
                    ),
                    address,
                ),
                Err(e) => r is Err && r->Err_0 == e && final(self).layer() == old(self).layer()
                    && final(self).cached() == old(self).cached(),
            },
    {
        let ghost agreed = old(self).layer().sealed() && old(self).is_coherent();
        proof {
            lemma_cached_keys(self.cache@, address);
            lemma_lru_kept_elements(self.cached(), address);
        }
        let data = self.get_data(address);
        if data.is_some() {
            proof {
                if agreed {
                    let before = old(self).cached();
                    let k = lru_index(before, address);
                    assert(entry_agrees(before[k], old(self).layer()));
                    assert forall|i: int| 0 <= i < self.cached().len() implies entry_agrees(
                        #[trigger] self.cached()[i],
                        self.layer(),
                    ) by {
                        assert(before.contains(self.cached()[i]));
                        let j = choose|j: int| 0 <= j < before.len() && before[j] == self.cached()[i];
                        assert(entry_agrees(before[j], old(self).layer()));
                    }
                }
            }
            return Ok(data.unwrap());
        }
        proof {
            assert(self.cached() == old(self).cached());
            if agreed && address / 128 <= old(self).layer().use_max {
                lemma_sealed_reads_pass(old(self).layer(), address / 128);
            }
        }
        let block_no: u32 = address / 128;
        let block = match self.translation_layer.read(block_no) {
            Ok(block) => block,
            Err(e) => {
                return Err(e);
            },
        };
        let ghost pages = page_views(block@);
        let start: u32 = block_no * 128;
        proof {
            if agreed {
                assert(self.layer() == old(self).layer());
                assert(block_no <= self.layer().use_max);
                assert((block_no + 1) * 128 <= (self.layer().max + 1) * 128);
                assert forall|j: int| 0 <= j < 128 implies entry_agrees(
                    ((start + j) as u32, #[trigger] pages[j]),
                    self.layer(),
                ) by {
                    assert(pages[j] == self.layer().read_pages(block_no)[j]);
                    assert(((start + j) as u32) / 128 == block_no);
                }
                lemma_fill_coherent(
                    old(self).cached(),
                    old(self).capacity as nat,
                    start,
                    pages,
                    128,
                    self.layer(),
                );
            }
        }
        let mut index: u32 = 0;
        while index < 128
            invariant
                index <= 128,
                block@.len() == 128,
                pages == page_views(block@),
                start == address / 128 * 128,
                self.cache.wf(),
                self.cache.spec_capacity() == old(self).capacity,
                self.capacity == old(self).capacity,
                self.translation_layer.inv(),
                self.translation_layer@ == old(self).layer().read_result(address / 128)->Ok_0.1,
                self.cached() == lru_fill(
                    old(self).cached(),
                    old(self).capacity as nat,
                    start,
                    pages,
                    index as nat,
                ),
                forall|j: int|
                    0 <= j < index && lru_contains(self.cached(), (start + j) as u32) ==> lru_get(
                        self.cached(),
                        (start + j) as u32,
                    ) == Some(#[trigger] pages[j]),
            decreases 128 - index,
        {
            let ghost before = self.cached();
            let key: u32 = start + index;
            proof {
                lemma_cached_keys(self.cache@, key);
            }
            self.put_data(key, block.get(index));
            proof {
                lemma_lru_put(before, self.cache.spec_capacity(), key, pages[index as int]);
                assert forall|j: int|
                    0 <= j < index + 1 && lru_contains(
                        self.cached(),
                        (start + j) as u32,
                    ) implies lru_get(self.cached(), (start + j) as u32) == Some(
                    #[trigger] pages[j],
                ) by {
                    if j < index {
                        lemma_lru_put_keeps_values(
                            before,
                            self.cache.spec_capacity(),
                            key,
                            pages[index as int],
                            (start + j) as u32,
                        );
                    }
                }
            }
            index = index + 1;
        }
        let offset: u32 = address % 128;
        let ghost filled = self.cached();
        proof {
            lemma_cached_keys(self.cache@, address);
            lemma_lru_kept_elements(filled, address);
        }
        let found = self.get_data(address);
        proof {
            assert(address == (start + offset) as u32);
            if agreed {
                assert(coherent(filled, self.layer()));
                assert forall|i: int| 0 <= i < self.cached().len() implies entry_agrees(
                    #[trigger] self.cached()[i],
                    self.layer(),
                ) by {
                    assert(filled.contains(self.cached()[i]));
                    let j = choose|j: int| 0 <= j < filled.len() && filled[j] == self.cached()[i];
                    assert(entry_agrees(filled[j], self.layer()));
                }
                assert(pages[offset as int] == old(self).layer().read_pages(block_no)[offset as int]);
            }
        }
        match found {
            Some(page) => {
                proof {
                    assert(lru_get(filled, (start + offset) as u32) == Some(pages[offset as int]));
                }
                Ok(page)
            },
            None => Ok(block.get(offset)),
        }
    }

    /// Writes `data` to logical page `address`: the layer takes the write,
    /// and the page is cached. A write that the layer refuses changes
    /// nothing.
    pub fn write(&mut self, dev: u8, address: u32, data: [u8; 4096]) -> (r: Result<(), FlashError>)
        requires
            old(self).inv(),
            address / 128 <= old(self).layer().use_max,
            old(self).layer().write_is_clean(address, data@),
        ensures
            final(self).inv(),
            final(self).capacity == old(self).capacity,
            old(self).layer().sealed() ==> final(self).layer().sealed(),
            old(self).layer().write_holds(address, data@, CheckType::Crc32, r, final(self).layer())
                || old(self).layer().write_holds(
                address,
                data@,
                CheckType::Ecc,
                r,
                final(self).layer(),
            ),
            r is Ok ==> final(self).cached() == lru_put(
                old(self).cached(),
                old(self).capacity as nat,
                address,
                data@,
            ),
            r is Err ==> final(self).cached() == old(self).cached(),
            old(self).layer().sealed() && old(self).is_coherent() ==> final(self).is_coherent(),
    {
        let ghost agreed = old(self).layer().sealed() && old(self).is_coherent();
        match self.translation_layer.write(address, data) {
            Ok(()) => {
                proof {
                    lemma_cached_keys(self.cache@, address);
                    lemma_lru_put_elements(
                        self.cached(),
                        self.cache.spec_capacity(),
                        address,
                        data@,
                    );
                }
                self.put_data(address, data);
                proof {
                    if agreed {
                        let m = old(self).layer();
                        let before = old(self).cached();
                        let taken: Result<(), FlashError> = Ok(());
                        let scheme = if m.write_holds(
                            address,
                            data@,
                            CheckType::Crc32,
                            taken,
                            self.layer(),
                        ) {
                            CheckType::Crc32
                        } else {
                            CheckType::Ecc
                        };
                        assert(m.write_result(address, data@, scheme) == Ok::<TlModel, FlashError>(
                            self.layer(),
                        ));
                        lemma_write_then_read(m, address, data@, scheme);
                        assert(self.layer().use_max == m.use_max);
                        assert forall|i: int| 0 <= i < self.cached().len() implies entry_agrees(
                            #[trigger] self.cached()[i],
                            self.layer(),
                        ) by {
                            let e = self.cached()[i];
                            if e != (address, data@) {
                                assert(before.contains(e));
                                let j = choose|j: int| 0 <= j < before.len() && before[j] == e;
                                assert(entry_agrees(before[j], m));
                                lemma_write_keeps_other_pages(m, address, data@, scheme, e.0);
                            }
                        }
                    }
                }
                Ok(())
            },
            Err(e) => Err(e),
        }
    }

    /// Writes the 128 pages of `data` to logical block `block_no` past the
    /// write buffer, and caches them. A write that the layer refuses changes
    /// nothing.
    pub fn write_block_driect(&mut self, dev: u8, block_no: u32, data: Array1<[u8; 4096]>) -> (r:
        Result<(), FlashError>)
        requires
            old(self).inv(),
            block_no <= old(self).layer().use_max,
            data@.len() == 128,
            old(self).layer().direct_is_clean(block_no, page_views(data@)),
        ensures
            final(self).inv(),
            final(self).capacity == old(self).capacity,
            old(self).layer().sealed() ==> final(self).layer().sealed(),
            old(self).layer().direct_holds(
                block_no,
                page_views(data@),
                CheckType::Crc32,
                r,
                final(self).layer(),
            ) || old(self).layer().direct_holds(
                block_no,
                page_views(data@),
                CheckType::Ecc,
                r,
                final(self).layer(),
            ),
            r is Ok ==> final(self).cached() == lru_fill(
                old(self).cached(),
                old(self).capacity as nat,
                (block_no * 128) as u32,
                page_views(data@),
                128,
            ),
            r is Err ==> final(self).cached() == old(self).cached(),
            old(self).layer().sealed() && old(self).is_coherent() && (forall|l: u32|
                block_lpas(block_no).contains(l) ==> !#[trigger] pending_contains(
                    old(self).layer().pending,
                    l,
                )) ==> final(self).is_coherent(),
    {
        let ghost agreed = old(self).layer().sealed() && old(self).is_coherent() && (forall|l: u32|
            block_lpas(block_no).contains(l) ==> !#[trigger] pending_contains(
                old(self).layer().pending,
                l,
            ));
        let copy = data.dup();
        match self.translation_layer.write_block_direct(block_no, data) {
            Ok(()) => {},
            Err(e) => {
                return Err(e);
            },
        }
        let ghost pages = page_views(copy@);
        proof {
            assert(block_no <= old(self).layer().use_max);
            assert((block_no + 1) * 128 <= (old(self).layer().max + 1) * 128);
            if agreed {
                let m = old(self).layer();
                let after = self.layer();
                lemma_direct_then_read(m, block_no, pages, CheckType::Crc32);
                lemma_direct_lands(m, block_no, pages, 4);
                let start = (block_no * 128) as u32;
                assert forall|j: int| 0 <= j < 128 implies entry_agrees(
                    ((start + j) as u32, #[trigger] pages[j]),
                    after,
                ) by {
                    assert(pages[j] == after.read_pages(block_no)[j]);
                    assert(((start + j) as u32) / 128 == block_no);
                }
                assert forall|i: int| 0 <= i < old(self).cached().len() implies (start + 0 <= (
                #[trigger] old(self).cached()[i]).0 < start + 128) || entry_agrees(
                    old(self).cached()[i],
                    after,
                ) by {
                    let e = old(self).cached()[i];
                    assert(entry_agrees(e, m));
                    if e.0 / 128 != block_no {
                        lemma_direct_keeps_other_blocks(m, block_no, pages, 4, e.0);
                    }
                }
                lemma_cached_keys(old(self).cache@, 0);
                lemma_fill_coherent(
                    old(self).cached(),
                    old(self).capacity as nat,
                    start,
                    pages,
                    128,
                    after,
                );
            }
        }
        let start_address: u32 = block_no * 128;
        let mut i: u32 = 0;
        while i < 128
            invariant
                i <= 128,
                copy@.len() == 128,
                pages == page_views(copy@),
                start_address == block_no * 128,
                start_address + 128 <= u32::MAX,
                self.cache.wf(),
                self.cache.spec_capacity() == old(self).capacity,
                self.capacity == old(self).capacity,
                self.translation_layer.inv(),
                self.translation_layer@ == old(self).layer().direct_result(
                    block_no,
                    pages,
                    CheckType::Crc32,
                )->Ok_0,
                self.cached() == lru_fill(
                    old(self).cached(),
                    old(self).capacity as nat,
                    start_address,
                    pages,
                    i as nat,
                ),
            decreases 128 - i,
        {
            let address: u32 = start_address + i;
            self.put_data(address, copy.get(i));
            i = i + 1;
        }
        Ok(())
    }

    /// Erases logical block `block_no`: the layer erases it, and the cached
    /// pages of its 128 addresses are dropped.
    pub fn erase(&mut self, dev: u8, block_no: u32)
        requires
            old(self).inv(),
            block_no <= old(self).layer().use_max,
        ensures
            final(self).inv(),
            final(self).capacity == old(self).capacity,
            old(self).layer().sealed() ==> final(self).layer().sealed(),
            final(self).layer() == old(self).layer().erased_block(block_no),
            final(self).cached() == lru_clear(old(self).cached(), (block_no * 128) as u32, 128),
            old(self).layer().sealed() && old(self).is_coherent() ==> final(self).is_coherent(),
    {
        let ghost agreed = old(self).layer().sealed() && old(self).is_coherent();
        self.translation_layer.erase(block_no);
        proof {
            assert(block_no <= old(self).layer().use_max);
            assert((block_no + 1) * 128 <= (old(self).layer().max + 1) * 128);
            if agreed {
                let m = old(self).layer();
                let after = self.layer();
                let start = (block_no * 128) as u32;
                assert forall|i: int| 0 <= i < old(self).cached().len() implies (start + 0 <= (
                #[trigger] old(self).cached()[i]).0 < start + 128) || entry_agrees(
                    old(self).cached()[i],
                    after,
                ) by {
                    let e = old(self).cached()[i];
                    assert(entry_agrees(e, m));
                    if e.0 / 128 != block_no {
                        lemma_erase_keeps_other_blocks(m, block_no, e.0);
                    }
                }
                lemma_cached_keys(old(self).cache@, 0);
                lemma_clear_coherent(old(self).cached(), start, 128, after);
            }
        }
        let start_address: u32 = block_no * 128;
        let mut k: u32 = 0;
        while k < 128
            invariant
                k <= 128,
                start_address == block_no * 128,
                start_address + 128 <= u32::MAX,
                self.cache.wf(),
                self.cache.spec_capacity() == old(self).capacity,
                self.capacity == old(self).capacity,
                self.translation_layer.inv(),
                self.translation_layer@ == old(self).layer().erased_block(block_no),
                self.cached() == lru_clear(old(self).cached(), start_address, k as nat),
            decreases 128 - k,
        {
            self.remove_data(start_address + k);
            k = k + 1;
        }
    }
}

} // verus!
