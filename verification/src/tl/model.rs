//! The translation layer as mathematics: its state as plain values, and each
//! operation as a function from state to state.
//!
//! Logical block `b` lives in physical block `phys(b)`: the block that the
//! remap table names for it, or `b` itself. A logical page reads as the
//! pending write for it, if there is one, and as the physical page otherwise.

use vstd::prelude::*;
use crate::error::FlashError;
use crate::driver::fake_disk::{block_pages, erased};
use crate::tl::check_center::{CheckType, crc_signature, stored_scheme, stored_lpa, crc_verifies};
use crate::tl::tl_helper::{BlockType, block_type_of};
use crate::util::crc32::crc32c;
use crate::util::page::{Page, be32, be_byte, is_zero_page};
use crate::write_buf::{
    Pending,
    pending_contains,
    pending_discard,
    pending_distinct,
    pending_get,
    pending_put,
};

verus! {

/// Signature slots in one signature block.
pub const SIGN_SLOTS: u32 = 4096;

/// The slot count at which a signature block counts as full: its last page is
/// never used.
pub const SIGN_ROLL: u32 = 4064;

/// The most entries that a mapping block can hold.
pub const MAP_ENTRIES: u32 = 65535;

/// Twelve hours, in seconds.
pub const ECC_WINDOW: u64 = 43200;

/// The state of a translation layer.
pub struct TlModel {
    /// What each physical page holds.
    pub disk: Seq<Seq<u8>>,
    /// The writes that wait for their batch.
    pub pending: Pending,
    /// Physical blocks taken as replacements or as reserved anchors.
    pub used: Set<u32>,
    /// Bad logical block to the physical block that replaces it.
    pub remap: Map<u32, u32>,
    /// Logical page to the physical block that holds its signature.
    pub sign_block_of: Map<u32, u32>,
    /// Logical page to the slot of its signature in that block.
    pub sign_offset_of: Map<u32, u32>,
    /// The last block of the user region.
    pub use_max: u32,
    /// The last block of the reserved region.
    pub max: u32,
    /// The block that holds the mapping table.
    pub table_block: u32,
    /// The block that receives signatures.
    pub sign_block: u32,
    /// Occupied slots of `sign_block`.
    pub sign_offset: u32,
    /// The block count that the scheme policy divides by.
    pub block_num: u32,
    /// Blocks found bad so far.
    pub err_block_num: u32,
    /// When a block was last found bad, in seconds since the epoch.
    pub last_err_time: u64,
}

/// The scheme that the policy selects: error correction when more than 2 %
/// of the blocks went bad, or when the last one did less than twelve hours
/// before `now`; CRC otherwise. A clock that cannot say how long ago that was
/// (`None`, or a time before the last error) counts as "less than twelve hours".
pub open spec fn select_scheme(
    err_block_num: u32,
    block_num: u32,
    last_err_time: u64,
    now: Option<u64>,
) -> CheckType {
    if 50 * err_block_num > block_num {
        CheckType::Ecc
    } else if now is None || now->0 < last_err_time || now->0 - last_err_time < ECC_WINDOW {
        CheckType::Ecc
    } else {
        CheckType::Crc32
    }
}

/// The signature page of a batch: the CRC signatures of its 32 pages, back to
/// back.
pub open spec fn sign_page(entries: Pending) -> Seq<u8> {
    Seq::new(
        4096,
        |i: int| crc_signature(crc32c(entries[i / 128].1), entries[i / 128].0)[i % 128],
    )
}

/// `m` after the first `k` of `entries` were recorded as signed in `block`.
pub open spec fn note_blocks(m: Map<u32, u32>, entries: Pending, k: nat, block: u32) -> Map<
    u32,
    u32,
>
    decreases k,
{
    if k == 0 {
        m
    } else {
        note_blocks(m, entries, (k - 1) as nat, block).insert(entries[k - 1].0, block)
    }
}

/// `m` after the first `k` of `entries` were recorded at the slots from `base` on.
pub open spec fn note_offsets(m: Map<u32, u32>, entries: Pending, k: nat, base: u32) -> Map<
    u32,
    u32,
>
    decreases k,
{
    if k == 0 {
        m
    } else {
        note_offsets(m, entries, (k - 1) as nat, base).insert(
            entries[k - 1].0,
            (base + k - 1) as u32,
        )
    }
}

/// The pending writes without those for the `k` addresses from `start` on.
pub open spec fn discard_range(buf: Pending, start: u32, k: nat) -> Pending
    decreases k,
{
    if k == 0 {
        buf
    } else {
        pending_discard(discard_range(buf, start, (k - 1) as nat), (start + k - 1) as u32)
    }
}

/// The `k` logical pages from `start` on.
pub open spec fn lpa_range(start: int, k: int) -> Set<u32> {
    Set::new(|l: u32| start <= l < start + k)
}

/// The logical pages of `block`.
pub open spec fn block_lpas(block: u32) -> Set<u32> {
    lpa_range(block as int * 128, 128)
}

/// The entries of `remap` with a key below `n`, by ascending key.
pub open spec fn table_listing(remap: Map<u32, u32>, n: nat) -> Seq<(u32, u32)>
    decreases n,
{
    if n == 0 {
        Seq::empty()
    } else {
        let rest = table_listing(remap, (n - 1) as nat);
        let key = (n - 1) as u32;
        if remap.contains_key(key) {
            rest.push((key, remap[key]))
        } else {
            rest
        }
    }
}

/// The bytes of a mapping block that lists `listing`: the marker
/// `22 22 FF FF`, four bytes of zero, then each entry as two big-endian
/// words, and zero to the end.
pub open spec fn table_image(listing: Seq<(u32, u32)>) -> Seq<u8> {
    Seq::new(
        524288,
        |i: int|
            if i == 0 || i == 1 {
                0x22u8
            } else if i == 2 || i == 3 {
                0xffu8
            } else if 8 <= i < 8 + 8 * listing.len() {
                let entry = listing[(i - 8) / 8];
                let r = (i - 8) % 8;
                if r < 4 {
                    be_byte(entry.0, r)
                } else {
                    be_byte(entry.1, r - 4)
                }
            } else {
                0u8
            },
    )
}

/// The medium with block `block` holding the 524288 bytes of `image`.
pub open spec fn with_block_image(disk: Seq<Seq<u8>>, block: int, image: Seq<u8>) -> Seq<Seq<u8>> {
    Seq::new(
        disk.len(),
        |i: int|
            if block * 128 <= i < block * 128 + 128 {
                image.subrange((i - block * 128) * 4096, (i - block * 128) * 4096 + 4096)
            } else {
                disk[i]
            },
    )
}

/// Entry `k` of a mapping block: a logical block and its replacement.
pub open spec fn map_entry(block: Seq<Seq<u8>>, k: int) -> (u32, u32) {
    let at = 8 + 8 * k;
    let page = block[at / 4096];
    let o = at % 4096;
    (
        be32(page[o], page[o + 1], page[o + 2], page[o + 3]),
        be32(page[o + 4], page[o + 5], page[o + 6], page[o + 7]),
    )
}

/// `n` entries of the mapping block come before its terminator `(0, 0)`, or
/// before its end.
pub open spec fn is_map_entry_count(block: Seq<Seq<u8>>, n: int) -> bool {
    &&& 0 <= n <= MAP_ENTRIES
    &&& forall|k: int| 0 <= k < n ==> #[trigger] map_entry(block, k) != (0u32, 0u32)
    &&& n < MAP_ENTRIES ==> map_entry(block, n) == (0u32, 0u32)
}

/// The number of entries that a mapping block lists.
pub open spec fn map_entry_count(block: Seq<Seq<u8>>) -> int {
    choose|n: int| is_map_entry_count(block, n)
}

/// Slot `s` of a signature block: 128 bytes.
pub open spec fn sign_slot(block: Seq<Seq<u8>>, s: int) -> Seq<u8> {
    block[s / 32].subrange((s % 32) * 128, (s % 32) * 128 + 128)
}

/// The slot holds no signature: all of its bytes are zero.
pub open spec fn is_blank_slot(slot: Seq<u8>) -> bool {
    forall|i: int| 0 <= i < 128 ==> slot[i] == 0u8
}

/// `n` signatures of the block come before its first blank slot, or before
/// its end.
pub open spec fn is_sign_slot_count(block: Seq<Seq<u8>>, n: int) -> bool {
    &&& 0 <= n <= SIGN_SLOTS
    &&& forall|s: int| 0 <= s < n ==> !is_blank_slot(#[trigger] sign_slot(block, s))
    &&& n < SIGN_SLOTS ==> is_blank_slot(sign_slot(block, n))
}

/// The number of signatures that a signature block holds.
pub open spec fn sign_slot_count(block: Seq<Seq<u8>>) -> int {
    choose|n: int| is_sign_slot_count(block, n)
}

/// The medium after the first `k` of `entries` were written, each to the page
/// that `remap` gives for its address.
pub open spec fn write_pages(
    disk: Seq<Seq<u8>>,
    remap: Map<u32, u32>,
    entries: Pending,
    k: nat,
) -> Seq<Seq<u8>>
    decreases k,
{
    if k == 0 {
        disk
    } else {
        write_pages(disk, remap, entries, (k - 1) as nat).update(
            page_addr_in(remap, entries[k - 1].0),
            entries[k - 1].1,
        )
    }
}

/// The physical block that serves logical block `block` under `remap`.
pub open spec fn phys_in(remap: Map<u32, u32>, block: u32) -> u32 {
    if remap.contains_key(block) {
        remap[block]
    } else {
        block
    }
}

/// The physical page that serves logical page `lpa` under `remap`.
pub open spec fn page_addr_in(remap: Map<u32, u32>, lpa: u32) -> int {
    phys_in(remap, lpa / 128) as int * 128 + (lpa % 128) as int
}

/// Group `g` (0 to 3) of a direct block write: 32 pages with their addresses.
pub open spec fn direct_group(block: u32, pages: Seq<Seq<u8>>, g: int) -> Pending {
    Seq::new(32, |j: int| ((block * 128 + g * 32 + j) as u32, pages[g * 32 + j]))
}

/// A batch as the contracts see it: each address with the bytes of its page.
pub open spec fn as_pending(batch: Seq<(u32, Page)>) -> Pending {
    Seq::new(batch.len(), |i: int| (batch[i].0, batch[i].1@))
}

impl TlModel {
    /// The physical block that serves logical block `block`.
    pub open spec fn phys(self, block: u32) -> u32 {
        phys_in(self.remap, block)
    }

    /// The physical page that serves logical page `lpa`.
    pub open spec fn page_addr(self, lpa: u32) -> int {
        page_addr_in(self.remap, lpa)
    }

    /// The geometry is sound, the anchors lie in the reserved region, the
    /// replacements are distinct blocks of the reserved region that serve
    /// nothing else, and every signature that the maps name lies within a
    /// block of the medium.
    pub open spec fn layout_ok(self) -> bool {
        &&& self.use_max < self.max
        &&& (self.max + 1) * 128 <= self.disk.len()
        &&& self.disk.len() <= u32::MAX
        &&& forall|i: int| 0 <= i < self.disk.len() ==> (#[trigger] self.disk[i]).len() == 4096
        &&& self.use_max < self.table_block <= self.max
        &&& self.use_max < self.sign_block <= self.max
        &&& self.table_block != self.sign_block
        &&& self.sign_offset % 32 == 0
        &&& self.sign_offset <= SIGN_ROLL
        &&& forall|b: u32| #[trigger]
            self.remap.contains_key(b) ==> {
                &&& b <= self.use_max
                &&& self.use_max < self.remap[b] <= self.max
                &&& self.remap[b] != self.table_block
                &&& self.remap[b] != self.sign_block
                &&& self.used.contains(self.remap[b])
            }
        &&& forall|b: u32, c: u32|
            self.remap.contains_key(b) && self.remap.contains_key(c) && b != c ==> #[trigger]
            self.remap[b] != #[trigger] self.remap[c]
        &&& forall|l: u32| #[trigger]
            self.sign_block_of.contains_key(l) <==> self.sign_offset_of.contains_key(l)
        &&& forall|l: u32| #[trigger]
            self.sign_block_of.contains_key(l) ==> self.sign_block_of[l] <= self.max
                && self.sign_offset_of[l] < SIGN_SLOTS
    }

    /// The writes in `entries` are full pages for distinct addresses of the
    /// user region.
    pub open spec fn accepts(self, entries: Pending) -> bool {
        &&& pending_distinct(entries)
        &&& forall|i: int|
            0 <= i < entries.len() ==> (#[trigger] entries[i]).0 / 128 <= self.use_max
                && entries[i].1.len() == 4096
    }

    /// The layout is sound, and fewer than a batch of writes, all to distinct
    /// pages of the user region, are pending.
    pub open spec fn inv(self) -> bool {
        &&& self.layout_ok()
        &&& self.pending.len() < 32
        &&& self.accepts(self.pending)
    }

    /// The signature of `lpa` lies where no write of the layer will reach it
    /// again: in a block of the reserved region that serves no logical block
    /// and is not the table block, below the occupied slots where that block
    /// still receives signatures, and in a block marked used otherwise.
    pub open spec fn signature_is_safe(self, lpa: u32) -> bool {
        let block = self.sign_block_of[lpa];
        &&& self.use_max < block
        &&& block != self.table_block
        &&& block == self.sign_block ==> self.sign_offset_of[lpa] < self.sign_offset
        &&& block != self.sign_block ==> self.used.contains(block)
        &&& forall|b: u32| self.remap.contains_key(b) ==> #[trigger] self.remap[b] != block
    }

    /// The signature of `lpa` matches the page on the medium: unless the page
    /// is blank, the signature is a CRC signature whose checksum is that of
    /// the page.
    pub open spec fn signature_matches(self, lpa: u32) -> bool {
        !is_zero_page(self.disk[self.page_addr(lpa)]) ==> stored_scheme(self.stored_signature(lpa))
            == CheckType::Crc32 && crc_verifies(
            self.disk[self.page_addr(lpa)],
            self.stored_signature(lpa),
        )
    }

    /// Every signed page lies in the user region, and its signature is safe
    /// and matches it.
    pub open spec fn seal_ok(self) -> bool {
        forall|l: u32| #[trigger]
            self.sign_block_of.contains_key(l) ==> l / 128 <= self.use_max && self.signature_is_safe(
                l,
            ) && self.signature_matches(l)
    }

    /// The state is sound and every signature matches its page: the state of
    /// a layer that started on a blank medium and was used within its
    /// contracts since.
    pub open spec fn sealed(self) -> bool {
        self.inv() && self.seal_ok()
    }

    /// What logical page `lpa` reads as: the pending write for it, or else
    /// the physical page that serves it.
    pub open spec fn logical_page(self, lpa: u32) -> Seq<u8> {
        match pending_get(self.pending, lpa) {
            Some(page) => page,
            None => self.disk[self.page_addr(lpa)],
        }
    }

    /// What the 128 pages of logical block `block` read as.
    pub open spec fn read_pages(self, block: u32) -> Seq<Seq<u8>> {
        Seq::new(128, |i: int| self.logical_page((block * 128 + i) as u32))
    }

    /// The signature on the medium that the maps name for `lpa`.
    pub open spec fn stored_signature(self, lpa: u32) -> Seq<u8> {
        let block = self.sign_block_of[lpa];
        let slot = self.sign_offset_of[lpa];
        self.disk[block * 128 + slot / 32].subrange((slot % 32) * 128, (slot % 32) * 128 + 128)
    }

    /// A read verifies `lpa`: nothing is pending for it, it has a signature,
    /// and its physical page is not blank.
    pub open spec fn is_checked(self, lpa: u32) -> bool {
        &&& !pending_contains(self.pending, lpa)
        &&& self.sign_block_of.contains_key(lpa)
        &&& !is_zero_page(self.disk[self.page_addr(lpa)])
    }

    /// A read verifies `lpa` and the page does not pass, or the signature is
    /// of the scheme that is not built.
    pub open spec fn fails_check(self, lpa: u32) -> bool {
        &&& self.is_checked(lpa)
        &&& (stored_scheme(self.stored_signature(lpa)) == CheckType::Ecc || !crc_verifies(
            self.disk[self.page_addr(lpa)],
            self.stored_signature(lpa),
        ))
    }

    /// Page `i` of `block` fails its check.
    pub open spec fn page_fails(self, block: u32, i: int) -> bool {
        self.fails_check((block * 128 + i) as u32)
    }

    /// Page `i` of `block` is the first that fails its check.
    pub open spec fn is_first_failure(self, block: u32, i: int) -> bool {
        &&& 0 <= i < 128
        &&& self.page_fails(block, i)
        &&& forall|j: int| 0 <= j < i ==> !#[trigger] self.page_fails(block, j)
    }

    /// Every page of `block` that a read verifies passes.
    pub open spec fn block_passes(self, block: u32) -> bool {
        forall|i: int| 0 <= i < 128 ==> !#[trigger] self.page_fails(block, i)
    }

    /// The first page of `block` that fails its check.
    pub open spec fn first_failure(self, block: u32) -> int {
        choose|i: int| self.is_first_failure(block, i)
    }

    /// `b` is free to become a replacement or the next signature block.
    pub open spec fn is_spare(self, b: u32) -> bool {
        &&& self.use_max < b < self.max
        &&& b != self.table_block
        &&& b != self.sign_block
        &&& !self.used.contains(b)
    }

    /// `b` is the lowest spare.
    pub open spec fn is_next_spare(self, b: u32) -> bool {
        &&& self.is_spare(b)
        &&& forall|c: u32| self.is_spare(c) ==> b <= c
    }

    /// Some block is spare.
    pub open spec fn has_spare(self) -> bool {
        exists|b: u32| self.is_spare(b)
    }

    /// The lowest spare.
    pub open spec fn next_spare(self) -> u32 {
        choose|b: u32| self.is_next_spare(b)
    }

    /// The mapping table as the mapping block lists it: by ascending logical
    /// block.
    pub open spec fn listing(self) -> Seq<(u32, u32)> {
        table_listing(self.remap, (self.use_max + 1) as nat)
    }

    /// The state after `block` was found bad and `spare` took its place: the
    /// table has the new entry, the spare is used, one more block counts as
    /// bad, and the mapping block is rewritten.
    pub open spec fn remapped(self, block: u32, spare: u32) -> TlModel {
        let remap = self.remap.insert(block, spare);
        TlModel {
            remap,
            used: self.used.insert(spare),
            err_block_num: (self.err_block_num + 1) as u32,
            disk: with_block_image(
                self.disk,
                self.table_block as int,
                table_image(table_listing(remap, (self.use_max + 1) as nat)),
            ),
            ..self
        }
    }

    /// The remap of `block` to `spare` can be recorded: the count of bad
    /// blocks is below the limit of its 32 bits, and the mapping block has
    /// room for the table with the new entry.
    pub open spec fn can_record(self, block: u32, spare: u32) -> bool {
        &&& self.err_block_num < u32::MAX
        &&& table_listing(self.remap.insert(block, spare), (self.use_max + 1) as nat).len()
            <= MAP_ENTRIES
    }

    /// What a read of `block` of the user region answers, and the state it
    /// leaves. The pages are returned as they read; and where a page fails its
    /// check, the block is remapped to the lowest spare first, unless the
    /// signature asks for the scheme that is not built, no spare is left, or
    /// the remap cannot be recorded.
    pub open spec fn read_result(self, block: u32) -> Result<(Seq<Seq<u8>>, TlModel), FlashError> {
        if self.block_passes(block) {
            Ok((self.read_pages(block), self))
        } else if stored_scheme(
            self.stored_signature((block * 128 + self.first_failure(block)) as u32),
        ) == CheckType::Ecc {
            Err(FlashError::UnimplementedScheme)
        } else if !self.has_spare() {
            Err(FlashError::NoSpareBlock)
        } else if !self.can_record(block, self.next_spare()) {
            Err(FlashError::RemapLimit)
        } else {
            Ok((self.read_pages(block), self.remapped(block, self.next_spare())))
        }
    }

    /// The signature block is full: the next batch opens a new one.
    pub open spec fn rolls_over(self) -> bool {
        self.sign_offset / 32 == 127
    }

    /// The state after `spare` became the signature block.
    pub open spec fn rolled(self, spare: u32) -> TlModel {
        TlModel {
            used: self.used.insert(self.sign_block),
            sign_block: spare,
            sign_offset: 0,
            ..self
        }
    }

    /// The physical page that receives the next signature page.
    pub open spec fn sign_page_addr(self) -> int {
        self.sign_block * 128 + self.sign_offset / 32
    }

    /// The state after the signatures of `entries` were written: one page of
    /// the signature block, 32 more slots occupied, and the maps pointing at
    /// them.
    pub open spec fn signed(self, entries: Pending) -> TlModel {
        TlModel {
            disk: self.disk.update(self.sign_page_addr(), sign_page(entries)),
            sign_block_of: note_blocks(self.sign_block_of, entries, 32, self.sign_block),
            sign_offset_of: note_offsets(self.sign_offset_of, entries, 32, self.sign_offset),
            sign_offset: (self.sign_offset + 32) as u32,
            ..self
        }
    }

    /// The state after the pages of `entries` were written to the medium.
    pub open spec fn stored(self, entries: Pending) -> TlModel {
        TlModel { disk: write_pages(self.disk, self.remap, entries, 32), ..self }
    }

    /// The state in which the batch `entries` is signed and written: after a
    /// roll-over to the lowest spare where the signature block is full.
    pub open spec fn ready_for_batch(self) -> TlModel {
        if self.rolls_over() {
            self.rolled(self.next_spare())
        } else {
            self
        }
    }

    /// The state after the batch `entries` was signed and written.
    pub open spec fn committed(self, entries: Pending) -> TlModel {
        self.ready_for_batch().signed(entries).stored(entries)
    }

    /// Every page that the batch `entries` writes is clean: the signature
    /// page and the 32 data pages.
    pub open spec fn batch_is_clean(self, entries: Pending) -> bool {
        let m = self.ready_for_batch();
        &&& is_zero_page(m.disk[m.sign_page_addr()])
        &&& forall|k: int|
            0 <= k < 32 ==> is_zero_page(#[trigger] m.disk[m.page_addr(entries[k].0)])
    }

    /// Why the batch cannot be committed under `scheme`, if it cannot.
    pub open spec fn batch_refusal(self, scheme: CheckType) -> Option<FlashError> {
        if scheme == CheckType::Ecc {
            Some(FlashError::UnimplementedScheme)
        } else if self.rolls_over() && !self.has_spare() {
            Some(FlashError::NoSpareBlock)
        } else {
            None
        }
    }

    /// The pending writes after one of `data` to `address`.
    pub open spec fn pending_after(self, address: u32, data: Seq<u8>) -> Pending {
        pending_put(self.pending, address, data)
    }

    /// The write of `address` completes a batch.
    pub open spec fn completes_batch(self, address: u32, data: Seq<u8>) -> bool {
        self.pending_after(address, data).len() >= 32
    }

    /// What a write of `data` to `address` of the user region leaves when
    /// `scheme` is selected. The write joins the pending ones; when it is the
    /// 32nd, the batch is committed and the buffer emptied, or the write is
    /// refused and nothing changes.
    pub open spec fn write_result(self, address: u32, data: Seq<u8>, scheme: CheckType) -> Result<
        TlModel,
        FlashError,
    > {
        let pending = self.pending_after(address, data);
        if !self.completes_batch(address, data) {
            Ok(TlModel { pending, ..self })
        } else {
            match self.batch_refusal(scheme) {
                Some(e) => Err(e),
                None => Ok(TlModel { pending: Seq::empty(), ..self.committed(pending) }),
            }
        }
    }

    /// A write of `data` to `address` meets the write-once rule: where it
    /// completes a batch that can be committed, every page that the batch
    /// writes is clean.
    pub open spec fn write_is_clean(self, address: u32, data: Seq<u8>) -> bool {
        self.completes_batch(address, data) && !(self.rolls_over() && !self.has_spare())
            ==> self.batch_is_clean(self.pending_after(address, data))
    }

    /// The state after the first `g` groups of a direct write of `block`.
    pub open spec fn direct_committed(self, block: u32, pages: Seq<Seq<u8>>, g: nat) -> TlModel
        decreases g,
    {
        if g == 0 {
            self
        } else {
            self.direct_committed(block, pages, (g - 1) as nat).committed(
                direct_group(block, pages, g - 1),
            )
        }
    }

    /// One of the first `g` groups of a direct write finds the signature
    /// block full: the slots that they take reach past its last usable page.
    pub open spec fn direct_rolls_over(self, g: nat) -> bool {
        self.sign_offset + 32 * g > SIGN_ROLL
    }

    /// What a direct write of the 128 `pages` to `block` leaves when `scheme`
    /// is selected: four batches committed in order, the buffer untouched; or
    /// a refusal, and nothing changes.
    pub open spec fn direct_result(self, block: u32, pages: Seq<Seq<u8>>, scheme: CheckType) -> Result<
        TlModel,
        FlashError,
    > {
        if scheme == CheckType::Ecc {
            Err(FlashError::UnimplementedScheme)
        } else if self.direct_rolls_over(4) && !self.has_spare() {
            Err(FlashError::NoSpareBlock)
        } else {
            Ok(self.direct_committed(block, pages, 4))
        }
    }

    /// The physical page that receives the signatures of group `g` (0 to 3)
    /// of a direct write that starts in this state: the next pages of the
    /// signature block, and from the roll-over on the first pages of the
    /// lowest spare.
    pub open spec fn direct_sign_addr(self, g: int) -> int {
        let slot = self.sign_offset + 32 * g;
        if slot < SIGN_ROLL {
            self.sign_block * 128 + slot / 32
        } else {
            self.next_spare() * 128 + (slot - SIGN_ROLL) / 32
        }
    }

    /// A direct write to `block` that starts in this state finds every page
    /// that it writes clean: the four signature pages that it takes, and the
    /// 128 pages of the physical block that serves `block`.
    pub open spec fn direct_starts_clean(self, block: u32) -> bool {
        !(self.direct_rolls_over(4) && !self.has_spare()) ==> {
            &&& is_zero_page(self.disk[self.direct_sign_addr(0)])
            &&& is_zero_page(self.disk[self.direct_sign_addr(1)])
            &&& is_zero_page(self.disk[self.direct_sign_addr(2)])
            &&& is_zero_page(self.disk[self.direct_sign_addr(3)])
            &&& forall|i: int|
                0 <= i < 128 ==> is_zero_page(#[trigger] self.disk[self.phys(block) * 128 + i])
        }
    }

    /// The first `g` groups of a direct write to `block` that starts in this
    /// state write the physical page `a`.
    pub open spec fn direct_touched(self, block: u32, g: int, a: int) -> bool {
        ||| g > 0 && a == self.direct_sign_addr(0)
        ||| g > 1 && a == self.direct_sign_addr(1)
        ||| g > 2 && a == self.direct_sign_addr(2)
        ||| g > 3 && a == self.direct_sign_addr(3)
        ||| self.phys(block) * 128 <= a < self.phys(block) * 128 + 32 * g
    }

    /// A direct write of `pages` to `block` meets the write-once rule: each of
    /// its four batches finds its pages clean when its turn comes.
    pub open spec fn direct_is_clean(self, block: u32, pages: Seq<Seq<u8>>) -> bool {
        !(self.direct_rolls_over(4) && !self.has_spare()) ==> forall|
            g: nat,
        |
            g < 4 ==> (#[trigger] self.direct_committed(block, pages, g)).batch_is_clean(
                direct_group(block, pages, g as int),
            )
    }

    /// The state after an erase of `block`: its pending writes are dropped,
    /// its signatures forgotten, and the physical block that serves it zeroed.
    pub open spec fn erased_block(self, block: u32) -> TlModel {
        TlModel {
            pending: discard_range(self.pending, (block * 128) as u32, 128),
            sign_block_of: self.sign_block_of.remove_keys(block_lpas(block)),
            sign_offset_of: self.sign_offset_of.remove_keys(block_lpas(block)),
            disk: erased(self.disk, self.phys(block) as int),
            ..self
        }
    }

    /// The state after the first `k` entries of the mapping block `block`
    /// were taken over.
    pub open spec fn with_mappings(self, block: Seq<Seq<u8>>, k: nat) -> TlModel
        decreases k,
    {
        if k == 0 {
            self
        } else {
            let m = self.with_mappings(block, (k - 1) as nat);
            let entry = map_entry(block, k - 1);
            TlModel { remap: m.remap.insert(entry.0, entry.1), used: m.used.insert(entry.1), ..m }
        }
    }

    /// The state after the first `k` signatures of the signature block
    /// `block`, which is physical block `block_no`, were taken over.
    pub open spec fn with_signatures(self, block: Seq<Seq<u8>>, block_no: u32, k: nat) -> TlModel
        decreases k,
    {
        if k == 0 {
            self
        } else {
            let m = self.with_signatures(block, block_no, (k - 1) as nat);
            let lpa = stored_lpa(sign_slot(block, k - 1));
            TlModel {
                sign_block_of: m.sign_block_of.insert(lpa, block_no),
                sign_offset_of: m.sign_offset_of.insert(lpa, (k - 1) as u32),
                ..m
            }
        }
    }

    /// The state after the reserved block `block_no` was examined at start-up.
    /// A mapping block gives its entries and becomes the table block; a
    /// signature block gives its signatures and becomes the signature block;
    /// any other leaves the state as it is.
    pub open spec fn scanned_block(self, block_no: u32) -> TlModel {
        let block = block_pages(self.disk, block_no as int);
        match block_type_of(block) {
            BlockType::MappingTable => {
                let m = self.with_mappings(block, map_entry_count(block) as nat);
                TlModel { used: m.used.insert(block_no), table_block: block_no, ..m }
            },
            BlockType::Signature => {
                let n = sign_slot_count(block);
                let m = self.with_signatures(block, block_no, n as nat);
                TlModel {
                    used: m.used.insert(block_no),
                    sign_block: block_no,
                    sign_offset: n as u32,
                    ..m
                }
            },
            _ => self,
        }
    }

    /// The state after the first `n` blocks of the reserved region were
    /// examined, lowest first.
    pub open spec fn scanned(self, n: nat) -> TlModel
        decreases n,
    {
        if n == 0 {
            self
        } else {
            self.scanned((n - 1) as nat).scanned_block((self.use_max + n) as u32)
        }
    }

    /// The state after start-up: every block of the reserved region examined.
    pub open spec fn started(self) -> TlModel {
        if self.use_max < self.max {
            self.scanned((self.max - self.use_max) as nat)
        } else {
            self
        }
    }

    /// Every page of the user region but `lpa` reads in `after` as it reads
    /// in this state.
    pub open spec fn same_but_page(self, after: TlModel, lpa: u32) -> bool {
        forall|l: u32|
            l != lpa && l / 128 <= self.use_max ==> #[trigger] after.logical_page(l)
                == self.logical_page(l)
    }

    /// Every page of the user region outside `block` reads in `after` as it
    /// reads in this state.
    pub open spec fn same_but_block(self, after: TlModel, block: u32) -> bool {
        forall|l: u32|
            l / 128 != block && l / 128 <= self.use_max ==> #[trigger] after.logical_page(l)
                == self.logical_page(l)
    }

    /// Every page of `block` reads as a blank page.
    pub open spec fn block_is_blank(self, block: u32) -> bool {
        forall|i: int| 0 <= i < 128 ==> is_zero_page(#[trigger] self.read_pages(block)[i])
    }

    /// No write is pending for a page of `block`.
    pub open spec fn block_is_settled(self, block: u32) -> bool {
        forall|l: u32| block_lpas(block).contains(l) ==> !#[trigger] pending_contains(self.pending, l)
    }

    /// A write of `data` to `address` under `scheme` answered `r` and left
    /// `post`, as `write_result` says.
    pub open spec fn write_holds(
        self,
        address: u32,
        data: Seq<u8>,
        scheme: CheckType,
        r: Result<(), FlashError>,
        post: TlModel,
    ) -> bool {
        match self.write_result(address, data, scheme) {
            Ok(m) => r is Ok && post == m,
            Err(e) => r is Err && r->Err_0 == e && post == self,
        }
    }

    /// A direct write of `pages` to `block` under `scheme` answered `r` and
    /// left `post`, as `direct_result` says.
    pub open spec fn direct_holds(
        self,
        block: u32,
        pages: Seq<Seq<u8>>,
        scheme: CheckType,
        r: Result<(), FlashError>,
        post: TlModel,
    ) -> bool {
        match self.direct_result(block, pages, scheme) {
            Ok(m) => r is Ok && post == m,
            Err(e) => r is Err && r->Err_0 == e && post == self,
        }
    }
}

} // verus!
