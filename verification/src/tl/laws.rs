//! What holds of the translation layer across its operations, stated over
//! the model and proved from its definitions.

use vstd::prelude::*;
use crate::error::FlashError;
use crate::driver::fake_disk::{block_pages, erased};
use crate::tl::tl_helper::{BlockType, block_type_of, has_mapping_magic};
use crate::tl::check_center::{
    CheckType,
    crc_signature,
    stored_crc,
    stored_lpa,
    lemma_sign_then_check,
};
use crate::util::crc32::crc32c;
use crate::tl::lemmas::{
    batch_has,
    lemma_batch_places,
    lemma_note_values,
    lemma_discard_range,
    lemma_erased_inv,
    lemma_least_spare,
    lemma_page_addr_distinct,
    lemma_page_addr_in_range,
    lemma_phys_in_range,
    lemma_phys_injective,
    lemma_put_accepts,
    lemma_signed_layout,
    lemma_write_pages_frame,
    lemma_write_pages_lands,
};
use crate::tl::model::{
    TlModel,
    MAP_ENTRIES,
    SIGN_ROLL,
    is_blank_slot,
    is_map_entry_count,
    sign_slot,
    map_entry,
    map_entry_count,
    table_image,
    table_listing,
    with_block_image,
    block_lpas,
    direct_group,
    note_blocks,
    note_offsets,
    discard_range,
    sign_page,
    };
use crate::util::page::{be32, be_byte, is_zero_page, lemma_be32_round_trip, zero_page};
use crate::write_buf::{
    Pending,
    lemma_pending_index_unique,
    lemma_pending_put_elements,
    pending_contains,
    pending_get,
    pending_index,
    };

verus! {

/// A page that is pending reads as the pending write, whatever the medium
/// holds.
pub proof fn lemma_pending_page_reads_back(m: TlModel, lpa: u32)
    requires
        pending_contains(m.pending, lpa),
    ensures
        Some(m.logical_page(lpa)) == pending_get(m.pending, lpa),
        forall|other: TlModel| other.pending == m.pending ==> other.logical_page(lpa) == m.logical_page(lpa),
        m.read_pages(lpa / 128)[(lpa % 128) as int] == m.logical_page(lpa),
{
    assert((lpa / 128 * 128 + lpa % 128) as u32 == lpa);
}

/// A read of a block of the user region hands out each page as it reads; and
/// it changes the state only where a page fails its check.
pub proof fn lemma_read_hands_out_logical_pages(m: TlModel, block: u32)
    requires
        m.read_result(block) is Ok,
    ensures
        m.read_result(block)->Ok_0.0 == m.read_pages(block),
        forall|i: int|
            0 <= i < 128 ==> #[trigger] m.read_pages(block)[i] == m.logical_page((block * 128 + i) as u32),
        m.block_passes(block) ==> m.read_result(block)->Ok_0.1 == m,
{
}

/// After a write that was accepted, the page reads as what was written:
/// from the buffer while it waits there, from the medium once its batch is
/// committed.
pub proof fn lemma_write_then_read(m: TlModel, lpa: u32, data: Seq<u8>, scheme: CheckType)
    requires
        m.inv(),
        lpa / 128 <= m.use_max,
        data.len() == 4096,
        m.write_result(lpa, data, scheme) is Ok,
    ensures
        m.write_result(lpa, data, scheme)->Ok_0.logical_page(lpa) == data,
{
    let after = m.write_result(lpa, data, scheme)->Ok_0;
    let pending = m.pending_after(lpa, data);
    lemma_put_accepts(m, lpa, data);
    lemma_pending_put_elements(m.pending, lpa, data);
    let k = pending_index(pending, lpa);
    assert(pending[k].0 == lpa);
    assert(pending[k] == (lpa, data)) by {
        if pending_contains(m.pending, lpa) {
            let j = pending_index(m.pending, lpa);
            lemma_pending_index_unique(pending, lpa, j);
        } else {
            lemma_pending_index_unique(pending, lpa, m.pending.len() as int);
        }
    }
    if m.completes_batch(lpa, data) {
        lemma_commit_footprint(m, pending);
        assert(after.pending.len() == 0);
        assert(!pending_contains(after.pending, lpa));
        assert(after.page_addr(lpa) == m.page_addr(pending[k].0));
    }
}

/// What committing a batch does to the medium and to the slot count: one
/// signature page is written, and the 32 pages of the batch, each to its own
/// place; no other page changes; and 32 more slots are occupied, counted from
/// zero where a new signature block was opened.
pub proof fn lemma_commit_footprint(m: TlModel, entries: Pending)
    requires
        m.layout_ok(),
        m.accepts(entries),
        entries.len() == 32,
        m.rolls_over() ==> m.has_spare(),
    ensures
        m.committed(entries).disk.len() == m.disk.len(),
        m.committed(entries).disk[m.ready_for_batch().sign_page_addr()] == sign_page(entries),
        forall|k: int|
            0 <= k < 32 ==> m.committed(entries).disk[m.page_addr((#[trigger] entries[k]).0)]
                == entries[k].1,
        forall|k: int|
            0 <= k < 32 ==> m.page_addr((#[trigger] entries[k]).0)
                != m.ready_for_batch().sign_page_addr(),
        forall|j: int, k: int|
            0 <= j < k < 32 ==> m.page_addr((#[trigger] entries[j]).0) != m.page_addr(
                (#[trigger] entries[k]).0,
            ),
        forall|a: int|
            0 <= a < m.disk.len() && a != m.ready_for_batch().sign_page_addr() && (forall|k: int|
                0 <= k < 32 ==> m.page_addr((#[trigger] entries[k]).0) != a)
                ==> #[trigger] m.committed(entries).disk[a] == m.disk[a],
        m.committed(entries).sign_offset == (if m.rolls_over() {
            32
        } else {
            m.sign_offset + 32
        }),
        m.committed(entries).remap == m.remap,
        m.committed(entries).pending == m.pending,
        forall|l: u32| m.committed(entries).page_addr(l) == m.page_addr(l),
{
    if m.rolls_over() {
        let b = choose|b: u32| m.is_spare(b);
        lemma_least_spare(m, b);
    }
    let spare = m.next_spare();
    lemma_signed_layout(m, entries, spare);
    let r = m.ready_for_batch();
    let s = r.signed(entries);
    let c = s.stored(entries);
    lemma_batch_places(s, entries);
    lemma_write_pages_frame(s.disk, s.remap, entries, 32);
    lemma_write_pages_lands(s.disk, s.remap, entries, 32);
    assert forall|k: int| 0 <= k < 32 implies m.page_addr((#[trigger] entries[k]).0)
        != r.sign_page_addr() by {
        assert(s.page_addr(entries[k].0) / 128 != s.sign_block);
    }
    assert forall|a: int|
        0 <= a < m.disk.len() && a != r.sign_page_addr() && (forall|k: int|
            0 <= k < 32 ==> m.page_addr((#[trigger] entries[k]).0) != a) implies #[trigger] c.disk[a]
        == m.disk[a] by {
        assert forall|j: int| 0 <= j < 32 implies crate::tl::model::page_addr_in(
            s.remap,
            (#[trigger] entries[j]).0,
        ) != a by {
            assert(m.page_addr(entries[j].0) != a);
        }
        assert(c.disk[a] == s.disk[a]);
    }
    assert(c.disk[r.sign_page_addr()] == s.disk[r.sign_page_addr()]) by {
        assert forall|j: int| 0 <= j < 32 implies crate::tl::model::page_addr_in(
            s.remap,
            (#[trigger] entries[j]).0,
        ) != r.sign_page_addr() by {
            assert(m.page_addr(entries[j].0) != r.sign_page_addr());
        }
    }
}

/// A write that was accepted leaves every other page of the user region
/// reading as before.
pub proof fn lemma_write_keeps_other_pages(
    m: TlModel,
    address: u32,
    data: Seq<u8>,
    scheme: CheckType,
    lpa: u32,
)
    requires
        m.inv(),
        address / 128 <= m.use_max,
        data.len() == 4096,
        m.write_result(address, data, scheme) is Ok,
        lpa != address,
        lpa / 128 <= m.use_max,
    ensures
        m.write_result(address, data, scheme)->Ok_0.logical_page(lpa) == m.logical_page(lpa),
{
    let after = m.write_result(address, data, scheme)->Ok_0;
    let pending = m.pending_after(address, data);
    lemma_put_accepts(m, address, data);
    lemma_pending_put_elements(m.pending, address, data);
    lemma_page_addr_in_range(m, lpa);
    // what is pending for `lpa` is the same before and after the put
    assert(pending_contains(pending, lpa) <==> pending_contains(m.pending, lpa)) by {
        if pending_contains(pending, lpa) {
            let i = pending_index(pending, lpa);
            assert(pending[i] == m.pending[i]);
        }
        if pending_contains(m.pending, lpa) {
            let i = pending_index(m.pending, lpa);
            if pending_contains(m.pending, address) {
                let j = pending_index(m.pending, address);
                assert(i != j);
                assert(pending[i] == m.pending[i]);
            } else {
                assert(pending[i] == m.pending[i]);
            }
        }
    }
    if pending_contains(m.pending, lpa) {
        let i = pending_index(m.pending, lpa);
        assert(pending[i] == m.pending[i]) by {
            if pending_contains(m.pending, address) {
                let j = pending_index(m.pending, address);
                assert(i != j);
            }
        }
        lemma_pending_index_unique(pending, lpa, i);
    }
    assert(pending_get(pending, lpa) == pending_get(m.pending, lpa));
    if m.completes_batch(address, data) {
        lemma_commit_footprint(m, pending);
        assert(!pending_contains(after.pending, lpa));
        if pending_contains(pending, lpa) {
            let i = pending_index(pending, lpa);
            assert(pending[i].0 == lpa);
        } else {
            if m.rolls_over() {
                let b = choose|b: u32| m.is_spare(b);
                lemma_least_spare(m, b);
            }
            lemma_phys_in_range(m, lpa / 128);
            assert(m.page_addr(lpa) / 128 != m.ready_for_batch().sign_block);
            lemma_signed_layout(m, pending, m.next_spare());
            assert forall|k: int| 0 <= k < 32 implies m.page_addr((#[trigger] pending[k]).0)
                != m.page_addr(lpa) by {
                assert(pending[k].0 != lpa);
                lemma_page_addr_distinct(m, pending[k].0, lpa);
            }
        }
    }
}

/// After an erase, every page of the block reads as zero, none of its pages
/// is pending, and a read of the block finds nothing to verify.
pub proof fn lemma_erase_then_read(m: TlModel, block: u32)
    requires
        m.inv(),
        block <= m.use_max,
    ensures
        forall|i: int|
            0 <= i < 128 ==> is_zero_page(#[trigger] m.erased_block(block).read_pages(block)[i]),
        forall|l: u32|
            block_lpas(block).contains(l) ==> !#[trigger] pending_contains(
                m.erased_block(block).pending,
                l,
            ),
        m.erased_block(block).block_passes(block),
        m.erased_block(block).read_result(block) == Ok::<(Seq<Seq<u8>>, TlModel), FlashError>(
            (m.erased_block(block).read_pages(block), m.erased_block(block)),
        ),
{
    let e = m.erased_block(block);
    lemma_phys_in_range(m, block);
    lemma_discard_range(m.pending, (block * 128) as u32, 128);
    assert forall|i: int| 0 <= i < 128 implies is_zero_page(#[trigger] e.read_pages(block)[i]) by {
        let l = (block * 128 + i) as u32;
        assert(!pending_contains(e.pending, l));
        lemma_page_addr_in_range(m, l);
        assert(e.page_addr(l) == m.phys(block) * 128 + i);
    }
    assert forall|i: int| 0 <= i < 128 implies !#[trigger] e.page_fails(block, i) by {
        let l = (block * 128 + i) as u32;
        assert(block_lpas(block).contains(l));
    }
}

/// An erase leaves every page of the other blocks of the user region reading
/// as before.
pub proof fn lemma_erase_keeps_other_blocks(m: TlModel, block: u32, lpa: u32)
    requires
        m.inv(),
        block <= m.use_max,
        lpa / 128 <= m.use_max,
        lpa / 128 != block,
    ensures
        m.erased_block(block).logical_page(lpa) == m.logical_page(lpa),
{
    let e = m.erased_block(block);
    lemma_phys_in_range(m, block);
    lemma_phys_injective(m, block, lpa / 128);
    lemma_page_addr_in_range(m, lpa);
    lemma_discard_range(m.pending, (block * 128) as u32, 128);
}

/// Where no address of a range is pending, dropping the range changes
/// nothing.
pub proof fn lemma_discard_absent(buf: Pending, start: u32, k: nat)
    requires
        forall|a: u32| start <= a < start + k ==> !#[trigger] pending_contains(buf, a),
        start + k <= 0x1_0000_0000,
    ensures
        discard_range(buf, start, k) == buf,
    decreases k,
{
    if k > 0 {
        lemma_discard_absent(buf, start, (k - 1) as nat);
        assert(!pending_contains(buf, (start + k - 1) as u32));
    }
}

/// Erasing a block twice leaves what erasing it once leaves.
pub proof fn lemma_erase_idempotent(m: TlModel, block: u32)
    requires
        m.inv(),
        block <= m.use_max,
    ensures
        m.erased_block(block).erased_block(block) == m.erased_block(block),
{
    let e = m.erased_block(block);
    let ee = e.erased_block(block);
    lemma_phys_in_range(m, block);
    lemma_discard_range(m.pending, (block * 128) as u32, 128);
    lemma_discard_absent(e.pending, (block * 128) as u32, 128);
    assert(ee.sign_block_of =~= e.sign_block_of);
    assert(ee.sign_offset_of =~= e.sign_offset_of);
    assert(ee.disk =~= e.disk);
}

/// The slot count of the signature block moves only when a batch is
/// committed: then it grows by 32, or, where it stood at the roll-over mark,
/// starts again in a new block and stands at 32. Between roll-overs it only
/// grows, and it never passes the mark. A write that completes no batch, an
/// erase and a remap leave it as it is.
pub proof fn lemma_sign_offset_steps(m: TlModel, entries: Pending, block: u32)
    requires
        m.inv(),
    ensures
        forall|address: u32, data: Seq<u8>, scheme: CheckType|
            m.write_result(address, data, scheme) is Ok && !m.completes_batch(address, data)
                ==> (#[trigger] m.write_result(address, data, scheme))->Ok_0.sign_offset
                == m.sign_offset && m.write_result(address, data, scheme)->Ok_0.sign_block
                == m.sign_block,
        forall|address: u32, data: Seq<u8>, scheme: CheckType|
            m.write_result(address, data, scheme) is Ok && m.completes_batch(address, data)
                ==> (#[trigger] m.write_result(address, data, scheme))->Ok_0.sign_offset
                == m.committed(m.pending_after(address, data)).sign_offset,
        m.rolls_over() <==> m.sign_offset == SIGN_ROLL,
        !m.rolls_over() ==> m.committed(entries).sign_offset == m.sign_offset + 32
            && m.committed(entries).sign_offset <= SIGN_ROLL && m.committed(entries).sign_block
            == m.sign_block,
        m.rolls_over() ==> m.committed(entries).sign_offset == 32 && m.committed(
            entries,
        ).sign_block == m.next_spare(),
        m.erased_block(block).sign_offset == m.sign_offset,
        m.erased_block(block).sign_block == m.sign_block,
        forall|spare: u32| #[trigger]
            m.remapped(block, spare).sign_offset == m.sign_offset && m.remapped(
                block,
                spare,
            ).sign_block == m.sign_block,
{
}

/// In a sealed state every page that a read verifies passes: its checksum is
/// the one that its signature stores. So a read of a block of the user
/// region hands out the pages and changes nothing.
pub proof fn lemma_sealed_reads_pass(m: TlModel, block: u32)
    requires
        m.sealed(),
        block <= m.use_max,
    ensures
        m.block_passes(block),
        m.read_result(block) == Ok::<(Seq<Seq<u8>>, TlModel), FlashError>(
            (m.read_pages(block), m),
        ),
        forall|l: u32|
            m.sign_block_of.contains_key(l) && !is_zero_page(m.disk[m.page_addr(l)]) ==> crc32c(
                m.disk[m.page_addr(l)],
            ) == stored_crc(#[trigger] m.stored_signature(l)),
{
    assert forall|i: int| 0 <= i < 128 implies !#[trigger] m.page_fails(block, i) by {
        let l = (block * 128 + i) as u32;
        if m.sign_block_of.contains_key(l) {
            assert(m.signature_matches(l));
        }
    }
    assert forall|l: u32|
        m.sign_block_of.contains_key(l) && !is_zero_page(m.disk[m.page_addr(l)]) implies crc32c(
        m.disk[m.page_addr(l)],
    ) == stored_crc(#[trigger] m.stored_signature(l)) by {
        assert(m.signature_matches(l));
    }
}

/// Committing a batch whose pages are clean keeps every signature safe and
/// matching: those of the batch are new and made from its pages, and no other
/// signature or signed page is touched.
pub proof fn lemma_commit_keeps_seal(m: TlModel, entries: Pending)
    requires
        m.layout_ok(),
        m.seal_ok(),
        m.accepts(entries),
        entries.len() == 32,
        m.rolls_over() ==> m.has_spare(),
    ensures
        m.committed(entries).layout_ok(),
        m.committed(entries).seal_ok(),
{
    if m.rolls_over() {
        let b = choose|b: u32| m.is_spare(b);
        lemma_least_spare(m, b);
    }
    let spare = m.next_spare();
    lemma_signed_layout(m, entries, spare);
    lemma_commit_footprint(m, entries);
    crate::tl::lemmas::lemma_committed_layout(m, entries, spare);
    let r = m.ready_for_batch();
    let c = m.committed(entries);
    lemma_note_values(r.sign_block_of, r.sign_offset_of, entries, 32, r.sign_block, r.sign_offset);
    lemma_batch_places(m, entries);
    assert(c.sign_block_of == note_blocks(r.sign_block_of, entries, 32, r.sign_block));
    assert(c.sign_offset_of == note_offsets(r.sign_offset_of, entries, 32, r.sign_offset));
    assert forall|l: u32| #[trigger] c.sign_block_of.contains_key(l) implies l / 128 <= c.use_max
        && c.signature_is_safe(l) && c.signature_matches(l) by {
        if batch_has(entries, 32, l) {
            let j = choose|j: int| 0 <= j < 32 && (#[trigger] entries[j]).0 == l;
            assert(entries[j].0 == l);
            let slot = (r.sign_offset + j) as u32;
            assert(c.sign_block_of[l] == r.sign_block);
            assert(c.sign_offset_of[l] == slot);
            assert(slot / 32 == r.sign_offset / 32);
            assert(slot % 32 == j);
            assert(c.disk[r.sign_block * 128 + slot / 32] == sign_page(entries));
            assert(c.stored_signature(l) =~= crc_signature(crc32c(entries[j].1), l)) by {
                let sig = c.stored_signature(l);
                assert forall|i: int| 0 <= i < 128 implies sig[i] == crc_signature(
                    crc32c(entries[j].1),
                    l,
                )[i] by {
                    assert((j * 128 + i) / 128 == j);
                    assert((j * 128 + i) % 128 == i);
                }
            }
            lemma_sign_then_check(entries[j].1, l);
            assert(c.disk[c.page_addr(l)] == entries[j].1);
        } else {
            assert(m.sign_block_of.contains_key(l));
            assert(m.signature_is_safe(l) && m.signature_matches(l));
            let block = m.sign_block_of[l];
            let slot = m.sign_offset_of[l];
            assert(c.sign_block_of[l] == block);
            assert(m.sign_offset_of.contains_key(l));
            assert(c.sign_offset_of[l] == slot);
            lemma_page_addr_in_range(m, l);
            lemma_phys_in_range(m, l / 128);
            // the page of `l` is not one that the batch writes
            assert forall|k: int| 0 <= k < 32 implies m.page_addr((#[trigger] entries[k]).0)
                != m.page_addr(l) by {
                assert(entries[k].0 != l);
                lemma_page_addr_distinct(m, entries[k].0, l);
            }
            assert(m.page_addr(l) != r.sign_page_addr()) by {
                assert(m.page_addr(l) / 128 == m.phys(l / 128));
            }
            assert(c.disk[m.page_addr(l)] == m.disk[m.page_addr(l)]);
            // nor is the page that holds its signature
            let at = block * 128 + slot / 32;
            assert(0 <= at < m.disk.len()) by {
                assert(block <= m.max);
                assert(slot < 4096);
            }
            assert(at / 128 == block);
            assert forall|k: int| 0 <= k < 32 implies m.page_addr((#[trigger] entries[k]).0)
                != at by {
                lemma_phys_in_range(m, entries[k].0 / 128);
                lemma_page_addr_in_range(m, entries[k].0);
                if m.remap.contains_key(entries[k].0 / 128) {
                    assert(m.remap[entries[k].0 / 128] != block);
                }
            }
            assert(at != r.sign_page_addr()) by {
                if block == r.sign_block {
                    assert(!m.rolls_over());
                    assert(slot < m.sign_offset);
                    assert(slot / 32 < m.sign_offset / 32);
                }
            }
            assert(c.disk[at] == m.disk[at]);
            assert(c.stored_signature(l) == m.stored_signature(l));
        }
    }
}

/// A write that was accepted, with clean pages for the batch that it may
/// complete, keeps the state sealed.
pub proof fn lemma_write_keeps_sealed(m: TlModel, address: u32, data: Seq<u8>, scheme: CheckType)
    requires
        m.sealed(),
        address / 128 <= m.use_max,
        data.len() == 4096,
        m.write_result(address, data, scheme) is Ok,
    ensures
        m.write_result(address, data, scheme)->Ok_0.sealed(),
{
    let after = m.write_result(address, data, scheme)->Ok_0;
    let pending = m.pending_after(address, data);
    lemma_put_accepts(m, address, data);
    if m.completes_batch(address, data) {
        lemma_commit_keeps_seal(m, pending);
        let c = m.committed(pending);
        assert(after.seal_ok()) by {
            assert forall|l: u32| #[trigger] after.sign_block_of.contains_key(l) implies l / 128
                <= after.use_max && after.signature_is_safe(l) && after.signature_matches(l) by {
                assert(c.signature_is_safe(l) && c.signature_matches(l));
            }
        }
    } else {
        assert forall|l: u32| #[trigger] after.sign_block_of.contains_key(l) implies l / 128
            <= after.use_max && after.signature_is_safe(l) && after.signature_matches(l) by {
            assert(m.signature_is_safe(l) && m.signature_matches(l));
        }
    }
}

/// An erase of a block of the user region keeps the state sealed.
pub proof fn lemma_erase_keeps_sealed(m: TlModel, block: u32)
    requires
        m.sealed(),
        block <= m.use_max,
    ensures
        m.erased_block(block).sealed(),
{
    let e = m.erased_block(block);
    lemma_erased_inv(m, block);
    lemma_phys_in_range(m, block);
    assert forall|l: u32| #[trigger] e.sign_block_of.contains_key(l) implies l / 128 <= e.use_max
        && e.signature_is_safe(l) && e.signature_matches(l) by {
        assert(m.sign_block_of.contains_key(l));
        assert(!block_lpas(block).contains(l));
        assert(l / 128 != block);
        assert(m.signature_is_safe(l) && m.signature_matches(l));
        assert(m.sign_offset_of.contains_key(l));
        lemma_phys_injective(m, block, l / 128);
        lemma_page_addr_in_range(m, l);
        let sign_block = m.sign_block_of[l];
        let at = sign_block * 128 + m.sign_offset_of[l] / 32;
        assert(at / 128 == sign_block);
        assert(sign_block != m.phys(block)) by {
            if m.remap.contains_key(block) {
                assert(m.remap[block] != sign_block);
            }
        }
        assert(sign_block <= m.max);
        assert(0 <= at < m.disk.len());
        assert(e.disk[at] == m.disk[at]);
        assert(e.disk[m.page_addr(l)] == m.disk[m.page_addr(l)]);
    }
}

/// The first `g` groups of a direct write whose pages are clean keep the
/// state sealed.
pub proof fn lemma_direct_keeps_sealed(m: TlModel, block: u32, pages: Seq<Seq<u8>>, g: nat)
    requires
        m.sealed(),
        block <= m.use_max,
        pages.len() == 128,
        forall|i: int| 0 <= i < 128 ==> (#[trigger] pages[i]).len() == 4096,
        g <= 4,
        m.direct_rolls_over(4) ==> m.has_spare(),
    ensures
        m.direct_committed(block, pages, g).sealed(),
        m.direct_committed(block, pages, g).use_max == m.use_max,
        m.direct_committed(block, pages, g).pending == m.pending,
        m.direct_committed(block, pages, g).sign_offset + 32 * (4 - g) > SIGN_ROLL
            ==> m.direct_committed(block, pages, g).has_spare(),
    decreases g,
{
    if g > 0 {
        lemma_direct_keeps_sealed(m, block, pages, (g - 1) as nat);
        let before = m.direct_committed(block, pages, (g - 1) as nat);
        let entries = direct_group(block, pages, g - 1);
        lemma_phys_in_range(m, block);
        assert((block + 1) * 128 <= (m.max + 1) * 128);
        assert(before.accepts(entries)) by {
            assert forall|a: int, b: int| 0 <= a < b < entries.len() implies (#[trigger] entries[a]).0
                != (#[trigger] entries[b]).0 by {}
            assert forall|k: int| 0 <= k < entries.len() implies (#[trigger] entries[k]).0 / 128
                <= before.use_max && entries[k].1.len() == 4096 by {
                assert(entries[k].0 / 128 == block);
            }
        }
        lemma_commit_keeps_seal(before, entries);
        let after = before.committed(entries);
        lemma_commit_footprint(before, entries);
        if !before.rolls_over() {
            if after.sign_offset + 32 * (4 - g) > SIGN_ROLL {
                let b = choose|b: u32| before.is_spare(b);
                assert(after.is_spare(b));
            }
        }
    }
}

/// A direct write leaves every page of the other blocks of the user region
/// reading as before.
pub proof fn lemma_direct_keeps_other_blocks(
    m: TlModel,
    block: u32,
    pages: Seq<Seq<u8>>,
    g: nat,
    lpa: u32,
)
    requires
        m.inv(),
        block <= m.use_max,
        pages.len() == 128,
        forall|i: int| 0 <= i < 128 ==> (#[trigger] pages[i]).len() == 4096,
        g <= 4,
        m.direct_rolls_over(4) ==> m.has_spare(),
        lpa / 128 <= m.use_max,
        lpa / 128 != block,
    ensures
        m.direct_committed(block, pages, g).inv(),
        m.direct_committed(block, pages, g).remap == m.remap,
        m.direct_committed(block, pages, g).use_max == m.use_max,
        m.direct_committed(block, pages, g).sign_offset + 32 * (4 - g) > SIGN_ROLL
            ==> m.direct_committed(block, pages, g).has_spare(),
        m.direct_committed(block, pages, g).logical_page(lpa) == m.logical_page(lpa),
    decreases g,
{
    if g > 0 {
        lemma_direct_keeps_other_blocks(m, block, pages, (g - 1) as nat, lpa);
        let before = m.direct_committed(block, pages, (g - 1) as nat);
        let entries = direct_group(block, pages, g - 1);
        lemma_phys_in_range(m, block);
        assert((block + 1) * 128 <= (m.max + 1) * 128);
        assert(before.accepts(entries)) by {
            assert forall|a: int, b: int| 0 <= a < b < entries.len() implies (#[trigger] entries[a]).0
                != (#[trigger] entries[b]).0 by {}
            assert forall|k: int| 0 <= k < entries.len() implies (#[trigger] entries[k]).0 / 128
                <= before.use_max && entries[k].1.len() == 4096 by {
                assert(entries[k].0 / 128 == block);
            }
        }
        if before.rolls_over() {
            let b = choose|b: u32| before.is_spare(b);
            lemma_least_spare(before, b);
        }
        lemma_signed_layout(before, entries, before.next_spare());
        crate::tl::lemmas::lemma_committed_layout(before, entries, before.next_spare());
        lemma_commit_footprint(before, entries);
        let after = before.committed(entries);
        if !before.rolls_over() {
            if after.sign_offset + 32 * (4 - g) > SIGN_ROLL {
                let b = choose|b: u32| before.is_spare(b);
                assert(after.is_spare(b));
            }
        }
        lemma_page_addr_in_range(before, lpa);
        lemma_phys_in_range(before, lpa / 128);
        assert(before.page_addr(lpa) / 128 != before.ready_for_batch().sign_block);
        assert forall|k: int| 0 <= k < 32 implies before.page_addr((#[trigger] entries[k]).0)
            != before.page_addr(lpa) by {
            assert(entries[k].0 / 128 == block);
            lemma_page_addr_distinct(before, entries[k].0, lpa);
        }
    }
}

/// A block of blank pages carries no marker.
pub proof fn lemma_blank_block_is_unknown(disk: Seq<Seq<u8>>, block_no: int)
    requires
        0 <= block_no,
        (block_no + 1) * 128 <= disk.len(),
        is_zero_page(disk[block_no * 128]),
    ensures
        block_type_of(block_pages(disk, block_no)) == BlockType::Unknown,
{
    let block = block_pages(disk, block_no);
    assert(block[0] == disk[block_no * 128]);
    assert(zero_page()[0] == 0u8);
    assert(zero_page()[119] == 0u8);
}

/// Examining reserved blocks that carry no marker changes nothing.
pub proof fn lemma_scan_without_markers(m: TlModel, n: nat)
    requires
        m.use_max + n <= m.max,
        forall|k: nat|
            1 <= k <= n ==> block_type_of(
                #[trigger] block_pages(m.disk, (m.use_max + k) as int),
            ) == BlockType::Unknown,
    ensures
        m.scanned(n) == m,
    decreases n,
{
    if n > 0 {
        lemma_scan_without_markers(m, (n - 1) as nat);
        assert(block_type_of(block_pages(m.disk, (m.use_max + n) as int)) == BlockType::Unknown);
    }
}

/// Start-up on a medium whose reserved region is blank changes nothing.
pub proof fn lemma_start_on_blank_reserve(m: TlModel)
    requires
        m.use_max < m.max,
        (m.max + 1) * 128 <= m.disk.len(),
        forall|i: int|
            (m.use_max + 1) * 128 <= i < (m.max + 1) * 128 ==> is_zero_page(#[trigger] m.disk[i]),
    ensures
        m.started() == m,
{
    let n = (m.max - m.use_max) as nat;
    assert forall|k: nat| 1 <= k <= n implies block_type_of(
        #[trigger] block_pages(m.disk, (m.use_max + k) as int),
    ) == BlockType::Unknown by {
        let b = (m.use_max + k) as int;
        assert(is_zero_page(m.disk[b * 128]));
        lemma_blank_block_is_unknown(m.disk, b);
    }
    lemma_scan_without_markers(m, n);
}

/// The four zero bytes spell zero.
proof fn lemma_be32_zero()
    ensures
        be32(0, 0, 0, 0) == 0,
{
    assert((0u32 << 24) | (0u32 << 16) | (0u32 << 8) | 0u32 == 0u32) by (bit_vector);
}

/// Byte `r` of entry `k` in the image of a mapping block.
proof fn lemma_image_byte(listing: Seq<(u32, u32)>, k: int, r: int)
    requires
        0 <= k < MAP_ENTRIES,
        0 <= r < 8,
    ensures
        table_image(listing)[8 + 8 * k + r] == (if k < listing.len() {
            if r < 4 {
                be_byte(listing[k].0, r)
            } else {
                be_byte(listing[k].1, r - 4)
            }
        } else {
            0u8
        }),
{
    let i = 8 + 8 * k + r;
    assert((i - 8) / 8 == k);
    assert((i - 8) % 8 == r);
}

/// What the layer writes into the mapping block, start-up reads back: the
/// block carries the marker of a mapping table, its entries are those of the
/// listing, in order, and it lists no more.
pub proof fn lemma_table_image_reads_back(
    disk: Seq<Seq<u8>>,
    block_no: int,
    listing: Seq<(u32, u32)>,
)
    requires
        0 <= block_no,
        (block_no + 1) * 128 <= disk.len(),
        listing.len() <= MAP_ENTRIES,
        forall|k: int| 0 <= k < listing.len() ==> #[trigger] listing[k] != (0u32, 0u32),
    ensures
        has_mapping_magic(
            block_pages(with_block_image(disk, block_no, table_image(listing)), block_no),
        ),
        forall|k: int|
            0 <= k < listing.len() ==> #[trigger] map_entry(
                block_pages(with_block_image(disk, block_no, table_image(listing)), block_no),
                k,
            ) == listing[k],
        map_entry_count(
            block_pages(with_block_image(disk, block_no, table_image(listing)), block_no),
        ) == listing.len(),
{
    let image = table_image(listing);
    let block = block_pages(with_block_image(disk, block_no, image), block_no);
    assert forall|p: int| 0 <= p < 128 implies #[trigger] block[p] == image.subrange(
        p * 4096,
        p * 4096 + 4096,
    ) by {
        assert(with_block_image(disk, block_no, image)[block_no * 128 + p] == image.subrange(
            p * 4096,
            p * 4096 + 4096,
        ));
    }
    assert(block[0][0] == image[0]);
    assert(block[0][1] == image[1]);
    assert(block[0][2] == image[2]);
    assert(block[0][3] == image[3]);
    assert forall|k: int| 0 <= k < MAP_ENTRIES implies #[trigger] map_entry(block, k) == (if k
        < listing.len() {
        listing[k]
    } else {
        (0u32, 0u32)
    }) by {
        let at = 8 + 8 * k;
        let page = block[at / 4096];
        let o = at % 4096;
        assert(o + 7 < 4096);
        assert((at / 4096) * 4096 + o == at);
        lemma_image_byte(listing, k, 0);
        lemma_image_byte(listing, k, 1);
        lemma_image_byte(listing, k, 2);
        lemma_image_byte(listing, k, 3);
        lemma_image_byte(listing, k, 4);
        lemma_image_byte(listing, k, 5);
        lemma_image_byte(listing, k, 6);
        lemma_image_byte(listing, k, 7);
        assert(page[o + 0] == image[at + 0]);
        assert(page[o + 1] == image[at + 1]);
        assert(page[o + 2] == image[at + 2]);
        assert(page[o + 3] == image[at + 3]);
        assert(page[o + 4] == image[at + 4]);
        assert(page[o + 5] == image[at + 5]);
        assert(page[o + 6] == image[at + 6]);
        assert(page[o + 7] == image[at + 7]);
        if k < listing.len() {
            lemma_be32_round_trip(listing[k].0);
            lemma_be32_round_trip(listing[k].1);
        } else {
            lemma_be32_zero();
        }
    }
    assert(is_map_entry_count(block, listing.len() as int)) by {
        assert forall|k: int| 0 <= k < listing.len() implies #[trigger] map_entry(block, k) != (
            0u32,
            0u32,
        ) by {
            assert(listing[k] != (0u32, 0u32));
        }
    }
    crate::tl::lemmas::lemma_map_entry_count_unique(block, listing.len() as int);
}

/// One request to the layer.
pub enum TlOp {
    /// Read a logical block.
    Read(u32),
    /// Write a page to a logical page, under the scheme that the policy
    /// selects at the time.
    Write(u32, Seq<u8>, CheckType),
    /// Write 128 pages to a logical block past the buffer.
    Direct(u32, Seq<Seq<u8>>, CheckType),
    /// Erase a logical block.
    Erase(u32),
}

impl TlOp {
    /// The request is for the user region, whose last block is `use_max`,
    /// and carries full pages.
    pub open spec fn is_well_formed(self, use_max: u32) -> bool {
        match self {
            TlOp::Read(block) => block <= use_max,
            TlOp::Write(address, data, _) => address / 128 <= use_max && data.len() == 4096,
            TlOp::Direct(block, pages, _) => block <= use_max && pages.len() == 128 && forall|
                i: int,
            |
                0 <= i < 128 ==> (#[trigger] pages[i]).len() == 4096,
            TlOp::Erase(block) => block <= use_max,
        }
    }

    /// The request writes logical page `lpa` or erases its block.
    pub open spec fn touches(self, lpa: u32) -> bool {
        match self {
            TlOp::Read(_) => false,
            TlOp::Write(address, _, _) => address == lpa,
            TlOp::Direct(block, _, _) => lpa / 128 == block,
            TlOp::Erase(block) => lpa / 128 == block,
        }
    }

    /// The state that the request leaves: the one its contract names where
    /// the layer takes it, the state as it was where the layer refuses it.
    /// An erase is always taken.
    pub open spec fn apply(self, m: TlModel) -> TlModel {
        match self {
            TlOp::Read(block) => match m.read_result(block) {
                Ok((_, after)) => after,
                Err(_) => m,
            },
            TlOp::Write(address, data, scheme) => match m.write_result(address, data, scheme) {
                Ok(after) => after,
                Err(_) => m,
            },
            TlOp::Direct(block, pages, scheme) => match m.direct_result(block, pages, scheme) {
                Ok(after) => after,
                Err(_) => m,
            },
            TlOp::Erase(block) => m.erased_block(block),
        }
    }
}

/// The state after the requests `ops`, in order.
pub open spec fn run(m: TlModel, ops: Seq<TlOp>) -> TlModel
    decreases ops.len(),
{
    if ops.len() == 0 {
        m
    } else {
        ops.last().apply(run(m, ops.drop_last()))
    }
}

/// One request keeps a sealed state sealed, and leaves every page of the
/// user region that it does not touch reading as before.
pub proof fn lemma_step_keeps_page(m: TlModel, op: TlOp, lpa: u32)
    requires
        m.sealed(),
        op.is_well_formed(m.use_max),
        lpa / 128 <= m.use_max,
        !op.touches(lpa),
    ensures
        op.apply(m).sealed(),
        op.apply(m).use_max == m.use_max,
        op.apply(m).logical_page(lpa) == m.logical_page(lpa),
{
    match op {
        TlOp::Read(block) => {
            lemma_sealed_reads_pass(m, block);
        },
        TlOp::Write(address, data, scheme) => {
            if m.write_result(address, data, scheme) is Ok {
                lemma_write_keeps_sealed(m, address, data, scheme);
                lemma_write_keeps_other_pages(m, address, data, scheme, lpa);
                if m.completes_batch(address, data) {
                    lemma_put_accepts(m, address, data);
                    lemma_commit_footprint(m, m.pending_after(address, data));
                }
            }
        },
        TlOp::Direct(block, pages, scheme) => {
            if m.direct_result(block, pages, scheme) is Ok {
                lemma_direct_keeps_sealed(m, block, pages, 4);
                lemma_direct_keeps_other_blocks(m, block, pages, 4, lpa);
            }
        },
        TlOp::Erase(block) => {
            lemma_erase_keeps_sealed(m, block);
            lemma_erase_keeps_other_blocks(m, block, lpa);
        },
    }
}

/// Across any requests that neither write a page nor erase its block, a
/// sealed state stays sealed and the page reads as before: what was written
/// is what is read, until it is written again or erased.
pub proof fn lemma_page_persists(m: TlModel, ops: Seq<TlOp>, lpa: u32)
    requires
        m.sealed(),
        lpa / 128 <= m.use_max,
        forall|i: int|
            0 <= i < ops.len() ==> (#[trigger] ops[i]).is_well_formed(m.use_max) && !ops[i].touches(lpa),
    ensures
        run(m, ops).sealed(),
        run(m, ops).use_max == m.use_max,
        run(m, ops).logical_page(lpa) == m.logical_page(lpa),
    decreases ops.len(),
{
    if ops.len() > 0 {
        let before = ops.drop_last();
        assert forall|i: int| 0 <= i < before.len() implies (#[trigger] before[i]).is_well_formed(
            m.use_max,
        )
            && !before[i].touches(lpa) by {
            assert(before[i] == ops[i]);
        }
        lemma_page_persists(m, before, lpa);
        lemma_step_keeps_page(run(m, before), ops.last(), lpa);
    }
}

/// In a state reached from a sealed one by any requests, every page that a
/// read verifies passes.
pub proof fn lemma_every_read_passes(m: TlModel, ops: Seq<TlOp>, block: u32)
    requires
        m.sealed(),
        forall|i: int| 0 <= i < ops.len() ==> (#[trigger] ops[i]).is_well_formed(m.use_max),
        block <= run(m, ops).use_max,
    ensures
        run(m, ops).sealed(),
        run(m, ops).block_passes(block),
{
    lemma_run_keeps_sealed(m, ops);
    lemma_sealed_reads_pass(run(m, ops), block);
}

/// Any requests keep a sealed state sealed.
pub proof fn lemma_run_keeps_sealed(m: TlModel, ops: Seq<TlOp>)
    requires
        m.sealed(),
        forall|i: int| 0 <= i < ops.len() ==> (#[trigger] ops[i]).is_well_formed(m.use_max),
    ensures
        run(m, ops).sealed(),
        run(m, ops).use_max == m.use_max,
    decreases ops.len(),
{
    if ops.len() > 0 {
        let before = ops.drop_last();
        assert forall|i: int| 0 <= i < before.len() implies (#[trigger] before[i]).is_well_formed(
            m.use_max,
        ) by {
            assert(before[i] == ops[i]);
        }
        lemma_run_keeps_sealed(m, before);
        let mid = run(m, before);
        match ops.last() {
            TlOp::Read(block) => {
                lemma_sealed_reads_pass(mid, block);
            },
            TlOp::Write(address, data, scheme) => {
                if mid.write_result(address, data, scheme) is Ok {
                    lemma_write_keeps_sealed(mid, address, data, scheme);
                }
            },
            TlOp::Direct(block, pages, scheme) => {
                if mid.direct_result(block, pages, scheme) is Ok {
                    lemma_direct_keeps_sealed(mid, block, pages, 4);
                }
            },
            TlOp::Erase(block) => {
                lemma_erase_keeps_sealed(mid, block);
            },
        }
    }
}

/// After the first `g` groups of a direct write, each page of those groups is
/// on the medium where its logical page is served.
pub proof fn lemma_direct_lands(m: TlModel, block: u32, pages: Seq<Seq<u8>>, g: nat)
    requires
        m.inv(),
        block <= m.use_max,
        pages.len() == 128,
        forall|i: int| 0 <= i < 128 ==> (#[trigger] pages[i]).len() == 4096,
        g <= 4,
        m.direct_rolls_over(4) ==> m.has_spare(),
    ensures
        m.direct_committed(block, pages, g).inv(),
        m.direct_committed(block, pages, g).remap == m.remap,
        m.direct_committed(block, pages, g).use_max == m.use_max,
        m.direct_committed(block, pages, g).pending == m.pending,
        m.direct_committed(block, pages, g).sign_offset + 32 * (4 - g) > SIGN_ROLL
            ==> m.direct_committed(block, pages, g).has_spare(),
        forall|i: int|
            0 <= i < 32 * g ==> m.direct_committed(block, pages, g).disk[m.page_addr(
                (block * 128 + i) as u32,
            )] == #[trigger] pages[i],
    decreases g,
{
    if g > 0 {
        lemma_direct_lands(m, block, pages, (g - 1) as nat);
        let before = m.direct_committed(block, pages, (g - 1) as nat);
        let entries = direct_group(block, pages, g - 1);
        lemma_phys_in_range(m, block);
        assert((block + 1) * 128 <= (m.max + 1) * 128);
        assert(before.accepts(entries)) by {
            assert forall|a: int, b: int| 0 <= a < b < entries.len() implies (#[trigger] entries[a]).0
                != (#[trigger] entries[b]).0 by {}
            assert forall|k: int| 0 <= k < entries.len() implies (#[trigger] entries[k]).0 / 128
                <= before.use_max && entries[k].1.len() == 4096 by {
                assert(entries[k].0 / 128 == block);
            }
        }
        if before.rolls_over() {
            let b = choose|b: u32| before.is_spare(b);
            lemma_least_spare(before, b);
        }
        lemma_signed_layout(before, entries, before.next_spare());
        crate::tl::lemmas::lemma_committed_layout(before, entries, before.next_spare());
        lemma_commit_footprint(before, entries);
        let after = before.committed(entries);
        if !before.rolls_over() {
            if after.sign_offset + 32 * (4 - g) > SIGN_ROLL {
                let b = choose|b: u32| before.is_spare(b);
                assert(after.is_spare(b));
            }
        }
        assert forall|i: int| 0 <= i < 32 * g implies after.disk[m.page_addr(
            (block * 128 + i) as u32,
        )] == #[trigger] pages[i] by {
            let l = (block * 128 + i) as u32;
            assert(l / 128 == block);
            lemma_page_addr_in_range(before, l);
            lemma_phys_in_range(before, block);
            if i >= 32 * (g - 1) {
                let k = i - 32 * (g - 1);
                assert(entries[k].0 == l);
                assert(entries[k].1 == pages[i]);
            } else {
                assert(before.disk[m.page_addr(l)] == pages[i]);
                assert(before.page_addr(l) / 128 != before.ready_for_batch().sign_block);
                assert forall|k: int| 0 <= k < 32 implies before.page_addr(
                    (#[trigger] entries[k]).0,
                ) != before.page_addr(l) by {
                    assert(entries[k].0 != l);
                    assert(entries[k].0 / 128 == block);
                    lemma_page_addr_distinct(before, entries[k].0, l);
                }
            }
        }
    }
}

/// After a direct write to a block none of whose pages is pending, the block
/// reads as the pages written.
pub proof fn lemma_direct_then_read(
    m: TlModel,
    block: u32,
    pages: Seq<Seq<u8>>,
    scheme: CheckType,
)
    requires
        m.inv(),
        pages.len() == 128,
        forall|i: int| 0 <= i < 128 ==> (#[trigger] pages[i]).len() == 4096,
        block <= m.use_max,
        m.direct_result(block, pages, scheme) is Ok,
        forall|l: u32| block_lpas(block).contains(l) ==> !#[trigger] pending_contains(m.pending, l),
    ensures
        m.direct_result(block, pages, scheme)->Ok_0.read_pages(block) == pages,
        m.direct_result(block, pages, scheme)->Ok_0.pending == m.pending,
{
    let after = m.direct_result(block, pages, scheme)->Ok_0;
    lemma_direct_lands(m, block, pages, 4);
    lemma_phys_in_range(m, block);
    assert((block + 1) * 128 <= (m.max + 1) * 128);
    assert forall|i: int| 0 <= i < 128 implies #[trigger] after.read_pages(block)[i] == pages[i] by {
        let l = (block * 128 + i) as u32;
        assert(block_lpas(block).contains(l));
        assert(!pending_contains(after.pending, l));
        assert(after.page_addr(l) == m.page_addr(l));
    }
    assert(after.read_pages(block) =~= pages);
}

/// The table that the first `k` of `entries` make, each added in turn.
pub open spec fn table_of(entries: Seq<(u32, u32)>, k: nat) -> Map<u32, u32>
    decreases k,
{
    if k == 0 {
        Map::empty()
    } else {
        table_of(entries, (k - 1) as nat).insert(entries[k - 1].0, entries[k - 1].1)
    }
}

/// The table that a listing makes depends on its entries alone.
proof fn lemma_table_of_prefix(a: Seq<(u32, u32)>, b: Seq<(u32, u32)>, k: nat)
    requires
        k <= a.len(),
        k <= b.len(),
        forall|j: int| 0 <= j < k ==> a[j] == b[j],
    ensures
        table_of(a, k) == table_of(b, k),
    decreases k,
{
    if k > 0 {
        lemma_table_of_prefix(a, b, (k - 1) as nat);
    }
}

/// The listing of a table makes the table again, as far as the listing
/// goes: the entries with a key below `n`.
pub proof fn lemma_listing_makes_table(remap: Map<u32, u32>, n: nat)
    requires
        n <= 0x1_0000_0000,
    ensures
        forall|key: u32| #[trigger]
            table_of(table_listing(remap, n), table_listing(remap, n).len()).contains_key(key) <==> (
            remap.contains_key(key) && key < n),
        forall|key: u32|
            remap.contains_key(key) && key < n ==> #[trigger] table_of(
                table_listing(remap, n),
                table_listing(remap, n).len(),
            )[key] == remap[key],
        forall|j: int|
            0 <= j < table_listing(remap, n).len() ==> remap.contains_key(
                (#[trigger] table_listing(remap, n)[j]).0,
            ) && table_listing(remap, n)[j].1 == remap[table_listing(remap, n)[j].0],
    decreases n,
{
    if n > 0 {
        lemma_listing_makes_table(remap, (n - 1) as nat);
        let before = table_listing(remap, (n - 1) as nat);
        let after = table_listing(remap, n);
        let key = (n - 1) as u32;
        if remap.contains_key(key) {
            assert(after == before.push((key, remap[key])));
            lemma_table_of_prefix(after, before, before.len());
        }
    }
}

/// After a block was remapped, start-up finds the mapping block and reads
/// the table back from it: a layer that starts on the medium with an empty
/// table has the table of the layer that wrote it.
pub proof fn lemma_start_up_recovers_table(m: TlModel, block: u32, spare: u32, fresh: TlModel)
    requires
        m.inv(),
        block <= m.use_max,
        m.is_spare(spare),
        m.listing().len() < MAP_ENTRIES,
        fresh.disk == m.remapped(block, spare).disk,
        fresh.remap == Map::<u32, u32>::empty(),
        fresh.use_max == m.use_max,
    ensures
        fresh.scanned_block(m.table_block).remap == m.remapped(block, spare).remap,
        fresh.scanned_block(m.table_block).table_block == m.table_block,
        forall|b: u32|
            m.remapped(block, spare).remap.contains_key(b) ==> fresh.scanned_block(
                m.table_block,
            ).used.contains(#[trigger] m.remapped(block, spare).remap[b]),
{
    let after = m.remapped(block, spare);
    let n = (m.use_max + 1) as nat;
    let listing = table_listing(after.remap, n);
    crate::tl::lemmas::lemma_listing_insert(m.remap, block, spare, n);
    lemma_listing_makes_table(after.remap, n);
    assert forall|k: int| 0 <= k < listing.len() implies #[trigger] listing[k] != (0u32, 0u32) by {
        assert(after.remap.contains_key(listing[k].0));
        if listing[k].0 != block {
            assert(m.remap.contains_key(listing[k].0));
        }
    }
    assert((m.table_block + 1) * 128 <= (m.max + 1) * 128);
    lemma_table_image_reads_back(m.disk, m.table_block as int, listing);
    let image_block = block_pages(fresh.disk, m.table_block as int);
    lemma_mappings_make_table(fresh, image_block, listing, listing.len());
    let loaded = fresh.with_mappings(image_block, listing.len());
    assert(loaded.remap =~= after.remap) by {
        assert forall|key: u32| after.remap.contains_key(key) implies key < n by {
            if key != block {
                assert(m.remap.contains_key(key));
            }
        }
    }
    assert forall|b: u32| after.remap.contains_key(b) implies fresh.scanned_block(
        m.table_block,
    ).used.contains(#[trigger] after.remap[b]) by {
        assert(loaded.remap.contains_key(b));
    }
}

/// Taking over the entries of a mapping block into an empty table makes the
/// table of its listing, and marks each replacement used.
proof fn lemma_mappings_make_table(
    fresh: TlModel,
    block: Seq<Seq<u8>>,
    listing: Seq<(u32, u32)>,
    k: nat,
)
    requires
        fresh.remap == Map::<u32, u32>::empty(),
        k <= listing.len(),
        forall|j: int| 0 <= j < listing.len() ==> #[trigger] map_entry(block, j) == listing[j],
    ensures
        fresh.with_mappings(block, k).remap == table_of(listing, k),
        fresh.with_mappings(block, k).table_block == fresh.table_block,
        forall|key: u32| #[trigger]
            fresh.with_mappings(block, k).remap.contains_key(key) ==> fresh.with_mappings(
                block,
                k,
            ).used.contains(fresh.with_mappings(block, k).remap[key]),
    decreases k,
{
    if k > 0 {
        lemma_mappings_make_table(fresh, block, listing, (k - 1) as nat);
        assert(map_entry(block, k - 1) == listing[k - 1]);
    }
}

/// What a commit writes into the signature block, start-up reads back: the
/// 32 slots that the batch took hold its signatures, none of them blank, each
/// naming its logical page.
pub proof fn lemma_commit_slots_read_back(m: TlModel, entries: Pending, j: int)
    requires
        m.layout_ok(),
        m.accepts(entries),
        entries.len() == 32,
        m.rolls_over() ==> m.has_spare(),
        0 <= j < 32,
    ensures
        sign_slot(
            block_pages(m.committed(entries).disk, m.committed(entries).sign_block as int),
            m.committed(entries).sign_offset - 32 + j,
        ) == crc_signature(crc32c(entries[j].1), entries[j].0),
        !is_blank_slot(
            sign_slot(
                block_pages(m.committed(entries).disk, m.committed(entries).sign_block as int),
                m.committed(entries).sign_offset - 32 + j,
            ),
        ),
        stored_lpa(
            sign_slot(
                block_pages(m.committed(entries).disk, m.committed(entries).sign_block as int),
                m.committed(entries).sign_offset - 32 + j,
            ),
        ) == entries[j].0,
{
    if m.rolls_over() {
        let b = choose|b: u32| m.is_spare(b);
        lemma_least_spare(m, b);
    }
    lemma_signed_layout(m, entries, m.next_spare());
    lemma_commit_footprint(m, entries);
    let r = m.ready_for_batch();
    let c = m.committed(entries);
    let block = block_pages(c.disk, c.sign_block as int);
    let s = c.sign_offset - 32 + j;
    assert(c.sign_block == r.sign_block);
    assert(s == r.sign_offset + j);
    assert(s / 32 == r.sign_offset / 32);
    assert(s % 32 == j);
    assert((r.sign_block + 1) * 128 <= (r.max + 1) * 128);
    assert(block[s / 32] == c.disk[r.sign_page_addr()]);
    let slot = sign_slot(block, s);
    let sig = crc_signature(crc32c(entries[j].1), entries[j].0);
    assert(slot =~= sig) by {
        assert forall|i: int| 0 <= i < 128 implies slot[i] == sig[i] by {
            assert((j * 128 + i) / 128 == j);
            assert((j * 128 + i) % 128 == i);
        }
    }
    assert(sig[119] == 0x33u8);
    crate::tl::check_center::lemma_sign_then_extract(entries[j].1, entries[j].0);
}

/// What the first `g` groups of a direct write leave: the signature block
/// and its slot count as the groups took them, and every page that they did
/// not write as it was. Where the write starts with its pages clean, each
/// group finds its pages clean when its turn comes.
pub proof fn lemma_direct_steps(m: TlModel, block: u32, pages: Seq<Seq<u8>>, g: nat)
    requires
        m.inv(),
        block <= m.use_max,
        pages.len() == 128,
        forall|i: int| 0 <= i < 128 ==> (#[trigger] pages[i]).len() == 4096,
        g <= 4,
        m.direct_rolls_over(4) ==> m.has_spare(),
        m.direct_starts_clean(block),
    ensures
        m.direct_committed(block, pages, g).inv(),
        m.direct_committed(block, pages, g).remap == m.remap,
        m.direct_committed(block, pages, g).use_max == m.use_max,
        m.direct_committed(block, pages, g).max == m.max,
        m.direct_committed(block, pages, g).table_block == m.table_block,
        m.direct_committed(block, pages, g).disk.len() == m.disk.len(),
        m.sign_offset + 32 * g <= SIGN_ROLL ==> m.direct_committed(block, pages, g).sign_block
            == m.sign_block && m.direct_committed(block, pages, g).sign_offset == m.sign_offset + 32
            * g && m.direct_committed(block, pages, g).used == m.used,
        m.sign_offset + 32 * g > SIGN_ROLL ==> m.direct_committed(block, pages, g).sign_block
            == m.next_spare() && m.direct_committed(block, pages, g).sign_offset == m.sign_offset
            + 32 * g - SIGN_ROLL,
        forall|a: int|
            0 <= a < m.disk.len() && !m.direct_touched(block, g as int, a)
                ==> #[trigger] m.direct_committed(block, pages, g).disk[a] == m.disk[a],
        forall|h: nat|
            h < g ==> (#[trigger] m.direct_committed(block, pages, h)).batch_is_clean(
                direct_group(block, pages, h as int),
            ),
    decreases g,
{
    if g > 0 {
        let k = (g - 1) as nat;
        lemma_direct_steps(m, block, pages, k);
        let before = m.direct_committed(block, pages, k);
        let entries = direct_group(block, pages, k as int);
        let after = m.direct_committed(block, pages, g);
        assert(after == before.committed(entries));
        lemma_phys_in_range(m, block);
        assert((block + 1) * 128 <= (m.max + 1) * 128);
        assert(before.accepts(entries)) by {
            assert forall|a: int, b: int| 0 <= a < b < entries.len() implies (#[trigger] entries[a]).0
                != (#[trigger] entries[b]).0 by {}
            assert forall|j: int| 0 <= j < entries.len() implies (#[trigger] entries[j]).0 / 128
                <= before.use_max && entries[j].1.len() == 4096 by {
                assert(entries[j].0 / 128 == block);
            }
        }
        if m.direct_rolls_over(4) {
            let b = choose|b: u32| m.is_spare(b);
            lemma_least_spare(m, b);
        }
        let spare = m.next_spare();
        if before.rolls_over() {
            assert(m.sign_offset + 32 * k == SIGN_ROLL);
            assert(before.is_next_spare(spare)) by {
                assert(m.is_next_spare(spare));
                assert forall|c: u32| before.is_spare(c) implies spare <= c by {
                    assert(m.is_spare(c));
                }
            }
            crate::tl::lemmas::lemma_next_spare_unique(before, spare);
        }
        lemma_signed_layout(before, entries, spare);
        crate::tl::lemmas::lemma_committed_layout(before, entries, spare);
        lemma_commit_footprint(before, entries);
        let ready = before.ready_for_batch();
        let sign_at = ready.sign_page_addr();
        assert(sign_at == m.direct_sign_addr(k as int));
        let base = m.phys(block) * 128;
        assert forall|j: int| 0 <= j < 32 implies before.page_addr((#[trigger] entries[j]).0) == base
            + 32 * k + j by {
            assert(entries[j].0 / 128 == block);
            assert(entries[j].0 % 128 == 32 * k + j);
        }
        // the pages of this group were not written by the groups before
        assert(!m.direct_touched(block, k as int, sign_at)) by {
            lemma_phys_in_range(m, block);
            if m.direct_rolls_over(4) {
                assert(m.is_spare(spare));
            }
        }
        assert(before.batch_is_clean(entries)) by {
            assert(before.disk[sign_at] == m.disk[sign_at]);
            assert forall|j: int| 0 <= j < 32 implies is_zero_page(
                #[trigger] ready.disk[ready.page_addr(entries[j].0)],
            ) by {
                let a = base + 32 * k + j;
                assert(ready.page_addr(entries[j].0) == before.page_addr(entries[j].0));
                assert(!m.direct_touched(block, k as int, a)) by {
                    if m.direct_rolls_over(4) {
                        assert(m.is_spare(spare));
                    }
                }
                assert(before.disk[a] == m.disk[a]);
                assert(is_zero_page(m.disk[m.phys(block) * 128 + (32 * k + j)]));
            }
        }
        assert forall|a: int|
            0 <= a < m.disk.len() && !m.direct_touched(block, g as int, a) implies #[trigger] after.disk[a]
            == m.disk[a] by {
            assert(!m.direct_touched(block, k as int, a));
            assert(a != sign_at);
            assert forall|j: int| 0 <= j < 32 implies before.page_addr((#[trigger] entries[j]).0)
                != a by {}
            assert(after.disk[a] == before.disk[a]);
        }
        assert forall|h: nat| h < g implies (#[trigger] m.direct_committed(
            block,
            pages,
            h,
        )).batch_is_clean(direct_group(block, pages, h as int)) by {
            if h == k {
            }
        }
    }
}

/// A direct write that starts with its pages clean meets the write-once
/// rule.
pub proof fn lemma_direct_clean_from_start(m: TlModel, block: u32, pages: Seq<Seq<u8>>)
    requires
        m.inv(),
        block <= m.use_max,
        pages.len() == 128,
        forall|i: int| 0 <= i < 128 ==> (#[trigger] pages[i]).len() == 4096,
        m.direct_starts_clean(block),
    ensures
        m.direct_is_clean(block, pages),
{
    if !(m.direct_rolls_over(4) && !m.has_spare()) {
        lemma_direct_steps(m, block, pages, 4);
    }
}

} // verus!
