//! Facts about the model of the translation layer that its code rests on.

use vstd::prelude::*;
use crate::tl::model::{
    TlModel,
    SIGN_SLOTS,
    is_map_entry_count,
    is_sign_slot_count,
    map_entry,
    map_entry_count,
    sign_slot,
    sign_slot_count,
    is_blank_slot,
    note_blocks,
    note_offsets,
    discard_range,
    table_listing,
    write_pages,
    page_addr_in,
    };
use crate::write_buf::{
    Pending,
    pending_contains,
    pending_distinct,
    pending_get,
    pending_index,
    pending_put,
    lemma_pending_discard_elements,
};

verus! {

/// The lowest spare is unique: a block that is spare and below every spare is
/// the one that `next_spare` names.
pub proof fn lemma_next_spare_unique(m: TlModel, b: u32)
    requires
        m.is_next_spare(b),
    ensures
        m.has_spare(),
        m.next_spare() == b,
{
    let c = m.next_spare();
    assert(m.is_next_spare(c));
}

/// The first failing page is unique.
pub proof fn lemma_first_failure_unique(m: TlModel, block: u32, i: int)
    requires
        m.is_first_failure(block, i),
    ensures
        !m.block_passes(block),
        m.first_failure(block) == i,
{
    assert(m.page_fails(block, i));
    let c = m.first_failure(block);
    assert(m.is_first_failure(block, c));
    if c < i {
        assert(!m.page_fails(block, c));
    } else if i < c {
        assert(!m.page_fails(block, i));
    }
}

/// The number of entries of a mapping block is unique.
pub proof fn lemma_map_entry_count_unique(block: Seq<Seq<u8>>, n: int)
    requires
        is_map_entry_count(block, n),
    ensures
        map_entry_count(block) == n,
{
    let c = map_entry_count(block);
    assert(is_map_entry_count(block, c));
    if c < n {
        assert(map_entry(block, c) != (0u32, 0u32));
    } else if n < c {
        assert(map_entry(block, n) != (0u32, 0u32));
    }
}

/// The number of signatures of a signature block is unique.
pub proof fn lemma_sign_slot_count_unique(block: Seq<Seq<u8>>, n: int)
    requires
        is_sign_slot_count(block, n),
    ensures
        sign_slot_count(block) == n,
{
    let c = sign_slot_count(block);
    assert(is_sign_slot_count(block, c));
    if c < n {
        assert(!is_blank_slot(sign_slot(block, c)));
    } else if n < c {
        assert(!is_blank_slot(sign_slot(block, n)));
    }
}

/// A block of the user region is served by itself or by a replacement in the
/// reserved region, never by the table block or the signature block.
pub proof fn lemma_phys_in_range(m: TlModel, block: u32)
    requires
        m.layout_ok(),
        block <= m.use_max,
    ensures
        m.phys(block) <= m.max,
        m.phys(block) != m.table_block,
        m.phys(block) != m.sign_block,
        m.phys(block) == block || m.used.contains(m.phys(block)),
        (m.phys(block) + 1) * 128 <= m.disk.len(),
{
    assert((m.phys(block) + 1) * 128 <= (m.max + 1) * 128);
}

/// Two blocks of the user region are served by different physical blocks.
pub proof fn lemma_phys_injective(m: TlModel, b: u32, c: u32)
    requires
        m.layout_ok(),
        b <= m.use_max,
        c <= m.use_max,
        b != c,
    ensures
        m.phys(b) != m.phys(c),
{
}

/// Two logical pages of the user region are served by different physical
/// pages, each within the medium and outside the table and signature blocks.
pub proof fn lemma_page_addr_distinct(m: TlModel, a: u32, b: u32)
    requires
        m.layout_ok(),
        a / 128 <= m.use_max,
        b / 128 <= m.use_max,
        a != b,
    ensures
        m.page_addr(a) != m.page_addr(b),
{
    if a / 128 != b / 128 {
        lemma_phys_injective(m, a / 128, b / 128);
    }
}

/// The physical page of a logical page of the user region lies within the
/// medium, in the block that serves the logical block.
pub proof fn lemma_page_addr_in_range(m: TlModel, a: u32)
    requires
        m.layout_ok(),
        a / 128 <= m.use_max,
    ensures
        0 <= m.page_addr(a) < m.disk.len(),
        m.page_addr(a) / 128 == m.phys(a / 128),
        m.page_addr(a) % 128 == a % 128,
        m.page_addr(a) / 128 != m.sign_block,
        m.page_addr(a) / 128 != m.table_block,
{
    lemma_phys_in_range(m, a / 128);
}

/// The listing grows with the range of keys that it covers.
pub proof fn lemma_listing_monotonic(remap: Map<u32, u32>, a: nat, b: nat)
    requires
        a <= b,
    ensures
        table_listing(remap, a).len() <= table_listing(remap, b).len(),
        table_listing(remap, b).len() <= b,
    decreases b,
{
    if b > 0 {
        if a < b {
            lemma_listing_monotonic(remap, a, (b - 1) as nat);
        } else {
            lemma_listing_monotonic(remap, (b - 1) as nat, (b - 1) as nat);
        }
    }
}

/// One more entry in the table makes its listing at most one longer.
pub proof fn lemma_listing_insert(remap: Map<u32, u32>, key: u32, value: u32, n: nat)
    requires
        n <= 0x1_0000_0000,
    ensures
        table_listing(remap.insert(key, value), n).len() <= table_listing(remap, n).len() + 1,
        key >= n ==> table_listing(remap.insert(key, value), n).len() == table_listing(remap, n).len(),
    decreases n,
{
    if n > 0 {
        lemma_listing_insert(remap, key, value, (n - 1) as nat);
    }
}

/// Remapping a block of the user region to a spare keeps the state sound.
pub proof fn lemma_remapped_inv(m: TlModel, block: u32, spare: u32)
    requires
        m.inv(),
        block <= m.use_max,
        m.is_spare(spare),
        m.err_block_num < u32::MAX,
    ensures
        m.remapped(block, spare).inv(),
{
    let r = m.remapped(block, spare);
    assert forall|b: u32| #[trigger] r.remap.contains_key(b) implies {
        &&& b <= r.use_max
        &&& r.use_max < r.remap[b] <= r.max
        &&& r.remap[b] != r.table_block
        &&& r.remap[b] != r.sign_block
        &&& r.used.contains(r.remap[b])
    } by {
        if b != block {
            assert(m.remap.contains_key(b));
        }
    }
    assert forall|b: u32, c: u32|
        r.remap.contains_key(b) && r.remap.contains_key(c) && b != c implies #[trigger] r.remap[b]
        != #[trigger] r.remap[c] by {
        if b != block {
            assert(m.remap.contains_key(b));
        }
        if c != block {
            assert(m.remap.contains_key(c));
        }
    }
}

/// Recording a batch keeps the two signature maps on the same pages, and
/// every signature within its block.
pub proof fn lemma_note_maps(
    blocks: Map<u32, u32>,
    offsets: Map<u32, u32>,
    entries: Pending,
    k: nat,
    block: u32,
    base: u32,
    max: u32,
)
    requires
        k <= entries.len(),
        block <= max,
        base + k <= SIGN_SLOTS,
        forall|l: u32| #[trigger] blocks.contains_key(l) <==> offsets.contains_key(l),
        forall|l: u32| #[trigger]
            blocks.contains_key(l) ==> blocks[l] <= max && offsets[l] < SIGN_SLOTS,
    ensures
        forall|l: u32| #[trigger]
            note_blocks(blocks, entries, k, block).contains_key(l) <==> note_offsets(
                offsets,
                entries,
                k,
                base,
            ).contains_key(l),
        forall|l: u32| #[trigger]
            note_blocks(blocks, entries, k, block).contains_key(l) ==> note_blocks(
                blocks,
                entries,
                k,
                block,
            )[l] <= max && note_offsets(offsets, entries, k, base)[l] < SIGN_SLOTS,
        forall|l: u32| #[trigger]
            note_blocks(blocks, entries, k, block).contains_key(l) <==> (blocks.contains_key(l) || exists|
                j: int,
            |
                0 <= j < k && (#[trigger] entries[j]).0 == l),
    decreases k,
{
    if k > 0 {
        lemma_note_maps(blocks, offsets, entries, (k - 1) as nat, block, base, max);
        let nb0 = note_blocks(blocks, entries, (k - 1) as nat, block);
        let nb = note_blocks(blocks, entries, k, block);
        assert forall|l: u32| #[trigger]
            nb.contains_key(l) <==> (blocks.contains_key(l) || exists|j: int|
                0 <= j < k && (#[trigger] entries[j]).0 == l) by {
            if nb.contains_key(l) {
                if l == entries[k - 1].0 {
                    assert(entries[k - 1].0 == l);
                } else {
                    assert(nb0.contains_key(l));
                    if !blocks.contains_key(l) {
                        let j = choose|j: int| 0 <= j < k - 1 && (#[trigger] entries[j]).0 == l;
                        assert(0 <= j < k && entries[j].0 == l);
                    }
                }
            }
            if exists|j: int| 0 <= j < k && (#[trigger] entries[j]).0 == l {
                let j = choose|j: int| 0 <= j < k && (#[trigger] entries[j]).0 == l;
                if j < k - 1 {
                    assert(0 <= j < k - 1 && entries[j].0 == l);
                    assert(nb0.contains_key(l));
                }
            }
        }
    }
}

/// One of the first `k` writes of the batch is for `l`.
pub open spec fn batch_has(entries: Pending, k: nat, l: u32) -> bool {
    exists|j: int| 0 <= j < k && (#[trigger] entries[j]).0 == l
}

/// Where no address occurs twice in a batch, recording it leaves each of its
/// pages signed in `block`, at the slot of its place in the batch; every
/// other page keeps the signature it had, or none.
pub proof fn lemma_note_values(
    blocks: Map<u32, u32>,
    offsets: Map<u32, u32>,
    entries: Pending,
    k: nat,
    block: u32,
    base: u32,
)
    requires
        k <= entries.len(),
        base + k <= u32::MAX,
        pending_distinct(entries),
    ensures
        forall|j: int|
            0 <= j < k ==> note_blocks(blocks, entries, k, block).contains_key(
                (#[trigger] entries[j]).0,
            ) && note_blocks(blocks, entries, k, block)[entries[j].0] == block && note_offsets(
                offsets,
                entries,
                k,
                base,
            )[entries[j].0] == base + j,
        forall|l: u32|
            !#[trigger] batch_has(entries, k, l) ==> (note_blocks(blocks, entries, k, block).contains_key(
                l,
            ) <==> blocks.contains_key(l)) && (blocks.contains_key(l) ==> note_blocks(
                blocks,
                entries,
                k,
                block,
            )[l] == blocks[l]) && (offsets.contains_key(l) ==> note_offsets(
                offsets,
                entries,
                k,
                base,
            )[l] == offsets[l]),
    decreases k,
{
    if k > 0 {
        lemma_note_values(blocks, offsets, entries, (k - 1) as nat, block, base);
        let nb0 = note_blocks(blocks, entries, (k - 1) as nat, block);
        let no0 = note_offsets(offsets, entries, (k - 1) as nat, base);
        let nb = note_blocks(blocks, entries, k, block);
        let no = note_offsets(offsets, entries, k, base);
        assert forall|j: int| 0 <= j < k implies nb.contains_key((#[trigger] entries[j]).0)
            && nb[entries[j].0] == block && no[entries[j].0] == base + j by {
            if j < k - 1 {
                assert(entries[j].0 != entries[k - 1].0);
                assert(nb0.contains_key(entries[j].0));
            }
        }
        assert forall|l: u32| !#[trigger] batch_has(entries, k, l) implies (nb.contains_key(l)
            <==> blocks.contains_key(l)) && (blocks.contains_key(l) ==> nb[l] == blocks[l]) && (
        offsets.contains_key(l) ==> no[l] == offsets[l]) by {
            if entries[k - 1].0 == l {
                assert(batch_has(entries, k, l));
            }
            if batch_has(entries, (k - 1) as nat, l) {
                let j = choose|j: int| 0 <= j < k - 1 && (#[trigger] entries[j]).0 == l;
                assert(0 <= j < k && entries[j].0 == l);
            }
        }
    }
}

/// Writing the first `k` pages of a batch keeps the size of the medium and of
/// its pages, and changes no page but those that the batch writes.
pub proof fn lemma_write_pages_frame(
    disk: Seq<Seq<u8>>,
    remap: Map<u32, u32>,
    entries: Pending,
    k: nat,
)
    requires
        k <= entries.len(),
        forall|i: int| 0 <= i < disk.len() ==> (#[trigger] disk[i]).len() == 4096,
        forall|j: int|
            0 <= j < k ==> 0 <= page_addr_in(remap, (#[trigger] entries[j]).0) < disk.len()
                && entries[j].1.len() == 4096,
    ensures
        write_pages(disk, remap, entries, k).len() == disk.len(),
        forall|i: int|
            0 <= i < disk.len() ==> (#[trigger] write_pages(disk, remap, entries, k)[i]).len() == 4096,
        forall|a: int|
            0 <= a < disk.len() && (forall|j: int|
                0 <= j < k ==> page_addr_in(remap, (#[trigger] entries[j]).0) != a)
                ==> #[trigger] write_pages(disk, remap, entries, k)[a] == disk[a],
    decreases k,
{
    if k > 0 {
        lemma_write_pages_frame(disk, remap, entries, (k - 1) as nat);
        let before = write_pages(disk, remap, entries, (k - 1) as nat);
        let after = write_pages(disk, remap, entries, k);
        assert forall|a: int|
            0 <= a < disk.len() && (forall|j: int|
                0 <= j < k ==> page_addr_in(remap, (#[trigger] entries[j]).0) != a) implies #[trigger] after[a]
            == disk[a] by {
            assert(page_addr_in(remap, entries[k - 1].0) != a);
            assert forall|j: int| 0 <= j < k - 1 implies page_addr_in(
                remap,
                (#[trigger] entries[j]).0,
            ) != a by {}
        }
    }
}

/// Where the pages of a batch go to distinct places, each place holds its
/// page once the batch is written.
pub proof fn lemma_write_pages_lands(
    disk: Seq<Seq<u8>>,
    remap: Map<u32, u32>,
    entries: Pending,
    k: nat,
)
    requires
        k <= entries.len(),
        forall|j: int|
            0 <= j < k ==> 0 <= page_addr_in(remap, (#[trigger] entries[j]).0) < disk.len(),
        forall|i: int, j: int|
            0 <= i < j < k ==> page_addr_in(remap, (#[trigger] entries[i]).0) != page_addr_in(
                remap,
                (#[trigger] entries[j]).0,
            ),
    ensures
        write_pages(disk, remap, entries, k).len() == disk.len(),
        forall|j: int|
            0 <= j < k ==> write_pages(disk, remap, entries, k)[page_addr_in(
                remap,
                (#[trigger] entries[j]).0,
            )] == entries[j].1,
    decreases k,
{
    if k > 0 {
        lemma_write_pages_lands(disk, remap, entries, (k - 1) as nat);
        let before = write_pages(disk, remap, entries, (k - 1) as nat);
        assert forall|j: int| 0 <= j < k implies write_pages(disk, remap, entries, k)[page_addr_in(
            remap,
            (#[trigger] entries[j]).0,
        )] == entries[j].1 by {
            if j < k - 1 {
                assert(page_addr_in(remap, entries[j].0) != page_addr_in(remap, entries[k - 1].0));
            }
        }
    }
}

/// The places of a batch that the layer accepts are distinct pages of the
/// medium, outside the table and signature blocks.
pub proof fn lemma_batch_places(m: TlModel, entries: Pending)
    requires
        m.layout_ok(),
        m.accepts(entries),
    ensures
        forall|j: int|
            0 <= j < entries.len() ==> 0 <= m.page_addr((#[trigger] entries[j]).0) < m.disk.len()
                && m.page_addr(entries[j].0) / 128 != m.sign_block && m.page_addr(entries[j].0) / 128
                != m.table_block && m.page_addr(entries[j].0) / 128 == m.phys(entries[j].0 / 128),
        forall|i: int, j: int|
            0 <= i < j < entries.len() ==> m.page_addr((#[trigger] entries[i]).0) != m.page_addr(
                (#[trigger] entries[j]).0,
            ),
{
    assert forall|j: int| 0 <= j < entries.len() implies 0 <= m.page_addr(
        (#[trigger] entries[j]).0,
    ) < m.disk.len() && m.page_addr(entries[j].0) / 128 != m.sign_block && m.page_addr(
        entries[j].0,
    ) / 128 != m.table_block && m.page_addr(entries[j].0) / 128 == m.phys(entries[j].0 / 128) by {
        lemma_page_addr_in_range(m, entries[j].0);
    }
    assert forall|i: int, j: int| 0 <= i < j < entries.len() implies m.page_addr(
        (#[trigger] entries[i]).0,
    ) != m.page_addr((#[trigger] entries[j]).0) by {
        lemma_page_addr_distinct(m, entries[i].0, entries[j].0);
    }
}

/// Opening a new signature block in the lowest spare keeps the layout sound
/// and moves no page.
pub proof fn lemma_rolled_layout(m: TlModel, spare: u32)
    requires
        m.layout_ok(),
        m.is_spare(spare),
    ensures
        m.rolled(spare).layout_ok(),
        forall|l: u32| m.rolled(spare).page_addr(l) == m.page_addr(l),
{
    let r = m.rolled(spare);
    assert forall|b: u32| #[trigger] r.remap.contains_key(b) implies r.remap[b] != r.sign_block by {
        assert(m.used.contains(m.remap[b]));
    }
}

/// Committing a batch that the layer accepts keeps the layout sound and
/// leaves the pending writes alone.
pub proof fn lemma_committed_layout(m: TlModel, entries: Pending, spare: u32)
    requires
        m.layout_ok(),
        m.accepts(entries),
        entries.len() == 32,
        m.rolls_over() ==> m.is_next_spare(spare),
    ensures
        m.committed(entries).layout_ok(),
        m.committed(entries).pending == m.pending,
        m.committed(entries).use_max == m.use_max,
{
    if m.rolls_over() {
        lemma_next_spare_unique(m, spare);
        lemma_rolled_layout(m, spare);
    }
    let r = m.ready_for_batch();
    let s = r.signed(entries);
    let t = s.stored(entries);
    lemma_note_maps(
        r.sign_block_of,
        r.sign_offset_of,
        entries,
        32,
        r.sign_block,
        r.sign_offset,
        r.max,
    );
    assert(s.layout_ok());
    lemma_batch_places(s, entries);
    lemma_write_pages_frame(s.disk, s.remap, entries, 32);
}

/// Signing a batch that the layer accepts keeps the layout sound and moves no
/// page.
pub proof fn lemma_signed_layout(m: TlModel, entries: Pending, spare: u32)
    requires
        m.layout_ok(),
        m.accepts(entries),
        entries.len() == 32,
        m.rolls_over() ==> m.is_next_spare(spare),
    ensures
        m.ready_for_batch().layout_ok(),
        m.ready_for_batch().signed(entries).layout_ok(),
        m.ready_for_batch().signed(entries).remap == m.remap,
        m.ready_for_batch().signed(entries).use_max == m.use_max,
        m.ready_for_batch().signed(entries).pending == m.pending,
        0 <= m.ready_for_batch().sign_page_addr() < m.disk.len(),
        m.ready_for_batch().sign_page_addr() / 128 == m.ready_for_batch().sign_block,
{
    if m.rolls_over() {
        lemma_next_spare_unique(m, spare);
        lemma_rolled_layout(m, spare);
    }
    let r = m.ready_for_batch();
    lemma_note_maps(
        r.sign_block_of,
        r.sign_offset_of,
        entries,
        32,
        r.sign_block,
        r.sign_offset,
        r.max,
    );
}

/// Writing the pages of a batch that the layer accepts keeps the layout
/// sound.
pub proof fn lemma_stored_layout(m: TlModel, entries: Pending)
    requires
        m.layout_ok(),
        m.accepts(entries),
        entries.len() == 32,
    ensures
        m.stored(entries).layout_ok(),
{
    lemma_batch_places(m, entries);
    lemma_write_pages_frame(m.disk, m.remap, entries, 32);
}

/// A write to the user region joins the pending writes as one that the layer
/// accepts.
pub proof fn lemma_put_accepts(m: TlModel, address: u32, data: Seq<u8>)
    requires
        m.inv(),
        address / 128 <= m.use_max,
        data.len() == 4096,
    ensures
        m.accepts(m.pending_after(address, data)),
        m.pending_after(address, data).len() <= 32,
        m.completes_batch(address, data) <==> !pending_contains(m.pending, address)
            && m.pending.len() == 31,
{
    let after = pending_put(m.pending, address, data);
    if pending_contains(m.pending, address) {
        let k = pending_index(m.pending, address);
        assert(m.pending[k].0 == address);
        assert forall|i: int, j: int| 0 <= i < j < after.len() implies (#[trigger] after[i]).0 != (
        #[trigger] after[j]).0 by {
            assert(m.pending[i].0 != m.pending[j].0);
        }
    } else {
        assert forall|i: int, j: int| 0 <= i < j < after.len() implies (#[trigger] after[i]).0 != (
        #[trigger] after[j]).0 by {
            if j == m.pending.len() {
                assert(m.pending[i].0 != address);
            } else {
                assert(m.pending[i].0 != m.pending[j].0);
            }
        }
    }
}

/// Where some block is spare, some spare is the lowest.
pub proof fn lemma_least_spare(m: TlModel, b: u32)
    requires
        m.is_spare(b),
    ensures
        m.has_spare(),
        m.is_next_spare(m.next_spare()),
        m.is_spare(m.next_spare()),
    decreases b,
{
    if exists|c: u32| c < b && m.is_spare(c) {
        let c = choose|c: u32| c < b && m.is_spare(c);
        lemma_least_spare(m, c);
    } else {
        assert(m.is_next_spare(b));
    }
}

/// Dropping the pending writes of a range of addresses keeps the others, in
/// order; none is pending twice, and none of the range is pending.
pub proof fn lemma_discard_range(buf: Pending, start: u32, k: nat)
    requires
        pending_distinct(buf),
        start + k <= 0x1_0000_0000,
    ensures
        pending_distinct(discard_range(buf, start, k)),
        discard_range(buf, start, k).len() <= buf.len(),
        forall|i: int|
            0 <= i < discard_range(buf, start, k).len() ==> buf.contains(
                #[trigger] discard_range(buf, start, k)[i],
            ),
        forall|a: u32|
            start <= a < start + k ==> !#[trigger] pending_contains(discard_range(buf, start, k), a),
        forall|a: u32|
            !(start <= a < start + k) ==> (#[trigger] pending_contains(
                discard_range(buf, start, k),
                a,
            ) <==> pending_contains(buf, a)) && pending_get(discard_range(buf, start, k), a)
                == pending_get(buf, a),
    decreases k,
{
    if k > 0 {
        lemma_discard_range(buf, start, (k - 1) as nat);
        let before = discard_range(buf, start, (k - 1) as nat);
        let gone = (start + k - 1) as u32;
        let after = discard_range(buf, start, k);
        lemma_pending_discard_elements(before, gone);
        assert forall|i: int| 0 <= i < after.len() implies buf.contains(#[trigger] after[i]) by {
            assert(before.contains(after[i]));
            let j = choose|j: int| 0 <= j < before.len() && before[j] == after[i];
            assert(buf.contains(before[j]));
        }
        assert forall|a: u32| start <= a < start + k implies !#[trigger] pending_contains(
            after,
            a,
        ) by {
            if a != gone {
                assert(!pending_contains(before, a));
            }
        }
        assert forall|a: u32| !(start <= a < start + k) implies (#[trigger] pending_contains(
            after,
            a,
        ) <==> pending_contains(buf, a)) && pending_get(after, a) == pending_get(buf, a) by {
            assert(a != gone);
            assert(pending_contains(before, a) <==> pending_contains(buf, a));
        }
    }
}

/// Erasing a block of the user region keeps the state sound.
pub proof fn lemma_erased_inv(m: TlModel, block: u32)
    requires
        m.inv(),
        block <= m.use_max,
    ensures
        m.erased_block(block).inv(),
{
    let e = m.erased_block(block);
    lemma_phys_in_range(m, block);
    lemma_discard_range(m.pending, (block * 128) as u32, 128);
    assert forall|i: int| 0 <= i < e.pending.len() implies (#[trigger] e.pending[i]).0 / 128
        <= e.use_max && e.pending[i].1.len() == 4096 by {
        assert(m.pending.contains(e.pending[i]));
        let j = choose|j: int| 0 <= j < m.pending.len() && m.pending[j] == e.pending[i];
        assert(m.pending[j].0 / 128 <= m.use_max);
    }
    assert forall|i: int| 0 <= i < e.disk.len() implies (#[trigger] e.disk[i]).len() == 4096 by {
        assert(m.disk[i].len() == 4096);
    }
}

/// Taking over entries or signatures changes neither the medium nor the
/// geometry.
pub proof fn lemma_loads_keep_disk(m: TlModel, block: Seq<Seq<u8>>, block_no: u32, k: nat)
    ensures
        m.with_mappings(block, k).disk == m.disk,
        m.with_mappings(block, k).use_max == m.use_max,
        m.with_mappings(block, k).max == m.max,
        m.with_signatures(block, block_no, k).disk == m.disk,
        m.with_signatures(block, block_no, k).use_max == m.use_max,
        m.with_signatures(block, block_no, k).max == m.max,
    decreases k,
{
    if k > 0 {
        lemma_loads_keep_disk(m, block, block_no, (k - 1) as nat);
    }
}

/// Examining a reserved block changes neither the medium nor the geometry.
pub proof fn lemma_scanned_block_keeps_disk(m: TlModel, block_no: u32)
    ensures
        m.scanned_block(block_no).disk == m.disk,
        m.scanned_block(block_no).use_max == m.use_max,
        m.scanned_block(block_no).max == m.max,
{
    let block = crate::driver::fake_disk::block_pages(m.disk, block_no as int);
    lemma_loads_keep_disk(m, block, block_no, map_entry_count(block) as nat);
    lemma_loads_keep_disk(m, block, block_no, sign_slot_count(block) as nat);
}

/// A new entry for a block below `n` makes the listing one longer; an entry
/// for a block that has one leaves its length.
pub proof fn lemma_listing_insert_length(remap: Map<u32, u32>, key: u32, value: u32, n: nat)
    requires
        key < n <= 0x1_0000_0000,
    ensures
        table_listing(remap.insert(key, value), n).len() == table_listing(remap, n).len() + (
        if remap.contains_key(key) {
            0int
        } else {
            1int
        }),
    decreases n,
{
    if n - 1 > key {
        lemma_listing_insert_length(remap, key, value, (n - 1) as nat);
    } else {
        lemma_listing_insert(remap, key, value, (n - 1) as nat);
    }
}

} // verus!
