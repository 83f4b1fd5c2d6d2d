use wondfs::gc::block_table::{BITSegement, BlockInfo, BlockTable};
use wondfs::gc::gc_define::{GCStrategy, PageUsedStatus, COLDAGEKEY, HOTAGEKEY};
use wondfs::gc::gc_event::{EraseGCEvent, GCEvent, GCEventGroup, MoveGCEvent};
use wondfs::gc::gc_manager::GCManager;

#[test]
fn age_thresholds() {
    assert_eq!(HOTAGEKEY, 86_400);
    assert_eq!(COLDAGEKEY, 1_209_600);
}

#[test]
fn event_index() {
    assert_eq!(GCEvent::Erase(EraseGCEvent { index: 4, block_no: 1 }).get_index(), 4);
    assert_eq!(
        GCEvent::Move(MoveGCEvent { index: 2, ino: 1, size: 1, o_address: 0, d_address: 128 })
            .get_index(),
        2
    );
    assert_eq!(GCEvent::NoEvent.get_index(), 0);
    assert_eq!(GCEventGroup::new().events.len(), 0);
}

#[test]
fn block_info_counts_live_pages() {
    let mut table = BlockTable::new(2);
    assert_eq!(table.size, 2);
    assert_eq!(table.get_block_info(1).block_no, 1);
    assert_eq!(table.get_block_info(0).get_utilize_ratio(), 0);
    for p in 0..10 {
        table.set_page(128 + p, PageUsedStatus::Busy(3));
    }
    table.set_page(128 + 4, PageUsedStatus::Dirty);
    let info = table.get_block_info(1);
    assert_eq!(info.get_utilize_ratio(), 9);
    assert_eq!(info.reserved_offset, 10);
    assert_eq!(info.reserved_size, 118);
    assert_eq!(table.get_page(128 + 4), PageUsedStatus::Dirty);
    assert_eq!(table.get_page(128 + 5), PageUsedStatus::Busy(3));
    assert_eq!(table.get_page(128 + 10), PageUsedStatus::Clean);
    assert_eq!(BlockInfo::new(7).reserved_size, 128);
}

#[test]
fn next_free_page_moves_only_forward() {
    let mut table = BlockTable::new(1);
    table.set_page(20, PageUsedStatus::Busy(1));
    assert_eq!(table.get_block_info(0).reserved_offset, 21);
    // a page before the next free page does not move it back
    table.set_page(3, PageUsedStatus::Busy(1));
    assert_eq!(table.get_block_info(0).reserved_offset, 21);
    // nor does a page that was not clean, or one that does not become live
    table.set_page(20, PageUsedStatus::Busy(2));
    table.set_page(30, PageUsedStatus::Dirty);
    assert_eq!(table.get_block_info(0).reserved_offset, 21);
    assert_eq!(table.get_block_info(0).reserved_size, 107);
    table.set_page(127, PageUsedStatus::Busy(1));
    assert_eq!(table.get_block_info(0).reserved_offset, 128);
    assert_eq!(table.get_block_info(0).reserved_size, 0);
}

#[test]
fn block_erase_resets_the_block() {
    let mut table = BlockTable::new(3);
    table.set_page(2 * 128 + 9, PageUsedStatus::Busy(1));
    table.set_average_age(2, 77);
    table.set_erase_count(2, 5);
    table.set_last_erase_time(2, 100);
    table.erase_block_at(2, 12345);
    let info = table.get_block_info(2);
    assert_eq!(info.reserved_offset, 0);
    assert_eq!(info.reserved_size, 128);
    assert_eq!(info.erase_count, 6);
    assert_eq!(info.last_erase_time, 12345);
    assert_eq!(info.average_age, 77);
    assert_eq!(table.get_page(2 * 128 + 9), PageUsedStatus::Clean);
    table.erase_block(2);
    assert_eq!(table.get_block_info(2).erase_count, 7);
    assert_eq!(table.get_block_info(1).erase_count, 0);
}

fn fill(manager: &mut GCManager, block: u32, pages: u32, ino: u32) {
    for p in 0..pages {
        manager.set_page(block * 128 + p, PageUsedStatus::Busy(ino));
    }
}

#[test]
fn plan_has_one_move_per_run() {
    let mut manager = GCManager::new();
    // block 2: inode 1 on pages 0..3, inode 2 on pages 3..5, a dirty page,
    // inode 2 again on page 6, inode 1 on the last page
    for p in 0..3 {
        manager.set_page(256 + p, PageUsedStatus::Busy(1));
    }
    manager.set_page(256 + 3, PageUsedStatus::Busy(2));
    manager.set_page(256 + 4, PageUsedStatus::Busy(2));
    manager.set_page(256 + 5, PageUsedStatus::Dirty);
    manager.set_page(256 + 6, PageUsedStatus::Busy(2));
    manager.set_page(256 + 127, PageUsedStatus::Busy(1));
    // every other block is fuller
    for block in [0, 1, 3, 4, 5, 6, 7] {
        fill(&mut manager, block, 20, 9);
    }
    assert!(manager.can_plan());
    let plan = manager.new_gc_event(GCStrategy::BackgroundSimple);
    let moves = [(1, 3, 0), (2, 2, 3), (2, 1, 6), (1, 1, 127)];
    assert_eq!(plan.events.len(), 5);
    for (i, (ino, size, start)) in moves.iter().enumerate() {
        assert_eq!(
            plan.events[i],
            GCEvent::Move(MoveGCEvent {
                index: i as u32,
                ino: *ino,
                size: *size,
                o_address: 256 + start,
                // the first block other than the victim with room: block 0, after its 20 pages
                d_address: 20,
            })
        );
    }
    assert_eq!(plan.events[4], GCEvent::Erase(EraseGCEvent { index: 4, block_no: 2 }));
    // the planner changed no block
    assert_eq!(manager.get_page(256), PageUsedStatus::Busy(1));
    assert_eq!(manager.get_block_info(2).reserved_offset, 128);
}

#[test]
fn victim_is_the_first_block_of_lowest_utilisation() {
    let mut manager = GCManager::new();
    for block in [0, 1, 2, 3, 4, 7] {
        fill(&mut manager, block, 9, 1);
    }
    fill(&mut manager, 5, 4, 1);
    fill(&mut manager, 6, 4, 1);
    for strategy in [GCStrategy::Forward, GCStrategy::BackgroundSimple, GCStrategy::BackgroundCold] {
        let plan = manager.new_gc_event(strategy);
        assert_eq!(
            plan.events[0],
            GCEvent::Move(MoveGCEvent { index: 0, ino: 1, size: 4, o_address: 640, d_address: 9 })
        );
        assert_eq!(plan.events[1], GCEvent::Erase(EraseGCEvent { index: 1, block_no: 5 }));
    }
    // a block without live pages is emptier still, written or not
    manager.set_page(3 * 128, PageUsedStatus::Dirty);
    for p in 1..9 {
        manager.set_page(3 * 128 + p, PageUsedStatus::Dirty);
    }
    let plan = manager.new_gc_event(GCStrategy::Forward);
    assert_eq!(plan.events, vec![GCEvent::Erase(EraseGCEvent { index: 0, block_no: 3 })]);
}

#[test]
fn unwritten_block_is_chosen_before_a_written_one() {
    let mut manager = GCManager::new();
    fill(&mut manager, 0, 5, 0);
    let plan = manager.new_gc_event(GCStrategy::Forward);
    assert_eq!(plan.events, vec![GCEvent::Erase(EraseGCEvent { index: 0, block_no: 1 })]);
}

#[test]
fn fresh_table_plans_the_erase_of_block_zero() {
    let mut manager = GCManager::new();
    assert!(manager.can_plan());
    let plan = manager.new_gc_event(GCStrategy::Forward);
    assert_eq!(plan.events, vec![GCEvent::Erase(EraseGCEvent { index: 0, block_no: 0 })]);
}

#[test]
fn plan_without_room() {
    let mut manager = GCManager::new();
    // the victim holds a run of 100 pages; no other block has 100 pages free
    fill(&mut manager, 0, 100, 1);
    for block in 1..8 {
        fill(&mut manager, block, 120, 2);
    }
    assert!(!manager.can_plan());
    // with a block erased there is room
    manager.erase_block(7);
    // block 7 is now the emptiest, and has nothing to move
    assert!(manager.can_plan());
    let plan = manager.new_gc_event(GCStrategy::Forward);
    assert_eq!(plan.events, vec![GCEvent::Erase(EraseGCEvent { index: 0, block_no: 7 })]);
}

#[test]
fn next_position_to_write() {
    let mut manager = GCManager::new();
    assert_eq!(manager.find_next_pos_to_write(128), Some(0));
    manager.set_page(0, PageUsedStatus::Busy(0));
    assert_eq!(manager.find_next_pos_to_write(127), Some(1));
    assert_eq!(manager.find_next_pos_to_write(128), Some(128));
    assert_eq!(manager.find_next_pos_to_write(129), None);
    assert_eq!(manager.find_next_pos_to_write(0), Some(1));
}

#[test]
fn block_figures() {
    let mut manager = GCManager::new();
    manager.set_block_info(4, BITSegement { last_erase_time: 11, erase_count: 22, average_age: 33 });
    let info = manager.get_block_info(4);
    assert_eq!((info.last_erase_time, info.erase_count, info.average_age), (11, 22, 33));
    assert_eq!(manager.get_block_info(3).erase_count, 0);
    manager.set_page(4 * 128, PageUsedStatus::Busy(1));
    manager.erase_block(4);
    let info = manager.get_block_info(4);
    assert_eq!(info.erase_count, 23);
    assert_eq!(info.average_age, 33);
    assert_eq!(info.reserved_offset, 0);
    assert_eq!(manager.get_page(4 * 128), PageUsedStatus::Clean);
}
