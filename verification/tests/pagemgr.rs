use milkyapps_core::pagemgr::bitmap::{bit_is_set, clear_bit, set_bit};
use milkyapps_core::pagemgr::layout::{layout_fits, page_layout, size_class};
use milkyapps_core::pagemgr::text::format_slot_bytes;
use milkyapps_core::pagemgr::{
    AllocId, ByteOrder, FlushError, OpenError, OptionsError, PageId, PageManager, SlotId, DEFAULT_PAGE_SIZE,
};

fn open() -> PageManager {
    PageManager::create(DEFAULT_PAGE_SIZE, 16)
}

fn put(mgr: &mut PageManager, id: AllocId, value: u64) {
    mgr.slot_bytes_mut(id)[..8].copy_from_slice(&value.to_le_bytes());
}

fn get(mgr: &PageManager, id: AllocId) -> u64 {
    let mut bytes = [0u8; 8];
    bytes.copy_from_slice(&mgr.slot_bytes(id)[..8]);
    u64::from_le_bytes(bytes)
}

/// Allocates and flushes when due, with everything going well.
fn take<T: Copy>(mgr: &mut PageManager) -> Option<AllocId> {
    let id = mgr.alloc_for::<T>(true);
    let synced = mgr.dirty.len();
    mgr.maybe_flush_by_threshold(synced);
    id
}

fn give_back(mgr: &mut PageManager, id: AllocId) {
    mgr.dealloc(id);
    let synced = mgr.dirty.len();
    mgr.maybe_flush_by_threshold(synced);
}

#[test]
fn open_creates_initialized_file() {
    let mgr = open();
    assert_eq!(mgr.page_size(), DEFAULT_PAGE_SIZE);
    assert_eq!(mgr.page_count(), 1);
    assert_eq!(mgr.image.len(), DEFAULT_PAGE_SIZE);
    assert!(mgr.is_consistent());
}

#[test]
fn open_existing_reuses_metadata() {
    let image = {
        let mut mgr = open();
        let id = take::<u64>(&mut mgr).unwrap();
        put(&mut mgr, id, 0xDEAD_BEEF);
        mgr.flush_all(true).unwrap();
        mgr.image
    };
    let mgr = PageManager::open_existing(image).unwrap();
    assert!(mgr.page_count() >= 2);
    assert_eq!(mgr.page_size(), DEFAULT_PAGE_SIZE);
    assert!(mgr.is_consistent());
}

#[test]
fn alloc_dealloc_roundtrip_reuses_slot() {
    let mut mgr = open();
    let a = take::<u32>(&mut mgr).unwrap();
    mgr.slot_bytes_mut(a).copy_from_slice(&42u32.to_le_bytes());
    assert_eq!(mgr.slot_bytes(a), &42u32.to_le_bytes());
    give_back(&mut mgr, a);
    let b = take::<u32>(&mut mgr).unwrap();
    assert_eq!(
        a, b,
        "after dealloc, the same page/slot should be handed out again"
    );
}

#[test]
fn alloc_writes_survive_flush_and_reopen() {
    let (page, slot, size, image) = {
        let mut mgr = open();
        let id = take::<u64>(&mut mgr).unwrap();
        put(&mut mgr, id, 0x1234_5678_9ABC_DEF0);
        mgr.flush_all(true).unwrap();
        (id.page_id(), id.slot_id(), id.size(), mgr.image)
    };
    let mgr = PageManager::open_existing(image).unwrap();
    let id = AllocId {
        size,
        page_id: page,
        slot_id: slot,
    };
    assert_eq!(get(&mgr, id), 0x1234_5678_9ABC_DEF0);
}

#[test]
fn distinct_size_classes_use_distinct_pages() {
    let mut mgr = open();
    let small = take::<u8>(&mut mgr).unwrap();
    let large = take::<[u8; 64]>(&mut mgr).unwrap();
    assert_ne!(
        small.page_id(),
        large.page_id(),
        "different size classes must not share a data page"
    );
    assert_ne!(small.size(), large.size());
}

#[test]
fn filling_a_page_allocates_another() {
    let page_size = 512;
    let mut mgr = PageManager::create(page_size, 64);
    let slots = page_layout(page_size, size_class(8)).unwrap().slot_count;
    assert!(slots >= 1);

    let mut ids = Vec::with_capacity(slots + 1);
    for i in 0..=slots {
        let id = take::<u64>(&mut mgr).expect("alloc");
        put(&mut mgr, id, i as u64);
        ids.push(id);
    }
    let pages: std::collections::BTreeSet<usize> = ids.iter().map(|id| id.page_id().0).collect();
    assert!(
        pages.len() >= 2,
        "expected at least two data pages after overflowing one, got {pages:?}"
    );
    for (i, id) in ids.iter().enumerate() {
        assert_eq!(get(&mgr, *id), i as u64);
    }
}

#[test]
fn dealloc_then_alloc_many_does_not_leak_pages() {
    let mut mgr = open();
    let first = take::<u64>(&mut mgr).unwrap();
    let pages_after_first = mgr.page_count();
    for _ in 0..64 {
        give_back(&mut mgr, first);
        let again = take::<u64>(&mut mgr).unwrap();
        assert_eq!(again, first);
    }
    assert_eq!(
        mgr.page_count(),
        pages_after_first,
        "recycling must not grow the file"
    );
}

#[test]
fn dirty_threshold_triggers_flush() {
    let mut mgr = PageManager::create(DEFAULT_PAGE_SIZE, 2);
    let a = take::<u64>(&mut mgr).unwrap();
    assert!(mgr.dirty.len() < 8);
    let b = take::<u32>(&mut mgr).unwrap();
    let c = take::<u16>(&mut mgr).unwrap();
    assert!(
        mgr.dirty.len() < 16,
        "dirty list should be flushed periodically, len={}",
        mgr.dirty.len()
    );
    give_back(&mut mgr, a);
    give_back(&mut mgr, b);
    give_back(&mut mgr, c);
    mgr.flush_all(true).unwrap();
    assert!(mgr.dirty.is_empty());
}

#[test]
fn flush_page_removes_from_dirty_set() {
    let mut mgr = PageManager::create(DEFAULT_PAGE_SIZE, 100);
    let id = take::<u64>(&mut mgr).unwrap();
    assert!(mgr.dirty.contains(&id.page_id()));
    mgr.flush_page(id.page_id(), true).unwrap();
    assert!(!mgr.dirty.contains(&id.page_id()));
}

#[test]
fn alloc_rejects_type_larger_than_page_payload() {
    let mut mgr = open();
    assert!(take::<[u8; DEFAULT_PAGE_SIZE]>(&mut mgr).is_none());
}

#[test]
fn open_rejects_truncated_file() {
    let err = PageManager::open_existing(vec![0u8; 16]);
    assert!(matches!(err, Err(OpenError::TooSmall)));
}

#[test]
fn concurrent_size_class_lists_are_independent() {
    let mut mgr = open();
    let mut eights = vec![];
    let mut sixteens = vec![];
    for _ in 0..8 {
        eights.push(take::<u64>(&mut mgr).unwrap());
        sixteens.push(take::<[u8; 16]>(&mut mgr).unwrap());
    }
    for id in &eights {
        assert_eq!(id.size(), 8);
    }
    for id in &sixteens {
        assert_eq!(id.size(), 16);
    }
    for id in eights {
        give_back(&mut mgr, id);
    }
    for id in sixteens {
        let recycled = take::<u64>(&mut mgr).unwrap();
        assert_eq!(recycled.size(), 8);
        assert_ne!(recycled.page_id(), id.page_id());
        give_back(&mut mgr, recycled);
    }
}

#[test]
fn page_layout_derives_slot_count_from_page_size_and_class() {
    let layout = page_layout(512, size_class(64)).unwrap();
    assert_eq!(layout.slot_size, 64);
    assert_eq!(layout.slot_count, 7);
    assert_eq!(layout.bitmap_bytes, 1);
    assert_eq!(layout.payload_off, 64);

    let tiny = page_layout(512, size_class(1)).unwrap();
    assert_eq!(tiny.slot_count, 433);
    assert_eq!(tiny.bitmap_bytes, tiny.slot_count.div_ceil(8));

    assert!(page_layout(512, size_class(512)).is_none());
}

#[test]
fn bitmap_set_clear_helpers() {
    let mut bits = [0u8; 128];
    assert!(!bit_is_set(&bits, 0));
    set_bit(&mut bits, 0);
    assert!(bit_is_set(&bits, 0));
    set_bit(&mut bits, 7);
    set_bit(&mut bits, 8);
    assert!(bit_is_set(&bits, 7));
    assert!(bit_is_set(&bits, 8));
    clear_bit(&mut bits, 7);
    assert!(!bit_is_set(&bits, 7));
    assert!(bit_is_set(&bits, 8));
}

#[test]
fn size_class_matches_power_of_two_exponent() {
    assert_eq!(size_class(1), 0);
    assert_eq!(size_class(2), 1);
    assert_eq!(size_class(4), 2);
    assert_eq!(size_class(8), 3);
    assert_eq!(size_class(256), 8);
}

#[test]
fn drop_flushes_without_panic() {
    let mut mgr = open();
    let id = take::<u64>(&mut mgr).unwrap();
    put(&mut mgr, id, 7);
    mgr.flush_all(true).unwrap();
    let mgr = PageManager::open_existing(mgr.image).unwrap();
    assert_eq!(mgr.page_size(), DEFAULT_PAGE_SIZE);
}

#[test]
fn many_allocations_are_distinct() {
    let mut mgr = open();
    let mut ids = Vec::new();
    for i in 0..128 {
        let id = take::<u64>(&mut mgr).unwrap();
        put(&mut mgr, id, i);
        ids.push(id);
    }
    let mut seen = ids.clone();
    seen.sort_by_key(|a| (a.page_id().0, a.slot_id().0));
    seen.dedup();
    assert_eq!(seen.len(), ids.len(), "duplicate AllocIds handed out");
    for (i, id) in ids.iter().enumerate() {
        assert_eq!(get(&mgr, *id), i as u64);
    }
}

#[test]
fn open_refuses_what_is_not_a_store() {
    let mut image = vec![0u8; 512];
    assert!(matches!(
        PageManager::open_existing_in(ByteOrder::Little, image.clone()),
        Err(OpenError::InvalidPageSize)
    ));
    image[0] = 3;
    assert!(matches!(
        PageManager::open_existing_in(ByteOrder::Little, image.clone()),
        Err(OpenError::InvalidPageSize)
    ));
    image[0] = 16;
    assert!(matches!(
        PageManager::open_existing_in(ByteOrder::Little, image.clone()),
        Err(OpenError::InvalidPageSize)
    ));
    image[0] = 0;
    image[2] = 1;
    assert!(matches!(
        PageManager::open_existing_in(ByteOrder::Little, image.clone()),
        Err(OpenError::NotWholePages)
    ));
    image[2] = 0;
    image[1] = 2;
    assert!(PageManager::open_existing_in(ByteOrder::Little, image.clone()).is_ok());
    image.push(0);
    assert!(matches!(
        PageManager::open_existing_in(ByteOrder::Little, image),
        Err(OpenError::NotWholePages)
    ));
}

#[test]
fn damaged_links_are_noticed() {
    let mut mgr = PageManager::create_in(ByteOrder::Little, 512, 64);
    let id = take::<u64>(&mut mgr).unwrap();
    assert!(mgr.is_consistent());
    let page = id.page_id().0 * 512;
    let mut bad = mgr.image.clone();
    bad[page + 8] = 1; // a page that leads to itself
    assert!(!PageManager::open_existing_in(ByteOrder::Little, bad).unwrap().is_consistent());
    let mut bad = mgr.image.clone();
    bad[page + 16] = 40; // a class without a list
    assert!(!PageManager::open_existing_in(ByteOrder::Little, bad).unwrap().is_consistent());
    let mut bad = mgr.image.clone();
    bad[8] = 9; // a list that leads out of the store
    assert!(!PageManager::open_existing_in(ByteOrder::Little, bad).unwrap().is_consistent());
    let mut bad = mgr.image.clone();
    bad[8] = 1; // a list that leads to a page of another class
    assert!(!PageManager::open_existing_in(ByteOrder::Little, bad).unwrap().is_consistent());
    let mut bad = mgr.image.clone();
    bad[page] = 1; // a first page with one in front
    assert!(!PageManager::open_existing_in(ByteOrder::Little, bad).unwrap().is_consistent());
    let mut bad = mgr.image;
    for b in &mut bad[16..512] {
        *b = 0; // a page that no list leads to
    }
    assert!(!PageManager::open_existing_in(ByteOrder::Little, bad).unwrap().is_consistent());
}

#[test]
fn released_pages_stay_on_their_list() {
    let mut mgr = PageManager::create(512, 64);
    let a = mgr.alloc_slot(256, true).unwrap();
    let b = mgr.alloc_slot(256, true).unwrap();
    assert_ne!(a.page_id(), b.page_id());
    assert_eq!(mgr.page_count(), 3);
    mgr.dealloc(b);
    mgr.dealloc(a);
    assert!(mgr.is_consistent());
    assert!(mgr.debug_dump().contains("  class 8 (256B): [1, 2]\n"));
    assert_eq!(mgr.needed_len(256), None);
    let c = mgr.alloc_slot(256, true).unwrap();
    assert_eq!(mgr.needed_len(256), None);
    let d = mgr.alloc_slot(256, true).unwrap();
    assert_eq!((c.page_id(), d.page_id()), (PageId(1), PageId(2)));
    assert_eq!(mgr.page_count(), 3);
    assert_eq!(mgr.needed_len(256), Some(4 * 512));
}

#[test]
fn a_page_moves_to_the_front_when_a_slot_is_released() {
    let mut mgr = PageManager::create(512, 64);
    let ids: Vec<AllocId> = (0..4).map(|_| mgr.alloc_slot(256, true).unwrap()).collect();
    assert!(mgr.debug_dump().contains("  class 8 (256B): [4, 3, 2, 1]\n"));
    mgr.dealloc(ids[1]);
    assert!(mgr.debug_dump().contains("  class 8 (256B): [2, 4, 3, 1]\n"));
    mgr.dealloc(ids[1]);
    assert!(mgr.debug_dump().contains("  class 8 (256B): [2, 4, 3, 1]\n"));
    mgr.dealloc(ids[0]);
    assert!(mgr.debug_dump().contains("  class 8 (256B): [1, 2, 4, 3]\n"));
    assert!(mgr.is_consistent());
}

#[test]
fn flush_page_reports_its_errors() {
    let mut mgr = PageManager::create(512, 64);
    let id = take::<u64>(&mut mgr).unwrap();
    assert_eq!(
        mgr.flush_page(PageId(usize::MAX), true),
        Err(FlushError::OffsetOverflow)
    );
    assert_eq!(mgr.flush_page(PageId(2), true), Err(FlushError::OutOfRange));
    assert_eq!(
        mgr.flush_page(id.page_id(), false),
        Err(FlushError::NotSynced)
    );
    assert!(mgr.dirty.contains(&id.page_id()));
    assert_eq!(mgr.flush_all(false), Err(FlushError::NotSynced));
    assert_eq!(mgr.dirty, vec![PageId(1), PageId(0)]);
    assert_eq!(mgr.flush_dirty(1), Err(FlushError::NotSynced));
    assert_eq!(mgr.dirty, vec![PageId(0)]);
    assert_eq!(mgr.flush_dirty(1), Ok(()));
    assert!(mgr.dirty.is_empty());
}

#[test]
fn flush_is_due_at_the_threshold() {
    let mut mgr = PageManager::create(512, 2);
    assert!(!mgr.flush_due());
    let _ = mgr.alloc_for::<u64>(true).unwrap();
    assert_eq!(mgr.dirty.len(), 2);
    assert!(mgr.flush_due());
    mgr.maybe_flush_by_threshold(0);
    assert_eq!(mgr.dirty.len(), 2);
    mgr.maybe_flush_by_threshold(2);
    assert!(mgr.dirty.is_empty());
}

#[test]
fn growth_is_asked_for_and_may_fail() {
    let mut mgr = PageManager::create(512, 64);
    assert_eq!(mgr.needed_len(8), Some(1024));
    assert!(mgr.alloc_slot(8, false).is_none());
    assert_eq!(mgr.page_count(), 1);
    let id = mgr.alloc_slot(8, true).unwrap();
    assert_eq!(id.page_id(), PageId(1));
    assert_eq!(id.slot_id(), SlotId(0));
    assert_eq!(mgr.needed_len(8), None);
    assert_eq!(mgr.needed_len(512), None);
    let next = mgr.alloc_slot(8, false).unwrap();
    assert_eq!(next.slot_id(), SlotId(1));
}

#[test]
fn freed_slots_are_taken_from_the_lowest() {
    let mut mgr = PageManager::create(512, 64);
    let ids: Vec<AllocId> = (0..4).map(|_| take::<u64>(&mut mgr).unwrap()).collect();
    give_back(&mut mgr, ids[2]);
    give_back(&mut mgr, ids[1]);
    assert_eq!(take::<u64>(&mut mgr), Some(ids[1]));
    assert_eq!(take::<u64>(&mut mgr), Some(ids[2]));
}

#[test]
fn slots_are_where_the_layout_puts_them() {
    let mut mgr = PageManager::create(512, 64);
    let a = mgr.alloc_slot(64, true).unwrap();
    let b = mgr.alloc_slot(64, true).unwrap();
    assert_eq!(mgr.slot_offset(a), 512 + 64);
    assert_eq!(mgr.slot_offset(b), 512 + 128);
    mgr.slot_bytes_mut(a).fill(0xaa);
    mgr.slot_bytes_mut(b).fill(0xbb);
    assert_eq!(mgr.slot_bytes(a), &[0xaa; 64]);
    assert_eq!(mgr.slot_bytes(b), &[0xbb; 64]);
    assert!(PageManager::fits_slot::<[u8; 64]>(a));
    assert!(!PageManager::fits_slot::<[u8; 65]>(a));
}

#[test]
fn fitting_saturates() {
    assert!(layout_fits(512, 64, 7));
    assert!(!layout_fits(512, 64, 8));
    assert!(!layout_fits(usize::MAX, 1 << 62, 8));
    assert!(!layout_fits(usize::MAX, 2, usize::MAX));
}

#[test]
fn slot_bytes_are_shown_in_hex_and_ascii() {
    assert_eq!(format_slot_bytes(&[]), "  ||");
    assert_eq!(format_slot_bytes(b"Hi~"), "48 69 7e  |Hi~|");
    assert_eq!(
        format_slot_bytes(&[0x00, 0x1f, 0x20, 0x7f, 0xff]),
        "00 1f 20 7f ff  |.. ..|"
    );
}

#[test]
fn dump_of_an_empty_store() {
    let mgr = PageManager::create(512, 16);
    assert_eq!(
        mgr.debug_dump(),
        "page_count: 1\n\
         page_size: 512\n\
         dirty: []\n\
         dirties_before_flush: 16\n\
         free_lists:\n  (none)\n\
         \n=== page 0 (metadata) ===\n\
         dirties_before_flush: 16\n"
    );
}

#[test]
fn dump_shows_lists_pages_and_slots() {
    let mut mgr = PageManager::create(512, 16);
    let a = mgr.alloc_slot(8, true).unwrap();
    mgr.slot_bytes_mut(a).copy_from_slice(b"hello\0\0\0");
    let b = mgr.alloc_slot(16, true).unwrap();
    mgr.slot_bytes_mut(b).copy_from_slice(b"123456789A\0\0\0\0\0\0");
    let c = mgr.alloc_slot(8, true).unwrap();
    mgr.slot_bytes_mut(c).fill(0xff);
    mgr.dealloc(a);
    assert_eq!(
        mgr.debug_dump(),
        "page_count: 3\n\
         page_size: 512\n\
         dirty: [0, 1, 2]\n\
         dirties_before_flush: 16\n\
         free_lists:\n  class 3 (8B): [1]\n  class 4 (16B): [2]\n\
         \n=== page 0 (metadata) ===\n\
         dirties_before_flush: 16\n\
         \n=== page 1 (data, class=3, slot_size=8, slots=60, bitmap_bytes=8) ===\n\
         prev: 0  next: 0\n\
         occupied_slots: [1]\n\
         slot[1]: ff ff ff ff ff ff ff ff  |........|\n\
         \n=== page 2 (data, class=4, slot_size=16, slots=30, bitmap_bytes=4) ===\n\
         prev: 0  next: 0\n\
         occupied_slots: [0]\n\
         slot[0]: 31 32 33 34 35 36 37 38 39 41 00 00 00 00 00 00  |123456789A......|\n"
    );
}

#[test]
fn dump_names_a_page_without_a_layout() {
    let mut mgr = PageManager::create_in(ByteOrder::Little, 512, 16);
    let id = mgr.alloc_slot(8, true).unwrap();
    let page = id.page_id().0 * 512;
    mgr.image[page + 16] = 99;
    assert!(mgr
        .debug_dump()
        .ends_with("\n=== page 1 (data, class=99, invalid layout) ===\n"));
}

#[test]
fn a_new_page_is_linked_in_front() {
    let mut mgr = PageManager::create(512, 100);
    for _ in 0..8 {
        mgr.alloc_slot(64, true).unwrap();
    }
    let dump = mgr.debug_dump();
    assert!(dump.contains("  class 6 (64B): [2, 1]\n"));
    assert!(dump.contains("prev: 2  next: 0\n"));
    assert!(dump.contains("prev: 0  next: 1\n"));
}

#[test]
fn options_are_checked() {
    let check = PageManager::check_options;
    assert_eq!(check(DEFAULT_PAGE_SIZE, 16), Ok(()));
    assert_eq!(check(512, 1), Ok(()));
    assert_eq!(check(0, 1), Err(OptionsError::NotPowerOfTwo));
    assert_eq!(check(1000, 1), Err(OptionsError::NotPowerOfTwo));
    assert_eq!(check(256, 1), Err(OptionsError::NoRoomForMetadata));
    assert_eq!(check(512, 0), Err(OptionsError::NoThreshold));
}

#[test]
fn only_slots_of_the_store_are_recognised() {
    let mut mgr = PageManager::create(512, 64);
    let aid = mgr.alloc_slot(64, true).unwrap();
    assert!(mgr.is_slot(aid));
    let other = |size, page, slot| AllocId {
        size,
        page_id: PageId(page),
        slot_id: SlotId(slot),
    };
    assert!(mgr.is_slot(other(64, 1, 6)));
    assert!(!mgr.is_slot(other(64, 1, 7)));
    assert!(!mgr.is_slot(other(64, 2, 0)));
    assert!(!mgr.is_slot(other(64, 0, 0)));
    assert!(!mgr.is_slot(other(32, 1, 0)));
    assert!(!mgr.is_slot(other(63, 1, 0)));
}

#[test]
fn words_are_in_the_order_of_the_machine() {
    let mgr = PageManager::create(512, 17);
    assert_eq!(mgr.image[..8], 512u64.to_ne_bytes());
    assert_eq!(mgr.image[264..272], 17u64.to_ne_bytes());
    assert!(PageManager::open_existing(mgr.image).is_ok());
}

#[test]
fn stores_of_either_byte_order_can_be_worked_on() {
    for order in [ByteOrder::Little, ByteOrder::Big] {
        let mut mgr = PageManager::create_in(order, 512, 64);
        let a = mgr.alloc_slot(64, true).unwrap();
        let b = mgr.alloc_slot(128, true).unwrap();
        mgr.slot_bytes_mut(b).fill(7);
        let word = |v: u64| match order {
            ByteOrder::Little => v.to_le_bytes(),
            ByteOrder::Big => v.to_be_bytes(),
        };
        assert_eq!(mgr.image[..8], word(512));
        assert_eq!(mgr.image[8 + 8 * 6..16 + 8 * 6], word(1));
        let class = match order {
            ByteOrder::Little => 7u32.to_le_bytes(),
            ByteOrder::Big => 7u32.to_be_bytes(),
        };
        assert_eq!(mgr.image[1024 + 16..1024 + 20], class);
        let mut again = PageManager::open_existing_in(order, mgr.image).unwrap();
        assert!(again.is_consistent());
        assert!(again.is_slot(a));
        assert_eq!(again.slot_bytes(b), [7u8; 128]);
        again.dealloc(a);
        assert_eq!(again.alloc_slot(64, true), Some(a));
        let other = match order {
            ByteOrder::Little => ByteOrder::Big,
            ByteOrder::Big => ByteOrder::Little,
        };
        assert!(matches!(
            PageManager::open_existing_in(other, again.image),
            Err(OpenError::NotWholePages)
        ));
    }
}

#[test]
fn lists_can_be_built_anew() {
    let mut mgr = PageManager::create_in(ByteOrder::Little, 512, 64);
    let ids: Vec<AllocId> = (0..4).map(|_| mgr.alloc_slot(256, true).unwrap()).collect();
    let small = mgr.alloc_slot(8, true).unwrap();
    mgr.slot_bytes_mut(ids[1]).fill(3);
    // A list whose head stands in its middle.
    mgr.image[8 + 8 * 8] = 2;
    let mut mgr = PageManager::open_existing_in(ByteOrder::Little, mgr.image).unwrap();
    assert!(!mgr.is_consistent());
    assert!(mgr.rebuild_lists());
    assert!(mgr.is_consistent());
    assert!(mgr.debug_dump().contains("  class 8 (256B): [2, 4, 3, 1]\n"));
    assert!(mgr.debug_dump().contains("  class 3 (8B): [5]\n"));
    assert!(mgr.is_slot(small));
    assert_eq!(mgr.slot_bytes(ids[1]), [3u8; 256]);
    assert_eq!(mgr.needed_len(256), Some(7 * 512));
    mgr.dealloc(ids[0]);
    assert_eq!(mgr.alloc_slot(256, true), Some(ids[0]));

    // A page of a class without a list cannot be put anywhere.
    let before = mgr.image.clone();
    mgr.image[512 + 16] = 40;
    assert!(!mgr.rebuild_lists());
    mgr.image[512 + 16] = 8;
    assert_eq!(mgr.image, before);
}
