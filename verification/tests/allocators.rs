use kernel::allocators::align_up;
use kernel::allocators::buddy_alloc::{
    init_global_alloc, AllocError, BlockSize, BuddyAllocator, BuddyBlockPages,
};
use kernel::allocators::paging::{
    add_pages_from_range, get_page, get_zpage, return_page, FreePages, PAGE_SIZE,
};

fn pages_of(free: &mut FreePages) -> Vec<usize> {
    let mut out = Vec::new();
    while let Some(p) = get_page(free) {
        out.push(p);
    }
    out.reverse();
    out
}

#[test]
fn align_up_rounds_to_next_multiple() {
    assert_eq!(align_up(0x1001, 0x1000), 0x2000);
    assert_eq!(align_up(0x1fff, 0x1000), 0x2000);
    assert_eq!(align_up(13, 8), 16);
}

#[test]
fn align_up_keeps_aligned_addresses() {
    assert_eq!(align_up(0x1000, 0x1000), 0x1000);
    assert_eq!(align_up(0, 8), 0);
    assert_eq!(align_up(5, 1), 5);
}

#[test]
fn page_size_is_four_kib() {
    assert_eq!(PAGE_SIZE, 4096);
}

#[test]
fn add_pages_from_range_aligns_start_up() {
    let mut free = FreePages::new();
    add_pages_from_range(&mut free, 0x1001..0x4000);
    assert_eq!(free.len(), 2);
    assert_eq!(pages_of(&mut free), vec![0x2000, 0x3000]);
}

#[test]
fn add_pages_from_range_takes_the_page_that_holds_the_end() {
    let mut free = FreePages::new();
    add_pages_from_range(&mut free, 0x1000..0x2800);
    assert_eq!(pages_of(&mut free), vec![0x1000, 0x2000]);
}

#[test]
fn add_pages_from_range_of_nothing_adds_nothing() {
    let mut free = FreePages::new();
    add_pages_from_range(&mut free, 0x5000..0x5000);
    add_pages_from_range(&mut free, 0x5001..0x5800);
    assert_eq!(free.len(), 0);
}

#[test]
fn get_page_hands_out_the_last_page_added() {
    let mut free = FreePages::new();
    add_pages_from_range(&mut free, 0x8000..0xb000);
    assert_eq!(get_page(&mut free), Some(0xa000));
    assert_eq!(get_page(&mut free), Some(0x9000));
    assert_eq!(get_zpage(&mut free), Some(0x8000));
    assert_eq!(get_page(&mut free), None);
    assert_eq!(get_zpage(&mut free), None);
}

#[test]
fn returned_page_is_handed_out_next() {
    let mut free = FreePages::new();
    add_pages_from_range(&mut free, 0x8000..0xa000);
    return_page(&mut free, 0x42000);
    assert_eq!(free.len(), 3);
    assert_eq!(get_page(&mut free), Some(0x42000));
    assert_eq!(pages_of(&mut free), vec![0x8000, 0x9000]);
}

#[test]
fn block_size_classes() {
    assert_eq!(BlockSize::try_from(0), Ok(BlockSize::Bs4));
    assert_eq!(BlockSize::try_from(3), Ok(BlockSize::Bs4));
    assert_eq!(BlockSize::try_from(5), Ok(BlockSize::Bs8));
    assert_eq!(BlockSize::try_from(100), Ok(BlockSize::Bs128));
    assert_eq!(BlockSize::try_from(4096), Ok(BlockSize::Bs4K));
}

#[test]
fn block_size_too_large_gives_next_power_of_two() {
    assert_eq!(BlockSize::try_from(4097), Err(8192));
    assert_eq!(BlockSize::try_from(65536), Err(65536));
}

#[test]
fn block_size_bytes_and_split() {
    assert_eq!(BlockSize::Bs1M.bytes(), 0x100000);
    assert_eq!(BlockSize::Bs4K.bytes(), 0x1000);
    assert_eq!(BlockSize::Bs4.bytes(), 4);
    assert_eq!(BlockSize::Bs64K.split(), Some(BlockSize::Bs32K));
    assert_eq!(BlockSize::Bs8.split(), Some(BlockSize::Bs4));
    assert_eq!(BlockSize::Bs4.split(), None);
}

#[test]
fn block_slots_are_taken_lowest_first_and_reused() {
    let mut pool = BuddyBlockPages::new();
    let mut pages = FreePages::new();
    assert_eq!(pool.get_block(&mut pages), 0);
    assert_eq!(pool.get_block(&mut pages), 1);
    assert_eq!(pool.get_block(&mut pages), 2);
    pool.return_block(1);
    assert_eq!(pool.get_block(&mut pages), 1);
    assert_eq!(pool.get_block(&mut pages), 3);
}

#[test]
fn block_slots_take_a_new_page_when_full() {
    let mut pool = BuddyBlockPages::new();
    let mut pages = FreePages::new();
    add_pages_from_range(&mut pages, 0x7000..0x8000);
    for i in 0..128 {
        assert_eq!(pool.get_block(&mut pages), i);
    }
    assert_eq!(pages.len(), 1);
    assert_eq!(pool.get_block(&mut pages), 128);
    assert_eq!(pages.len(), 0);
    assert_eq!(pool.get_block(&mut pages), 129);
}

#[test]
fn get_block_reuses_before_taking_new() {
    let mut new_blocks = vec![(127usize, 0x1000usize), (3, 0x2000)];
    let mut reuse = vec![0x3000usize, 0x3010];
    assert_eq!(BuddyAllocator::get_block(&mut new_blocks, &mut reuse), 0x3010);
    assert_eq!(reuse, vec![0x3000]);
    assert_eq!(new_blocks, vec![(127, 0x1000), (3, 0x2000)]);
}

#[test]
fn get_block_takes_from_first_page_with_room() {
    let mut new_blocks = vec![(127usize, 0x1000usize), (3, 0x2000)];
    let mut reuse: Vec<usize> = Vec::new();
    assert_eq!(BuddyAllocator::get_block(&mut new_blocks, &mut reuse), 0x1000);
    assert_eq!(new_blocks, vec![(128, 0x1001), (3, 0x2000)]);
}

#[test]
fn get_block_skips_a_full_page() {
    let mut new_blocks = vec![(169usize, 0x1000usize), (3, 0x2000)];
    let mut reuse: Vec<usize> = Vec::new();
    assert_eq!(BuddyAllocator::get_block(&mut new_blocks, &mut reuse), 0x2000);
    assert_eq!(new_blocks, vec![(169, 0x1000), (4, 0x2001)]);
}

fn allocator() -> (BuddyAllocator, FreePages) {
    let mut free = FreePages::new();
    add_pages_from_range(&mut free, 0x10000..0x22000);
    assert_eq!(free.len(), 18);
    let a = BuddyAllocator::new(&mut free);
    (a, free)
}

#[test]
fn buddy_allocator_takes_seventeen_pages() {
    let (_a, mut free) = allocator();
    assert_eq!(free.len(), 1);
    assert_eq!(get_page(&mut free), Some(0x10000));
}

#[test]
fn buddy_allocator_hands_out_the_first_page_split_down() {
    let (mut a, _free) = allocator();
    // The first page taken, 0x21000, is the leftmost leaf of the tree.
    assert_eq!(a.alloc_block(16, 8), Ok(0x21000));
    assert_eq!(a.alloc_block(16, 8), Ok(0x21010));
    assert_eq!(a.alloc_block(32, 8), Ok(0x21020));
    assert_eq!(a.alloc_block(3, 1), Ok(0x21040));
}

#[test]
fn buddy_allocator_hands_out_whole_pages() {
    let (mut a, _free) = allocator();
    assert_eq!(a.alloc_block(4096, 4096), Ok(0x21000));
    assert_eq!(a.alloc_block(4096, 4096), Ok(0x20000));
    assert_eq!(a.alloc_block(100, 4), Ok(0x1f000));
}

#[test]
fn buddy_allocator_gives_a_freed_block_back_out() {
    let (mut a, _free) = allocator();
    assert_eq!(a.alloc_block(16, 8), Ok(0x21000));
    assert_eq!(a.alloc_block(16, 8), Ok(0x21010));
    a.dealloc(0x21000);
    assert_eq!(a.alloc_block(16, 8), Ok(0x21000));
    assert_eq!(a.alloc_block(16, 8), Ok(0x21020));
}

#[test]
fn buddy_allocator_merges_freed_halves() {
    let (mut a, _free) = allocator();
    assert_eq!(a.alloc_block(2048, 8), Ok(0x21000));
    assert_eq!(a.alloc_block(2048, 8), Ok(0x21800));
    a.dealloc(0x21000);
    a.dealloc(0x21800);
    // The two halves merged back into a page.
    assert_eq!(a.alloc_block(4096, 4096), Ok(0x21000));
}

#[test]
fn buddy_allocator_fails_on_alignment_above_its_pages() {
    let (mut a, _free) = allocator();
    assert_eq!(a.alloc_block(16, 0x20000), Err(AllocError));
}

#[test]
fn init_global_alloc_sets_the_allocator() {
    let mut free = FreePages::new();
    add_pages_from_range(&mut free, 0x10000..0x21000);
    let mut global: Option<BuddyAllocator> = None;
    init_global_alloc(&mut global, &mut free);
    assert!(global.is_some());
    assert_eq!(free.len(), 0);
    let mut a = global.unwrap();
    assert_eq!(a.alloc_block(8, 8), Ok(0x20000));
}

#[test]
fn free_slot_count_follows_the_splits() {
    let (mut a, _free) = allocator();
    assert_eq!(a.free_slot_count(), 128 - 31);
    // Splitting a page down to 16 bytes takes eight splits, two slots each.
    assert_eq!(a.alloc_block(16, 8), Ok(0x21000));
    assert_eq!(a.free_slot_count(), 128 - 31 - 16);
    a.dealloc(0x21000);
    // Freeing merges the page back and hands the slots back.
    assert_eq!(a.free_slot_count(), 128 - 31);
}

#[test]
fn can_alloc_checks_the_slots_for_the_splits() {
    let (mut a, _free) = allocator();
    assert!(a.can_alloc(16, 8));
    assert!(a.can_alloc(4096, 4096));
    let mut count: usize = 0;
    while a.can_alloc(4, 4) {
        a.alloc_block(4, 4).unwrap();
        count += 1;
    }
    // Once the slots run out, only blocks already split off can be handed out.
    assert!(count > 0);
    assert!(a.free_slot_count() < 20);
    assert!(a.can_alloc(4096, 4096));
}

#[test]
fn can_dealloc_finds_blocks_in_use_only() {
    let (mut a, _free) = allocator();
    assert!(!a.can_dealloc(0x21000));
    assert_eq!(a.alloc_block(16, 8), Ok(0x21000));
    assert!(a.can_dealloc(0x21000));
    assert!(!a.can_dealloc(0x21010));
    assert!(!a.can_dealloc(0x12345));
    a.dealloc(0x21000);
    assert!(!a.can_dealloc(0x21000));
}

#[test]
fn buddy_allocator_honours_each_alignment() {
    let (mut a, _free) = allocator();
    assert_eq!(a.alloc_block(4, 4), Ok(0x21000));
    let p = a.alloc_block(16, 16).unwrap();
    assert_eq!(p % 16, 0);
    assert_eq!(p, 0x21010);
    let q = a.alloc_block(64, 32).unwrap();
    assert_eq!(q % 32, 0);
    assert_eq!(q, 0x21040);
    assert_eq!(a.alloc_block(8, 64), Err(AllocError));
}

#[test]
fn buddy_allocator_splits_a_larger_free_block_when_none_fits() {
    let (mut a, _free) = allocator();
    assert_eq!(a.alloc_block(4096, 4096), Ok(0x21000));
    // No free block of 2 KiB exists; the next 4 KiB page is split for it.
    assert_eq!(a.alloc_block(2048, 2048), Ok(0x20000));
    assert_eq!(a.alloc_block(2048, 2048), Ok(0x20800));
}

#[test]
fn slots_come_back_only_when_halves_merge() {
    let (mut a, _free) = allocator();
    assert_eq!(a.alloc_block(16, 8), Ok(0x21000));
    assert_eq!(a.alloc_block(16, 8), Ok(0x21010));
    assert_eq!(a.free_slot_count(), 128 - 31 - 16);
    // The buddy is still in use: nothing merges.
    a.dealloc(0x21000);
    assert_eq!(a.free_slot_count(), 128 - 31 - 16);
    a.dealloc(0x21010);
    assert_eq!(a.free_slot_count(), 128 - 31);
}
