use kernel_core::bitmap::{decomposition, Bitmap, BlockCache, BLOCK_BITS, BLOCK_SZ, BLOCK_WORDS};

fn snapshot(cache: &BlockCache) -> Vec<u64> {
    let mut words = Vec::new();
    for block in 0..cache.len() {
        for word in 0..BLOCK_WORDS {
            words.push(cache.word(block, word));
        }
    }
    words
}

#[test]
fn block_constants_agree() {
    assert_eq!(BLOCK_SZ, 512);
    assert_eq!(BLOCK_BITS, BLOCK_SZ * 8);
    assert_eq!(BLOCK_BITS, 4096);
    assert_eq!(BLOCK_WORDS * 64, BLOCK_BITS);
}

#[test]
fn new_cache_is_zeroed_and_clean() {
    let cache = BlockCache::new(3);
    assert_eq!(cache.len(), 3);
    for block in 0..3 {
        assert!(!cache.is_dirty(block));
        for word in 0..BLOCK_WORDS {
            assert_eq!(cache.word(block, word), 0);
        }
    }
}

#[test]
fn modify_writes_one_word_and_marks_dirty() {
    let mut cache = BlockCache::new(2);
    cache.modify(1, 7, 0xdead_beef);
    assert_eq!(cache.word(1, 7), 0xdead_beef);
    assert_eq!(cache.word(1, 6), 0);
    assert_eq!(cache.word(0, 7), 0);
    assert!(cache.is_dirty(1));
    assert!(!cache.is_dirty(0));
    cache.mark_clean(1);
    assert!(!cache.is_dirty(1));
    assert_eq!(cache.word(1, 7), 0xdead_beef);
}

#[test]
fn decomposition_splits_into_block_word_and_bit() {
    assert_eq!(decomposition(0), (0, 0, 0));
    assert_eq!(decomposition(63), (0, 0, 63));
    assert_eq!(decomposition(64), (0, 1, 0));
    assert_eq!(decomposition(4095), (0, 63, 63));
    assert_eq!(decomposition(4096), (1, 0, 0));
    assert_eq!(decomposition(3 * 4096 + 5 * 64 + 7), (3, 5, 7));
}

#[test]
fn decomposition_recomposes() {
    let mut bit: usize = 0;
    while bit < 3 * BLOCK_BITS {
        let (block, word, inner) = decomposition(bit);
        assert!(word < 64);
        assert!(inner < 64);
        assert_eq!(block * BLOCK_BITS + word * 64 + inner, bit);
        bit += 37;
    }
}

#[test]
fn first_fit_reuses_freed_lowest_slot() {
    let mut cache = BlockCache::new(6);
    let bitmap = Bitmap::new(5, 1);
    assert_eq!(bitmap.allocate(&mut cache), Some(0));
    assert_eq!(bitmap.allocate(&mut cache), Some(1));
    bitmap.dealloc(&mut cache, 0);
    assert_eq!(bitmap.allocate(&mut cache), Some(0));
    assert_eq!(bitmap.allocate(&mut cache), Some(2));
}

#[test]
fn allocation_sets_bits_from_the_lowest() {
    let mut cache = BlockCache::new(6);
    let bitmap = Bitmap::new(5, 1);
    assert_eq!(bitmap.allocate(&mut cache), Some(0));
    assert_eq!(cache.word(5, 0), 1);
    assert_eq!(bitmap.allocate(&mut cache), Some(1));
    assert_eq!(cache.word(5, 0), 3);
    for expected in 2..64 {
        assert_eq!(bitmap.allocate(&mut cache), Some(expected));
    }
    assert_eq!(cache.word(5, 0), u64::MAX);
    assert_eq!(cache.word(5, 1), 0);
    assert_eq!(bitmap.allocate(&mut cache), Some(64));
    assert_eq!(cache.word(5, 1), 1);
    for block in 0..5 {
        for word in 0..BLOCK_WORDS {
            assert_eq!(cache.word(block, word), 0);
        }
    }
}

#[test]
fn allocation_marks_only_its_block_dirty() {
    let mut cache = BlockCache::new(4);
    let bitmap = Bitmap::new(1, 2);
    assert_eq!(bitmap.allocate(&mut cache), Some(0));
    assert!(!cache.is_dirty(0));
    assert!(cache.is_dirty(1));
    assert!(!cache.is_dirty(2));
    assert!(!cache.is_dirty(3));
    cache.mark_clean(1);
    bitmap.dealloc(&mut cache, 0);
    assert!(cache.is_dirty(1));
    assert!(!cache.is_dirty(2));
}

#[test]
fn exhausted_region_returns_none() {
    let mut cache = BlockCache::new(1);
    let bitmap = Bitmap::new(0, 1);
    for expected in 0..BLOCK_BITS {
        assert_eq!(bitmap.allocate(&mut cache), Some(expected));
    }
    assert_eq!(bitmap.maximum(), BLOCK_BITS);
    let before = snapshot(&cache);
    cache.mark_clean(0);
    assert_eq!(bitmap.allocate(&mut cache), None);
    assert_eq!(bitmap.allocate(&mut cache), None);
    assert_eq!(snapshot(&cache), before);
    assert!(!cache.is_dirty(0));
    assert_eq!(bitmap.maximum(), BLOCK_BITS);
}

#[test]
fn preset_full_block_returns_none() {
    let mut cache = BlockCache::new(1);
    for word in 0..BLOCK_WORDS {
        cache.modify(0, word, u64::MAX);
    }
    let bitmap = Bitmap::new(0, 1);
    assert_eq!(bitmap.allocate(&mut cache), None);
    assert_eq!(bitmap.maximum(), 4096);
}

#[test]
fn empty_region_has_nothing_to_give() {
    let mut cache = BlockCache::new(2);
    let bitmap = Bitmap::new(1, 0);
    assert_eq!(bitmap.maximum(), 0);
    assert_eq!(bitmap.allocate(&mut cache), None);
}

#[test]
fn maximum_does_not_depend_on_usage() {
    let mut cache = BlockCache::new(8);
    let bitmap = Bitmap::new(2, 3);
    assert_eq!(bitmap.maximum(), 3 * 4096);
    for _ in 0..100 {
        bitmap.allocate(&mut cache);
    }
    assert_eq!(bitmap.maximum(), 12288);
}

#[test]
fn allocation_moves_on_to_the_next_block() {
    let mut cache = BlockCache::new(3);
    for word in 0..BLOCK_WORDS {
        cache.modify(1, word, u64::MAX);
    }
    let bitmap = Bitmap::new(1, 2);
    assert_eq!(bitmap.allocate(&mut cache), Some(4096));
    assert_eq!(cache.word(2, 0), 1);
    assert_eq!(bitmap.allocate(&mut cache), Some(4097));
    bitmap.dealloc(&mut cache, 100);
    assert_eq!(cache.word(1, 1), u64::MAX & !(1u64 << 36));
    assert_eq!(bitmap.allocate(&mut cache), Some(100));
    assert_eq!(cache.word(1, 1), u64::MAX);
}

#[test]
fn allocation_finds_the_lowest_zero_bit_of_a_word() {
    let mut cache = BlockCache::new(1);
    cache.modify(0, 0, u64::MAX);
    cache.modify(0, 1, 0b1011_0111);
    let bitmap = Bitmap::new(0, 1);
    assert_eq!(bitmap.allocate(&mut cache), Some(64 + 3));
    assert_eq!(cache.word(0, 1), 0b1011_1111);
    assert_eq!(bitmap.allocate(&mut cache), Some(64 + 6));
    assert_eq!(cache.word(0, 1), 0b1111_1111);
    assert_eq!(bitmap.allocate(&mut cache), Some(64 + 8));
}

#[test]
fn allocation_takes_the_top_bit_of_a_word() {
    let mut cache = BlockCache::new(1);
    cache.modify(0, 0, u64::MAX >> 1);
    let bitmap = Bitmap::new(0, 1);
    assert_eq!(bitmap.allocate(&mut cache), Some(63));
    assert_eq!(cache.word(0, 0), u64::MAX);
    bitmap.dealloc(&mut cache, 63);
    assert_eq!(cache.word(0, 0), u64::MAX >> 1);
}

#[test]
fn successive_allocations_are_distinct() {
    let mut cache = BlockCache::new(4);
    cache.modify(1, 0, 0xaaaa_aaaa_aaaa_aaaa);
    cache.modify(1, 3, 0x0f0f_0f0f_0f0f_0f0f);
    let bitmap = Bitmap::new(1, 2);
    let mut seen: Vec<usize> = Vec::new();
    for _ in 0..500 {
        let bit = bitmap.allocate(&mut cache).unwrap();
        assert!(bit < bitmap.maximum());
        assert!(!seen.contains(&bit));
        seen.push(bit);
    }
}

#[test]
fn alloc_then_dealloc_restores_every_bit() {
    let mut cache = BlockCache::new(3);
    cache.modify(1, 0, u64::MAX);
    cache.modify(1, 1, 0x00ff_00ff_00ff_00ff);
    cache.modify(2, 9, 12345);
    let bitmap = Bitmap::new(1, 2);
    let before = snapshot(&cache);
    let bit = bitmap.allocate(&mut cache).unwrap();
    assert_eq!(bit, 64 + 8);
    assert!(bitmap.is_allocated(&cache, bit));
    assert_ne!(snapshot(&cache), before);
    bitmap.dealloc(&mut cache, bit);
    assert!(!bitmap.is_allocated(&cache, bit));
    assert_eq!(snapshot(&cache), before);
}

#[test]
fn is_allocated_reads_single_bits() {
    let mut cache = BlockCache::new(2);
    cache.modify(1, 2, 0b101);
    let bitmap = Bitmap::new(1, 1);
    assert!(bitmap.is_allocated(&cache, 128));
    assert!(!bitmap.is_allocated(&cache, 129));
    assert!(bitmap.is_allocated(&cache, 130));
    assert!(!bitmap.is_allocated(&cache, 0));
    assert!(!bitmap.is_allocated(&cache, 4095));
}

#[test]
fn dealloc_clears_only_its_bit() {
    let mut cache = BlockCache::new(1);
    cache.modify(0, 5, 0b1110);
    let bitmap = Bitmap::new(0, 1);
    bitmap.dealloc(&mut cache, 5 * 64 + 2);
    assert_eq!(cache.word(0, 5), 0b1010);
    assert_eq!(cache.word(0, 4), 0);
}

#[test]
fn lies_within_compares_region_and_cache() {
    let cache = BlockCache::new(6);
    assert!(Bitmap::new(5, 1).lies_within(&cache));
    assert!(Bitmap::new(0, 6).lies_within(&cache));
    assert!(Bitmap::new(6, 0).lies_within(&cache));
    assert!(!Bitmap::new(5, 2).lies_within(&cache));
    assert!(!Bitmap::new(7, 0).lies_within(&cache));
}
