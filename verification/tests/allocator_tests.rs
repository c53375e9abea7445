use allocator::classes::{get_size_class, size_class_to_bucket, SLAB_SIZE};
use allocator::pool::LocalAlloc;
use allocator::source::ModelSource;

fn fresh() -> LocalAlloc<ModelSource> {
    LocalAlloc::new(ModelSource::new())
}

#[test]
fn size_class_values() {
    assert_eq!(get_size_class(1), 16);
    assert_eq!(get_size_class(15), 16);
    assert_eq!(get_size_class(16), 16);
    assert_eq!(get_size_class(17), 32);
    assert_eq!(get_size_class(32), 32);
    assert_eq!(get_size_class(33), 64);
    assert_eq!(get_size_class(1000), 1024);
    assert_eq!(get_size_class(1024), 1024);
    assert_eq!(get_size_class(1048575), 1048576);
    assert_eq!(get_size_class(1048576), 1048576);
}

#[test]
fn size_class_is_minimal_power_of_two() {
    for s in 1u32..=4096 {
        let c = get_size_class(s);
        assert!(c.is_power_of_two());
        assert!(c >= s);
        assert!(c >= 16);
        // minimality: the next power of two down fails one constraint
        assert!(c == 16 || c / 2 < s);
    }
}

#[test]
fn bucket_values() {
    assert_eq!(size_class_to_bucket(16), 0);
    assert_eq!(size_class_to_bucket(32), 1);
    assert_eq!(size_class_to_bucket(64), 2);
    assert_eq!(size_class_to_bucket(1024), 6);
    assert_eq!(size_class_to_bucket(1048576), 16);
}

#[test]
fn sizes_sharing_a_class_share_a_bucket() {
    for s in 17u32..=32 {
        assert_eq!(get_size_class(s), 32);
        assert_eq!(size_class_to_bucket(get_size_class(s)), 1);
    }
}

#[test]
fn round_trip_reuses_block_without_new_mapping() {
    let mut a = fresh();
    let p = a.allocate(100);
    assert_ne!(p, 0);
    assert_eq!(a.source.region_count(), 1);
    a.deallocate(p, 100);
    let q = a.allocate(100);
    assert_eq!(q, p);
    assert_eq!(a.source.region_count(), 1);
}

#[test]
fn lifo_recycling() {
    let mut a = fresh();
    let b1 = a.allocate(64);
    let b2 = a.allocate(64);
    assert_ne!(b1, 0);
    assert_ne!(b2, 0);
    assert_ne!(b1, b2);
    a.deallocate(b1, 64);
    a.deallocate(b2, 64);
    assert_eq!(a.allocate(64), b2);
    assert_eq!(a.allocate(64), b1);
}

#[test]
fn carve_hands_out_offset_zero_then_top_of_free_list() {
    let mut a = fresh();
    // the model arena is deterministic: the first chunk sits at 4096
    let p1 = a.allocate(16);
    assert_eq!(p1, 4096);
    let p2 = a.allocate(16);
    assert_eq!(p2, 4096 + SLAB_SIZE - 16);
    assert_eq!(a.source.region_count(), 1);
}

#[test]
fn half_slab_class_tiles_chunk_into_two_blocks() {
    let mut a = fresh();
    let half = (SLAB_SIZE / 2) as u32;
    let p1 = a.allocate(half as usize);
    let p2 = a.allocate(half as usize);
    assert_eq!(p1, 4096);
    assert_eq!(p2, 4096 + SLAB_SIZE / 2);
    assert_eq!(a.source.region_count(), 1);
    let p3 = a.allocate(half as usize);
    assert_ne!(p3, 0);
    assert_eq!(a.source.region_count(), 2);
}

#[test]
fn scenario_small_buckets_and_reuse() {
    let mut a = fresh();
    let p1 = a.allocate(16);
    assert_ne!(p1, 0);
    assert_eq!(size_class_to_bucket(get_size_class(16)), 0);
    let p2 = a.allocate(17);
    assert_ne!(p2, 0);
    assert_eq!(get_size_class(17), 32);
    assert_eq!(size_class_to_bucket(32), 1);
    assert_ne!(p1, p2);
    // one chunk per touched bucket
    assert_eq!(a.source.region_count(), 2);
    a.deallocate(p1, 16);
    a.deallocate(p2, 17);
    // 20 rounds to the same 32-byte class: must reuse the freed block,
    // not map a new chunk
    let p3 = a.allocate(20);
    assert_eq!(p3, p2);
    assert_eq!(a.source.region_count(), 2);
}

#[test]
fn large_objects_get_dedicated_regions() {
    let mut a = fresh();
    let p = a.allocate(SLAB_SIZE);
    assert_ne!(p, 0);
    assert_eq!(a.source.region_count(), 1);
    let q = a.allocate(SLAB_SIZE + 1);
    assert_ne!(q, 0);
    assert_ne!(p, q);
    assert_eq!(a.source.region_count(), 2);
    a.deallocate(p, SLAB_SIZE);
    assert_eq!(a.source.region_count(), 1);
    a.deallocate(q, SLAB_SIZE + 1);
    assert_eq!(a.source.region_count(), 0);
}

#[test]
fn large_resize_never_null_and_shrink_keeps_address() {
    let mut a = fresh();
    let p = a.allocate(SLAB_SIZE + 4096);
    assert_ne!(p, 0);
    // a non-moving shrink keeps the address
    let q = a.reallocate(p, SLAB_SIZE + 4096, SLAB_SIZE + 100);
    assert_eq!(q, p);
    // a growing resize may move but never returns null
    let r = a.reallocate(q, SLAB_SIZE + 100, 2 * SLAB_SIZE);
    assert_ne!(r, 0);
    assert_eq!(a.source.region_count(), 1);
    a.deallocate(r, 2 * SLAB_SIZE);
    assert_eq!(a.source.region_count(), 0);
}

#[test]
fn inplace_resize_only_for_large_objects() {
    let mut a = fresh();
    let small = a.allocate(64);
    assert!(!a.reallocate_inplace(small, 64, 128));
    assert!(!a.reallocate_inplace(small, 64, 2 * SLAB_SIZE));
    let big = a.allocate(SLAB_SIZE + 100);
    // shrinking in place succeeds in the model arena
    assert!(a.reallocate_inplace(big, SLAB_SIZE + 100, SLAB_SIZE + 50));
    assert!(a.reallocate_inplace(big, SLAB_SIZE + 50, SLAB_SIZE));
    // growing needs relocation, which in-place resize refuses
    assert!(!a.reallocate_inplace(big, SLAB_SIZE, 2 * SLAB_SIZE));
    a.deallocate(big, SLAB_SIZE);
    a.deallocate(small, 64);
}

#[test]
fn pooled_resize_moves_to_new_class() {
    let mut a = fresh();
    let p = a.allocate(40);
    assert_ne!(p, 0);
    let q = a.reallocate(p, 40, 100);
    assert_ne!(q, 0);
    assert_ne!(q, p);
    // the 64-byte block p went back to its free list: same-class
    // allocation reuses it without a new chunk
    let n = a.source.region_count();
    let r = a.allocate(40);
    assert_eq!(r, p);
    assert_eq!(a.source.region_count(), n);
    a.deallocate(r, 40);
    a.deallocate(q, 100);
}

#[test]
fn thread_exit_walk_releases_chunks_but_not_large_objects() {
    let mut a = fresh();
    let s1 = a.allocate(16);
    let s2 = a.allocate(5000);
    let s3 = a.allocate(100000);
    assert_ne!(s1, 0);
    assert_ne!(s2, 0);
    assert_ne!(s3, 0);
    // three distinct size classes: three chunks
    assert_eq!(a.source.region_count(), 3);
    let big = a.allocate(SLAB_SIZE + 123);
    assert_ne!(big, 0);
    assert_eq!(a.source.region_count(), 4);
    a.release_chunks();
    // exactly the three chunks were unmapped; the large object survives
    assert_eq!(a.source.region_count(), 1);
    a.deallocate(big, SLAB_SIZE + 123);
    assert_eq!(a.source.region_count(), 0);
    // the pool is usable again afterwards
    let p = a.allocate(16);
    assert_ne!(p, 0);
    assert_eq!(a.source.region_count(), 1);
}

#[test]
fn each_slab_sized_request_gets_its_own_chunkless_mapping() {
    let mut a = fresh();
    // just below the threshold: pooled, one chunk holding one block
    let p = a.allocate(SLAB_SIZE - 1);
    assert_ne!(p, 0);
    assert_eq!(get_size_class((SLAB_SIZE - 1) as u32), SLAB_SIZE as u32);
    assert_eq!(a.source.region_count(), 1);
    // at the threshold: the large path, no carving
    let q = a.allocate(SLAB_SIZE);
    assert_ne!(q, 0);
    assert_eq!(a.source.region_count(), 2);
    a.deallocate(p, SLAB_SIZE - 1);
    a.deallocate(q, SLAB_SIZE);
    // the pooled block stays mapped on its free list; the large one is gone
    assert_eq!(a.source.region_count(), 1);
    a.release_chunks();
    assert_eq!(a.source.region_count(), 0);
}

#[test]
fn many_chunks_of_one_class_all_released_at_exit() {
    let mut a = fresh();
    let half = SLAB_SIZE / 2;
    // each chunk of the half-slab class carries exactly two blocks
    let mut held = Vec::new();
    for _ in 0..5 {
        let p = a.allocate(half);
        assert_ne!(p, 0);
        held.push(p);
    }
    assert_eq!(a.source.region_count(), 3);
    for p in held {
        a.deallocate(p, half);
    }
    // freeing blocks returns none of the chunks to the source
    assert_eq!(a.source.region_count(), 3);
    a.release_chunks();
    assert_eq!(a.source.region_count(), 0);
}
