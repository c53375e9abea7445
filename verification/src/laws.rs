//! The laws the allocator obeys, stated over the same models its
//! contracts use and proved once and for all.
use vstd::prelude::*;
use crate::classes::{
    SLAB_SIZE, is_pow2, class_for, is_class, bucket_for, class_of,
    lemma_slab_pow2, lemma_class_for_bounds, lemma_class_for_minimal, lemma_class_for_fixed,
    lemma_class_bucket,
};
use crate::pool::{PoolModel, push_free, pop_free, lemma_push_free};

verus! {

/// For every request from 1 up to the pooling threshold, the size class is
/// a power of two, at least the request, at least 16, and the least such
/// value.
pub proof fn lemma_size_class_properties(s: int)
    requires
        1 <= s < SLAB_SIZE,
    ensures
        is_pow2(class_for(s)),
        class_for(s) >= s,
        class_for(s) >= 16,
        forall|m: int| is_pow2(m) && m >= s && m >= 16 ==> m >= #[trigger] class_for(s),
        is_class(class_for(s)),
{
    lemma_class_for_bounds(s);
    assert forall|m: int| is_pow2(m) && m >= s && m >= 16
        implies m >= #[trigger] class_for(s) by {
        lemma_class_for_minimal(s, m);
    }
    lemma_slab_pow2();
    lemma_class_for_minimal(s, SLAB_SIZE as int);
    lemma_class_for_fixed(class_for(s));
}

/// The bucket index is a function of the size class alone, lies within
/// 0..=16, and two requests sharing a size class share a bucket; the
/// bucket determines the class right back.
pub proof fn lemma_bucket_properties(s1: int, s2: int)
    requires
        1 <= s1 < SLAB_SIZE,
        1 <= s2 < SLAB_SIZE,
    ensures
        0 <= bucket_for(class_for(s1)) <= 16,
        class_for(s1) == class_for(s2)
            ==> bucket_for(class_for(s1)) == bucket_for(class_for(s2)),
        class_of(bucket_for(class_for(s1))) == class_for(s1),
{
    lemma_size_class_properties(s1);
    lemma_class_bucket(class_for(s1));
}

/// Round trip: freeing an owned pooled block and allocating the same size
/// again yields that very block from the same bucket, returns the pool to
/// exactly its earlier state, and requests no new region from the source.
pub proof fn lemma_round_trip(m: PoolModel, x: usize, size: usize)
    requires
        m.wf(),
        1 <= size < SLAB_SIZE,
        m.owns(x, size),
    ensures
        ({
            let b = bucket_for(class_for(size as int));
            let m1 = push_free(m, b, x);
            &&& m1.free[b].len() > 0
            &&& m1.free[b].last() == x
            &&& m1.mapped == m.mapped
            &&& pop_free(m1, b) == m
        }),
{
    let b = bucket_for(class_for(size as int));
    lemma_size_class_properties(size as int);
    lemma_class_bucket(class_for(size as int));
    let m1 = push_free(m, b, x);
    assert(m1.free[b] == m.free[b].push(x));
    assert(m1.free[b].last() == x);
    let m2 = pop_free(m1, b);
    assert(m2.free[b] =~= m.free[b]);
    assert(m2.free =~~= m.free);
    assert(m2 == m);
}

/// LIFO recycling: freeing two blocks of one size class and allocating
/// twice hands them back in reverse order, and leaves the pool exactly as
/// it began.
pub proof fn lemma_lifo_recycling(m: PoolModel, x1: usize, x2: usize, size: usize)
    requires
        m.wf(),
        1 <= size < SLAB_SIZE,
        m.owns(x1, size),
        m.owns(x2, size),
        x1 != x2,
    ensures
        ({
            let b = bucket_for(class_for(size as int));
            let m1 = push_free(push_free(m, b, x1), b, x2);
            let m2 = pop_free(m1, b);
            &&& m1.free[b].len() > 0
            &&& m1.free[b].last() == x2
            &&& m2.free[b].len() > 0
            &&& m2.free[b].last() == x1
            &&& m1.mapped == m.mapped
            &&& pop_free(m2, b) == m
        }),
{
    let b = bucket_for(class_for(size as int));
    lemma_size_class_properties(size as int);
    lemma_class_bucket(class_for(size as int));
    let ma = push_free(m, b, x1);
    let m1 = push_free(ma, b, x2);
    assert(ma.free[b] == m.free[b].push(x1));
    assert(m1.free[b] == ma.free[b].push(x2));
    let m2 = pop_free(m1, b);
    assert(m2.free[b] =~= ma.free[b]);
    assert(m2.free[b].last() == x1);
    let m3 = pop_free(m2, b);
    assert(m3.free[b] =~= m.free[b]);
    assert(m3.free =~~= m.free);
    assert(m3 == m);
}

/// Freeing an owned block keeps the pool well-formed, so the allocation
/// that recycles it meets its own contract in turn.
pub proof fn lemma_recycled_state_well_formed(m: PoolModel, x: usize, size: usize)
    requires
        m.wf(),
        1 <= size < SLAB_SIZE,
        m.owns(x, size),
    ensures
        push_free(m, bucket_for(class_for(size as int)), x).wf(),
{
    lemma_size_class_properties(size as int);
    lemma_class_bucket(class_for(size as int));
    lemma_push_free(m, bucket_for(class_for(size as int)), x, size);
}

} // verus!
