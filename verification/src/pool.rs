//! The per-thread allocator: segregated free lists keyed by size class,
//! slab chunks carved on demand, a direct path for large objects, and the
//! chunk walk run at thread exit.
use vstd::prelude::*;
use crate::classes::{
    N_BUCKETS, SLAB_SIZE, class_for, is_class, bucket_for, class_of,
    lemma_slab_pow2, lemma_class_for_bounds, lemma_class_for_minimal, lemma_class_for_fixed,
    lemma_class_bucket, lemma_class_of_mono, lemma_class_of_last, lemma_class_divides_slab,
    get_size_class, size_class_to_bucket,
};
use crate::source::MemorySource;

verus! {

/// The abstract state of one allocator: the free lists (one stack of block
/// addresses per bucket), the chunk list, and the live regions of the
/// memory source.
#[verifier::ext_equal]
pub struct PoolModel {
    pub free: Seq<Seq<usize>>,
    pub chunks: Seq<usize>,
    pub mapped: Map<usize, usize>,
}

impl PoolModel {
    /// `a` is one of the blocks of class `cls` that the chunk at `c` is
    /// carved into.
    pub open spec fn block_of(a: usize, c: usize, cls: int) -> bool {
        &&& c <= a
        &&& a + cls <= c + SLAB_SIZE
        &&& (a - c) % cls == 0
    }

    /// Some chunk of the pool backs `a` as a block of class `cls`.
    pub open spec fn backed(self, a: usize, cls: int) -> bool {
        exists|i: int| 0 <= i < self.chunks.len()
            && Self::block_of(a, #[trigger] self.chunks[i], cls)
    }

    /// `a` sits on some free list.
    pub open spec fn is_free(self, a: usize) -> bool {
        exists|b: int, j: int| 0 <= b < self.free.len() && 0 <= j < self.free[b].len()
            && (#[trigger] self.free[b][j]) == a
    }

    /// The caller owns the allocation at `a` of `size` bytes: for a pooled
    /// size, a live block of the matching class; for a large size, a
    /// dedicated region of exactly that length, which is no chunk.
    pub open spec fn owns(self, a: usize, size: usize) -> bool {
        if size < SLAB_SIZE {
            a != 0 && self.backed(a, class_for(size as int)) && !self.is_free(a)
        } else {
            a != 0 && self.mapped.contains_key(a) && self.mapped[a] == size
                && !self.chunks.contains(a)
        }
    }

    /// Well-formedness: 17 buckets; every free block is a non-null block of
    /// its bucket's class inside some chunk; no block is free twice; every
    /// chunk is a live region of exactly the slab length, and no chunk is
    /// listed twice.
    pub open spec fn wf(self) -> bool {
        &&& self.free.len() == N_BUCKETS
        &&& forall|b: int, j: int| 0 <= b < self.free.len() && 0 <= j < self.free[b].len()
            ==> (#[trigger] self.free[b][j]) != 0
                && self.backed(self.free[b][j], class_of(b))
        &&& forall|b1: int, j1: int, b2: int, j2: int|
            0 <= b1 < self.free.len() && 0 <= j1 < self.free[b1].len()
                && 0 <= b2 < self.free.len() && 0 <= j2 < self.free[b2].len()
                && (b1 != b2 || j1 != j2)
            ==> (#[trigger] self.free[b1][j1]) != (#[trigger] self.free[b2][j2])
        &&& forall|i: int| 0 <= i < self.chunks.len()
            ==> (#[trigger] self.chunks[i]) != 0
                && self.mapped.contains_key(self.chunks[i])
                && self.mapped[self.chunks[i]] == SLAB_SIZE
                && self.chunks[i] + SLAB_SIZE <= usize::MAX
        &&& forall|i1: int, i2: int| 0 <= i1 < i2 < self.chunks.len()
            ==> (#[trigger] self.chunks[i1]) != (#[trigger] self.chunks[i2])
        &&& forall|i: int, a: usize| 0 <= i < self.chunks.len()
            && #[trigger] self.mapped.contains_key(a) && a != (#[trigger] self.chunks[i])
            ==> a < self.chunks[i] || self.chunks[i] + SLAB_SIZE <= a
    }
}

/// The region at `r` of length `len` is non-null and overlaps no region of
/// `mp`.
pub open spec fn fresh_region(mp: Map<usize, usize>, r: usize, len: usize) -> bool {
    &&& r != 0
    &&& !mp.contains_key(r)
    &&& r + len <= usize::MAX
    &&& forall|a: usize| #[trigger] mp.contains_key(a) ==> a + mp[a] <= r || r + len <= a
}

/// Push block `x` onto bucket `b`'s free list.
pub open spec fn push_free(m: PoolModel, b: int, x: usize) -> PoolModel {
    PoolModel { free: m.free.update(b, m.free[b].push(x)), chunks: m.chunks, mapped: m.mapped }
}

/// Pop the head of bucket `b`'s free list.
pub open spec fn pop_free(m: PoolModel, b: int) -> PoolModel {
    PoolModel { free: m.free.update(b, m.free[b].drop_last()), chunks: m.chunks, mapped: m.mapped }
}

/// The blocks a fresh chunk at `base` is carved into, beyond the one at
/// offset zero that is handed out directly: offsets `cls`, `2 * cls`, ...
/// up to the slab length.
pub open spec fn carve_blocks(base: usize, cls: int) -> Seq<usize> {
    Seq::new((SLAB_SIZE as int / cls - 1) as nat, |k: int| (base + (k + 1) * cls) as usize)
}

/// Install a fresh chunk at `base` for bucket `b` of class `cls`: the chunk
/// joins the chunk list, its region joins the mapped regions, and all its
/// blocks but the first go onto the free list.
pub open spec fn carved(m: PoolModel, b: int, cls: int, base: usize) -> PoolModel {
    PoolModel {
        free: m.free.update(b, m.free[b] + carve_blocks(base, cls)),
        chunks: m.chunks.push(base),
        mapped: m.mapped.insert(base, SLAB_SIZE),
    }
}

/// A large object was mapped at `r`.
pub open spec fn mapped_large(m: PoolModel, r: usize, size: usize) -> PoolModel {
    PoolModel { free: m.free, chunks: m.chunks, mapped: m.mapped.insert(r, size) }
}

/// The large object at `ptr` was unmapped.
pub open spec fn unmapped_large(m: PoolModel, ptr: usize) -> PoolModel {
    PoolModel { free: m.free, chunks: m.chunks, mapped: m.mapped.remove(ptr) }
}

/// Backing carries over to any state with the same chunk list.
pub proof fn lemma_backed_same_chunks(m: PoolModel, m2: PoolModel, a: usize, cls: int)
    requires
        m.backed(a, cls),
        m2.chunks == m.chunks,
    ensures
        m2.backed(a, cls),
{
    let i = choose|i: int| 0 <= i < m.chunks.len()
        && PoolModel::block_of(a, #[trigger] m.chunks[i], cls);
    assert(PoolModel::block_of(a, m2.chunks[i], cls));
}

/// Every bucket's class is a valid size class.
pub proof fn lemma_bucket_class_valid(b: int)
    requires
        0 <= b < N_BUCKETS,
    ensures
        16 <= class_of(b) <= SLAB_SIZE,
{
    lemma_class_of_mono(0, b);
    lemma_class_of_mono(b, 16);
    lemma_class_of_last();
}

/// Pushing an owned block of the matching bucket preserves well-formedness
/// and everyone else's ownership, and frees exactly that block.
pub proof fn lemma_push_free(m: PoolModel, b: int, x: usize, size: usize)
    requires
        m.wf(),
        0 <= b < N_BUCKETS,
        size < SLAB_SIZE,
        m.owns(x, size),
        class_of(b) == class_for(size as int),
    ensures
        push_free(m, b, x).wf(),
        push_free(m, b, x).is_free(x),
        forall|a: usize, s: usize| m.owns(a, s) && a != x
            ==> #[trigger] push_free(m, b, x).owns(a, s),
{
    let m2 = push_free(m, b, x);
    assert(m2.free[b] == m.free[b].push(x));
    assert forall|b2: int, j2: int| 0 <= b2 < m2.free.len() && 0 <= j2 < m2.free[b2].len()
        implies (#[trigger] m2.free[b2][j2]) != 0
            && m2.backed(m2.free[b2][j2], class_of(b2)) by {
        if b2 == b && j2 == m.free[b].len() {
            assert(m2.free[b2][j2] == x);
            lemma_backed_same_chunks(m, m2, x, class_of(b2));
        } else {
            assert(m2.free[b2][j2] == m.free[b2][j2]);
            assert(m.backed(m.free[b2][j2], class_of(b2)));
            lemma_backed_same_chunks(m, m2, m.free[b2][j2], class_of(b2));
        }
    }
    assert forall|b1: int, j1: int, b2: int, j2: int|
        0 <= b1 < m2.free.len() && 0 <= j1 < m2.free[b1].len()
            && 0 <= b2 < m2.free.len() && 0 <= j2 < m2.free[b2].len()
            && (b1 != b2 || j1 != j2)
        implies (#[trigger] m2.free[b1][j1]) != (#[trigger] m2.free[b2][j2]) by {
        let new1 = b1 == b && j1 == m.free[b].len();
        let new2 = b2 == b && j2 == m.free[b].len();
        if new1 && !new2 {
            assert(m2.free[b2][j2] == m.free[b2][j2]);
            assert(m.is_free(m.free[b2][j2]));
            assert(m2.free[b1][j1] == x);
        } else if !new1 && new2 {
            assert(m2.free[b1][j1] == m.free[b1][j1]);
            assert(m.is_free(m.free[b1][j1]));
            assert(m2.free[b2][j2] == x);
        } else if !new1 && !new2 {
            assert(m2.free[b1][j1] == m.free[b1][j1]);
            assert(m2.free[b2][j2] == m.free[b2][j2]);
        }
    }
    assert(m2.free[b][m.free[b].len() as int] == x);
    assert(m2.is_free(x));
    assert forall|a: usize, s: usize| m.owns(a, s) && a != x
        implies #[trigger] m2.owns(a, s) by {
        if s < SLAB_SIZE {
            assert(!m.is_free(a));
            lemma_backed_same_chunks(m, m2, a, class_for(s as int));
            if m2.is_free(a) {
                let (b2, j2) = choose|b2: int, j2: int| 0 <= b2 < m2.free.len()
                    && 0 <= j2 < m2.free[b2].len() && (#[trigger] m2.free[b2][j2]) == a;
                if b2 == b && j2 == m.free[b].len() {
                    assert(a == x);
                } else {
                    assert(m.free[b2][j2] == a);
                    assert(m.is_free(a));
                }
                assert(false);
            }
        }
    }
}

/// Popping the head of a non-empty bucket preserves well-formedness; the
/// popped block is owned at every size of that bucket's class, and every
/// other owner keeps its block.
pub proof fn lemma_pop_free(m: PoolModel, b: int)
    requires
        m.wf(),
        0 <= b < N_BUCKETS,
        m.free[b].len() > 0,
    ensures
        pop_free(m, b).wf(),
        forall|s: usize| s < SLAB_SIZE && class_for(s as int) == class_of(b)
            ==> #[trigger] pop_free(m, b).owns(m.free[b].last(), s),
        forall|a: usize, s: usize| m.owns(a, s) ==> #[trigger] pop_free(m, b).owns(a, s),
{
    let m2 = pop_free(m, b);
    let x = m.free[b].last();
    let last = m.free[b].len() - 1;
    assert(m.free[b][last] == x);
    assert forall|b2: int, j2: int| 0 <= b2 < m2.free.len() && 0 <= j2 < m2.free[b2].len()
        implies (#[trigger] m2.free[b2][j2]) != 0
            && m2.backed(m2.free[b2][j2], class_of(b2)) by {
        assert(m2.free[b2][j2] == m.free[b2][j2]);
        assert(m.backed(m.free[b2][j2], class_of(b2)));
        lemma_backed_same_chunks(m, m2, m.free[b2][j2], class_of(b2));
    }
    assert forall|b1: int, j1: int, b2: int, j2: int|
        0 <= b1 < m2.free.len() && 0 <= j1 < m2.free[b1].len()
            && 0 <= b2 < m2.free.len() && 0 <= j2 < m2.free[b2].len()
            && (b1 != b2 || j1 != j2)
        implies (#[trigger] m2.free[b1][j1]) != (#[trigger] m2.free[b2][j2]) by {
        assert(m2.free[b1][j1] == m.free[b1][j1]);
        assert(m2.free[b2][j2] == m.free[b2][j2]);
    }
    assert(!m2.is_free(x)) by {
        if m2.is_free(x) {
            let (b2, j2) = choose|b2: int, j2: int| 0 <= b2 < m2.free.len()
                && 0 <= j2 < m2.free[b2].len() && (#[trigger] m2.free[b2][j2]) == x;
            assert(m.free[b2][j2] == x);
            assert(b2 != b || j2 != last);
            assert(m.free[b][last] == m.free[b2][j2]);
            assert(false);
        }
    }
    assert forall|s: usize| s < SLAB_SIZE && class_for(s as int) == class_of(b)
        implies #[trigger] m2.owns(x, s) by {
        assert(m.backed(x, class_of(b)));
        lemma_backed_same_chunks(m, m2, x, class_of(b));
        assert(x != 0);
    }
    assert forall|a: usize, s: usize| m.owns(a, s) implies #[trigger] m2.owns(a, s) by {
        if s < SLAB_SIZE {
            lemma_backed_same_chunks(m, m2, a, class_for(s as int));
            if m2.is_free(a) {
                let (b2, j2) = choose|b2: int, j2: int| 0 <= b2 < m2.free.len()
                    && 0 <= j2 < m2.free[b2].len() && (#[trigger] m2.free[b2][j2]) == a;
                assert(m.free[b2][j2] == a);
                assert(m.is_free(a));
                assert(false);
            }
        }
    }
}

/// Backing carries over to any state whose chunk list extends this one's.
pub proof fn lemma_backed_extend(m: PoolModel, m2: PoolModel, a: usize, cls: int)
    requires
        m.backed(a, cls),
        m.chunks.len() <= m2.chunks.len(),
        forall|i: int| 0 <= i < m.chunks.len() ==> (#[trigger] m2.chunks[i]) == m.chunks[i],
    ensures
        m2.backed(a, cls),
{
    let i = choose|i: int| 0 <= i < m.chunks.len()
        && PoolModel::block_of(a, #[trigger] m.chunks[i], cls);
    assert(PoolModel::block_of(a, m2.chunks[i], cls));
}

/// An owned allocation lies within one live region of the source.
pub proof fn lemma_owned_in_region(m: PoolModel, p: usize, size: usize)
    requires
        m.wf(),
        m.owns(p, size),
        1 <= size,
    ensures
        exists|c: usize| #[trigger] m.mapped.contains_key(c)
            && c <= p && p + size <= c + m.mapped[c],
{
    if size < SLAB_SIZE {
        let cls = class_for(size as int);
        lemma_class_for_bounds(size as int);
        let i = choose|i: int| 0 <= i < m.chunks.len()
            && PoolModel::block_of(p, #[trigger] m.chunks[i], cls);
        let c = m.chunks[i];
        assert(m.mapped.contains_key(c) && m.mapped[c] == SLAB_SIZE);
        assert(p + size <= c + m.mapped[c]);
    } else {
        assert(m.mapped.contains_key(p) && p <= p && p + size <= p + m.mapped[p]);
    }
}

/// Carving a fresh chunk for bucket `b` preserves well-formedness, hands
/// the block at offset zero to the caller, and disturbs no owned block.
pub proof fn lemma_carve(m: PoolModel, b: int, cls: int, base: usize)
    requires
        m.wf(),
        0 <= b < N_BUCKETS,
        is_class(cls),
        class_of(b) == cls,
        fresh_region(m.mapped, base, SLAB_SIZE),
    ensures
        carved(m, b, cls, base).wf(),
        forall|s: usize| s < SLAB_SIZE && class_for(s as int) == cls
            ==> #[trigger] carved(m, b, cls, base).owns(base, s),
        forall|a: usize, s: usize| m.owns(a, s) ==> #[trigger] carved(m, b, cls, base).owns(a, s),
{
    let m2 = carved(m, b, cls, base);
    let n = SLAB_SIZE as int / cls;
    let cb = carve_blocks(base, cls);
    lemma_class_divides_slab(cls);
    assert(n * cls == SLAB_SIZE as int);
    assert(cb.len() == n - 1);
    assert forall|k: int| 0 <= k < n - 1 implies (#[trigger] cb[k]) == base + (k + 1) * cls
        && base < cb[k]
        && cb[k] + cls <= base + SLAB_SIZE
        && ((cb[k] - base) as int) % cls == 0 by {
        vstd::arithmetic::mul::lemma_mul_inequality(k + 1, n - 1, cls);
        assert((n - 1) * cls == n * cls - cls) by (nonlinear_arith);
        vstd::arithmetic::mul::lemma_mul_inequality(1, k + 1, cls);
        assert(base + (k + 1) * cls <= base + SLAB_SIZE - cls);
        assert(cb[k] == (base + (k + 1) * cls) as usize);
        vstd::arithmetic::div_mod::lemma_mod_multiples_basic(k + 1, cls);
    }
    assert(m2.chunks[m.chunks.len() as int] == base);
    assert(m2.free[b] == m.free[b] + cb);
    // A block of any old chunk is outside the fresh region.
    assert forall|a: usize, cls2: int| m.backed(a, cls2) && 16 <= cls2
        implies !(base <= a && a < base + SLAB_SIZE) by {
        let i = choose|i: int| 0 <= i < m.chunks.len()
            && PoolModel::block_of(a, #[trigger] m.chunks[i], cls2);
        let c = m.chunks[i];
        assert(m.mapped.contains_key(c) && m.mapped[c] == SLAB_SIZE);
        assert(c + SLAB_SIZE <= base || base + SLAB_SIZE <= c);
    }
    // well-formedness of the carved state
    assert forall|b2: int, j2: int| 0 <= b2 < m2.free.len() && 0 <= j2 < m2.free[b2].len()
        implies (#[trigger] m2.free[b2][j2]) != 0
            && m2.backed(m2.free[b2][j2], class_of(b2)) by {
        if b2 == b && j2 >= m.free[b].len() {
            let k = j2 - m.free[b].len();
            assert(m2.free[b2][j2] == cb[k]);
            assert(PoolModel::block_of(cb[k], base, cls));
            assert(PoolModel::block_of(cb[k], m2.chunks[m.chunks.len() as int], cls));
        } else {
            assert(m2.free[b2][j2] == m.free[b2][j2]);
            assert(m.backed(m.free[b2][j2], class_of(b2)));
            lemma_backed_extend(m, m2, m.free[b2][j2], class_of(b2));
        }
    }
    assert forall|b1: int, j1: int, b2: int, j2: int|
        0 <= b1 < m2.free.len() && 0 <= j1 < m2.free[b1].len()
            && 0 <= b2 < m2.free.len() && 0 <= j2 < m2.free[b2].len()
            && (b1 != b2 || j1 != j2)
        implies (#[trigger] m2.free[b1][j1]) != (#[trigger] m2.free[b2][j2]) by {
        let new1 = b1 == b && j1 >= m.free[b].len();
        let new2 = b2 == b && j2 >= m.free[b].len();
        if new1 && new2 {
            let k1 = j1 - m.free[b].len();
            let k2 = j2 - m.free[b].len();
            if k1 < k2 {
                vstd::arithmetic::mul::lemma_mul_strict_inequality(k1 + 1, k2 + 1, cls);
            } else {
                vstd::arithmetic::mul::lemma_mul_strict_inequality(k2 + 1, k1 + 1, cls);
            }
        } else if new1 && !new2 {
            assert(m2.free[b2][j2] == m.free[b2][j2]);
            lemma_bucket_class_valid(b2);
            assert(m.backed(m.free[b2][j2], class_of(b2)));
            assert(m2.free[b1][j1] == cb[j1 - m.free[b].len()]);
        } else if !new1 && new2 {
            assert(m2.free[b1][j1] == m.free[b1][j1]);
            lemma_bucket_class_valid(b1);
            assert(m.backed(m.free[b1][j1], class_of(b1)));
            assert(m2.free[b2][j2] == cb[j2 - m.free[b].len()]);
        } else {
            assert(m2.free[b1][j1] == m.free[b1][j1]);
            assert(m2.free[b2][j2] == m.free[b2][j2]);
        }
    }
    assert forall|i: int| 0 <= i < m2.chunks.len()
        implies (#[trigger] m2.chunks[i]) != 0
            && m2.mapped.contains_key(m2.chunks[i])
            && m2.mapped[m2.chunks[i]] == SLAB_SIZE
            && m2.chunks[i] + SLAB_SIZE <= usize::MAX by {
        if i < m.chunks.len() {
            assert(m2.chunks[i] == m.chunks[i]);
            assert(m.mapped.contains_key(m.chunks[i]));
        } else {
            assert(m2.chunks[i] == base);
        }
    }
    assert forall|i1: int, i2: int| 0 <= i1 < i2 < m2.chunks.len()
        implies (#[trigger] m2.chunks[i1]) != (#[trigger] m2.chunks[i2]) by {
        if i2 == m.chunks.len() {
            assert(m2.chunks[i1] == m.chunks[i1]);
            assert(m.mapped.contains_key(m.chunks[i1]));
        } else {
            assert(m2.chunks[i1] == m.chunks[i1]);
            assert(m2.chunks[i2] == m.chunks[i2]);
        }
    }
    assert forall|i: int, a: usize| 0 <= i < m2.chunks.len()
        && #[trigger] m2.mapped.contains_key(a) && a != (#[trigger] m2.chunks[i])
        implies a < m2.chunks[i] || m2.chunks[i] + SLAB_SIZE <= a by {
        if i < m.chunks.len() {
            assert(m2.chunks[i] == m.chunks[i]);
            if a == base {
                assert(m.mapped.contains_key(m.chunks[i]));
                assert(m.chunks[i] + SLAB_SIZE <= base || base + SLAB_SIZE <= m.chunks[i]);
            } else {
                assert(m.mapped.contains_key(a));
            }
        } else {
            assert(m2.chunks[i] == base);
            assert(m.mapped.contains_key(a));
            assert(a + m.mapped[a] <= base || base + SLAB_SIZE <= a);
        }
    }
    // the block at offset zero is handed out
    vstd::arithmetic::div_mod::lemma_mod_multiples_basic(0, cls);
    assert(((base - base) as int) % cls == 0);
    assert(PoolModel::block_of(base, base, cls));
    assert(PoolModel::block_of(base, m2.chunks[m.chunks.len() as int], cls));
    assert(m2.backed(base, cls));
    assert(!m2.is_free(base)) by {
        if m2.is_free(base) {
            let (b2, j2) = choose|b2: int, j2: int| 0 <= b2 < m2.free.len()
                && 0 <= j2 < m2.free[b2].len() && (#[trigger] m2.free[b2][j2]) == base;
            if b2 == b && j2 >= m.free[b].len() {
                let k = j2 - m.free[b].len();
                vstd::arithmetic::mul::lemma_mul_inequality(1, k + 1, cls);
                assert(cb[k] > base);
            } else {
                assert(m.free[b2][j2] == base);
                lemma_bucket_class_valid(b2);
                assert(m.backed(base, class_of(b2)));
            }
            assert(false);
        }
    }
    // no owned block is disturbed
    assert forall|a: usize, s: usize| m.owns(a, s)
        implies #[trigger] m2.owns(a, s) by {
        if s < SLAB_SIZE {
            if s >= 1 {
                lemma_class_for_bounds(s as int);
            }
            assert(16 <= class_for(s as int));
            lemma_backed_extend(m, m2, a, class_for(s as int));
            if m2.is_free(a) {
                let (b2, j2) = choose|b2: int, j2: int| 0 <= b2 < m2.free.len()
                    && 0 <= j2 < m2.free[b2].len() && (#[trigger] m2.free[b2][j2]) == a;
                if b2 == b && j2 >= m.free[b].len() {
                    assert(a == cb[j2 - m.free[b].len()]);
                    assert(m.backed(a, class_for(s as int)));
                } else {
                    assert(m.free[b2][j2] == a);
                    assert(m.is_free(a));
                }
                assert(false);
            }
        } else {
            assert(a != base);
            if m2.chunks.contains(a) {
                let i = choose|i: int| 0 <= i < m2.chunks.len() && (#[trigger] m2.chunks[i]) == a;
                if i < m.chunks.len() {
                    assert(m.chunks[i] == a);
                    assert(m.chunks.contains(a));
                }
                assert(false);
            }
        }
    }
}

/// Mapping a fresh dedicated region for a large object preserves
/// well-formedness and disturbs no owned block.
pub proof fn lemma_mapped_large(m: PoolModel, r: usize, size: usize)
    requires
        m.wf(),
        size >= SLAB_SIZE,
        fresh_region(m.mapped, r, size),
    ensures
        mapped_large(m, r, size).wf(),
        mapped_large(m, r, size).owns(r, size),
        forall|a: usize, s: usize| m.owns(a, s) ==> #[trigger] mapped_large(m, r, size).owns(a, s),
{
    let m2 = mapped_large(m, r, size);
    assert forall|i: int| 0 <= i < m2.chunks.len()
        implies (#[trigger] m2.chunks[i]) != 0
            && m2.mapped.contains_key(m2.chunks[i])
            && m2.mapped[m2.chunks[i]] == SLAB_SIZE
            && m2.chunks[i] + SLAB_SIZE <= usize::MAX by {
        assert(m.mapped.contains_key(m.chunks[i]));
    }
    assert(!m2.chunks.contains(r)) by {
        if m2.chunks.contains(r) {
            let i = choose|i: int| 0 <= i < m2.chunks.len() && (#[trigger] m2.chunks[i]) == r;
            assert(m.mapped.contains_key(m.chunks[i]));
            assert(false);
        }
    }
    assert forall|i: int, a: usize| 0 <= i < m2.chunks.len()
        && #[trigger] m2.mapped.contains_key(a) && a != (#[trigger] m2.chunks[i])
        implies a < m2.chunks[i] || m2.chunks[i] + SLAB_SIZE <= a by {
        assert(m2.chunks[i] == m.chunks[i]);
        assert(m.mapped.contains_key(m.chunks[i]));
        if a == r {
            assert(m.chunks[i] + SLAB_SIZE <= r || r + size <= m.chunks[i]);
        } else {
            assert(m.mapped.contains_key(a));
        }
    }
    assert forall|a: usize, s: usize| m.owns(a, s)
        implies #[trigger] m2.owns(a, s) by {
        if s < SLAB_SIZE {
            lemma_backed_same_chunks(m, m2, a, class_for(s as int));
        } else {
            assert(m.mapped.contains_key(a));
            assert(a != r);
        }
    }
}

/// Unmapping an owned large object preserves well-formedness and disturbs
/// no other owned block.
pub proof fn lemma_unmapped_large(m: PoolModel, ptr: usize, size: usize)
    requires
        m.wf(),
        size >= SLAB_SIZE,
        m.owns(ptr, size),
    ensures
        unmapped_large(m, ptr).wf(),
        forall|a: usize, s: usize| m.owns(a, s) && a != ptr
            ==> #[trigger] unmapped_large(m, ptr).owns(a, s),
        forall|a: usize, s: usize| m.owns(a, s) && s < SLAB_SIZE
            ==> #[trigger] unmapped_large(m, ptr).owns(a, s),
{
    let m2 = unmapped_large(m, ptr);
    assert forall|i: int| 0 <= i < m2.chunks.len()
        implies (#[trigger] m2.chunks[i]) != 0
            && m2.mapped.contains_key(m2.chunks[i])
            && m2.mapped[m2.chunks[i]] == SLAB_SIZE
            && m2.chunks[i] + SLAB_SIZE <= usize::MAX by {
        assert(m.mapped.contains_key(m.chunks[i]));
        assert(m.chunks[i] != ptr) by {
            if m.chunks[i] == ptr {
                assert(m.chunks.contains(ptr));
            }
        }
    }
    assert forall|i: int, a: usize| 0 <= i < m2.chunks.len()
        && #[trigger] m2.mapped.contains_key(a) && a != (#[trigger] m2.chunks[i])
        implies a < m2.chunks[i] || m2.chunks[i] + SLAB_SIZE <= a by {
        assert(m2.chunks[i] == m.chunks[i]);
        assert(m.mapped.contains_key(a));
    }
    assert forall|a: usize, s: usize| m.owns(a, s) && a != ptr
        implies #[trigger] m2.owns(a, s) by {
        if s < SLAB_SIZE {
            lemma_backed_same_chunks(m, m2, a, class_for(s as int));
        }
    }
    assert forall|a: usize, s: usize| m.owns(a, s) && s < SLAB_SIZE
        implies #[trigger] m2.owns(a, s) by {
        lemma_backed_same_chunks(m, m2, a, class_for(s as int));
    }
}

/// The large object at `ptr` was resized to `size`, landing at `r` (which
/// may be `ptr` itself).
pub open spec fn remapped_large(m: PoolModel, ptr: usize, r: usize, size: usize) -> PoolModel {
    PoolModel { free: m.free, chunks: m.chunks, mapped: m.mapped.remove(ptr).insert(r, size) }
}

/// Resizing an owned large object to a region that collides with no other
/// preserves well-formedness and disturbs no other owned block.
pub proof fn lemma_remapped_large(m: PoolModel, ptr: usize, r: usize, size: usize, old_size: usize)
    requires
        m.wf(),
        old_size >= SLAB_SIZE,
        size >= SLAB_SIZE,
        m.owns(ptr, old_size),
        r != 0,
        !m.mapped.remove(ptr).contains_key(r),
        forall|a: usize| #[trigger] m.mapped.contains_key(a) && a != ptr
            ==> a + m.mapped[a] <= r || r + size <= a,
    ensures
        remapped_large(m, ptr, r, size).wf(),
        remapped_large(m, ptr, r, size).owns(r, size),
        forall|a: usize, s: usize| m.owns(a, s) && a != ptr
            ==> #[trigger] remapped_large(m, ptr, r, size).owns(a, s),
{
    let m2 = remapped_large(m, ptr, r, size);
    assert forall|i: int| 0 <= i < m2.chunks.len()
        implies (#[trigger] m2.chunks[i]) != 0
            && m2.mapped.contains_key(m2.chunks[i])
            && m2.mapped[m2.chunks[i]] == SLAB_SIZE
            && m2.chunks[i] + SLAB_SIZE <= usize::MAX by {
        assert(m.mapped.contains_key(m.chunks[i]));
        assert(m.chunks[i] != ptr) by {
            if m.chunks[i] == ptr {
                assert(m.chunks.contains(ptr));
            }
        }
        assert(m.mapped.remove(ptr).contains_key(m.chunks[i]));
        assert(m.chunks[i] != r);
    }
    assert(!m2.chunks.contains(r)) by {
        if m2.chunks.contains(r) {
            let i = choose|i: int| 0 <= i < m2.chunks.len() && (#[trigger] m2.chunks[i]) == r;
            assert(m.mapped.contains_key(m.chunks[i]));
            assert(m.chunks[i] != ptr) by {
                if m.chunks[i] == ptr {
                    assert(m.chunks.contains(ptr));
                }
            }
            assert(m.mapped.remove(ptr).contains_key(m.chunks[i]));
            assert(false);
        }
    }
    assert forall|i: int, a: usize| 0 <= i < m2.chunks.len()
        && #[trigger] m2.mapped.contains_key(a) && a != (#[trigger] m2.chunks[i])
        implies a < m2.chunks[i] || m2.chunks[i] + SLAB_SIZE <= a by {
        assert(m2.chunks[i] == m.chunks[i]);
        assert(m.mapped.contains_key(m.chunks[i]));
        assert(m.chunks[i] != ptr) by {
            if m.chunks[i] == ptr {
                assert(m.chunks.contains(ptr));
            }
        }
        if a == r {
            assert(m.chunks[i] + SLAB_SIZE <= r || r + size <= m.chunks[i]);
        } else {
            assert(m.mapped.contains_key(a));
        }
    }
    assert forall|a: usize, s: usize| m.owns(a, s) && a != ptr
        implies #[trigger] m2.owns(a, s) by {
        if s < SLAB_SIZE {
            lemma_backed_same_chunks(m, m2, a, class_for(s as int));
        } else {
            assert(m.mapped.remove(ptr).contains_key(a));
            assert(a != r);
        }
    }
}

/// A table of 17 empty free lists.
fn empty_buckets() -> (v: Vec<Vec<usize>>)
    ensures
        v@.len() == N_BUCKETS,
        forall|b: int| 0 <= b < N_BUCKETS ==> (#[trigger] v@[b])@.len() == 0,
{
    let mut v: Vec<Vec<usize>> = Vec::new();
    let mut i: usize = 0;
    while i < N_BUCKETS
        invariant
            i <= N_BUCKETS,
            v@.len() == i,
            forall|b: int| 0 <= b < i ==> (#[trigger] v@[b])@.len() == 0,
        decreases N_BUCKETS - i,
    {
        v.push(Vec::new());
        i = i + 1;
    }
    v
}

/// One thread's allocator: the bucket table of free lists, the list of
/// chunks this pool ever mapped, and the memory source behind it.
pub struct LocalAlloc<M: MemorySource> {
    pub source: M,
    pub buckets: Vec<Vec<usize>>,
    pub chunks: Vec<usize>,
}

impl<M: MemorySource> LocalAlloc<M> {
    /// The abstract state this allocator is specified over.
    pub open spec fn model(&self) -> PoolModel {
        PoolModel {
            free: Seq::new(self.buckets@.len(), |b: int| self.buckets@[b]@),
            chunks: self.chunks@,
            mapped: self.source.mapped(),
        }
    }

    /// Well-formedness of the pool state and of the source behind it.
    pub open spec fn wf(&self) -> bool {
        self.model().wf() && self.source.inv()
    }

    /// The caller owns the allocation at `a` of `size` bytes.
    pub open spec fn owns_block(&self, a: usize, size: usize) -> bool {
        self.model().owns(a, size)
    }

    /// A fresh allocator over `source`, with every free list empty and no
    /// chunk mapped yet.
    pub fn new(source: M) -> (r: LocalAlloc<M>)
        requires
            source.inv(),
        ensures
            r.wf(),
            r.model().chunks.len() == 0,
            forall|b: int| 0 <= b < N_BUCKETS ==> (#[trigger] r.model().free[b]).len() == 0,
            r.model().mapped == source.mapped(),
    {
        LocalAlloc { source, buckets: empty_buckets(), chunks: Vec::new() }
    }

    /// Serve a pooled request: pop the matching free list, or carve a
    /// fresh chunk when the list is empty.
    fn allocate_small(&mut self, size: usize) -> (r: usize)
        requires
            old(self).wf(),
            1 <= size < SLAB_SIZE,
        ensures
            final(self).wf(),
            r == 0 ==> final(self).model() == old(self).model(),
            r != 0 ==> final(self).owns_block(r, size),
            forall|a: usize, s: usize| old(self).owns_block(a, s)
                ==> #[trigger] final(self).owns_block(a, s),
            ({
                let cls = class_for(size as int);
                let b = bucket_for(cls);
                let m0 = old(self).model();
                &&& m0.free[b].len() > 0 ==> r == m0.free[b].last()
                        && final(self).model() == pop_free(m0, b)
                &&& m0.free[b].len() == 0 && r != 0 ==> final(self).model()
                        == carved(m0, b, cls, r) && fresh_region(m0.mapped, r, SLAB_SIZE)
                &&& m0.free[b].len() == 0 && r == 0 ==> final(self).model() == m0
            }),
    {
        let ghost m0 = self.model();
        let cls32 = get_size_class(size as u32);
        let cls = cls32 as usize;
        let bu = size_class_to_bucket(cls32);
        let bi = bu as usize;
        proof {
            lemma_class_bucket(cls as int);
            assert(bi as int == bucket_for(class_for(size as int)));
            assert(m0.free[bi as int] == self.buckets@[bi as int]@);
        }
        if self.buckets[bi].len() > 0 {
            let r = self.buckets[bi].pop().unwrap();
            proof {
                assert(self.buckets@[bi as int]@
                    =~= m0.free[bi as int].drop_last());
                assert(self.model().free =~~= pop_free(m0, bi as int).free);
                assert(self.model() == pop_free(m0, bi as int));
                lemma_pop_free(m0, bi as int);
                assert(r == m0.free[bi as int].last());
                assert(r != 0);
            }
            r
        } else {
            let base = self.source.map(SLAB_SIZE);
            if base == 0 {
                proof {
                    assert(self.model().free =~~= m0.free);
                    assert(self.model() == m0);
                }
                return 0;
            }
            proof {
                assert(fresh_region(m0.mapped, base, SLAB_SIZE));
                lemma_class_divides_slab(cls as int);
            }
            self.chunks.push(base);
            let ghost fm = self.source.mapped();
            let mut off: usize = cls;
            proof {
                vstd::arithmetic::div_mod::lemma_div_by_self(cls as int);
                assert(self.buckets@[bi as int]@ =~= m0.free[bi as int]
                    + Seq::new((off as int / cls as int - 1) as nat,
                        |k: int| (base + (k + 1) * (cls as int)) as usize));
            }
            while off < SLAB_SIZE
                invariant
                    m0.wf(),
                    self.source.inv(),
                    16 <= cls,
                    cls as int <= SLAB_SIZE as int,
                    cls as int == class_for(size as int),
                    bi < 17,
                    bi as int == bucket_for(cls as int),
                    (SLAB_SIZE as int) % (cls as int) == 0,
                    (SLAB_SIZE as int) / (cls as int) * (cls as int) == SLAB_SIZE as int,
                    off as int % cls as int == 0,
                    cls <= off,
                    off <= SLAB_SIZE,
                    base != 0,
                    fresh_region(m0.mapped, base, SLAB_SIZE),
                    base + SLAB_SIZE <= usize::MAX,
                    self.source.mapped() == fm,
                    fm == m0.mapped.insert(base, SLAB_SIZE),
                    self.chunks@ == m0.chunks.push(base),
                    self.buckets@.len() == 17,
                    forall|b2: int| 0 <= b2 < 17 && b2 != bi
                        ==> (#[trigger] self.buckets@[b2])@ == m0.free[b2],
                    self.buckets@[bi as int]@ == m0.free[bi as int]
                        + Seq::new((off as int / cls as int - 1) as nat,
                            |k: int| (base + (k + 1) * (cls as int)) as usize),
                decreases SLAB_SIZE - off,
            {
                proof {
                    let q = off as int / cls as int;
                    vstd::arithmetic::div_mod::lemma_fundamental_div_mod(off as int, cls as int);
                    assert(q * (cls as int) == off as int);
                    assert(off as int + cls as int <= SLAB_SIZE as int) by (nonlinear_arith)
                        requires
                            q * (cls as int) == off as int,
                            (SLAB_SIZE as int) / (cls as int) * (cls as int) == (SLAB_SIZE as int),
                            (off as int) < (SLAB_SIZE as int),
                            16 <= cls,
                            q >= 0,
                    ;
                }
                let blk = base + off;
                self.buckets[bi].push(blk);
                off = off + cls;
                proof {
                    let c = cls as int;
                    let prev = off as int - c;
                    vstd::arithmetic::div_mod::lemma_fundamental_div_mod(prev, c);
                    let qo = prev / c;
                    assert(prev == qo * c);
                    assert(off as int == (qo + 1) * c) by (nonlinear_arith)
                        requires
                            prev == qo * c,
                            (off as int) == prev + c,
                    ;
                    vstd::arithmetic::div_mod::lemma_mod_multiples_basic(qo + 1, c);
                    vstd::arithmetic::div_mod::lemma_fundamental_div_mod(off as int, c);
                    let qn = off as int / c;
                    assert(qn == qo + 1) by (nonlinear_arith)
                        requires
                            qn * c + (off as int) % c == (off as int),
                            (off as int) % c == 0,
                            (qo + 1) * c == (off as int),
                            c >= 16,
                    ;
                    let fl = m0.free[bi as int].len() as int;
                    assert(qo >= 1) by (nonlinear_arith)
                        requires
                            prev == qo * c,
                            prev >= c,
                            c >= 16,
                    ;
                    assert(self.buckets@[bi as int]@.len() == fl + qo);
                    assert(blk == (base + qo * c) as usize);
                    assert forall|j: int| 0 <= j < fl + qo
                        implies self.buckets@[bi as int]@[j]
                            == (m0.free[bi as int] + Seq::new((qn - 1) as nat,
                                |k: int| (base + (k + 1) * c) as usize))[j] by {
                        if j < fl + qo - 1 {
                        } else {
                            assert(self.buckets@[bi as int]@[j] == blk);
                        }
                    }
                    assert(self.buckets@[bi as int]@ =~= m0.free[bi as int]
                        + Seq::new((qn - 1) as nat, |k: int| (base + (k + 1) * c) as usize));
                }
            }
            proof {
                assert(off == SLAB_SIZE);
                assert(self.buckets@[bi as int]@
                    =~= m0.free[bi as int] + carve_blocks(base, cls as int));
                assert(self.model().free =~~= carved(m0, bi as int, cls as int, base).free);
                assert(self.model() == carved(m0, bi as int, cls as int, base));
                lemma_carve(m0, bi as int, cls as int, base);
            }
            base
        }
    }

    /// Serve a large request with a dedicated mapping of exactly `size`
    /// bytes.
    fn allocate_large(&mut self, size: usize) -> (r: usize)
        requires
            old(self).wf(),
            size >= SLAB_SIZE,
        ensures
            final(self).wf(),
            r == 0 ==> final(self).model() == old(self).model(),
            r != 0 ==> final(self).owns_block(r, size)
                && final(self).model() == mapped_large(old(self).model(), r, size)
                && fresh_region(old(self).model().mapped, r, size),
            forall|a: usize, s: usize| old(self).owns_block(a, s)
                ==> #[trigger] final(self).owns_block(a, s),
    {
        let ghost m0 = self.model();
        let r = self.source.map(size);
        proof {
            assert(self.model().free =~~= m0.free);
            if r != 0 {
                assert(self.model() == mapped_large(m0, r, size));
                lemma_mapped_large(m0, r, size);
            } else {
                assert(self.model() == m0);
            }
        }
        r
    }

    /// Allocate `size` bytes: pooled below the slab threshold, a dedicated
    /// mapping at or above it. Returns 0 exactly when the source could
    /// supply no region and the matching free list was empty.
    pub fn allocate(&mut self, size: usize) -> (r: usize)
        requires
            old(self).wf(),
            1 <= size,
        ensures
            final(self).wf(),
            r == 0 ==> final(self).model() == old(self).model(),
            r != 0 ==> final(self).owns_block(r, size),
            forall|a: usize, s: usize| old(self).owns_block(a, s)
                ==> #[trigger] final(self).owns_block(a, s),
            size < SLAB_SIZE ==> ({
                let cls = class_for(size as int);
                let b = bucket_for(cls);
                let m0 = old(self).model();
                &&& m0.free[b].len() > 0 ==> r == m0.free[b].last()
                        && final(self).model() == pop_free(m0, b)
                &&& m0.free[b].len() == 0 && r != 0 ==> final(self).model()
                        == carved(m0, b, cls, r) && fresh_region(m0.mapped, r, SLAB_SIZE)
            }),
            size >= SLAB_SIZE && r != 0 ==> final(self).model()
                == mapped_large(old(self).model(), r, size)
                && fresh_region(old(self).model().mapped, r, size),
    {
        if size < SLAB_SIZE {
            self.allocate_small(size)
        } else {
            self.allocate_large(size)
        }
    }

    /// Return a pooled block to the head of its bucket's free list.
    fn deallocate_small(&mut self, ptr: usize, size: usize)
        requires
            old(self).wf(),
            1 <= size < SLAB_SIZE,
            old(self).owns_block(ptr, size),
        ensures
            final(self).wf(),
            final(self).model()
                == push_free(old(self).model(), bucket_for(class_for(size as int)), ptr),
            forall|a: usize, s: usize| old(self).owns_block(a, s) && a != ptr
                ==> #[trigger] final(self).owns_block(a, s),
    {
        let ghost m0 = self.model();
        let cls32 = get_size_class(size as u32);
        let bu = size_class_to_bucket(cls32);
        let bi = bu as usize;
        proof {
            lemma_class_bucket(cls32 as int);
            assert(bi as int == bucket_for(class_for(size as int)));
        }
        self.buckets[bi].push(ptr);
        proof {
            assert(self.model().free =~~= push_free(m0, bi as int, ptr).free);
            assert(self.model() == push_free(m0, bi as int, ptr));
            lemma_push_free(m0, bi as int, ptr, size);
        }
    }

    /// Free the allocation at `ptr`, whose size at the last allocation was
    /// exactly `size`: pooled blocks go back to their free list, large
    /// objects are unmapped at once.
    pub fn deallocate(&mut self, ptr: usize, size: usize)
        requires
            old(self).wf(),
            1 <= size,
            old(self).owns_block(ptr, size),
        ensures
            final(self).wf(),
            size < SLAB_SIZE ==> final(self).model()
                == push_free(old(self).model(), bucket_for(class_for(size as int)), ptr),
            size >= SLAB_SIZE ==> final(self).model()
                == unmapped_large(old(self).model(), ptr),
            forall|a: usize, s: usize| old(self).owns_block(a, s) && a != ptr
                ==> #[trigger] final(self).owns_block(a, s),
    {
        let ghost m0 = self.model();
        if size < SLAB_SIZE {
            self.deallocate_small(ptr, size);
        } else {
            self.source.unmap(ptr, size);
            proof {
                assert(self.model().free =~~= m0.free);
                assert(self.model() == unmapped_large(m0, ptr));
                lemma_unmapped_large(m0, ptr, size);
            }
        }
    }
    /// Resize the allocation at `ptr` from `old_size` to `new_size` bytes.
    /// Never returns 0: when nothing could be resized or moved, the
    /// original allocation is untouched and its own address comes back.
    /// With both sizes at or above the slab threshold the region is
    /// remapped, possibly in place; otherwise a new allocation is made,
    /// the first `min(old_size, new_size)` bytes are copied, and the old
    /// allocation is freed. The copying path cannot fail when the target
    /// bucket already holds a free block.
    pub fn reallocate(&mut self, ptr: usize, old_size: usize, new_size: usize) -> (r: usize)
        requires
            old(self).wf(),
            1 <= old_size,
            1 <= new_size,
            old(self).owns_block(ptr, old_size),
        ensures
            final(self).wf(),
            r != 0,
            old_size >= SLAB_SIZE && new_size >= SLAB_SIZE ==> ((
                final(self).owns_block(r, new_size)
                    && final(self).model() == remapped_large(old(self).model(), ptr, r, new_size))
                || (r == ptr && final(self).model() == old(self).model())),
            (old_size < SLAB_SIZE || new_size < SLAB_SIZE) && r == ptr
                ==> final(self).model() == old(self).model()
                    && final(self).owns_block(ptr, old_size),
            (old_size < SLAB_SIZE || new_size < SLAB_SIZE) && r != ptr
                ==> final(self).owns_block(r, new_size),
            new_size < SLAB_SIZE
                && old(self).model().free[bucket_for(class_for(new_size as int))].len() > 0
                ==> r != ptr,
            forall|a: usize, s: usize| old(self).owns_block(a, s) && a != ptr
                ==> #[trigger] final(self).owns_block(a, s),
    {
        if old_size >= SLAB_SIZE && new_size >= SLAB_SIZE {
            let ghost m0 = self.model();
            let r = self.source.remap(ptr, old_size, new_size);
            proof {
                assert(self.model().free =~~= m0.free);
                if r != 0 {
                    assert(self.model() == remapped_large(m0, ptr, r, new_size));
                    lemma_remapped_large(m0, ptr, r, new_size, old_size);
                } else {
                    assert(self.model() == m0);
                }
            }
            if r == 0 {
                ptr
            } else {
                r
            }
        } else {
            let ghost m0 = self.model();
            let dst = self.allocate(new_size);
            let ghost m1 = self.model();
            proof {
                assert forall|a: usize, s: usize| m0.owns(a, s)
                    implies #[trigger] m1.owns(a, s) by {
                    assert(self.owns_block(a, s));
                }
                if new_size < SLAB_SIZE {
                    let b = bucket_for(class_for(new_size as int));
                    lemma_class_for_bounds(new_size as int);
                    lemma_slab_pow2();
                    lemma_class_for_minimal(new_size as int, SLAB_SIZE as int);
                    lemma_class_for_fixed(class_for(new_size as int));
                    lemma_class_bucket(class_for(new_size as int));
                    if m0.free[b].len() > 0 {
                        assert(dst == m0.free[b].last());
                        assert(m0.free[b][m0.free[b].len() - 1] == dst);
                        assert(dst != 0);
                    }
                }
            }
            if dst == 0 {
                return ptr;
            }
            proof {
                lemma_owned_in_region(m0, ptr, old_size);
                let c = choose|c: usize| #[trigger] m0.mapped.contains_key(c)
                    && c <= ptr && ptr + old_size <= c + m0.mapped[c];
                assert(new_size < SLAB_SIZE || old_size < SLAB_SIZE);
                if new_size < SLAB_SIZE {
                    let b = bucket_for(class_for(new_size as int));
                    if m0.free[b].len() > 0 {
                        assert(m0.is_free(dst));
                        assert(self.owns_block(dst, new_size));
                        if old_size < SLAB_SIZE {
                            assert(!m0.is_free(ptr));
                            assert(dst != ptr);
                        } else {
                            // ptr is a dedicated region's base, which never
                            // lies inside a chunk; dst does.
                            let cls2 = class_for(new_size as int);
                            let i = choose|i: int| 0 <= i < m0.chunks.len()
                                && PoolModel::block_of(dst, #[trigger] m0.chunks[i], cls2);
                            assert(m0.mapped.contains_key(ptr));
                            assert(ptr != m0.chunks[i]) by {
                                if ptr == m0.chunks[i] {
                                    assert(m0.chunks.contains(ptr));
                                }
                            }
                            assert(ptr < m0.chunks[i] || m0.chunks[i] + SLAB_SIZE <= ptr);
                            assert(16 <= cls2) by {
                                lemma_class_for_bounds(new_size as int);
                            }
                            assert(m0.chunks[i] <= dst && dst < m0.chunks[i] + SLAB_SIZE);
                            assert(dst != ptr);
                        }
                    } else {
                        assert(fresh_region(m0.mapped, dst, SLAB_SIZE));
                        assert(c + m0.mapped[c] <= dst || dst + SLAB_SIZE <= c);
                        assert(dst != ptr);
                    }
                } else {
                    assert(fresh_region(m0.mapped, dst, new_size));
                    assert(c + m0.mapped[c] <= dst || dst + new_size <= c);
                    assert(dst != ptr);
                }
            }
            let len = if old_size < new_size { old_size } else { new_size };
            proof {
                assert(self.owns_block(dst, new_size));
                assert(m1.owns(dst, new_size));
                assert(self.owns_block(ptr, old_size));
                lemma_owned_in_region(m1, ptr, old_size);
                let c1 = choose|c: usize| #[trigger] m1.mapped.contains_key(c)
                    && c <= ptr && ptr + old_size <= c + m1.mapped[c];
                assert(m1.mapped.contains_key(c1) && c1 <= ptr && ptr + len <= c1 + m1.mapped[c1]);
                lemma_owned_in_region(m1, dst, new_size);
                let c2 = choose|c: usize| #[trigger] m1.mapped.contains_key(c)
                    && c <= dst && dst + new_size <= c + m1.mapped[c];
                assert(m1.mapped.contains_key(c2) && c2 <= dst && dst + len <= c2 + m1.mapped[c2]);
            }
            self.source.copy(dst, ptr, len);
            proof {
                assert(self.model().free =~~= m1.free);
                assert(self.model() == m1);
            }
            self.deallocate(ptr, old_size);
            proof {
                assert forall|a: usize, s: usize| m0.owns(a, s) && a != ptr
                    implies #[trigger] self.owns_block(a, s) by {
                    assert(m1.owns(a, s));
                    assert(self.owns_block(a, s));
                }
                assert(self.owns_block(dst, new_size));
            }
            dst
        }
    }

    /// Resize the allocation at `ptr` without moving it. Only a large
    /// object resized to a large size can ever succeed: pooled blocks have
    /// fixed capacity. On `false` nothing changed.
    pub fn reallocate_inplace(&mut self, ptr: usize, old_size: usize, new_size: usize) -> (r:
        bool)
        requires
            old(self).wf(),
            1 <= old_size,
            1 <= new_size,
            old(self).owns_block(ptr, old_size),
        ensures
            final(self).wf(),
            !r ==> final(self).model() == old(self).model(),
            r ==> old_size >= SLAB_SIZE && new_size >= SLAB_SIZE
                && final(self).model() == remapped_large(old(self).model(), ptr, ptr, new_size)
                && final(self).owns_block(ptr, new_size),
            forall|a: usize, s: usize| old(self).owns_block(a, s) && a != ptr
                ==> #[trigger] final(self).owns_block(a, s),
    {
        if old_size >= SLAB_SIZE && new_size >= SLAB_SIZE {
            let ghost m0 = self.model();
            let ok = self.source.remap_inplace(ptr, old_size, new_size);
            proof {
                assert(self.model().free =~~= m0.free);
                if ok {
                    assert(m0.mapped.insert(ptr, new_size)
                        =~= m0.mapped.remove(ptr).insert(ptr, new_size));
                    assert(self.model() == remapped_large(m0, ptr, ptr, new_size));
                    lemma_remapped_large(m0, ptr, ptr, new_size, old_size);
                } else {
                    assert(self.model() == m0);
                }
            }
            ok
        } else {
            false
        }
    }

    /// The walk run once per terminating thread: unmap every chunk this
    /// pool ever mapped, exactly once each, and discard the pool state.
    /// Large objects are deliberately not tracked here and survive.
    pub fn release_chunks(&mut self)
        requires
            old(self).wf(),
        ensures
            final(self).wf(),
            final(self).model().chunks.len() == 0,
            forall|b: int| 0 <= b < N_BUCKETS
                ==> (#[trigger] final(self).model().free[b]).len() == 0,
            forall|a: usize| #[trigger] final(self).model().mapped.contains_key(a)
                <==> old(self).model().mapped.contains_key(a)
                    && !old(self).model().chunks.contains(a),
            forall|a: usize| #[trigger] final(self).model().mapped.contains_key(a)
                ==> final(self).model().mapped[a] == old(self).model().mapped[a],
            forall|a: usize, s: usize| old(self).owns_block(a, s) && s >= SLAB_SIZE
                ==> #[trigger] final(self).owns_block(a, s),
    {
        let ghost m0 = self.model();
        let n = self.chunks.len();
        let mut i: usize = 0;
        while i < n
            invariant
                m0.wf(),
                self.source.inv(),
                n == m0.chunks.len(),
                i <= n,
                self.chunks@ == m0.chunks,
                forall|a: usize| #[trigger] self.source.mapped().contains_key(a)
                    <==> m0.mapped.contains_key(a)
                        && !(exists|j: int| 0 <= j < i && m0.chunks[j] == a),
                forall|a: usize| #[trigger] self.source.mapped().contains_key(a)
                    ==> self.source.mapped()[a] == m0.mapped[a],
            decreases n - i,
        {
            let c = self.chunks[i];
            let ghost prev = self.source.mapped();
            proof {
                assert(m0.mapped.contains_key(c) && m0.mapped[c] == SLAB_SIZE);
                if exists|j: int| 0 <= j < i && m0.chunks[j] == c {
                    let j = choose|j: int| 0 <= j < i && m0.chunks[j] == c;
                    assert(m0.chunks[j] != m0.chunks[i as int]);
                    assert(false);
                }
                assert(self.source.mapped().contains_key(c));
                assert(self.source.mapped()[c] == SLAB_SIZE);
            }
            self.source.unmap(c, SLAB_SIZE);
            i = i + 1;
            proof {
                let io = i - 1;
                assert forall|a: usize| #[trigger] self.source.mapped().contains_key(a)
                    implies m0.mapped.contains_key(a)
                        && !(exists|j: int| 0 <= j < i && m0.chunks[j] == a) by {
                    assert(prev.contains_key(a) && a != c);
                    if exists|j: int| 0 <= j < i && m0.chunks[j] == a {
                        let j = choose|j: int| 0 <= j < i && m0.chunks[j] == a;
                        if j < io {
                            assert(!(exists|j2: int| 0 <= j2 < io && m0.chunks[j2] == a)
                                ==> false) by {
                                assert(0 <= j < io && m0.chunks[j] == a);
                            }
                            assert(!prev.contains_key(a));
                        } else {
                            assert(m0.chunks[j] == c);
                        }
                        assert(false);
                    }
                }
                assert forall|a: usize| m0.mapped.contains_key(a)
                    && !(exists|j: int| 0 <= j < i && m0.chunks[j] == a)
                    implies #[trigger] self.source.mapped().contains_key(a) by {
                    assert(!(exists|j: int| 0 <= j < io && m0.chunks[j] == a)) by {
                        if exists|j: int| 0 <= j < io && m0.chunks[j] == a {
                            let j = choose|j: int| 0 <= j < io && m0.chunks[j] == a;
                            assert(0 <= j < i && m0.chunks[j] == a);
                            assert(false);
                        }
                    }
                    assert(prev.contains_key(a));
                    assert(a != c) by {
                        if a == c {
                            assert(0 <= io < i && m0.chunks[io] == a);
                            assert(false);
                        }
                    }
                }
            }
        }
        self.chunks = Vec::new();
        self.buckets = empty_buckets();
        proof {
            let mf = self.model();
            assert(mf.free.len() == N_BUCKETS);
            assert forall|b: int| 0 <= b < N_BUCKETS
                implies (#[trigger] mf.free[b]).len() == 0 by {
                assert(mf.free[b] == self.buckets@[b]@);
            }
            assert forall|a: usize| #[trigger] mf.mapped.contains_key(a)
                implies m0.mapped.contains_key(a) && !m0.chunks.contains(a) by {
                if m0.chunks.contains(a) {
                    let j = choose|j: int| 0 <= j < m0.chunks.len()
                        && (#[trigger] m0.chunks[j]) == a;
                    assert(exists|j2: int| 0 <= j2 < n && m0.chunks[j2] == a);
                    assert(false);
                }
            }
            assert forall|a: usize| m0.mapped.contains_key(a) && !m0.chunks.contains(a)
                implies #[trigger] mf.mapped.contains_key(a) by {
                if exists|j: int| 0 <= j < n && m0.chunks[j] == a {
                    let j = choose|j: int| 0 <= j < n && m0.chunks[j] == a;
                    assert(m0.chunks.contains(a));
                    assert(false);
                }
            }
            assert forall|a: usize, s: usize| m0.owns(a, s) && s >= SLAB_SIZE
                implies #[trigger] self.owns_block(a, s) by {
                assert(mf.mapped.contains_key(a));
                assert(!mf.chunks.contains(a)) by {
                    if mf.chunks.contains(a) {
                        let j = choose|j: int| 0 <= j < mf.chunks.len()
                            && (#[trigger] mf.chunks[j]) == a;
                        assert(false);
                    }
                }
            }
        }
    }
}

/// The allocator interface: the four operations and the ownership
/// discipline they maintain. An allocation stays valid until it is freed
/// or resized; the exact size of the last allocation must be handed back.
pub trait Allocator: Sized {
    /// The implementation's well-formedness.
    spec fn inv(&self) -> bool;

    /// The caller owns the allocation at `ptr` of `size` bytes.
    spec fn owns(&self, ptr: usize, size: usize) -> bool;

    /// Allocate `size` bytes; 0 means failure. Existing allocations are
    /// untouched.
    fn allocate(&mut self, size: usize) -> (r: usize)
        requires
            old(self).inv(),
            1 <= size,
        ensures
            final(self).inv(),
            r != 0 ==> final(self).owns(r, size),
            forall|a: usize, s: usize| old(self).owns(a, s)
                ==> #[trigger] final(self).owns(a, s),
    ;

    /// Resize an owned allocation; never returns 0. A result other than
    /// the original address is a valid allocation of the new size.
    fn reallocate(&mut self, ptr: usize, old_size: usize, new_size: usize) -> (r: usize)
        requires
            old(self).inv(),
            old(self).owns(ptr, old_size),
            1 <= old_size,
            1 <= new_size,
        ensures
            final(self).inv(),
            r != 0,
            r != ptr ==> final(self).owns(r, new_size),
            forall|a: usize, s: usize| old(self).owns(a, s) && a != ptr
                ==> #[trigger] final(self).owns(a, s),
    ;

    /// Resize an owned allocation in place; on success it is owned at the
    /// new size, on failure it is still owned at the old size.
    fn reallocate_inplace(&mut self, ptr: usize, old_size: usize, new_size: usize) -> (r: bool)
        requires
            old(self).inv(),
            old(self).owns(ptr, old_size),
            1 <= old_size,
            1 <= new_size,
        ensures
            final(self).inv(),
            r ==> final(self).owns(ptr, new_size),
            !r ==> final(self).owns(ptr, old_size),
            forall|a: usize, s: usize| old(self).owns(a, s) && a != ptr
                ==> #[trigger] final(self).owns(a, s),
    ;

    /// Free an owned allocation. Every other allocation is untouched.
    fn deallocate(&mut self, ptr: usize, size: usize)
        requires
            old(self).inv(),
            old(self).owns(ptr, size),
            1 <= size,
        ensures
            final(self).inv(),
            forall|a: usize, s: usize| old(self).owns(a, s) && a != ptr
                ==> #[trigger] final(self).owns(a, s),
    ;
}

impl<M: MemorySource> Allocator for LocalAlloc<M> {
    open spec fn inv(&self) -> bool {
        self.wf()
    }

    open spec fn owns(&self, ptr: usize, size: usize) -> bool {
        self.owns_block(ptr, size)
    }

    fn allocate(&mut self, size: usize) -> (r: usize) {
        self.allocate(size)
    }

    fn reallocate(&mut self, ptr: usize, old_size: usize, new_size: usize) -> (r: usize) {
        self.reallocate(ptr, old_size, new_size)
    }

    fn reallocate_inplace(&mut self, ptr: usize, old_size: usize, new_size: usize) -> (r: bool) {
        self.reallocate_inplace(ptr, old_size, new_size)
    }

    fn deallocate(&mut self, ptr: usize, size: usize) {
        self.deallocate(ptr, size)
    }
}

} // verus!
