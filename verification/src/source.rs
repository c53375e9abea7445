//! The memory source: the interface to OS anonymous memory mapping, and a
//! deterministic in-process model of it.
//!
//! The pool and the large-object path are verified against the
//! [`MemorySource`] contracts alone, so they hold for any implementation:
//! the [`ModelSource`] arena below (itself verified), or an implementation
//! over the real OS mapping calls supplied by the embedding program.
use vstd::prelude::*;

verus! {

/// What a source of mappings promises: a map from region base addresses to
/// region lengths, grown and shrunk by the four mapping operations.
///
/// A successful `map` hands out a non-null region that overlaps no live
/// region; `unmap` releases exactly one region of exactly its length;
/// `remap` resizes a region, possibly relocating it; `remap_inplace`
/// resizes only without relocation; `copy` moves bytes between live
/// regions and changes no region boundaries.
pub trait MemorySource: Sized {
    /// The live regions: base address to length. The default stands for
    /// sources nothing is proved about, such as an unverified OS-backed
    /// implementation outside this crate; a verified source overrides it.
    open spec fn mapped(&self) -> Map<usize, usize> {
        Map::empty()
    }

    /// The implementation's own well-formedness; verified sources
    /// override it.
    open spec fn inv(&self) -> bool {
        true
    }

    /// Request a fresh region of exactly `size` bytes; 0 means failure.
    fn map(&mut self, size: usize) -> (r: usize)
        requires
            old(self).inv(),
            1 <= size,
        ensures
            final(self).inv(),
            r == 0 ==> final(self).mapped() == old(self).mapped(),
            r != 0 ==> final(self).mapped() == old(self).mapped().insert(r, size)
                && !old(self).mapped().contains_key(r)
                && r + size <= usize::MAX
                && (forall|a: usize| #[trigger] old(self).mapped().contains_key(a)
                    ==> a + old(self).mapped()[a] <= r || r + size <= a),
    ;

    /// Release the region at `ptr`, whose length must be exactly `size`.
    fn unmap(&mut self, ptr: usize, size: usize)
        requires
            old(self).inv(),
            old(self).mapped().contains_key(ptr),
            old(self).mapped()[ptr] == size,
        ensures
            final(self).inv(),
            final(self).mapped() == old(self).mapped().remove(ptr),
    ;

    /// Resize the region at `ptr`, relocating it if need be. Returns the
    /// region's (possibly new) base, or 0 on failure, in which case the
    /// original region is untouched.
    fn remap(&mut self, ptr: usize, old_size: usize, new_size: usize) -> (r: usize)
        requires
            old(self).inv(),
            old(self).mapped().contains_key(ptr),
            old(self).mapped()[ptr] == old_size,
            1 <= new_size,
        ensures
            final(self).inv(),
            r == 0 ==> final(self).mapped() == old(self).mapped(),
            r != 0 ==> final(self).mapped() == old(self).mapped().remove(ptr).insert(r, new_size)
                && !old(self).mapped().remove(ptr).contains_key(r)
                && r + new_size <= usize::MAX
                && (forall|a: usize| #[trigger] old(self).mapped().contains_key(a) && a != ptr
                    ==> a + old(self).mapped()[a] <= r || r + new_size <= a),
    ;

    /// Resize the region at `ptr` without moving it. `true` means the
    /// region now has length `new_size` at the same base; `false` means
    /// nothing changed.
    fn remap_inplace(&mut self, ptr: usize, old_size: usize, new_size: usize) -> (r: bool)
        requires
            old(self).inv(),
            old(self).mapped().contains_key(ptr),
            old(self).mapped()[ptr] == old_size,
            1 <= new_size,
        ensures
            final(self).inv(),
            !r ==> final(self).mapped() == old(self).mapped(),
            r ==> final(self).mapped() == old(self).mapped().insert(ptr, new_size)
                && ptr + new_size <= usize::MAX
                && (forall|a: usize| #[trigger] old(self).mapped().contains_key(a) && a != ptr
                    ==> a + old(self).mapped()[a] <= ptr || ptr + new_size <= a),
    ;

    /// Copy `len` bytes from `src` to `dst`; both ranges must lie within
    /// live regions. Region boundaries do not change.
    fn copy(&mut self, dst: usize, src: usize, len: usize)
        requires
            old(self).inv(),
            exists|a: usize| #[trigger] old(self).mapped().contains_key(a)
                && a <= src && src + len <= a + old(self).mapped()[a],
            exists|a: usize| #[trigger] old(self).mapped().contains_key(a)
                && a <= dst && dst + len <= a + old(self).mapped()[a],
        ensures
            final(self).inv(),
            final(self).mapped() == old(self).mapped(),
    ;
}

/// One live region of the model arena.
#[derive(Clone, Copy)]
pub struct Region {
    pub base: usize,
    pub len: usize,
}

/// The regions of `s`, folded into a map from base to length.
pub open spec fn region_map(s: Seq<Region>) -> Map<usize, usize>
    decreases s.len(),
{
    if s.len() == 0 {
        Map::empty()
    } else {
        region_map(s.drop_last()).insert(s.last().base, s.last().len)
    }
}

/// No two regions of `s` share a base address.
pub open spec fn distinct_bases(s: Seq<Region>) -> bool {
    forall|i: int, j: int| 0 <= i < j < s.len()
        ==> (#[trigger] s[i]).base != (#[trigger] s[j]).base
}

/// The keys of `region_map(s)` are exactly the bases of `s`.
pub proof fn lemma_region_map_keys(s: Seq<Region>)
    ensures
        forall|a: usize| #[trigger] region_map(s).contains_key(a)
            <==> exists|i: int| 0 <= i < s.len() && (#[trigger] s[i]).base == a,
    decreases s.len(),
{
    if s.len() == 0 {
    } else {
        lemma_region_map_keys(s.drop_last());
        assert forall|a: usize| #[trigger] region_map(s).contains_key(a)
            implies exists|i: int| 0 <= i < s.len() && (#[trigger] s[i]).base == a by {
            if a == s.last().base {
                assert(s[s.len() - 1].base == a);
            } else {
                assert(region_map(s.drop_last()).contains_key(a));
                let i = choose|i: int| 0 <= i < s.drop_last().len()
                    && (#[trigger] s.drop_last()[i]).base == a;
                assert(s.drop_last()[i] == s[i]);
                assert(s[i].base == a);
            }
        }
        assert forall|a: usize| (exists|i: int| 0 <= i < s.len() && (#[trigger] s[i]).base == a)
            implies #[trigger] region_map(s).contains_key(a) by {
            let i = choose|i: int| 0 <= i < s.len() && (#[trigger] s[i]).base == a;
            if i < s.len() - 1 {
                assert(s.drop_last()[i].base == a);
                assert(region_map(s.drop_last()).contains_key(a));
            }
        }
    }
}

/// With distinct bases, each region's base maps to its own length.
pub proof fn lemma_region_map_index(s: Seq<Region>, i: int)
    requires
        distinct_bases(s),
        0 <= i < s.len(),
    ensures
        region_map(s).contains_key(s[i].base),
        region_map(s)[s[i].base] == s[i].len,
    decreases s.len(),
{
    if i == s.len() - 1 {
    } else {
        assert(s.drop_last()[i] == s[i]);
        lemma_region_map_index(s.drop_last(), i);
        assert(s[i].base != s.last().base);
    }
}

/// A key of the map names a region of `s` with the mapped length.
pub proof fn lemma_key_region(s: Seq<Region>, a: usize)
    requires
        distinct_bases(s),
        region_map(s).contains_key(a),
    ensures
        exists|i: int| 0 <= i < s.len() && (#[trigger] s[i]).base == a
            && s[i].len == region_map(s)[a],
{
    lemma_region_map_keys(s);
    let i = choose|i: int| 0 <= i < s.len() && (#[trigger] s[i]).base == a;
    lemma_region_map_index(s, i);
}

/// Removing the region at index `i` removes exactly its key.
pub proof fn lemma_region_map_remove(s: Seq<Region>, i: int)
    requires
        distinct_bases(s),
        0 <= i < s.len(),
    ensures
        region_map(s.remove(i)) == region_map(s).remove(s[i].base),
    decreases s.len(),
{
    if i == s.len() - 1 {
        assert(s.remove(i) =~= s.drop_last());
        lemma_region_map_keys(s.drop_last());
        assert forall|j: int| 0 <= j < s.drop_last().len()
            implies (#[trigger] s.drop_last()[j]).base != s[i].base by {
            assert(s[j] == s.drop_last()[j]);
        }
        assert(!region_map(s.drop_last()).contains_key(s[i].base));
        assert(region_map(s).remove(s[i].base) =~= region_map(s.drop_last()));
    } else {
        assert forall|j1: int, j2: int| 0 <= j1 < j2 < s.drop_last().len()
            implies (#[trigger] s.drop_last()[j1]).base != (#[trigger] s.drop_last()[j2]).base by {
            assert(s.drop_last()[j1] == s[j1]);
            assert(s.drop_last()[j2] == s[j2]);
        }
        lemma_region_map_remove(s.drop_last(), i);
        assert(s.remove(i).drop_last() =~= s.drop_last().remove(i));
        assert(s.remove(i).last() == s.last());
        assert(region_map(s.remove(i))
            == region_map(s.drop_last().remove(i)).insert(s.last().base, s.last().len));
        assert(s[i].base != s.last().base);
        assert(region_map(s.remove(i)) =~= region_map(s).remove(s[i].base));
    }
}

/// A deterministic model of the OS mapping primitive: a bump arena that
/// hands out disjoint regions below a rising floor. It carries no byte
/// contents; it exists so that the allocator's behaviour over any
/// conforming source can be exercised and observed in full.
pub struct ModelSource {
    pub regions: Vec<Region>,
    pub floor: usize,
}

impl ModelSource {
    /// A fresh arena with no live regions.
    pub fn new() -> (s: ModelSource)
        ensures
            s.inv(),
            s.mapped() == Map::<usize, usize>::empty(),
            s.regions@.len() == 0,
    {
        ModelSource { regions: Vec::new(), floor: 4096 }
    }

    /// How many regions are live; one per successful `map` not yet unmapped.
    pub fn region_count(&self) -> (n: usize)
        ensures
            n == self.regions@.len(),
    {
        self.regions.len()
    }

    /// Find the index of the region based at `ptr`.
    fn find(&self, ptr: usize) -> (i: usize)
        requires
            self.inv(),
            self.mapped().contains_key(ptr),
        ensures
            i < self.regions@.len(),
            self.regions@[i as int].base == ptr,
            self.regions@[i as int].len == self.mapped()[ptr],
    {
        proof {
            lemma_key_region(self.regions@, ptr);
        }
        let mut i: usize = 0;
        while i < self.regions.len()
            invariant
                i <= self.regions@.len(),
                forall|j: int| 0 <= j < i ==> (#[trigger] self.regions@[j]).base != ptr,
                distinct_bases(self.regions@),
                exists|j: int| 0 <= j < self.regions@.len()
                    && (#[trigger] self.regions@[j]).base == ptr
                    && self.regions@[j].len == self.mapped()[ptr],
            decreases self.regions@.len() - i,
        {
            if self.regions[i].base == ptr {
                return i;
            }
            i = i + 1;
        }
        proof {
            assert(false);
        }
        0
    }
}

impl MemorySource for ModelSource {
    open spec fn mapped(&self) -> Map<usize, usize> {
        region_map(self.regions@)
    }

    open spec fn inv(&self) -> bool {
        &&& 1 <= self.floor
        &&& forall|i: int| 0 <= i < self.regions@.len()
            ==> 1 <= (#[trigger] self.regions@[i]).len
                && 1 <= self.regions@[i].base
                && self.regions@[i].base + self.regions@[i].len <= self.floor
        &&& distinct_bases(self.regions@)
        &&& forall|i: int, j: int| 0 <= i < j < self.regions@.len()
            ==> (#[trigger] self.regions@[i]).base + self.regions@[i].len
                    <= (#[trigger] self.regions@[j]).base
                || self.regions@[j].base + self.regions@[j].len <= self.regions@[i].base
    }

    fn map(&mut self, size: usize) -> (r: usize) {
        if self.floor > usize::MAX - size {
            return 0;
        }
        let base = self.floor;
        self.floor = self.floor + size;
        self.regions.push(Region { base, len: size });
        proof {
            let olds = old(self).regions@;
            assert(self.regions@.drop_last() =~= olds);
            assert(self.mapped() == old(self).mapped().insert(base, size));
            lemma_region_map_keys(olds);
            if old(self).mapped().contains_key(base) {
                let i = choose|i: int| 0 <= i < olds.len() && (#[trigger] olds[i]).base == base;
                assert(false);
            }
            assert forall|a: usize| #[trigger] old(self).mapped().contains_key(a)
                implies a + old(self).mapped()[a] <= base by {
                lemma_key_region(olds, a);
                let i = choose|i: int| 0 <= i < olds.len() && (#[trigger] olds[i]).base == a
                    && olds[i].len == old(self).mapped()[a];
            }
        }
        base
    }

    fn unmap(&mut self, ptr: usize, size: usize) {
        let i = self.find(ptr);
        proof {
            lemma_region_map_remove(self.regions@, i as int);
        }
        self.regions.remove(i);
        proof {
            let olds = old(self).regions@;
            assert forall|j1: int, j2: int| 0 <= j1 < j2 < self.regions@.len()
                implies (#[trigger] self.regions@[j1]).base != (#[trigger] self.regions@[j2]).base by {
                assert(self.regions@[j1] == if j1 < i { olds[j1] } else { olds[j1 + 1] });
                assert(self.regions@[j2] == if j2 < i { olds[j2] } else { olds[j2 + 1] });
            }
            assert forall|j1: int, j2: int| 0 <= j1 < j2 < self.regions@.len()
                implies (#[trigger] self.regions@[j1]).base + self.regions@[j1].len
                        <= (#[trigger] self.regions@[j2]).base
                    || self.regions@[j2].base + self.regions@[j2].len <= self.regions@[j1].base by {
                assert(self.regions@[j1] == if j1 < i { olds[j1] } else { olds[j1 + 1] });
                assert(self.regions@[j2] == if j2 < i { olds[j2] } else { olds[j2 + 1] });
            }
        }
    }

    fn remap(&mut self, ptr: usize, old_size: usize, new_size: usize) -> (r: usize) {
        let i = self.find(ptr);
        proof {
            lemma_region_map_remove(self.regions@, i as int);
        }
        self.regions.remove(i);
        proof {
            let olds = old(self).regions@;
            assert forall|j1: int, j2: int| 0 <= j1 < j2 < self.regions@.len()
                implies (#[trigger] self.regions@[j1]).base != (#[trigger] self.regions@[j2]).base
                    && ((#[trigger] self.regions@[j1]).base + self.regions@[j1].len
                            <= (#[trigger] self.regions@[j2]).base
                        || self.regions@[j2].base + self.regions@[j2].len
                            <= self.regions@[j1].base) by {
                assert(self.regions@[j1] == if j1 < i { olds[j1] } else { olds[j1 + 1] });
                assert(self.regions@[j2] == if j2 < i { olds[j2] } else { olds[j2 + 1] });
            }
            assert forall|j: int| 0 <= j < self.regions@.len()
                implies (#[trigger] self.regions@[j]) == (if j < i { olds[j] } else { olds[j + 1] })
                    && self.regions@[j].base != ptr by {
            }
        }
        if new_size <= old_size {
            let mid = self.regions.len();
            self.regions.push(Region { base: ptr, len: new_size });
            proof {
                let mids = self.regions@.drop_last();
                assert(mids =~= old(self).regions@.remove(i as int));
                self.lemma_after_reinsert(old(self), i as int, ptr, new_size);
            }
            return ptr;
        }
        if self.floor > usize::MAX - new_size {
            self.regions.push(Region { base: ptr, len: old_size });
            proof {
                assert(self.regions@.drop_last() =~= old(self).regions@.remove(i as int));
                self.lemma_after_reinsert(old(self), i as int, ptr, old_size);
                assert(self.mapped() =~= old(self).mapped());
            }
            return 0;
        }
        let base = self.floor;
        self.floor = self.floor + new_size;
        self.regions.push(Region { base, len: new_size });
        proof {
            assert(self.regions@.drop_last() =~= old(self).regions@.remove(i as int));
            let rest = old(self).mapped().remove(ptr);
            assert(self.mapped() == rest.insert(base, new_size));
            lemma_region_map_keys(old(self).regions@.remove(i as int));
            if rest.contains_key(base) {
                let j = choose|j: int| 0 <= j < old(self).regions@.remove(i as int).len()
                    && (#[trigger] old(self).regions@.remove(i as int)[j]).base == base;
                assert(old(self).regions@.remove(i as int)[j]
                    == if j < i { old(self).regions@[j] } else { old(self).regions@[j + 1] });
                assert(false);
            }
            assert forall|a: usize| #[trigger] old(self).mapped().contains_key(a) && a != ptr
                implies a + old(self).mapped()[a] <= base by {
                lemma_key_region(old(self).regions@, a);
            }
        }
        base
    }

    fn remap_inplace(&mut self, ptr: usize, old_size: usize, new_size: usize) -> (r: bool) {
        let i = self.find(ptr);
        if new_size <= old_size {
            proof {
                lemma_region_map_remove(self.regions@, i as int);
            }
            self.regions.remove(i);
            proof {
                let olds = old(self).regions@;
                assert forall|j1: int, j2: int| 0 <= j1 < j2 < self.regions@.len()
                    implies (#[trigger] self.regions@[j1]).base != (#[trigger] self.regions@[j2]).base
                        && ((#[trigger] self.regions@[j1]).base + self.regions@[j1].len
                                <= (#[trigger] self.regions@[j2]).base
                            || self.regions@[j2].base + self.regions@[j2].len
                                <= self.regions@[j1].base) by {
                    assert(self.regions@[j1] == if j1 < i { olds[j1] } else { olds[j1 + 1] });
                    assert(self.regions@[j2] == if j2 < i { olds[j2] } else { olds[j2 + 1] });
                }
            }
            self.regions.push(Region { base: ptr, len: new_size });
            proof {
                assert(self.regions@.drop_last() =~= old(self).regions@.remove(i as int));
                self.lemma_after_reinsert(old(self), i as int, ptr, new_size);
                assert(old(self).mapped().remove(ptr).insert(ptr, new_size)
                    =~= old(self).mapped().insert(ptr, new_size));
            }
            return true;
        }
        false
    }

    fn copy(&mut self, dst: usize, src: usize, len: usize) {
        // The model arena holds no byte contents; the region layout is
        // untouched, which is all the contract speaks of.
    }
}

impl ModelSource {
    /// After removing the region at `i` of `prev` and pushing a region
    /// based at that same address, the map is `prev`'s with that key
    /// rebound, and the invariant holds again if the new length fits where
    /// the old region sat or below the floor.
    proof fn lemma_after_reinsert(&self, prev: &Self, i: int, ptr: usize, len: usize)
        requires
            prev.inv(),
            0 <= i < prev.regions@.len(),
            prev.regions@[i].base == ptr,
            self.regions@.len() >= 1,
            self.regions@.drop_last() =~= prev.regions@.remove(i),
            self.regions@.last() == (Region { base: ptr, len }),
            1 <= len,
            len <= prev.regions@[i].len,
            self.floor >= prev.floor,
        ensures
            self.inv(),
            self.mapped() == prev.mapped().remove(ptr).insert(ptr, len),
            forall|a: usize| #[trigger] prev.mapped().contains_key(a) && a != ptr
                ==> a + prev.mapped()[a] <= ptr || ptr + len <= a,
    {
        let olds = prev.regions@;
        let mids = olds.remove(i);
        lemma_region_map_remove(olds, i);
        assert(region_map(self.regions@) == region_map(mids).insert(ptr, len));
        assert forall|j: int| 0 <= j < mids.len()
            implies (#[trigger] mids[j]) == (if j < i { olds[j] } else { olds[j + 1] }) by {
        }
        assert forall|j1: int, j2: int| 0 <= j1 < j2 < self.regions@.len()
            implies (#[trigger] self.regions@[j1]).base != (#[trigger] self.regions@[j2]).base
                && ((#[trigger] self.regions@[j1]).base + self.regions@[j1].len
                        <= (#[trigger] self.regions@[j2]).base
                    || self.regions@[j2].base + self.regions@[j2].len
                        <= self.regions@[j1].base) by {
            if j2 < self.regions@.len() - 1 {
                assert(self.regions@[j1] == mids[j1]);
                assert(self.regions@[j2] == mids[j2]);
                let o1 = if j1 < i { j1 } else { j1 + 1 };
                let o2 = if j2 < i { j2 } else { j2 + 1 };
                assert(mids[j1] == olds[o1]);
                assert(mids[j2] == olds[o2]);
                assert(olds[o1].base != olds[o2].base);
                assert(olds[o1].base + olds[o1].len <= olds[o2].base
                    || olds[o2].base + olds[o2].len <= olds[o1].base);
            } else {
                assert(self.regions@[j2] == (Region { base: ptr, len }));
                assert(self.regions@[j1] == mids[j1]);
                let o = if j1 < i { j1 } else { j1 + 1 };
                assert(mids[j1] == olds[o]);
                assert(o != i);
                assert(olds[o].base != olds[i].base);
                if o < i {
                    assert(olds[o].base + olds[o].len <= olds[i].base
                        || olds[i].base + olds[i].len <= olds[o].base);
                } else {
                    assert(olds[i].base + olds[i].len <= olds[o].base
                        || olds[o].base + olds[o].len <= olds[i].base);
                }
            }
        }
        assert forall|j: int| 0 <= j < self.regions@.len()
            implies 1 <= (#[trigger] self.regions@[j]).len
                && 1 <= self.regions@[j].base
                && self.regions@[j].base + self.regions@[j].len <= self.floor by {
            if j < self.regions@.len() - 1 {
                assert(self.regions@[j] == mids[j]);
                let o = if j < i { j } else { j + 1 };
                assert(mids[j] == olds[o]);
            }
        }
        assert forall|a: usize| #[trigger] prev.mapped().contains_key(a) && a != ptr
            implies a + prev.mapped()[a] <= ptr || ptr + len <= a by {
            lemma_key_region(olds, a);
            let j = choose|j: int| 0 <= j < olds.len() && (#[trigger] olds[j]).base == a
                && olds[j].len == prev.mapped()[a];
            assert(j != i);
            if j < i {
                assert(olds[j].base + olds[j].len <= olds[i].base
                    || olds[i].base + olds[i].len <= olds[j].base);
            } else {
                assert(olds[i].base + olds[i].len <= olds[j].base
                    || olds[j].base + olds[j].len <= olds[i].base);
            }
        }
    }
}

} // verus!
