//! Size classification: rounding a request size up to a power-of-two size
//! class, and mapping a size class to its bucket index.
use vstd::prelude::*;

verus! {

/// Number of size classes, and so of free-list buckets: 16, 32, ..., 2^20.
pub const N_BUCKETS: usize = 17;

/// Length of one slab chunk, in bytes. It is also the pooling threshold:
/// a request of this size or more bypasses the pools and gets a dedicated
/// mapping of its own.
pub const SLAB_SIZE: usize = 1048576;

/// `c` is a power of two.
pub open spec fn is_pow2(c: int) -> bool
    decreases c,
{
    if c < 1 {
        false
    } else if c == 1 {
        true
    } else {
        c % 2 == 0 && is_pow2(c / 2)
    }
}

/// The size class of a request of `s` bytes: the least power of two that is
/// at least `s` and at least 16.
pub open spec fn class_for(s: int) -> int
    decreases s,
{
    if s <= 16 {
        16
    } else {
        2 * class_for((s + 1) / 2)
    }
}

/// `c` is one of the 17 valid size classes.
pub open spec fn is_class(c: int) -> bool {
    16 <= c <= SLAB_SIZE && class_for(c) == c
}

/// The bucket index of size class `c`: log2(c) - 4.
pub open spec fn bucket_for(c: int) -> int
    decreases c,
{
    if c <= 16 {
        0
    } else {
        1 + bucket_for(c / 2)
    }
}

/// The size class served by bucket `b`: 16 * 2^b.
pub open spec fn class_of(b: int) -> int
    decreases b,
{
    if b <= 0 {
        16
    } else {
        2 * class_of(b - 1)
    }
}

/// 16 and the slab length are powers of two.
pub proof fn lemma_slab_pow2()
    ensures
        is_pow2(16),
        is_pow2(SLAB_SIZE as int),
{
    reveal_with_fuel(is_pow2, 22);
}

/// The size class of any positive request is a power of two, at least the
/// request, and at least 16.
pub proof fn lemma_class_for_bounds(s: int)
    requires
        1 <= s,
    ensures
        class_for(s) >= s,
        class_for(s) >= 16,
        is_pow2(class_for(s)),
    decreases s,
{
    if s <= 16 {
        reveal_with_fuel(is_pow2, 6);
    } else {
        lemma_class_for_bounds((s + 1) / 2);
        assert(2 * ((s + 1) / 2) >= s);
        assert((2 * class_for((s + 1) / 2)) / 2 == class_for((s + 1) / 2));
        assert(is_pow2(2 * class_for((s + 1) / 2)));
    }
}

/// Between two distinct powers of two there is at least a factor of two.
pub proof fn lemma_pow2_gap(x: int, y: int)
    requires
        is_pow2(x),
        is_pow2(y),
        x < y,
    ensures
        2 * x <= y,
    decreases x + y,
{
    assert(y >= 2);
    assert(y % 2 == 0 && is_pow2(y / 2));
    if x == y / 2 {
        assert(2 * x <= y);
    } else if x < y / 2 {
        lemma_pow2_gap(x, y / 2);
    } else {
        lemma_pow2_gap(y / 2, x);
        assert(false);
    }
}

/// The size class is minimal: no smaller power of two is both at least the
/// request and at least 16.
pub proof fn lemma_class_for_minimal(s: int, m: int)
    requires
        1 <= s,
        is_pow2(m),
        m >= s,
        m >= 16,
    ensures
        m >= class_for(s),
    decreases s,
{
    if s <= 16 {
    } else {
        lemma_slab_pow2();
        lemma_pow2_gap(16, m);
        assert(m >= 32);
        assert(m % 2 == 0 && is_pow2(m / 2));
        assert(m / 2 >= 16);
        assert(m / 2 >= (s + 1) / 2);
        lemma_class_for_minimal((s + 1) / 2, m / 2);
    }
}

/// A power of two that is at least 16 is its own size class.
pub proof fn lemma_class_for_fixed(c: int)
    requires
        is_pow2(c),
        16 <= c,
    ensures
        class_for(c) == c,
{
    lemma_class_for_bounds(c);
    lemma_class_for_minimal(c, c);
}

/// Stepping a size class above 16 down by one power of two yields the next
/// smaller class, one bucket earlier.
pub proof fn lemma_class_step(c: int)
    requires
        is_class(c),
        c > 16,
    ensures
        c % 2 == 0,
        is_class(c / 2),
        bucket_for(c) == 1 + bucket_for(c / 2),
{
    lemma_class_for_bounds(c);
    assert(is_pow2(c));
    assert(c % 2 == 0 && is_pow2(c / 2));
    lemma_slab_pow2();
    lemma_pow2_gap(16, c);
    assert(16 <= c / 2);
    lemma_class_for_fixed(c / 2);
}

/// Bucket indices are never negative.
pub proof fn lemma_bucket_nonneg(c: int)
    ensures
        bucket_for(c) >= 0,
    decreases c,
{
    if c > 16 {
        lemma_bucket_nonneg(c / 2);
    }
}

/// `class_of` grows with the bucket index.
pub proof fn lemma_class_of_mono(b1: int, b2: int)
    requires
        b1 <= b2,
    ensures
        class_of(b1) <= class_of(b2),
        class_of(b1) >= 16,
    decreases b2 - b1,
{
    if b2 <= 0 {
        lemma_class_of_nonneg(b1);
    } else if b1 < b2 {
        lemma_class_of_mono(b1, b2 - 1);
        assert(class_of(b2) == 2 * class_of(b2 - 1));
    } else {
        lemma_class_of_nonneg(b1);
    }
}

/// Every bucket's class is at least 16.
pub proof fn lemma_class_of_nonneg(b: int)
    ensures
        class_of(b) >= 16,
    decreases b,
{
    if b > 0 {
        lemma_class_of_nonneg(b - 1);
    }
}

/// The last bucket serves the slab-sized class.
pub proof fn lemma_class_of_last()
    ensures
        class_of(16) == SLAB_SIZE as int,
{
    reveal_with_fuel(class_of, 17);
}

/// Bucket index and size class are inverse to each other, and the index
/// stays within 0..=16.
pub proof fn lemma_class_bucket(c: int)
    requires
        is_class(c),
    ensures
        0 <= bucket_for(c) <= 16,
        class_of(bucket_for(c)) == c,
    decreases c,
{
    lemma_bucket_nonneg(c);
    if c <= 16 {
        assert(bucket_for(c) == 0);
    } else {
        lemma_class_step(c);
        lemma_class_bucket(c / 2);
        assert(class_of(bucket_for(c)) == 2 * class_of(bucket_for(c / 2)));
    }
    if bucket_for(c) > 16 {
        lemma_class_of_mono(17, bucket_for(c));
        lemma_class_of_last();
        assert(class_of(17) == 2 * class_of(16));
        assert(false);
    }
}

/// Every size class divides the slab length evenly.
pub proof fn lemma_class_divides_slab(c: int)
    requires
        is_class(c),
    ensures
        (SLAB_SIZE as int) % c == 0,
        (SLAB_SIZE as int) / c * c == SLAB_SIZE as int,
        1 <= (SLAB_SIZE as int) / c,
    decreases SLAB_SIZE as int - c,
{
    lemma_class_for_bounds(c);
    if c == SLAB_SIZE as int {
        assert((SLAB_SIZE as int) % c == 0);
    } else {
        lemma_slab_pow2();
        lemma_pow2_gap(c, SLAB_SIZE as int);
        assert(is_pow2(2 * c)) by {
            assert((2 * c) / 2 == c);
        }
        lemma_class_for_fixed(2 * c);
        lemma_class_divides_slab(2 * c);
        let q = (SLAB_SIZE as int) / (2 * c);
        assert(q * (2 * c) == SLAB_SIZE as int);
        assert((2 * q) * c == SLAB_SIZE as int) by (nonlinear_arith)
            requires
                q * (2 * c) == SLAB_SIZE as int,
        ;
        assert((SLAB_SIZE as int) % c == 0) by (nonlinear_arith)
            requires
                (2 * q) * c == SLAB_SIZE as int,
                c >= 16,
        ;
    }
    vstd::arithmetic::div_mod::lemma_fundamental_div_mod(SLAB_SIZE as int, c);
}

/// Round `size` up to its power-of-two size class (at least 16).
pub fn get_size_class(size: u32) -> (r: u32)
    requires
        1 <= size,
        size as int <= SLAB_SIZE as int,
    ensures
        r as int == class_for(size as int),
        is_class(r as int),
        r >= 16,
{
    proof {
        lemma_class_for_bounds(size as int);
        lemma_slab_pow2();
        lemma_class_for_minimal(size as int, SLAB_SIZE as int);
    }
    let mut c: u32 = 16;
    while c < size
        invariant
            16 <= c,
            is_pow2(c as int),
            c as int <= class_for(size as int),
            class_for(size as int) <= SLAB_SIZE as int,
            1 <= size,
        decreases class_for(size as int) - c,
    {
        proof {
            lemma_class_for_bounds(size as int);
            lemma_pow2_gap(c as int, class_for(size as int));
            assert((2 * c as int) / 2 == c as int);
            assert(is_pow2(2 * c as int));
        }
        c = c * 2;
    }
    proof {
        lemma_class_for_minimal(size as int, c as int);
        lemma_class_for_fixed(c as int);
    }
    c
}

/// The bucket index of a size class: log2(class) - 4, within 0..=16.
pub fn size_class_to_bucket(size_class: u32) -> (r: u32)
    requires
        is_class(size_class as int),
    ensures
        r as int == bucket_for(size_class as int),
        r <= 16,
        class_of(r as int) == size_class as int,
{
    proof {
        lemma_class_bucket(size_class as int);
    }
    let mut c: u32 = size_class;
    let mut b: u32 = 0;
    while c > 16
        invariant
            is_class(c as int),
            b as int == bucket_for(size_class as int) - bucket_for(c as int),
            0 <= bucket_for(size_class as int) <= 16,
            bucket_for(c as int) >= 0,
        decreases c,
    {
        proof {
            lemma_class_step(c as int);
            lemma_bucket_nonneg(c as int / 2);
        }
        c = c / 2;
        b = b + 1;
    }
    proof {
        lemma_class_bucket(size_class as int);
    }
    b
}

} // verus!
