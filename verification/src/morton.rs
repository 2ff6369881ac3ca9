use vstd::prelude::*;

verus! {

/// Bit `i` of `v` (0 or 1).
pub open spec fn bit_of(v: u64, i: u64) -> u64 {
    (v >> i) & 1
}

/// Bit `2 * i` of `z`: the position that holds bit `i` of the x coordinate.
pub open spec fn even_bit(z: u64, i: u64) -> u64 {
    (z >> ((2 * i) as u64)) & 1
}

/// Bit `2 * i + 1` of `z`: the position that holds bit `i` of the y coordinate.
pub open spec fn odd_bit(z: u64, i: u64) -> u64 {
    (z >> ((2 * i + 1) as u64)) & 1
}

/// `z` is the Morton code of the cell `(x, y)`: bit `i` of `x` sits at bit `2i`
/// of `z`, bit `i` of `y` at bit `2i + 1`, for the low 16 bits of each
/// coordinate, and every bit of `z` from bit 32 up is zero.
pub open spec fn is_morton_code(z: u64, x: u32, y: u32) -> bool {
    &&& forall|i: u64| i < 16 ==> #[trigger] even_bit(z, i) == bit_of(x as u64, i)
    &&& forall|i: u64| i < 16 ==> #[trigger] odd_bit(z, i) == bit_of(y as u64, i)
    &&& z >> 32 == 0
}

/// One round of the interleaving loop: the round for bit `i` sets bits `2i` and
/// `2i + 1` and leaves the lower bits alone.
proof fn lemma_step(z: u64, x: u32, y: u32, i: u32, k: u64)
    by (bit_vector)
    requires
        i < 16,
        z >> ((2 * i) as u64) == 0,
    ensures
        ({
            let w: u64 = z | ((x & (1u32 << i)) as u64) << i | ((y & (1u32 << i)) as u64) << (i + 1);
            &&& w >> ((2 * i + 2) as u64) == 0
            &&& k < i ==> (w >> ((2 * k) as u64)) & 1 == (z >> ((2 * k) as u64)) & 1
            &&& k < i ==> (w >> ((2 * k + 1) as u64)) & 1 == (z >> ((2 * k + 1) as u64)) & 1
            &&& k == i ==> (w >> ((2 * k) as u64)) & 1 == ((x as u64) >> k) & 1
            &&& k == i ==> (w >> ((2 * k + 1) as u64)) & 1 == ((y as u64) >> k) & 1
        }),
{
}

/// Z-order (Morton) code of the cell `(x, y)`, for linear quadtree indexing:
/// the low 16 bits of `x` and `y` interleaved, x taking the even bits.
pub fn interleave(x: u32, y: u32) -> (z: u64)
    ensures
        is_morton_code(z, x, y),
{
    let mut z: u64 = 0;
    let x_val: u32 = x;
    let y_val: u32 = y;
    let mut i: u32 = 0;
    assert(0u64 >> 0u64 == 0u64) by (bit_vector);
    while i < 16
        invariant
            i <= 16,
            x_val == x,
            y_val == y,
            z >> ((2 * i) as u64) == 0,
            forall|k: u64| k < i ==> #[trigger] even_bit(z, k) == bit_of(x as u64, k),
            forall|k: u64| k < i ==> #[trigger] odd_bit(z, k) == bit_of(y as u64, k),
        decreases 16 - i,
    {
        let ghost old_z = z;
        z = z | ((x_val & (1u32 << i)) as u64) << i | ((y_val & (1u32 << i)) as u64) << (i + 1);
        proof {
            lemma_step(old_z, x, y, i, 0);
            assert forall|k: u64|
                #![trigger even_bit(z, k)]
                #![trigger odd_bit(z, k)]
                k < i + 1 implies even_bit(z, k) == bit_of(x as u64, k) && odd_bit(z, k)
                    == bit_of(y as u64, k) by {
                lemma_step(old_z, x, y, i, k);
                if k < i {
                    // the lower bits were already in place
                    assert(even_bit(old_z, k) == bit_of(x as u64, k));
                    assert(odd_bit(old_z, k) == bit_of(y as u64, k));
                }
            }
        }
        i = i + 1;
    }
    z
}

proof fn lemma_shift_bit(a: u64, k: u64)
    by (bit_vector)
    requires
        k < 63,
    ensures
        ((a >> 1) >> k) & 1 == (a >> (k + 1)) & 1,
{
}

proof fn lemma_shift_top(a: u64, n: u64)
    by (bit_vector)
    requires
        1 <= n <= 64,
        a >> n == 0,
    ensures
        (a >> 1) >> ((n - 1) as u64) == 0,
{
}

proof fn lemma_join_low_bit(a: u64, b: u64)
    by (bit_vector)
    requires
        a >> 1 == b >> 1,
        a & 1 == b & 1,
    ensures
        a == b,
{
}

proof fn lemma_zero_shift(a: u64)
    by (bit_vector)
    requires
        a >> 0 == 0,
    ensures
        a == 0,
{
}

/// Two words whose bits agree below `n` and which have no bit set from `n` up
/// are equal.
proof fn lemma_eq_from_bits(a: u64, b: u64, n: u64)
    requires
        n <= 64,
        a >> n == 0,
        b >> n == 0,
        forall|k: u64| k < n ==> #[trigger] bit_of(a, k) == bit_of(b, k),
    ensures
        a == b,
    decreases n,
{
    if n == 0 {
        lemma_zero_shift(a);
        lemma_zero_shift(b);
    } else {
        let a1 = a >> 1;
        let b1 = b >> 1;
        lemma_shift_top(a, n);
        lemma_shift_top(b, n);
        assert forall|k: u64| k < (n - 1) as u64 implies #[trigger] bit_of(a1, k) == bit_of(b1, k) by {
            lemma_shift_bit(a, k);
            lemma_shift_bit(b, k);
            assert(bit_of(a, (k + 1) as u64) == bit_of(b, (k + 1) as u64));
        }
        lemma_eq_from_bits(a1, b1, (n - 1) as u64);
        assert(bit_of(a, 0) == bit_of(b, 0));
        assert((a >> 0u64) & 1 == a & 1 && (b >> 0u64) & 1 == b & 1) by (bit_vector);
        lemma_join_low_bit(a, b);
    }
}

proof fn lemma_even_odd_bit(z: u64, k: u64)
    requires
        k < 32,
    ensures
        k % 2 == 0 ==> bit_of(z, k) == even_bit(z, k / 2),
        k % 2 == 1 ==> bit_of(z, k) == odd_bit(z, k / 2),
{
    if k % 2 == 0 {
        assert(((2 * (k / 2)) as u64) == k);
    } else {
        assert(((2 * (k / 2) + 1) as u64) == k);
    }
}

/// The Morton code of a cell is unique: the contract of `interleave` pins its
/// result down.
pub proof fn lemma_morton_code_unique(z1: u64, z2: u64, x: u32, y: u32)
    requires
        is_morton_code(z1, x, y),
        is_morton_code(z2, x, y),
    ensures
        z1 == z2,
{
    assert forall|k: u64| k < 32 implies #[trigger] bit_of(z1, k) == bit_of(z2, k) by {
        lemma_even_odd_bit(z1, k);
        lemma_even_odd_bit(z2, k);
        if k % 2 == 0 {
            assert(even_bit(z1, k / 2) == bit_of(x as u64, k / 2));
            assert(even_bit(z2, k / 2) == bit_of(x as u64, k / 2));
        } else {
            assert(odd_bit(z1, k / 2) == bit_of(y as u64, k / 2));
            assert(odd_bit(z2, k / 2) == bit_of(y as u64, k / 2));
        }
    }
    lemma_eq_from_bits(z1, z2, 32);
}

proof fn lemma_low16_bit(x: u32, i: u64)
    by (bit_vector)
    requires
        i < 16,
    ensures
        ((x & 0xffff) as u64 >> i) & 1 == ((x as u64) >> i) & 1,
        ((x & 0xffff) as u64) >> 16u64 == 0,
{
}

/// Only the low 16 bits of each coordinate enter the Morton code.
pub proof fn lemma_morton_low_bits(z: u64, x: u32, y: u32)
    ensures
        is_morton_code(z, x, y) <==> is_morton_code(z, x & 0xffff, y & 0xffff),
{
    assert forall|i: u64| i < 16 implies #[trigger] bit_of((x & 0xffff) as u64, i) == bit_of(
        x as u64,
        i,
    ) && bit_of((y & 0xffff) as u64, i) == bit_of(y as u64, i) by {
        lemma_low16_bit(x, i);
        lemma_low16_bit(y, i);
    }
    if is_morton_code(z, x, y) {
        assert forall|i: u64| i < 16 implies #[trigger] even_bit(z, i) == bit_of(
            (x & 0xffff) as u64,
            i,
        ) by {
            lemma_low16_bit(x, i);
        }
        assert forall|i: u64| i < 16 implies #[trigger] odd_bit(z, i) == bit_of(
            (y & 0xffff) as u64,
            i,
        ) by {
            lemma_low16_bit(y, i);
        }
    }
    if is_morton_code(z, x & 0xffff, y & 0xffff) {
        assert forall|i: u64| i < 16 implies #[trigger] even_bit(z, i) == bit_of(x as u64, i) by {
            lemma_low16_bit(x, i);
        }
        assert forall|i: u64| i < 16 implies #[trigger] odd_bit(z, i) == bit_of(y as u64, i) by {
            lemma_low16_bit(y, i);
        }
    }
}

/// Distinct cells (told apart by the low 16 bits of their coordinates) have
/// distinct Morton codes: the coordinates can be read back from the code.
pub proof fn lemma_morton_injective(z: u64, x1: u32, y1: u32, x2: u32, y2: u32)
    requires
        is_morton_code(z, x1, y1),
        is_morton_code(z, x2, y2),
    ensures
        x1 & 0xffff == x2 & 0xffff,
        y1 & 0xffff == y2 & 0xffff,
{
    let a1 = (x1 & 0xffff) as u64;
    let a2 = (x2 & 0xffff) as u64;
    let b1 = (y1 & 0xffff) as u64;
    let b2 = (y2 & 0xffff) as u64;
    assert forall|k: u64| k < 16 implies #[trigger] bit_of(a1, k) == bit_of(a2, k) by {
        lemma_low16_bit(x1, k);
        lemma_low16_bit(x2, k);
        assert(even_bit(z, k) == bit_of(x1 as u64, k));
        assert(even_bit(z, k) == bit_of(x2 as u64, k));
    }
    assert forall|k: u64| k < 16 implies #[trigger] bit_of(b1, k) == bit_of(b2, k) by {
        lemma_low16_bit(y1, k);
        lemma_low16_bit(y2, k);
        assert(odd_bit(z, k) == bit_of(y1 as u64, k));
        assert(odd_bit(z, k) == bit_of(y2 as u64, k));
    }
    lemma_low16_bit(x1, 0);
    lemma_low16_bit(x2, 0);
    lemma_low16_bit(y1, 0);
    lemma_low16_bit(y2, 0);
    lemma_eq_from_bits(a1, a2, 16);
    lemma_eq_from_bits(b1, b2, 16);
}

proof fn lemma_parent_bits(z: u64, x: u32, i: u64)
    by (bit_vector)
    requires
        i < 16,
        z >> 32 == 0,
        x < 0x10000,
    ensures
        i < 15 ==> ((z >> 2) >> ((2 * i) as u64)) & 1 == (z >> ((2 * (i + 1)) as u64)) & 1,
        i < 15 ==> ((z >> 2) >> ((2 * i + 1) as u64)) & 1 == (z >> ((2 * (i + 1) + 1) as u64)) & 1,
        i == 15 ==> ((z >> 2) >> ((2 * i) as u64)) & 1 == 0,
        i == 15 ==> ((z >> 2) >> ((2 * i + 1) as u64)) & 1 == 0,
        i < 15 ==> (((x >> 1) as u64) >> i) & 1 == ((x as u64) >> (i + 1)) & 1,
        i == 15 ==> (((x >> 1) as u64) >> i) & 1 == 0,
        (z >> 2) >> 32 == 0,
{
}

/// Linear quadtree indexing: dropping the lowest bit of both coordinates (the
/// enclosing cell one level up) drops the lowest two bits of the Morton code.
pub proof fn lemma_morton_parent(z: u64, x: u32, y: u32)
    requires
        x < 0x10000,
        y < 0x10000,
        is_morton_code(z, x, y),
    ensures
        is_morton_code(z >> 2, x >> 1, y >> 1),
{
    let p = z >> 2;
    assert forall|i: u64| i < 16 implies #[trigger] even_bit(p, i) == bit_of((x >> 1) as u64, i) by {
        lemma_parent_bits(z, x, i);
        if i < 15 {
            assert(even_bit(z, (i + 1) as u64) == bit_of(x as u64, (i + 1) as u64));
        }
    }
    assert forall|i: u64| i < 16 implies #[trigger] odd_bit(p, i) == bit_of((y >> 1) as u64, i) by {
        lemma_parent_bits(z, y, i);
        if i < 15 {
            assert(odd_bit(z, (i + 1) as u64) == bit_of(y as u64, (i + 1) as u64));
        }
    }
    lemma_parent_bits(z, x, 0);
}

/// The low 16 bits of `v` moved to the even bit positions of a word.
spec fn spread(v: u64) -> u64 {
    let a: u64 = v & 0xffff;
    let b: u64 = (a | (a << 8u64)) & 0x00ff00ff;
    let c: u64 = (b | (b << 4u64)) & 0x0f0f0f0f;
    let d: u64 = (c | (c << 2u64)) & 0x33333333;
    (d | (d << 1u64)) & 0x55555555
}

proof fn lemma_spread_pair_bits(u: u64, v: u64, i: u64)
    by (bit_vector)
    requires
        i < 16,
    ensures
        ((spread(u) | (spread(v) << 1u64)) >> ((2 * i) as u64)) & 1 == (u >> i) & 1,
        ((spread(u) | (spread(v) << 1u64)) >> ((2 * i + 1) as u64)) & 1 == (v >> i) & 1,
        (spread(u) | (spread(v) << 1u64)) >> 32u64 == 0,
{
}

proof fn lemma_spread_monotone(u: u64, v: u64)
    by (bit_vector)
    requires
        u <= v,
        v < 0x10000,
    ensures
        spread(u) <= spread(v),
{
}

proof fn lemma_spread_sum(u: u64, v: u64)
    by (bit_vector)
    ensures
        spread(u) | (spread(v) << 1u64) == spread(u) + 2 * spread(v),
{
}

/// The Morton code of `(x, y)` is the sum of the spread bits of `x` and twice
/// those of `y`.
proof fn lemma_morton_spread(z: u64, x: u32, y: u32)
    requires
        is_morton_code(z, x, y),
    ensures
        z == spread(x as u64) + 2 * spread(y as u64),
{
    let sx = spread(x as u64);
    let sy = spread(y as u64);
    let w = sx | (sy << 1u64);
    assert forall|i: u64| i < 16 implies #[trigger] even_bit(w, i) == bit_of(x as u64, i) by {
        lemma_spread_pair_bits(x as u64, y as u64, i);
    }
    assert forall|i: u64| i < 16 implies #[trigger] odd_bit(w, i) == bit_of(y as u64, i) by {
        lemma_spread_pair_bits(x as u64, y as u64, i);
    }
    lemma_spread_pair_bits(x as u64, y as u64, 0);
    lemma_morton_code_unique(z, w, x, y);
    lemma_spread_sum(x as u64, y as u64);
}

/// Z-order is monotone: a cell that lies no further right and no further down
/// than another (coordinates below 2^16) comes no later in Morton order.
pub proof fn lemma_morton_monotone(z1: u64, x1: u32, y1: u32, z2: u64, x2: u32, y2: u32)
    requires
        is_morton_code(z1, x1, y1),
        is_morton_code(z2, x2, y2),
        x1 <= x2 < 0x10000,
        y1 <= y2 < 0x10000,
    ensures
        z1 <= z2,
{
    lemma_morton_spread(z1, x1, y1);
    lemma_morton_spread(z2, x2, y2);
    lemma_spread_monotone(x1 as u64, x2 as u64);
    lemma_spread_monotone(y1 as u64, y2 as u64);
}

/// Zero is the Morton code of the origin cell.
pub proof fn lemma_morton_origin()
    ensures
        is_morton_code(0, 0, 0),
{
    assert forall|i: u64| i < 16 implies #[trigger] even_bit(0, i) == bit_of(0u32 as u64, i) by {
        assert((0u64 >> ((2 * i) as u64)) & 1 == (0u64 >> i) & 1) by (bit_vector);
    }
    assert forall|i: u64| i < 16 implies #[trigger] odd_bit(0, i) == bit_of(0u32 as u64, i) by {
        assert((0u64 >> ((2 * i + 1) as u64)) & 1 == (0u64 >> i) & 1) by (bit_vector);
    }
    assert(0u64 >> 32u64 == 0) by (bit_vector);
}

} // verus!
