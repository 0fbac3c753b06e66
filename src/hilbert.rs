//! Hilbert curve indexing in any number of dimensions.
//!
//! An index is a 64-bit number; a point is a list of `dims` coordinates of `bits`
//! bits each. The index bits are dealt out to the coordinates column by column
//! ("transposed"), then reshaped by the rotations and reflections of the Hilbert
//! curve.
use vstd::prelude::*;

verus! {

/// Bit `m` of `x`; positions outside `0..64` hold no bit.
pub open spec fn bit(x: u64, m: int) -> bool {
    0 <= m < 64 && (x >> (m as u64)) & 1 == 1
}

/// Setting bit `i` leaves every other bit as it was.
proof fn lemma_bit_set(acc: u64, i: u64, m: u64)
    requires
        i < 64,
        m < 64,
    ensures
        ((acc | (1u64 << i)) >> m) & 1 == 1 <==> ((acc >> m) & 1 == 1 || m == i),
{
    assert(((acc | (1u64 << i)) >> m) & 1 == 1 <==> ((acc >> m) & 1 == 1 || m == i)) by (bit_vector)
        requires
            i < 64,
            m < 64,
    ;
}

/// Zero has no bit set.
proof fn lemma_bit_zero(m: u64)
    requires
        m < 64,
    ensures
        (0u64 >> m) & 1 != 1,
{
    assert((0u64 >> m) & 1 != 1) by (bit_vector)
        requires
            m < 64,
    ;
}

/// Two numbers that agree on every bit from `k` up agree after a shift by `k`.
proof fn lemma_equal_above(a: u64, b: u64, k: u64)
    requires
        k <= 64,
        forall|m: int| k <= m < 64 ==> bit(a, m) == bit(b, m),
    ensures
        a >> k == b >> k,
    decreases 64 - k,
{
    if k == 64 {
        assert(a >> 64u64 == 0 && b >> 64u64 == 0) by (bit_vector);
    } else {
        lemma_equal_above(a, b, (k + 1) as u64);
        let k1: u64 = (k + 1) as u64;
        assert(bit(a, k as int) == bit(b, k as int));
        assert(((a >> k) & 1 == 1) == ((b >> k) & 1 == 1));
        assert(a >> k == b >> k) by (bit_vector)
            requires
                k < 64,
                k1 == k + 1,
                a >> k1 == b >> k1,
                ((a >> k) & 1 == 1) == ((b >> k) & 1 == 1),
        ;
    }
}

/// Numbers with the same bits are equal.
pub proof fn lemma_bits_determine(a: u64, b: u64)
    requires
        forall|m: int| 0 <= m < 64 ==> bit(a, m) == bit(b, m),
    ensures
        a == b,
{
    lemma_equal_above(a, b, 0);
    assert(a >> 0u64 == a && b >> 0u64 == b) by (bit_vector);
}

/// The index bit that lands in bit `i` of coordinate `k` when `num` is
/// transposed into `dims` coordinates: coordinate `dims - 1` takes the lowest
/// index bit of each column, coordinate `0` the highest.
pub open spec fn transposed_bit(num: u64, dims: int, k: int, i: int) -> bool {
    bit(num, i * dims + (dims - 1 - k))
}

/// `t` is `num` transposed into `dims` coordinates of `bits` bits each.
pub open spec fn is_transposed(t: Seq<u64>, num: u64, dims: int, bits: int) -> bool {
    &&& t.len() == dims
    &&& forall|k: int, i: int| 0 <= k < dims && 0 <= i < 64 ==>
        (#[trigger] bit(t[k], i) <==> i < bits && transposed_bit(num, dims, k, i))
}

/// Bit `m` of the number that the coordinates `t` of `bits` bits each are
/// gathered into: bit `m / dims` of coordinate `dims - 1 - m % dims`.
pub open spec fn gathered_bit(t: Seq<u64>, bits: int, m: int) -> bool {
    let dims = t.len() as int;
    m / dims < bits && bit(t[dims - 1 - m % dims], m / dims)
}

/// `r` holds the bits of the coordinates `t` gathered back into one number; bits
/// past the 64th are dropped.
pub open spec fn is_gathered(r: u64, t: Seq<u64>, bits: int) -> bool {
    forall|m: int| 0 <= m < 64 ==> (#[trigger] bit(r, m) <==> gathered_bit(t, bits, m))
}

/// No bit of `num` at or above position `width` is set.
pub open spec fn fits(num: u64, width: int) -> bool {
    forall|m: int| width <= m < 64 ==> !#[trigger] bit(num, m)
}

/// The number whose bit `p` is `f(p)` for each `p < m`, with no other bit set.
pub open spec fn from_bits(f: spec_fn(int) -> bool, m: int) -> u64
    decreases m,
{
    if m <= 0 {
        0
    } else {
        from_bits(f, m - 1) | (if f(m - 1) {
            1u64 << ((m - 1) as u64)
        } else {
            0u64
        })
    }
}

/// The bits of [`from_bits`] are the ones asked for.
pub proof fn lemma_from_bits(f: spec_fn(int) -> bool, m: int)
    requires
        0 <= m <= 64,
    ensures
        forall|p: int| 0 <= p < 64 ==> (#[trigger] bit(from_bits(f, m), p) <==> p < m && f(p)),
    decreases m,
{
    if m == 0 {
        assert forall|p: int| 0 <= p < 64 implies !#[trigger] bit(from_bits(f, m), p) by {
            lemma_bit_zero(p as u64);
        }
    } else {
        lemma_from_bits(f, m - 1);
        let prev = from_bits(f, m - 1);
        let i = (m - 1) as u64;
        assert forall|p: int| 0 <= p < 64 implies (#[trigger] bit(from_bits(f, m), p) <==> p < m && f(p)) by {
            assert(bit(prev, p) <==> p < m - 1 && f(p));
            if f(m - 1) {
                assert(from_bits(f, m) == prev | (1u64 << i));
                lemma_bit_set(prev, i, p as u64);
            } else {
                assert(prev | 0u64 == prev) by (bit_vector);
                assert(from_bits(f, m) == prev);
            }
        }
    }
}

/// `num` transposed into `dims` coordinates of `bits` bits each.
pub open spec fn transposed_of(num: u64, dims: int, bits: int) -> Seq<u64> {
    Seq::new(dims as nat, |k: int| from_bits(|i: int| i < bits && transposed_bit(num, dims, k, i), 64))
}

/// The number that the coordinates `t`, of `bits` bits each, are gathered into.
pub open spec fn gathered(t: Seq<u64>, bits: int) -> u64 {
    from_bits(|m: int| gathered_bit(t, bits, m), 64)
}

/// [`transposed_of`] deals the bits as described.
pub proof fn lemma_transposed_of(num: u64, dims: int, bits: int)
    requires
        dims >= 0,
    ensures
        is_transposed(transposed_of(num, dims, bits), num, dims, bits),
{
    let t = transposed_of(num, dims, bits);
    assert forall|k: int, i: int| 0 <= k < dims && 0 <= i < 64 implies
        (#[trigger] bit(t[k], i) <==> i < bits && transposed_bit(num, dims, k, i)) by {
        lemma_from_bits(|j: int| j < bits && transposed_bit(num, dims, k, j), 64);
    }
}

/// [`gathered`] collects the bits as described.
pub proof fn lemma_gathered(t: Seq<u64>, bits: int)
    ensures
        is_gathered(gathered(t, bits), t, bits),
{
    lemma_from_bits(|m: int| gathered_bit(t, bits, m), 64);
}

/// Deals the bits of `num` out to `dims` coordinates of `bits` bits each: index
/// bit `i * dims + j` becomes bit `i` of coordinate `dims - 1 - j`. Index bits
/// that no coordinate can hold are dropped.
pub fn transpose(num: u64, dims: usize, bits: u32) -> (r: Vec<u64>)
    requires
        1 <= dims <= 64,
        1 <= bits <= 64,
    ensures
        r@ == transposed_of(num, dims as int, bits as int),
        is_transposed(r@, num, dims as int, bits as int),
{
    let mut out: Vec<u64> = Vec::new();
    let mut k: usize = 0;
    while k < dims
        invariant
            1 <= dims <= 64,
            1 <= bits <= 64,
            k <= dims,
            out.len() == k,
            forall|a: int, i: int| 0 <= a < k && 0 <= i < 64 ==>
                (#[trigger] bit(out[a], i) <==> i < bits && transposed_bit(num, dims as int, a, i)),
        decreases dims - k,
    {
        let j: u64 = (dims - 1 - k) as u64;
        let mut acc: u64 = 0;
        let mut i: u64 = 0;
        proof {
            assert forall|m: int| 0 <= m < 64 implies !bit(acc, m) by {
                lemma_bit_zero(m as u64);
            }
        }
        while i < bits as u64
            invariant
                1 <= dims <= 64,
                1 <= bits <= 64,
                k < dims,
                j == dims - 1 - k,
                i <= bits,
                forall|m: int| 0 <= m < 64 ==>
                    (bit(acc, m) <==> m < i && transposed_bit(num, dims as int, k as int, m)),
            decreases bits - i,
        {
            assert(i * dims + j < 64 * 64) by (nonlinear_arith)
                requires
                    i < 64,
                    j < dims,
                    dims <= 64,
            ;
            let index: u64 = i * (dims as u64) + j;
            let old_acc: u64 = acc;
            if index < 64 && (num >> index) & 1 == 1 {
                acc = acc | (1u64 << i);
            }
            proof {
                assert forall|m: int| 0 <= m < 64 implies
                    (bit(acc, m) <==> m < i + 1 && transposed_bit(num, dims as int, k as int, m)) by {
                    lemma_bit_set(old_acc, i, m as u64);
                    assert(bit(old_acc, m) <==> m < i && transposed_bit(num, dims as int, k as int, m));
                    if m == i {
                        assert(transposed_bit(num, dims as int, k as int, m) == bit(num, index as int));
                        assert(bit(acc, m) == bit(num, index as int));
                    } else {
                        assert(bit(acc, m) == bit(old_acc, m));
                    }
                }
            }
            i = i + 1;
        }
        proof {
            assert forall|m: int| 0 <= m < 64 implies
                (bit(acc, m) <==> m < bits && transposed_bit(num, dims as int, k as int, m)) by {}
        }
        out.push(acc);
        k = k + 1;
    }
    proof {
        let t = transposed_of(num, dims as int, bits as int);
        lemma_transposed_of(num, dims as int, bits as int);
        assert forall|k: int| 0 <= k < dims implies out@[k] == t[k] by {
            assert forall|m: int| 0 <= m < 64 implies bit(out@[k], m) == bit(t[k], m) by {
                assert(bit(out[k], m) <==> m < bits && transposed_bit(num, dims as int, k, m));
                assert(bit(t[k], m) <==> m < bits && transposed_bit(num, dims as int, k, m));
            }
            lemma_bits_determine(out@[k], t[k]);
        }
        assert(out@ =~= t);
    }
    out
}

/// Gathers the bits of the coordinates `nums`, of `bits` bits each, into one
/// number: bit `i` of coordinate `dims - 1 - j` becomes bit `i * dims + j`. Bits
/// past the 64th are dropped.
pub fn untranspose(nums: &Vec<u64>, bits: u32) -> (r: u64)
    requires
        1 <= nums.len() <= 64,
        1 <= bits <= 64,
    ensures
        r == gathered(nums@, bits as int),
        is_gathered(r, nums@, bits as int),
{
    let dims: usize = nums.len();
    assert(bits * dims <= 64 * 64) by (nonlinear_arith)
        requires
            bits <= 64,
            dims <= 64,
    ;
    let total: u64 = (bits as u64) * (dims as u64);
    let limit: u64 = if total < 64 { total } else { 64 };
    let mut acc: u64 = 0;
    let mut m: u64 = 0;
    proof {
        assert forall|p: int| 0 <= p < 64 implies !bit(acc, p) by {
            lemma_bit_zero(p as u64);
        }
    }
    while m < limit
        invariant
            dims == nums.len(),
            1 <= dims <= 64,
            1 <= bits <= 64,
            total == bits * dims,
            limit <= 64,
            limit <= total,
            m <= limit,
            forall|p: int| 0 <= p < 64 ==> (bit(acc, p) <==> p < m && gathered_bit(nums@, bits as int, p)),
        decreases limit - m,
    {
        let i: u64 = m / (dims as u64);
        let j: usize = (m % (dims as u64)) as usize;
        let coord: u64 = nums[dims - 1 - j];
        let old_acc: u64 = acc;
        if (coord >> i) & 1 == 1 {
            acc = acc | (1u64 << m);
        }
        proof {
            assert(i < bits) by {
                let d = dims as int;
                let mm = m as int;
                let b = bits as int;
                vstd::arithmetic::div_mod::lemma_fundamental_div_mod(mm, d);
                assert(mm < b * d);
                assert(mm / d < b) by (nonlinear_arith)
                    requires
                        mm == d * (mm / d) + mm % d,
                        mm < b * d,
                        0 <= mm % d,
                        d >= 1,
                ;
            }
            assert forall|p: int| 0 <= p < 64 implies
                (bit(acc, p) <==> p < m + 1 && gathered_bit(nums@, bits as int, p)) by {
                lemma_bit_set(old_acc, m, p as u64);
                assert(bit(old_acc, p) <==> p < m && gathered_bit(nums@, bits as int, p));
                if p == m {
                    assert(p / (dims as int) == i as int);
                    assert(p % (dims as int) == j as int);
                    assert(gathered_bit(nums@, bits as int, p) == bit(coord, i as int));
                    assert(bit(acc, p) == bit(coord, i as int));
                } else {
                    assert(bit(acc, p) == bit(old_acc, p));
                }
            }
        }
        m = m + 1;
    }
    proof {
        assert forall|p: int| 0 <= p < 64 implies (#[trigger] bit(acc, p) <==> gathered_bit(nums@, bits as int, p)) by {
            if p >= m && gathered_bit(nums@, bits as int, p) {
                let d = dims as int;
                let b = bits as int;
                vstd::arithmetic::div_mod::lemma_fundamental_div_mod(p, d);
                assert(p < b * d) by (nonlinear_arith)
                    requires
                        p == d * (p / d) + p % d,
                        p % d < d,
                        p / d < b,
                        d >= 1,
                ;
            }
        }
    }
    proof {
        lemma_gathered(nums@, bits as int);
        lemma_bits_determine(acc, gathered(nums@, bits as int));
    }
    acc
}

/// Gathering undoes dealing: a number whose bits all fit in the `dims * bits`
/// bits of the coordinates comes back unchanged.
pub proof fn lemma_gather_inverts_transpose(num: u64, dims: int, bits: int)
    requires
        1 <= dims <= 64,
        1 <= bits <= 64,
        fits(num, dims * bits),
    ensures
        gathered(transposed_of(num, dims, bits), bits) == num,
{
    let t = transposed_of(num, dims, bits);
    let r = gathered(t, bits);
    lemma_transposed_of(num, dims, bits);
    lemma_gathered(t, bits);
    assert forall|m: int| 0 <= m < 64 implies bit(r, m) == bit(num, m) by {
        vstd::arithmetic::div_mod::lemma_fundamental_div_mod(m, dims);
        let i = m / dims;
        let j = m % dims;
        assert(0 <= i) by (nonlinear_arith)
            requires
                0 <= m,
                dims >= 1,
                i == m / dims,
        ;
        assert(bit(r, m) == gathered_bit(t, bits, m));
        if i < bits {
            assert(i * dims + (dims - 1 - (dims - 1 - j)) == m) by (nonlinear_arith)
                requires
                    m == dims * i + j,
            ;
            assert(bit(t[dims - 1 - j], i) == (i < bits && transposed_bit(num, dims, dims - 1 - j, i)));
        } else {
            assert(m >= dims * bits) by (nonlinear_arith)
                requires
                    m == dims * i + j,
                    0 <= j,
                    i >= bits,
                    dims >= 1,
            ;
        }
    }
    lemma_bits_determine(r, num);
}

/// The single-bit mask `2^e`.
pub open spec fn level(e: int) -> u64 {
    1u64 << (e as u64)
}

/// One step of the Hilbert reshaping at the bit level `q` for coordinate `i`: if
/// bit `q` of coordinate `i` is set, the bits of coordinate 0 below `q` are
/// inverted; otherwise those low bits are exchanged between coordinates 0 and `i`.
pub open spec fn exchange(x: Seq<u64>, q: u64, i: int) -> Seq<u64> {
    let p = (q - 1) as u64;
    if x[i] & q != 0 {
        x.update(0, x[0] ^ p)
    } else {
        let t = (x[0] ^ x[i]) & p;
        x.update(0, x[0] ^ t).update(i, x[i] ^ t)
    }
}

/// The steps at level `q` for coordinates `k - 1` down to `0`.
pub open spec fn sweep_down(x: Seq<u64>, q: u64, k: int) -> Seq<u64>
    decreases k,
{
    if k <= 0 {
        x
    } else {
        sweep_down(exchange(x, q, k - 1), q, k - 1)
    }
}

/// The steps at level `q` for coordinates `0` up to `k - 1`.
pub open spec fn sweep_up(x: Seq<u64>, q: u64, k: int) -> Seq<u64>
    decreases k,
{
    if k <= 0 {
        x
    } else {
        exchange(sweep_up(x, q, k - 1), q, k - 1)
    }
}

/// The reshaping of transposed coordinates, levels `2^1` up to `2^(e-1)`, each
/// swept from the last coordinate down to the first.
pub open spec fn reshape(x: Seq<u64>, e: int) -> Seq<u64>
    decreases e,
{
    if e <= 1 {
        x
    } else {
        sweep_down(reshape(x, e - 1), level(e - 1), x.len() as int)
    }
}

/// The reverse reshaping: levels `2^(e-1)` down to `2^1`, each swept from the
/// first coordinate up to the last.
pub open spec fn unshape(x: Seq<u64>, e: int) -> Seq<u64>
    decreases e,
{
    if e <= 1 {
        x
    } else {
        unshape(sweep_up(x, level(e - 1), x.len() as int), e - 1)
    }
}

/// The Gray code of the interleaved index that the coordinates `x` spell, most
/// significant bit first: every bit is xored with the bit just above it.
pub open spec fn gray(x: Seq<u64>) -> Seq<u64> {
    let n = x.len() as int;
    Seq::new(x.len(), |k: int| if k == 0 {
        x[0] ^ (x[n - 1] >> 1)
    } else {
        x[k] ^ x[k - 1]
    })
}

/// The xor of coordinates `0` to `k`.
pub open spec fn prefix_xor(x: Seq<u64>, k: int) -> u64
    decreases k,
{
    if k <= 0 {
        x[0]
    } else {
        prefix_xor(x, k - 1) ^ x[k]
    }
}

/// The correction that the Gray decoding applies to every coordinate: for each
/// level `e` from `e` up to `bits - 1` at which `w` has a set bit, the bits below
/// that level are inverted.
pub open spec fn carry_mask(w: u64, e: int, bits: int) -> u64
    decreases bits - e,
{
    if e >= bits {
        0
    } else {
        carry_mask(w, e + 1, bits) ^ (if w & level(e) != 0 {
            (level(e) - 1) as u64
        } else {
            0u64
        })
    }
}

/// The inverse of [`gray`] on coordinates of `bits` bits each.
pub open spec fn ungray(x: Seq<u64>, bits: int) -> Seq<u64> {
    let n = x.len() as int;
    Seq::new(x.len(), |k: int| prefix_xor(x, k) ^ carry_mask(prefix_xor(x, n - 1), 1, bits))
}

/// Hilbert coordinates of the transposed index `x`.
pub open spec fn to_axes(x: Seq<u64>, bits: int) -> Seq<u64> {
    reshape(gray(x), bits)
}

/// The transposed index of the Hilbert coordinates `a`.
pub open spec fn to_transposed(a: Seq<u64>, bits: int) -> Seq<u64> {
    ungray(unshape(a, bits), bits)
}

proof fn lemma_exchange_len(x: Seq<u64>, q: u64, i: int)
    requires
        0 <= i < x.len(),
    ensures
        exchange(x, q, i).len() == x.len(),
{
}

proof fn lemma_sweep_down_len(x: Seq<u64>, q: u64, k: int)
    requires
        k <= x.len(),
    ensures
        sweep_down(x, q, k).len() == x.len(),
    decreases k,
{
    if k > 0 {
        lemma_exchange_len(x, q, k - 1);
        lemma_sweep_down_len(exchange(x, q, k - 1), q, k - 1);
    }
}

proof fn lemma_sweep_up_len(x: Seq<u64>, q: u64, k: int)
    requires
        k <= x.len(),
    ensures
        sweep_up(x, q, k).len() == x.len(),
    decreases k,
{
    if k > 0 {
        lemma_sweep_up_len(x, q, k - 1);
        lemma_exchange_len(sweep_up(x, q, k - 1), q, k - 1);
    }
}

proof fn lemma_reshape_len(x: Seq<u64>, e: int)
    ensures
        reshape(x, e).len() == x.len(),
    decreases e,
{
    if e > 1 {
        lemma_reshape_len(x, e - 1);
        lemma_sweep_down_len(reshape(x, e - 1), level(e - 1), x.len() as int);
    }
}

proof fn lemma_unshape_len(x: Seq<u64>, e: int)
    ensures
        unshape(x, e).len() == x.len(),
    decreases e,
{
    if e > 1 {
        lemma_sweep_up_len(x, level(e - 1), x.len() as int);
        lemma_unshape_len(sweep_up(x, level(e - 1), x.len() as int), e - 1);
    }
}

/// Each step is its own inverse: it never changes bit `q` of any coordinate.
proof fn lemma_exchange_twice(x: Seq<u64>, e: int, i: int)
    requires
        0 <= e < 64,
        0 <= i < x.len(),
    ensures
        exchange(exchange(x, level(e), i), level(e), i) == x,
{
    let q = level(e);
    let p = (q - 1) as u64;
    let eu = e as u64;
    let y = exchange(x, q, i);
    let x0 = x[0];
    let xi = x[i];
    assert(q == 1u64 << eu);
    assert(q >= 1) by (bit_vector)
        requires
            eu < 64,
            q == 1u64 << eu,
    ;
    if xi & q != 0 {
        assert((x0 ^ p) & q == x0 & q && (x0 ^ p) ^ p == x0) by (bit_vector)
            requires
                eu < 64,
                q == 1u64 << eu,
                p == q - 1,
        ;
        assert(y[i] & q != 0);
        assert(exchange(y, q, i) =~= x);
    } else {
        let t = (x0 ^ xi) & p;
        assert((xi ^ t) & q == xi & q && (x0 ^ t) & q == x0 & q) by (bit_vector)
            requires
                eu < 64,
                q == 1u64 << eu,
                p == q - 1,
                t == (x0 ^ xi) & p,
        ;
        assert(((x0 ^ t) ^ (xi ^ t)) & p == t && (x0 ^ t) ^ t == x0 && (xi ^ t) ^ t == xi) by (bit_vector)
            requires
                t == (x0 ^ xi) & p,
        ;
        if i == 0 {
            assert(t == 0) by (bit_vector)
                requires
                    t == (x0 ^ xi) & p,
                    x0 == xi,
            ;
            assert(x0 ^ 0u64 == x0) by (bit_vector);
            assert(y =~= x);
            assert(exchange(y, q, i) =~= x);
        } else {
            assert(y[i] & q == 0);
            assert(exchange(y, q, i) =~= x);
        }
    }
}

proof fn lemma_sweep_inverse(x: Seq<u64>, e: int, k: int)
    requires
        0 <= e < 64,
        k <= x.len(),
    ensures
        sweep_up(sweep_down(x, level(e), k), level(e), k) == x,
    decreases k,
{
    if k > 0 {
        let q = level(e);
        let x1 = exchange(x, q, k - 1);
        lemma_exchange_len(x, q, k - 1);
        lemma_sweep_inverse(x1, e, k - 1);
        lemma_exchange_twice(x, e, k - 1);
    }
}

/// Undoing the reshaping restores the coordinates.
proof fn lemma_unshape_reshape(x: Seq<u64>, e: int)
    requires
        e <= 64,
    ensures
        unshape(reshape(x, e), e) == x,
    decreases e,
{
    if e > 1 {
        let n = x.len() as int;
        let prev = reshape(x, e - 1);
        lemma_reshape_len(x, e - 1);
        lemma_sweep_down_len(prev, level(e - 1), n);
        lemma_sweep_inverse(prev, e - 1, n);
        lemma_unshape_reshape(x, e - 1);
    }
}

proof fn lemma_prefix_of_gray(x: Seq<u64>, k: int)
    requires
        0 <= k < x.len(),
    ensures
        prefix_xor(gray(x), k) == x[k] ^ (x[x.len() - 1] >> 1),
    decreases k,
{
    let s = x[x.len() - 1] >> 1;
    if k > 0 {
        lemma_prefix_of_gray(x, k - 1);
        let a = x[k - 1];
        let b = x[k];
        assert((a ^ s) ^ (b ^ a) == b ^ s) by (bit_vector);
    }
}

/// The partial correction of the Gray decoding, from level `e` up, in closed
/// form: above level `e - 1` it is `w` shifted down by one, below it every bit
/// copies bit `e` of `w`.
proof fn lemma_carry_closed(w: u64, e: int, bits: int)
    requires
        1 <= e <= bits <= 63,
        w >> (bits as u64) == 0,
    ensures
        carry_mask(w ^ (w >> 1), e, bits) == ((w >> (e as u64)) << ((e - 1) as u64)) | (if (w >> (e as u64)) & 1 == 1 {
            (level(e - 1) - 1) as u64
        } else {
            0u64
        }),
    decreases bits - e,
{
    let g = w ^ (w >> 1);
    let eu = e as u64;
    let bu = bits as u64;
    if e == bits {
        assert((w >> bu) & 1 == 0 && ((w >> bu) << ((bu - 1) as u64)) | 0u64 == 0) by (bit_vector)
            requires
                w >> bu == 0,
                1 <= bu <= 63,
        ;
        assert(carry_mask(g, e, bits) == 0);
    } else {
        lemma_carry_closed(w, e + 1, bits);
        let prev = carry_mask(g, e + 1, bits);
        let q = level(e);
        let q1 = level(e - 1);
        assert(q == 1u64 << eu && q1 == 1u64 << ((eu - 1) as u64));
        assert(q >= 1) by (bit_vector)
            requires
                eu < 64,
                q == 1u64 << eu,
        ;
        assert(q1 >= 1) by (bit_vector)
            requires
                1 <= eu < 64,
                q1 == 1u64 << ((eu - 1) as u64),
        ;
        let flip: u64 = if g & q != 0 { (q - 1) as u64 } else { 0u64 };
        let upper: u64 = if (w >> ((eu + 1) as u64)) & 1 == 1 { (q - 1) as u64 } else { 0u64 };
        let lower: u64 = if (w >> eu) & 1 == 1 { (q1 - 1) as u64 } else { 0u64 };
        assert(prev == ((w >> ((eu + 1) as u64)) << eu) | upper);
        assert(((((w >> ((eu + 1) as u64)) << eu) | upper) ^ flip) == ((w >> eu) << ((eu - 1) as u64)) | lower) by (bit_vector)
            requires
                1 <= eu < 63,
                q == 1u64 << eu,
                q1 == 1u64 << ((eu - 1) as u64),
                g == w ^ (w >> 1),
                flip == if g & q != 0 { (q - 1) as u64 } else { 0u64 },
                upper == if (w >> ((eu + 1) as u64)) & 1 == 1 { (q - 1) as u64 } else { 0u64 },
                lower == if (w >> eu) & 1 == 1 { (q1 - 1) as u64 } else { 0u64 },
        ;
        assert(carry_mask(g, e, bits) == prev ^ flip);
    }
}

/// The Gray decoding undoes the Gray coding of coordinates of `bits` bits.
proof fn lemma_ungray_gray(x: Seq<u64>, bits: int)
    requires
        1 <= bits <= 63,
        x.len() >= 1,
        x[x.len() - 1] >> (bits as u64) == 0,
    ensures
        ungray(gray(x), bits) == x,
{
    let n = x.len() as int;
    let w = x[n - 1];
    let s = w >> 1;
    let g = gray(x);
    lemma_prefix_of_gray(x, n - 1);
    lemma_carry_closed(w, 1, bits);
    assert(carry_mask(w ^ (w >> 1), 1, bits) == s) by {
        let lower: u64 = if (w >> 1u64) & 1 == 1 { (level(0) - 1) as u64 } else { 0u64 };
        assert(level(0) == 1u64 << 0u64);
        assert(1u64 << 0u64 == 1) by (bit_vector);
        assert(lower == 0);
        assert(((w >> 1u64) << 0u64) | 0u64 == w >> 1u64) by (bit_vector);
    }
    assert forall|k: int| 0 <= k < n implies #[trigger] ungray(g, bits)[k] == x[k] by {
        lemma_prefix_of_gray(x, k);
        let xk = x[k];
        assert((xk ^ s) ^ s == xk) by (bit_vector);
    }
    assert(ungray(g, bits) =~= x);
}

/// Going from transposed coordinates of `bits` bits to Hilbert coordinates and
/// back gives the transposed coordinates again.
pub proof fn lemma_to_transposed_to_axes(x: Seq<u64>, bits: int)
    requires
        1 <= bits <= 63,
        x.len() >= 1,
        x[x.len() - 1] >> (bits as u64) == 0,
    ensures
        to_transposed(to_axes(x, bits), bits) == x,
{
    lemma_unshape_reshape(gray(x), bits);
    lemma_ungray_gray(x, bits);
}

/// Applies one step of the reshaping in place.
fn exchange_step(x: &mut Vec<u64>, q: u64, i: usize)
    requires
        q >= 1,
        i < old(x).len(),
    ensures
        final(x)@ == exchange(old(x)@, q, i as int),
{
    let p: u64 = q - 1;
    let x0: u64 = x[0];
    let xi: u64 = x[i];
    if xi & q != 0 {
        x.set(0, x0 ^ p);
    } else {
        let t: u64 = (x0 ^ xi) & p;
        x.set(0, x0 ^ t);
        x.set(i, xi ^ t);
    }
    proof {
        assert(x@ =~= exchange(old(x)@, q, i as int));
    }
}

/// Turns a transposed index into coordinates on the Hilbert curve: Gray-codes the
/// interleaved index, then, level by level from the second lowest bit up,
/// reflects and swaps the lower bits of the coordinates.
pub fn transpose_to_axes(transposed: Vec<u64>, bits: u32) -> (r: Vec<u64>)
    requires
        transposed.len() >= 1,
        1 <= bits <= 63,
    ensures
        r@ == to_axes(transposed@, bits as int),
{
    let ghost x = transposed@;
    let mut axes = transposed;
    let n: usize = axes.len();
    let t: u64 = axes[n - 1] >> 1;
    let mut i: usize = n - 1;
    while i > 0
        invariant
            n == x.len(),
            axes.len() == n,
            i < n,
            forall|k: int| i < k < n ==> #[trigger] axes@[k] == x[k] ^ x[k - 1],
            forall|k: int| 0 <= k <= i ==> #[trigger] axes@[k] == x[k],
        decreases i,
    {
        let v: u64 = axes[i] ^ axes[i - 1];
        axes.set(i, v);
        i = i - 1;
    }
    let first: u64 = axes[0] ^ t;
    axes.set(0, first);
    proof {
        assert(axes@ =~= gray(x));
    }
    let ghost g = axes@;
    let mut e: u32 = 1;
    while e < bits
        invariant
            1 <= e <= bits <= 63,
            n == g.len(),
            axes@ == reshape(g, e as int),
        decreases bits - e,
    {
        let q: u64 = 1u64 << e;
        assert(q >= 1) by (bit_vector)
            requires
                e < 64,
                q == 1u64 << e,
        ;
        let ghost start = axes@;
        proof {
            lemma_reshape_len(g, e as int);
        }
        let mut k: usize = n;
        while k > 0
            invariant
                q >= 1,
                k <= n,
                axes.len() == n,
                sweep_down(axes@, q, k as int) == sweep_down(start, q, n as int),
            decreases k,
        {
            exchange_step(&mut axes, q, k - 1);
            k = k - 1;
        }
        proof {
            assert(level(e as int) == q);
            lemma_sweep_down_len(start, q, n as int);
        }
        e = e + 1;
    }
    axes
}

/// Turns coordinates on the Hilbert curve back into a transposed index: undoes
/// the reflections and swaps level by level from the highest bit down, then
/// decodes the Gray code.
pub fn axes_to_transpose(axes: Vec<u64>, bits: u32) -> (r: Vec<u64>)
    requires
        axes.len() >= 1,
        1 <= bits <= 63,
    ensures
        r@ == to_transposed(axes@, bits as int),
{
    let ghost a = axes@;
    let mut x = axes;
    let n: usize = x.len();
    let mut e: u32 = bits;
    while e > 1
        invariant
            1 <= e <= bits <= 63,
            x.len() == n,
            n == a.len(),
            unshape(x@, e as int) == unshape(a, bits as int),
        decreases e,
    {
        e = e - 1;
        let q: u64 = 1u64 << e;
        assert(q >= 1) by (bit_vector)
            requires
                e < 64,
                q == 1u64 << e,
        ;
        let ghost start = x@;
        let mut i: usize = 0;
        while i < n
            invariant
                q >= 1,
                i <= n,
                start.len() == n,
                x.len() == n,
                x@ == sweep_up(start, q, i as int),
            decreases n - i,
        {
            exchange_step(&mut x, q, i);
            i = i + 1;
        }
        proof {
            assert(level(e as int) == q);
        }
    }
    let ghost y = x@;
    let mut i: usize = 1;
    while i < n
        invariant
            1 <= i <= n,
            y.len() == n,
            x.len() == n,
            forall|k: int| 0 <= k < i ==> #[trigger] x@[k] == prefix_xor(y, k),
            forall|k: int| i <= k < n ==> #[trigger] x@[k] == y[k],
        decreases n - i,
    {
        let v: u64 = x[i - 1] ^ x[i];
        x.set(i, v);
        i = i + 1;
    }
    let w: u64 = x[n - 1];
    let mut t: u64 = 0;
    let mut e: u32 = bits;
    while e > 1
        invariant
            1 <= e <= bits <= 63,
            t == carry_mask(w, e as int, bits as int),
        decreases e,
    {
        e = e - 1;
        let q: u64 = 1u64 << e;
        assert(q >= 1) by (bit_vector)
            requires
                e < 64,
                q == 1u64 << e,
        ;
        proof {
            assert(level(e as int) == q);
        }
        if w & q != 0 {
            t = t ^ (q - 1);
        } else {
            proof {
                assert(t ^ 0u64 == t) by (bit_vector);
            }
        }
    }
    let ghost z = x@;
    let mut i: usize = 0;
    while i < n
        invariant
            i <= n,
            z.len() == n,
            x.len() == n,
            forall|k: int| 0 <= k < i ==> #[trigger] x@[k] == z[k] ^ t,
            forall|k: int| i <= k < n ==> #[trigger] x@[k] == z[k],
        decreases n - i,
    {
        let v: u64 = x[i] ^ t;
        x.set(i, v);
        i = i + 1;
    }
    proof {
        assert(x@ =~= ungray(y, bits as int));
    }
    x
}

/// The Hilbert coordinates of `index`, with `dims` coordinates of `bits` bits.
pub open spec fn hilbert_axes(index: u64, dims: int, bits: int) -> Seq<u64> {
    to_axes(transposed_of(index, dims, bits), bits)
}

/// The Hilbert index of the coordinates `axes`, of `bits` bits each.
pub open spec fn hilbert_index(axes: Seq<u64>, bits: int) -> u64 {
    gathered(to_transposed(axes, bits), bits)
}

/// Converts an index to coordinates on a Hilbert curve through `dims`
/// dimensions, each coordinate of `bits` bits.
pub fn hilbert_index_to_axes(index: u64, dims: usize, bits: u32) -> (r: Vec<u64>)
    requires
        1 <= dims <= 64,
        1 <= bits <= 63,
    ensures
        r@ == hilbert_axes(index, dims as int, bits as int),
{
    transpose_to_axes(transpose(index, dims, bits), bits)
}

/// Converts coordinates of `bits` bits each on a Hilbert curve back to the index.
pub fn axes_to_hilbert_index(axes: Vec<u64>, bits: u32) -> (r: u64)
    requires
        1 <= axes.len() <= 64,
        1 <= bits <= 63,
    ensures
        r == hilbert_index(axes@, bits as int),
{
    let transposed = axes_to_transpose(axes, bits);
    proof {
        lemma_unshape_len(axes@, bits as int);
    }
    untranspose(&transposed, bits)
}

/// Walking the curve to a point and back gives the index again, for every index
/// that the `dims * bits` bits of the coordinates can hold.
pub proof fn lemma_hilbert_round_trip(index: u64, dims: int, bits: int)
    requires
        1 <= dims <= 64,
        1 <= bits <= 63,
        fits(index, dims * bits),
    ensures
        hilbert_index(hilbert_axes(index, dims, bits), bits) == index,
{
    let t = transposed_of(index, dims, bits);
    lemma_transposed_of(index, dims, bits);
    let w = t[dims - 1];
    assert(w >> (bits as u64) == 0) by {
        assert forall|m: int| bits <= m < 64 implies bit(w, m) == bit(0u64, m) by {
            lemma_bit_zero(m as u64);
        }
        let b = bits as u64;
        lemma_equal_above(w, 0u64, b);
        assert(0u64 >> b == 0) by (bit_vector);
    }
    lemma_to_transposed_to_axes(t, bits);
    lemma_gather_inverts_transpose(index, dims, bits);
}

} // verus!
