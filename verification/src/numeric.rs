//! Mathematical model shared by the bit reader and the bit writer: a byte
//! sequence read little-endian as one natural number, and the facts that tie
//! `u128` shifts and masks to multiplication and division by powers of two.
use vstd::prelude::*;
use vstd::arithmetic::power2::*;
use vstd::arithmetic::div_mod::*;
use vstd::arithmetic::mul::*;
use vstd::bits::*;

verus! {

/// The value of `bytes` read as a little-endian number: byte `i` weighs `256^i`.
pub open spec fn le_value(bytes: Seq<u8>) -> nat
    decreases bytes.len(),
{
    if bytes.len() == 0 {
        0
    } else {
        bytes[0] as nat + 256 * le_value(bytes.drop_first())
    }
}

/// The lowest `count` bytes of `value`, least significant first.
pub open spec fn le_bytes(value: nat, count: nat) -> Seq<u8>
    decreases count,
{
    if count == 0 {
        Seq::empty()
    } else {
        seq![(value % 256) as u8] + le_bytes(value / 256, (count - 1) as nat)
    }
}

/// `2^(8(k+1)) == 256 * 2^(8k)`.
pub proof fn lemma_pow2_byte_step(k: nat)
    ensures
        pow2(8 * (k + 1)) == 256 * pow2(8 * k),
        pow2(8) == 256,
{
    lemma2_to64();
    lemma_pow2_adds(8 * k, 8);
    assert(8 * (k + 1) == 8 * k + 8) by (nonlinear_arith);
    lemma_mul_is_commutative(256, pow2(8 * k) as int);
}

/// A little-endian value of `n` bytes is below `2^(8n)`.
pub proof fn lemma_le_value_bound(bytes: Seq<u8>)
    ensures
        le_value(bytes) < pow2(8 * bytes.len()),
    decreases bytes.len(),
{
    if bytes.len() == 0 {
        lemma2_to64();
    } else {
        let rest = bytes.drop_first();
        lemma_le_value_bound(rest);
        lemma_pow2_byte_step(rest.len());
        let b = bytes[0] as nat;
        let r = le_value(rest);
        let p = pow2(8 * rest.len());
        assert(b + 256 * r < 256 * p) by (nonlinear_arith)
            requires
                b < 256,
                r < p,
        ;
        assert(8 * bytes.len() == 8 * (rest.len() + 1));
    }
}

/// The value of a concatenation: the second part is shifted past the first.
pub proof fn lemma_le_value_append(a: Seq<u8>, b: Seq<u8>)
    ensures
        le_value(a + b) == le_value(a) + pow2(8 * a.len()) * le_value(b),
    decreases a.len(),
{
    if a.len() == 0 {
        assert(a + b =~= b);
        lemma2_to64();
    } else {
        let rest = a.drop_first();
        assert((a + b).drop_first() =~= rest + b);
        lemma_le_value_append(rest, b);
        lemma_pow2_byte_step(rest.len());
        assert(8 * a.len() == 8 * (rest.len() + 1));
        let p = pow2(8 * rest.len());
        let lr = le_value(rest);
        let lb = le_value(b);
        assert(256 * (lr + p * lb) == 256 * lr + (256 * p) * lb) by (nonlinear_arith);
    }
}

/// Splitting a byte sequence at `k` splits its value.
pub proof fn lemma_le_value_split(bytes: Seq<u8>, k: int)
    requires
        0 <= k <= bytes.len(),
    ensures
        le_value(bytes) == le_value(bytes.take(k)) + pow2(8 * (k as nat)) * le_value(bytes.skip(k)),
{
    assert(bytes =~= bytes.take(k) + bytes.skip(k));
    lemma_le_value_append(bytes.take(k), bytes.skip(k));
}

/// A sequence of zero bytes is worth nothing.
pub proof fn lemma_le_value_zeros(bytes: Seq<u8>)
    requires
        forall|i: int| 0 <= i < bytes.len() ==> bytes[i] == 0,
    ensures
        le_value(bytes) == 0,
    decreases bytes.len(),
{
    if bytes.len() > 0 {
        lemma_le_value_zeros(bytes.drop_first());
    }
}

/// The lowest `count` bytes of a value hold that value modulo `2^(8 count)`.
pub proof fn lemma_le_bytes_value(value: nat, count: nat)
    ensures
        le_bytes(value, count).len() == count,
        le_value(le_bytes(value, count)) == value % pow2(8 * count),
    decreases count,
{
    if count == 0 {
        lemma2_to64();
    } else {
        let c1 = (count - 1) as nat;
        lemma_le_bytes_value(value / 256, c1);
        let s = le_bytes(value, count);
        assert(s.drop_first() =~= le_bytes(value / 256, c1));
        lemma_pow2_byte_step(c1);
        assert(8 * count == 8 * (c1 + 1));
        lemma_pow2_pos(8 * c1);
        lemma_breakdown(value as int, 256, pow2(8 * c1) as int);
    }
}

/// `le_bytes` of a sum whose low part fits in the requested bytes.
pub proof fn lemma_le_bytes_of_value(bytes: Seq<u8>)
    ensures
        le_bytes(le_value(bytes), bytes.len()) == bytes,
    decreases bytes.len(),
{
    if bytes.len() > 0 {
        let rest = bytes.drop_first();
        lemma_le_bytes_of_value(rest);
        let v = le_value(bytes);
        assert(v % 256 == bytes[0] as nat && v / 256 == le_value(rest)) by {
            lemma_fundamental_div_mod_converse(v as int, 256, le_value(rest) as int, bytes[0] as int);
        }
        assert(le_bytes(v, bytes.len()) =~= bytes);
    }
}

/// What lies above bit `s` does not reach the lowest `n <= s` bits.
pub proof fn lemma_pow2_sum_mod(a: nat, b: nat, s: nat, n: nat)
    requires
        n <= s,
    ensures
        (a + pow2(s) * b) % pow2(n) == a % pow2(n),
{
    let d = (s - n) as nat;
    lemma_pow2_adds(n, d);
    lemma_pow2_pos(n);
    let k = pow2(d) * b;
    lemma_mul_is_associative(pow2(n) as int, pow2(d) as int, b as int);
    assert(n + d == s);
    lemma_mod_multiples_vanish(k as int, a as int, pow2(n) as int);
}

/// Dropping the lowest `n <= s` bits of `a + 2^s b`.
pub proof fn lemma_pow2_sum_div(a: nat, b: nat, s: nat, n: nat)
    requires
        n <= s,
    ensures
        (a + pow2(s) * b) / pow2(n) == a / pow2(n) + pow2((s - n) as nat) * b,
{
    let d = (s - n) as nat;
    let p = pow2(n);
    lemma_pow2_pos(n);
    lemma_pow2_adds(n, d);
    assert(n + d == s);
    let q = a / p;
    let r = a % p;
    lemma_fundamental_div_mod(a as int, p as int);
    lemma_remainder_lower(a as int, p as int);
    vstd::arithmetic::div_mod::lemma_mod_pos_bound(a as int, p as int);
    let q2 = q + pow2(d) * b;
    assert(a + pow2(s) * b == q2 * p + r) by {
        lemma_mul_is_associative(p as int, pow2(d) as int, b as int);
        lemma_mul_is_distributive_add_other_way(p as int, q as int, (pow2(d) * b) as int);
        lemma_mul_is_commutative(p as int, q as int);
        lemma_mul_is_commutative(p as int, (pow2(d) * b) as int);
    }
    lemma_fundamental_div_mod_converse((a + pow2(s) * b) as int, p as int, q2 as int, r as int);
}

/// Dropping `a` bits and then `b` bits drops `a + b` bits.
pub proof fn lemma_div_pow2_twice(v: nat, a: nat, b: nat)
    ensures
        (v / pow2(a)) / pow2(b) == v / pow2(a + b),
{
    lemma_pow2_pos(a);
    lemma_pow2_pos(b);
    lemma_div_denominator(v as int, pow2(a) as int, pow2(b) as int);
    lemma_pow2_adds(a, b);
}

/// Keeping `b` bits and then `a <= b` of them keeps `a`.
pub proof fn lemma_mod_pow2_twice(v: nat, a: nat, b: nat)
    requires
        a <= b,
    ensures
        (v % pow2(b)) % pow2(a) == v % pow2(a),
{
    lemma_pow2_pos(a);
    lemma_pow2_pos(b);
    let p = pow2(b);
    lemma_fundamental_div_mod(v as int, p as int);
    lemma_remainder_lower(v as int, p as int);
    lemma_mul_is_commutative(p as int, (v / p) as int);
    lemma_pow2_sum_mod(v % p, v / p, b, a);
}

/// The lowest `a + b` bits are the lowest `a` bits followed by the next `b`.
pub proof fn lemma_pow2_mod_split(v: nat, a: nat, b: nat)
    ensures
        v % pow2(a + b) == v % pow2(a) + pow2(a) * ((v / pow2(a)) % pow2(b)),
{
    lemma_pow2_pos(a);
    lemma_pow2_pos(b);
    lemma_pow2_adds(a, b);
    lemma_breakdown(v as int, pow2(a) as int, pow2(b) as int);
}

/// A value below `2^n` is its own remainder and has nothing above bit `n`.
pub proof fn lemma_pow2_small(v: nat, n: nat)
    requires
        v < pow2(n),
    ensures
        v % pow2(n) == v,
        v / pow2(n) == 0,
{
    lemma_pow2_pos(n);
    lemma_small_mod(v, pow2(n));
    vstd::arithmetic::div_mod::lemma_basic_div(v as int, pow2(n) as int);
}

/// `2^128` is one more than the largest `u128`.
pub proof fn lemma_pow2_128()
    ensures
        pow2(128) == u128::MAX as nat + 1,
{
    lemma2_to64_rest();
    lemma_pow2_adds(64, 64);
}

/// A value below `2^s` keeps below `2^(s-n)` after dropping `n` bits.
pub proof fn lemma_div_pow2_bound(x: nat, s: nat, n: nat)
    requires
        x < pow2(s),
        n <= s,
    ensures
        x / pow2(n) < pow2((s - n) as nat),
{
    let p = pow2(n);
    let d = (s - n) as nat;
    lemma_pow2_pos(n);
    lemma_pow2_adds(n, d);
    assert(n + d == s);
    lemma_fundamental_div_mod(x as int, p as int);
    lemma_remainder_lower(x as int, p as int);
    if x / p >= pow2(d) {
        lemma_mul_inequality(pow2(d) as int, (x / p) as int, p as int);
        lemma_mul_is_commutative(p as int, (x / p) as int);
        lemma_mul_is_commutative(p as int, pow2(d) as int);
    }
}

/// A single byte is worth itself.
pub proof fn lemma_le_value_single(b: u8)
    ensures
        le_value(seq![b]) == b as nat,
{
    let s = seq![b];
    assert(s.drop_first() =~= Seq::<u8>::empty());
    assert(le_value(s.drop_first()) == 0);
}

/// Dividing by `2^0` changes nothing.
pub proof fn lemma_div_pow2_zero(v: nat)
    ensures
        v / pow2(0) == v,
        v % pow2(0) == 0,
{
    lemma2_to64();
}

/// A value below `2^a`, with something below `2^b` placed above it, stays below `2^(a+b)`.
pub proof fn lemma_pow2_stack_bound(lo: nat, hi: nat, a: nat, b: nat)
    requires
        lo < pow2(a),
        hi < pow2(b),
    ensures
        lo + pow2(a) * hi < pow2(a + b),
{
    lemma_pow2_adds(a, b);
    let pa = pow2(a);
    let pb = pow2(b);
    assert(lo + pa * hi < pa * pb) by (nonlinear_arith)
        requires
            lo < pa,
            hi < pb,
    ;
}

/// The lowest `k + 1` bytes are the lowest `k` followed by byte `k`.
pub proof fn lemma_le_bytes_snoc(value: nat, k: nat)
    ensures
        le_bytes(value, k + 1) == le_bytes(value, k) + seq![((value / pow2(8 * k)) % 256) as u8],
    decreases k,
{
    if k == 0 {
        lemma2_to64();
        assert(le_bytes(value / 256, 0) =~= Seq::<u8>::empty());
        assert(le_bytes(value, 1) =~= seq![(value % 256) as u8]);
        assert(le_bytes(value, 0) + seq![((value / pow2(0)) % 256) as u8] =~= seq![(value % 256) as u8]);
    } else {
        let k1 = (k - 1) as nat;
        lemma_le_bytes_snoc(value / 256, k1);
        lemma_div_pow2_twice(value, 8, 8 * k1);
        lemma2_to64();
        assert(8 + 8 * k1 == 8 * k);
        assert(le_bytes(value, k + 1) =~= le_bytes(value, k) + seq![((value / pow2(8 * k)) % 256) as u8]);
    }
}

/// Byte sequences of one length with one value are equal.
pub proof fn lemma_le_value_injective(a: Seq<u8>, b: Seq<u8>)
    requires
        a.len() == b.len(),
        le_value(a) == le_value(b),
    ensures
        a == b,
{
    lemma_le_bytes_of_value(a);
    lemma_le_bytes_of_value(b);
}

/// The lowest `count` bytes depend only on the value modulo `2^(8 count)`.
pub proof fn lemma_le_bytes_mod(value: nat, count: nat)
    ensures
        le_bytes(value, count) == le_bytes(value % pow2(8 * count), count),
{
    lemma_le_bytes_value(value, count);
    lemma_le_bytes_value(value % pow2(8 * count), count);
    lemma_mod_pow2_twice(value, 8 * count, 8 * count);
    lemma_le_value_injective(le_bytes(value, count), le_bytes(value % pow2(8 * count), count));
}

/// `1 << n` on `u128` is `2^n`.
pub proof fn lemma_u128_pow2(n: u128)
    requires
        n < 128,
    ensures
        (1u128 << n) as nat == pow2(n as nat),
    decreases n,
{
    if n == 0 {
        assert(1u128 << 0u128 == 1u128) by (bit_vector);
        lemma2_to64();
    } else {
        let m = (n - 1) as u128;
        lemma_u128_pow2(m);
        assert((1u128 << n) == (1u128 << m) * 2) by (bit_vector)
            requires
                m < 127,
                n == m + 1,
        ;
        lemma_pow2_unfold(n as nat);
    }
}

/// Shifting left multiplies by a power of two when nothing is lost.
pub proof fn lemma_u128_shl(x: u128, s: u128)
    requires
        s < 128,
        x * pow2(s as nat) <= u128::MAX,
    ensures
        (x << s) as nat == x * pow2(s as nat),
    decreases s,
{
    if s == 0 {
        assert(x << 0u128 == x) by (bit_vector);
        lemma2_to64();
    } else {
        let t = (s - 1) as u128;
        lemma_pow2_unfold(s as nat);
        lemma_pow2_pos(t as nat);
        assert(x * pow2(t as nat) <= x * pow2(s as nat)) by {
            lemma_mul_inequality(pow2(t as nat) as int, pow2(s as nat) as int, x as int);
            lemma_mul_is_commutative(x as int, pow2(t as nat) as int);
            lemma_mul_is_commutative(x as int, pow2(s as nat) as int);
        }
        lemma_u128_shl(x, t);
        let y = x << t;
        assert((x << s) == (y << 1u128)) by (bit_vector)
            requires
                t < 127,
                s == t + 1,
                y == x << t,
        ;
        assert((x * pow2(t as nat)) * 2 == x * pow2(s as nat)) by {
            lemma_mul_is_associative(x as int, pow2(t as nat) as int, 2);
        }
        assert(y << 1u128 == y * 2) by (bit_vector)
            requires
                y * 2 <= u128::MAX,
        ;
    }
}

/// Shifting right divides by a power of two.
pub proof fn lemma_u128_shr(x: u128, s: u128)
    requires
        s < 128,
    ensures
        (x >> s) as nat == x as nat / pow2(s as nat),
{
    lemma_u128_shr_is_div(x, s);
}

/// Masking with `2^n - 1` keeps the value modulo `2^n`.
#[verifier::rlimit(100)]
pub proof fn lemma_u128_low_mask(x: u128, n: u128)
    requires
        n < 128,
    ensures
        (x & (((1u128 << n) - 1) as u128)) as nat == x as nat % pow2(n as nat),
{
    let q = x >> n;
    let m = ((1u128 << n) - 1) as u128;
    let h = (x >> n) << n;
    assert(h <= x) by (bit_vector)
        requires
            n < 128,
            h == (x >> n) << n,
    ;
    assert(x & m == x - h) by (bit_vector)
        requires
            n < 128,
            h == (x >> n) << n,
            m == ((1u128 << n) - 1) as u128,
    ;
    lemma_u128_shr(x, n);
    let p = pow2(n as nat);
    lemma_pow2_pos(n as nat);
    lemma_fundamental_div_mod(x as int, p as int);
    lemma_remainder_lower(x as int, p as int);
    lemma_mul_is_commutative(p as int, (x as nat / p) as int);
    lemma_u128_shl(q, n);
}

/// OR-ing bits above a value that fits below them is addition.
pub proof fn lemma_u128_or_above(x: u128, y: u128, s: u128)
    requires
        s < 128,
        x < (1u128 << s),
    ensures
        x | (y << s) == x + (y << s),
{
    assert(x | (y << s) == x + (y << s)) by (bit_vector)
        requires
            s < 128,
            x < (1u128 << s),
    ;
}

} // verus!
