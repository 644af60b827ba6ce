//! Canonical Huffman codes (RFC 1951, 3.2.2) and the lookup tables that
//! decode them.
//!
//! A lookup table is indexed by the next bits of the stream, least
//! significant first. Every entry packs a code length (bits 9 and up) and a
//! symbol (bits 0 to 8); an entry of length 0 means that no code matches.
use vstd::prelude::*;
use vstd::arithmetic::power2::*;

verus! {

/// The longest code length that DEFLATE allows.
pub const MAX_CODE_LENGTH: usize = 15;

/// The lowest `w` bits of `v` in reverse order: bit `i` goes to bit `w - 1 - i`.
pub open spec fn rev_bits(v: nat, w: nat) -> nat
    decreases w,
{
    if w == 0 {
        0
    } else {
        2 * rev_bits(v, (w - 1) as nat) + (v / pow2((w - 1) as nat)) % 2
    }
}

/// How many of `lengths` equal `l`.
pub open spec fn count_len(lengths: Seq<u16>, l: nat) -> nat
    decreases lengths.len(),
{
    if lengths.len() == 0 {
        0
    } else {
        count_len(lengths.drop_last(), l) + if lengths.last() == l {
            1nat
        } else {
            0
        }
    }
}

/// The first code of length `l` (RFC 1951, 3.2.2 step 2), computed in 16 bits.
pub open spec fn next_code(lengths: Seq<u16>, l: nat) -> nat
    decreases l,
{
    if l <= 1 {
        0
    } else {
        ((next_code(lengths, (l - 1) as nat) + count_len(lengths, (l - 1) as nat)) * 2) % 65536
    }
}

/// The lengths are at most 15 and every code of every length fits in 16 bits.
pub open spec fn codes_fit(lengths: Seq<u16>) -> bool {
    &&& forall|i: int| 0 <= i < lengths.len() ==> lengths[i] <= MAX_CODE_LENGTH
    &&& forall|l: nat| 1 <= l <= 15 ==> next_code(lengths, l) + count_len(lengths, l) <= 65535
}

/// The canonical code of symbol `i` (RFC 1951, 3.2.2 step 3): codes of one
/// length are consecutive, in symbol order.
pub open spec fn canonical_code(lengths: Seq<u16>, i: int) -> nat {
    next_code(lengths, lengths[i] as nat) + count_len(lengths.take(i), lengths[i] as nat)
}

/// Whether a code of `len` bits, stored bit-reversed as `code`, is a prefix
/// (in stream order) of the bits `idx`, as the table fill lays it out.
pub open spec fn hits(code: nat, len: nat, idx: nat) -> bool {
    idx >= code && (idx - code) % (pow2(len) as int) == 0
}

/// A packed table entry.
pub open spec fn pack(len: int, symbol: int) -> u16 {
    (len * 512 + symbol) as u16
}

/// Table entry `idx` after the first `n` symbols have been laid out: the
/// last symbol whose code hits `idx`, or 0.
pub open spec fn lut_entry(lengths: Seq<u16>, codes: Seq<u16>, idx: nat, n: nat) -> u16
    decreases n,
{
    if n == 0 {
        0
    } else {
        let s = (n - 1) as int;
        if lengths[s] != 0 && hits(codes[s] as nat, lengths[s] as nat, idx) {
            pack(lengths[s] as int, s)
        } else {
            lut_entry(lengths, codes, idx, (n - 1) as nat)
        }
    }
}

/// The fixed literal/length code (RFC 1951, 3.2.6) entry for the 9 bits `raw`.
pub open spec fn fixed_literal_entry(raw: nat) -> u16 {
    let r = rev_bits(raw, 9) as int;
    if r < 96 {
        pack(7, 256 + r / 4)
    } else if r < 384 {
        pack(8, r / 2 - 48)
    } else if r < 400 {
        pack(8, 280 + r / 2 - 192)
    } else {
        pack(9, 144 + r - 400)
    }
}

/// The fixed distance code (RFC 1951, 3.2.6) entry for the 5 bits `raw`.
pub open spec fn fixed_distance_entry(raw: nat) -> u16 {
    pack(5, rev_bits(raw, 5) as int)
}

/// The first codes of each length are those of RFC 1951, 3.2.2, step 2:
/// there are no codes of length 0, codes of length 1 start at 0, and the
/// codes of length `l` start at twice the code after the last one of length
/// `l - 1`, whenever that fits in `l` bits.
pub proof fn lemma_next_code_canonical(lengths: Seq<u16>, l: nat)
    requires
        2 <= l <= 16,
        2 * (next_code(lengths, (l - 1) as nat) + count_len(lengths, (l - 1) as nat)) < pow2(l),
    ensures
        next_code(lengths, 1) == 0,
        next_code(lengths, l) == 2 * (next_code(lengths, (l - 1) as nat) + count_len(
            lengths,
            (l - 1) as nat,
        )),
{
    lemma2_to64();
    if l < 16 {
        lemma_pow2_strictly_increases(l, 16);
    }
}

pub proof fn lemma_rev_bits_bound(v: nat, w: nat)
    ensures
        rev_bits(v, w) < pow2(w),
    decreases w,
{
    if w == 0 {
        lemma2_to64();
    } else {
        lemma_rev_bits_bound(v, (w - 1) as nat);
        lemma_pow2_unfold(w);
    }
}

/// The code lengths packed in a lookup table are those of the symbols.
pub proof fn lemma_lut_entry_len(lengths: Seq<u16>, codes: Seq<u16>, idx: nat, n: nat, bound: nat)
    requires
        n <= lengths.len() <= 512,
        forall|i: int| 0 <= i < lengths.len() ==> lengths[i] <= bound,
        bound <= 15,
    ensures
        lut_entry(lengths, codes, idx, n) / 512 <= bound,
        lut_entry(lengths, codes, idx, n) == 0 || lut_entry(lengths, codes, idx, n) % 512 < n,
    decreases n,
{
    if n > 0 {
        lemma_lut_entry_len(lengths, codes, idx, (n - 1) as nat, bound);
    }
}

/// The fixed literal table's entries pack codes of 7 to 9 bits.
pub proof fn lemma_fixed_literal_entry(raw: nat)
    ensures
        7 <= fixed_literal_entry(raw) / 512 <= 9,
        fixed_literal_entry(raw) % 512 < 288,
{
    lemma_rev_bits_bound(raw, 9);
    lemma2_to64();
}

/// The fixed distance table's entries pack codes of 5 bits.
pub proof fn lemma_fixed_distance_entry(raw: nat)
    ensures
        fixed_distance_entry(raw) / 512 == 5,
        fixed_distance_entry(raw) % 512 < 32,
{
    lemma_rev_bits_bound(raw, 5);
    lemma2_to64();
}

/// The lowest `width` bits of `value`, reversed.
pub fn reverse_low_bits(value: u16, width: u16) -> (r: u16)
    requires
        width <= 16,
    ensures
        r as nat == rev_bits(value as nat, width as nat),
{
    let mut r: u16 = 0;
    let mut i: u16 = 0;
    while i < width
        invariant
            i <= width <= 16,
            r as nat == rev_bits(value as nat, i as nat),
        decreases width - i,
    {
        proof {
            lemma_rev_bits_bound(value as nat, i as nat);
            vstd::bits::lemma_u16_shr_is_div(value, i);
            let x = value >> i;
            assert(x & 1u16 == x % 2) by (bit_vector);
            if i < 15 {
                lemma_pow2_strictly_increases(i as nat, 15);
            }
            lemma2_to64();
            let b = x & 1u16;
            assert((r << 1u16) | b == 2 * r + b) by (bit_vector)
                requires
                    r < 32768,
                    b <= 1,
            ;
        }
        r = (r << 1) | ((value >> i) & 1);
        i = i + 1;
    }
    r
}

proof fn lemma_count_len_step(lengths: Seq<u16>, i: int, l: nat)
    requires
        0 <= i < lengths.len(),
    ensures
        count_len(lengths.take(i + 1), l) == count_len(lengths.take(i), l) + if lengths[i] == l {
            1nat
        } else {
            0
        },
{
    assert(lengths.take(i + 1).drop_last() =~= lengths.take(i));
}

proof fn lemma_count_len_bound(lengths: Seq<u16>, l: nat)
    ensures
        count_len(lengths, l) <= lengths.len(),
    decreases lengths.len(),
{
    if lengths.len() > 0 {
        lemma_count_len_bound(lengths.drop_last(), l);
    }
}

proof fn lemma_count_len_prefix(lengths: Seq<u16>, i: int, l: nat)
    requires
        0 <= i <= lengths.len(),
    ensures
        count_len(lengths.take(i), l) <= count_len(lengths, l),
    decreases lengths.len() - i,
{
    if i < lengths.len() {
        lemma_count_len_step(lengths, i, l);
        lemma_count_len_prefix(lengths, i + 1, l);
    } else {
        assert(lengths.take(i) =~= lengths);
    }
}

/// Codes of one length `a` end where the codes of a longer length `m`
/// start, shifted left by `m - a`.
proof fn lemma_next_code_grows(lengths: Seq<u16>, a: nat, m: nat)
    requires
        1 <= a < m <= 15,
        forall|l: nat| 1 <= l <= 15 ==> #[trigger] next_code(lengths, l) + count_len(lengths, l) <= pow2(l),
    ensures
        next_code(lengths, m) >= pow2((m - a) as nat) * (next_code(lengths, a) + count_len(lengths, a)),
    decreases m - a,
{
    let p = (m - 1) as nat;
    lemma2_to64();
    lemma_pow2_strictly_increases(p, 15);
    assert(next_code(lengths, p) + count_len(lengths, p) <= pow2(p));
    assert(next_code(lengths, m) == 2 * (next_code(lengths, p) + count_len(lengths, p)));
    lemma_pow2_unfold((m - a) as nat);
    if p == a {
        assert(pow2((m - a) as nat) == 2);
    } else {
        lemma_next_code_grows(lengths, a, p);
        let x = next_code(lengths, a) + count_len(lengths, a);
        assert(pow2((m - a) as nat) * x == 2 * (pow2((p - a) as nat) * x)) by (nonlinear_arith)
            requires
                pow2((m - a) as nat) == 2 * pow2((p - a) as nat),
        ;
    }
}

/// The canonical code is a prefix code (RFC 1951, 3.2.2): when the codes of
/// every length fit in that many bits, no symbol's code is a prefix of
/// another symbol's code. Codes are compared in stream order, most
/// significant bit first, so the first `a` bits of a `b`-bit code `c` are
/// `c / 2^(b - a)`.
pub proof fn lemma_canonical_prefix_free(lengths: Seq<u16>, i: int, j: int)
    requires
        forall|k: int| 0 <= k < lengths.len() ==> lengths[k] <= MAX_CODE_LENGTH,
        forall|l: nat| 1 <= l <= 15 ==> #[trigger] next_code(lengths, l) + count_len(lengths, l) <= pow2(l),
        0 <= i < lengths.len(),
        0 <= j < lengths.len(),
        i != j,
        0 < lengths[i] <= lengths[j],
    ensures
        canonical_code(lengths, j) / pow2((lengths[j] - lengths[i]) as nat) != canonical_code(lengths, i),
{
    let a = lengths[i] as nat;
    let b = lengths[j] as nat;
    let ri = count_len(lengths.take(i), a);
    let rj = count_len(lengths.take(j), b);
    lemma_count_len_step(lengths, i, a);
    lemma_count_len_prefix(lengths, i + 1, a);
    lemma_count_len_step(lengths, j, b);
    lemma_count_len_prefix(lengths, j + 1, b);
    let x = next_code(lengths, a) + count_len(lengths, a);
    assert(canonical_code(lengths, i) < x);
    if a == b {
        assert(pow2(0) == 1) by {
            lemma2_to64();
        }
        if i < j {
            lemma_count_len_prefix(lengths.take(j), i + 1, a);
            assert(lengths.take(j).take(i + 1) =~= lengths.take(i + 1));
            assert(ri < rj);
        } else {
            lemma_count_len_prefix(lengths.take(i), j + 1, a);
            assert(lengths.take(i).take(j + 1) =~= lengths.take(j + 1));
            assert(rj < ri);
        }
    } else {
        lemma_next_code_grows(lengths, a, b);
        let p = pow2((b - a) as nat) as int;
        let c = canonical_code(lengths, j) as int;
        assert(p > 0) by {
            lemma_pow2_pos((b - a) as nat);
        }
        assert(c >= p * x);
        assert(c / p >= x) by {
            vstd::arithmetic::div_mod::lemma_div_is_ordered(p * x, c, p);
            vstd::arithmetic::div_mod::lemma_div_multiples_vanish(x as int, p);
        }
    }
}

/// Packs a code length and a symbol into a table entry.
fn pack_entry(len: u16, symbol: u16) -> (e: u16)
    requires
        len <= 15,
        symbol < 512,
    ensures
        e == pack(len as int, symbol as int),
{
    assert((len << 9u16) | symbol == len * 512 + symbol) by (bit_vector)
        requires
            len <= 15,
            symbol < 512,
    ;
    (len << 9) | symbol
}

/// Assigns every symbol with a nonzero length its canonical code, bit-reversed
/// so that it can be matched against the stream least significant bit first.
/// Returns `false` (with `codes` partly written) when a length exceeds 15 or
/// the codes do not fit in 16 bits.
pub fn build_huff_codes(lengths: &[u16], codes: &mut [u16]) -> (ok: bool)
    requires
        old(codes)@.len() >= lengths@.len(),
        lengths@.len() <= 65535,
    ensures
        final(codes)@.len() == old(codes)@.len(),
        ok == codes_fit(lengths@),
        forall|i: int| lengths@.len() <= i < old(codes)@.len() ==> #[trigger] final(codes)@[i] == old(codes)@[i],
        ok ==> forall|i: int|
            0 <= i < lengths@.len() ==> #[trigger] final(codes)@[i] == if lengths@[i] != 0 {
                rev_bits(canonical_code(lengths@, i), lengths@[i] as nat) as u16
            } else {
                old(codes)@[i]
            },
{
    let ghost ls = lengths@;
    // Step 1: count the codes of each length.
    let mut counts: Vec<u16> = vec![0u16; MAX_CODE_LENGTH + 1];
    let mut i: usize = 0;
    proof {
        assert forall|l: nat| l < 16 implies #[trigger] count_len(ls.take(0), l) == counts@[l as int] by {
            assert(ls.take(0).len() == 0);
        }
    }
    while i < lengths.len()
        invariant
            i <= ls.len() <= 65535,
            ls == lengths@,
            counts@.len() == 16,
            forall|l: nat| l < 16 ==> #[trigger] count_len(ls.take(i as int), l) == counts@[l as int],
            forall|j: int| 0 <= j < i ==> ls[j] <= MAX_CODE_LENGTH,
        decreases ls.len() - i,
    {
        let bit_length = lengths[i];
        if bit_length > 15 {
            return false;
        }
        proof {
            lemma_count_len_bound(ls.take(i as int), bit_length as nat);
            assert forall|l: nat| l < 16 implies #[trigger] count_len(ls.take(i + 1), l) == (if l
                == bit_length {
                counts@[l as int] + 1
            } else {
                counts@[l as int] as int
            }) by {
                lemma_count_len_step(ls, i as int, l);
            }
        }
        let c = counts[bit_length as usize];
        counts.set(bit_length as usize, c + 1);
        i = i + 1;
    }
    proof {
        assert(ls.take(ls.len() as int) =~= ls);
    }
    counts.set(0, 0);

    // Step 2: the first code of each length.
    let mut next: Vec<u16> = vec![0u16; MAX_CODE_LENGTH + 1];
    let mut code: u16 = 0;
    let mut index: usize = 1;
    while index <= MAX_CODE_LENGTH
        invariant
            1 <= index <= 16,
            ls == lengths@,
            counts@.len() == 16,
            next@.len() == 16,
            counts@[0] == 0,
            forall|l: nat| 1 <= l < 16 ==> #[trigger] count_len(ls, l) == counts@[l as int],
            code as nat == next_code(ls, (index - 1) as nat),
            forall|l: nat| 1 <= l < index ==> #[trigger] next@[l as int] == next_code(ls, l),
            forall|j: int| 0 <= j < ls.len() ==> ls[j] <= MAX_CODE_LENGTH,
        decreases 16 - index,
    {
        let sum: u32 = code as u32 + counts[index - 1] as u32;
        if sum > 65535 {
            proof {
                assert(index - 1 >= 1);
                assert(next_code(ls, (index - 1) as nat) + count_len(ls, (index - 1) as nat) > 65535);
            }
            return false;
        }
        code = ((sum * 2) % 65536) as u16;
        next.set(index, code);
        index = index + 1;
    }

    // The codes of each length must fit in 16 bits.
    let mut l: usize = 1;
    while l <= MAX_CODE_LENGTH
        invariant
            1 <= l <= 16,
            ls == lengths@,
            counts@.len() == 16,
            next@.len() == 16,
            forall|k: nat| 1 <= k < 16 ==> #[trigger] count_len(ls, k) == counts@[k as int],
            forall|k: nat| 1 <= k < 16 ==> #[trigger] next@[k as int] == next_code(ls, k),
            forall|k: nat| 1 <= k < l ==> next_code(ls, k) + #[trigger] count_len(ls, k) <= 65535,
        decreases 16 - l,
    {
        if next[l] as u32 + counts[l] as u32 > 65535 {
            return false;
        }
        l = l + 1;
    }
    assert(codes_fit(ls));

    // Step 3: assign the codes in symbol order.
    let mut i: usize = 0;
    let ghost old_codes = codes@;
    proof {
        assert forall|k: nat| 1 <= k < 16 implies #[trigger] next@[k as int] == next_code(ls, k)
            + count_len(ls.take(0), k) by {
            assert(ls.take(0).len() == 0);
        }
    }
    while i < lengths.len()
        invariant
            i <= ls.len(),
            ls == lengths@,
            codes_fit(ls),
            next@.len() == 16,
            codes@.len() == old_codes.len(),
            old_codes.len() >= ls.len(),
            old_codes == old(codes)@,
            forall|k: nat| 1 <= k < 16 ==> #[trigger] next@[k as int] == next_code(ls, k) + count_len(
                ls.take(i as int),
                k,
            ),
            forall|j: int|
                0 <= j < i ==> #[trigger] codes@[j] == if ls[j] != 0 {
                    rev_bits(canonical_code(ls, j), ls[j] as nat) as u16
                } else {
                    old_codes[j]
                },
            forall|j: int| i <= j < old_codes.len() ==> #[trigger] codes@[j] == old_codes[j],
        decreases ls.len() - i,
    {
        let code_length = lengths[i];
        proof {
            assert forall|k: nat| 1 <= k < 16 implies #[trigger] count_len(ls.take(i + 1), k) == count_len(
                ls.take(i as int),
                k,
            ) + if ls[i as int] == k {
                1nat
            } else {
                0
            } by {
                lemma_count_len_step(ls, i as int, k);
            }
        }
        if code_length != 0 {
            let c = next[code_length as usize];
            proof {
                lemma_count_len_prefix(ls, i as int + 1, code_length as nat);
                lemma_count_len_step(ls, i as int, code_length as nat);
                lemma_rev_bits_bound(c as nat, code_length as nat);
                lemma_pow2_strictly_increases(code_length as nat, 16);
                lemma2_to64();
            }
            let reversed = reverse_low_bits(c, code_length);
            codes[i] = reversed;
            next.set(code_length as usize, c + 1);
        }
        i = i + 1;
    }
    true
}

proof fn lemma_hits_step(code: nat, step: nat, index: nat, idx: nat)
    requires
        step > 0,
        index >= code,
        (index - code) % (step as int) == 0,
        idx >= code,
        (idx - code) % (step as int) == 0,
    ensures
        !(index < idx < index + step),
{
    if !(index < idx < index + step) {
        return;
    }
    let a = (idx - code) as int;
    let b = (index - code) as int;
    vstd::arithmetic::div_mod::lemma_fundamental_div_mod(a, step as int);
    vstd::arithmetic::div_mod::lemma_fundamental_div_mod(b, step as int);
    let qa = a / (step as int);
    let qb = b / (step as int);
    assert(a - b == (step as int) * (qa - qb)) by {
        vstd::arithmetic::mul::lemma_mul_is_distributive_sub(step as int, qa, qb);
    }
    assert(0 < a - b < step);
    if qa - qb >= 1 {
        vstd::arithmetic::mul::lemma_mul_inequality(1, qa - qb, step as int);
        vstd::arithmetic::mul::lemma_mul_is_commutative(step as int, qa - qb);
    } else {
        vstd::arithmetic::mul::lemma_mul_inequality(qa - qb, 0, step as int);
        vstd::arithmetic::mul::lemma_mul_is_commutative(step as int, qa - qb);
    }
}

/// Builds a lookup table of `size` entries: every symbol with a nonzero
/// length fills each entry whose low bits are its (bit-reversed) code;
/// later symbols overwrite earlier ones.
pub fn build_lut(lengths: &[u16], codes: &[u16], size: usize) -> (table: Vec<u16>)
    requires
        codes@.len() >= lengths@.len(),
        lengths@.len() <= 512,
        forall|i: int| 0 <= i < lengths@.len() ==> lengths@[i] <= MAX_CODE_LENGTH,
        size + 32768 <= usize::MAX,
    ensures
        table@.len() == size,
        forall|idx: int|
            0 <= idx < size ==> #[trigger] table@[idx] == lut_entry(
                lengths@,
                codes@,
                idx as nat,
                lengths@.len(),
            ),
{
    let mut table: Vec<u16> = vec![0u16; size];
    let mut symbol: usize = 0;
    proof {
        assert forall|idx: int| 0 <= idx < size implies #[trigger] table@[idx] == lut_entry(
            lengths@,
            codes@,
            idx as nat,
            0,
        ) by {}
    }
    while symbol < lengths.len()
        invariant
            symbol <= lengths@.len() <= 512,
            codes@.len() >= lengths@.len(),
            forall|i: int| 0 <= i < lengths@.len() ==> lengths@[i] <= MAX_CODE_LENGTH,
            size + 32768 <= usize::MAX,
            table@.len() == size,
            forall|idx: int|
                0 <= idx < size ==> #[trigger] table@[idx] == lut_entry(
                    lengths@,
                    codes@,
                    idx as nat,
                    symbol as nat,
                ),
        decreases lengths@.len() - symbol,
    {
        let length = lengths[symbol];
        if length != 0 {
            let code = codes[symbol];
            let value = pack_entry(length, symbol as u16);
            proof {
                lemma_pow2_strictly_increases(length as nat, 16);
                lemma2_to64();
                vstd::bits::lemma_u32_shl_is_mul(1, length as u32);
            }
            let step32: u32 = 1u32 << (length as u32);
            let step: usize = step32 as usize;
            let mut index: usize = code as usize;
            let ghost s = symbol as int;
            let ghost before = table@;
            proof {
                vstd::arithmetic::div_mod::lemma_small_mod(0, step as nat);
                lemma_pow2_pos(length as nat);
            }
            while index < size
                invariant
                    index >= code,
                    ((index - code) as int) % (step as int) == 0,
                    step as nat == pow2(length as nat),
                    step >= 1,
                    step <= 32768,
                    index <= size + 65535,
                    size + 32768 <= usize::MAX,
                    table@.len() == size,
                    before.len() == size,
                    forall|idx: int|
                        0 <= idx < size ==> #[trigger] table@[idx] == if hits(
                            code as nat,
                            length as nat,
                            idx as nat,
                        ) && idx < index {
                            value
                        } else {
                            before[idx]
                        },
                decreases size + 65535 - index,
            {
                table.set(index, value);
                proof {
                    assert forall|idx: int| 0 <= idx < size implies #[trigger] table@[idx] == if hits(
                        code as nat,
                        length as nat,
                        idx as nat,
                    ) && idx < index + step {
                        value
                    } else {
                        before[idx]
                    } by {
                        if hits(code as nat, length as nat, idx as nat) && index < idx < index + step {
                            lemma_hits_step(code as nat, step as nat, index as nat, idx as nat);
                        }
                    }
                    vstd::arithmetic::div_mod::lemma_mod_add_multiples_vanish(
                        (index - code) as int,
                        step as int,
                    );
                }
                index = index + step;
            }
            proof {
                assert forall|idx: int| 0 <= idx < size implies #[trigger] table@[idx] == lut_entry(
                    lengths@,
                    codes@,
                    idx as nat,
                    (symbol + 1) as nat,
                ) by {}
            }
        }
        symbol = symbol + 1;
    }
    table
}

/// The fixed literal/length lookup table (9-bit index).
pub fn fixed_literals_lut() -> (table: Vec<u16>)
    ensures
        table@.len() == 512,
        forall|raw: int| 0 <= raw < 512 ==> #[trigger] table@[raw] == fixed_literal_entry(raw as nat),
{
    let mut table: Vec<u16> = Vec::new();
    let mut raw_bits: u16 = 0;
    while raw_bits < 512
        invariant
            raw_bits <= 512,
            table@.len() == raw_bits,
            forall|raw: int| 0 <= raw < raw_bits ==> #[trigger] table@[raw] == fixed_literal_entry(
                raw as nat,
            ),
        decreases 512 - raw_bits,
    {
        let reversed_bits = reverse_low_bits(raw_bits, 9);
        proof {
            lemma_rev_bits_bound(raw_bits as nat, 9);
            lemma2_to64();
        }
        let entry = if reversed_bits <= 95 {
            pack_entry(7, 256 + reversed_bits / 4)
        } else if reversed_bits <= 383 {
            pack_entry(8, reversed_bits / 2 - 48)
        } else if reversed_bits <= 399 {
            pack_entry(8, 280 + reversed_bits / 2 - 192)
        } else {
            pack_entry(9, 144 + reversed_bits - 400)
        };
        table.push(entry);
        raw_bits = raw_bits + 1;
    }
    table
}

/// The fixed distance lookup table (5-bit index).
pub fn fixed_distances_lut() -> (table: Vec<u16>)
    ensures
        table@.len() == 32,
        forall|raw: int| 0 <= raw < 32 ==> #[trigger] table@[raw] == fixed_distance_entry(raw as nat),
{
    let mut table: Vec<u16> = Vec::new();
    let mut raw_bits: u16 = 0;
    while raw_bits < 32
        invariant
            raw_bits <= 32,
            table@.len() == raw_bits,
            forall|raw: int| 0 <= raw < raw_bits ==> #[trigger] table@[raw] == fixed_distance_entry(
                raw as nat,
            ),
        decreases 32 - raw_bits,
    {
        let distance = reverse_low_bits(raw_bits, 5);
        proof {
            lemma_rev_bits_bound(raw_bits as nat, 5);
            lemma2_to64();
        }
        table.push(pack_entry(5, distance));
        raw_bits = raw_bits + 1;
    }
    table
}

} // verus!
