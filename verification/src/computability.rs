//! Computability functor ⌊−⌋: grounding quantised values in finite bit sets.
//!
//! A code is a natural number written little-endian as a sequence of bits:
//! bit `i` carries the weight `2^i`.
use vstd::prelude::*;
use vstd::arithmetic::power2::{pow2, lemma_pow2_unfold, lemma_pow2_pos};
use vstd::bits::{lemma_u64_pow2_no_overflow, lemma_u64_shl_is_mul, lemma_u64_shr_is_div};

verus! {

/// The number that a little-endian bit sequence denotes.
pub open spec fn bits_value(s: Seq<bool>) -> nat
    decreases s.len(),
{
    if s.len() == 0 {
        0
    } else {
        bits_value(s.drop_last()) + if s.last() { pow2((s.len() - 1) as nat) } else { 0 }
    }
}

/// Every set bit has a weight that a `u64` can hold.
pub open spec fn bits_fit_u64(s: Seq<bool>) -> bool {
    forall|i: int| 0 <= i < s.len() && #[trigger] s[i] ==> i < 64
}

/// A finite set representation (bit vector).
#[derive(Debug, Clone, PartialEq)]
pub struct FinSet {
    /// Bits of the representation.
    pub bits: Vec<bool>,
    /// Dimension of the original object.
    pub source_dim: usize,
}

impl FinSet {
    pub fn new(bits: Vec<bool>, source_dim: usize) -> (f: FinSet)
        ensures
            f.bits@ == bits@,
            f.source_dim == source_dim,
    {
        FinSet { bits, source_dim }
    }

    /// Number of bits.
    pub fn len_bits(&self) -> (n: usize)
        ensures
            n == self.bits@.len(),
    {
        self.bits.len()
    }

    /// The bits read as a little-endian integer.
    pub fn to_int(&self) -> (v: u64)
        requires
            bits_fit_u64(self.bits@),
        ensures
            v == bits_value(self.bits@),
    {
        decode_code(self.bits.as_slice())
    }

    /// Cardinality of the finite set: `2^len`.
    pub fn cardinality(&self) -> (c: u64)
        requires
            self.bits@.len() < 64,
        ensures
            c == pow2(self.bits@.len() as nat),
    {
        let n = self.bits.len() as u64;
        proof {
            lemma_u64_pow2_no_overflow(n as nat);
            lemma_u64_shl_is_mul(1, n);
        }
        1u64 << n
    }
}

/// A value below `2^k` and the single bit of weight `2^k` share no bit.
proof fn lemma_or_high_bit(v: u64, k: u64)
    by (bit_vector)
    requires
        k < 64,
        v < (1u64 << k),
    ensures
        v | (1u64 << k) == v + (1u64 << k),
{
}

/// The bits of a code never exceed its width.
pub proof fn lemma_bits_value_bound(s: Seq<bool>)
    ensures
        bits_value(s) < pow2(s.len()),
    decreases s.len(),
{
    if s.len() == 0 {
        lemma_pow2_pos(0);
        assert(pow2(0) == 1) by { vstd::arithmetic::power2::lemma2_to64(); }
    } else {
        lemma_bits_value_bound(s.drop_last());
        lemma_pow2_unfold(s.len());
    }
}

/// Reading bits is little-endian: the bits of `b` placed after those of `a`
/// count `2^|a|` times their own value.
pub proof fn lemma_bits_value_append(a: Seq<bool>, b: Seq<bool>)
    ensures
        bits_value(a + b) == bits_value(a) + pow2(a.len()) * bits_value(b),
    decreases b.len(),
{
    if b.len() == 0 {
        assert(a + b =~= a);
    } else {
        let b1 = b.drop_last();
        lemma_bits_value_append(a, b1);
        assert((a + b).drop_last() =~= a + b1);
        vstd::arithmetic::power2::lemma_pow2_adds(a.len(), b1.len());
        let x = if b.last() { pow2(b1.len()) } else { 0 };
        assert(pow2(a.len()) * (bits_value(b1) + x) == pow2(a.len()) * bits_value(b1) + pow2(a.len()) * x)
            by (nonlinear_arith);
        if b.last() {
            assert(pow2(a.len()) * x == pow2(a.len() + b1.len()));
        } else {
            assert(pow2(a.len()) * x == 0) by (nonlinear_arith) requires x == 0;
        }
    }
}

/// A single set bit at position `i` (after `i` clear bits) reads as `2^i`, and
/// clear bits read as `0`.
pub proof fn lemma_bits_value_single(i: nat)
    ensures
        bits_value(Seq::new(i, |_j: int| false)) == 0,
        bits_value(Seq::new(i, |_j: int| false).push(true)) == pow2(i),
    decreases i,
{
    let z = Seq::new(i, |_j: int| false);
    if i > 0 {
        lemma_bits_value_single((i - 1) as nat);
        assert(z.drop_last() =~= Seq::new((i - 1) as nat, |_j: int| false));
    }
    assert(z.push(true).drop_last() =~= z);
}

/// Reads a little-endian bit sequence as an integer.
pub fn decode_code(bits: &[bool]) -> (v: u64)
    requires
        bits_fit_u64(bits@),
    ensures
        v == bits_value(bits@),
{
    let mut val: u64 = 0;
    let mut i: usize = 0;
    while i < bits.len()
        invariant
            i <= bits@.len(),
            bits_fit_u64(bits@),
            val == bits_value(bits@.take(i as int)),
        decreases bits@.len() - i,
    {
        proof {
            assert(bits@.take(i + 1).drop_last() =~= bits@.take(i as int));
            lemma_bits_value_bound(bits@.take(i as int));
        }
        if bits[i] {
            assert(i < 64);
            let k: u64 = i as u64;
            proof {
                lemma_u64_pow2_no_overflow(k as nat);
                lemma_u64_shl_is_mul(1, k);
                lemma_or_high_bit(val, k);
            }
            val = val | (1u64 << k);
        }
        i = i + 1;
    }
    assert(bits@.take(bits@.len() as int) =~= bits@);
    val
}

/// The largest code of `width` bits: `2^width - 1`.
pub open spec fn max_code_of(width: nat) -> nat {
    (pow2(width) - 1) as nat
}

/// A scaled value clamped into the codes of `width` bits.
pub open spec fn clamp_code(scaled: int, width: nat) -> nat {
    if scaled < 0 {
        0
    } else if scaled > max_code_of(width) {
        max_code_of(width)
    } else {
        scaled as nat
    }
}

/// Bit `j` of a code: whether `2^j` occurs in it.
pub open spec fn code_bit(code: nat, j: nat) -> bool {
    (code / pow2(j)) % 2 == 1
}

/// The `width` low bits of a code, least significant first.
pub open spec fn code_bits(code: nat, width: nat) -> Seq<bool> {
    Seq::new(width, |j: int| code_bit(code, j as nat))
}

/// The largest code of `bits_per_dim` bits.
pub fn max_code(bits_per_dim: usize) -> (m: u64)
    requires
        bits_per_dim < 64,
    ensures
        m == max_code_of(bits_per_dim as nat),
        m + 1 == pow2(bits_per_dim as nat),
{
    let k = bits_per_dim as u64;
    proof {
        lemma_u64_pow2_no_overflow(k as nat);
        lemma_u64_shl_is_mul(1, k);
    }
    (1u64 << k) - 1
}

proof fn lemma_low_bit(x: u64)
    by (bit_vector)
    ensures
        (x & 1 == 1) == (x % 2 == 1),
{
}

/// Encodes a scaled value as `bits_per_dim` bits, clamped into the representable codes.
pub fn encode_code(scaled: i64, bits_per_dim: usize) -> (r: Vec<bool>)
    requires
        bits_per_dim < 63,
    ensures
        r@ == code_bits(clamp_code(scaled as int, bits_per_dim as nat), bits_per_dim as nat),
        r@.len() == bits_per_dim,
        scaled < 0 ==> forall|j: int| 0 <= j < bits_per_dim ==> !#[trigger] r@[j],
        scaled >= pow2(bits_per_dim as nat) ==> forall|j: int|
            0 <= j < bits_per_dim ==> #[trigger] r@[j],
        0 <= scaled < pow2(bits_per_dim as nat) ==> bits_value(r@) == scaled,
{
    proof {
        lemma_encode_code_laws(scaled as int, bits_per_dim as nat);

        lemma_pow2_pos(bits_per_dim as nat);
        if bits_per_dim < 62 {
            vstd::arithmetic::power2::lemma_pow2_strictly_increases(bits_per_dim as nat, 62);
        }
        vstd::arithmetic::power2::lemma2_to64_rest();
        assert(pow2(62) == 0x4000000000000000);
        assert(max_code_of(bits_per_dim as nat) < 0x4000000000000000);
    }
    let max_val = max_code(bits_per_dim) as i64;
    assert(max_val == max_code_of(bits_per_dim as nat));
    let clamped: u64 = if scaled < 0 {
        0
    } else if scaled > max_val {
        max_val as u64
    } else {
        scaled as u64
    };
    let ghost code = clamp_code(scaled as int, bits_per_dim as nat);
    assert(clamped == code);
    let mut r: Vec<bool> = Vec::new();
    let mut i: usize = 0;
    while i < bits_per_dim
        invariant
            i <= bits_per_dim < 63,
            clamped == code,
            r@ =~= code_bits(code, bits_per_dim as nat).take(i as int),
        decreases bits_per_dim - i,
    {
        let k = i as u64;
        let shifted = clamped >> k;
        proof {
            lemma_u64_shr_is_div(clamped, k);
            lemma_low_bit(shifted);
        }
        r.push(shifted & 1 == 1);
        i = i + 1;
    }
    proof {
        assert(r@ =~= code_bits(code, bits_per_dim as nat));
        lemma_encode_code_laws(scaled as int, bits_per_dim as nat);
    }
    r
}

/// The number of quantisation levels of `precision_bits` bits: `2^precision_bits`.
pub fn quantisation_levels(precision_bits: u32) -> (levels: u64)
    requires
        precision_bits < 64,
    ensures
        levels == pow2(precision_bits as nat),
{
    let k = precision_bits as u64;
    proof {
        lemma_u64_pow2_no_overflow(k as nat);
        lemma_u64_shl_is_mul(1, k);
    }
    1u64 << k
}

/// Clamping into the codes of `width` bits: a negative value grounds to `0`, a
/// value in `0 .. 2^width` to itself, and a value at or above `2^width` to the
/// largest code `2^width - 1`; every code is below `2^width`.
pub proof fn lemma_clamp_code_range(scaled: int, width: nat)
    ensures
        clamp_code(scaled, width) < pow2(width),
        scaled < 0 ==> clamp_code(scaled, width) == 0,
        0 <= scaled < pow2(width) ==> clamp_code(scaled, width) == scaled,
        scaled >= pow2(width) ==> clamp_code(scaled, width) == pow2(width) - 1,
{
    lemma_pow2_pos(width);
}

/// Every one of the `width` low bits of `2^width - 1` is set.
pub proof fn lemma_top_code_bits(width: nat, j: nat)
    requires
        j < width,
    ensures
        code_bit((pow2(width) - 1) as nat, j),
{
    let k = (width - j) as nat;
    vstd::arithmetic::power2::lemma_pow2_adds(j, k);
    lemma_pow2_pos(j);
    lemma_pow2_pos(k);
    lemma_pow2_unfold(k);
    let q = pow2(k) - 1;
    let r = pow2(j) - 1;
    assert(pow2(j) * pow2(k) == pow2(width));
    assert(pow2(width) - 1 == q * pow2(j) + r) by (nonlinear_arith)
        requires
            pow2(j) * pow2(k) == pow2(width),
            q == pow2(k) - 1,
            r == pow2(j) - 1,
    ;
    vstd::arithmetic::div_mod::lemma_fundamental_div_mod_converse(
        pow2(width) - 1,
        pow2(j) as int,
        q,
        r,
    );
    assert(q == 2 * pow2((k - 1) as nat) - 1);
    vstd::arithmetic::div_mod::lemma_fundamental_div_mod_converse(
        q,
        2,
        pow2((k - 1) as nat) - 1,
        1,
    );
}

/// The bits that `encode_code` gives: no bit for a negative value, every bit for
/// a value at or above `2^width`, and bits that read back as the value itself
/// for a value in `0 .. 2^width`.
pub proof fn lemma_encode_code_laws(scaled: int, width: nat)
    ensures
        scaled < 0 ==> forall|j: int|
            0 <= j < width ==> !#[trigger] code_bits(clamp_code(scaled, width), width)[j],
        scaled >= pow2(width) ==> forall|j: int|
            0 <= j < width ==> #[trigger] code_bits(clamp_code(scaled, width), width)[j],
        0 <= scaled < pow2(width) ==> bits_value(code_bits(clamp_code(scaled, width), width))
            == scaled,
{
    lemma_clamp_code_range(scaled, width);
    lemma_pow2_pos(width);
    let c = clamp_code(scaled, width);
    if scaled < 0 {
        assert forall|j: int| 0 <= j < width implies !#[trigger] code_bits(c, width)[j] by {
            lemma_pow2_pos(j as nat);
            vstd::arithmetic::div_mod::lemma_div_basics(pow2(j as nat) as int);
        }
    }
    if scaled >= pow2(width) {
        assert forall|j: int| 0 <= j < width implies #[trigger] code_bits(c, width)[j] by {
            lemma_top_code_bits(width, j as nat);
        }
    }
    if 0 <= scaled < pow2(width) {
        lemma_code_bits_value(c, width);
        vstd::arithmetic::div_mod::lemma_small_mod(c, pow2(width));
    }
}

/// Decoding the bits of a code recovers the code modulo `2^width`.
pub proof fn lemma_code_bits_value(code: nat, width: nat)
    ensures
        bits_value(code_bits(code, width)) == code % pow2(width),
    decreases width,
{
    lemma_pow2_pos(width);
    if width == 0 {
        assert(pow2(0) == 1) by { vstd::arithmetic::power2::lemma2_to64(); }
    } else {
        let w1 = (width - 1) as nat;
        lemma_code_bits_value(code, w1);
        assert(code_bits(code, width).drop_last() =~= code_bits(code, w1));
        lemma_pow2_unfold(width);
        lemma_pow2_pos(w1);
        vstd::arithmetic::div_mod::lemma_mod_breakdown(code as int, pow2(w1) as int, 2);
        assert(pow2(w1) * 2 == pow2(width));
        let b = (code / pow2(w1)) % 2;
        assert(b == 0 || b == 1);
        assert(code % pow2(width) == pow2(w1) * b + code % pow2(w1));
        assert(code_bits(code, width).last() == (b == 1));
        if b == 1 {
            assert(pow2(w1) * b == pow2(w1)) by (nonlinear_arith) requires b == 1;
        } else {
            assert(pow2(w1) * b == 0) by (nonlinear_arith) requires b == 0;
        }
        assert(bits_value(code_bits(code, width)) == bits_value(code_bits(code, w1)) + if b == 1 { pow2(w1) } else { 0 });
    }
}

/// Grounding a scaled value and reading the bits back gives the clamped code:
/// a value below zero grounds to `0`, a value above the range to `2^width - 1`,
/// and every value in between to itself.
pub proof fn lemma_encode_decode_roundtrip(scaled: int, width: nat)
    requires
        width < 63,
    ensures
        bits_fit_u64(code_bits(clamp_code(scaled, width), width)),
        bits_value(code_bits(clamp_code(scaled, width), width)) == clamp_code(scaled, width),
        clamp_code(scaled, width) <= max_code_of(width),
        scaled < 0 ==> clamp_code(scaled, width) == 0,
        0 <= scaled <= max_code_of(width) ==> clamp_code(scaled, width) == scaled,
{
    let c = clamp_code(scaled, width);
    lemma_pow2_pos(width);
    lemma_code_bits_value(c, width);
    vstd::arithmetic::div_mod::lemma_small_mod(c, pow2(width));
}

/// The bits of a sequence of scaled values, each grounded in `width` bits, one after another.
pub open spec fn encoded_bits(codes: Seq<i64>, width: nat) -> Seq<bool>
    decreases codes.len(),
{
    if codes.len() == 0 {
        Seq::empty()
    } else {
        encoded_bits(codes.drop_last(), width) + code_bits(
            clamp_code(codes.last() as int, width),
            width,
        )
    }
}

/// The `i`-th chunk of `width` bits.
pub open spec fn chunk(bits: Seq<bool>, i: int, width: nat) -> Seq<bool> {
    bits.subrange(i * width, i * width + width)
}

/// Whether the `i`-th chunk of `width` bits lies wholly inside the bits.
pub open spec fn chunk_fits(bits: Seq<bool>, i: int, width: nat) -> bool {
    i * width + width <= bits.len()
}

/// Every chunk that fits can be read as a `u64`.
pub open spec fn chunks_decodable(bits: Seq<bool>, dim: nat, width: nat) -> bool {
    forall|i: int|
        0 <= i < dim && #[trigger] chunk_fits(bits, i, width) ==> bits_fit_u64(
            chunk(bits, i, width),
        )
}

proof fn lemma_chunk_bounds(i: int, n: int, width: int)
    by (nonlinear_arith)
    requires
        0 <= i < n,
        0 <= width,
    ensures
        0 <= i * width,
        i * width + width <= n * width,
{
}

/// The layout of grounded values: `width` bits per value, in order.
pub proof fn lemma_encoded_bits_layout(codes: Seq<i64>, width: nat)
    ensures
        encoded_bits(codes, width).len() == codes.len() * width,
        forall|i: int|
            0 <= i < codes.len() ==> #[trigger] chunk(encoded_bits(codes, width), i, width)
                == code_bits(clamp_code(codes[i] as int, width), width),
    decreases codes.len(),
{
    if codes.len() > 0 {
        let pre = codes.drop_last();
        let n = codes.len() as int;
        lemma_encoded_bits_layout(pre, width);
        let e = encoded_bits(codes, width);
        let ep = encoded_bits(pre, width);
        assert((n - 1) * width + width == n * width) by (nonlinear_arith);
        assert forall|i: int| 0 <= i < codes.len() implies #[trigger] chunk(e, i, width)
            == code_bits(clamp_code(codes[i] as int, width), width) by {
            lemma_chunk_bounds(i, n, width as int);
            if i < n - 1 {
                lemma_chunk_bounds(i, n - 1, width as int);
                assert(chunk(e, i, width) =~= chunk(ep, i, width));
            } else {
                assert(chunk(e, i, width) =~= code_bits(clamp_code(codes.last() as int, width), width));
            }
        }
    }
}

/// Grounding a vector and reading it back chunk by chunk gives each value's clamped code.
pub proof fn lemma_object_roundtrip(codes: Seq<i64>, width: nat)
    requires
        width < 63,
    ensures
        encoded_bits(codes, width).len() == codes.len() * width,
        chunks_decodable(encoded_bits(codes, width), codes.len(), width),
        forall|i: int|
            0 <= i < codes.len() ==> #[trigger] chunk_fits(encoded_bits(codes, width), i, width),
        forall|i: int|
            0 <= i < codes.len() ==> bits_value(#[trigger] chunk(encoded_bits(codes, width), i, width))
                == clamp_code(codes[i] as int, width),
{
    lemma_encoded_bits_layout(codes, width);
    let e = encoded_bits(codes, width);
    assert forall|i: int| 0 <= i < codes.len() implies #[trigger] chunk_fits(e, i, width) by {
        lemma_chunk_bounds(i, codes.len() as int, width as int);
    }
    assert forall|i: int| 0 <= i < codes.len() implies bits_value(#[trigger] chunk(e, i, width))
        == clamp_code(codes[i] as int, width) && bits_fit_u64(chunk(e, i, width)) by {
        lemma_encode_decode_roundtrip(codes[i] as int, width);
    }
}

/// Grounds a vector of scaled values: each value becomes `bits_per_dim` bits,
/// clamped into the representable codes, and the chunks follow one another.
pub fn encode_object(codes: &[i64], bits_per_dim: usize) -> (f: FinSet)
    requires
        bits_per_dim < 63,
        codes@.len() * bits_per_dim <= isize::MAX,
    ensures
        f.bits@ == encoded_bits(codes@, bits_per_dim as nat),
        f.source_dim == codes@.len(),
{
    let mut bits: Vec<bool> = Vec::with_capacity(codes.len() * bits_per_dim);
    let mut i: usize = 0;
    while i < codes.len()
        invariant
            i <= codes@.len(),
            bits_per_dim < 63,
            bits@ == encoded_bits(codes@.take(i as int), bits_per_dim as nat),
        decreases codes@.len() - i,
    {
        let mut enc = encode_code(codes[i], bits_per_dim);
        bits.append(&mut enc);
        proof {
            assert(codes@.take(i + 1).drop_last() =~= codes@.take(i as int));
        }
        i = i + 1;
    }
    assert(codes@.take(codes@.len() as int) =~= codes@);
    FinSet::new(bits, codes.len())
}

/// Reads a grounded vector back, chunk by chunk: the `i`-th entry is the code in
/// bits `i * bits_per_dim .. (i + 1) * bits_per_dim`, or `None` where that chunk
/// runs past the end of the bits.
pub fn decode_object(finset: &FinSet, bits_per_dim: usize) -> (r: Vec<Option<u64>>)
    requires
        finset.source_dim * bits_per_dim <= usize::MAX,
        chunks_decodable(finset.bits@, finset.source_dim as nat, bits_per_dim as nat),
    ensures
        r@.len() == finset.source_dim,
        forall|i: int|
            0 <= i < finset.source_dim ==> (#[trigger] r@[i] is Some) == chunk_fits(
                finset.bits@,
                i,
                bits_per_dim as nat,
            ),
        forall|i: int|
            0 <= i < finset.source_dim && #[trigger] r@[i] is Some ==> r@[i]->0 == bits_value(
                chunk(finset.bits@, i, bits_per_dim as nat),
            ),
        forall|i: int|
            0 <= i < finset.source_dim ==> ((#[trigger] r@[i] is Some) <==> i * bits_per_dim
                + bits_per_dim <= finset.bits@.len()),
        forall|i: int|
            0 <= i < finset.source_dim && #[trigger] r@[i] is Some ==> r@[i]->0 == bits_value(
                finset.bits@.subrange(i * bits_per_dim, i * bits_per_dim + bits_per_dim),
            ),
{
    let n = finset.source_dim;
    let mut v: Vec<Option<u64>> = Vec::new();
    let mut i: usize = 0;
    while i < n
        invariant
            i <= n == finset.source_dim,
            n * bits_per_dim <= usize::MAX,
            chunks_decodable(finset.bits@, n as nat, bits_per_dim as nat),
            v@.len() == i,
            forall|j: int|
                0 <= j < i ==> (#[trigger] v@[j] is Some) == chunk_fits(
                    finset.bits@,
                    j,
                    bits_per_dim as nat,
                ),
            forall|j: int|
                0 <= j < i && #[trigger] v@[j] is Some ==> v@[j]->0 == bits_value(
                    chunk(finset.bits@, j, bits_per_dim as nat),
                ),
        decreases n - i,
    {
        proof {
            lemma_chunk_bounds(i as int, n as int, bits_per_dim as int);
        }
        let start = i * bits_per_dim;
        let end = start + bits_per_dim;
        if end <= finset.bits.len() {
            assert(chunk_fits(finset.bits@, i as int, bits_per_dim as nat));
            let part = &finset.bits.as_slice()[start..end];
            assert(part@ == chunk(finset.bits@, i as int, bits_per_dim as nat));
            let code = decode_code(part);
            v.push(Some(code));
        } else {
            v.push(None);
        }
        i = i + 1;
    }
    v
}

} // verus!
