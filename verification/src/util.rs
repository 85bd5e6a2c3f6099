//! Primitive conversions the KH-940 formats are built from: byte ↔ nibble
//! streams, nibble → bit streams, bit → byte packing, BCD ↔ integer, and
//! alignment padding.

use vstd::prelude::*;

use crate::nibble::{nib_vals, nibbles_valid, spec_hi, spec_lo, Nibble};

verus! {

/// The nibble stream of a byte string, high nibble first.
pub open spec fn spec_to_nibbles(bs: Seq<u8>) -> Seq<u8> {
    Seq::new(bs.len() * 2, |i: int| if i % 2 == 0 { spec_hi(bs[i / 2]) } else { spec_lo(bs[i / 2]) })
}

/// The byte string a nibble stream packs to, high nibble first.
pub open spec fn spec_from_nibbles(ns: Seq<u8>) -> Seq<u8>
    recommends
        ns.len() % 2 == 0,
{
    Seq::new(ns.len() / 2, |i: int| (ns[2 * i] * 16 + ns[2 * i + 1]) as u8)
}

/// Bit `k` (MSB first, `0 <= k < 4`) of a nibble value.
pub open spec fn nib_bit(v: u8, k: int) -> bool
    recommends
        0 <= k < 4,
{
    if k == 0 {
        v / 8 % 2 == 1
    } else if k == 1 {
        v / 4 % 2 == 1
    } else if k == 2 {
        v / 2 % 2 == 1
    } else {
        v % 2 == 1
    }
}

/// Bit `k` (MSB first, `0 <= k < 8`) of a byte.
pub open spec fn byte_bit(v: u8, k: int) -> bool
    recommends
        0 <= k < 8,
{
    if k == 0 {
        v / 128 % 2 == 1
    } else if k == 1 {
        v / 64 % 2 == 1
    } else if k == 2 {
        v / 32 % 2 == 1
    } else if k == 3 {
        v / 16 % 2 == 1
    } else {
        nib_bit(v, k - 4)
    }
}

/// The bit stream of a nibble-value stream, MSB first within each nibble.
pub open spec fn spec_nibble_bits(ns: Seq<u8>) -> Seq<bool> {
    Seq::new(ns.len() * 4, |i: int| nib_bit(ns[i / 4], i % 4))
}

/// The bit stream of a byte string, MSB first within each byte.
pub open spec fn spec_bits_of_bytes(bs: Seq<u8>) -> Seq<bool> {
    Seq::new(bs.len() * 8, |i: int| byte_bit(bs[i / 8], i % 8))
}

pub open spec fn bit_val(b: bool) -> u8 {
    if b {
        1
    } else {
        0
    }
}

/// The byte eight bits pack to, MSB first.
pub open spec fn byte_of_bits(bits: Seq<bool>) -> u8
    recommends
        bits.len() == 8,
{
    (bit_val(bits[0]) * 128 + bit_val(bits[1]) * 64 + bit_val(bits[2]) * 32 + bit_val(bits[3]) * 16
        + bit_val(bits[4]) * 8 + bit_val(bits[5]) * 4 + bit_val(bits[6]) * 2 + bit_val(
        bits[7],
    )) as u8
}

/// The byte string a bit stream packs to, MSB first per byte.
pub open spec fn spec_bits_to_bytes(bits: Seq<bool>) -> Seq<u8>
    recommends
        bits.len() % 8 == 0,
{
    Seq::new(bits.len() / 8, |j: int| byte_of_bits(bits.subrange(8 * j, 8 * j + 8)))
}

/// The value of a digit string read most-significant first, digits at face
/// value.
pub open spec fn bcd_val(ns: Seq<u8>) -> int
    decreases ns.len(),
{
    if ns.len() == 0 {
        0
    } else {
        bcd_val(ns.drop_last()) * 10 + ns.last()
    }
}

/// The decimal digits of `n`, most-significant first, left-padded with zeros
/// to at least `w` digits.
pub open spec fn bcd_rep(n: nat, w: nat) -> Seq<u8>
    decreases n + w,
{
    if n == 0 && w == 0 {
        Seq::empty()
    } else {
        bcd_rep(n / 10, if w == 0 {
            0
        } else {
            (w - 1) as nat
        }).push((n % 10) as u8)
    }
}

/// Bytes needed after `n` to reach a multiple of `alignment`.
pub open spec fn spec_padding(n: int, alignment: int) -> int
    recommends
        alignment > 0,
{
    (alignment - (n % alignment)) % alignment
}

/// Convert a stream of nibbles to a stream of bits, MSB first per nibble.
pub fn nibble_bits(ns: &Vec<Nibble>) -> (r: Vec<bool>)
    ensures
        r@ == spec_nibble_bits(nib_vals(ns@)),
{
    let mut r: Vec<bool> = Vec::new();
    let ghost vals = nib_vals(ns@);
    let mut i: usize = 0;
    while i < ns.len()
        invariant
            i <= ns@.len(),
            vals == nib_vals(ns@),
            r@.len() == 4 * i,
            forall|j: int| 0 <= j < r@.len() ==> r@[j] == spec_nibble_bits(vals)[j],
        decreases ns@.len() - i,
    {
        let v = ns[i].value();
        proof {
            assert(vals[i as int] == v);
            assert((v & 8) >> 3 != 0 <==> v / 8 % 2 == 1) by (bit_vector);
            assert((v & 4) >> 2 != 0 <==> v / 4 % 2 == 1) by (bit_vector);
            assert((v & 2) >> 1 != 0 <==> v / 2 % 2 == 1) by (bit_vector);
            assert((v & 1) != 0 <==> v % 2 == 1) by (bit_vector);
            lemma_mul_div_plus(i as int, 0, 4);
            lemma_mul_div_plus(i as int, 1, 4);
            lemma_mul_div_plus(i as int, 2, 4);
            lemma_mul_div_plus(i as int, 3, 4);
        }
        r.push((v & 8) >> 3 != 0);
        r.push((v & 4) >> 2 != 0);
        r.push((v & 2) >> 1 != 0);
        r.push((v & 1) != 0);
        i += 1;
    }
    proof {
        assert(r@ =~= spec_nibble_bits(vals));
    }
    r
}

/// Convert a string of bytes to a stream of nibbles, high nibble first.
pub fn to_nibbles(bs: &Vec<u8>) -> (r: Vec<Nibble>)
    ensures
        nib_vals(r@) == spec_to_nibbles(bs@),
        nibbles_valid(r@),
        r@.len() == bs@.len() * 2,
{
    let mut r: Vec<Nibble> = Vec::new();
    let mut i: usize = 0;
    while i < bs.len()
        invariant
            i <= bs@.len(),
            r@.len() == 2 * i,
            nibbles_valid(r@),
            forall|j: int| 0 <= j < r@.len() ==> nib_vals(r@)[j] == spec_to_nibbles(bs@)[j],
        decreases bs@.len() - i,
    {
        let (hi, lo) = Nibble::divide_byte(bs[i]);
        proof {
            lemma_mul_div_plus(i as int, 0, 2);
            lemma_mul_div_plus(i as int, 1, 2);
        }
        r.push(hi);
        r.push(lo);
        i += 1;
    }
    proof {
        assert(nib_vals(r@) =~= spec_to_nibbles(bs@));
    }
    r
}

/// Convert a stream of nibbles back to a string of bytes.
///
/// The stream must hold an even number of nibbles; the original rejects an
/// odd count.
pub fn from_nibbles(ns: &Vec<Nibble>) -> (r: Vec<u8>)
    requires
        ns@.len() % 2 == 0,
        nibbles_valid(ns@),
    ensures
        r@ == spec_from_nibbles(nib_vals(ns@)),
        r@.len() == ns@.len() / 2,
{
    let mut r: Vec<u8> = Vec::new();
    let mut i: usize = 0;
    while i + 1 < ns.len() + 1
        invariant
            ns@.len() % 2 == 0,
            nibbles_valid(ns@),
            i % 2 == 0,
            i <= ns@.len(),
            r@.len() == i / 2,
            forall|j: int| 0 <= j < r@.len() ==> r@[j] == spec_from_nibbles(nib_vals(ns@))[j],
        decreases ns@.len() - i,
    {
        let b = Nibble::combine_nibbles(ns[i], ns[i + 1]);
        proof {
            let j = r@.len() as int;
            assert(2 * j == i && 2 * j + 1 == i + 1);
            assert((i + 2) / 2 == i / 2 + 1);
        }
        r.push(b);
        i += 2;
    }
    proof {
        assert(r@ =~= spec_from_nibbles(nib_vals(ns@)));
    }
    r
}

/// `bcd_val` of any digit string is non-negative.
pub proof fn lemma_bcd_val_nonneg(ns: Seq<u8>)
    ensures
        bcd_val(ns) >= 0,
    decreases ns.len(),
{
    if ns.len() > 0 {
        lemma_bcd_val_nonneg(ns.drop_last());
    }
}

/// A prefix of a digit string never has a larger value than the whole.
pub proof fn lemma_bcd_val_prefix_le(ns: Seq<u8>, i: int)
    requires
        0 <= i <= ns.len(),
    ensures
        bcd_val(ns.take(i)) <= bcd_val(ns),
    decreases ns.len() - i,
{
    if i < ns.len() {
        assert(ns.take(i + 1).drop_last() =~= ns.take(i));
        lemma_bcd_val_nonneg(ns.take(i));
        lemma_bcd_val_prefix_le(ns, i + 1);
    } else {
        assert(ns.take(i) =~= ns);
    }
}

/// Bounds the value of a short digit string of face values at most 15.
pub proof fn lemma_bcd_val_bound(ns: Seq<u8>)
    requires
        forall|i: int| 0 <= i < ns.len() ==> ns[i] <= 15,
    ensures
        0 <= bcd_val(ns),
        ns.len() <= 1 ==> bcd_val(ns) <= 15,
        ns.len() <= 2 ==> bcd_val(ns) <= 165,
        ns.len() <= 3 ==> bcd_val(ns) <= 1665,
        ns.len() <= 4 ==> bcd_val(ns) <= 16665,
    decreases ns.len(),
{
    if ns.len() > 0 {
        lemma_bcd_val_bound(ns.drop_last());
    }
}

/// Convert a stream of nibbles holding BCD digits, most-significant first,
/// to the integer they spell; digits above 9 count at face value.
pub fn from_bcd(ns: &Vec<Nibble>) -> (r: u16)
    requires
        bcd_val(nib_vals(ns@)) <= u16::MAX,
    ensures
        r == bcd_val(nib_vals(ns@)),
{
    let ghost vals = nib_vals(ns@);
    let mut s: u16 = 0;
    let mut i: usize = 0;
    while i < ns.len()
        invariant
            i <= ns@.len(),
            vals == nib_vals(ns@),
            bcd_val(vals) <= u16::MAX,
            s == bcd_val(vals.take(i as int)),
        decreases ns@.len() - i,
    {
        let d = ns[i].value();
        proof {
            assert(vals.take(i + 1).drop_last() =~= vals.take(i as int));
            assert(vals.take(i + 1).last() == vals[i as int]);
            lemma_bcd_val_prefix_le(vals, i + 1);
        }
        s = s * 10 + d as u16;
        i += 1;
    }
    proof {
        assert(vals.take(ns@.len() as int) =~= vals);
    }
    s
}

/// `bcd_rep(0, w)` is `w` zero digits.
pub proof fn lemma_bcd_rep_zero(w: nat)
    ensures
        bcd_rep(0, w) =~= Seq::new(w, |i: int| 0u8),
    decreases w,
{
    if w > 0 {
        lemma_bcd_rep_zero((w - 1) as nat);
    }
}

/// Every digit of a `bcd_rep` is a decimal digit.
pub proof fn lemma_bcd_rep_digits(n: nat, w: nat)
    ensures
        forall|i: int| 0 <= i < bcd_rep(n, w).len() ==> #[trigger] bcd_rep(n, w)[i] <= 9,
        bcd_rep(n, w).len() >= w,
    decreases n + w,
{
    if !(n == 0 && w == 0) {
        lemma_bcd_rep_digits(n / 10, if w == 0 {
            0
        } else {
            (w - 1) as nat
        });
    }
}

/// Widening below the natural digit count does not change the representation.
pub proof fn lemma_bcd_rep_narrow(n: nat, w: nat)
    requires
        w <= bcd_rep(n, 0).len(),
    ensures
        bcd_rep(n, w) == bcd_rep(n, 0),
    decreases n,
{
    if n == 0 {
    } else {
        if w > 0 {
            assert(bcd_rep(n, 0).len() == bcd_rep(n / 10, 0).len() + 1);
            lemma_bcd_rep_narrow(n / 10, (w - 1) as nat);
        } else {
        }
    }
}

/// Widening past the digit count prepends one zero digit.
pub proof fn lemma_bcd_rep_widen(n: nat, w: nat)
    requires
        w >= bcd_rep(n, 0).len(),
    ensures
        bcd_rep(n, (w + 1) as nat) =~= seq![0u8] + bcd_rep(n, w),
    decreases n,
{
    if n == 0 {
        lemma_bcd_rep_zero(w);
        lemma_bcd_rep_zero((w + 1) as nat);
    } else {
        assert(bcd_rep(n, 0).len() == bcd_rep(n / 10, 0).len() + 1);
        lemma_bcd_rep_widen(n / 10, (w - 1) as nat);
        assert(bcd_rep(n, (w + 1) as nat) == bcd_rep(n / 10, w).push((n % 10) as u8));
        assert((seq![0u8] + bcd_rep(n / 10, (w - 1) as nat)).push((n % 10) as u8) =~= seq![0u8]
            + bcd_rep(n / 10, (w - 1) as nat).push((n % 10) as u8));
    }
}

/// Reading back the BCD representation of `n` gives `n` again, whatever the
/// requested width.
pub proof fn lemma_bcd_round_trip(n: nat, w: nat)
    ensures
        bcd_val(bcd_rep(n, w)) == n,
    decreases n + w,
{
    if n == 0 && w == 0 {
    } else {
        let rest = bcd_rep(n / 10, if w == 0 {
            0
        } else {
            (w - 1) as nat
        });
        assert(bcd_rep(n, w).drop_last() =~= rest);
        lemma_bcd_round_trip(n / 10, if w == 0 {
            0
        } else {
            (w - 1) as nat
        });
    }
}

/// Powers of ten.
pub open spec fn pow10(w: nat) -> nat
    decreases w,
{
    if w == 0 {
        1
    } else {
        10 * pow10((w - 1) as nat)
    }
}

/// A number below `10^w` has exactly `w` BCD digits when padded to `w`.
pub proof fn lemma_bcd_rep_len_exact(n: nat, w: nat)
    requires
        n < pow10(w),
    ensures
        bcd_rep(n, w).len() == w,
    decreases w,
{
    if w == 0 {
    } else {
        let p = pow10((w - 1) as nat);
        assert(pow10(w) == 10 * p);
        assert(n < 10 * p ==> n / 10 < p) by (nonlinear_arith)
            requires
                p >= 1,
        ;
        lemma_bcd_rep_len_exact(n / 10, (w - 1) as nat);
    }
}

/// Convert an integer to the nibbles of its BCD spelling, most-significant
/// first, left-padded with zeros to at least `min_width` digits.
pub fn to_bcd(n: u16, min_width: u16) -> (r: Vec<Nibble>)
    ensures
        nib_vals(r@) == bcd_rep(n as nat, min_width as nat),
        nibbles_valid(r@),
        forall|i: int| 0 <= i < r@.len() ==> nib_vals(r@)[i] <= 9,
{
    let mut digits: Vec<Nibble> = Vec::new();
    let mut m = n;
    while m != 0
        invariant
            bcd_rep(n as nat, 0) =~= bcd_rep(m as nat, 0) + rev_u8(nib_vals(digits@)),
            nibbles_valid(digits@),
            forall|i: int| 0 <= i < digits@.len() ==> nib_vals(digits@)[i] <= 9,
        decreases m,
    {
        let ghost pre = nib_vals(digits@);
        let d = (m % 10) as u8;
        digits.push(Nibble::new(d));
        proof {
            assert(nib_vals(digits@) =~= pre.push(d));
            assert(rev_u8(pre.push(d)) =~= seq![d] + rev_u8(pre));
            assert(bcd_rep(m as nat, 0) == bcd_rep((m / 10) as nat, 0).push(d));
            assert(bcd_rep((m / 10) as nat, 0) + (seq![d] + rev_u8(pre)) =~= (bcd_rep(
                (m / 10) as nat,
                0,
            ).push(d)) + rev_u8(pre));
        }
        m = m / 10;
    }
    proof {
        assert(bcd_rep(0, 0) + rev_u8(nib_vals(digits@)) =~= rev_u8(nib_vals(digits@)));
        lemma_bcd_rep_digits(n as nat, 0);
        assert(digits@.len() == bcd_rep(n as nat, 0).len());
        lemma_bcd_rep_narrow(n as nat, digits@.len() as nat);
    }
    while digits.len() < min_width as usize
        invariant
            rev_u8(nib_vals(digits@)) == bcd_rep(n as nat, digits@.len() as nat),
            digits@.len() >= bcd_rep(n as nat, 0).len(),
            digits@.len() <= min_width || digits@.len() == bcd_rep(n as nat, 0).len(),
            nibbles_valid(digits@),
            forall|i: int| 0 <= i < digits@.len() ==> nib_vals(digits@)[i] <= 9,
        decreases min_width - digits@.len(),
    {
        let ghost pre = nib_vals(digits@);
        let ghost k = digits@.len() as nat;
        digits.push(Nibble::new(0));
        proof {
            lemma_bcd_rep_widen(n as nat, k);
            assert(nib_vals(digits@) =~= pre.push(0u8));
            assert(rev_u8(pre.push(0u8)) =~= seq![0u8] + rev_u8(pre));
        }
    }
    proof {
        if (min_width as nat) < digits@.len() as nat {
            assert(digits@.len() == bcd_rep(n as nat, 0).len());
            lemma_bcd_rep_narrow(n as nat, min_width as nat);
            lemma_bcd_rep_narrow(n as nat, digits@.len() as nat);
        }
    }
    // Emit the digits most-significant first.
    let mut r: Vec<Nibble> = Vec::new();
    let mut i: usize = digits.len();
    while i > 0
        invariant
            i <= digits@.len(),
            r@.len() == digits@.len() - i,
            forall|j: int|
                0 <= j < r@.len() ==> r@[j] == digits@[digits@.len() - 1 - j],
        decreases i,
    {
        i -= 1;
        r.push(digits[i]);
    }
    proof {
        assert(nib_vals(r@) =~= rev_u8(nib_vals(digits@)));
    }
    r
}

/// The reverse of a byte-value sequence.
pub open spec fn rev_u8(s: Seq<u8>) -> Seq<u8> {
    Seq::new(s.len(), |i: int| s[s.len() - 1 - i])
}

/// Convert a sequence of bits to a string of bytes, MSB first per byte.
///
/// The bit sequence must have a length divisible by 8; the original rejects
/// any other length.
pub fn bits_to_bytes(bits: &Vec<bool>) -> (r: Vec<u8>)
    requires
        bits@.len() % 8 == 0,
    ensures
        r@ == spec_bits_to_bytes(bits@),
        r@.len() == bits@.len() / 8,
{
    let mut r: Vec<u8> = Vec::new();
    let mut j: usize = 0;
    while j < bits.len() / 8
        invariant
            bits@.len() % 8 == 0,
            j <= bits@.len() / 8,
            r@.len() == j,
            forall|t: int| 0 <= t < r@.len() ==> r@[t] == spec_bits_to_bytes(bits@)[t],
        decreases bits@.len() / 8 - j,
    {
        let base = 8 * j;
        let mut s: u8 = 0;
        if bits[base] {
            s += 128;
        }
        if bits[base + 1] {
            s += 64;
        }
        if bits[base + 2] {
            s += 32;
        }
        if bits[base + 3] {
            s += 16;
        }
        if bits[base + 4] {
            s += 8;
        }
        if bits[base + 5] {
            s += 4;
        }
        if bits[base + 6] {
            s += 2;
        }
        if bits[base + 7] {
            s += 1;
        }
        proof {
            let chunk = bits@.subrange(8 * j, 8 * j + 8);
            assert(forall|k: int| 0 <= k < 8 ==> chunk[k] == bits@[8 * j + k]);
            assert(s == byte_of_bits(chunk));
        }
        r.push(s);
        j += 1;
    }
    proof {
        assert(r@ =~= spec_bits_to_bytes(bits@));
    }
    r
}

/// Repacking the bit stream of a byte string gives the bytes back.
pub proof fn lemma_bytes_bits_round_trip(bs: Seq<u8>)
    ensures
        spec_bits_of_bytes(bs).len() % 8 == 0,
        spec_bits_to_bytes(spec_bits_of_bytes(bs)) == bs,
{
    let bits = spec_bits_of_bytes(bs);
    assert forall|j: int| 0 <= j < bs.len() implies spec_bits_to_bytes(bits)[j] == bs[j] by {
        let chunk = bits.subrange(8 * j, 8 * j + 8);
        assert forall|k: int| 0 <= k < 8 implies #[trigger] chunk[k] == byte_bit(bs[j], k) by {
            lemma_mul_div_plus(j, k, 8);
        }
        let b = bs[j];
        assert(bit_val(b / 128 % 2 == 1) * 128 + bit_val(b / 64 % 2 == 1) * 64 + bit_val(
            b / 32 % 2 == 1,
        ) * 32 + bit_val(b / 16 % 2 == 1) * 16 + bit_val(b / 8 % 2 == 1) * 8 + bit_val(
            b / 4 % 2 == 1,
        ) * 4 + bit_val(b / 2 % 2 == 1) * 2 + bit_val(b % 2 == 1) == b) by (bit_vector);
    }
    assert(spec_bits_to_bytes(bits) =~= bs);
}

/// Each bit of a packed byte is the bit it was packed from.
pub proof fn lemma_byte_of_bits_bits(chunk: Seq<bool>)
    requires
        chunk.len() == 8,
    ensures
        forall|k: int| 0 <= k < 8 ==> #[trigger] byte_bit(byte_of_bits(chunk), k) == chunk[k],
{
    let b0 = bit_val(chunk[0]);
    let b1 = bit_val(chunk[1]);
    let b2 = bit_val(chunk[2]);
    let b3 = bit_val(chunk[3]);
    let b4 = bit_val(chunk[4]);
    let b5 = bit_val(chunk[5]);
    let b6 = bit_val(chunk[6]);
    let b7 = bit_val(chunk[7]);
    let v = byte_of_bits(chunk);
    assert(v == b0 * 128 + b1 * 64 + b2 * 32 + b3 * 16 + b4 * 8 + b5 * 4 + b6 * 2 + b7);
    assert(b0 <= 1 && b1 <= 1 && b2 <= 1 && b3 <= 1 && b4 <= 1 && b5 <= 1 && b6 <= 1 && b7 <= 1
        && v == b0 * 128 + b1 * 64 + b2 * 32 + b3 * 16 + b4 * 8 + b5 * 4 + b6 * 2 + b7 ==> v / 128
        % 2 == b0 && v / 64 % 2 == b1 && v / 32 % 2 == b2 && v / 16 % 2 == b3 && v / 8 % 2 == b4
        && v / 4 % 2 == b5 && v / 2 % 2 == b6 && v % 2 == b7) by (bit_vector);
}

/// Unpacking a packed bit stream gives the bits back.
pub proof fn lemma_bits_bytes_round_trip(bits: Seq<bool>)
    requires
        bits.len() % 8 == 0,
    ensures
        spec_bits_of_bytes(spec_bits_to_bytes(bits)) == bits,
{
    let bs = spec_bits_to_bytes(bits);
    assert forall|i: int| 0 <= i < bits.len() implies spec_bits_of_bytes(bs)[i] == bits[i] by {
        let j = i / 8;
        let k = i % 8;
        let chunk = bits.subrange(8 * j, 8 * j + 8);
        assert(8 * j + k == i) by (nonlinear_arith)
            requires
                j == i / 8,
                k == i % 8,
        ;
        lemma_byte_of_bits_bits(chunk);
        assert(chunk[k] == bits[i]);
        assert(spec_bits_of_bytes(bs)[i] == byte_bit(bs[j], k));
    }
    assert(spec_bits_of_bytes(bs) =~= bits);
}

/// The nibble stream of a byte string carries the byte string's bits.
pub proof fn lemma_nibble_bits_of_bytes(bs: Seq<u8>)
    ensures
        spec_nibble_bits(spec_to_nibbles(bs)) == spec_bits_of_bytes(bs),
{
    let ns = spec_to_nibbles(bs);
    assert forall|i: int|
        0 <= i < bs.len() * 8 implies spec_nibble_bits(ns)[i] == spec_bits_of_bytes(bs)[i] by {
        let q = i / 8;
        let r = i % 8;
        assert(i == 8 * q + r) by (nonlinear_arith)
            requires
                q == i / 8,
                r == i % 8,
        ;
        assert(i / 4 == 2 * q + r / 4 && (i / 4) / 2 == q && (i / 4) % 2 == r / 4 && i % 4 == r % 4)
            by (nonlinear_arith)
            requires
                i == 8 * q + r,
                0 <= r < 8,
                q >= 0,
        ;
        let b = bs[q];
        assert(forall|k: int| 0 <= k < 4 ==> #[trigger] nib_bit(b / 16, k) == byte_bit(b, k)) by {
            assert(b / 16 / 8 % 2 == b / 128 % 2 && b / 16 / 4 % 2 == b / 64 % 2 && b / 16 / 2 % 2
                == b / 32 % 2 && b / 16 % 2 == b / 16 % 2) by (bit_vector);
        }
        assert(forall|k: int| 0 <= k < 4 ==> #[trigger] nib_bit(b % 16, k) == byte_bit(b, k + 4))
            by {
            assert(b % 16 / 8 % 2 == b / 8 % 2 && b % 16 / 4 % 2 == b / 4 % 2 && b % 16 / 2 % 2 == b
                / 2 % 2 && b % 16 % 2 == b % 2) by (bit_vector);
        }
    }
    assert(spec_nibble_bits(ns) =~= spec_bits_of_bytes(bs));
}

/// Packing the nibble stream of a byte string gives the bytes back.
pub proof fn lemma_nibbles_round_trip(bs: Seq<u8>)
    ensures
        spec_to_nibbles(bs).len() % 2 == 0,
        spec_from_nibbles(spec_to_nibbles(bs)) == bs,
{
    let ns = spec_to_nibbles(bs);
    assert forall|i: int| 0 <= i < bs.len() implies spec_from_nibbles(ns)[i] == bs[i] by {
        assert((2 * i) % 2 == 0 && (2 * i) / 2 == i && (2 * i + 1) / 2 == i) by (nonlinear_arith);
        let b = bs[i];
        assert(b / 16 * 16 + b % 16 == b) by (bit_vector);
    }
    assert(spec_from_nibbles(ns) =~= bs);
}

/// A copy of `v[start..end]`.
pub fn copy_range(v: &Vec<u8>, start: usize, end: usize) -> (r: Vec<u8>)
    requires
        start <= end <= v@.len(),
    ensures
        r@ == v@.subrange(start as int, end as int),
{
    let mut r: Vec<u8> = Vec::new();
    let mut i: usize = start;
    while i < end
        invariant
            start <= i <= end <= v@.len(),
            r@.len() == i - start,
            forall|j: int| 0 <= j < r@.len() ==> r@[j] == v@[start + j],
        decreases end - i,
    {
        r.push(v[i]);
        i += 1;
    }
    proof {
        assert(r@ =~= v@.subrange(start as int, end as int));
    }
    r
}

/// A copy of `v[start..end]` for a nibble vector.
pub fn copy_nibble_range(v: &Vec<Nibble>, start: usize, end: usize) -> (r: Vec<Nibble>)
    requires
        start <= end <= v@.len(),
    ensures
        r@ == v@.subrange(start as int, end as int),
        nib_vals(r@) == nib_vals(v@).subrange(start as int, end as int),
{
    let mut r: Vec<Nibble> = Vec::new();
    let mut i: usize = start;
    while i < end
        invariant
            start <= i <= end <= v@.len(),
            r@.len() == i - start,
            forall|j: int| 0 <= j < r@.len() ==> r@[j] == v@[start + j],
        decreases end - i,
    {
        r.push(v[i]);
        i += 1;
    }
    proof {
        assert(r@ =~= v@.subrange(start as int, end as int));
        assert(nib_vals(r@) =~= nib_vals(v@).subrange(start as int, end as int));
    }
    r
}

/// Division and remainder of `b * a + k` by `b`, for `k` below `b`.
pub proof fn lemma_mul_div_plus(a: int, k: int, b: int)
    requires
        b > 0,
        0 <= k < b,
        a >= 0,
    ensures
        (b * a + k) / b == a,
        (b * a + k) % b == k,
{
    assert((b * a + k) / b == a && (b * a + k) % b == k) by (nonlinear_arith)
        requires
            b > 0,
            0 <= k < b,
            a >= 0,
    ;
}

/// Division and remainder of `b * a + t` by `b`, for any non-negative `t`.
pub proof fn lemma_div_plus_multiple(a: int, t: int, b: int)
    requires
        b > 0,
        a >= 0,
        t >= 0,
    ensures
        (b * a + t) / b == a + t / b,
        (b * a + t) % b == t % b,
{
    vstd::arithmetic::div_mod::lemma_fundamental_div_mod(t, b);
    vstd::arithmetic::div_mod::lemma_mod_bound(t, b);
    assert(b * a + t == b * (a + t / b) + t % b) by (nonlinear_arith)
        requires
            t == b * (t / b) + t % b,
    ;
    lemma_mul_div_plus(a + t / b, t % b, b);
}

/// Splitting the bytes a nibble stream packs to gives the nibbles back.
pub proof fn lemma_from_to_nibbles(ns: Seq<u8>)
    requires
        ns.len() % 2 == 0,
        forall|i: int| 0 <= i < ns.len() ==> ns[i] <= 15,
    ensures
        spec_to_nibbles(spec_from_nibbles(ns)) == ns,
{
    let bs = spec_from_nibbles(ns);
    assert forall|i: int| 0 <= i < ns.len() implies spec_to_nibbles(bs)[i] == ns[i] by {
        let j = i / 2;
        let r = i % 2;
        vstd::arithmetic::div_mod::lemma_fundamental_div_mod(i, 2);
        vstd::arithmetic::div_mod::lemma_mod_bound(i, 2);
        assert(i == 2 * j + r);
        let a = ns[2 * j];
        let c = ns[2 * j + 1];
        let b = bs[j];
        assert(a <= 15 && c <= 15 ==> ((a * 16 + c) as u8) / 16 == a && ((a * 16 + c) as u8) % 16
            == c) by (bit_vector);
    }
    assert(spec_to_nibbles(bs) =~= ns);
}

/// Padding to reach the next multiple of `alignment` after `n` bytes.
pub fn padding(n: usize, alignment: usize) -> (r: usize)
    requires
        alignment > 0,
    ensures
        r == spec_padding(n as int, alignment as int),
        r < alignment,
        (n as int + r) % (alignment as int) == 0,
{
    proof {
        lemma_padding_mod(n as int, alignment as int);
    }
    (alignment - (n % alignment)) % alignment
}

/// The padding makes the total a multiple of the alignment and stays below
/// it.
pub proof fn lemma_padding_mod(n: int, alignment: int)
    requires
        alignment > 0,
        n >= 0,
    ensures
        0 <= spec_padding(n, alignment) < alignment,
        (n + spec_padding(n, alignment)) % alignment == 0,
{
    let m = n % alignment;
    vstd::arithmetic::div_mod::lemma_mod_bound(n, alignment);
    vstd::arithmetic::div_mod::lemma_fundamental_div_mod(n, alignment);
    if m == 0 {
        vstd::arithmetic::div_mod::lemma_mod_self_0(alignment);
        assert(spec_padding(n, alignment) == 0);
        assert(n == alignment * (n / alignment));
        vstd::arithmetic::div_mod::lemma_mod_multiples_basic(n / alignment, alignment);
        assert(n / alignment * alignment == alignment * (n / alignment)) by (nonlinear_arith);
    } else {
        vstd::arithmetic::div_mod::lemma_small_mod((alignment - m) as nat, alignment as nat);
        assert(spec_padding(n, alignment) == alignment - m);
        assert(n + (alignment - m) == alignment * (n / alignment) + alignment);
        vstd::arithmetic::div_mod::lemma_mod_multiples_basic(n / alignment + 1, alignment);
        assert((n / alignment + 1) * alignment == alignment * (n / alignment) + alignment)
            by (nonlinear_arith);
    }
}

} // verus!
