//! Bit strings: the mathematical model that the codec is specified over.
//!
//! A bit string is a `Seq<bool>`, most significant digit first. Bytes and
//! symbols are both fixed-width groups of such a string.
use vstd::prelude::*;

verus! {

use vstd::arithmetic::power2::{pow2, lemma2_to64, lemma_pow2_unfold, lemma_pow2_pos, lemma_pow2_adds};
use vstd::arithmetic::div_mod::lemma_fundamental_div_mod_converse;
use vstd::bits::{lemma_u32_shl_is_mul, lemma_u32_shr_is_div};

/// The number whose big-endian binary digits are `s`.
pub open spec fn value(s: Seq<bool>) -> nat
    decreases s.len(),
{
    if s.len() == 0 {
        0
    } else {
        2 * value(s.drop_last()) + if s.last() { 1nat } else { 0nat }
    }
}

/// The `w` lowest binary digits of `v`, most significant first.
pub open spec fn to_bits(v: nat, w: nat) -> Seq<bool>
    decreases w,
{
    if w == 0 {
        Seq::empty()
    } else {
        to_bits(v / 2, (w - 1) as nat).push(v % 2 == 1)
    }
}

/// The bit string made of the `w` lowest digits of each of `vals`, in order.
pub open spec fn packed(vals: Seq<nat>, w: nat) -> Seq<bool>
    decreases vals.len(),
{
    if vals.len() == 0 {
        Seq::empty()
    } else {
        packed(vals.drop_last(), w) + to_bits(vals.last(), w)
    }
}

pub proof fn lemma_to_bits_len(v: nat, w: nat)
    ensures
        to_bits(v, w).len() == w,
    decreases w,
{
    if w > 0 {
        lemma_to_bits_len(v / 2, (w - 1) as nat);
    }
}

pub proof fn lemma_value_bound(s: Seq<bool>)
    ensures
        value(s) < pow2(s.len()),
    decreases s.len(),
{
    if s.len() == 0 {
        lemma2_to64();
    } else {
        lemma_value_bound(s.drop_last());
        lemma_pow2_unfold(s.len());
    }
}

/// Appending digits shifts the value of the prefix left by their count.
pub proof fn lemma_value_concat(a: Seq<bool>, b: Seq<bool>)
    ensures
        value(a + b) == value(a) * pow2(b.len()) + value(b),
    decreases b.len(),
{
    if b.len() == 0 {
        assert(a + b =~= a);
        lemma2_to64();
        assert(value(b) == 0);
        assert(value(a) * pow2(b.len()) == value(a));
    } else {
        let b0 = b.drop_last();
        assert((a + b).drop_last() =~= a + b0);
        assert((a + b).last() == b.last());
        lemma_value_concat(a, b0);
        lemma_pow2_unfold(b.len());
        let va = value(a);
        let p = pow2(b0.len());
        assert(2 * (va * p) == va * (2 * p)) by (nonlinear_arith);
        let l: nat = if b.last() { 1 } else { 0 };
        assert(value(a + b) == 2 * value(a + b0) + l);
        assert(value(b) == 2 * value(b0) + l);
        assert(pow2(b.len()) == 2 * p);
        assert(value(a + b0) == va * p + value(b0));
    }
}

/// The digits of `v` read back give `v` modulo the width's range.
pub proof fn lemma_value_to_bits(v: nat, w: nat)
    ensures
        value(to_bits(v, w)) == v % pow2(w),
    decreases w,
{
    lemma_to_bits_len(v, w);
    if w == 0 {
        lemma2_to64();
    } else {
        let w0 = (w - 1) as nat;
        lemma_value_to_bits(v / 2, w0);
        assert(to_bits(v, w).drop_last() =~= to_bits(v / 2, w0));
        lemma_pow2_unfold(w);
        lemma_pow2_pos(w0);
        let p = pow2(w0) as int;
        let h = (v / 2) as int;
        let q = h / p;
        let r = h % p;
        assert(h == p * q + r) by (nonlinear_arith)
            requires
                p > 0,
                q == h / p,
                r == h % p,
        ;
        assert(v as int == q * (2 * p) + (2 * r + v % 2)) by (nonlinear_arith)
            requires
                h == p * q + r,
                h == v / 2,
        ;
        lemma_fundamental_div_mod_converse(v as int, 2 * p, q, 2 * r + v % 2);
    }
}

/// Reading a bit string as a number and writing it back gives the same digits.
pub proof fn lemma_to_bits_value(s: Seq<bool>)
    ensures
        to_bits(value(s), s.len()) == s,
    decreases s.len(),
{
    if s.len() == 0 {
        assert(to_bits(value(s), 0) =~= s);
    } else {
        let s0 = s.drop_last();
        lemma_to_bits_value(s0);
        assert(value(s) / 2 == value(s0));
        assert(to_bits(value(s), s.len()) =~= s);
    }
}

pub proof fn lemma_packed_len(vals: Seq<nat>, w: nat)
    ensures
        packed(vals, w).len() == vals.len() * w,
    decreases vals.len(),
{
    if vals.len() > 0 {
        lemma_packed_len(vals.drop_last(), w);
        lemma_to_bits_len(vals.last(), w);
        assert((vals.len() - 1) * w + w == vals.len() * w) by (nonlinear_arith);
    }
}

/// The `i`-th group of `w` digits of a packed string holds `vals[i]`.
pub proof fn lemma_packed_chunk(vals: Seq<nat>, w: nat, i: int)
    requires
        0 <= i < vals.len(),
    ensures
        packed(vals, w).subrange(w * i, w * i + w) == to_bits(vals[i], w),
    decreases vals.len(),
{
    let n = vals.len() as int;
    let init = vals.drop_last();
    lemma_packed_len(init, w);
    lemma_to_bits_len(vals.last(), w);
    let p = packed(vals, w);
    if i == n - 1 {
        assert(w * i == (n - 1) * w) by (nonlinear_arith)
            requires
                i == n - 1,
        ;
        assert(p.subrange(w * i, w * i + w) =~= to_bits(vals[i], w));
    } else {
        lemma_packed_chunk(init, w, i);
        assert(w * i + w <= (n - 1) * w) by (nonlinear_arith)
            requires
                i < n - 1,
                w >= 0,
        ;
        assert(p.subrange(w * i, w * i + w) =~= packed(init, w).subrange(w * i, w * i + w));
    }
}

/// The mask that keeps the `n` lowest bits of a register.
pub open spec fn low_mask(n: u32) -> u32 {
    ((1u32 << n) - 1) as u32
}

/// Packing two runs of values one after the other packs each in turn.
pub proof fn lemma_packed_concat(x: Seq<nat>, y: Seq<nat>, w: nat)
    ensures
        packed(x + y, w) == packed(x, w) + packed(y, w),
    decreases y.len(),
{
    if y.len() == 0 {
        assert(x + y =~= x);
        assert(packed(x, w) + packed(y, w) =~= packed(x, w));
    } else {
        assert((x + y).drop_last() =~= x + y.drop_last());
        assert((x + y).last() == y.last());
        lemma_packed_concat(x, y.drop_last(), w);
        assert(packed(x + y, w) =~= packed(x, w) + packed(y, w));
    }
}

/// The values of the first `q` groups of `w` digits of `s`.
pub open spec fn group_values(s: Seq<bool>, w: nat, q: nat) -> Seq<nat> {
    Seq::new(q, |i: int| value(s.subrange(w * i, w * i + w)))
}

/// Packing the groups of a bit string back gives the string's prefix.
pub proof fn lemma_packed_groups(s: Seq<bool>, w: nat, q: nat)
    requires
        w * q <= s.len(),
    ensures
        packed(group_values(s, w, q), w) == s.subrange(0, (w * q) as int),
    decreases q,
{
    let g = group_values(s, w, q);
    if q == 0 {
        assert(w * q == 0) by (nonlinear_arith)
            requires
                q == 0,
        ;
        assert(packed(g, w) =~= s.subrange(0, (w * q) as int));
    } else {
        let q0 = (q - 1) as nat;
        assert(w * q0 + w == w * q && w * q0 <= w * q) by (nonlinear_arith)
            requires
                q0 + 1 == q,
        ;
        lemma_packed_groups(s, w, q0);
        assert(g.drop_last() =~= group_values(s, w, q0));
        let last = s.subrange((w * q0) as int, (w * q0 + w) as int);
        assert(g.last() == value(last));
        lemma_to_bits_value(last);
        assert(s.subrange(0, (w * q0) as int) + last =~= s.subrange(0, (w * q) as int));
    }
}

/// Keeping the `w` lowest digits of `v` before writing them out changes nothing.
pub proof fn lemma_to_bits_low(v: nat, w: nat)
    ensures
        to_bits(v % pow2(w), w) == to_bits(v, w),
{
    lemma_to_bits_len(v, w);
    lemma_to_bits_value(to_bits(v, w));
    lemma_value_to_bits(v, w);
}

/// Masking a register keeps its value modulo the mask's range.
pub proof fn lemma_mask_is_mod(x: u32, n: u32)
    requires
        n < 32,
    ensures
        (x & low_mask(n)) as nat == x as nat % pow2(n as nat),
        x & low_mask(n) <= low_mask(n),
{
    lemma_low_mask_pow2(n);
    vstd::bits::lemma_u32_low_bits_mask_is_mod(x, n as nat);
    assert(vstd::bits::low_bits_mask(n as nat) as u32 == low_mask(n));
    assert(x & low_mask(n) <= low_mask(n)) by (bit_vector);
}

proof fn lemma_low_mask_pow2(n: u32)
    requires
        n < 32,
    ensures
        (1u32 << n) as nat == pow2(n as nat),
        low_mask(n) as nat + 1 == pow2(n as nat),
{
    lemma_pow2_pos(n as nat);
    vstd::bits::lemma_u32_pow2_no_overflow(n as nat);
    lemma_u32_shl_is_mul(1u32, n);
    assert(1u32 << n >= 1) by (bit_vector)
        requires
            n < 32,
    ;
}

/// A register whose `bp` low bits hold the pending digits `pending` takes `w`
/// more digits from `x`: its `bp + w` low bits then hold both, in order.
pub proof fn lemma_register_push(buff: u32, bp: u32, x: u32, w: u32, pending: Seq<bool>)
    requires
        bp + w <= 24,
        pending.len() == bp,
        (buff & low_mask(bp)) as nat == value(pending),
        x & low_mask(w) == x,
    ensures
        (((buff << w) | x) & low_mask((bp + w) as u32)) as nat == value(
            pending + to_bits(x as nat, w as nat),
        ),
{
    let v = buff & low_mask(bp);
    let n = (bp + w) as u32;
    assert(((buff << w) | x) & low_mask(n) == (v << w) | x) by (bit_vector)
        requires
            v == buff & low_mask(bp),
            x & low_mask(w) == x,
            n == bp + w,
            n <= 24,
    ;
    assert((v << w) | x == (v << w) + x) by (bit_vector)
        requires
            x & low_mask(w) == x,
            w <= 24,
    ;
    lemma_low_mask_pow2(w);
    assert(x < pow2(w as nat)) by {
        assert(x & low_mask(w) <= low_mask(w)) by (bit_vector);
    }
    lemma_value_bound(pending);
    lemma_pow2_adds(bp as nat, w as nat);
    assert(v * pow2(w as nat) < pow2(n as nat)) by (nonlinear_arith)
        requires
            v < pow2(bp as nat),
            pow2(n as nat) == pow2(bp as nat) * pow2(w as nat),
            pow2(w as nat) > 0,
    ;
    vstd::bits::lemma_u32_pow2_no_overflow(n as nat);
    lemma_u32_shl_is_mul(v, w);
    lemma_value_concat(pending, to_bits(x as nat, w as nat));
    lemma_to_bits_len(x as nat, w as nat);
    lemma_value_to_bits(x as nat, w as nat);
    assert(x as nat % pow2(w as nat) == x as nat) by {
        vstd::arithmetic::div_mod::lemma_small_mod(x as nat, pow2(w as nat));
    }
}

/// A register whose `bp` low bits hold the pending digits `pending` gives up
/// the `w` oldest of them; the rest stay pending in its low bits.
pub proof fn lemma_register_take(buff: u32, bp: u32, w: u32, pending: Seq<bool>)
    requires
        w <= bp <= 24,
        pending.len() == bp,
        (buff & low_mask(bp)) as nat == value(pending),
    ensures
        ((buff >> ((bp - w) as u32)) & low_mask(w)) as nat == value(pending.subrange(0, w as int)),
        (buff & low_mask((bp - w) as u32)) as nat == value(pending.subrange(w as int, bp as int)),
{
    let k = (bp - w) as u32;
    let v = buff & low_mask(bp);
    assert((buff >> k) & low_mask(w) == v >> k && buff & low_mask(k) == v & low_mask(k))
        by (bit_vector)
        requires
            v == buff & low_mask(bp),
            k + w == bp,
            bp <= 24,
    ;
    lemma_low_mask_pow2(k);
    vstd::bits::lemma_u32_low_bits_mask_is_mod(v, k as nat);
    assert(vstd::bits::low_bits_mask(k as nat) as u32 == low_mask(k));
    lemma_u32_shr_is_div(v, k);
    let hi = pending.subrange(0, w as int);
    let lo = pending.subrange(w as int, bp as int);
    assert(pending =~= hi + lo);
    lemma_value_concat(hi, lo);
    lemma_value_bound(lo);
    lemma_fundamental_div_mod_converse(
        v as int,
        pow2(k as nat) as int,
        value(hi) as int,
        value(lo) as int,
    );
}

} // verus!
