//! The arithmetic engine over a most-significant-first sequence of limbs.
//!
//! Limbs are held as `u128` values, each bounded by the native width that the
//! plan gives its position; carries and borrows run from the last (least
//! significant) limb to the first.
use vstd::arithmetic::div_mod::*;
use vstd::arithmetic::mul::*;
use vstd::arithmetic::power2::*;
use vstd::prelude::*;

use crate::bytes::{
    le_bytes, le_value, lemma_le_bytes_len, lemma_le_bytes_value, lemma_le_value_bound,
    lemma_le_value_bytes, lemma_le_value_concat, lemma_pow2_128, push_le_bytes, read_le,
};
use crate::plan::{all_limb_widths, is_limb_width, total_bits};

verus! {

/// Each limb is within the range of the native width at its position.
pub open spec fn limbs_fit(ls: Seq<u128>, ws: Seq<u32>) -> bool {
    &&& ls.len() == ws.len()
    &&& all_limb_widths(ws)
    &&& forall|i: int| 0 <= i < ls.len() ==> (#[trigger] ls[i]) < pow2(ws[i] as nat)
}

/// The number the limbs stand for: each limb weighted by two to the power of the
/// widths of all less significant limbs.
pub open spec fn limbs_value(ls: Seq<u128>, ws: Seq<u32>) -> nat
    decreases ls.len(),
{
    if ls.len() == 0 || ws.len() == 0 {
        0
    } else {
        ls[0] as nat * pow2(total_bits(ws.skip(1))) + limbs_value(ls.skip(1), ws.skip(1))
    }
}

/// The largest value a limb of width `w` holds.
pub open spec fn limb_max_spec(w: u32) -> nat {
    (pow2(w as nat) - 1) as nat
}

/// A limb width's power of two fits one past `u128::MAX`.
pub proof fn lemma_limb_pow2(w: u32)
    requires
        is_limb_width(w),
    ensures
        pow2(w as nat) <= pow2(128),
        pow2(w as nat) >= 256,
        pow2(w as nat) == 0x1_0000_0000_0000_0000_0000_0000_0000_0000 || pow2(w as nat)
            <= 0x1_0000_0000_0000_0000,
{
    lemma2_to64();
    lemma_pow2_128();
}

/// The value of a tail, with one more limb in front.
pub proof fn lemma_value_suffix(ls: Seq<u128>, ws: Seq<u32>, i: int)
    requires
        ls.len() == ws.len(),
        0 <= i < ls.len(),
    ensures
        limbs_value(ls.skip(i), ws.skip(i)) == ls[i] as nat * pow2(total_bits(ws.skip(i + 1)))
            + limbs_value(ls.skip(i + 1), ws.skip(i + 1)),
        total_bits(ws.skip(i)) == ws[i] as nat + total_bits(ws.skip(i + 1)),
{
    assert(ls.skip(i).skip(1) =~= ls.skip(i + 1));
    assert(ws.skip(i).skip(1) =~= ws.skip(i + 1));
}

/// Fitting limbs stand for a number below two to the power of their total width.
pub proof fn lemma_value_bound(ls: Seq<u128>, ws: Seq<u32>)
    requires
        limbs_fit(ls, ws),
    ensures
        limbs_value(ls, ws) < pow2(total_bits(ws)),
    decreases ls.len(),
{
    if ls.len() > 0 {
        let t = total_bits(ws.skip(1));
        assert(limbs_fit(ls.skip(1), ws.skip(1)));
        lemma_value_bound(ls.skip(1), ws.skip(1));
        lemma_pow2_adds(ws[0] as nat, t);
        assert(ls[0] < pow2(ws[0] as nat));
        assert((ls[0] as nat) * pow2(t) <= (pow2(ws[0] as nat) - 1) * pow2(t)) by {
            lemma_mul_inequality(ls[0] as int, pow2(ws[0] as nat) - 1, pow2(t) as int);
        }
        assert((pow2(ws[0] as nat) - 1) * pow2(t) == pow2(ws[0] as nat) * pow2(t) - pow2(t)) by {
            lemma_mul_is_distributive_sub_other_way(pow2(t) as int, pow2(ws[0] as nat) as int, 1);
        }
    } else {
        lemma_pow2_pos(0);
    }
}

/// Computes the largest value of a limb of width `w`.
pub fn limb_max(w: u32) -> (r: u128)
    requires
        is_limb_width(w),
    ensures
        r as nat == limb_max_spec(w),
{
    proof {
        lemma2_to64();
        lemma_pow2_128();
    }
    if w == 8 {
        0xff
    } else if w == 16 {
        0xffff
    } else if w == 32 {
        0xffff_ffff
    } else if w == 64 {
        0xffff_ffff_ffff_ffff
    } else {
        0xffff_ffff_ffff_ffff_ffff_ffff_ffff_ffff
    }
}

/// Adds two limbs and an incoming carry within a limb whose largest value is `max`.
pub fn limb_add(a: u128, b: u128, carry: bool, max: u128) -> (r: (u128, bool))
    requires
        a <= max,
        b <= max,
    ensures
        r.0 <= max,
        r.0 as int + (if r.1 { max as int + 1 } else { 0 }) == a as int + b as int + (if carry {
            1int
        } else {
            0
        }),
{
    let (s, c1) = if b <= max - a {
        (a + b, false)
    } else {
        (b - (max - a) - 1, true)
    };
    if carry {
        if s == max {
            (0, true)
        } else {
            (s + 1, c1)
        }
    } else {
        (s, c1)
    }
}

/// Subtracts a limb and an incoming borrow within a limb whose largest value is `max`.
pub fn limb_sub(a: u128, b: u128, borrow: bool, max: u128) -> (r: (u128, bool))
    requires
        a <= max,
        b <= max,
    ensures
        r.0 <= max,
        r.0 as int - (if r.1 { max as int + 1 } else { 0 }) == a as int - b as int - (if borrow {
            1int
        } else {
            0
        }),
{
    let (d, c1) = if a >= b {
        (a - b, false)
    } else {
        ((max - b) + a + 1, true)
    };
    if borrow {
        if d == 0 {
            (max, true)
        } else {
            (d - 1, c1)
        }
    } else {
        (d, c1)
    }
}

/// One step of carry propagation, scaled by the weight `p` of the limb.
proof fn lemma_scaled_step(s: int, c: int, x: int, y: int, cin: int, m: int, p: int)
    requires
        s + c * m == x + y + cin,
    ensures
        s * p + c * (m * p) == x * p + y * p + cin * p,
{
    assert(s * p + c * (m * p) == x * p + y * p + cin * p) by (nonlinear_arith)
        requires
            s + c * m == x + y + cin,
    ;
}

/// One step of borrow propagation, scaled by the weight `p` of the limb.
proof fn lemma_scaled_borrow(d: int, c: int, x: int, y: int, bin: int, m: int, p: int)
    requires
        d - c * m == x - y - bin,
    ensures
        d * p - c * (m * p) == x * p - y * p - bin * p,
{
    assert(d * p - c * (m * p) == x * p - y * p - bin * p) by (nonlinear_arith)
        requires
            d - c * m == x - y - bin,
    ;
}

/// Reads off the remainder and quotient of `x` by `d` from `x == q * d + r`.
proof fn lemma_div_mod_of(x: int, d: int, q: int, r: int)
    requires
        d > 0,
        0 <= r < d,
        x == q * d + r,
    ensures
        x % d == r,
        x / d == q,
{
    lemma_fundamental_div_mod_converse(x, d, q, r);
}

/// A sequence of `n` zero limbs.
pub fn zero_limbs(n: usize) -> (r: Vec<u128>)
    ensures
        r@ == Seq::new(n as nat, |i: int| 0u128),
{
    let mut r: Vec<u128> = Vec::new();
    while r.len() < n
        invariant
            r.len() <= n,
            r@ == Seq::new(r.len() as nat, |i: int| 0u128),
        decreases n - r.len(),
    {
        r.push(0);
        assert(r@ =~= Seq::new(r.len() as nat, |i: int| 0u128));
    }
    r
}

/// Zero limbs fit any plan of native widths.
pub proof fn lemma_zero_fits(ws: Seq<u32>)
    requires
        all_limb_widths(ws),
    ensures
        limbs_fit(Seq::new(ws.len(), |i: int| 0u128), ws),
{
    assert forall|i: int| 0 <= i < ws.len() implies 0 < pow2(ws[i] as nat) by {
        lemma_pow2_pos(ws[i] as nat);
    }
}

/// Adds two limb sequences of one plan: the sum modulo two to the total width, and
/// whether a carry left the most significant limb.
pub fn add_limbs(a: &Vec<u128>, b: &Vec<u128>, ws: &Vec<u32>) -> (r: (Vec<u128>, bool))
    requires
        limbs_fit(a@, ws@),
        limbs_fit(b@, ws@),
    ensures
        limbs_fit(r.0@, ws@),
        limbs_value(r.0@, ws@) == (limbs_value(a@, ws@) + limbs_value(b@, ws@)) % pow2(
            total_bits(ws@),
        ),
        r.1 == (limbs_value(a@, ws@) + limbs_value(b@, ws@) >= pow2(total_bits(ws@))),
{
    let n = ws.len();
    let mut r = zero_limbs(n);
    proof {
        lemma_zero_fits(ws@);
        assert(r@.skip(n as int) =~= Seq::<u128>::empty());
        assert(a@.skip(n as int) =~= Seq::<u128>::empty());
        assert(b@.skip(n as int) =~= Seq::<u128>::empty());
        assert(ws@.skip(n as int) =~= Seq::<u32>::empty());
    }
    let mut carry = false;
    let mut i = n;
    while i > 0
        invariant
            i <= n,
            n == ws.len(),
            limbs_fit(a@, ws@),
            limbs_fit(b@, ws@),
            limbs_fit(r@, ws@),
            limbs_value(r@.skip(i as int), ws@.skip(i as int)) + (if carry {
                pow2(total_bits(ws@.skip(i as int)))
            } else {
                0
            }) == limbs_value(a@.skip(i as int), ws@.skip(i as int)) + limbs_value(
                b@.skip(i as int),
                ws@.skip(i as int),
            ),
        decreases i,
    {
        i -= 1;
        let w = ws[i];
        proof {
            lemma_limb_pow2(w);
        }
        let max = limb_max(w);
        let (s, c) = limb_add(a[i], b[i], carry, max);
        let ghost old_r = r@;
        let ghost cin = carry;
        r.set(i, s);
        carry = c;
        proof {
            let t = total_bits(ws@.skip(i + 1));
            assert(r@.skip(i + 1) =~= old_r.skip(i + 1));
            lemma_value_suffix(r@, ws@, i as int);
            lemma_value_suffix(a@, ws@, i as int);
            lemma_value_suffix(b@, ws@, i as int);
            lemma_pow2_adds(w as nat, t);
            lemma_scaled_step(
                s as int,
                if c { 1 } else { 0 },
                a[i as int] as int,
                b[i as int] as int,
                if cin { 1 } else { 0 },
                pow2(w as nat) as int,
                pow2(t) as int,
            );
        }
    }
    proof {
        assert(r@.skip(0) =~= r@);
        assert(a@.skip(0) =~= a@);
        assert(b@.skip(0) =~= b@);
        assert(ws@.skip(0) =~= ws@);
        lemma_value_bound(r@, ws@);
        let sum = limbs_value(a@, ws@) + limbs_value(b@, ws@);
        let v = limbs_value(r@, ws@);
        let m = pow2(total_bits(ws@));
        lemma_div_mod_of(sum as int, m as int, if carry { 1 } else { 0 }, v as int);
    }
    (r, carry)
}

/// Subtracts one limb sequence from another of the same plan: the difference modulo
/// two to the total width, and whether a borrow left the most significant limb.
pub fn sub_limbs(a: &Vec<u128>, b: &Vec<u128>, ws: &Vec<u32>) -> (r: (Vec<u128>, bool))
    requires
        limbs_fit(a@, ws@),
        limbs_fit(b@, ws@),
    ensures
        limbs_fit(r.0@, ws@),
        limbs_value(r.0@, ws@) == (limbs_value(a@, ws@) - limbs_value(b@, ws@)) % (pow2(
            total_bits(ws@),
        ) as int),
        r.1 == (limbs_value(a@, ws@) < limbs_value(b@, ws@)),
{
    let n = ws.len();
    let mut r = zero_limbs(n);
    proof {
        lemma_zero_fits(ws@);
        assert(r@.skip(n as int) =~= Seq::<u128>::empty());
        assert(a@.skip(n as int) =~= Seq::<u128>::empty());
        assert(b@.skip(n as int) =~= Seq::<u128>::empty());
        assert(ws@.skip(n as int) =~= Seq::<u32>::empty());
    }
    let mut borrow = false;
    let mut i = n;
    while i > 0
        invariant
            i <= n,
            n == ws.len(),
            limbs_fit(a@, ws@),
            limbs_fit(b@, ws@),
            limbs_fit(r@, ws@),
            limbs_value(r@.skip(i as int), ws@.skip(i as int)) - (if borrow {
                pow2(total_bits(ws@.skip(i as int)))
            } else {
                0
            }) == limbs_value(a@.skip(i as int), ws@.skip(i as int)) - limbs_value(
                b@.skip(i as int),
                ws@.skip(i as int),
            ),
        decreases i,
    {
        i -= 1;
        let w = ws[i];
        proof {
            lemma_limb_pow2(w);
        }
        let max = limb_max(w);
        let (d, c) = limb_sub(a[i], b[i], borrow, max);
        let ghost old_r = r@;
        let ghost bin = borrow;
        r.set(i, d);
        borrow = c;
        proof {
            let t = total_bits(ws@.skip(i + 1));
            assert(r@.skip(i + 1) =~= old_r.skip(i + 1));
            lemma_value_suffix(r@, ws@, i as int);
            lemma_value_suffix(a@, ws@, i as int);
            lemma_value_suffix(b@, ws@, i as int);
            lemma_pow2_adds(w as nat, t);
            lemma_scaled_borrow(
                d as int,
                if c { 1 } else { 0 },
                a[i as int] as int,
                b[i as int] as int,
                if bin { 1 } else { 0 },
                pow2(w as nat) as int,
                pow2(t) as int,
            );
        }
    }
    proof {
        assert(r@.skip(0) =~= r@);
        assert(a@.skip(0) =~= a@);
        assert(b@.skip(0) =~= b@);
        assert(ws@.skip(0) =~= ws@);
        lemma_value_bound(r@, ws@);
        lemma_value_bound(a@, ws@);
        lemma_value_bound(b@, ws@);
        let diff = limbs_value(a@, ws@) - limbs_value(b@, ws@);
        let v = limbs_value(r@, ws@);
        let m = pow2(total_bits(ws@));
        lemma_div_mod_of(diff, m as int, if borrow { -1 } else { 0 }, v as int);
    }
    (r, borrow)
}

/// Equal leading limbs cancel out of a difference of values.
pub proof fn lemma_equal_prefix(a: Seq<u128>, b: Seq<u128>, ws: Seq<u32>, i: int)
    requires
        a.len() == ws.len(),
        b.len() == ws.len(),
        0 <= i <= ws.len(),
        forall|j: int| 0 <= j < i ==> a[j] == b[j],
    ensures
        limbs_value(a, ws) - limbs_value(b, ws) == limbs_value(a.skip(i), ws.skip(i))
            - limbs_value(b.skip(i), ws.skip(i)),
    decreases i,
{
    if i == 0 {
        assert(a.skip(0) =~= a);
        assert(b.skip(0) =~= b);
        assert(ws.skip(0) =~= ws);
    } else {
        lemma_equal_prefix(a, b, ws, i - 1);
        lemma_value_suffix(a, ws, i - 1);
        lemma_value_suffix(b, ws, i - 1);
    }
}

/// The first differing limb decides the order of two values.
proof fn lemma_first_difference(a: Seq<u128>, b: Seq<u128>, ws: Seq<u32>, i: int)
    requires
        limbs_fit(a, ws),
        limbs_fit(b, ws),
        0 <= i < ws.len(),
        forall|j: int| 0 <= j < i ==> a[j] == b[j],
        a[i] < b[i],
    ensures
        limbs_value(a, ws) < limbs_value(b, ws),
{
    lemma_equal_prefix(a, b, ws, i);
    lemma_value_suffix(a, ws, i);
    lemma_value_suffix(b, ws, i);
    let p = pow2(total_bits(ws.skip(i + 1)));
    assert(limbs_fit(a.skip(i + 1), ws.skip(i + 1)));
    lemma_value_bound(a.skip(i + 1), ws.skip(i + 1));
    assert((a[i] as int + 1) * p <= (b[i] as int) * p) by {
        lemma_mul_inequality(a[i] as int + 1, b[i] as int, p as int);
    }
    lemma_mul_is_distributive_add_other_way(p as int, a[i] as int, 1);
}

/// Compares the values of two limb sequences of one plan.
pub fn cmp_limbs(a: &Vec<u128>, b: &Vec<u128>, ws: &Vec<u32>) -> (r: core::cmp::Ordering)
    requires
        limbs_fit(a@, ws@),
        limbs_fit(b@, ws@),
    ensures
        (r == core::cmp::Ordering::Less) == (limbs_value(a@, ws@) < limbs_value(b@, ws@)),
        (r == core::cmp::Ordering::Equal) == (limbs_value(a@, ws@) == limbs_value(b@, ws@)),
        (r == core::cmp::Ordering::Greater) == (limbs_value(a@, ws@) > limbs_value(b@, ws@)),
{
    let n = ws.len();
    let mut i: usize = 0;
    while i < n
        invariant
            i <= n,
            n == ws.len(),
            limbs_fit(a@, ws@),
            limbs_fit(b@, ws@),
            forall|j: int| 0 <= j < i ==> a@[j] == b@[j],
        decreases n - i,
    {
        if a[i] < b[i] {
            proof {
                lemma_first_difference(a@, b@, ws@, i as int);
            }
            return core::cmp::Ordering::Less;
        } else if a[i] > b[i] {
            proof {
                lemma_first_difference(b@, a@, ws@, i as int);
            }
            return core::cmp::Ordering::Greater;
        }
        i += 1;
    }
    proof {
        lemma_equal_prefix(a@, b@, ws@, n as int);
        assert(a@.skip(n as int) =~= Seq::<u128>::empty());
        assert(b@.skip(n as int) =~= Seq::<u128>::empty());
    }
    core::cmp::Ordering::Equal
}

/// Native limb widths add up to a whole number of bytes.
pub proof fn lemma_total_bits_bytes(ws: Seq<u32>)
    requires
        all_limb_widths(ws),
    ensures
        total_bits(ws) % 8 == 0,
    decreases ws.len(),
{
    if ws.len() > 0 {
        lemma_total_bits_bytes(ws.skip(1));
    }
}

/// The widths after position `i` cover a whole number of bytes, and no more than all.
pub proof fn lemma_total_bits_skip(ws: Seq<u32>, i: int)
    requires
        all_limb_widths(ws),
        0 <= i <= ws.len(),
    ensures
        total_bits(ws.skip(i)) <= total_bits(ws),
        total_bits(ws.skip(i)) % 8 == 0,
    decreases i,
{
    assert(all_limb_widths(ws.skip(i)));
    lemma_total_bits_bytes(ws.skip(i));
    if i == 0 {
        assert(ws.skip(0) =~= ws);
    } else {
        lemma_total_bits_skip(ws, i - 1);
        assert(ws.skip(i - 1).skip(1) =~= ws.skip(i));
    }
}

/// Writes the limbs as a little-endian byte sequence of the plan's byte length.
pub fn limbs_to_le_bytes(ls: &Vec<u128>, ws: &Vec<u32>) -> (r: Vec<u8>)
    requires
        limbs_fit(ls@, ws@),
    ensures
        r@ == le_bytes(limbs_value(ls@, ws@), total_bits(ws@) / 8),
        r@.len() * 8 == total_bits(ws@),
{
    let n = ws.len();
    let mut out: Vec<u8> = Vec::new();
    proof {
        assert(ls@.skip(n as int) =~= Seq::<u128>::empty());
        assert(ws@.skip(n as int) =~= Seq::<u32>::empty());
    }
    let mut i = n;
    while i > 0
        invariant
            i <= n,
            n == ws.len(),
            limbs_fit(ls@, ws@),
            le_value(out@) == limbs_value(ls@.skip(i as int), ws@.skip(i as int)),
            out@.len() * 8 == total_bits(ws@.skip(i as int)),
        decreases i,
    {
        i -= 1;
        let w = ws[i];
        let x = ls[i];
        let ghost before = out@;
        push_le_bytes(x, (w / 8) as usize, &mut out);
        proof {
            let chunk = le_bytes(x as nat, (w / 8) as nat);
            lemma_le_bytes_len(x as nat, (w / 8) as nat);
            lemma_le_bytes_value(x as nat, (w / 8) as nat);
            lemma_small_mod(x as nat, pow2(w as nat));
            lemma_le_value_concat(before, chunk);
            lemma_value_suffix(ls@, ws@, i as int);
            assert(8 * ((w / 8) as nat) == w as nat);
            let t = total_bits(ws@.skip(i + 1));
            assert(8 * before.len() == t);
            lemma_mul_is_commutative(pow2(t) as int, x as int);
        }
    }
    proof {
        assert(ls@.skip(0) =~= ls@);
        assert(ws@.skip(0) =~= ws@);
        lemma_value_bound(ls@, ws@);
        lemma_le_value_bytes(out@);
    }
    out
}

/// Reads limbs of the plan `ws` from a little-endian byte sequence of its byte length.
pub fn limbs_from_le_bytes(bytes: &Vec<u8>, ws: &Vec<u32>) -> (r: Vec<u128>)
    requires
        all_limb_widths(ws@),
        bytes@.len() * 8 == total_bits(ws@),
    ensures
        limbs_fit(r@, ws@),
        limbs_value(r@, ws@) == le_value(bytes@),
{
    let n = ws.len();
    let mut r = zero_limbs(n);
    proof {
        lemma_zero_fits(ws@);
        assert(r@.skip(n as int) =~= Seq::<u128>::empty());
        assert(ws@.skip(n as int) =~= Seq::<u32>::empty());
        assert(bytes@.take(0) =~= Seq::<u8>::empty());
    }
    let mut off: usize = 0;
    let mut i = n;
    while i > 0
        invariant
            i <= n,
            n == ws.len(),
            all_limb_widths(ws@),
            bytes@.len() * 8 == total_bits(ws@),
            limbs_fit(r@, ws@),
            off * 8 == total_bits(ws@.skip(i as int)),
            limbs_value(r@.skip(i as int), ws@.skip(i as int)) == le_value(bytes@.take(off as int)),
        decreases i,
    {
        i -= 1;
        let w = ws[i];
        let k = (w / 8) as usize;
        proof {
            lemma_value_suffix(r@, ws@, i as int);
            lemma_total_bits_skip(ws@, i as int);
            assert((off + k) * 8 == total_bits(ws@.skip(i as int)));
            assert(off + k <= bytes@.len());
        }
        let x = read_le(bytes, off, k);
        let ghost old_r = r@;
        r.set(i, x);
        proof {
            let chunk = bytes@.subrange(off as int, off + k);
            lemma_le_value_bound(chunk);
            assert(8 * chunk.len() == w as nat);
            assert(r@.skip(i + 1) =~= old_r.skip(i + 1));
            lemma_value_suffix(r@, ws@, i as int);
            assert(bytes@.take(off + k) =~= bytes@.take(off as int) + chunk);
            lemma_le_value_concat(bytes@.take(off as int), chunk);
            assert(bytes@.take(off as int).len() == off);
            assert(8 * off == total_bits(ws@.skip(i + 1)));
            lemma_mul_is_commutative(pow2(total_bits(ws@.skip(i + 1))) as int, x as int);
        }
        off = off + k;
    }
    proof {
        assert(r@.skip(0) =~= r@);
        assert(ws@.skip(0) =~= ws@);
        assert(bytes@.take(off as int) =~= bytes@);
    }
    r
}

/// Limbs of the plan `ws` holding `v` reduced modulo two to the plan's width.
pub fn limbs_from_u128(v: u128, ws: &Vec<u32>, nbytes: usize) -> (r: Vec<u128>)
    requires
        all_limb_widths(ws@),
        nbytes * 8 == total_bits(ws@),
    ensures
        limbs_fit(r@, ws@),
        limbs_value(r@, ws@) == v as nat % pow2(total_bits(ws@)),
{
    let mut bytes: Vec<u8> = Vec::new();
    push_le_bytes(v, nbytes, &mut bytes);
    proof {
        assert(bytes@ =~= le_bytes(v as nat, nbytes as nat));
        lemma_le_bytes_len(v as nat, nbytes as nat);
        lemma_le_bytes_value(v as nat, nbytes as nat);
    }
    limbs_from_le_bytes(&bytes, ws)
}

/// A copy of a limb sequence.
pub fn copy_limbs(a: &Vec<u128>) -> (r: Vec<u128>)
    ensures
        r@ == a@,
{
    let r = a.clone();
    assert(r@ =~= a@);
    r
}

/// Taking one more bit of a byte, from the top: the bits from position `k` up are
/// twice those from `k + 1` up, plus the bit at `k`.
proof fn lemma_next_bit(b: u32, k: u32)
    requires
        b < 256,
        k < 8,
    ensures
        b >> k == 2 * (b >> ((k + 1) as u32)) + ((b >> k) & 1),
        (b >> k) & 1 <= 1,
        b >> 8u32 == 0,
        b >> k <= b,
{
    assert(b >> k == 2 * (b >> ((k + 1) as u32)) + ((b >> k) & 1)) by (bit_vector)
        requires
            b < 256,
            k < 8,
    ;
    assert((b >> k) & 1 <= 1) by (bit_vector);
    assert(b >> 8u32 == 0) by (bit_vector)
        requires
            b < 256,
    ;
    assert(b >> k <= b) by (bit_vector);
}

/// One doubling step of the multiplier's prefix, seen from the product.
proof fn lemma_mul_step(a: nat, p: nat, bit: nat)
    ensures
        a * (2 * p + bit) == 2 * (a * p) + a * bit,
        a * p <= a * (2 * p + bit),
{
    assert(a * (2 * p + bit) == 2 * (a * p) + a * bit) by (nonlinear_arith);
    assert(a * p <= a * (2 * p + bit)) by (nonlinear_arith);
}

/// Multiplies by shift-and-add over the bits of `b`, most significant first: the
/// accumulator is doubled at each bit and `a` is added where the bit is set; a carry
/// out of any step marks overflow.
pub fn mul_limbs(a: &Vec<u128>, b: &Vec<u128>, ws: &Vec<u32>, nbytes: usize) -> (r: (
    Vec<u128>,
    bool,
))
    requires
        limbs_fit(a@, ws@),
        limbs_fit(b@, ws@),
        nbytes * 8 == total_bits(ws@),
        total_bits(ws@) > 0,
    ensures
        limbs_fit(r.0@, ws@),
        limbs_value(r.0@, ws@) == (limbs_value(a@, ws@) * limbs_value(b@, ws@)) % pow2(
            total_bits(ws@),
        ),
        r.1 == (limbs_value(a@, ws@) * limbs_value(b@, ws@) >= pow2(total_bits(ws@))),
{
    let ghost va = limbs_value(a@, ws@);
    let ghost vb = limbs_value(b@, ws@);
    let ghost m = pow2(total_bits(ws@));
    let bytes = limbs_to_le_bytes(b, ws);
    proof {
        lemma_value_bound(a@, ws@);
        lemma_value_bound(b@, ws@);
        lemma_le_bytes_value(vb, nbytes as nat);
        lemma_small_mod(vb, m);
        lemma_small_mod(0, m);
        lemma_pow2_pos(total_bits(ws@));
        lemma_small_mod(va, m);
        assert(bytes@.skip(nbytes as int) =~= Seq::<u8>::empty());
        assert(le_value(bytes@.skip(nbytes as int)) == 0);
        assert(va * 0 == 0);
    }
    let mut acc = limbs_from_u128(0, ws, nbytes);
    let mut carried = false;
    let mut j: usize = nbytes;
    while j > 0
        invariant
            j <= nbytes,
            bytes@.len() == nbytes,
            le_value(bytes@) == vb,
            limbs_fit(a@, ws@),
            limbs_fit(acc@, ws@),
            va == limbs_value(a@, ws@),
            m == pow2(total_bits(ws@)),
            va < m,
            va % m == va,
            limbs_value(acc@, ws@) == (va * le_value(bytes@.skip(j as int))) % m,
            carried == (va * le_value(bytes@.skip(j as int)) >= m),
        decreases j,
    {
        j -= 1;
        let bv: u32 = bytes[j] as u32;
        let ghost high = le_value(bytes@.skip(j + 1));
        proof {
            lemma_next_bit(bv, 0);
            lemma2_to64();
            assert(high * pow2(0) + (bv >> 8u32) as nat == high);
        }
        let mut k: u32 = 8;
        while k > 0
            invariant
                k <= 8,
                bv < 256,
                limbs_fit(a@, ws@),
                limbs_fit(acc@, ws@),
                va == limbs_value(a@, ws@),
                m == pow2(total_bits(ws@)),
                va < m,
                va % m == va,
                limbs_value(acc@, ws@) == (va * (high * pow2((8 - k) as nat) + (bv >> k) as nat)) % m,
                carried == (va * (high * pow2((8 - k) as nat) + (bv >> k) as nat) >= m),
            decreases k,
        {
            let ghost p: nat = high * pow2((8 - k) as nat) + (bv >> k) as nat;
            let ghost x: nat = va * p;
            k -= 1;
            let bit: u32 = (bv >> k) & 1;
            let (doubled, o1) = add_limbs(&acc, &acc, ws);
            proof {
                lemma_next_bit(bv, k);
                lemma_pow2_unfold((8 - k) as nat);
                assert(high * pow2((8 - k) as nat) == 2 * (high * pow2((7 - k) as nat))) by (
                nonlinear_arith)
                    requires
                        pow2((8 - k) as nat) == 2 * pow2((7 - k) as nat),
                ;
                lemma_mul_step(va, p, bit as nat);
                lemma_add_mod_noop(x as int, x as int, m as int);
                if !carried {
                    lemma_small_mod(x, m);
                }
            }
            acc = doubled;
            carried = carried || o1;
            if bit == 1 {
                let ghost d = limbs_value(acc@, ws@);
                let (sum, o2) = add_limbs(&acc, a, ws);
                proof {
                    lemma_add_mod_noop((2 * x) as int, va as int, m as int);
                    if !carried {
                        lemma_small_mod((2 * x) as nat, m);
                    }
                }
                acc = sum;
                carried = carried || o2;
            }
        }
        proof {
            lemma2_to64();
            assert(bv >> 0u32 == bv) by (bit_vector);
            assert(bytes@.skip(j as int).skip(1) =~= bytes@.skip(j + 1));
            assert(le_value(bytes@.skip(j as int)) == bv as nat + 256 * high);
            assert(high * pow2(8) + (bv >> 0u32) as nat == le_value(bytes@.skip(j as int)));
        }
    }
    proof {
        assert(bytes@.skip(0) =~= bytes@);
    }
    (acc, carried)
}

/// A suffix of a little-endian byte sequence (its high bytes) stands for no more
/// than the whole.
proof fn lemma_le_value_skip(bs: Seq<u8>, j: int)
    requires
        0 <= j <= bs.len(),
    ensures
        le_value(bs.skip(j)) <= le_value(bs),
    decreases j,
{
    if j == 0 {
        assert(bs.skip(0) =~= bs);
    } else {
        lemma_le_value_skip(bs, j - 1);
        assert(bs.skip(j - 1).skip(1) =~= bs.skip(j));
    }
}

/// One step of long division, seen from the quotient.
proof fn lemma_div_step(q: nat, c: nat, d: nat)
    ensures
        (2 * q + c) * d == 2 * (q * d) + c * d,
{
    assert((2 * q + c) * d == 2 * (q * d) + c * d) by (nonlinear_arith);
}

/// Divides by long division over the bits of `a`, most significant first: the
/// remainder is doubled and takes the next bit, and `b` is subtracted from it where
/// it fits, setting the next quotient bit.
pub fn divrem_limbs(a: &Vec<u128>, b: &Vec<u128>, ws: &Vec<u32>, nbytes: usize) -> (r: (
    Vec<u128>,
    Vec<u128>,
))
    requires
        limbs_fit(a@, ws@),
        limbs_fit(b@, ws@),
        nbytes * 8 == total_bits(ws@),
        total_bits(ws@) > 0,
        limbs_value(b@, ws@) > 0,
    ensures
        limbs_fit(r.0@, ws@),
        limbs_fit(r.1@, ws@),
        limbs_value(r.0@, ws@) == limbs_value(a@, ws@) / limbs_value(b@, ws@),
        limbs_value(r.1@, ws@) == limbs_value(a@, ws@) % limbs_value(b@, ws@),
{
    let ghost va = limbs_value(a@, ws@);
    let ghost vb = limbs_value(b@, ws@);
    let ghost m = pow2(total_bits(ws@));
    let bytes = limbs_to_le_bytes(a, ws);
    proof {
        lemma_value_bound(a@, ws@);
        lemma_value_bound(b@, ws@);
        lemma_le_bytes_value(va, nbytes as nat);
        lemma_small_mod(va, m);
        lemma_small_mod(0, m);
        lemma_pow2_strictly_increases(0, total_bits(ws@));
        lemma2_to64();
        lemma_small_mod(1, m);
        assert(bytes@.skip(nbytes as int) =~= Seq::<u8>::empty());
        assert(le_value(bytes@.skip(nbytes as int)) == 0);
    }
    let one = limbs_from_u128(1, ws, nbytes);
    let mut quot = limbs_from_u128(0, ws, nbytes);
    let mut rem = limbs_from_u128(0, ws, nbytes);
    proof {
        assert(0 * vb == 0);
    }
    let mut j: usize = nbytes;
    while j > 0
        invariant
            j <= nbytes,
            bytes@.len() == nbytes,
            le_value(bytes@) == va,
            limbs_fit(b@, ws@),
            limbs_fit(one@, ws@),
            limbs_fit(quot@, ws@),
            limbs_fit(rem@, ws@),
            limbs_value(one@, ws@) == 1,
            vb == limbs_value(b@, ws@),
            0 < vb < m,
            m == pow2(total_bits(ws@)),
            va < m,
            limbs_value(quot@, ws@) * vb + limbs_value(rem@, ws@) == le_value(bytes@.skip(j as int)),
            limbs_value(rem@, ws@) < vb,
        decreases j,
    {
        j -= 1;
        let bv: u32 = bytes[j] as u32;
        let ghost high = le_value(bytes@.skip(j + 1));
        let ghost whole = le_value(bytes@.skip(j as int));
        proof {
            lemma_next_bit(bv, 0);
            lemma2_to64();
            assert(bv >> 0u32 == bv) by (bit_vector);
            assert(high * pow2(0) + (bv >> 8u32) as nat == high);
            assert(bytes@.skip(j as int).skip(1) =~= bytes@.skip(j + 1));
            assert(whole == bv as nat + 256 * high);
            lemma_le_value_skip(bytes@, j as int);
        }
        let mut k: u32 = 8;
        while k > 0
            invariant
                k <= 8,
                bv < 256,
                whole == bv as nat + 256 * high,
                whole <= va,
                limbs_fit(b@, ws@),
                limbs_fit(one@, ws@),
                limbs_fit(quot@, ws@),
                limbs_fit(rem@, ws@),
                limbs_value(one@, ws@) == 1,
                vb == limbs_value(b@, ws@),
                0 < vb < m,
                m == pow2(total_bits(ws@)),
                va < m,
                limbs_value(quot@, ws@) * vb + limbs_value(rem@, ws@) == high * pow2(
                    (8 - k) as nat,
                ) + (bv >> k) as nat,
                limbs_value(rem@, ws@) < vb,
            decreases k,
        {
            let ghost q = limbs_value(quot@, ws@);
            let ghost vr = limbs_value(rem@, ws@);
            let ghost p: nat = high * pow2((8 - k) as nat) + (bv >> k) as nat;
            k -= 1;
            let bit: u32 = (bv >> k) & 1;
            let ghost p_next: nat = high * pow2((8 - k) as nat) + (bv >> k) as nat;
            proof {
                lemma_next_bit(bv, k);
                lemma_pow2_unfold((8 - k) as nat);
                assert(high * pow2((8 - k) as nat) == 2 * (high * pow2((7 - k) as nat))) by (
                nonlinear_arith)
                    requires
                        pow2((8 - k) as nat) == 2 * pow2((7 - k) as nat),
                ;
                assert(p_next == 2 * p + bit as nat);
                lemma2_to64();
                if 8 - k < 8 {
                    lemma_pow2_strictly_increases((8 - k) as nat, 8);
                }
                lemma_mul_inequality(pow2((8 - k) as nat) as int, 256, high as int);
                lemma_mul_is_commutative(pow2((8 - k) as nat) as int, high as int);
                assert(p_next <= whole);
            }
            let (rb, _) = if bit == 1 {
                add_limbs(&rem, &one, ws)
            } else {
                (copy_limbs(&rem), false)
            };
            proof {
                lemma_small_mod((vr + bit as nat) as nat, m);
            }
            let (t, big) = add_limbs(&rem, &rb, ws);
            let (q2, _) = add_limbs(&quot, &quot, ws);
            let fits = big || match cmp_limbs(&t, b, ws) {
                core::cmp::Ordering::Less => false,
                _ => true,
            };
            proof {
                let tt = vr + vr + bit as nat;
                assert(q * 1 <= q * vb) by {
                    lemma_mul_inequality(1, vb as int, q as int);
                    lemma_mul_is_commutative(q as int, vb as int);
                }
                lemma_small_mod(2 * q, m);
                if big {
                    lemma_div_mod_of(tt as int, m as int, 1, tt - m);
                } else {
                    lemma_small_mod(tt, m);
                }
            }
            if fits {
                let (r2, _) = sub_limbs(&t, b, ws);
                let (q3, _) = add_limbs(&q2, &one, ws);
                proof {
                    let tt = vr + vr + bit as nat;
                    let tv = limbs_value(t@, ws@);
                    if big {
                        lemma_div_mod_of(tv - vb, m as int, -1, tt - vb);
                    } else {
                        lemma_small_mod((tt - vb) as nat, m);
                    }
                    lemma_div_step(q, 1, vb);
                    assert((2 * q + 1) * 1 <= (2 * q + 1) * vb) by {
                        lemma_mul_inequality(1, vb as int, (2 * q + 1) as int);
                        lemma_mul_is_commutative((2 * q + 1) as int, vb as int);
                    }
                    lemma_small_mod((2 * q + 1) as nat, m);
                }
                rem = r2;
                quot = q3;
            } else {
                proof {
                    lemma_div_step(q, 0, vb);
                }
                rem = t;
                quot = q2;
            }
        }
        proof {
            lemma2_to64();
            assert(high * pow2(8) + (bv >> 0u32) as nat == whole);
        }
    }
    proof {
        assert(bytes@.skip(0) =~= bytes@);
        lemma_div_mod_of(
            va as int,
            vb as int,
            limbs_value(quot@, ws@) as int,
            limbs_value(rem@, ws@) as int,
        );
    }
    (quot, rem)
}

/// Limbs each at their native maximum stand for two to the total width, less one.
pub proof fn lemma_all_max_value(ls: Seq<u128>, ws: Seq<u32>)
    requires
        ls.len() == ws.len(),
        forall|i: int| 0 <= i < ls.len() ==> (#[trigger] ls[i]) as nat == limb_max_spec(ws[i]),
        all_limb_widths(ws),
    ensures
        limbs_value(ls, ws) + 1 == pow2(total_bits(ws)),
    decreases ls.len(),
{
    if ls.len() == 0 {
        lemma2_to64();
    } else {
        let t = total_bits(ws.skip(1));
        assert(all_limb_widths(ws.skip(1)));
        lemma_all_max_value(ls.skip(1), ws.skip(1));
        lemma_pow2_adds(ws[0] as nat, t);
        lemma_pow2_pos(ws[0] as nat);
        lemma_mul_is_distributive_sub_other_way(pow2(t) as int, pow2(ws[0] as nat) as int, 1);
    }
}

/// Limbs of the plan `ws`, each at its native maximum.
pub fn max_limbs(ws: &Vec<u32>) -> (r: Vec<u128>)
    requires
        all_limb_widths(ws@),
    ensures
        limbs_fit(r@, ws@),
        limbs_value(r@, ws@) + 1 == pow2(total_bits(ws@)),
{
    let mut r: Vec<u128> = Vec::new();
    let mut i: usize = 0;
    while i < ws.len()
        invariant
            i <= ws.len(),
            all_limb_widths(ws@),
            r.len() == i,
            forall|j: int| 0 <= j < i ==> (#[trigger] r@[j]) as nat == limb_max_spec(ws@[j]),
        decreases ws.len() - i,
    {
        r.push(limb_max(ws[i]));
        i += 1;
    }
    proof {
        assert forall|j: int| 0 <= j < r.len() implies (#[trigger] r@[j]) < pow2(ws@[j] as nat) by {
            lemma_pow2_pos(ws@[j] as nat);
        }
        lemma_all_max_value(r@, ws@);
    }
    r
}

} // verus!
