//! The fixed-width integer type, generic over its width.
use core::marker::PhantomData;
use vstd::arithmetic::div_mod::*;
use vstd::arithmetic::power2::*;
use vstd::prelude::*;

use crate::bytes::{
    le_bytes, le_value, lemma_le_bytes_len, lemma_le_bytes_take, lemma_le_bytes_value,
    lemma_le_value_bytes, read_le, reversed,
};
use crate::limbs::{
    add_limbs, cmp_limbs, copy_limbs, divrem_limbs, lemma_value_bound, limbs_fit,
    limbs_from_le_bytes, limbs_from_u128, limbs_to_le_bytes, limbs_value, max_limbs, mul_limbs,
    sub_limbs,
};
use crate::plan::{all_limb_widths, lemma_plan_exact, limb_plan, plan, total_bits, valid_bits};

verus! {

/// A width of the integer family. A width that is zero or not a multiple of eight
/// cannot implement `bits`, so such a type is refused where it is defined.
pub trait Width {
    /// The width in bits.
    spec fn spec_bits() -> nat;

    /// The width in bits.
    fn bits() -> (r: u32)
        ensures
            r as nat == Self::spec_bits(),
            valid_bits(r as nat),
    ;
}

/// The sum of two values of width `bits` modulo `2^bits`, and whether it overflowed.
pub open spec fn add_overflowing(a: nat, b: nat, bits: nat) -> (nat, bool) {
    ((a + b) % pow2(bits), a + b >= pow2(bits))
}

/// The difference of two values of width `bits` modulo `2^bits`, and whether it
/// underflowed.
pub open spec fn sub_overflowing(a: nat, b: nat, bits: nat) -> (nat, bool) {
    (((a - b) % (pow2(bits) as int)) as nat, a < b)
}

/// The product of two values of width `bits` modulo `2^bits`, and whether it
/// overflowed.
pub open spec fn mul_overflowing(a: nat, b: nat, bits: nat) -> (nat, bool) {
    ((a * b) % pow2(bits), a * b >= pow2(bits))
}

/// An unsigned integer of `W::bits()` bits, held as native-word limbs laid out by
/// the greedy plan, most significant limb first.
#[derive(Debug, Hash, Ord)]
pub struct BitUint<W: Width> {
    limbs: Vec<u128>,
    width: PhantomData<W>,
}

impl<W: Width> View for BitUint<W> {
    type V = nat;

    closed spec fn view(&self) -> nat {
        limbs_value(self.limbs@, plan(W::spec_bits()))
    }
}

/// The limb plan of a width and its length in bytes.
fn layout<W: Width>() -> (r: (Vec<u32>, usize))
    ensures
        r.0@ == plan(W::spec_bits()),
        valid_bits(W::spec_bits()),
        all_limb_widths(r.0@),
        total_bits(r.0@) == W::spec_bits(),
        r.1 * 8 == W::spec_bits(),
{
    let bits = W::bits();
    proof {
        lemma_plan_exact(bits as nat);
    }
    (limb_plan(bits), (bits / 8) as usize)
}

impl<W: Width> BitUint<W> {
    #[verifier::type_invariant]
    spec fn inv(self) -> bool {
        &&& valid_bits(W::spec_bits())
        &&& limbs_fit(self.limbs@, plan(W::spec_bits()))
    }

    /// The width in bits.
    pub fn bits() -> (r: u32)
        ensures
            r as nat == W::spec_bits(),
    {
        W::bits()
    }

    /// The smallest value, zero: every limb zero.
    pub fn min_value() -> (r: Self)
        ensures
            r@ == 0,
    {
        let r = Self::from_u128(0);
        proof {
            lemma_pow2_pos(W::spec_bits());
        }
        r
    }

    /// The largest value, `2^bits - 1`: every limb at its native maximum.
    pub fn max_value() -> (r: Self)
        ensures
            r@ + 1 == pow2(W::spec_bits()),
    {
        let (ws, _) = layout::<W>();
        BitUint { limbs: max_limbs(&ws), width: PhantomData }
    }

    /// The value `v` modulo two to the width.
    pub fn from_u128(v: u128) -> (r: Self)
        ensures
            r@ == v as nat % pow2(W::spec_bits()),
    {
        let (ws, nbytes) = layout::<W>();
        BitUint { limbs: limbs_from_u128(v, &ws, nbytes), width: PhantomData }
    }

    /// Adds with a carry from the least significant limb up: the sum modulo two to
    /// the width, and whether it overflowed.
    pub fn overflowing_add(&self, rhs: &Self) -> (r: (Self, bool))
        ensures
            (r.0@, r.1) == add_overflowing(self@, rhs@, W::spec_bits()),
    {
        proof {
            use_type_invariant(self);
            use_type_invariant(rhs);
        }
        let (ws, _) = layout::<W>();
        let (limbs, carry) = add_limbs(&self.limbs, &rhs.limbs, &ws);
        (BitUint { limbs, width: PhantomData }, carry)
    }

    /// Subtracts with a borrow from the least significant limb up: the difference
    /// modulo two to the width, and whether it underflowed.
    pub fn overflowing_sub(&self, rhs: &Self) -> (r: (Self, bool))
        ensures
            (r.0@, r.1) == sub_overflowing(self@, rhs@, W::spec_bits()),
    {
        proof {
            use_type_invariant(self);
            use_type_invariant(rhs);
        }
        let (ws, _) = layout::<W>();
        let (limbs, borrow) = sub_limbs(&self.limbs, &rhs.limbs, &ws);
        (BitUint { limbs, width: PhantomData }, borrow)
    }

    /// Multiplies by shift-and-add over the bits of `rhs`: the product modulo two to
    /// the width, and whether it overflowed.
    pub fn overflowing_mul(&self, rhs: &Self) -> (r: (Self, bool))
        ensures
            (r.0@, r.1) == mul_overflowing(self@, rhs@, W::spec_bits()),
    {
        proof {
            use_type_invariant(self);
            use_type_invariant(rhs);
        }
        let (ws, nbytes) = layout::<W>();
        let (limbs, carry) = mul_limbs(&self.limbs, &rhs.limbs, &ws, nbytes);
        (BitUint { limbs, width: PhantomData }, carry)
    }

    /// Divides by long division over the bits of `self`; a quotient never
    /// overflows. Division by zero is ruled out before any step.
    pub fn overflowing_div(&self, rhs: &Self) -> (r: (Self, bool))
        requires
            rhs@ > 0,
        ensures
            r.0@ == self@ / rhs@,
            !r.1,
    {
        proof {
            use_type_invariant(self);
            use_type_invariant(rhs);
        }
        let (ws, nbytes) = layout::<W>();
        let (q, _) = divrem_limbs(&self.limbs, &rhs.limbs, &ws, nbytes);
        (BitUint { limbs: q, width: PhantomData }, false)
    }

    /// The remainder of long division; it never overflows. Division by zero is
    /// ruled out before any step.
    pub fn overflowing_rem(&self, rhs: &Self) -> (r: (Self, bool))
        requires
            rhs@ > 0,
        ensures
            r.0@ == self@ % rhs@,
            !r.1,
    {
        proof {
            use_type_invariant(self);
            use_type_invariant(rhs);
        }
        let (ws, nbytes) = layout::<W>();
        let (_, rem) = divrem_limbs(&self.limbs, &rhs.limbs, &ws, nbytes);
        (BitUint { limbs: rem, width: PhantomData }, false)
    }

    /// The quotient, or `None` when the divisor is zero.
    pub fn checked_div(&self, rhs: &Self) -> (r: Option<Self>)
        ensures
            (r is None) == (rhs@ == 0),
            r matches Some(q) ==> q@ == self@ / rhs@,
    {
        let zero = Self::min_value();
        match rhs.compare(&zero) {
            core::cmp::Ordering::Equal => None,
            _ => Some(self.overflowing_div(rhs).0),
        }
    }

    /// The remainder, or `None` when the divisor is zero.
    pub fn checked_rem(&self, rhs: &Self) -> (r: Option<Self>)
        ensures
            (r is None) == (rhs@ == 0),
            r matches Some(m) ==> m@ == self@ % rhs@,
    {
        let zero = Self::min_value();
        match rhs.compare(&zero) {
            core::cmp::Ordering::Equal => None,
            _ => Some(self.overflowing_rem(rhs).0),
        }
    }

    /// Orders two values by number.
    pub fn compare(&self, rhs: &Self) -> (r: core::cmp::Ordering)
        ensures
            (r == core::cmp::Ordering::Less) == (self@ < rhs@),
            (r == core::cmp::Ordering::Equal) == (self@ == rhs@),
            (r == core::cmp::Ordering::Greater) == (self@ > rhs@),
    {
        proof {
            use_type_invariant(self);
            use_type_invariant(rhs);
        }
        let (ws, _) = layout::<W>();
        cmp_limbs(&self.limbs, &rhs.limbs, &ws)
    }

    /// The value's low 128 bits, read from its little-endian bytes.
    pub fn to_u128(&self) -> (r: u128)
        ensures
            r == low_u128(self@),
    {
        proof {
            use_type_invariant(self);
        }
        let (ws, nbytes) = layout::<W>();
        let bytes = limbs_to_le_bytes(&self.limbs, &ws);
        let m: usize = if nbytes < 16 {
            nbytes
        } else {
            16
        };
        let r = read_le(&bytes, 0, m);
        proof {
            let v = self@;
            lemma_value_bound(self.limbs@, ws@);
            lemma_le_bytes_take(v, nbytes as nat, m as nat);
            assert(bytes@.subrange(0, m as int) =~= bytes@.take(m as int));
            lemma_le_bytes_value(v, m as nat);
            vstd::arithmetic::power2::lemma2_to64();
            lemma_pow2_adds(64, 64);
            if m == nbytes {
                lemma_small_mod(v, pow2(8 * m as nat));
                if 8 * m < 128 {
                    lemma_pow2_strictly_increases(8 * m as nat, 128);
                }
                lemma_small_mod(v, pow2(128));
            }
        }
        r
    }

    /// The value as little-endian bytes, `bits / 8` of them, byte 0 least significant.
    pub fn to_le_bytes(&self) -> (r: Vec<u8>)
        ensures
            r@ == le_bytes(self@, W::spec_bits() / 8),
    {
        proof {
            use_type_invariant(self);
        }
        let (ws, _) = layout::<W>();
        limbs_to_le_bytes(&self.limbs, &ws)
    }

    /// The value as big-endian bytes: the little-endian bytes reversed.
    pub fn to_be_bytes(&self) -> (r: Vec<u8>)
        ensures
            r@ == le_bytes(self@, W::spec_bits() / 8).reverse(),
    {
        reversed(&self.to_le_bytes())
    }

    /// The value as bytes in the platform's byte order.
    pub fn to_ne_bytes(&self) -> (r: Vec<u8>)
        ensures
            r@ == le_bytes(self@, W::spec_bits() / 8) || r@ == le_bytes(
                self@,
                W::spec_bits() / 8,
            ).reverse(),
    {
        if platform_is_little_endian() {
            self.to_le_bytes()
        } else {
            self.to_be_bytes()
        }
    }

    /// The value of `bits / 8` little-endian bytes, byte 0 least significant.
    pub fn from_le_bytes(bytes: &Vec<u8>) -> (r: Self)
        requires
            bytes@.len() * 8 == W::spec_bits(),
        ensures
            r@ == le_value(bytes@),
    {
        let (ws, _) = layout::<W>();
        BitUint { limbs: limbs_from_le_bytes(bytes, &ws), width: PhantomData }
    }

    /// The value of `bits / 8` big-endian bytes: the bytes reversed, read as
    /// little-endian.
    pub fn from_be_bytes(bytes: &Vec<u8>) -> (r: Self)
        requires
            bytes@.len() * 8 == W::spec_bits(),
        ensures
            r@ == le_value(bytes@.reverse()),
    {
        Self::from_le_bytes(&reversed(bytes))
    }

    /// The value of `bits / 8` bytes in the platform's byte order.
    pub fn from_ne_bytes(bytes: &Vec<u8>) -> (r: Self)
        requires
            bytes@.len() * 8 == W::spec_bits(),
        ensures
            r@ == le_value(bytes@) || r@ == le_value(bytes@.reverse()),
    {
        if platform_is_little_endian() {
            Self::from_le_bytes(bytes)
        } else {
            Self::from_be_bytes(bytes)
        }
    }
}

/// Adding `y` to `x` and then subtracting `y` gives `x` back, with no underflow,
/// whenever the addition did not overflow.
pub proof fn lemma_add_then_sub(x: nat, y: nat, bits: nat)
    requires
        valid_bits(bits),
        x < pow2(bits),
        y < pow2(bits),
    ensures
        !add_overflowing(x, y, bits).1 ==> sub_overflowing(add_overflowing(x, y, bits).0, y, bits)
            == (x, false),
{
    if x + y < pow2(bits) {
        lemma_small_mod(x + y, pow2(bits));
        lemma_small_mod(x, pow2(bits));
    }
}

/// At every width, zero plus one is one with no overflow, and the largest value plus
/// one overflows.
pub proof fn lemma_one_past_extremes(bits: nat)
    requires
        valid_bits(bits),
    ensures
        add_overflowing(0, 1, bits) == (1nat, false),
        add_overflowing((pow2(bits) - 1) as nat, 1, bits).1,
        add_overflowing((pow2(bits) - 1) as nat, 1, bits).0 == 0,
{
    lemma_pow2_strictly_increases(0, bits);
    vstd::arithmetic::power2::lemma2_to64();
    lemma_small_mod(1, pow2(bits));
    lemma_mod_self_0(pow2(bits) as int);
}

/// A value's little-endian bytes read back as the value, and so do its big-endian
/// bytes once reversed; bytes of the right length read as a value and written back
/// are the same bytes.
pub proof fn lemma_bytes_round_trip(x: nat, bytes: Seq<u8>, bits: nat)
    requires
        valid_bits(bits),
        x < pow2(bits),
        bytes.len() * 8 == bits,
    ensures
        le_value(le_bytes(x, bits / 8)) == x,
        le_value(le_bytes(x, bits / 8).reverse().reverse()) == x,
        le_bytes(le_value(bytes), bits / 8) == bytes,
{
    lemma_le_bytes_value(x, bits / 8);
    lemma_small_mod(x, pow2(bits));
    lemma_le_bytes_len(x, bits / 8);
    assert(le_bytes(x, bits / 8).reverse().reverse() =~= le_bytes(x, bits / 8));
    lemma_le_value_bytes(bytes);
}

/// The low 128 bits of a number.
pub open spec fn low_u128(v: nat) -> u128 {
    (v % pow2(128)) as u128
}

/// Relies on `u16::from_ne_bytes`: the two bytes are read in the platform's byte
/// order, which is either little-endian or big-endian.
#[verifier::external_body]
fn u16_from_ne_bytes(b: [u8; 2]) -> (r: u16)
    ensures
        r as nat == b@[0] as nat + 256 * b@[1] as nat || r as nat == b@[1] as nat + 256
            * b@[0] as nat,
{
    u16::from_ne_bytes(b)
}

/// Whether the platform stores the least significant byte first.
fn platform_is_little_endian() -> bool {
    u16_from_ne_bytes([1u8, 0u8]) == 1
}

impl<W: Width> From<u8> for BitUint<W> {
    /// The value modulo two to the width.
    fn from(v: u8) -> (r: Self)
        ensures
            r@ == v as nat % pow2(W::spec_bits()),
    {
        Self::from_u128(v as u128)
    }
}

// What `from` returns is stated by its own `ensures`.
impl<W: Width> vstd::std_specs::convert::FromSpecImpl<u8> for BitUint<W> {
    open spec fn obeys_from_spec() -> bool {
        false
    }

    open spec fn from_spec(v: u8) -> Self {
        arbitrary()
    }
}

impl<W: Width> From<u16> for BitUint<W> {
    /// The value modulo two to the width.
    fn from(v: u16) -> (r: Self)
        ensures
            r@ == v as nat % pow2(W::spec_bits()),
    {
        Self::from_u128(v as u128)
    }
}

// What `from` returns is stated by its own `ensures`.
impl<W: Width> vstd::std_specs::convert::FromSpecImpl<u16> for BitUint<W> {
    open spec fn obeys_from_spec() -> bool {
        false
    }

    open spec fn from_spec(v: u16) -> Self {
        arbitrary()
    }
}

impl<W: Width> From<u32> for BitUint<W> {
    /// The value modulo two to the width.
    fn from(v: u32) -> (r: Self)
        ensures
            r@ == v as nat % pow2(W::spec_bits()),
    {
        Self::from_u128(v as u128)
    }
}

// What `from` returns is stated by its own `ensures`.
impl<W: Width> vstd::std_specs::convert::FromSpecImpl<u32> for BitUint<W> {
    open spec fn obeys_from_spec() -> bool {
        false
    }

    open spec fn from_spec(v: u32) -> Self {
        arbitrary()
    }
}

impl<W: Width> From<u64> for BitUint<W> {
    /// The value modulo two to the width.
    fn from(v: u64) -> (r: Self)
        ensures
            r@ == v as nat % pow2(W::spec_bits()),
    {
        Self::from_u128(v as u128)
    }
}

// What `from` returns is stated by its own `ensures`.
impl<W: Width> vstd::std_specs::convert::FromSpecImpl<u64> for BitUint<W> {
    open spec fn obeys_from_spec() -> bool {
        false
    }

    open spec fn from_spec(v: u64) -> Self {
        arbitrary()
    }
}

impl<W: Width> From<u128> for BitUint<W> {
    /// The value modulo two to the width.
    fn from(v: u128) -> (r: Self)
        ensures
            r@ == v as nat % pow2(W::spec_bits()),
    {
        Self::from_u128(v)
    }
}

// What `from` returns is stated by its own `ensures`.
impl<W: Width> vstd::std_specs::convert::FromSpecImpl<u128> for BitUint<W> {
    open spec fn obeys_from_spec() -> bool {
        false
    }

    open spec fn from_spec(v: u128) -> Self {
        arbitrary()
    }
}

impl<W: Width> From<i8> for BitUint<W> {
    /// The value's bits as an unsigned `u128` (sign-extended, as `as` casts), modulo two
    /// to the width.
    fn from(v: i8) -> (r: Self)
        ensures
            r@ == (v as u128) as nat % pow2(W::spec_bits()),
    {
        Self::from_u128(v as u128)
    }
}

// What `from` returns is stated by its own `ensures`.
impl<W: Width> vstd::std_specs::convert::FromSpecImpl<i8> for BitUint<W> {
    open spec fn obeys_from_spec() -> bool {
        false
    }

    open spec fn from_spec(v: i8) -> Self {
        arbitrary()
    }
}

impl<W: Width> From<i16> for BitUint<W> {
    /// The value's bits as an unsigned `u128` (sign-extended, as `as` casts), modulo two
    /// to the width.
    fn from(v: i16) -> (r: Self)
        ensures
            r@ == (v as u128) as nat % pow2(W::spec_bits()),
    {
        Self::from_u128(v as u128)
    }
}

// What `from` returns is stated by its own `ensures`.
impl<W: Width> vstd::std_specs::convert::FromSpecImpl<i16> for BitUint<W> {
    open spec fn obeys_from_spec() -> bool {
        false
    }

    open spec fn from_spec(v: i16) -> Self {
        arbitrary()
    }
}

impl<W: Width> From<i32> for BitUint<W> {
    /// The value's bits as an unsigned `u128` (sign-extended, as `as` casts), modulo two
    /// to the width.
    fn from(v: i32) -> (r: Self)
        ensures
            r@ == (v as u128) as nat % pow2(W::spec_bits()),
    {
        Self::from_u128(v as u128)
    }
}

// What `from` returns is stated by its own `ensures`.
impl<W: Width> vstd::std_specs::convert::FromSpecImpl<i32> for BitUint<W> {
    open spec fn obeys_from_spec() -> bool {
        false
    }

    open spec fn from_spec(v: i32) -> Self {
        arbitrary()
    }
}

impl<W: Width> From<i64> for BitUint<W> {
    /// The value's bits as an unsigned `u128` (sign-extended, as `as` casts), modulo two
    /// to the width.
    fn from(v: i64) -> (r: Self)
        ensures
            r@ == (v as u128) as nat % pow2(W::spec_bits()),
    {
        Self::from_u128(v as u128)
    }
}

// What `from` returns is stated by its own `ensures`.
impl<W: Width> vstd::std_specs::convert::FromSpecImpl<i64> for BitUint<W> {
    open spec fn obeys_from_spec() -> bool {
        false
    }

    open spec fn from_spec(v: i64) -> Self {
        arbitrary()
    }
}

impl<W: Width> From<i128> for BitUint<W> {
    /// The value's bits as an unsigned `u128` (sign-extended, as `as` casts), modulo two
    /// to the width.
    fn from(v: i128) -> (r: Self)
        ensures
            r@ == (v as u128) as nat % pow2(W::spec_bits()),
    {
        Self::from_u128(v as u128)
    }
}

// What `from` returns is stated by its own `ensures`.
impl<W: Width> vstd::std_specs::convert::FromSpecImpl<i128> for BitUint<W> {
    open spec fn obeys_from_spec() -> bool {
        false
    }

    open spec fn from_spec(v: i128) -> Self {
        arbitrary()
    }
}

impl<W: Width> From<BitUint<W>> for u8 {
    /// The low 128 bits of the value, truncated to `u8` as `as` does.
    fn from(v: BitUint<W>) -> (r: u8)
        ensures
            r == low_u128(v@) as u8,
    {
        v.to_u128() as u8
    }
}

impl<W: Width> vstd::std_specs::convert::FromSpecImpl<BitUint<W>> for u8 {
    open spec fn obeys_from_spec() -> bool {
        true
    }

    open spec fn from_spec(v: BitUint<W>) -> u8 {
        low_u128(v@) as u8
    }
}

impl<W: Width> From<BitUint<W>> for u16 {
    /// The low 128 bits of the value, truncated to `u16` as `as` does.
    fn from(v: BitUint<W>) -> (r: u16)
        ensures
            r == low_u128(v@) as u16,
    {
        v.to_u128() as u16
    }
}

impl<W: Width> vstd::std_specs::convert::FromSpecImpl<BitUint<W>> for u16 {
    open spec fn obeys_from_spec() -> bool {
        true
    }

    open spec fn from_spec(v: BitUint<W>) -> u16 {
        low_u128(v@) as u16
    }
}

impl<W: Width> From<BitUint<W>> for u32 {
    /// The low 128 bits of the value, truncated to `u32` as `as` does.
    fn from(v: BitUint<W>) -> (r: u32)
        ensures
            r == low_u128(v@) as u32,
    {
        v.to_u128() as u32
    }
}

impl<W: Width> vstd::std_specs::convert::FromSpecImpl<BitUint<W>> for u32 {
    open spec fn obeys_from_spec() -> bool {
        true
    }

    open spec fn from_spec(v: BitUint<W>) -> u32 {
        low_u128(v@) as u32
    }
}

impl<W: Width> From<BitUint<W>> for u64 {
    /// The low 128 bits of the value, truncated to `u64` as `as` does.
    fn from(v: BitUint<W>) -> (r: u64)
        ensures
            r == low_u128(v@) as u64,
    {
        v.to_u128() as u64
    }
}

impl<W: Width> vstd::std_specs::convert::FromSpecImpl<BitUint<W>> for u64 {
    open spec fn obeys_from_spec() -> bool {
        true
    }

    open spec fn from_spec(v: BitUint<W>) -> u64 {
        low_u128(v@) as u64
    }
}

impl<W: Width> From<BitUint<W>> for u128 {
    /// The low 128 bits of the value.
    fn from(v: BitUint<W>) -> (r: u128)
        ensures
            r == low_u128(v@),
    {
        v.to_u128()
    }
}

impl<W: Width> vstd::std_specs::convert::FromSpecImpl<BitUint<W>> for u128 {
    open spec fn obeys_from_spec() -> bool {
        true
    }

    open spec fn from_spec(v: BitUint<W>) -> u128 {
        low_u128(v@)
    }
}

impl<W: Width> From<BitUint<W>> for i8 {
    /// The low 128 bits of the value, truncated to `i8` as `as` does.
    fn from(v: BitUint<W>) -> (r: i8)
        ensures
            r == low_u128(v@) as i8,
    {
        v.to_u128() as i8
    }
}

impl<W: Width> vstd::std_specs::convert::FromSpecImpl<BitUint<W>> for i8 {
    open spec fn obeys_from_spec() -> bool {
        true
    }

    open spec fn from_spec(v: BitUint<W>) -> i8 {
        low_u128(v@) as i8
    }
}

impl<W: Width> From<BitUint<W>> for i16 {
    /// The low 128 bits of the value, truncated to `i16` as `as` does.
    fn from(v: BitUint<W>) -> (r: i16)
        ensures
            r == low_u128(v@) as i16,
    {
        v.to_u128() as i16
    }
}

impl<W: Width> vstd::std_specs::convert::FromSpecImpl<BitUint<W>> for i16 {
    open spec fn obeys_from_spec() -> bool {
        true
    }

    open spec fn from_spec(v: BitUint<W>) -> i16 {
        low_u128(v@) as i16
    }
}

impl<W: Width> From<BitUint<W>> for i32 {
    /// The low 128 bits of the value, truncated to `i32` as `as` does.
    fn from(v: BitUint<W>) -> (r: i32)
        ensures
            r == low_u128(v@) as i32,
    {
        v.to_u128() as i32
    }
}

impl<W: Width> vstd::std_specs::convert::FromSpecImpl<BitUint<W>> for i32 {
    open spec fn obeys_from_spec() -> bool {
        true
    }

    open spec fn from_spec(v: BitUint<W>) -> i32 {
        low_u128(v@) as i32
    }
}

impl<W: Width> From<BitUint<W>> for i64 {
    /// The low 128 bits of the value, truncated to `i64` as `as` does.
    fn from(v: BitUint<W>) -> (r: i64)
        ensures
            r == low_u128(v@) as i64,
    {
        v.to_u128() as i64
    }
}

impl<W: Width> vstd::std_specs::convert::FromSpecImpl<BitUint<W>> for i64 {
    open spec fn obeys_from_spec() -> bool {
        true
    }

    open spec fn from_spec(v: BitUint<W>) -> i64 {
        low_u128(v@) as i64
    }
}

impl<W: Width> From<BitUint<W>> for i128 {
    /// The low 128 bits of the value, truncated to `i128` as `as` does.
    fn from(v: BitUint<W>) -> (r: i128)
        ensures
            r == low_u128(v@) as i128,
    {
        v.to_u128() as i128
    }
}

impl<W: Width> vstd::std_specs::convert::FromSpecImpl<BitUint<W>> for i128 {
    open spec fn obeys_from_spec() -> bool {
        true
    }

    open spec fn from_spec(v: BitUint<W>) -> i128 {
        low_u128(v@) as i128
    }
}

impl<W: Width> core::ops::Add for BitUint<W> {
    type Output = Self;

    /// The sum; it must not overflow.
    fn add(self, rhs: Self) -> (r: Self)
        ensures
            r@ == self@ + rhs@,
    {
        let (r, _) = self.overflowing_add(&rhs);
        proof {
            lemma_small_mod(self@ + rhs@, pow2(W::spec_bits()));
        }
        r
    }
}

// The operator's result is stated by its own `ensures`; the `_req` function is
// what a verified caller must show.
impl<W: Width> vstd::std_specs::ops::AddSpecImpl for BitUint<W> {
    open spec fn obeys_add_spec() -> bool {
        false
    }

    open spec fn add_req(self, rhs: Self) -> bool {
        !add_overflowing(self@, rhs@, W::spec_bits()).1
    }

    open spec fn add_spec(self, rhs: Self) -> Self {
        arbitrary()
    }
}

impl<W: Width> core::ops::Sub for BitUint<W> {
    type Output = Self;

    /// The difference; it must not underflow.
    fn sub(self, rhs: Self) -> (r: Self)
        ensures
            r@ == self@ - rhs@,
    {
        let (r, _) = self.overflowing_sub(&rhs);
        proof {
            let v = (self@ - rhs@) as nat;
            use_type_invariant(&self);
            lemma_plan_exact(W::spec_bits());
            lemma_value_bound(self.limbs@, plan(W::spec_bits()));
            lemma_small_mod(v, pow2(W::spec_bits()));
        }
        r
    }
}

// The operator's result is stated by its own `ensures`; the `_req` function is
// what a verified caller must show.
impl<W: Width> vstd::std_specs::ops::SubSpecImpl for BitUint<W> {
    open spec fn obeys_sub_spec() -> bool {
        false
    }

    open spec fn sub_req(self, rhs: Self) -> bool {
        !sub_overflowing(self@, rhs@, W::spec_bits()).1
    }

    open spec fn sub_spec(self, rhs: Self) -> Self {
        arbitrary()
    }
}

impl<W: Width> core::ops::Mul for BitUint<W> {
    type Output = Self;

    /// The product; it must not overflow.
    fn mul(self, rhs: Self) -> (r: Self)
        ensures
            r@ == self@ * rhs@,
    {
        let (r, _) = self.overflowing_mul(&rhs);
        proof {
            lemma_small_mod(self@ * rhs@, pow2(W::spec_bits()));
        }
        r
    }
}

// The operator's result is stated by its own `ensures`; the `_req` function is
// what a verified caller must show.
impl<W: Width> vstd::std_specs::ops::MulSpecImpl for BitUint<W> {
    open spec fn obeys_mul_spec() -> bool {
        false
    }

    open spec fn mul_req(self, rhs: Self) -> bool {
        !mul_overflowing(self@, rhs@, W::spec_bits()).1
    }

    open spec fn mul_spec(self, rhs: Self) -> Self {
        arbitrary()
    }
}

impl<W: Width> core::ops::Div for BitUint<W> {
    type Output = Self;

    /// The quotient; the divisor must not be zero.
    fn div(self, rhs: Self) -> (r: Self)
        ensures
            r@ == self@ / rhs@,
    {
        self.overflowing_div(&rhs).0
    }
}

// The operator's result is stated by its own `ensures`; the `_req` function is
// what a verified caller must show.
impl<W: Width> vstd::std_specs::ops::DivSpecImpl for BitUint<W> {
    open spec fn obeys_div_spec() -> bool {
        false
    }

    open spec fn div_req(self, rhs: Self) -> bool {
        rhs@ > 0
    }

    open spec fn div_spec(self, rhs: Self) -> Self {
        arbitrary()
    }
}

impl<W: Width> core::ops::Rem for BitUint<W> {
    type Output = Self;

    /// The remainder; the divisor must not be zero.
    fn rem(self, rhs: Self) -> (r: Self)
        ensures
            r@ == self@ % rhs@,
    {
        self.overflowing_rem(&rhs).0
    }
}

// The operator's result is stated by its own `ensures`; the `_req` function is
// what a verified caller must show.
impl<W: Width> vstd::std_specs::ops::RemSpecImpl for BitUint<W> {
    open spec fn obeys_rem_spec() -> bool {
        false
    }

    open spec fn rem_req(self, rhs: Self) -> bool {
        rhs@ > 0
    }

    open spec fn rem_spec(self, rhs: Self) -> Self {
        arbitrary()
    }
}

/// How two numbers are ordered.
pub open spec fn order_of(a: nat, b: nat) -> core::cmp::Ordering {
    if a < b {
        core::cmp::Ordering::Less
    } else if a == b {
        core::cmp::Ordering::Equal
    } else {
        core::cmp::Ordering::Greater
    }
}

impl<W: Width> PartialEq for BitUint<W> {
    fn eq(&self, other: &Self) -> (r: bool) {
        match self.compare(other) {
            core::cmp::Ordering::Equal => true,
            _ => false,
        }
    }
}

impl<W: Width> vstd::std_specs::cmp::PartialEqSpecImpl for BitUint<W> {
    open spec fn obeys_eq_spec() -> bool {
        true
    }

    open spec fn eq_spec(&self, other: &Self) -> bool {
        self@ == other@
    }
}

impl<W: Width> Eq for BitUint<W> {

}

impl<W: Width> PartialOrd for BitUint<W> {
    fn partial_cmp(&self, other: &Self) -> (r: Option<core::cmp::Ordering>) {
        Some(self.compare(other))
    }
}

impl<W: Width> vstd::std_specs::cmp::PartialOrdSpecImpl for BitUint<W> {
    open spec fn obeys_partial_cmp_spec() -> bool {
        true
    }

    open spec fn partial_cmp_spec(&self, other: &Self) -> Option<core::cmp::Ordering> {
        Some(order_of(self@, other@))
    }
}

impl<W: Width> Clone for BitUint<W> {
    fn clone(&self) -> (r: Self)
        ensures
            r@ == self@,
    {
        proof {
            use_type_invariant(self);
        }
        BitUint { limbs: copy_limbs(&self.limbs), width: PhantomData }
    }
}

impl<W: Width> Default for BitUint<W> {
    /// Zero, the smallest value.
    fn default() -> (r: Self)
        ensures
            r@ == 0,
    {
        Self::min_value()
    }
}

/// The width of `u24`.
#[derive(Clone, Copy, Debug, PartialEq, Eq, PartialOrd, Ord, Hash, Default)]
pub struct W24;

impl Width for W24 {
    open spec fn spec_bits() -> nat {
        24
    }

    fn bits() -> (r: u32) {
        24
    }
}

/// An unsigned integer of 24 bits.
#[allow(non_camel_case_types)]
pub type u24 = BitUint<W24>;

/// The width of `u48`.
#[derive(Clone, Copy, Debug, PartialEq, Eq, PartialOrd, Ord, Hash, Default)]
pub struct W48;

impl Width for W48 {
    open spec fn spec_bits() -> nat {
        48
    }

    fn bits() -> (r: u32) {
        48
    }
}

/// An unsigned integer of 48 bits.
#[allow(non_camel_case_types)]
pub type u48 = BitUint<W48>;

/// The width of `u80`.
#[derive(Clone, Copy, Debug, PartialEq, Eq, PartialOrd, Ord, Hash, Default)]
pub struct W80;

impl Width for W80 {
    open spec fn spec_bits() -> nat {
        80
    }

    fn bits() -> (r: u32) {
        80
    }
}

/// An unsigned integer of 80 bits.
#[allow(non_camel_case_types)]
pub type u80 = BitUint<W80>;

/// The width of `u256`.
#[derive(Clone, Copy, Debug, PartialEq, Eq, PartialOrd, Ord, Hash, Default)]
pub struct W256;

impl Width for W256 {
    open spec fn spec_bits() -> nat {
        256
    }

    fn bits() -> (r: u32) {
        256
    }
}

/// An unsigned integer of 256 bits.
#[allow(non_camel_case_types)]
pub type u256 = BitUint<W256>;

/// The width of `u512`.
#[derive(Clone, Copy, Debug, PartialEq, Eq, PartialOrd, Ord, Hash, Default)]
pub struct W512;

impl Width for W512 {
    open spec fn spec_bits() -> nat {
        512
    }

    fn bits() -> (r: u32) {
        512
    }
}

/// An unsigned integer of 512 bits.
#[allow(non_camel_case_types)]
pub type u512 = BitUint<W512>;

/// The width of `u1024`.
#[derive(Clone, Copy, Debug, PartialEq, Eq, PartialOrd, Ord, Hash, Default)]
pub struct W1024;

impl Width for W1024 {
    open spec fn spec_bits() -> nat {
        1024
    }

    fn bits() -> (r: u32) {
        1024
    }
}

/// An unsigned integer of 1024 bits.
#[allow(non_camel_case_types)]
pub type u1024 = BitUint<W1024>;

/// The width of `u2048`.
#[derive(Clone, Copy, Debug, PartialEq, Eq, PartialOrd, Ord, Hash, Default)]
pub struct W2048;

impl Width for W2048 {
    open spec fn spec_bits() -> nat {
        2048
    }

    fn bits() -> (r: u32) {
        2048
    }
}

/// An unsigned integer of 2048 bits.
#[allow(non_camel_case_types)]
pub type u2048 = BitUint<W2048>;

/// The width of `u4096`.
#[derive(Clone, Copy, Debug, PartialEq, Eq, PartialOrd, Ord, Hash, Default)]
pub struct W4096;

impl Width for W4096 {
    open spec fn spec_bits() -> nat {
        4096
    }

    fn bits() -> (r: u32) {
        4096
    }
}

/// An unsigned integer of 4096 bits.
#[allow(non_camel_case_types)]
pub type u4096 = BitUint<W4096>;

} // verus!
