//! The layout planner: how a bit width is split into native-word limbs.
use vstd::prelude::*;

verus! {

/// A width that a fixed-width integer may have: positive and a multiple of eight.
pub open spec fn valid_bits(bits: nat) -> bool {
    bits > 0 && bits % 8 == 0
}

/// The widths of the native words a limb may be.
pub open spec fn is_limb_width(w: u32) -> bool {
    w == 8 || w == 16 || w == 32 || w == 64 || w == 128
}

/// The largest limb width that still fits in `remaining` bits (`remaining >= 8`).
pub open spec fn largest_limb(remaining: nat) -> u32 {
    if remaining >= 128 {
        128
    } else if remaining >= 64 {
        64
    } else if remaining >= 32 {
        32
    } else if remaining >= 16 {
        16
    } else {
        8
    }
}

/// The greedy plan: the largest fitting limb first, then the plan of what is left.
/// The first entry holds the most significant bits.
pub open spec fn plan(bits: nat) -> Seq<u32>
    decreases bits,
{
    if bits < 8 {
        seq![]
    } else {
        seq![largest_limb(bits)] + plan((bits - largest_limb(bits)) as nat)
    }
}

/// The number of bits covered by a sequence of limb widths.
pub open spec fn total_bits(ws: Seq<u32>) -> nat
    decreases ws.len(),
{
    if ws.len() == 0 {
        0
    } else {
        ws[0] as nat + total_bits(ws.skip(1))
    }
}

/// Every entry of `ws` is a native limb width.
pub open spec fn all_limb_widths(ws: Seq<u32>) -> bool {
    forall|i: int| 0 <= i < ws.len() ==> is_limb_width(#[trigger] ws[i])
}

/// A plan covers its width exactly, with native limb widths only.
pub proof fn lemma_plan_exact(bits: nat)
    requires
        valid_bits(bits),
    ensures
        total_bits(plan(bits)) == bits,
        all_limb_widths(plan(bits)),
        plan(bits).len() > 0,
    decreases bits,
{
    let w = largest_limb(bits);
    let rest = (bits - w) as nat;
    let p = plan(bits);
    assert(p.skip(1) =~= plan(rest));
    if rest > 0 {
        lemma_plan_exact(rest);
    } else {
        assert(plan(rest) =~= Seq::<u32>::empty());
    }
    assert(total_bits(p) == w as nat + total_bits(p.skip(1)));
}

/// Computes the limb plan of a valid width.
pub fn limb_plan(bits: u32) -> (r: Vec<u32>)
    requires
        valid_bits(bits as nat),
    ensures
        r@ == plan(bits as nat),
{
    let mut r: Vec<u32> = Vec::new();
    let mut remaining: u32 = bits;
    while remaining != 0
        invariant
            remaining % 8 == 0,
            remaining <= bits,
            r@ + plan(remaining as nat) == plan(bits as nat),
        decreases remaining,
    {
        let w: u32 = if remaining >= 128 {
            128
        } else if remaining >= 64 {
            64
        } else if remaining >= 32 {
            32
        } else if remaining >= 16 {
            16
        } else {
            8
        };
        assert(plan(remaining as nat) =~= seq![w] + plan((remaining - w) as nat));
        r.push(w);
        remaining = remaining - w;
        assert(r@ + plan(remaining as nat) =~= plan(bits as nat));
    }
    assert(plan(0) =~= Seq::<u32>::empty());
    assert(r@ =~= r@ + plan(0));
    r
}

/// The limb plan of `bits`, or `None` when `bits` is zero or not a multiple of eight.
pub fn checked_limb_plan(bits: u32) -> (r: Option<Vec<u32>>)
    ensures
        (r is None) == !valid_bits(bits as nat),
        r matches Some(p) ==> p@ == plan(bits as nat),
{
    if bits == 0 || bits % 8 != 0 {
        None
    } else {
        Some(limb_plan(bits))
    }
}

} // verus!
