//! Little-endian byte encodings of numbers, and the loops that read and write them.
use vstd::arithmetic::div_mod::*;
use vstd::arithmetic::power2::*;
use vstd::prelude::*;

verus! {

/// The number that a little-endian byte sequence stands for (byte 0 least significant).
pub open spec fn le_value(bs: Seq<u8>) -> nat
    decreases bs.len(),
{
    if bs.len() == 0 {
        0
    } else {
        bs[0] as nat + 256 * le_value(bs.skip(1))
    }
}

/// The `n` low-order bytes of `v`, least significant first.
pub open spec fn le_bytes(v: nat, n: nat) -> Seq<u8>
    decreases n,
{
    if n == 0 {
        seq![]
    } else {
        seq![(v % 256) as u8] + le_bytes(v / 256, (n - 1) as nat)
    }
}

proof fn lemma_pow2_8()
    ensures
        pow2(8) == 256,
{
    lemma2_to64();
}

/// One more high byte multiplies the room by 256.
proof fn lemma_byte_step(x: nat, b: u8, k: nat)
    requires
        x < pow2(8 * k),
    ensures
        b as nat + 256 * x < pow2(8 * k + 8),
        pow2(8 * k + 8) == 256 * pow2(8 * k),
{
    lemma_pow2_8();
    lemma_pow2_adds(8 * k, 8);
    assert(b as nat + 256 * x < 256 * pow2(8 * k)) by (nonlinear_arith)
        requires
            x < pow2(8 * k),
            b < 256,
    ;
}

/// A little-endian sequence of `n` bytes stands for a number below `2^(8n)`.
pub proof fn lemma_le_value_bound(bs: Seq<u8>)
    ensures
        le_value(bs) < pow2(8 * bs.len()),
    decreases bs.len(),
{
    if bs.len() == 0 {
        lemma_pow2_pos(0);
    } else {
        lemma_le_value_bound(bs.skip(1));
        lemma_byte_step(le_value(bs.skip(1)), bs[0], (bs.len() - 1) as nat);
    }
}

/// The value of two byte sequences one after the other.
pub proof fn lemma_le_value_concat(c1: Seq<u8>, c2: Seq<u8>)
    ensures
        le_value(c1 + c2) == le_value(c1) + pow2(8 * c1.len()) * le_value(c2),
    decreases c1.len(),
{
    if c1.len() == 0 {
        assert(c1 + c2 =~= c2);
        lemma2_to64();
    } else {
        assert((c1 + c2).skip(1) =~= c1.skip(1) + c2);
        lemma_le_value_concat(c1.skip(1), c2);
        let k = (c1.len() - 1) as nat;
        lemma_pow2_pos(8 * k);
        lemma_byte_step(0, 0, k);
        assert(8 * c1.len() == 8 * k + 8);
        let a = le_value(c1.skip(1));
        let l = le_value(c2);
        let p = pow2(8 * k);
        assert(256 * (a + p * l) == 256 * a + (256 * p) * l) by (nonlinear_arith);
    }
}

/// Encoding `v` in `n` bytes and reading it back keeps `v` modulo `2^(8n)`.
pub proof fn lemma_le_bytes_value(v: nat, n: nat)
    ensures
        le_value(le_bytes(v, n)) == v % pow2(8 * n),
    decreases n,
{
    let bs = le_bytes(v, n);
    if n == 0 {
        lemma2_to64();
    } else {
        let k = (n - 1) as nat;
        assert(bs.skip(1) =~= le_bytes(v / 256, k));
        lemma_le_bytes_value(v / 256, k);
        lemma_pow2_pos(8 * k);
        lemma_byte_step(0, 0, k);
        lemma_pow2_pos(8 * k);
        lemma_mod_breakdown(v as int, 256, pow2(8 * k) as int);
        assert(8 * n == 8 * k + 8);
    }
}

/// Reading a byte sequence and encoding it again in as many bytes gives it back.
pub proof fn lemma_le_value_bytes(bs: Seq<u8>)
    ensures
        le_bytes(le_value(bs), bs.len()) == bs,
    decreases bs.len(),
{
    if bs.len() == 0 {
        assert(le_bytes(le_value(bs), 0) =~= bs);
    } else {
        let v = le_value(bs);
        let rest = le_value(bs.skip(1));
        lemma_fundamental_div_mod_converse(v as int, 256, rest as int, bs[0] as int);
        lemma_le_value_bytes(bs.skip(1));
        assert(le_bytes(v, bs.len()) =~= seq![bs[0]] + bs.skip(1));
        assert(seq![bs[0]] + bs.skip(1) =~= bs);
    }
}

/// An encoding in `n` bytes has `n` bytes.
pub proof fn lemma_le_bytes_len(v: nat, n: nat)
    ensures
        le_bytes(v, n).len() == n,
    decreases n,
{
    if n > 0 {
        lemma_le_bytes_len(v / 256, (n - 1) as nat);
    }
}

/// The first `m` bytes of a longer encoding are the `m`-byte encoding.
pub proof fn lemma_le_bytes_take(v: nat, n: nat, m: nat)
    requires
        m <= n,
    ensures
        le_bytes(v, n).take(m as int) == le_bytes(v, m),
    decreases m,
{
    if m == 0 {
        assert(le_bytes(v, n).take(0) =~= le_bytes(v, 0));
    } else {
        lemma_le_bytes_take(v / 256, (n - 1) as nat, (m - 1) as nat);
        let head = seq![(v % 256) as u8];
        assert(le_bytes(v, n) == head + le_bytes(v / 256, (n - 1) as nat));
        assert(le_bytes(v, m) == head + le_bytes(v / 256, (m - 1) as nat));
        let tail = le_bytes(v / 256, (n - 1) as nat);
        lemma_le_bytes_len(v / 256, (n - 1) as nat);
        assert((head + tail).take(m as int) =~= head + tail.take(m - 1));
    }
}

/// Appends the `n` low-order bytes of `x`, least significant first.
pub fn push_le_bytes(x: u128, n: usize, out: &mut Vec<u8>)
    ensures
        final(out)@ == old(out)@ + le_bytes(x as nat, n as nat),
{
    let ghost start = old(out)@;
    let mut rest: u128 = x;
    let mut j: usize = 0;
    while j < n
        invariant
            j <= n,
            start + le_bytes(x as nat, n as nat) == out@ + le_bytes(rest as nat, (n - j) as nat),
        decreases n - j,
    {
        let ghost before = out@;
        let ghost tail = le_bytes((rest / 256) as nat, (n - j - 1) as nat);
        assert(le_bytes(rest as nat, (n - j) as nat) == seq![(rest % 256) as u8] + tail);
        out.push((rest % 256) as u8);
        rest = rest / 256;
        j += 1;
        assert(before + (seq![out@.last()] + tail) =~= out@ + tail);
    }
    assert(le_bytes(rest as nat, 0) =~= Seq::<u8>::empty());
    assert(out@ + le_bytes(rest as nat, 0) =~= out@);
}

/// Reads `n` bytes starting at `start` as a little-endian number.
pub fn read_le(bytes: &Vec<u8>, start: usize, n: usize) -> (r: u128)
    requires
        start + n <= bytes.len(),
        n <= 16,
    ensures
        r as nat == le_value(bytes@.subrange(start as int, start + n)),
{
    let end = start + n;
    let mut x: u128 = 0;
    let mut j: usize = n;
    proof {
        assert(bytes@.subrange(end as int, end as int) =~= Seq::<u8>::empty());
        lemma_pow2_pos(0);
    }
    while j > 0
        invariant
            j <= n,
            n <= 16,
            end == start + n,
            end <= bytes.len(),
            x as nat == le_value(bytes@.subrange(start + j, end as int)),
            x < pow2(8 * (n - j) as nat),
        decreases j,
    {
        let b = bytes[start + j - 1];
        proof {
            lemma_byte_step(x as nat, b, (n - j) as nat);
            lemma_pow2_128();
            if 8 * (n - j) + 8 < 128 {
                lemma_pow2_strictly_increases((8 * (n - j) + 8) as nat, 128);
            }
            assert(bytes@.subrange(start + j - 1, end as int).skip(1) =~= bytes@.subrange(
                start + j,
                end as int,
            ));
        }
        x = (b as u128) + 256 * x;
        j -= 1;
        assert(8 * (n - j) as nat == 8 * (n - j - 1) as nat + 8);
    }
    x
}

/// Two to the 128th.
pub proof fn lemma_pow2_128()
    ensures
        pow2(128) == 0x1_0000_0000_0000_0000_0000_0000_0000_0000,
{
    lemma2_to64();
    lemma_pow2_adds(64, 64);
}

/// The bytes of `v` in reverse order.
pub fn reversed(v: &Vec<u8>) -> (r: Vec<u8>)
    ensures
        r@ == v@.reverse(),
{
    let mut r: Vec<u8> = Vec::new();
    let mut i: usize = v.len();
    while i > 0
        invariant
            i <= v.len(),
            r@ == v@.subrange(i as int, v.len() as int).reverse(),
        decreases i,
    {
        i -= 1;
        r.push(v[i]);
        assert(r@ =~= v@.subrange(i as int, v.len() as int).reverse());
    }
    assert(v@.subrange(0, v.len() as int) =~= v@);
    r
}

} // verus!
