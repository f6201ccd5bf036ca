//! Little-endian numbers in byte strings.

use vstd::prelude::*;

verus! {

/// The number that `s` stands for, the lowest byte first.
pub open spec fn le_value(s: Seq<u8>) -> nat
    decreases s.len(),
{
    if s.len() == 0 {
        0
    } else {
        s[0] as nat + 256 * le_value(s.drop_first())
    }
}

/// The lowest `width` bytes of `n`, the lowest first.
pub open spec fn le_bytes(n: nat, width: nat) -> Seq<u8>
    decreases width,
{
    if width == 0 {
        Seq::empty()
    } else {
        seq![(n % 256) as u8] + le_bytes(n / 256, (width - 1) as nat)
    }
}

/// 256 to the power of `width`.
pub open spec fn pow256(width: nat) -> nat
    decreases width,
{
    if width == 0 {
        1
    } else {
        256 * pow256((width - 1) as nat)
    }
}

pub proof fn lemma_le_bytes_len(n: nat, width: nat)
    ensures
        le_bytes(n, width).len() == width,
    decreases width,
{
    if width > 0 {
        lemma_le_bytes_len(n / 256, (width - 1) as nat);
    }
}

/// Reading back what was written gives the number, if it fits the width.
pub proof fn le_round_trip(n: nat, width: nat)
    requires
        n < pow256(width),
    ensures
        le_value(le_bytes(n, width)) == n,
        le_bytes(n, width).len() == width,
    decreases width,
{
    if width > 0 {
        assert(n / 256 < pow256((width - 1) as nat));
        le_round_trip(n / 256, (width - 1) as nat);
        let b = le_bytes(n, width);
        assert(b.drop_first() =~= le_bytes(n / 256, (width - 1) as nat));
        assert(b[0] == (n % 256) as u8);
    }
}

/// A byte string stands for a number below 256 to the power of its length.
pub proof fn lemma_le_value_bound(s: Seq<u8>)
    ensures
        le_value(s) < pow256(s.len()),
    decreases s.len(),
{
    if s.len() > 0 {
        lemma_le_value_bound(s.drop_first());
    }
}

pub proof fn lemma_pow256_grows(a: nat, b: nat)
    requires
        a <= b,
    ensures
        pow256(a) <= pow256(b),
    decreases b,
{
    if a < b {
        lemma_pow256_grows(a, (b - 1) as nat);
        assert(pow256((b - 1) as nat) >= 0);
    }
}

/// The powers that machine numbers need.
pub proof fn lemma_pow256_values()
    ensures
        pow256(1) == 0x100,
        pow256(2) == 0x1_0000,
        pow256(4) == 0x1_0000_0000,
        pow256(8) == 0x1_0000_0000_0000_0000,
{
    reveal_with_fuel(pow256, 9);
}

/// Bytes weigh more the later they stand: a single byte stands for itself, and what
/// follows the first `k` bytes counts 256 to the power of `k` times.
pub proof fn later_bytes_weigh_more(s: Seq<u8>, k: nat)
    requires
        k <= s.len(),
    ensures
        le_value(s) == le_value(s.take(k as int)) + pow256(k) * le_value(s.skip(k as int)),
        s.len() == 1 ==> le_value(s) == s[0],
    decreases s.len(),
{
    reveal_with_fuel(le_value, 2);
    if k == 0 {
        assert(s.skip(0) =~= s);
        assert(s.take(0).len() == 0);
    } else {
        let t = s.drop_first();
        later_bytes_weigh_more(t, (k - 1) as nat);
        assert(s.take(k as int).drop_first() =~= t.take(k - 1));
        assert(s.skip(k as int) =~= t.skip(k - 1));
        let p = pow256((k - 1) as nat);
        let v = le_value(s.skip(k as int));
        assert(256 * (p * v) == (256 * p) * v) by (nonlinear_arith);
    }
}

/// Writing a number that was read gives the bytes back.
pub proof fn read_bytes_are_written_back(s: Seq<u8>)
    ensures
        le_bytes(le_value(s), s.len()) == s,
    decreases s.len(),
{
    if s.len() > 0 {
        read_bytes_are_written_back(s.drop_first());
        assert(le_value(s) % 256 == s[0]);
        assert(le_value(s) / 256 == le_value(s.drop_first()));
        assert(le_bytes(le_value(s), s.len()) =~= s);
    } else {
        assert(le_bytes(le_value(s), 0) =~= s);
    }
}

/// Two, four and eight bytes spelled out.
pub proof fn le_values_spelled_out(s: Seq<u8>)
    ensures
        s.len() == 2 ==> le_value(s) == s[0] + 0x100 * s[1],
        s.len() == 4 ==> le_value(s) == s[0] + 0x100 * s[1] + 0x1_0000 * s[2] + 0x100_0000 * s[3],
        s.len() == 8 ==> le_value(s) == s[0] + 0x100 * s[1] + 0x1_0000 * s[2] + 0x100_0000 * s[3]
            + 0x1_0000_0000 * s[4] + 0x100_0000_0000 * s[5] + 0x1_0000_0000_0000 * s[6]
            + 0x100_0000_0000_0000 * s[7],
{
    reveal_with_fuel(le_value, 9);
}

/// Appends the lowest `width` bytes of `n`.
pub fn push_le(buf: &mut Vec<u8>, n: u64, width: usize)
    ensures
        final(buf)@ == old(buf)@ + le_bytes(n as nat, width as nat),
{
    let ghost before = buf@;
    let mut rest: u64 = n;
    let mut k: usize = 0;
    assert(before + le_bytes(n as nat, width as nat) =~= buf@ + le_bytes(
        rest as nat,
        (width - k) as nat,
    ));
    while k < width
        invariant
            k <= width,
            before + le_bytes(n as nat, width as nat) == buf@ + le_bytes(
                rest as nat,
                (width - k) as nat,
            ),
        decreases width - k,
    {
        let ghost so_far = buf@;
        let ghost left = le_bytes(rest as nat, (width - k) as nat);
        buf.push((rest % 256) as u8);
        rest = rest / 256;
        k = k + 1;
        assert(so_far + left =~= buf@ + le_bytes(rest as nat, (width - k) as nat));
    }
    assert(buf@ + le_bytes(rest as nat, 0) =~= buf@);
}

/// Reads the number that stands in the `width` bytes from `at` on.
pub fn read_le(buf: &[u8], at: usize, width: usize) -> (n: u64)
    requires
        width <= 8,
        at + width <= buf@.len(),
    ensures
        n == le_value(buf@.subrange(at as int, at + width)),
        n < pow256(width as nat),
{
    let len: usize = buf.len();
    let mut n: u64 = 0;
    let mut k: usize = width;
    assert(buf@.subrange(at + width, at + width).len() == 0);
    while k > 0
        invariant
            k <= width <= 8,
            at + width <= len == buf@.len(),
            n == le_value(buf@.subrange(at + k, at + width)),
        decreases k,
    {
        proof {
            let tail = buf@.subrange(at + k, at + width);
            let more = buf@.subrange(at + k - 1, at + width);
            assert(more.drop_first() =~= tail);
            assert(more[0] == buf@[at + k - 1]);
            lemma_le_value_bound(more);
            lemma_pow256_grows(more.len(), 8);
            lemma_pow256_values();
        }
        k = k - 1;
        n = n * 256 + buf[at + k] as u64;
    }
    proof {
        lemma_le_value_bound(buf@.subrange(at as int, at + width));
    }
    n
}

} // verus!
