//! Little-endian integers in byte sequences.

use vstd::prelude::*;

verus! {

/// The `width` low bytes of `n`, lowest first.
pub open spec fn le(n: nat, width: nat) -> Seq<u8>
    decreases width,
{
    if width == 0 {
        Seq::empty()
    } else {
        seq![(n % 256) as u8] + le(n / 256, (width - 1) as nat)
    }
}

/// The number whose bytes, lowest first, are `s`.
pub open spec fn unle(s: Seq<u8>) -> nat
    decreases s.len(),
{
    if s.len() == 0 {
        0
    } else {
        s[0] as nat + 256 * unle(s.drop_first())
    }
}

/// One more than the largest number of `width` bytes.
pub open spec fn byte_range(width: nat) -> nat
    decreases width,
{
    if width == 0 {
        1
    } else {
        256 * byte_range((width - 1) as nat)
    }
}

/// A signed number as the unsigned number with the same bits.
pub open spec fn bits_of(x: i64) -> u64 {
    if x >= 0 {
        x as u64
    } else {
        (x + 0x1_0000_0000_0000_0000) as u64
    }
}

/// The signed number with the bits of an unsigned number.
pub open spec fn signed_of(n: nat) -> i64 {
    if n < 0x8000_0000_0000_0000 {
        n as i64
    } else {
        (n - 0x1_0000_0000_0000_0000) as i64
    }
}

pub proof fn lemma_le_len(n: nat, width: nat)
    ensures
        le(n, width).len() == width,
    decreases width,
{
    if width > 0 {
        lemma_le_len(n / 256, (width - 1) as nat);
    }
}

/// Reading the bytes of a number gives the number.
pub proof fn lemma_unle_le(n: nat, width: nat)
    requires
        n < byte_range(width),
    ensures
        unle(le(n, width)) == n,
    decreases width,
{
    lemma_le_len(n, width);
    if width > 0 {
        lemma_unle_le(n / 256, (width - 1) as nat);
        assert(le(n, width).drop_first() =~= le(n / 256, (width - 1) as nat));
    }
}

/// Writing the number that bytes make gives the bytes.
pub proof fn lemma_le_unle(s: Seq<u8>)
    ensures
        le(unle(s), s.len()) == s,
        unle(s) < byte_range(s.len()),
    decreases s.len(),
{
    if s.len() > 0 {
        let rest = s.drop_first();
        lemma_le_unle(rest);
        let n = unle(s);
        assert(n % 256 == s[0] as nat && n / 256 == unle(rest));
        assert(le(n, s.len()) =~= seq![s[0]] + rest);
        assert(seq![s[0]] + rest =~= s);
    } else {
        assert(le(unle(s), 0) =~= s);
    }
}

/// The sizes of the widths in use.
pub proof fn lemma_byte_ranges()
    ensures
        byte_range(1) == 0x100,
        byte_range(2) == 0x1_0000,
        byte_range(4) == 0x1_0000_0000,
        byte_range(8) == 0x1_0000_0000_0000_0000,
        byte_range(16) == 0x1_0000_0000_0000_0000_0000_0000_0000_0000,
{
    reveal_with_fuel(byte_range, 17);
}

proof fn lemma_unle_push(s: Seq<u8>, b: u8)
    ensures
        unle(s.push(b)) == unle(s) + byte_range(s.len()) * b,
    decreases s.len(),
{
    if s.len() == 0 {
        assert(s.push(b).drop_first() =~= Seq::<u8>::empty());
        assert(unle(s.push(b).drop_first()) == 0);
        assert(byte_range(0) * b == b) by {
            assert(byte_range(0) == 1);
        }
    } else {
        assert(s.push(b).drop_first() =~= s.drop_first().push(b));
        lemma_unle_push(s.drop_first(), b);
        let r = byte_range((s.len() - 1) as nat);
        assert(s.push(b)[0] == s[0]);
        assert(byte_range(s.len()) == 256 * r);
        assert(256 * (r * b) == (256 * r) * b) by (nonlinear_arith);
        assert(byte_range(s.len()) * b == 256 * (r * b));
    }
}

proof fn lemma_range_mono(a: nat, b: nat)
    requires
        a <= b,
    ensures
        byte_range(a) <= byte_range(b),
        byte_range(a) >= 1,
    decreases b,
{
    if a < b {
        lemma_range_mono(a, (b - 1) as nat);
    } else if a > 0 {
        lemma_range_mono((a - 1) as nat, (a - 1) as nat);
    }
}

/// Appends the low bytes of a number, lowest first.
pub fn push_le(out: &mut Vec<u8>, n: u64, width: usize)
    ensures
        final(out)@ == old(out)@ + le(n as nat, width as nat),
{
    let ghost before = out@;
    let mut rest: u64 = n;
    let mut left: usize = width;
    proof {
        assert(out@ + le(rest as nat, left as nat) =~= before + le(n as nat, width as nat));
    }
    while left > 0
        invariant
            out@ + le(rest as nat, left as nat) == before + le(n as nat, width as nat),
        decreases left,
    {
        let ghost prev = out@;
        let ghost r = rest;
        out.push((rest % 256) as u8);
        rest = rest / 256;
        left = left - 1;
        proof {
            assert(le(r as nat, (left + 1) as nat) == seq![(r % 256) as u8] + le(
                rest as nat,
                left as nat,
            ));
            assert(out@ + le(rest as nat, left as nat) =~= prev + le(r as nat, (left + 1) as nat));
        }
    }
    proof {
        assert(out@ =~= out@ + le(rest as nat, 0));
    }
}

/// Appends the bytes of a signed number, lowest first.
pub fn push_le_signed(out: &mut Vec<u8>, x: i64)
    ensures
        final(out)@ == old(out)@ + le(bits_of(x) as nat, 8),
{
    let n: u64 = if x >= 0 {
        x as u64
    } else {
        (x as i128 + 0x1_0000_0000_0000_0000) as u64
    };
    push_le(out, n, 8);
}

/// The number in `width` bytes of `buf` from `pos` on.
pub fn read_le(buf: &[u8], pos: usize, width: usize) -> (n: u64)
    requires
        width <= 8,
        pos + width <= buf@.len(),
    ensures
        n == unle(buf@.subrange(pos as int, pos + width)),
{
    let len: usize = buf.len();
    let mut n: u64 = 0;
    let mut scale: u64 = 1;
    let mut i: usize = 0;
    proof {
        lemma_byte_ranges();
    }
    while i < width
        invariant
            width <= 8,
            i <= width,
            pos + width <= len,
            len == buf@.len(),
            n == unle(buf@.subrange(pos as int, pos + i)),
            n < byte_range(i as nat),
            i < 8 ==> scale == byte_range(i as nat),
            byte_range(8) == 0x1_0000_0000_0000_0000,
        decreases width - i,
    {
        let b: u8 = buf[pos + i];
        proof {
            let s = buf@.subrange(pos as int, pos + i);
            assert(buf@.subrange(pos as int, pos + i + 1) =~= s.push(b));
            lemma_unle_push(s, b);
            lemma_range_mono((i + 1) as nat, 8);
            let r = byte_range(i as nat);
            assert(r * b <= r * 255) by (nonlinear_arith)
                requires
                    b <= 255,
            ;
            assert(byte_range((i + 1) as nat) == 256 * r);
            assert(scale * b == r * b);
        }
        n = n + scale * (b as u64);
        i = i + 1;
        if i < 8 {
            proof {
                lemma_range_mono((i + 1) as nat, 8);
                assert(byte_range((i + 1) as nat) == 256 * byte_range(i as nat));
            }
            scale = scale * 256;
        }
    }
    n
}

/// The signed number with the bits of an unsigned number.
pub fn to_signed(n: u64) -> (x: i64)
    ensures
        x == signed_of(n as nat),
{
    if n < 0x8000_0000_0000_0000 {
        n as i64
    } else {
        (n as i128 - 0x1_0000_0000_0000_0000) as i64
    }
}

/// A number is written lowest byte first, with as many bytes as asked for.
pub proof fn law_lowest_first(out: &mut Vec<u8>, n: u64)
    requires
        call_ensures(push_le, (out, n, 8usize), ()),
    ensures
        final(out)@.len() == old(out)@.len() + 8,
        final(out)@.take(old(out)@.len() as int) == old(out)@,
        final(out)@[old(out)@.len() as int] == n % 256,
        final(out)@[old(out)@.len() as int + 1] == (n / 256) % 256,
        final(out)@[old(out)@.len() as int + 7] == n / 0x100_0000_0000_0000,
{
    let b = le(n as nat, 8);
    lemma_le_len(n as nat, 8);
    reveal_with_fuel(le, 9);
    let k = old(out)@.len() as int;
    assert(final(out)@.take(k) =~= old(out)@);
    assert(final(out)@[k] == b[0] && final(out)@[k + 1] == b[1] && final(out)@[k + 7] == b[7]);
    assert(b[7] == (n as nat / 256 / 256 / 256 / 256 / 256 / 256 / 256 % 256) as u8);
}

/// A signed number is found again in its bits.
pub proof fn law_signed_bits(x: i64)
    ensures
        signed_of(bits_of(x) as nat) == x,
        x >= 0 ==> bits_of(x) == x,
        x == -1 ==> bits_of(x) == u64::MAX,
{
}

} // verus!
