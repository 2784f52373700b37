//! Little-endian numbers inside a sequence of bytes.
use vstd::prelude::*;

verus! {

/// `s` with the bytes from `at` on replaced by those of `b`.
pub open spec fn splice(s: Seq<u8>, at: int, b: Seq<u8>) -> Seq<u8> {
    Seq::new(
        s.len(),
        |i: int|
            if at <= i < at + b.len() {
                b[i - at]
            } else {
                s[i]
            },
    )
}

/// `s` with every byte from `from` up to, not including, `to` set to zero.
pub open spec fn zero_range(s: Seq<u8>, from: int, to: int) -> Seq<u8> {
    Seq::new(
        s.len(),
        |i: int|
            if from <= i < to {
                0u8
            } else {
                s[i]
            },
    )
}

/// The four bytes of `x`, least significant first.
pub open spec fn le_bytes_u32(x: u32) -> Seq<u8> {
    seq![
        (x % 256) as u8,
        (x / 0x100 % 256) as u8,
        (x / 0x1_0000 % 256) as u8,
        (x / 0x100_0000 % 256) as u8,
    ]
}

/// The eight bytes of `x`, least significant first.
pub open spec fn le_bytes_u64(x: u64) -> Seq<u8> {
    seq![
        (x % 256) as u8,
        (x / 0x100 % 256) as u8,
        (x / 0x1_0000 % 256) as u8,
        (x / 0x100_0000 % 256) as u8,
        (x / 0x1_0000_0000 % 256) as u8,
        (x / 0x100_0000_0000 % 256) as u8,
        (x / 0x1_0000_0000_0000 % 256) as u8,
        (x / 0x100_0000_0000_0000 % 256) as u8,
    ]
}

/// The number in the four bytes of `s` from `at` on.
#[verifier::opaque]
pub open spec fn get_u32(s: Seq<u8>, at: int) -> u32 {
    (s[at] + 0x100 * s[at + 1] + 0x1_0000 * s[at + 2] + 0x100_0000 * s[at + 3]) as u32
}

/// The number in the eight bytes of `s` from `at` on.
#[verifier::opaque]
pub open spec fn get_u64(s: Seq<u8>, at: int) -> u64 {
    (s[at] + 0x100 * s[at + 1] + 0x1_0000 * s[at + 2] + 0x100_0000 * s[at + 3] + 0x1_0000_0000 * s[
        at + 4] + 0x100_0000_0000 * s[at + 5] + 0x1_0000_0000_0000 * s[at + 6]
        + 0x100_0000_0000_0000 * s[at + 7]) as u64
}

/// `s` with `x` written in the four bytes from `at` on.
#[verifier::opaque]
pub open spec fn set_u32(s: Seq<u8>, at: int, x: u32) -> Seq<u8> {
    splice(s, at, le_bytes_u32(x))
}

/// `s` with `x` written in the eight bytes from `at` on.
#[verifier::opaque]
pub open spec fn set_u64(s: Seq<u8>, at: int, x: u64) -> Seq<u8> {
    splice(s, at, le_bytes_u64(x))
}

/// `s` and `t` hold the same bytes from `from` up to, not including, `to`.
pub open spec fn agree(s: Seq<u8>, t: Seq<u8>, from: int, to: int) -> bool {
    forall|i: int| from <= i < to ==> #[trigger] s[i] == t[i]
}

/// A number depends on its four bytes alone.
pub proof fn lemma_get_u32(s: Seq<u8>, t: Seq<u8>, at: int)
    requires
        agree(s, t, at, at + 4),
    ensures
        get_u32(s, at) == get_u32(t, at),
{
    reveal(get_u32);
}

/// A number depends on its eight bytes alone.
pub proof fn lemma_get_u64(s: Seq<u8>, t: Seq<u8>, at: int)
    requires
        agree(s, t, at, at + 8),
    ensures
        get_u64(s, at) == get_u64(t, at),
{
    reveal(get_u64);
}

/// What was written is read back, and no other byte changes.
pub proof fn lemma_set_u32(s: Seq<u8>, at: int, x: u32)
    requires
        0 <= at,
        at + 4 <= s.len(),
    ensures
        set_u32(s, at, x).len() == s.len(),
        get_u32(set_u32(s, at, x), at) == x,
        agree(set_u32(s, at, x), s, 0, at),
        agree(set_u32(s, at, x), s, at + 4, s.len() as int),
{
    reveal(get_u32);
    reveal(set_u32);
    assert(x == x % 256 + 0x100 * (x / 0x100 % 256) + 0x1_0000 * (x / 0x1_0000 % 256) + 0x100_0000
        * (x / 0x100_0000 % 256)) by (bit_vector);
}

/// What was written is read back, and no other byte changes.
pub proof fn lemma_set_u64(s: Seq<u8>, at: int, x: u64)
    requires
        0 <= at,
        at + 8 <= s.len(),
    ensures
        set_u64(s, at, x).len() == s.len(),
        get_u64(set_u64(s, at, x), at) == x,
        agree(set_u64(s, at, x), s, 0, at),
        agree(set_u64(s, at, x), s, at + 8, s.len() as int),
{
    reveal(get_u64);
    reveal(set_u64);
    assert(x == x % 256 + 0x100 * (x / 0x100 % 256) + 0x1_0000 * (x / 0x1_0000 % 256) + 0x100_0000
        * (x / 0x100_0000 % 256) + 0x1_0000_0000 * (x / 0x1_0000_0000 % 256) + 0x100_0000_0000 * (x
        / 0x100_0000_0000 % 256) + 0x1_0000_0000_0000 * (x / 0x1_0000_0000_0000 % 256)
        + 0x100_0000_0000_0000 * (x / 0x100_0000_0000_0000 % 256)) by (bit_vector);
}

/// Writing back what is read changes nothing.
pub proof fn lemma_set_get_u32(s: Seq<u8>, at: int)
    requires
        0 <= at,
        at + 4 <= s.len(),
    ensures
        set_u32(s, at, get_u32(s, at)) == s,
{
    reveal(get_u32);
    reveal(set_u32);
    let x = get_u32(s, at);
    let (a, b, c, d) = (s[at], s[at + 1], s[at + 2], s[at + 3]);
    assert(x % 256 == a && x / 0x100 % 256 == b && x / 0x1_0000 % 256 == c && x / 0x100_0000 % 256
        == d) by (bit_vector)
        requires
            x == a + 0x100 * b + 0x1_0000 * c + 0x100_0000 * d,
    ;
    assert(set_u32(s, at, x) =~= s);
}

/// Equal numbers have equal bytes.
pub proof fn lemma_same_u32(s: Seq<u8>, t: Seq<u8>, at: int)
    requires
        get_u32(s, at) == get_u32(t, at),
    ensures
        agree(s, t, at, at + 4),
{
    reveal(get_u32);
    let (a, b, c, d) = (s[at], s[at + 1], s[at + 2], s[at + 3]);
    let (e, f, g, h) = (t[at], t[at + 1], t[at + 2], t[at + 3]);
    assert(a == e && b == f && c == g && d == h) by (bit_vector)
        requires
            a + 0x100 * b + 0x1_0000 * c + 0x100_0000 * d == e + 0x100 * f + 0x1_0000 * g
                + 0x100_0000 * h,
    ;
    assert forall|i: int| at <= i < at + 4 implies #[trigger] s[i] == t[i] by {
        assert(i == at || i == at + 1 || i == at + 2 || i == at + 3);
    }
}

/// Equal numbers have equal bytes.
pub proof fn lemma_same_u64(s: Seq<u8>, t: Seq<u8>, at: int)
    requires
        get_u64(s, at) == get_u64(t, at),
    ensures
        agree(s, t, at, at + 8),
{
    reveal(get_u64);
    let (a0, a1, a2, a3) = (s[at], s[at + 1], s[at + 2], s[at + 3]);
    let (a4, a5, a6, a7) = (s[at + 4], s[at + 5], s[at + 6], s[at + 7]);
    let (b0, b1, b2, b3) = (t[at], t[at + 1], t[at + 2], t[at + 3]);
    let (b4, b5, b6, b7) = (t[at + 4], t[at + 5], t[at + 6], t[at + 7]);
    assert(a0 == b0 && a1 == b1 && a2 == b2 && a3 == b3 && a4 == b4 && a5 == b5 && a6 == b6 && a7
        == b7) by (bit_vector)
        requires
            a0 + 0x100 * a1 + 0x1_0000 * a2 + 0x100_0000 * a3 + 0x1_0000_0000 * a4
                + 0x100_0000_0000 * a5 + 0x1_0000_0000_0000 * a6 + 0x100_0000_0000_0000 * a7
                == b0 + 0x100 * b1 + 0x1_0000 * b2 + 0x100_0000 * b3 + 0x1_0000_0000 * b4
                + 0x100_0000_0000 * b5 + 0x1_0000_0000_0000 * b6 + 0x100_0000_0000_0000 * b7,
    ;
    assert forall|i: int| at <= i < at + 8 implies #[trigger] s[i] == t[i] by {
        assert(i == at || i == at + 1 || i == at + 2 || i == at + 3 || i == at + 4 || i == at + 5
            || i == at + 6 || i == at + 7);
    }
}

} // verus!
