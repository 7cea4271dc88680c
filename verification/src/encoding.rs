use vstd::prelude::*;
use vstd::utf8::{valid_utf8, decode_utf8};

verus! {

/// The unsigned big-endian integer written in the bytes of `s`.
pub open spec fn be_unsigned(s: Seq<u8>) -> nat
    decreases s.len(),
{
    if s.len() == 0 {
        0
    } else {
        be_unsigned(s.drop_last()) * 256 + s.last() as nat
    }
}

/// The big-endian number in the `n` bytes of `s` from byte `at` on.
pub open spec fn be_at(s: Seq<u8>, at: int, n: int) -> nat {
    be_unsigned(s.subrange(at, at + n))
}

proof fn lemma_be_take_step(s: Seq<u8>, i: int)
    requires
        0 <= i < s.len(),
    ensures
        be_unsigned(s.take(i + 1)) == be_unsigned(s.take(i)) * 256 + s[i] as nat,
{
    assert(s.take(i + 1).drop_last() =~= s.take(i));
}

/// A big-endian number of one, two, four, six or eight bytes, written out:
/// the first byte is the most significant.
pub proof fn lemma_be_unsigned_bytes(s: Seq<u8>)
    ensures
        s.len() == 1 ==> be_unsigned(s) == s[0] as nat,
        s.len() == 2 ==> be_unsigned(s) == s[0] * 0x100 + s[1] as nat,
        s.len() == 4 ==> be_unsigned(s) == s[0] * 0x100_0000 + s[1] * 0x1_0000 + s[2] * 0x100
            + s[3] as nat,
        s.len() == 6 ==> be_unsigned(s) == s[0] * 0x100_0000_0000 + s[1] * 0x1_0000_0000 + s[2]
            * 0x100_0000 + s[3] * 0x1_0000 + s[4] * 0x100 + s[5] as nat,
        s.len() == 8 ==> be_unsigned(s) == s[0] * 0x100_0000_0000_0000 + s[1]
            * 0x1_0000_0000_0000 + s[2] * 0x100_0000_0000 + s[3] * 0x1_0000_0000 + s[4]
            * 0x100_0000 + s[5] * 0x1_0000 + s[6] * 0x100 + s[7] as nat,
{
    assert(s.take(0) =~= Seq::<u8>::empty());
    assert(s.take(s.len() as int) =~= s);
    let n = s.len() as int;
    if n >= 1 {
        lemma_be_take_step(s, 0);
    }
    if n >= 2 {
        lemma_be_take_step(s, 1);
    }
    if n >= 3 {
        lemma_be_take_step(s, 2);
    }
    if n >= 4 {
        lemma_be_take_step(s, 3);
    }
    if n >= 5 {
        lemma_be_take_step(s, 4);
    }
    if n >= 6 {
        lemma_be_take_step(s, 5);
    }
    if n >= 7 {
        lemma_be_take_step(s, 6);
    }
    if n >= 8 {
        lemma_be_take_step(s, 7);
    }
}

/// The big-endian `u16` and `u32` fields at byte `at` of `s`, written out.
pub proof fn lemma_be_at_bytes(s: Seq<u8>, at: int)
    requires
        0 <= at,
    ensures
        at + 2 <= s.len() ==> be_at(s, at, 2) == s[at] * 0x100 + s[at + 1] as nat,
        at + 4 <= s.len() ==> be_at(s, at, 4) == s[at] * 0x100_0000 + s[at + 1] * 0x1_0000
            + s[at + 2] * 0x100 + s[at + 3] as nat,
{
    if at + 2 <= s.len() {
        lemma_be_unsigned_bytes(s.subrange(at, at + 2));
    }
    if at + 4 <= s.len() {
        lemma_be_unsigned_bytes(s.subrange(at, at + 4));
    }
}

/// `256` to the power `n`: one more than the largest value `n` bytes hold.
pub open spec fn byte_range(n: nat) -> nat
    decreases n,
{
    if n == 0 {
        1
    } else {
        256 * byte_range((n - 1) as nat)
    }
}

/// A big-endian number fits in the bytes it is written in.
pub proof fn lemma_be_unsigned_bound(s: Seq<u8>)
    ensures
        be_unsigned(s) < byte_range(s.len()),
    decreases s.len(),
{
    if s.len() > 0 {
        lemma_be_unsigned_bound(s.drop_last());
        let a = be_unsigned(s.drop_last());
        let r = byte_range((s.len() - 1) as nat);
        let b = s.last() as nat;
        assert(a * 256 + b < 256 * r) by (nonlinear_arith)
            requires
                a < r,
                b < 256,
        ;
    }
}

/// Reads the `n` bytes of `bytes` that start at `at` as a big-endian number.
pub fn read_be(bytes: &[u8], at: usize, n: usize) -> (v: u64)
    requires
        n <= 8,
        at + n <= bytes@.len(),
    ensures
        v == be_unsigned(bytes@.subrange(at as int, at + n)),
        v < byte_range(n as nat),
{
    let len = bytes.len();
    let mut v: u64 = 0;
    let mut i: usize = 0;
    while i < n
        invariant
            n <= 8,
            at + n <= bytes@.len(),
            len == bytes@.len(),
            i <= n,
            v == be_unsigned(bytes@.subrange(at as int, at + i)),
        decreases n - i,
    {
        proof {
            let s = bytes@.subrange(at as int, at + i);
            lemma_be_unsigned_bound(s);
            lemma_byte_range_monotonic(i as nat, 7);
            assert(byte_range(7) == 0x100_0000_0000_0000) by {
                reveal_with_fuel(byte_range, 8);
            }
            let t = bytes@.subrange(at as int, at + i + 1);
            assert(t.drop_last() =~= s);
        }
        v = v * 256 + bytes[at + i] as u64;
        i = i + 1;
    }
    proof {
        lemma_be_unsigned_bound(bytes@.subrange(at as int, at + n));
    }
    assert(bytes@.subrange(at as int, at + n).len() == n);
    v
}

/// Reads the two bytes of `bytes` at `at` as a big-endian `u16`.
pub fn read_u16(bytes: &[u8], at: usize) -> (v: u16)
    requires
        at + 2 <= bytes@.len(),
    ensures
        v == be_at(bytes@, at as int, 2),
{
    let v = read_be(bytes, at, 2);
    assert(byte_range(2) == 0x1_0000) by {
        reveal_with_fuel(byte_range, 3);
    }
    v as u16
}

/// Reads the four bytes of `bytes` at `at` as a big-endian `u32`.
pub fn read_u32(bytes: &[u8], at: usize) -> (v: u32)
    requires
        at + 4 <= bytes@.len(),
    ensures
        v == be_at(bytes@, at as int, 4),
{
    let v = read_be(bytes, at, 4);
    assert(byte_range(4) == 0x1_0000_0000) by {
        reveal_with_fuel(byte_range, 5);
    }
    v as u32
}

/// A longer field holds larger numbers.
pub proof fn lemma_byte_range_monotonic(m: nat, n: nat)
    requires
        m <= n,
    ensures
        byte_range(m) <= byte_range(n),
    decreases n,
{
    if m < n {
        lemma_byte_range_monotonic(m, (n - 1) as nat);
    }
}

/// Decodes `bytes` as UTF-8 text, as `std::str::from_utf8` does, and copies
/// the text out; `None` where the bytes are not valid UTF-8.
pub fn decode_text(bytes: &[u8]) -> (res: Option<String>)
    ensures
        res is Some <==> valid_utf8(bytes@),
        res matches Some(s) ==> s@ == decode_utf8(bytes@),
{
    match utf8_str(bytes) {
        Some(s) => Some(s.to_owned()),
        None => None,
    }
}

/// Calls `std::str::from_utf8`, which by its documentation accepts exactly
/// the valid UTF-8 byte sequences and then views them as the text they encode.
#[verifier::external_body]
pub(crate) fn utf8_str(bytes: &[u8]) -> (res: Option<&str>)
    ensures
        res is Some <==> valid_utf8(bytes@),
        res matches Some(s) ==> s@ == decode_utf8(bytes@),
{
    match std::str::from_utf8(bytes) {
        Ok(s) => Some(s),
        Err(_) => None,
    }
}

} // verus!
