use vstd::prelude::*;
use vstd::slice::{slice_subrange, slice_to_vec};
use vstd::utf8::{valid_utf8, decode_utf8};
use std::borrow::Cow;
use crate::encoding::{be_at, be_unsigned, read_be, read_u16, utf8_str};
use crate::error::ParseError;
use crate::page::BTreePageType;

verus! {

// ---------------------------------------------------------------------------
// Varints
// ---------------------------------------------------------------------------

/// A variable-length integer (varint) read from the start of a byte slice.
///
/// Each of the first eight bytes carries seven bits of the value, most
/// significant group first, and a clear high bit ends the varint; a ninth
/// byte, when reached, carries eight bits. Smaller numbers take fewer bytes.
///
/// * `value` - The decoded integer value.
/// * `size` - The number of bytes used in the encoding.
#[derive(Debug, Clone, Copy, PartialEq, Eq)]
pub struct Varint {
    pub value: u64,
    pub size: usize,
}

/// The number of bytes the varint at the start of `s` occupies, counting
/// from byte `i` on, where the bytes before `i` all had their high bit set.
pub open spec fn varint_size_from(s: Seq<u8>, i: nat) -> nat
    decreases 9 - i,
{
    if i >= 9 || i >= s.len() {
        i
    } else if i < 8 && s[i as int] < 0x80 {
        i + 1
    } else {
        varint_size_from(s, i + 1)
    }
}

/// The number of bytes the varint at the start of `s` occupies: up to and
/// including the first of the first eight bytes whose high bit is clear, or
/// nine bytes, or all of `s` where it ends before either.
pub open spec fn varint_size(s: Seq<u8>) -> nat {
    varint_size_from(s, 0)
}

/// The low seven bits of the first `n` bytes of `s`, read as base-128 digits,
/// most significant first.
pub open spec fn seven_bit_groups(s: Seq<u8>, n: nat) -> nat
    decreases n,
{
    if n == 0 {
        0
    } else {
        seven_bit_groups(s, (n - 1) as nat) * 128 + (s[n - 1] % 128) as nat
    }
}

/// The value of the varint at the start of `s`.
pub open spec fn varint_value(s: Seq<u8>) -> nat {
    let n = varint_size(s);
    if n == 9 {
        seven_bit_groups(s, 8) * 256 + s[8] as nat
    } else {
        seven_bit_groups(s, n)
    }
}

/// The varint at the start of `s`.
pub open spec fn varint_of(s: Seq<u8>) -> Varint {
    Varint { value: varint_value(s) as u64, size: varint_size(s) as usize }
}

/// The varint at the start of `s` ends inside `s`: on a byte whose high bit
/// is clear, or after nine bytes.
pub open spec fn varint_complete(s: Seq<u8>) -> bool {
    let n = varint_size(s);
    n == 9 || (n > 0 && s[n - 1] < 0x80)
}

/// `128` to the power `n`.
pub open spec fn group_range(n: nat) -> nat
    decreases n,
{
    if n == 0 {
        1
    } else {
        128 * group_range((n - 1) as nat)
    }
}

proof fn lemma_seven_bit_groups_bound(s: Seq<u8>, n: nat)
    requires
        n <= s.len(),
    ensures
        seven_bit_groups(s, n) < group_range(n),
    decreases n,
{
    if n > 0 {
        lemma_seven_bit_groups_bound(s, (n - 1) as nat);
        let a = seven_bit_groups(s, (n - 1) as nat);
        let r = group_range((n - 1) as nat);
        let b = (s[n - 1] % 128) as nat;
        assert(a * 128 + b < 128 * r) by (nonlinear_arith)
            requires
                a < r,
                b < 128,
        ;
    }
}

proof fn lemma_varint_size_from_bounds(s: Seq<u8>, i: nat)
    requires
        i <= 9,
        i <= s.len(),
    ensures
        i <= varint_size_from(s, i) <= 9,
        varint_size_from(s, i) <= s.len(),
        i < s.len() && i < 9 ==> i < varint_size_from(s, i),
    decreases 9 - i,
{
    if i < 9 && i < s.len() && !(i < 8 && s[i as int] < 0x80) {
        lemma_varint_size_from_bounds(s, i + 1);
    }
}

/// The varint at the start of `s` takes at most nine bytes and no more
/// bytes than `s` has, and at least one where `s` is not empty.
pub proof fn lemma_varint_size_bounds(s: Seq<u8>)
    ensures
        varint_size(s) <= 9,
        varint_size(s) <= s.len(),
        s.len() > 0 ==> varint_size(s) >= 1,
        s.len() == 0 ==> varint_size(s) == 0,
{
    lemma_varint_size_from_bounds(s, 0);
}

/// A varint of fewer than nine bytes holds seven bits per byte: its value
/// is below `128` to the power of its size.
pub proof fn lemma_varint_value_bound(s: Seq<u8>)
    ensures
        varint_size(s) < 9 ==> varint_value(s) < group_range(varint_size(s)),
        varint_value(s) < 0x1_0000_0000_0000_0000,
{
    lemma_varint_size_bounds(s);
    let n = varint_size(s);
    if n < 9 {
        lemma_seven_bit_groups_bound(s, n);
        lemma_group_range_monotonic(n, 8);
    } else {
        lemma_seven_bit_groups_bound(s, 8);
    }
    assert(group_range(8) == 0x100_0000_0000_0000) by {
        reveal_with_fuel(group_range, 9);
    }
}

proof fn lemma_group_range_monotonic(m: nat, n: nat)
    requires
        m <= n,
    ensures
        group_range(m) <= group_range(n),
    decreases n,
{
    if m < n {
        lemma_group_range_monotonic(m, (n - 1) as nat);
    }
}

proof fn lemma_varint_size_from_extend(s: Seq<u8>, t: Seq<u8>, i: nat)
    requires
        varint_complete(s),
        varint_size_from(s, i) == varint_size(s),
        i < varint_size(s),
    ensures
        varint_size_from(s + t, i) == varint_size(s),
    decreases 9 - i,
{
    lemma_varint_size_bounds(s);
    let k = varint_size(s);
    assert((s + t)[i as int] == s[i as int]);
    if !(i < 8 && s[i as int] < 0x80) {
        if i + 1 < k {
            lemma_varint_size_from_extend(s, t, i + 1);
        } else {
            assert(k == 9);
            assert(varint_size_from(s + t, 9) == 9);
        }
    }
}

proof fn lemma_seven_bit_groups_extend(s: Seq<u8>, t: Seq<u8>, n: nat)
    requires
        n <= s.len(),
    ensures
        seven_bit_groups(s + t, n) == seven_bit_groups(s, n),
    decreases n,
{
    if n > 0 {
        lemma_seven_bit_groups_extend(s, t, (n - 1) as nat);
        assert((s + t)[n - 1] == s[n - 1]);
    }
}

/// Bytes after a complete varint do not change it: the varint at the start
/// of `s + t` is the one at the start of `s`.
pub proof fn lemma_varint_prefix(s: Seq<u8>, t: Seq<u8>)
    requires
        varint_complete(s),
    ensures
        varint_of(s + t) == varint_of(s),
{
    lemma_varint_size_bounds(s);
    lemma_varint_size_from_extend(s, t, 0);
    let n = varint_size(s);
    if n == 9 {
        lemma_seven_bit_groups_extend(s, t, 8);
        assert((s + t)[8] == s[8]);
    } else {
        lemma_seven_bit_groups_extend(s, t, n);
    }
}

proof fn lemma_varint_size_from_drop_first(s: Seq<u8>, i: nat)
    requires
        s.len() >= 1,
        varint_size_from(s, i + 1) <= 8,
    ensures
        varint_size_from(s.drop_first(), i) + 1 == varint_size_from(s, i + 1),
    decreases 9 - i,
{
    let d = s.drop_first();
    if i + 1 < 9 && i + 1 < s.len() {
        assert(d[i as int] == s[i as int + 1]);
        if !(i + 1 < 8 && s[i as int + 1] < 0x80) {
            if i + 1 == 8 {
                assert(varint_size_from(s, 9) == 9);
            } else {
                lemma_varint_size_from_drop_first(s, i + 1);
            }
        }
    }
}

proof fn lemma_seven_bit_groups_drop_first(s: Seq<u8>, n: nat)
    requires
        1 <= n <= s.len(),
    ensures
        seven_bit_groups(s, n) == (s[0] % 128) as nat * group_range((n - 1) as nat)
            + seven_bit_groups(s.drop_first(), (n - 1) as nat),
    decreases n,
{
    let d = s.drop_first();
    if n > 1 {
        lemma_seven_bit_groups_drop_first(s, (n - 1) as nat);
        let a = (s[0] % 128) as nat;
        let r = group_range((n - 2) as nat);
        let g = seven_bit_groups(d, (n - 2) as nat);
        assert(d[n - 2] == s[n - 1]);
        assert((a * r + g) * 128 == a * (128 * r) + g * 128) by (nonlinear_arith);
        assert(group_range((n - 1) as nat) == 128 * r);
        assert(seven_bit_groups(d, (n - 1) as nat) == g * 128 + (d[n - 2] % 128) as nat);
        assert(seven_bit_groups(s, n) == seven_bit_groups(s, (n - 1) as nat) * 128 + (s[n - 1]
            % 128) as nat);
        assert(seven_bit_groups(s, (n - 1) as nat) == a * r + g);
        assert(seven_bit_groups(s, n) == (a * r + g) * 128 + (s[n - 1] % 128) as nat);
        assert(seven_bit_groups(s, n) == a * (128 * r) + g * 128 + (s[n - 1] % 128) as nat);
    } else {
        assert(n == 1);
        assert(group_range(0) == 1);
        let a = (s[0] % 128) as nat;
        let r = group_range(0);
        assert(a * r == a) by (nonlinear_arith)
            requires
                r == 1,
        ;
        assert(seven_bit_groups(d, 0) == 0);
        assert(seven_bit_groups(s, 1) == seven_bit_groups(s, 0) * 128 + (s[0] % 128) as nat);
    }
}

/// A single byte with its high bit clear is a whole varint: its own value.
pub proof fn lemma_varint_single_byte(s: Seq<u8>)
    requires
        s.len() >= 1,
        s[0] < 0x80,
    ensures
        varint_size(s) == 1,
        varint_value(s) == s[0],
{
    assert(seven_bit_groups(s, 0) == 0);
}

/// A first byte with its high bit set carries the top seven bits of a varint
/// of up to eight bytes: the rest of the varint is the varint that starts at
/// the next byte, one byte shorter, and the first byte's low seven bits come
/// above its value.
pub proof fn lemma_varint_leading_byte(s: Seq<u8>)
    requires
        s.len() >= 2,
        s[0] >= 0x80,
        varint_size(s) <= 8,
    ensures
        varint_size(s) == varint_size(s.drop_first()) + 1,
        varint_value(s) == (s[0] - 0x80) * group_range(varint_size(s.drop_first()))
            + varint_value(s.drop_first()),
{
    lemma_varint_size_from_drop_first(s, 0);
    lemma_varint_size_bounds(s);
    let n = varint_size(s);
    lemma_seven_bit_groups_drop_first(s, n);
}

/// Where the first eight bytes all have their high bit set, the varint takes
/// nine bytes: its low eight bits are the ninth byte, and the rest is the
/// value of the first eight bytes with the eighth one ending the varint.
pub proof fn lemma_varint_nine_bytes(s: Seq<u8>)
    requires
        s.len() >= 9,
        forall|j: int| 0 <= j < 8 ==> s[j] >= 0x80,
    ensures
        varint_size(s) == 9,
        varint_value(s) == varint_value(s.take(7).push((s[7] - 0x80) as u8)) * 256 + s[8],
{
    let t = s.take(7).push((s[7] - 0x80) as u8);
    assert(varint_size_from(s, 9) == 9);
    assert(varint_size_from(s, 8) == 9);
    assert(varint_size_from(s, 7) == 9);
    assert(varint_size_from(s, 6) == 9);
    assert(varint_size_from(s, 5) == 9);
    assert(varint_size_from(s, 4) == 9);
    assert(varint_size_from(s, 3) == 9);
    assert(varint_size_from(s, 2) == 9);
    assert(varint_size_from(s, 1) == 9);
    assert(varint_size_from(s, 0) == 9);
    assert(t[7] < 0x80);
    assert(varint_size_from(t, 7) == 8);
    assert(varint_size_from(t, 6) == 8);
    assert(varint_size_from(t, 5) == 8);
    assert(varint_size_from(t, 4) == 8);
    assert(varint_size_from(t, 3) == 8);
    assert(varint_size_from(t, 2) == 8);
    assert(varint_size_from(t, 1) == 8);
    assert(varint_size_from(t, 0) == 8);
    lemma_seven_bit_groups_same(s, t, 8);
}

proof fn lemma_seven_bit_groups_same(s: Seq<u8>, t: Seq<u8>, n: nat)
    requires
        n <= s.len(),
        n <= t.len(),
        forall|j: int| 0 <= j < n ==> #[trigger] (s[j] % 128) == t[j] % 128,
    ensures
        seven_bit_groups(s, n) == seven_bit_groups(t, n),
    decreases n,
{
    if n > 0 {
        lemma_seven_bit_groups_same(s, t, (n - 1) as nat);
        assert(s[n - 1] % 128 == t[n - 1] % 128);
    }
}

impl Varint {
    /// Reads the varint at the start of `bytes`. Every input is accepted: an
    /// empty slice gives the value 0 in 0 bytes, and a slice that ends before
    /// the varint does gives what its bytes hold.
    pub fn from_bytes(bytes: &[u8]) -> (r: Result<Self, ParseError>)
        ensures
            r == Ok::<Varint, ParseError>(varint_of(bytes@)),
    {
        let len = bytes.len();
        let mut value: u64 = 0;
        let mut size: usize = 0;
        let mut i: usize = 0;
        proof {
            lemma_varint_size_bounds(bytes@);
            assert(group_range(7) == 0x2_0000_0000_0000) by {
                reveal_with_fuel(group_range, 8);
            }
            assert(group_range(8) == 0x100_0000_0000_0000) by {
                reveal_with_fuel(group_range, 9);
            }
        }
        while i < len && i < 9
            invariant_except_break
                len == bytes@.len(),
                i <= 9,
                i <= len,
                size == i,
                group_range(7) == 0x2_0000_0000_0000,
                group_range(8) == 0x100_0000_0000_0000,
                varint_size(bytes@) == varint_size_from(bytes@, i as nat),
                i <= 8 ==> value == seven_bit_groups(bytes@, i as nat),
                i == 9 ==> value == varint_value(bytes@) && varint_size(bytes@) == 9,
            ensures
                value == varint_value(bytes@),
                size == varint_size(bytes@),
            decreases 9 - i,
        {
            let byte = bytes[i];
            size = size + 1;
            if i == 8 {
                proof {
                    lemma_seven_bit_groups_bound(bytes@, 8);
                }
                value = value * 256 + byte as u64;
                assert(varint_size_from(bytes@, 9) == 9);
                assert(varint_size(bytes@) == 9);
            } else {
                proof {
                    lemma_seven_bit_groups_bound(bytes@, i as nat);
                    lemma_group_range_monotonic(i as nat, 7);
                }
                assert(byte & 0x7F == byte % 128) by (bit_vector);
                value = value * 128 + (byte & 0x7F) as u64;
                assert((byte & 0x80 == 0) == (byte < 0x80)) by (bit_vector);
                if (byte & 0x80) == 0 {
                    break;
                }
            }
            i = i + 1;
        }
        proof {
            lemma_varint_value_bound(bytes@);
        }
        Ok(Varint { value, size })
    }
}

// ---------------------------------------------------------------------------
// Cell pointers
// ---------------------------------------------------------------------------

/// The offset of a cell within its page, as the cell pointer array holds it.
#[derive(Debug)]
pub struct CellPointer {
    pub offset: u16,
}

impl CellPointer {
    /// Reads a cell pointer: the first two bytes of `bytes`, big-endian.
    pub fn from_bytes(bytes: &[u8]) -> (r: Result<Self, ParseError>)
        requires
            bytes@.len() >= 2,
        ensures
            r matches Ok(p) && p.offset == be_at(bytes@, 0, 2),
            r matches Ok(p) && p.offset == bytes@[0] * 0x100 + bytes@[1],
    {
        proof {
            crate::encoding::lemma_be_at_bytes(bytes@, 0);
        }
        Ok(CellPointer { offset: read_u16(bytes, 0) })
    }
}

// ---------------------------------------------------------------------------
// Serial types and values
// ---------------------------------------------------------------------------

/// The type, and for texts and blobs the length, of a value in a record, as
/// the record header encodes it.
#[derive(Debug, Clone, Copy, PartialEq, Eq)]
pub enum SerialType {
    Null,
    Integer8,
    Integer16,
    Integer24,
    Integer32,
    Integer48,
    Integer64,
    Float64,
    Zero,
    One,
    Blob(usize),
    Text(usize),
}

impl SerialType {
    /// The serial type that the header code `value` stands for. The codes
    /// 10 and 11, which are reserved, stand for `Null`.
    pub open spec fn spec_from_value(value: u64) -> SerialType {
        if value == 0 {
            SerialType::Null
        } else if value == 1 {
            SerialType::Integer8
        } else if value == 2 {
            SerialType::Integer16
        } else if value == 3 {
            SerialType::Integer24
        } else if value == 4 {
            SerialType::Integer32
        } else if value == 5 {
            SerialType::Integer48
        } else if value == 6 {
            SerialType::Integer64
        } else if value == 7 {
            SerialType::Float64
        } else if value == 8 {
            SerialType::Zero
        } else if value == 9 {
            SerialType::One
        } else if value >= 12 && value % 2 == 0 {
            SerialType::Blob(((value - 12) / 2) as usize)
        } else if value >= 13 && value % 2 == 1 {
            SerialType::Text(((value - 13) / 2) as usize)
        } else {
            SerialType::Null
        }
    }

    /// Decodes a serial type code from a record header.
    #[verifier::when_used_as_spec(spec_from_value)]
    pub fn from_value(value: u64) -> (t: Self)
        ensures
            t == Self::spec_from_value(value),
    {
        match value {
            0 => SerialType::Null,
            1 => SerialType::Integer8,
            2 => SerialType::Integer16,
            3 => SerialType::Integer24,
            4 => SerialType::Integer32,
            5 => SerialType::Integer48,
            6 => SerialType::Integer64,
            7 => SerialType::Float64,
            8 => SerialType::Zero,
            9 => SerialType::One,
            n if n >= 12 && n % 2 == 0 => SerialType::Blob(((n - 12) / 2) as usize),
            n if n >= 13 && n % 2 == 1 => SerialType::Text(((n - 13) / 2) as usize),
            _ => SerialType::Null,
        }
    }

    /// The number of content bytes a value of this type takes in a record.
    pub open spec fn spec_size(&self) -> usize {
        match *self {
            SerialType::Null => 0,
            SerialType::Integer8 => 1,
            SerialType::Integer16 => 2,
            SerialType::Integer24 => 3,
            SerialType::Integer32 => 4,
            SerialType::Integer48 => 6,
            SerialType::Integer64 => 8,
            SerialType::Float64 => 8,
            SerialType::Zero => 1,
            SerialType::One => 1,
            SerialType::Blob(n) => n,
            SerialType::Text(n) => n,
        }
    }

    /// The number of content bytes a value of this type takes in a record.
    #[verifier::when_used_as_spec(spec_size)]
    pub fn size(&self) -> (n: usize)
        ensures
            n == self.spec_size(),
    {
        match self {
            SerialType::Null => 0,
            SerialType::Integer8 => 1,
            SerialType::Integer16 => 2,
            SerialType::Integer24 => 3,
            SerialType::Integer32 => 4,
            SerialType::Integer48 => 6,
            SerialType::Integer64 => 8,
            SerialType::Float64 => 8,
            SerialType::Zero => 1,
            SerialType::One => 1,
            SerialType::Blob(n) => *n,
            SerialType::Text(n) => *n,
        }
    }

    /// This type is one of the integer types that values are read for.
    pub open spec fn is_parsed_integer(&self) -> bool {
        match *self {
            SerialType::Integer8 | SerialType::Integer16 | SerialType::Integer32
            | SerialType::Integer48 | SerialType::Integer64 => true,
            _ => false,
        }
    }
}

/// The content size of a text or blob is what its header code says: codes
/// of 12 and up give `(code - 12) / 2` bytes of blob when even and
/// `(code - 13) / 2` bytes of text when odd; the fixed-size types take 0, 1,
/// 2, 3, 4, 6, 8, 8, 1 and 1 bytes for the codes 0 to 9.
pub proof fn lemma_serial_type_size(value: u64)
    ensures
        value >= 12 && value % 2 == 0 ==> SerialType::from_value(value)
            == SerialType::Blob(((value - 12) / 2) as usize) && SerialType::from_value(value).size()
            == ((value - 12) / 2) as usize,
        value >= 13 && value % 2 == 1 ==> SerialType::from_value(value)
            == SerialType::Text(((value - 13) / 2) as usize) && SerialType::from_value(value).size()
            == ((value - 13) / 2) as usize,
        value <= 9 ==> SerialType::from_value(value).size() == seq![0usize, 1, 2, 3, 4, 6, 8, 8, 1, 1][value as int],
{
}

/// The header code that stands for the serial type `t`.
pub open spec fn serial_type_code(t: SerialType) -> int {
    match t {
        SerialType::Null => 0,
        SerialType::Integer8 => 1,
        SerialType::Integer16 => 2,
        SerialType::Integer24 => 3,
        SerialType::Integer32 => 4,
        SerialType::Integer48 => 5,
        SerialType::Integer64 => 6,
        SerialType::Float64 => 7,
        SerialType::Zero => 8,
        SerialType::One => 9,
        SerialType::Blob(k) => 2 * k + 12,
        SerialType::Text(k) => 2 * k + 13,
    }
}

/// `from_value` maps the valid header codes (0 to 9, and 12 and up) one to
/// one onto the serial types: decoding a valid code and taking the code of
/// the result gives the code back, where the length it encodes fits a
/// `usize`.
pub proof fn lemma_serial_type_code_of_value(value: u64)
    requires
        value <= 9 || (value >= 12 && (value - 12) / 2 <= usize::MAX),
    ensures
        serial_type_code(SerialType::from_value(value)) == value,
{
}

/// Every serial type whose code fits a `u64` is what `from_value` decodes
/// from its code.
pub proof fn lemma_serial_type_value_of_code(t: SerialType)
    requires
        serial_type_code(t) <= u64::MAX,
    ensures
        SerialType::from_value(serial_type_code(t) as u64) == t,
{
}

/// A value read from a record.
#[derive(Debug, PartialEq, Eq)]
pub enum Value<'a> {
    Null,
    Integer(i64),
    Text(Cow<'a, str>),
    Blob(Cow<'a, [u8]>),
}

/// What a `Value` holds.
pub enum ValueView {
    Null,
    Integer(i64),
    Text(Seq<char>),
    Blob(Seq<u8>),
}

impl<'a> View for Value<'a> {
    type V = ValueView;

    open spec fn view(&self) -> ValueView {
        match self {
            Value::Null => ValueView::Null,
            Value::Integer(i) => ValueView::Integer(*i),
            Value::Text(s) => ValueView::Text(s@),
            Value::Blob(b) => ValueView::Blob(b@),
        }
    }
}

impl<'a> Clone for Value<'a> {
    /// Copies the value; a borrowed text or blob stays borrowed.
    fn clone(&self) -> (r: Self)
        ensures
            r@ == self@,
    {
        match self {
            Value::Null => Value::Null,
            Value::Integer(i) => Value::Integer(*i),
            Value::Text(Cow::Borrowed(t)) => Value::Text(Cow::Borrowed(*t)),
            Value::Text(Cow::Owned(t)) => Value::Text(Cow::Owned(t.clone())),
            Value::Blob(Cow::Borrowed(b)) => Value::Blob(Cow::Borrowed(*b)),
            Value::Blob(Cow::Owned(b)) => Value::Blob(Cow::Owned(b.clone())),
        }
    }
}

impl<'a> Value<'a> {
    /// The same value, owning its text or blob instead of borrowing it.
    fn to_owned(self) -> (r: Value<'static>)
        ensures
            r@ == self@,
    {
        match self {
            Value::Null => Value::Null,
            Value::Integer(i) => Value::Integer(i),
            Value::Text(t) => Value::Text(
                Cow::Owned(
                    match t {
                        Cow::Borrowed(b) => b.to_owned(),
                        Cow::Owned(o) => o,
                    },
                ),
            ),
            Value::Blob(b) => Value::Blob(
                Cow::Owned(
                    match b {
                        Cow::Borrowed(v) => slice_to_vec(v),
                        Cow::Owned(o) => o,
                    },
                ),
            ),
        }
    }
}

/// The bytes of `s`, read as a big-endian number, then as a 64-bit two's
/// complement integer (so only eight bytes with the high bit set give a
/// negative number).
pub open spec fn be_integer(s: Seq<u8>) -> i64 {
    let u = be_unsigned(s);
    if u >= 0x8000_0000_0000_0000 {
        (u - 0x1_0000_0000_0000_0000) as i64
    } else {
        u as i64
    }
}

/// Reading a value of type `t` from the start of `s`: `None` where `s` holds
/// fewer bytes than the value takes (reading would go out of bounds), else
/// the value, or why it is rejected.
pub open spec fn value_outcome(t: SerialType, s: Seq<u8>) -> Option<Result<ValueView, ParseError>> {
    match t {
        SerialType::Integer8 | SerialType::Integer16 | SerialType::Integer32
        | SerialType::Integer48 | SerialType::Integer64 => {
            if s.len() < t.spec_size() {
                None
            } else {
                Some(Ok(ValueView::Integer(be_integer(s.take(t.spec_size() as int)))))
            }
        },
        SerialType::Text(n) => {
            if s.len() < n {
                None
            } else if valid_utf8(s.take(n as int)) {
                Some(Ok(ValueView::Text(decode_utf8(s.take(n as int)))))
            } else {
                Some(Err(ParseError::InvalidUtf8))
            }
        },
        SerialType::Blob(n) => {
            if s.len() < n {
                None
            } else {
                Some(Ok(ValueView::Blob(s.take(n as int))))
            }
        },
        _ => Some(Err(ParseError::UnsupportedSerialType)),
    }
}

/// Integer values, byte by byte: 1, 2, 4 and 6 bytes give the unsigned
/// big-endian number they hold, most significant byte first; 8 bytes give
/// that number as a 64-bit two's complement integer. Fewer bytes than the
/// type takes cannot be read.
pub proof fn lemma_integer_values(s: Seq<u8>)
    ensures
        s.len() >= 1 ==> value_outcome(SerialType::Integer8, s) == Some(
            Ok::<ValueView, ParseError>(ValueView::Integer(s[0] as i64)),
        ),
        s.len() >= 2 ==> value_outcome(SerialType::Integer16, s) == Some(
            Ok::<ValueView, ParseError>(ValueView::Integer((s[0] * 0x100 + s[1]) as i64)),
        ),
        s.len() >= 4 ==> value_outcome(SerialType::Integer32, s) == Some(
            Ok::<ValueView, ParseError>(
                ValueView::Integer(
                    (s[0] * 0x100_0000 + s[1] * 0x1_0000 + s[2] * 0x100 + s[3]) as i64,
                ),
            ),
        ),
        s.len() >= 6 ==> value_outcome(SerialType::Integer48, s) == Some(
            Ok::<ValueView, ParseError>(
                ValueView::Integer(
                    (s[0] * 0x100_0000_0000 + s[1] * 0x1_0000_0000 + s[2] * 0x100_0000 + s[3]
                        * 0x1_0000 + s[4] * 0x100 + s[5]) as i64,
                ),
            ),
        ),
        s.len() >= 8 ==> value_outcome(SerialType::Integer64, s) == Some(
            Ok::<ValueView, ParseError>(
                ValueView::Integer(
                    (s[0] * 0x100_0000_0000_0000 + s[1] * 0x1_0000_0000_0000 + s[2]
                        * 0x100_0000_0000 + s[3] * 0x1_0000_0000 + s[4] * 0x100_0000 + s[5]
                        * 0x1_0000 + s[6] * 0x100 + s[7] - if s[0] >= 0x80 {
                        0x1_0000_0000_0000_0000int
                    } else {
                        0int
                    }) as i64,
                ),
            ),
        ),
        forall|t: SerialType|
            #![trigger value_outcome(t, s)]
            t.is_parsed_integer() ==> (value_outcome(t, s) is None <==> s.len() < t.size()),
{
    crate::encoding::lemma_be_unsigned_bytes(s.take(1));
    crate::encoding::lemma_be_unsigned_bytes(s.take(2));
    crate::encoding::lemma_be_unsigned_bytes(s.take(4));
    crate::encoding::lemma_be_unsigned_bytes(s.take(6));
    crate::encoding::lemma_be_unsigned_bytes(s.take(8));
}

/// Text, blob and unsupported values: a text of `n` bytes is the text that
/// its first `n` bytes encode in UTF-8, and is rejected where they are not
/// UTF-8; a blob of `n` bytes is its first `n` bytes; NULL, 24-bit integers,
/// floats and the constants 0 and 1 are rejected, whatever the bytes.
pub proof fn lemma_text_blob_values(s: Seq<u8>, n: usize)
    ensures
        s.len() < n ==> value_outcome(SerialType::Text(n), s) is None,
        s.len() < n ==> value_outcome(SerialType::Blob(n), s) is None,
        n <= s.len() ==> (value_outcome(SerialType::Text(n), s) matches Some(Ok(v)) <==> valid_utf8(
            s.subrange(0, n as int),
        )),
        n <= s.len() ==> (value_outcome(SerialType::Text(n), s) matches Some(Ok(v)) ==> v
            == ValueView::Text(decode_utf8(s.subrange(0, n as int)))),
        n <= s.len() && !valid_utf8(s.subrange(0, n as int)) ==> value_outcome(
            SerialType::Text(n),
            s,
        ) == Some(Err::<ValueView, ParseError>(ParseError::InvalidUtf8)),
        n <= s.len() ==> (value_outcome(SerialType::Blob(n), s) matches Some(Ok(v)) && v matches ValueView::Blob(b)
            && b.len() == n && forall|i: int| 0 <= i < n ==> #[trigger] b[i] == s[i]),
        forall|t: SerialType|
            #![trigger value_outcome(t, s)]
            t == SerialType::Null || t == SerialType::Integer24 || t == SerialType::Float64 || t
                == SerialType::Zero || t == SerialType::One ==> value_outcome(t, s) == Some(
                Err::<ValueView, ParseError>(ParseError::UnsupportedSerialType),
            ),
{
    assert(s.take(n as int) =~= s.subrange(0, n as int));
}

/// Views a parse result by the view of what it holds.
pub open spec fn view_value_result<'a>(r: Result<Value<'a>, ParseError>) -> Result<ValueView, ParseError> {
    match r {
        Ok(v) => Ok(v@),
        Err(e) => Err(e),
    }
}

fn twos_complement(u: u64) -> (i: i64)
    ensures
        i == (if u >= 0x8000_0000_0000_0000 {
            (u - 0x1_0000_0000_0000_0000) as i64
        } else {
            u as i64
        }),
{
    if u >= 0x8000_0000_0000_0000 {
        ((u - 0x8000_0000_0000_0000) as i64) + i64::MIN
    } else {
        u as i64
    }
}

// ---------------------------------------------------------------------------
// Cells
// ---------------------------------------------------------------------------

/// A cell of a B-tree page, by the kind of page it stands on.
#[derive(Debug, PartialEq)]
pub enum TableLeafCell<'a> {
    TableLeaf { payload_size: u64, rowid: u64, payload: Record<'a>, overflow_page: Option<u32> },
    TableInterior { left_child_page: u32, key: u64 },
    IndexLeaf { payload_size: u64, payload: Record<'a>, overflow_page: Option<u32> },
    IndexInterior {
        left_child_page: u32,
        payload_size: u64,
        payload: Record<'a>,
        overflow_page: Option<u32>,
    },
}

/// What a `TableLeafCell` holds.
pub enum TableLeafCellView {
    TableLeaf { payload_size: u64, rowid: u64, payload: RecordView, overflow_page: Option<u32> },
    TableInterior { left_child_page: u32, key: u64 },
    IndexLeaf { payload_size: u64, payload: RecordView, overflow_page: Option<u32> },
    IndexInterior {
        left_child_page: u32,
        payload_size: u64,
        payload: RecordView,
        overflow_page: Option<u32>,
    },
}

impl<'a> View for TableLeafCell<'a> {
    type V = TableLeafCellView;

    open spec fn view(&self) -> TableLeafCellView {
        match self {
            TableLeafCell::TableLeaf { payload_size, rowid, payload, overflow_page } => {
                TableLeafCellView::TableLeaf {
                    payload_size: *payload_size,
                    rowid: *rowid,
                    payload: payload@,
                    overflow_page: *overflow_page,
                }
            },
            TableLeafCell::TableInterior { left_child_page, key } => {
                TableLeafCellView::TableInterior { left_child_page: *left_child_page, key: *key }
            },
            TableLeafCell::IndexLeaf { payload_size, payload, overflow_page } => {
                TableLeafCellView::IndexLeaf {
                    payload_size: *payload_size,
                    payload: payload@,
                    overflow_page: *overflow_page,
                }
            },
            TableLeafCell::IndexInterior {
                left_child_page,
                payload_size,
                payload,
                overflow_page,
            } => TableLeafCellView::IndexInterior {
                left_child_page: *left_child_page,
                payload_size: *payload_size,
                payload: payload@,
                overflow_page: *overflow_page,
            },
        }
    }
}

/// Reading a table leaf cell from `s`: the payload size and the rowid as
/// varints, then the record that follows them. No overflow page is read.
pub open spec fn table_leaf_outcome(s: Seq<u8>) -> Option<Result<TableLeafCellView, ParseError>> {
    let payload_size = varint_of(s);
    let rowid = varint_of(s.skip(payload_size.size as int));
    let start = payload_size.size + rowid.size;
    match record_outcome(s.skip(start)) {
        None => None,
        Some(Err(e)) => Some(Err(e)),
        Some(Ok(rec)) => Some(
            Ok(
                TableLeafCellView::TableLeaf {
                    payload_size: payload_size.value,
                    rowid: rowid.value,
                    payload: rec,
                    overflow_page: None,
                },
            ),
        ),
    }
}

/// A table leaf cell is a payload-size varint, then a rowid varint, then
/// the record: the payload size is the value of the varint at the start,
/// the rowid that of the varint right after it, and the record (or why it
/// is rejected) is what reading a record from the bytes after both gives.
pub proof fn lemma_table_leaf_fields(s: Seq<u8>)
    ensures
        ({
            let n1 = varint_size(s);
            let n2 = varint_size(s.skip(n1 as int));
            let rec = record_outcome(s.skip((n1 + n2) as int));
            &&& table_leaf_outcome(s) is None <==> rec is None
            &&& table_leaf_outcome(s) matches Some(Err(e)) ==> rec == Some(
                Err::<RecordView, ParseError>(e),
            )
            &&& table_leaf_outcome(s) matches Some(Ok(c)) ==> {
                &&& c is TableLeaf
                &&& c matches TableLeafCellView::TableLeaf {
                    payload_size,
                    rowid,
                    payload,
                    overflow_page,
                } ==> {
                    &&& payload_size == varint_value(s)
                    &&& rowid == varint_value(s.skip(n1 as int))
                    &&& rec == Some(Ok::<RecordView, ParseError>(payload))
                    &&& overflow_page is None
                }
            }
        }),
{
    lemma_varint_size_bounds(s);
    lemma_varint_value_bound(s);
    lemma_varint_size_bounds(s.skip(varint_size(s) as int));
    lemma_varint_value_bound(s.skip(varint_size(s) as int));
}

/// Reading a cell of a page of type `page_type` from `s`: only table leaf
/// cells are read.
pub open spec fn cell_outcome(page_type: BTreePageType, s: Seq<u8>) -> Option<
    Result<TableLeafCellView, ParseError>,
> {
    match page_type {
        BTreePageType::TableLeaf => table_leaf_outcome(s),
        _ => Some(Err(ParseError::UnsupportedPageType)),
    }
}

/// Views a parse result by the view of what it holds.
pub open spec fn view_cell_result<'a>(r: Result<TableLeafCell<'a>, ParseError>) -> Result<
    TableLeafCellView,
    ParseError,
> {
    match r {
        Ok(c) => Ok(c@),
        Err(e) => Err(e),
    }
}

impl<'a> TableLeafCell<'a> {
    /// Reads the cell at the start of `bytes`, a cell of a page of type
    /// `page_type`. Only cells of table leaf pages are read; the others are
    /// rejected.
    pub fn parse(page_type: BTreePageType, bytes: &'a [u8]) -> (r: Result<Self, ParseError>)
        requires
            cell_outcome(page_type, bytes@) is Some,
        ensures
            cell_outcome(page_type, bytes@) == Some(view_cell_result(r)),
            page_type != BTreePageType::TableLeaf ==> r matches Err(ParseError::UnsupportedPageType),
            page_type == BTreePageType::TableLeaf ==> table_leaf_outcome(bytes@) == Some(
                view_cell_result(r),
            ),
    {
        match page_type {
            BTreePageType::TableLeaf => Self::parse_table_leaf(bytes),
            _ => Err(ParseError::UnsupportedPageType),
        }
    }

    fn parse_table_leaf(bytes: &'a [u8]) -> (r: Result<Self, ParseError>)
        requires
            table_leaf_outcome(bytes@) is Some,
        ensures
            table_leaf_outcome(bytes@) == Some(view_cell_result(r)),
    {
        let len = bytes.len();
        let payload_size = Varint::from_bytes(bytes)?;
        proof {
            lemma_varint_size_bounds(bytes@);
        }
        let after_size = slice_subrange(bytes, payload_size.size, len);
        assert(after_size@ =~= bytes@.skip(payload_size.size as int));
        let rowid = Varint::from_bytes(after_size)?;
        proof {
            lemma_varint_size_bounds(after_size@);
        }
        let payload_start = payload_size.size + rowid.size;
        let payload = slice_subrange(bytes, payload_start, len);
        assert(payload@ =~= bytes@.skip(payload_start as int));
        let record = Record::parse(payload)?;
        // The overflow page of a cell whose payload spills out of its page is
        // not located.
        let overflow_page = None;
        Ok(
            TableLeafCell::TableLeaf {
                payload_size: payload_size.value,
                rowid: rowid.value,
                payload: record,
                overflow_page,
            },
        )
    }
}

// ---------------------------------------------------------------------------
// Records
// ---------------------------------------------------------------------------

/// A record: its header size, the serial types its header lists, and the
/// values its body holds, one per serial type.
#[derive(Debug, PartialEq)]
pub struct Record<'a> {
    pub header_size: usize,
    pub serial_types: Vec<SerialType>,
    pub values: Vec<Value<'a>>,
}

/// What a `Record` holds.
pub struct RecordView {
    pub header_size: usize,
    pub serial_types: Seq<SerialType>,
    pub values: Seq<ValueView>,
}

impl<'a> View for Record<'a> {
    type V = RecordView;

    open spec fn view(&self) -> RecordView {
        RecordView {
            header_size: self.header_size,
            serial_types: self.serial_types@,
            values: self.values@.map_values(|v: Value<'a>| v@),
        }
    }
}

/// The serial types listed in a record header: one varint after another,
/// starting at byte `offset` of `s`, as long as the varint starts before
/// byte `end`.
pub open spec fn header_serial_types(s: Seq<u8>, offset: nat, end: nat) -> Seq<SerialType>
    decreases s.len() - offset,
{
    if offset < end && offset < s.len() {
        let v = varint_of(s.skip(offset as int));
        proof {
            lemma_varint_size_bounds(s.skip(offset as int));
        }
        seq![SerialType::from_value(v.value)] + header_serial_types(
            s,
            offset + v.size as nat,
            end,
        )
    } else {
        Seq::empty()
    }
}

/// Reading the values of the types `types`, from the `i`-th on, the first of
/// them at byte `offset` of `s` and each right after the one before:
/// `None` where a read goes out of bounds before any value is rejected.
pub open spec fn record_values(types: Seq<SerialType>, s: Seq<u8>, i: nat, offset: nat) -> Option<
    Result<Seq<ValueView>, ParseError>,
>
    decreases types.len() - i,
{
    if i >= types.len() {
        Some(Ok(Seq::empty()))
    } else if offset > s.len() {
        None
    } else {
        match value_outcome(types[i as int], s.skip(offset as int)) {
            None => None,
            Some(Err(e)) => Some(Err(e)),
            Some(Ok(v)) => prepend_values(
                seq![v],
                record_values(types, s, i + 1, offset + types[i as int].spec_size() as nat),
            ),
        }
    }
}

/// Puts the values `vs` before those of a successful read.
pub open spec fn prepend_values(
    vs: Seq<ValueView>,
    r: Option<Result<Seq<ValueView>, ParseError>>,
) -> Option<Result<Seq<ValueView>, ParseError>> {
    match r {
        Some(Ok(ws)) => Some(Ok(vs + ws)),
        other => other,
    }
}

/// Reading a record from `s`: `None` where reading would never
/// end (the header size is past the end of `s`) or would read out of bounds;
/// else the record, or why it is rejected.
pub open spec fn record_outcome(s: Seq<u8>) -> Option<Result<RecordView, ParseError>> {
    let h = varint_of(s);
    if h.value > s.len() {
        None
    } else {
        let types = header_serial_types(s, h.size as nat, h.value as nat);
        match record_values(types, s, 0, h.value as nat) {
            None => None,
            Some(Err(e)) => Some(Err(e)),
            Some(Ok(vs)) => Some(
                Ok(RecordView { header_size: h.value as usize, serial_types: types, values: vs }),
            ),
        }
    }
}

/// The value `v` is of the kind that serial type `t` calls for: an integer
/// for the integer types, and a text or blob of `n` bytes for those types.
pub open spec fn value_fits_type(t: SerialType, v: ValueView) -> bool {
    match t {
        SerialType::Text(n) => v is Text,
        SerialType::Blob(n) => v matches ValueView::Blob(b) && b.len() == n,
        _ => t.is_parsed_integer() && v is Integer,
    }
}

proof fn lemma_record_values_shape(types: Seq<SerialType>, s: Seq<u8>, i: nat, offset: nat)
    requires
        i <= types.len(),
    ensures
        record_values(types, s, i, offset) matches Some(Ok(vs)) ==> {
            &&& vs.len() == types.len() - i
            &&& forall|k: int|
                0 <= k < vs.len() ==> #[trigger] value_fits_type(types[i + k], vs[k])
        },
    decreases types.len() - i,
{
    if i < types.len() && offset <= s.len() {
        lemma_record_values_shape(types, s, i + 1, offset + types[i as int].spec_size() as nat);
        match record_values(types, s, i, offset) {
            Some(Ok(vs)) => {
                let v = vs[0];
                assert forall|k: int| 0 <= k < vs.len() implies #[trigger] value_fits_type(
                    types[i + k],
                    vs[k],
                ) by {
                    if k > 0 {
                        let tail = record_values(
                            types,
                            s,
                            i + 1,
                            offset + types[i as int].spec_size() as nat,
                        );
                        assert(tail matches Some(Ok(ws)) && vs[k] == ws[k - 1]);
                        assert(types[i + k] == types[(i + 1) + (k - 1)]);
                    }
                }
            },
            _ => {},
        }
    }
}

/// A record that is read has one value per serial type in its header, each
/// of the kind its serial type calls for, and the header size that its
/// first varint gives.
pub proof fn lemma_record_shape(s: Seq<u8>)
    requires
        s.len() <= usize::MAX,
    ensures
        record_outcome(s) matches Some(Ok(r)) ==> {
            &&& r.values.len() == r.serial_types.len()
            &&& r.header_size == varint_value(s)
            &&& forall|k: int|
                0 <= k < r.values.len() ==> #[trigger] value_fits_type(r.serial_types[k], r.values[k])
        },
{
    let h = varint_of(s);
    lemma_varint_value_bound(s);
    if h.value <= s.len() {
        let types = header_serial_types(s, h.size as nat, h.value as nat);
        lemma_record_values_shape(types, s, 0, h.value as nat);
        if let Some(Ok(r)) = record_outcome(s) {
            assert forall|k: int| 0 <= k < r.values.len() implies #[trigger] value_fits_type(
                r.serial_types[k],
                r.values[k],
            ) by {
                assert(types[0 + k] == types[k]);
            }
        }
    }
}

/// Every serial type code in the record header of `s`, from byte `offset`
/// on and starting before byte `end`, ends inside `s`.
pub open spec fn header_varints_complete(s: Seq<u8>, offset: nat, end: nat) -> bool
    decreases s.len() - offset,
{
    if offset < end && offset < s.len() {
        let v = varint_of(s.skip(offset as int));
        proof {
            lemma_varint_size_bounds(s.skip(offset as int));
        }
        varint_complete(s.skip(offset as int)) && header_varints_complete(
            s,
            offset + v.size as nat,
            end,
        )
    } else {
        true
    }
}

/// Every varint that reading a record from `s` reads (the header size and
/// each serial type code) ends inside `s`.
pub open spec fn record_varints_complete(s: Seq<u8>) -> bool {
    &&& varint_complete(s)
    &&& header_varints_complete(s, varint_size(s), varint_value(s))
}

proof fn lemma_skip_extend(s: Seq<u8>, t: Seq<u8>, offset: int)
    requires
        0 <= offset <= s.len(),
    ensures
        (s + t).skip(offset) == s.skip(offset) + t,
{
    assert((s + t).skip(offset) =~= s.skip(offset) + t);
}

proof fn lemma_header_serial_types_extend(s: Seq<u8>, t: Seq<u8>, offset: nat, end: nat)
    requires
        end <= s.len(),
        header_varints_complete(s, offset, end),
    ensures
        header_serial_types(s + t, offset, end) == header_serial_types(s, offset, end),
    decreases s.len() - offset,
{
    if offset < end {
        lemma_skip_extend(s, t, offset as int);
        lemma_varint_prefix(s.skip(offset as int), t);
        lemma_varint_size_bounds(s.skip(offset as int));
        let v = varint_of(s.skip(offset as int));
        lemma_header_serial_types_extend(s, t, offset + v.size as nat, end);
    }
}

proof fn lemma_value_outcome_extend(ty: SerialType, u: Seq<u8>, w: Seq<u8>)
    requires
        value_outcome(ty, u) is Some,
    ensures
        value_outcome(ty, u + w) == value_outcome(ty, u),
{
    let n = ty.spec_size() as int;
    if n <= u.len() {
        assert((u + w).take(n) =~= u.take(n));
    }
}

proof fn lemma_record_values_extend(
    types: Seq<SerialType>,
    s: Seq<u8>,
    t: Seq<u8>,
    i: nat,
    offset: nat,
)
    requires
        record_values(types, s, i, offset) is Some,
    ensures
        record_values(types, s + t, i, offset) == record_values(types, s, i, offset),
    decreases types.len() - i,
{
    if i < types.len() {
        lemma_skip_extend(s, t, offset as int);
        lemma_value_outcome_extend(types[i as int], s.skip(offset as int), t);
        match value_outcome(types[i as int], s.skip(offset as int)) {
            Some(Ok(v)) => {
                let next = offset + types[i as int].spec_size() as nat;
                if record_values(types, s, i + 1, next) is Some {
                    lemma_record_values_extend(types, s, t, i + 1, next);
                }
            },
            _ => {},
        }
    }
}

/// Bytes after a record do not change what reading it gives, where every
/// varint it reads ends inside the record's bytes: reading `s + t` gives
/// what reading `s` gives, whenever reading `s` stays in bounds.
pub proof fn lemma_record_prefix(s: Seq<u8>, t: Seq<u8>)
    requires
        record_outcome(s) is Some,
        record_varints_complete(s),
    ensures
        record_outcome(s + t) == record_outcome(s),
{
    lemma_varint_prefix(s, t);
    lemma_varint_value_bound(s);
    lemma_varint_size_bounds(s);
    let h = varint_of(s);
    assert(h.value <= s.len());
    lemma_header_serial_types_extend(s, t, h.size as nat, h.value as nat);
    let types = header_serial_types(s, h.size as nat, h.value as nat);
    lemma_record_values_extend(types, s, t, 0, h.value as nat);
}

/// Where the `k`-th serial type code of the record at the start of `s`
/// starts: right after the header-size varint for the first, and right
/// after the code before it for each other.
pub open spec fn header_code_offset(s: Seq<u8>, k: nat) -> nat
    decreases k,
{
    if k == 0 {
        varint_size(s)
    } else {
        let o = header_code_offset(s, (k - 1) as nat);
        o + varint_size(s.skip(o as int))
    }
}

/// Where the `k`-th value of a record with serial types `types` and body
/// starting at byte `start` starts: each value right after the one before.
pub open spec fn content_offset(types: Seq<SerialType>, start: nat, k: nat) -> nat
    decreases k,
{
    if k == 0 {
        start
    } else {
        content_offset(types, start, (k - 1) as nat) + types[k - 1].spec_size() as nat
    }
}

proof fn lemma_header_codes(s: Seq<u8>, j: nat, end: nat)
    requires
        end <= s.len(),
    ensures
        ({
            let ts = header_serial_types(s, header_code_offset(s, j), end);
            &&& forall|k: int|
                0 <= k < ts.len() ==> header_code_offset(s, j + k as nat) < end && #[trigger] ts[k]
                    == SerialType::from_value(
                    varint_value(s.skip(header_code_offset(s, j + k as nat) as int)) as u64,
                )
            &&& header_code_offset(s, j + ts.len()) >= end
        }),
    decreases s.len() - header_code_offset(s, j),
{
    let o = header_code_offset(s, j);
    let ts = header_serial_types(s, o, end);
    if o < end {
        lemma_varint_size_bounds(s.skip(o as int));
        assert(header_code_offset(s, j + 1) == o + varint_size(s.skip(o as int)));
        lemma_header_codes(s, j + 1, end);
        let rest = header_serial_types(s, header_code_offset(s, j + 1), end);
        assert(ts == seq![SerialType::from_value(varint_value(s.skip(o as int)) as u64)] + rest);
        assert forall|k: int|
            0 <= k < ts.len() implies header_code_offset(s, j + k as nat) < end && #[trigger] ts[k]
                == SerialType::from_value(
                varint_value(s.skip(header_code_offset(s, j + k as nat) as int)) as u64,
            ) by {
            if k > 0 {
                assert(ts[k] == rest[k - 1]);
                assert((j + 1) + (k - 1) as nat == j + k as nat);
            }
        }
        assert(j + ts.len() == (j + 1) + rest.len());
    } else {
        assert(ts.len() == 0);
    }
}

proof fn lemma_record_values_layout(
    types: Seq<SerialType>,
    s: Seq<u8>,
    start: nat,
    i: nat,
)
    requires
        i <= types.len(),
    ensures
        record_values(types, s, i, content_offset(types, start, i)) matches Some(Ok(vs)) ==> forall|
            k: int,
        |
            0 <= k < vs.len() ==> value_outcome(
                types[i + k],
                s.skip(content_offset(types, start, i + k as nat) as int),
            ) == Some(Ok::<ValueView, ParseError>(#[trigger] vs[k])),
    decreases types.len() - i,
{
    let o = content_offset(types, start, i);
    if i < types.len() && o <= s.len() {
        assert(content_offset(types, start, i + 1) == o + types[i as int].spec_size() as nat);
        lemma_record_values_layout(types, s, start, i + 1);
        if let Some(Ok(vs)) = record_values(types, s, i, o) {
            let tail = record_values(types, s, i + 1, content_offset(types, start, i + 1));
            assert forall|k: int| 0 <= k < vs.len() implies value_outcome(
                types[i + k],
                s.skip(content_offset(types, start, i + k as nat) as int),
            ) == Some(Ok::<ValueView, ParseError>(#[trigger] vs[k])) by {
                if k > 0 {
                    assert(tail matches Some(Ok(ws)) && vs[k] == ws[k - 1]);
                    assert((i + 1) + (k - 1) as nat == i + k as nat);
                    assert(types[(i + 1) + (k - 1)] == types[i + k]);
                }
            }
        }
    }
}

/// The layout of a record that is read: the `k`-th serial type is what the
/// varint at the `k`-th code offset (below the header size) stands for, the
/// codes end at the header size, and the `k`-th value is the value of the
/// `k`-th serial type read from the `k`-th content offset, the first right
/// at the header size and each right after the one before.
pub proof fn lemma_record_layout(s: Seq<u8>)
    requires
        s.len() <= usize::MAX,
    ensures
        record_outcome(s) matches Some(Ok(r)) ==> {
            &&& forall|k: int|
                0 <= k < r.serial_types.len() ==> header_code_offset(s, k as nat) < r.header_size
                    && #[trigger] r.serial_types[k] == SerialType::from_value(
                    varint_value(s.skip(header_code_offset(s, k as nat) as int)) as u64,
                )
            &&& header_code_offset(s, r.serial_types.len()) >= r.header_size
            &&& forall|k: int|
                0 <= k < r.values.len() ==> value_outcome(
                    r.serial_types[k],
                    s.skip(content_offset(r.serial_types, r.header_size as nat, k as nat) as int),
                ) == Some(Ok::<ValueView, ParseError>(#[trigger] r.values[k]))
        },
{
    lemma_varint_size_bounds(s);
    lemma_varint_value_bound(s);
    let h = varint_of(s);
    if h.value <= s.len() {
        assert(header_code_offset(s, 0) == h.size);
        lemma_header_codes(s, 0, h.value as nat);
        let types = header_serial_types(s, h.size as nat, h.value as nat);
        assert(content_offset(types, h.value as nat, 0) == h.value);
        lemma_record_values_layout(types, s, h.value as nat, 0);
        if let Some(Ok(r)) = record_outcome(s) {
            assert forall|k: int| 0 <= k < r.serial_types.len() implies header_code_offset(
                s,
                k as nat,
            ) < r.header_size && #[trigger] r.serial_types[k] == SerialType::from_value(
                varint_value(s.skip(header_code_offset(s, k as nat) as int)) as u64,
            ) by {
                assert(0 + k as nat == k as nat);
            }
            assert forall|k: int| 0 <= k < r.values.len() implies value_outcome(
                r.serial_types[k],
                s.skip(content_offset(r.serial_types, r.header_size as nat, k as nat) as int),
            ) == Some(Ok::<ValueView, ParseError>(#[trigger] r.values[k])) by {
                assert(0 + k as nat == k as nat);
                assert(types[0 + k] == types[k]);
            }
        }
    }
}

/// Views a parse result by the view of what it holds.
pub open spec fn view_record_result<'a>(r: Result<Record<'a>, ParseError>) -> Result<RecordView, ParseError> {
    match r {
        Ok(rec) => Ok(rec@),
        Err(e) => Err(e),
    }
}

impl<'a> Record<'a> {
    /// Reads the value of type `serial_type` from the start of `bytes`.
    ///
    /// Integers are read big-endian and, only where they take eight bytes,
    /// as two's complement; texts must be UTF-8. NULL, 24-bit integers,
    /// floats and the constants 0 and 1 are rejected.
    pub fn parse_value(serial_type: &SerialType, bytes: &'a [u8]) -> (r: Result<Value<'a>, ParseError>)
        requires
            value_outcome(*serial_type, bytes@) is Some,
        ensures
            value_outcome(*serial_type, bytes@) == Some(view_value_result(r)),
    {
        match serial_type {
            SerialType::Integer8 | SerialType::Integer16 | SerialType::Integer32
            | SerialType::Integer48 | SerialType::Integer64 => {
                let n = serial_type.size();
                let u = read_be(bytes, 0, n);
                assert(bytes@.subrange(0, n as int) =~= bytes@.take(n as int));
                Ok(Value::Integer(twos_complement(u)))
            },
            SerialType::Text(n) => {
                let text = slice_subrange(bytes, 0, *n);
                assert(text@ =~= bytes@.take(*n as int));
                match utf8_str(text) {
                    Some(t) => Ok(Value::Text(Cow::Borrowed(t))),
                    None => Err(ParseError::InvalidUtf8),
                }
            },
            SerialType::Blob(n) => {
                let blob = slice_subrange(bytes, 0, *n);
                assert(blob@ =~= bytes@.take(*n as int));
                Ok(Value::Blob(Cow::Borrowed(blob)))
            },
            _ => Err(ParseError::UnsupportedSerialType),
        }
    }

    /// Reads a record: a varint header size, then serial type codes up to
    /// that many bytes from the start, then one value per serial type.
    pub fn parse(bytes: &'a [u8]) -> (r: Result<Self, ParseError>)
        requires
            record_outcome(bytes@) is Some,
        ensures
            record_outcome(bytes@) == Some(view_record_result(r)),
    {
        let ghost s = bytes@;
        let len = bytes.len();
        let header_size = Varint::from_bytes(bytes)?;
        proof {
            lemma_varint_size_bounds(s);
        }
        let end = header_size.value as usize;
        let mut offset = header_size.size;
        let mut serial_types: Vec<SerialType> = Vec::new();
        while offset < end
            invariant
                s == bytes@,
                len == s.len(),
                header_size == varint_of(s),
                end == header_size.value,
                end <= len,
                offset <= len,
                header_serial_types(s, header_size.size as nat, end as nat) == serial_types@
                    + header_serial_types(s, offset as nat, end as nat),
            decreases len - offset,
        {
            let rest = slice_subrange(bytes, offset, len);
            assert(rest@ =~= s.skip(offset as int));
            let serial_type = Varint::from_bytes(rest)?;
            proof {
                lemma_varint_size_bounds(rest@);
            }
            let ghost before = serial_types@;
            serial_types.push(SerialType::from_value(serial_type.value));
            offset = offset + serial_type.size;
            assert(serial_types@ + header_serial_types(s, offset as nat, end as nat) =~= before
                + header_serial_types(s, (offset - serial_type.size) as nat, end as nat));
        }
        assert(serial_types@ =~= header_serial_types(s, header_size.size as nat, end as nat));
        let ghost types = serial_types@;
        let mut values: Vec<Value<'a>> = Vec::new();
        let mut content_offset: usize = end;
        let mut i: usize = 0;
        while i < serial_types.len()
            invariant
                s == bytes@,
                len == s.len(),
                types == serial_types@,
                header_size == varint_of(s),
                end == header_size.value,
                end <= len,
                types == header_serial_types(s, header_size.size as nat, end as nat),
                i <= types.len(),
                content_offset <= len,
                record_values(types, s, 0, end as nat) is Some,
                record_values(types, s, 0, end as nat) == prepend_values(
                    values@.map_values(|v: Value<'a>| v@),
                    record_values(types, s, i as nat, content_offset as nat),
                ),
            decreases types.len() - i,
        {
            let serial_type = &serial_types[i];
            let rest = slice_subrange(bytes, content_offset, len);
            assert(rest@ =~= s.skip(content_offset as int));
            let value = match Self::parse_value(serial_type, rest) {
                Ok(v) => v,
                Err(e) => {
                    assert(record_values(types, s, i as nat, content_offset as nat) == Some(
                        Err::<Seq<ValueView>, ParseError>(e),
                    ));
                    return Err(e);
                },
            };
            let ghost old_values = values@.map_values(|v: Value<'a>| v@);
            let ghost tail = record_values(types, s, (i + 1) as nat, (content_offset + serial_type.size()) as nat);
            content_offset = content_offset + serial_type.size();
            values.push(value);
            i = i + 1;
            proof {
                assert(values@.map_values(|v: Value<'a>| v@) =~= old_values.push(value@));
                match tail {
                    Some(Ok(ws)) => {
                        assert(old_values + (seq![value@] + ws) =~= old_values.push(value@) + ws);
                    },
                    _ => {},
                }
            }
        }
        proof {
            assert(values@.map_values(|v: Value<'a>| v@) + Seq::<ValueView>::empty() =~= values@.map_values(|v: Value<'a>| v@));
        }
        Ok(Record { header_size: end, serial_types, values })
    }
}

} // verus!
