use vstd::prelude::*;
use vstd::string::StringSliceAdditionalSpecFns;

verus! {

pub const SIZE_OF_BYTE: i32 = 1;

pub const SIZE_OF_SHORT: i32 = 2;

pub const SIZE_OF_INT: i32 = 4;

pub const SIZE_OF_LONG: i32 = 8;

pub const CACHE_LINE_LENGTH: i32 = 64;

/// Lower-case hexadecimal digits, indexed by nibble value.
pub const HEX_DIGIT_TABLE: [u8; 16] = [
    48u8, 49u8, 50u8, 51u8, 52u8, 53u8, 54u8, 55u8, 56u8, 57u8, 97u8, 98u8, 99u8, 100u8, 101u8, 102u8,
];

const LAST_DIGIT_MASK: i64 = 1;

/// `v` is `2^k` for some `k >= 0`.
pub open spec fn is_pow2(v: int) -> bool
    decreases v,
{
    if v <= 0 {
        false
    } else if v == 1 {
        true
    } else {
        v % 2 == 0 && is_pow2(v / 2)
    }
}

/// The largest power of two that is at most `v` (for `v >= 1`).
pub open spec fn highest_pow2_at_most(v: int) -> int
    decreases v,
{
    if v <= 1 {
        1
    } else {
        2 * highest_pow2_at_most(v / 2)
    }
}

/// The smallest multiple of `alignment` that is at least `value`.
pub open spec fn spec_align(value: int, alignment: int) -> int {
    if value % alignment == 0 {
        value
    } else {
        value + (alignment - value % alignment)
    }
}

/// Value of an ASCII hexadecimal digit (either case); other bytes count as zero.
pub open spec fn hex_digit_value(b: u8) -> u8 {
    if 48 <= b <= 57 {
        (b - 48) as u8
    } else if 97 <= b <= 102 {
        (b - 87) as u8
    } else if 65 <= b <= 70 {
        (b - 55) as u8
    } else {
        0
    }
}

/// The lower-case ASCII digit of a nibble.
pub open spec fn hex_digit(n: int) -> u8 {
    if n < 10 {
        (n + 48) as u8
    } else {
        (n + 87) as u8
    }
}

/// Hexadecimal text of `bytes`: two digits per byte, high nibble first.
pub open spec fn hex_encode(bytes: Seq<u8>) -> Seq<u8> {
    Seq::new(
        2 * bytes.len(),
        |i: int|
            if i % 2 == 0 {
                hex_digit(bytes[i / 2] as int / 16)
            } else {
                hex_digit(bytes[i / 2] as int % 16)
            },
    )
}

/// Bytes whose hexadecimal text is `text`: each pair of digits gives one byte.
pub open spec fn hex_decode(text: Seq<u8>) -> Seq<u8> {
    Seq::new(
        text.len() / 2,
        |i: int| (16 * hex_digit_value(text[2 * i]) + hex_digit_value(text[2 * i + 1])) as u8,
    )
}

/// Every byte is an ASCII code.
pub open spec fn all_ascii(bytes: Seq<u8>) -> bool {
    forall|i: int| 0 <= i < bytes.len() ==> bytes[i] < 128
}

/// The characters whose codes are the given ASCII bytes.
pub open spec fn ascii_chars(bytes: Seq<u8>) -> Seq<char> {
    Seq::new(bytes.len(), |i: int| bytes[i] as char)
}

/// Highest power of two that is at most `value`.
pub fn find_next_positive_power_of_two_i32(value: i32) -> (r: i32)
    requires
        value > 0,
    ensures
        r == highest_pow2_at_most(value as int),
        is_pow2(r as int),
        r <= value < 2 * r,
{
    let mut v: i32 = value;
    let mut r: i32 = 1;
    while v > 1
        invariant
            1 <= v <= value,
            1 <= r,
            r * v <= value,
            is_pow2(r as int),
            r * highest_pow2_at_most(v as int) == highest_pow2_at_most(value as int),
            r * (v + 1) > value,
        decreases v,
    {
        proof {
            assert(2 * r <= r * v) by (nonlinear_arith)
                requires
                    r >= 1,
                    v >= 2,
            ;
            assert(2 * r * (v / 2 + 1) > value) by (nonlinear_arith)
                requires
                    r * (v + 1) > value,
                    v >= 2,
                    r >= 1,
            ;
            assert(r * (2 * highest_pow2_at_most(v as int / 2)) == (2 * r) * highest_pow2_at_most(
                v as int / 2,
            )) by (nonlinear_arith);
            assert(2 * r * (v / 2) <= r * v) by (nonlinear_arith)
                requires
                    r >= 1,
                    v >= 2,
            ;
        }
        v = v / 2;
        r = r * 2;
    }
    assert(v == 1);
    assert(r * v == r && r * (v + 1) == 2 * r) by (nonlinear_arith)
        requires
            v == 1,
    ;
    r
}

/// Highest power of two that is at most `value`.
pub fn find_next_positive_power_of_two_i64(value: i64) -> (r: i64)
    requires
        value > 0,
    ensures
        r == highest_pow2_at_most(value as int),
        is_pow2(r as int),
        r <= value < 2 * r,
{
    let mut v: i64 = value;
    let mut r: i64 = 1;
    while v > 1
        invariant
            1 <= v <= value,
            1 <= r,
            r * v <= value,
            is_pow2(r as int),
            r * highest_pow2_at_most(v as int) == highest_pow2_at_most(value as int),
            r * (v + 1) > value,
        decreases v,
    {
        proof {
            assert(2 * r <= r * v) by (nonlinear_arith)
                requires
                    r >= 1,
                    v >= 2,
            ;
            assert(2 * r * (v / 2 + 1) > value) by (nonlinear_arith)
                requires
                    r * (v + 1) > value,
                    v >= 2,
                    r >= 1,
            ;
            assert(r * (2 * highest_pow2_at_most(v as int / 2)) == (2 * r) * highest_pow2_at_most(
                v as int / 2,
            )) by (nonlinear_arith);
            assert(2 * r * (v / 2) <= r * v) by (nonlinear_arith)
                requires
                    r >= 1,
                    v >= 2,
            ;
        }
        v = v / 2;
        r = r * 2;
    }
    assert(v == 1);
    assert(r * v == r && r * (v + 1) == 2 * r) by (nonlinear_arith)
        requires
            v == 1,
    ;
    r
}

/// Rounds `value` up to the next multiple of `alignment`.
pub fn align(value: i32, alignment: i32) -> (r: i32)
    requires
        alignment > 0,
        0 <= value,
        value + alignment - 1 <= i32::MAX,
    ensures
        r == spec_align(value as int, alignment as int),
        r % alignment == 0,
        value <= r < value + alignment,
{
    let rem = value % alignment;
    proof {
        vstd::arithmetic::div_mod::lemma_fundamental_div_mod(value as int, alignment as int);
        vstd::arithmetic::div_mod::lemma_mod_multiples_basic(value / alignment + 1, alignment as int);
        assert((value / alignment + 1) * alignment == value - rem + alignment) by (nonlinear_arith)
            requires
                value == alignment * (value / alignment) + rem,
        ;
    }
    if rem == 0 {
        value
    } else {
        value + (alignment - rem)
    }
}

/// Value of one hexadecimal digit.
fn from_hex_digit(b: u8) -> (r: u8)
    ensures
        r == hex_digit_value(b),
        r < 16,
{
    if 48 <= b && b <= 57 {
        b - 48
    } else if 97 <= b && b <= 102 {
        b - 87
    } else if 65 <= b && b <= 70 {
        b - 55
    } else {
        0
    }
}

/// Decodes hexadecimal text, two digits per output byte.
pub fn from_hex_byte_array(buffer: &[u8]) -> (r: Vec<u8>)
    requires
        buffer@.len() % 2 == 0,
        all_ascii(buffer@),
    ensures
        r@ == hex_decode(buffer@),
{
    let blen = buffer.len();
    let n = blen / 2;
    let mut output_buffer: Vec<u8> = Vec::new();
    let mut i: usize = 0;
    while i < n
        invariant
            blen == buffer@.len(),
            n == buffer@.len() / 2,
            2 * n == buffer@.len(),
            i <= n,
            output_buffer@.len() == i,
            forall|j: int| 0 <= j < i ==> output_buffer@[j] == hex_decode(buffer@)[j],
        decreases n - i,
    {
        let hi = from_hex_digit(buffer[2 * i]);
        let lo = from_hex_digit(buffer[2 * i + 1]);
        output_buffer.push(16 * hi + lo);
        i = i + 1;
    }
    assert(output_buffer@ =~= hex_decode(buffer@));
    output_buffer
}

/// Hexadecimal text of all of `buffer`.
pub fn to_hex_byte_array(buffer: &[u8]) -> (r: Vec<u8>)
    requires
        buffer@.len() <= usize::MAX / 2,
    ensures
        r@ == hex_encode(buffer@),
{
    to_hex_byte_array0(buffer, 0, buffer.len())
}

/// Hexadecimal text of `buffer[offset .. offset + length]`.
pub fn to_hex_byte_array0(buffer: &[u8], offset: usize, length: usize) -> (r: Vec<u8>)
    requires
        offset + length <= buffer@.len(),
        length <= usize::MAX / 2,
    ensures
        r@ == hex_encode(buffer@.subrange(offset as int, offset + length)),
{
    let mut output_buffer: Vec<u8> = Vec::new();
    let mut i: usize = 0;
    let blen = buffer.len();
    let ghost src = buffer@.subrange(offset as int, offset + length);
    while i < length
        invariant
            blen == buffer@.len(),
            offset + length <= buffer@.len(),
            length <= usize::MAX / 2,
            src == buffer@.subrange(offset as int, offset + length),
            i <= length,
            output_buffer@.len() == 2 * i,
            forall|j: int| 0 <= j < 2 * i ==> output_buffer@[j] == hex_encode(src)[j],
        decreases length - i,
    {
        let b = buffer[offset + i];
        output_buffer.push(HEX_DIGIT_TABLE[(b / 16) as usize]);
        output_buffer.push(HEX_DIGIT_TABLE[(b % 16) as usize]);
        proof {
            assert(src[i as int] == b);
            assert forall|j: int| 0 <= j < 2 * (i + 1) implies output_buffer@[j] == hex_encode(
                src,
            )[j] by {
                if j >= 2 * i {
                    assert(j / 2 == i);
                }
            }
        }
        i = i + 1;
    }
    assert(output_buffer@ =~= hex_encode(src));
    output_buffer
}

/// Hexadecimal text of the bytes `offset .. offset + length` of a string's UTF-8 encoding.
pub fn to_hex_byte_array1(str: &str, offset: usize, length: usize) -> (r: Vec<u8>)
    requires
        offset + length <= str.spec_bytes().len(),
        length <= usize::MAX / 2,
    ensures
        r@ == hex_encode(str.spec_bytes().subrange(offset as int, offset + length)),
{
    to_hex_byte_array0(str.as_bytes(), offset, length)
}

/// Decodes hexadecimal text given as a string.
pub fn from_hex(string: &str) -> (r: Vec<u8>)
    requires
        string.spec_bytes().len() % 2 == 0,
        all_ascii(string.spec_bytes()),
    ensures
        r@ == hex_decode(string.spec_bytes()),
{
    from_hex_byte_array(string.as_bytes())
}

/// Relies on String::from_utf8_lossy: ASCII bytes are valid UTF-8 and are kept as they are.
#[verifier::external_body]
fn ascii_to_string(bytes: &[u8]) -> (r: String)
    requires
        all_ascii(bytes@),
    ensures
        r@ == ascii_chars(bytes@),
{
    String::from_utf8_lossy(bytes).into_owned()
}

/// Hexadecimal text of `buffer[offset .. offset + length]` as a string.
pub fn to_hex(buffer: &[u8], offset: usize, length: usize) -> (r: String)
    requires
        offset + length <= buffer@.len(),
        length <= usize::MAX / 2,
    ensures
        r@ == ascii_chars(hex_encode(buffer@.subrange(offset as int, offset + length))),
{
    let output = to_hex_byte_array0(buffer, offset, length);
    proof {
        lemma_hex_encode_ascii(buffer@.subrange(offset as int, offset + length));
    }
    ascii_to_string(output.as_slice())
}

/// Hexadecimal text of all of `buffer` as a string.
pub fn to_hex0(buffer: &[u8]) -> (r: String)
    requires
        buffer@.len() <= usize::MAX / 2,
    ensures
        r@ == ascii_chars(hex_encode(buffer@)),
{
    proof {
        assert(buffer@.subrange(0, buffer@.len() as int) =~= buffer@);
    }
    to_hex(buffer, 0, buffer.len())
}

proof fn lemma_hex_encode_ascii(bytes: Seq<u8>)
    ensures
        all_ascii(hex_encode(bytes)),
{
}

pub fn is_even(value: i32) -> (r: bool)
    ensures
        r == (value % 2 == 0),
{
    let masked = value & (LAST_DIGIT_MASK as i32);
    assert(masked == 0 <==> value % 2 == 0) by (bit_vector)
        requires
            masked == value & 1i32,
    ;
    masked == 0
}

pub fn is_even0(value: i64) -> (r: bool)
    ensures
        r == (value % 2 == 0),
{
    let masked = value & LAST_DIGIT_MASK;
    assert(masked == 0 <==> value % 2 == 0) by (bit_vector)
        requires
            masked == value & 1i64,
    ;
    masked == 0
}

pub fn is_power_of_two_i32(value: i32) -> (r: bool)
    ensures
        r == is_pow2(value as int),
{
    if value <= 0 {
        return false;
    }
    let mut v: i32 = value;
    while v > 1 && v % 2 == 0
        invariant
            1 <= v <= value,
            is_pow2(v as int) == is_pow2(value as int),
        decreases v,
    {
        v = v / 2;
    }
    v == 1
}

pub fn is_power_of_two_i320(value: i64) -> (r: bool)
    ensures
        r == is_pow2(value as int),
{
    if value <= 0 {
        return false;
    }
    let mut v: i64 = value;
    while v > 1 && v % 2 == 0
        invariant
            1 <= v <= value,
            is_pow2(v as int) == is_pow2(value as int),
        decreases v,
    {
        v = v / 2;
    }
    v == 1
}

/// The index after `current` in a cycle of `max` slots.
pub fn next(current: i32, max: i32) -> (r: i32)
    requires
        0 <= current < max,
    ensures
        r == if current + 1 == max {
            0
        } else {
            current + 1
        },
{
    let mut next = current + 1;
    if next == max {
        next = 0;
    }
    next
}

/// The index before `current` in a cycle of `max` slots.
pub fn prev(current: i32, max: i32) -> (r: i32)
    requires
        0 <= current < max,
    ensures
        r == if current == 0 {
            max - 1
        } else {
            current - 1
        },
{
    if current == 0 {
        max - 1
    } else {
        current - 1
    }
}

/// Shift that multiplies by a pointer size of `scale` bytes.
pub fn calculate_shift_for_scale(scale: i32) -> (r: i32)
    requires
        scale == 4 || scale == 8,
    ensures
        scale == 4 ==> r == 2,
        scale == 8 ==> r == 3,
{
    if scale == 4 {
        2
    } else {
        3
    }
}

/// `address`, taken modulo `2^32`, is a multiple of `alignment`.
pub fn is_aligned(address: i64, alignment: i32) -> (r: bool)
    requires
        is_pow2(alignment as int),
    ensures
        r == (#[verifier::truncate] (address as i32) as int % (alignment as int) == 0),
{
    let a = #[verifier::truncate] (address as i32) as i64;
    let m = alignment as i64;
    if a >= 0 {
        a % m == 0
    } else {
        proof {
            lemma_negated_multiple(a as int, m as int);
        }
        (-a) % m == 0
    }
}

proof fn lemma_negated_multiple(x: int, m: int)
    requires
        m > 0,
    ensures
        (x % m == 0) == ((-x) % m == 0),
{
    vstd::arithmetic::div_mod::lemma_fundamental_div_mod(x, m);
    vstd::arithmetic::div_mod::lemma_fundamental_div_mod(-x, m);
    if x % m == 0 {
        assert(-x == m * (-(x / m))) by (nonlinear_arith)
            requires
                x == m * (x / m),
        ;
        vstd::arithmetic::div_mod::lemma_mod_multiples_basic(-(x / m), m);
    }
    if (-x) % m == 0 {
        assert(x == m * (-((-x) / m))) by (nonlinear_arith)
            requires
                -x == m * ((-x) / m),
        ;
        vstd::arithmetic::div_mod::lemma_mod_multiples_basic(-((-x) / m), m);
    }
}

} // verus!
