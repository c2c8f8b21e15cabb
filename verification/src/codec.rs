//! The compact encoding of keys.
//!
//! A character becomes one byte if it is ASCII, two bytes if it is in the range that
//! holds most ideographs, and a length byte with groups of seven bits otherwise. No byte
//! of an encoded key is zero.

use vstd::prelude::*;
use vstd::arithmetic::power2::{lemma2_to64, pow2};

verus! {

/// Appends a character (`String::push`): the string then ends with that character.
pub assume_specification[ String::push ](s: &mut String, c: char)
    ensures
        final(s)@ == old(s)@.push(c),
;

/// The character with this number (`char::from_u32`), if there is one: surrogates and
/// numbers beyond the last character are none.
pub assume_specification[ char::from_u32 ](i: u32) -> (res: Option<char>)
    ensures
        res == (if i < 0xD800 || 0xE000 <= i <= 0x10FFFF {
            Some(i as char)
        } else {
            None
        }),
;

/// The `i`th group of seven bits, from the top, marked by the topmost bit of the byte.
pub open spec fn group(u: u32, i: int) -> u8 {
    (((u >> ((25 - 7 * i) as u32)) & 0x7F) | 0x80) as u8
}

/// The number of groups of a character.
pub open spec fn num_groups(u: u32) -> nat {
    if u < 0x800 {
        2
    } else if u < 0x4_0000 {
        3
    } else {
        4
    }
}

/// Whether a character is in the range with two bytes.
pub open spec fn is_wide(u: u32) -> bool {
    0x4000 <= u < 0xA000
}

/// The bytes of a character.
pub open spec fn encode_char(c: char) -> Seq<u8> {
    let u = c as u32;
    if u == 0 {
        seq![0xE0u8]
    } else if u < 0x80 {
        seq![u as u8]
    } else if is_wide(u) {
        if u & 0xFF == 0 {
            seq![0xE1u8, ((u >> 8) + 0x40) as u8]
        } else {
            seq![((u >> 8) + 0x40) as u8, (u & 0xFF) as u8]
        }
    } else {
        seq![(0xE0 + num_groups(u)) as u8] + Seq::new(num_groups(u), |i: int| group(u, i))
    }
}

/// The bytes of a string.
pub open spec fn encode_chars(s: Seq<char>) -> Seq<u8>
    decreases s.len(),
{
    if s.len() == 0 {
        Seq::empty()
    } else {
        encode_char(s[0]) + encode_chars(s.drop_first())
    }
}

/// The character with this number, if there is one.
pub open spec fn char_of(u: u32) -> Seq<char> {
    if u < 0xD800 || 0xE000 <= u <= 0x10FFFF {
        seq![u as char]
    } else {
        Seq::empty()
    }
}

/// How many of the first `n` bytes of `b` are marked, up to the first that is not.
pub open spec fn marked(b: Seq<u8>, n: int) -> nat
    decreases n,
{
    if n <= 0 || b.len() == 0 || b[0] < 0x80 {
        0
    } else {
        1 + marked(b.drop_first(), n - 1)
    }
}

/// The number that the first `n` groups make.
pub open spec fn gather(b: Seq<u8>, n: int) -> u32
    decreases n,
{
    if n <= 0 {
        0
    } else {
        (gather(b, n - 1) << 7) | ((b[n - 1] & 0x7F) as u32)
    }
}

/// The number that a high byte and a low byte make.
pub open spec fn wide(high: u8, low: u8) -> u32 {
    ((high as u32).wrapping_sub(0x40) << 8) | (low as u32)
}

/// The string that some bytes stand for. It ends where the bytes of a character are not
/// complete; numbers that are no characters are left out.
pub open spec fn decode_bytes(b: Seq<u8>) -> Seq<char>
    decreases b.len(),
{
    if b.len() == 0 {
        Seq::empty()
    } else if b[0] < 0x80 {
        seq![b[0] as char] + decode_bytes(b.skip(1))
    } else if b[0] == 0xE0 {
        seq!['\0'] + decode_bytes(b.skip(1))
    } else if b[0] == 0xE1 {
        if b.len() < 2 {
            Seq::empty()
        } else {
            char_of(wide(b[1], 0)) + decode_bytes(b.skip(2))
        }
    } else if b[0] & 0xF0 == 0xE0 {
        let n = (b[0] & 0x0F) as int;
        let r = marked(b.skip(1), n) as int;
        if n > b.len() || (n == b.len() && r == n - 1) {
            Seq::empty()
        } else if n == b.len() {
            char_of(gather(b.skip(1), r))
        } else {
            char_of(gather(b.skip(1), r)) + decode_bytes(b.skip(n + 1))
        }
    } else if b.len() < 2 {
        Seq::empty()
    } else {
        char_of(wide(b[0], b[1])) + decode_bytes(b.skip(2))
    }
}

/// A string can be encoded piece by piece.
pub proof fn lemma_encode_concat(s: Seq<char>, t: Seq<char>)
    ensures
        encode_chars(s + t) == encode_chars(s) + encode_chars(t),
    decreases s.len(),
{
    if s.len() == 0 {
        assert(s + t =~= t);
        assert(encode_chars(s) + encode_chars(t) =~= encode_chars(t));
    } else {
        assert((s + t).drop_first() =~= s.drop_first() + t);
        lemma_encode_concat(s.drop_first(), t);
        assert(encode_char(s[0]) + (encode_chars(s.drop_first()) + encode_chars(t)) =~= (encode_char(s[0])
            + encode_chars(s.drop_first())) + encode_chars(t));
    }
}

proof fn lemma_encode_push(s: Seq<char>, i: int)
    requires
        0 <= i < s.len(),
    ensures
        encode_chars(s.take(i + 1)) == encode_chars(s.take(i)) + encode_char(s[i]),
{
    let one = seq![s[i]];
    assert(s.take(i + 1) =~= s.take(i) + one);
    lemma_encode_concat(s.take(i), one);
    assert(one.drop_first() =~= Seq::<char>::empty());
    assert(encode_chars(one.drop_first()) =~= Seq::<u8>::empty());
    assert(encode_chars(one) =~= encode_char(s[i]));
}

/// The top seven bits, and the shifts that bring bits there.
proof fn lemma_top_bits(u: u32)
    ensures
        u & 0xFE00_0000 == 0 <==> u < 0x200_0000,
        u < 0x200_0000 ==> ((u << 7) & 0xFE00_0000 == 0 <==> u < 0x4_0000),
        u < 0x4_0000 ==> (((u << 7) << 7) & 0xFE00_0000 == 0 <==> u < 0x800),
        u < 0x800 ==> ((((u << 7) << 7) << 7) & 0xFE00_0000 == 0 <==> u < 0x10),
{
    assert({
        &&& u & 0xFE00_0000 == 0 <==> u < 0x200_0000
        &&& u < 0x200_0000 ==> ((u << 7) & 0xFE00_0000 == 0 <==> u < 0x4_0000)
        &&& u < 0x4_0000 ==> (((u << 7) << 7) & 0xFE00_0000 == 0 <==> u < 0x800)
        &&& u < 0x800 ==> ((((u << 7) << 7) << 7) & 0xFE00_0000 == 0 <==> u < 0x10)
    }) by (bit_vector);
}

/// The bytes of a character in the range with two bytes.
proof fn lemma_wide(u: u32)
    requires
        is_wide(u),
    ensures
        0x80 <= (u >> 8) + 0x40 < 0xE0,
        u & 0xFF <= 0xFF,
        wide(((u >> 8) + 0x40) as u8, (u & 0xFF) as u8) == u,
        (((u >> 8) + 0x40) as u8) & 0xF0 != 0xE0,
{
    assert(0x4000 <= u < 0xA000 ==> {
        let h = (u >> 8) as u32;
        &&& 0x40 <= h < 0xA0
        &&& u & 0xFF <= 0xFF
        &&& (h << 8) | (u & 0xFF) == u
    }) by (bit_vector);
    let h = (u >> 8) + 0x40;
    let b = h as u8;
    assert(0x80 <= b < 0xE0 ==> b & 0xF0 != 0xE0) by (bit_vector);
    assert((b as u32).wrapping_sub(0x40) == u >> 8);
}

/// Keys of the database.
pub struct GramDbKey;

impl GramDbKey {
    /// Encodes a string.
    pub fn encode(s: &str) -> (res: Vec<u8>)
        ensures
            res@ == encode_chars(s@),
    {
        let mut result: Vec<u8> = Vec::new();
        assert(s@.take(0) =~= Seq::<char>::empty());
        for c in it: s.chars()
            invariant
                it.seq() == s@,
                result@ == encode_chars(s@.take(it.index() as int)),
        {
            proof {
                lemma_encode_push(s@, it.index() as int);
                vstd::utf8::char_is_scalar(c);
            }
            let ghost before: Seq<u8> = result@;
            let u: u32 = c as u32;
            if u < 0x80 {
                if u == 0 {
                    result.push(0xE0);
                } else {
                    result.push(u as u8);
                }
            } else if u >= 0x4000 && u < 0xA000 {
                proof {
                    lemma_wide(u);
                }
                if (u & 0xFF) == 0 {
                    result.push(0xE1);
                    result.push(((u >> 8) + 0x40) as u8);
                } else {
                    result.push(((u >> 8) + 0x40) as u8);
                    result.push((u & 0xFF) as u8);
                }
            } else {
                let bytes_to_encode: u32 = Self::count_groups(u);
                result.push((0xE0 + bytes_to_encode) as u8);
                let mut i: u32 = 0;
                while i < bytes_to_encode
                    invariant
                        i <= bytes_to_encode <= 4,
                        result@ == before + (seq![(0xE0 + bytes_to_encode) as u8] + Seq::new(
                            i as nat,
                            |j: int| group(u, j),
                        )),
                    decreases bytes_to_encode - i,
                {
                    let shift_amount: u32 = 25 - 7 * i;
                    proof {
                        assert(((u >> shift_amount) & 0x7F) | 0x80 <= 0xFF) by (bit_vector)
                            requires
                                shift_amount <= 25,
                        ;
                    }
                    result.push((((u >> shift_amount) & 0x7F) | 0x80) as u8);
                    i += 1;
                    assert(result@ =~= before + (seq![(0xE0 + bytes_to_encode) as u8] + Seq::new(
                        i as nat,
                        |j: int| group(u, j),
                    )));
                }
            }
            assert(result@ =~= before + encode_char(c));
        }
        assert(s@.take(s@.len() as int) =~= s@);
        result
    }

    /// The number of groups of a character that has neither one byte nor two.
    fn count_groups(u: u32) -> (res: u32)
        requires
            0x80 <= u <= 0x10FFFF,
        ensures
            res == num_groups(u),
    {
        let mut bits: i32 = 32;
        let mut temp_u: u32 = u;
        proof {
            lemma_top_bits(u);
        }
        while bits > 0 && (temp_u & 0xFE00_0000) == 0
            invariant
                0x80 <= u <= 0x10FFFF,
                bits == 32 || bits == 25 || bits == 18 || bits == 11,
                bits == 32 ==> temp_u == u,
                bits == 25 ==> temp_u == u << 7 && u < 0x200_0000,
                bits == 18 ==> temp_u == (u << 7) << 7 && u < 0x4_0000,
                bits == 11 ==> temp_u == ((u << 7) << 7) << 7 && u < 0x800,
            decreases bits,
        {
            proof {
                lemma_top_bits(u);
            }
            bits -= 7;
            temp_u = temp_u << 7;
        }
        proof {
            lemma_top_bits(u);
        }
        ((bits + 6) / 7) as u32
    }
}

/// No more bytes are marked than there are.
proof fn lemma_marked(b: Seq<u8>, n: int)
    requires
        n >= 0,
    ensures
        marked(b, n) <= n,
        marked(b, n) <= b.len(),
        forall|j: int| 0 <= j < marked(b, n) ==> #[trigger] b[j] >= 0x80,
        marked(b, n) < n && marked(b, n) < b.len() ==> b[marked(b, n) as int] < 0x80,
    decreases n,
{
    if n > 0 && b.len() > 0 && b[0] >= 0x80 {
        let r = b.drop_first();
        lemma_marked(r, n - 1);
        assert forall|j: int| 0 <= j < marked(b, n) implies #[trigger] b[j] >= 0x80 by {
            if j > 0 {
                assert(r[j - 1] >= 0x80);
            }
        }
    }
}

/// The marked bytes are those before the first that is not marked.
proof fn lemma_marked_is(b: Seq<u8>, n: int, m: int)
    requires
        0 <= m <= n,
        m <= b.len(),
        forall|j: int| 0 <= j < m ==> #[trigger] b[j] >= 0x80,
        m == n || m == b.len() || b[m] < 0x80,
    ensures
        marked(b, n) == m,
{
    lemma_marked(b, n);
    let r = marked(b, n) as int;
    if r < m {
        assert(b[r] >= 0x80);
    }
    if m < r {
        assert(b[m] >= 0x80);
    }
}

impl GramDbKey {
    /// Decodes some bytes.
    pub fn decode(bytes: &[u8]) -> (res: String)
        ensures
            res@ == decode_bytes(bytes@),
    {
        let mut result: String = String::new();
        let mut i: usize = 0;
        assert(bytes@.skip(0) =~= bytes@);
        assert(result@ + decode_bytes(bytes@) =~= decode_bytes(bytes@));
        while i < bytes.len()
            invariant_except_break
                i <= bytes@.len(),
                result@ + decode_bytes(bytes@.skip(i as int)) == decode_bytes(bytes@),
            ensures
                result@ == decode_bytes(bytes@),
            decreases bytes@.len() - i,
        {
            let ghost before: Seq<char> = result@;
            let ghost b: Seq<u8> = bytes@.skip(i as int);
            let byte: u8 = bytes[i];
            assert(b[0] == byte);
            if byte < 0x80 {
                if byte == 0 {
                    result.push('\0');
                } else {
                    result.push(byte as char);
                }
                i += 1;
                proof {
                    assert(b.skip(1) =~= bytes@.skip(i as int));
                    assert(result@ + decode_bytes(b.skip(1)) =~= before + decode_bytes(b));
                }
            } else if byte == 0xE0 {
                result.push('\0');
                i += 1;
                proof {
                    assert(b.skip(1) =~= bytes@.skip(i as int));
                    assert(result@ + decode_bytes(b.skip(1)) =~= before + decode_bytes(b));
                }
            } else if byte == 0xE1 {
                if bytes.len() - i < 2 {
                    assert(before + decode_bytes(b) =~= before);
                    break;
                }
                let high_byte: u8 = bytes[i + 1];
                assert(b[1] == high_byte);
                let u: u32 = ((high_byte as u32).wrapping_sub(0x40)) << 8;
                proof {
                    assert(u | 0 == u) by (bit_vector);
                    assert(u == wide(high_byte, 0));
                }
                Self::push_char(&mut result, u);
                i += 2;
                proof {
                    assert(b.skip(2) =~= bytes@.skip(i as int));
                    assert(result@ + decode_bytes(b.skip(2)) =~= before + decode_bytes(b));
                }
            } else if (byte & 0xF0) == 0xE0 {
                let bytes_to_decode: usize = (byte & 0x0F) as usize;
                proof {
                    assert(byte & 0x0F <= 0x0F) by (bit_vector);
                }
                let left: usize = bytes.len() - i;
                if bytes_to_decode > left {
                    assert(before + decode_bytes(b) =~= before);
                    break;
                }
                let ghost n: int = bytes_to_decode as int;
                let ghost t: Seq<u8> = b.skip(1);
                let mut u: u32 = 0;
                let mut j: usize = 1;
                while j <= bytes_to_decode && j < left && bytes[i + j] >= 0x80
                    invariant
                        1 <= j <= bytes_to_decode + 1,
                        j <= left,
                        bytes_to_decode <= left,
                        bytes_to_decode <= 15,
                        left == bytes@.len() - i,
                        i < bytes@.len() <= usize::MAX,
                        t == bytes@.skip(i as int).skip(1),
                        forall|x: int| 0 <= x < j - 1 ==> #[trigger] t[x] >= 0x80,
                        u == gather(t, j - 1),
                    decreases bytes_to_decode + 1 - j,
                {
                    assert(t[j - 1] == bytes@[i + j]);
                    u = (u << 7) | ((bytes[i + j] & 0x7F) as u32);
                    j += 1;
                }
                proof {
                    if j < left {
                        assert(t[j - 1] == bytes@[i + j]);
                    }
                    lemma_marked_is(t, n, j - 1);
                }
                if bytes_to_decode == left && j == left {
                    assert(before + decode_bytes(b) =~= before);
                    break;
                }
                Self::push_char(&mut result, u);
                if bytes_to_decode == left {
                    assert(result@ =~= before + decode_bytes(b));
                    break;
                }
                i += bytes_to_decode + 1;
                proof {
                    assert(b.skip(n + 1) =~= bytes@.skip(i as int));
                    assert(result@ + decode_bytes(b.skip(n + 1)) =~= before + decode_bytes(b));
                }
            } else {
                if bytes.len() - i < 2 {
                    assert(before + decode_bytes(b) =~= before);
                    break;
                }
                let low_byte: u8 = bytes[i + 1];
                assert(b[1] == low_byte);
                let u: u32 = (((byte as u32).wrapping_sub(0x40)) << 8) | (low_byte as u32);
                Self::push_char(&mut result, u);
                i += 2;
                proof {
                    assert(b.skip(2) =~= bytes@.skip(i as int));
                    assert(result@ + decode_bytes(b.skip(2)) =~= before + decode_bytes(b));
                }
            }
            proof {
                if i >= bytes@.len() {
                    assert(decode_bytes(bytes@.skip(i as int)) =~= Seq::<char>::empty());
                    assert(result@ + decode_bytes(bytes@.skip(i as int)) =~= result@);
                }
            }
        }
        result
    }

    /// Appends the character with this number, if there is one.
    fn push_char(s: &mut String, u: u32)
        ensures
            final(s)@ == old(s)@ + char_of(u),
    {
        if let Some(c) = char::from_u32(u) {
            s.push(c);
        }
        assert(s@ =~= old(s)@ + char_of(u));
    }
}

/// Whether a character keeps its identity in the encoding: it is ASCII, or in the range
/// with two bytes.
pub open spec fn is_plain(c: char) -> bool {
    (c as u32) < 0x80 || is_wide(c as u32)
}

proof fn lemma_decode_char(c: char, rest: Seq<u8>)
    requires
        is_plain(c),
    ensures
        decode_bytes(encode_char(c) + rest) == seq![c] + decode_bytes(rest),
{
    let u = c as u32;
    let e = encode_char(c);
    let b = e + rest;
    vstd::utf8::char_u32_cast(c, u);
    if u < 0x80 {
        assert(b.skip(1) =~= rest);
    } else {
        lemma_wide(u);
        assert(b.skip(2) =~= rest);
        assert(char_of(u) =~= seq![c]);
    }
}

/// Decoding undoes encoding, for strings of ASCII characters and characters in the range
/// with two bytes.
pub proof fn law_decode_encode(s: Seq<char>)
    requires
        forall|i: int| 0 <= i < s.len() ==> is_plain(#[trigger] s[i]),
    ensures
        decode_bytes(encode_chars(s)) == s,
    decreases s.len(),
{
    if s.len() > 0 {
        let r = s.drop_first();
        assert forall|i: int| 0 <= i < r.len() implies is_plain(#[trigger] r[i]) by {
            assert(r[i] == s[i + 1]);
        }
        law_decode_encode(r);
        lemma_decode_char(s[0], encode_chars(r));
        assert(seq![s[0]] + r =~= s);
    }
}

/// No byte of an encoded string is zero.
pub proof fn law_encode_zero_free(s: Seq<char>)
    ensures
        !encode_chars(s).contains(0),
    decreases s.len(),
{
    if s.len() > 0 {
        law_encode_zero_free(s.drop_first());
        let c = s[0];
        let u = c as u32;
        let e = encode_char(c);
        let r = encode_chars(s.drop_first());
        vstd::utf8::char_is_scalar(c);
        if is_wide(u) {
            lemma_wide(u);
        }
        assert forall|i: int| 0 <= i < e.len() implies #[trigger] e[i] != 0 by {
            if u >= 0x80 && !is_wide(u) && i > 0 {
                let shift = (25 - 7 * (i - 1)) as u32;
                assert(shift <= 25 ==> (((u >> shift) & 0x7F) | 0x80) as u8 != 0) by (bit_vector);
                assert(e[i] == group(u, i - 1));
            }
        }
        assert forall|i: int| 0 <= i < (e + r).len() implies (e + r)[i] != 0 by {
            if i >= e.len() {
                assert((e + r)[i] == r[i - e.len()]);
                assert(r.contains(r[i - e.len()]));
            }
        }
    }
}

/// Only the empty string has no bytes.
pub proof fn law_encode_empty(s: Seq<char>)
    ensures
        encode_chars(s).len() == 0 <==> s.len() == 0,
{
}

/// Groups and pairs of bytes as numbers.
proof fn lemma_code_numbers(u: u32)
    ensures
        group(u, 0) == 0x80 + (u / 0x200_0000) % 128,
        group(u, 1) == 0x80 + (u / 0x4_0000) % 128,
        group(u, 2) == 0x80 + (u / 0x800) % 128,
        group(u, 3) == 0x80 + (u / 0x10) % 128,
        u >> 8 == u / 256,
        u & 0xFF == u % 256,
{
    assert({
        &&& ((u >> 25) & 0x7F) | 0x80 == (u / 0x200_0000) % 128 + 0x80
        &&& ((u >> 18) & 0x7F) | 0x80 == (u / 0x4_0000) % 128 + 0x80
        &&& ((u >> 11) & 0x7F) | 0x80 == (u / 0x800) % 128 + 0x80
        &&& ((u >> 4) & 0x7F) | 0x80 == (u / 0x10) % 128 + 0x80
        &&& u >> 8 == u / 256
        &&& u & 0xFF == u % 256
    }) by (bit_vector);
}

/// The bytes of a string are those of its parts, one after the other.
pub proof fn law_encode_parts(s: Seq<char>, t: Seq<char>)
    ensures
        encode_chars(s + t) == encode_chars(s) + encode_chars(t),
        encode_chars(Seq::empty()) == Seq::<u8>::empty(),
{
    lemma_encode_concat(s, t);
}

/// The bytes of a character. One that is zero has the byte 0xE0, and another ASCII character
/// its own number. One from 0x4000 to below 0xA000 has its high byte plus 64 and its low byte,
/// or, if that is zero, 0xE1 and its high byte plus 64. Any other has a length byte and
/// that many groups: the character is divided by 2 to the power of 25, 18, 11 and 4 in turn,
/// and the remainder by 128 is added to 128.
pub proof fn law_encode_char(c: char)
    ensures
        ({
            let u = c as u32;
            let e = encode_chars(seq![c]);
            &&& u == 0 ==> e == seq![0xE0u8]
            &&& 0 < u < 0x80 ==> e.len() == 1 && e[0] == u
            &&& 0x4000 <= u < 0xA000 && u % 256 != 0 ==> e.len() == 2 && e[0] == u / 256 + 64 && e[1] == u % 256
            &&& 0x4000 <= u < 0xA000 && u % 256 == 0 ==> e.len() == 2 && e[0] == 0xE1 && e[1] == u / 256 + 64
            &&& (0x80 <= u < 0x4000 || 0xA000 <= u) ==> {
                let n: int = if u < 2048 {
                    2
                } else if u < 262144 {
                    3
                } else {
                    4
                };
                &&& e.len() == n + 1
                &&& e[0] == 0xE0 + n
                &&& e[1] == 0x80 + (u / 33554432) % 128
                &&& e[2] == 0x80 + (u / 262144) % 128
                &&& n >= 3 ==> e[3] == 0x80 + (u / 2048) % 128
                &&& n >= 4 ==> e[4] == 0x80 + (u / 16) % 128
                &&& forall|i: int|
                    0 <= i < n ==> #[trigger] e[i + 1] == 0x80 + (u as nat / pow2((25 - 7 * i) as nat)) % 128
            }
        }),
{
    let u = c as u32;
    let one = seq![c];
    let e = encode_chars(one);
    vstd::utf8::char_is_scalar(c);
    assert(one.drop_first() =~= Seq::<char>::empty());
    assert(encode_chars(one.drop_first()) =~= Seq::<u8>::empty());
    assert(e =~= encode_char(c));
    lemma_code_numbers(u);
    if 0x80 <= u < 0x4000 || 0xA000 <= u {
        assert(e[1] == group(u, 0));
        assert(e[2] == group(u, 1));
        lemma2_to64();
        assert forall|i: int| 0 <= i < num_groups(u) implies #[trigger] e[i + 1] == 0x80 + (u as nat / pow2(
            (25 - 7 * i) as nat,
        )) % 128 by {
            assert(i == 0 || i == 1 || i == 2 || i == 3);
            assert(e[i + 1] == group(u, i));
        }
    }
}

/// Two characters that have neither one byte nor two have the same bytes exactly if they have
/// as many groups and agree on the bits above the last shift.
pub proof fn law_encode_same(c: char, d: char)
    requires
        0x80 <= c as u32 && !(0x4000 <= c as u32 && (c as u32) < 0xA000),
        0x80 <= d as u32 && !(0x4000 <= d as u32 && (d as u32) < 0xA000),
    ensures
        encode_chars(seq![c]) == encode_chars(seq![d]) <==> {
            let u = c as u32;
            let v = d as u32;
            ||| u < 2048 && v < 2048
            ||| 2048 <= u < 262144 && 2048 <= v < 262144 && u / 2048 == v / 2048
            ||| 262144 <= u && 262144 <= v && u / 16 == v / 16
        },
{
    let u = c as u32;
    let v = d as u32;
    let e = encode_chars(seq![c]);
    let f = encode_chars(seq![d]);
    law_encode_char(c);
    law_encode_char(d);
    vstd::utf8::char_is_scalar(c);
    vstd::utf8::char_is_scalar(d);
    if e == f {
        assert(e[0] == f[0]);
        assert(e[1] == f[1]);
        assert(e[2] == f[2]);
        if 2048 <= u < 262144 {
            assert(e[3] == f[3]);
            assert(u / 2048 < 128 && v / 2048 < 128);
        }
        if 262144 <= u {
            assert(e[3] == f[3] && e[4] == f[4]);
            assert(u / 33554432 == 0 && v / 33554432 == 0);
            assert(u / 262144 < 128 && v / 262144 < 128);
            assert(u / 16 == 128 * (u / 2048) + (u / 16) % 128);
            assert(v / 16 == 128 * (v / 2048) + (v / 16) % 128);
            assert(u / 2048 == 128 * (u / 262144) + (u / 2048) % 128);
            assert(v / 2048 == 128 * (v / 262144) + (v / 2048) % 128);
        }
    }
    if u < 2048 && v < 2048 {
        assert(e =~= f);
    }
    if 2048 <= u < 262144 && 2048 <= v < 262144 && u / 2048 == v / 2048 {
        assert(e =~= f);
    }
    if 262144 <= u && 262144 <= v && u / 16 == v / 16 {
        assert(u / 2048 == (u / 16) / 128 && v / 2048 == (v / 16) / 128);
        assert(u / 262144 == (u / 16) / 16384 && v / 262144 == (v / 16) / 16384);
        assert(u / 33554432 == (u / 16) / 2097152 && v / 33554432 == (v / 16) / 2097152);
        assert(e =~= f);
    }
}

/// Seven bits behind others, and a pair of bytes, as numbers.
proof fn lemma_decode_numbers(x: u32, a: u32, b: u32, c: u32, d: u32, e: u32, high: u8, low: u8)
    requires
        a < 128,
        b < 128,
        c < 128,
        d < 128,
        e < 128,
    ensures
        (0u32 << 7) | 0 == 0,
        (((((((((x << 7) | a) << 7) | b) << 7) | c) << 7) | d) << 7) | e == (268435456 * a + 2097152 * b + 16384 * c
            + 128 * d + e) % 0x1_0000_0000,
        high >= 0x80 ==> high & 0x7F == high - 128,
        high & 0xF0 == 0xE0 <==> 0xE0 <= high < 0xF0,
        0xE0 <= high < 0xF0 ==> high & 0x0F == high - 0xE0,
        high >= 64 ==> wide(high, low) == (high - 64) * 256 + low,
        high < 64 ==> wide(high, low) > 0x10FFFF,
{
    let y = (high as u32).wrapping_sub(0x40);
    assert((a < 128 && b < 128 && c < 128 && d < 128 && e < 128) ==> {
        &&& (0u32 << 7) | 0 == 0
        &&& (((((((((x << 7) | a) << 7) | b) << 7) | c) << 7) | d) << 7) | e == (268435456 * a + 2097152 * b + 16384
            * c + 128 * d + e) % 0x1_0000_0000
        &&& (high >= 0x80 ==> high & 0x7F == high - 128)
        &&& (high & 0xF0 == 0xE0 <==> 0xE0 <= high < 0xF0)
        &&& (0xE0 <= high < 0xF0 ==> high & 0x0F == high - 0xE0)
        &&& (y < 256 ==> (y << 8) | (low as u32) == 256 * y + low)
        &&& (y >= 0xFFFF_FFC0 ==> (y << 8) | (low as u32) > 0x10FFFF)
    }) by (bit_vector);
}

/// Decoding begins with the first code. A byte below 0x80 is a character, 0xE0 the one that is
/// zero, and 0xE1 comes before the high byte of one whose low byte is zero. Another first byte
/// that is no length byte is a high byte and comes before a low byte. A high byte counts 64 too
/// much. Numbers that are no characters are left out, and nothing comes of a code that is not
/// complete, nor of what is behind it.
pub proof fn law_decode_front(b: Seq<u8>)
    ensures
        b.len() == 0 ==> decode_bytes(b) == Seq::<char>::empty(),
        b.len() > 0 && b[0] < 0x80 ==> decode_bytes(b) == seq![b[0] as char] + decode_bytes(b.skip(1)),
        b.len() > 0 && b[0] == 0xE0 ==> decode_bytes(b) == seq!['\0'] + decode_bytes(b.skip(1)),
        b.len() == 1 && b[0] >= 0x80 && b[0] != 0xE0 && !(0xE2 <= b[0] < 0xF0) ==> decode_bytes(b) == Seq::<
            char,
        >::empty(),
        b.len() > 1 && b[0] >= 0x80 && !(0xE0 <= b[0] < 0xF0 && b[0] != 0xE1) ==> {
            let u = if b[0] == 0xE1 {
                (b[1] - 64) * 256
            } else {
                (b[0] - 64) * 256 + b[1]
            };
            decode_bytes(b) == (if 0 <= u < 0xD800 || 0xE000 <= u <= 0x10FFFF {
                seq![(u as u32) as char] + decode_bytes(b.skip(2))
            } else {
                decode_bytes(b.skip(2))
            })
        },
{
    if b.len() > 0 {
        lemma_decode_numbers(0, 0, 0, 0, 0, 0, b[0], 0);
        if b.len() > 1 {
            lemma_decode_numbers(0, 0, 0, 0, 0, 0, b[1], 0);
            lemma_decode_numbers(0, 0, 0, 0, 0, 0, b[0], b[1]);
            assert(Seq::<char>::empty() + decode_bytes(b.skip(2)) =~= decode_bytes(b.skip(2)));
        }
    }
}

/// The number of the first `n` groups, of which the last five count.
proof fn lemma_gather(b: Seq<u8>, n: int)
    requires
        0 <= n <= b.len(),
        forall|j: int| 0 <= j < n ==> #[trigger] b[j] >= 0x80,
    ensures
        gather(b, n) == (268435456 * group_at(b, n - 5) + 2097152 * group_at(b, n - 4) + 16384 * group_at(b, n - 3)
            + 128 * group_at(b, n - 2) + group_at(b, n - 1)) % 0x1_0000_0000,
{
    let (p, q, r, s, t) = (
        group_at(b, n - 5),
        group_at(b, n - 4),
        group_at(b, n - 3),
        group_at(b, n - 2),
        group_at(b, n - 1),
    );
    let x = gather(b, n - 5);
    lemma_decode_numbers(x, p as u32, q as u32, r as u32, s as u32, t as u32, 0, 0);
    lemma_gather_step(b, n);
    lemma_gather_step(b, n - 1);
    lemma_gather_step(b, n - 2);
    lemma_gather_step(b, n - 3);
    lemma_gather_step(b, n - 4);
}

proof fn lemma_gather_step(b: Seq<u8>, n: int)
    requires
        n <= b.len(),
        forall|j: int| 0 <= j < n ==> #[trigger] b[j] >= 0x80,
    ensures
        gather(b, n) == (gather(b, n - 1) << 7) | (group_at(b, n - 1) as u32),
{
    if n > 0 {
        lemma_decode_numbers(0, 0, 0, 0, 0, 0, b[n - 1], 0);
    } else {
        lemma_decode_numbers(0, 0, 0, 0, 0, 0, 0, 0);
    }
}

/// What the byte at `i` adds to a number, if there is one.
spec fn group_at(b: Seq<u8>, i: int) -> int {
    if 0 <= i {
        b[i] - 128
    } else {
        0
    }
}

/// A length byte from 0xE2 to 0xEF comes before as many bytes as it is above 0xE0. Those of them
/// before the first that is below 0x80 make the number of a character, seven bits each; the
/// others are skipped. There must be at least as many bytes, the length byte with them; where
/// there are just as many, nothing comes of a code all of whose bytes are 0x80 or above.
pub proof fn law_decode_groups(b: Seq<u8>, r: int)
    requires
        b.len() > 0,
        0xE2 <= b[0] < 0xF0,
        0 <= r <= b[0] - 0xE0,
        r < b.len(),
        forall|j: int| 1 <= j <= r ==> #[trigger] b[j] >= 0x80,
        r == b[0] - 0xE0 || r + 1 == b.len() || b[r + 1] < 0x80,
    ensures
        ({
            let n = b[0] - 0xE0;
            let u = ((if r >= 5 {
                268435456 * (b[r - 4] - 128)
            } else {
                0
            }) + (if r >= 4 {
                2097152 * (b[r - 3] - 128)
            } else {
                0
            }) + (if r >= 3 {
                16384 * (b[r - 2] - 128)
            } else {
                0
            }) + (if r >= 2 {
                128 * (b[r - 1] - 128)
            } else {
                0
            }) + (if r >= 1 {
                b[r] - 128
            } else {
                0
            })) % 0x1_0000_0000;
            let first = if u < 0xD800 || 0xE000 <= u <= 0x10FFFF {
                seq![(u as u32) as char]
            } else {
                Seq::empty()
            };
            decode_bytes(b) == (if n < b.len() {
                first + decode_bytes(b.skip(n + 1))
            } else if n == b.len() && r < n - 1 {
                first
            } else {
                Seq::empty()
            })
        }),
{
    let n = b[0] - 0xE0;
    let t = b.skip(1);
    lemma_decode_numbers(0, 0, 0, 0, 0, 0, b[0], 0);
    assert forall|j: int| 0 <= j < r implies #[trigger] t[j] >= 0x80 by {
        assert(b[j + 1] >= 0x80);
    }
    lemma_marked_is(t, n, r);
    lemma_gather(t, r);
}

} // verus!
