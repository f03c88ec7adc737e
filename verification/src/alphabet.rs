//! The alphabet of byte-level tokens: one printable character for each byte.

use std::collections::HashMap;
use vstd::prelude::*;
use vstd::std_specs::hash::*;
use vstd::string::*;
use vstd::utf8::*;

verus! {

/// Whether the byte, read as a code point, is a printable character other than a space.
pub open spec fn is_printable(b: int) -> bool {
    0x21 <= b <= 0x7E || 0xA1 <= b <= 0xAC || 0xAE <= b <= 0xFF
}

/// How many bytes below `b` are not printable.
pub open spec fn unprintable_below(b: int) -> int
    decreases b,
{
    if b <= 0 {
        0
    } else if is_printable(b - 1) {
        unprintable_below(b - 1)
    } else {
        unprintable_below(b - 1) + 1
    }
}

/// The code point that stands for a byte. A printable byte stands for itself, the others get the
/// code points from 256 on, in the order of the bytes.
pub open spec fn byte_code(b: u8) -> u32 {
    if is_printable(b as int) {
        b as u32
    } else {
        (256 + unprintable_below(b as int)) as u32
    }
}

/// The character that stands for a byte.
pub open spec fn byte_char(b: u8) -> char {
    byte_code(b) as char
}

/// The byte that a character stands for.
pub open spec fn char_byte(c: char) -> Option<u8> {
    if exists|b: u8| #[trigger] byte_char(b) == c {
        Some(choose|b: u8| #[trigger] byte_char(b) == c)
    } else {
        None
    }
}

/// How the number of unprintable bytes grows.
proof fn lemma_unprintable_grows(a: int, b: int)
    requires
        0 <= a <= b,
    ensures
        0 <= unprintable_below(a) <= unprintable_below(b) <= b,
        a < b && !is_printable(a) ==> unprintable_below(a) < unprintable_below(b),
    decreases b,
{
    if a < b {
        lemma_unprintable_grows(a, b - 1);
    } else if a > 0 {
        lemma_unprintable_grows(a - 1, a - 1);
    }
}

/// A byte's code point lies below 512.
pub proof fn lemma_byte_code(b: u8)
    ensures
        byte_code(b) < 512,
        byte_char(b) as u32 == byte_code(b),
        is_scalar(byte_code(b)),
        !is_printable(b as int) ==> byte_code(b) == 256 + unprintable_below(b as int),
{
    lemma_unprintable_grows(0, b as int);
}

/// No two bytes share a character, so that the byte can be told from it.
pub proof fn lemma_byte_char_injective(a: u8, b: u8)
    requires
        byte_char(a) == byte_char(b),
    ensures
        a == b,
{
    lemma_byte_code(a);
    lemma_byte_code(b);
    lemma_unprintable_grows(0, a as int);
    lemma_unprintable_grows(0, b as int);
    if a < b {
        lemma_unprintable_grows(a as int, b as int);
    } else if b < a {
        lemma_unprintable_grows(b as int, a as int);
    }
}

/// The character of a byte gives the byte back.
pub proof fn lemma_char_byte(b: u8)
    ensures
        char_byte(byte_char(b)) == Some(b),
{
    let c = byte_char(b);
    let found = choose|x: u8| #[trigger] byte_char(x) == c;
    lemma_byte_char_injective(found, b);
}

/// `char::from_u32`: the character with this code point, for the code points that have one.
pub assume_specification[ char::from_u32 ](i: u32) -> (r: Option<char>)
    ensures
        r == if is_scalar(i) {
            Some(i as char)
        } else {
            None
        },
;

/// The characters of the bytes, and the bytes of the characters' code points.
pub fn byte_unicode_map() -> (r: ([char; 256], HashMap<u32, u8>))
    ensures
        forall|b: u8| #[trigger] r.0@[b as int] == byte_char(b),
        forall|b: u8| r.1@.contains_key(#[trigger] byte_code(b)) && r.1@[byte_code(b)] == b,
        forall|k: u32| #[trigger] r.1@.contains_key(k) ==> exists|b: u8| #[trigger] byte_code(b) == k,
        r.1@.dom().finite(),
        r.1@.dom().len() == 256,
{
    broadcast use group_hash_axioms;

    let mut byte_to_char: [char; 256] = ['\0'; 256];
    let mut char_to_byte: HashMap<u32, u8> = HashMap::new();
    let mut next: u32 = 256;
    let mut b: usize = 0;
    while b < 256
        invariant
            b <= 256,
            next == 256 + unprintable_below(b as int),
            forall|x: u8| x < b ==> #[trigger] byte_to_char@[x as int] == byte_char(x),
            forall|x: u8| x < b ==> char_to_byte@.contains_key(#[trigger] byte_code(x)) && char_to_byte@[byte_code(x)] == x,
            forall|k: u32| #[trigger] char_to_byte@.contains_key(k) ==> exists|x: u8| x < b && #[trigger] byte_code(x) == k,
            char_to_byte@.dom().finite(),
            char_to_byte@.dom().len() == b,
        decreases 256 - b,
    {
        let byte: u8 = b as u8;
        proof {
            lemma_unprintable_grows(0, b as int);
            lemma_byte_code(byte);
        }
        let printable: bool = (0x21 <= b && b <= 0x7E) || (0xA1 <= b && b <= 0xAC) || (0xAE <= b && b <= 0xFF);
        let code: u32 = if printable {
            b as u32
        } else {
            next
        };
        if !printable {
            next = next + 1;
        }
        assert(code == byte_code(byte));
        if let Some(c) = char::from_u32(code) {
            byte_to_char[b] = c;
        }
        let ghost before = char_to_byte@;
        char_to_byte.insert(code, byte);
        proof {
            assert forall|x: u8| x < b implies #[trigger] byte_code(x) != code by {
                if byte_code(x) == code {
                    lemma_byte_char_injective(x, byte);
                }
            }
            assert(!before.contains_key(code));
            assert(char_to_byte@.dom() =~= before.dom().insert(code));
            assert forall|k: u32| #[trigger] char_to_byte@.contains_key(k) implies exists|x: u8| x < b + 1 && #[trigger] byte_code(x) == k by {
                if k == code {
                    assert(byte_code(byte) == k);
                } else {
                    assert(before.contains_key(k));
                }
            }
        }
        b = b + 1;
    }
    (byte_to_char, char_to_byte)
}

/// The text that stands for a byte string.
pub open spec fn mapped(bytes: Seq<u8>) -> Seq<char> {
    Seq::new(bytes.len(), |i: int| byte_char(bytes[i]))
}

/// The bytes of one character: the byte that it stands for, else its encoding.
pub open spec fn unmapped_char(c: char) -> Seq<u8> {
    match char_byte(c) {
        Some(b) => seq![b],
        None => encode_utf8(seq![c]),
    }
}

/// The bytes that a text stands for.
pub open spec fn unmapped(s: Seq<char>) -> Seq<u8>
    decreases s.len(),
{
    if s.len() == 0 {
        seq![]
    } else {
        unmapped(s.drop_last()) + unmapped_char(s.last())
    }
}

/// Two texts put together stand for their bytes put together.
pub proof fn lemma_unmapped_concat(a: Seq<char>, b: Seq<char>)
    ensures
        unmapped(a + b) == unmapped(a) + unmapped(b),
    decreases b.len(),
{
    if b.len() == 0 {
        assert(a + b =~= a);
        assert(unmapped(a) + unmapped(b) =~= unmapped(a));
    } else {
        assert((a + b).drop_last() =~= a + b.drop_last());
        lemma_unmapped_concat(a, b.drop_last());
        assert(unmapped(a + b) =~= unmapped(a) + unmapped(b));
    }
}

/// The text that stands for a byte string gives the bytes back.
pub proof fn lemma_unmapped_mapped(bytes: Seq<u8>)
    ensures
        unmapped(mapped(bytes)) == bytes,
    decreases bytes.len(),
{
    let s = mapped(bytes);
    if bytes.len() > 0 {
        assert(s.drop_last() =~= mapped(bytes.drop_last()));
        lemma_unmapped_mapped(bytes.drop_last());
        lemma_char_byte(bytes.last());
        assert(bytes =~= bytes.drop_last() + seq![bytes.last()]);
    } else {
        assert(s.len() == 0);
        assert(bytes =~= seq![]);
    }
}

/// A text of printable ASCII characters stands for its own encoding.
pub proof fn lemma_unmapped_ascii(s: Seq<char>)
    requires
        forall|i: int| 0 <= i < s.len() ==> 0x21 <= (#[trigger] s[i]) as u32 <= 0x7E,
    ensures
        unmapped(s) == encode_utf8(s),
    decreases s.len(),
{
    if s.len() > 0 {
        lemma_unmapped_ascii(s.drop_last());
        let c = s.last();
        let b = (c as u32) as u8;
        assert(s[s.len() - 1] == c);
        assert(is_printable(b as int));
        char_u32_cast(c, c as u32);
        assert(b as u32 == c as u32);
        assert(byte_char(b) == c);
        lemma_char_byte(b);
        crate::text::lemma_encode_concat(s.drop_last(), seq![c]);
        assert(s.drop_last() + seq![c] =~= s);
        reveal_with_fuel(encode_utf8, 2);
        let u = c as u32;
        assert(leading_byte_width_1(u) == b) by {
            assert(u <= 0x7E ==> (u & 0x7F) as u8 == u as u8) by (bit_vector);
        }
        assert(encode_utf8(seq![c]) =~= seq![b]);
    } else {
        assert(unmapped(s) =~= encode_utf8(s));
    }
}

} // verus!
