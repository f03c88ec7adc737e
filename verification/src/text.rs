//! Strings: numbers in decimal, comparison, and the boundary between bytes and text.

use vstd::prelude::*;
use vstd::string::*;
use vstd::utf8::*;

verus! {

/// The text of `n` in decimal, without leading zeros.
pub open spec fn decimal(n: nat) -> Seq<char>
    decreases n,
{
    if n < 10 {
        seq![digit(n)]
    } else {
        decimal(n / 10).push(digit(n % 10))
    }
}

/// The decimal digit for `d`.
pub open spec fn digit(d: nat) -> char {
    (48 + d) as char
}

/// `String::push`: appends one character to the end.
pub assume_specification[ std::string::String::push ](s: &mut std::string::String, c: char)
    ensures
        final(s)@ == old(s)@.push(c),
;

/// Writes `n` in decimal.
pub fn decimal_text(n: u64) -> (r: String)
    ensures
        r@ == decimal(n as nat),
{
    long_decimal_text(n as u128)
}

/// Writes `n`, which may be longer than a machine word, in decimal.
pub fn long_decimal_text(n: u128) -> (r: String)
    ensures
        r@ == decimal(n as nat),
    decreases n,
{
    let mut out: String = if n < 10 {
        String::new()
    } else {
        long_decimal_text(n / 10)
    };
    let d: u8 = (n % 10) as u8;
    let c: char = (48 + d) as char;
    out.push(c);
    proof {
        assert(c == digit((n % 10) as nat));
        if n < 10 {
            assert(out@ =~= seq![digit(n as nat)]);
        }
    }
    out
}

/// Whether two strings hold the same characters.
pub fn same_text(a: &str, b: &str) -> (r: bool)
    ensures
        r == (a@ == b@),
{
    let x = a.as_bytes();
    let y = b.as_bytes();
    proof {
        encode_utf8_decode_utf8(a@);
        encode_utf8_decode_utf8(b@);
    }
    same_bytes(x, y)
}

/// Whether two byte strings are equal.
pub fn same_bytes(x: &[u8], y: &[u8]) -> (r: bool)
    ensures
        r == (x@ == y@),
{
    if x.len() != y.len() {
        return false;
    }
    let mut i: usize = 0;
    while i < x.len()
        invariant
            i <= x@.len(),
            x@.len() == y@.len(),
            forall|k: int| 0 <= k < i ==> x@[k] == y@[k],
        decreases x@.len() - i,
    {
        if x[i] != y[i] {
            return false;
        }
        i = i + 1;
    }
    assert(x@ =~= y@);
    true
}

/// Whether the bytes can be completed to the encoding of one character, and are not one yet.
pub open spec fn is_partial_scalar(tail: Seq<u8>) -> bool {
    &&& tail.len() > 0
    &&& !valid_first_scalar(tail)
    &&& exists|rest: Seq<u8>| #[trigger] valid_first_scalar(tail + rest) && length_of_first_scalar(tail + rest) == (tail + rest).len()
}

/// Checks that the bytes are UTF-8, through `core::str::from_utf8`.
///
/// On success the result is the text with those bytes. On failure it is the length of the longest
/// valid prefix (`Utf8Error::valid_up_to`) with `Utf8Error::error_len`, which is `None` exactly if
/// what follows that prefix is the beginning of one character that the input ends within.
#[verifier::external_body]
pub(crate) fn check_utf8(bytes: &[u8]) -> (r: Result<&str, (usize, Option<usize>)>)
    ensures
        r is Ok <==> valid_utf8(bytes@),
        r matches Ok(s) ==> s@ == decode_utf8(bytes@),
        r matches Err((valid, bad)) ==> {
            &&& valid < bytes@.len()
            &&& valid_utf8(bytes@.subrange(0, valid as int))
            &&& forall|k: int| valid < k <= bytes@.len() ==> !valid_utf8(#[trigger] bytes@.subrange(0, k))
            &&& bad is None <==> is_partial_scalar(bytes@.subrange(valid as int, bytes@.len() as int))
        },
{
    match core::str::from_utf8(bytes) {
        Ok(s) => Ok(s),
        Err(e) => Err((e.valid_up_to(), e.error_len())),
    }
}

/// The encoding of two texts put together is their encodings put together.
pub proof fn lemma_encode_concat(a: Seq<char>, b: Seq<char>)
    ensures
        encode_utf8(a + b) == encode_utf8(a) + encode_utf8(b),
    decreases a.len(),
{
    if a.len() == 0 {
        assert(a + b =~= b);
        assert(encode_utf8(a) + encode_utf8(b) =~= encode_utf8(b));
    } else {
        assert((a + b).drop_first() =~= a.drop_first() + b);
        lemma_encode_concat(a.drop_first(), b);
        assert(encode_utf8(a + b) =~= encode_utf8(a) + encode_utf8(b));
    }
}

/// Two valid byte strings put together decode to their texts put together.
pub proof fn lemma_decode_concat(x: Seq<u8>, y: Seq<u8>)
    requires
        valid_utf8(x),
        valid_utf8(y),
    ensures
        valid_utf8(x + y),
        decode_utf8(x + y) == decode_utf8(x) + decode_utf8(y),
{
    let a = decode_utf8(x);
    let b = decode_utf8(y);
    decode_utf8_encode_utf8(x);
    decode_utf8_encode_utf8(y);
    lemma_encode_concat(a, b);
    encode_utf8_decode_utf8(a + b);
    encode_utf8_valid_utf8(a + b);
}

/// Two texts with the same encoding are the same.
pub proof fn lemma_encode_injective(a: Seq<char>, b: Seq<char>)
    requires
        encode_utf8(a) == encode_utf8(b),
    ensures
        a == b,
{
    encode_utf8_decode_utf8(a);
    encode_utf8_decode_utf8(b);
}

/// Where one text ends and the next begins is a character boundary.
pub proof fn lemma_boundary(a: Seq<char>, b: Seq<char>)
    ensures
        is_char_boundary(encode_utf8(a + b), encode_utf8(a).len() as int),
    decreases a.len(),
{
    let bytes = encode_utf8(a + b);
    encode_utf8_valid_utf8(a + b);
    if a.len() > 0 {
        lemma_encode_concat(a, b);
        encode_utf8_first_scalar(a + b);
        assert((a + b).drop_first() =~= a.drop_first() + b);
        assert(pop_first_scalar(bytes) =~= encode_utf8((a + b).drop_first()));
        lemma_boundary(a.drop_first(), b);
        char_is_scalar(a[0]);
    }
}

/// Splits a text at a character boundary, given in bytes.
pub fn split_text(s: &str, mid: usize) -> (r: (&str, &str))
    requires
        is_char_boundary(encode_utf8(s@), mid as int),
    ensures
        r.0@ + r.1@ == s@,
        mid <= encode_utf8(s@).len(),
        encode_utf8(r.0@) == encode_utf8(s@).subrange(0, mid as int),
        encode_utf8(r.1@) == encode_utf8(s@).subrange(mid as int, encode_utf8(s@).len() as int),
{
    let r = s.split_at(mid);
    proof {
        encode_utf8_valid_utf8(s@);
        let bytes = encode_utf8(s@);
        if mid > bytes.len() {
            reveal_with_fuel(is_char_boundary, 1);
        }
        lemma_encode_concat(r.0@, r.1@);
        assert(bytes.subrange(0, mid as int) + bytes.subrange(mid as int, bytes.len() as int) =~= bytes);
        lemma_encode_injective(r.0@ + r.1@, s@);
    }
    r
}

/// The longest beginning of the text that takes at most `limit` bytes.
pub open spec fn clipped(s: Seq<char>, limit: nat) -> Seq<char>
    decreases s.len(),
{
    if s.len() == 0 || encode_utf8(s).len() <= limit {
        s
    } else {
        clipped(s.drop_last(), limit)
    }
}

/// A beginning that fits, and that no longer one is like, is the longest.
proof fn lemma_clipped(a: Seq<char>, b: Seq<char>, limit: nat)
    requires
        encode_utf8(a).len() <= limit,
        forall|k: int| 0 < k <= b.len() ==> encode_utf8(a + #[trigger] b.take(k)).len() > limit,
    ensures
        clipped(a + b, limit) == a,
    decreases b.len(),
{
    if b.len() == 0 {
        assert(a + b =~= a);
    } else {
        assert(b.take(b.len() as int) =~= b);
        assert((a + b).drop_last() =~= a + b.drop_last());
        assert forall|k: int| 0 < k <= b.drop_last().len() implies encode_utf8(a + #[trigger] b.drop_last().take(k)).len() > limit by {
            assert(b.drop_last().take(k) =~= b.take(k));
        }
        lemma_clipped(a, b.drop_last(), limit);
    }
}

/// Cuts a text off so that it takes at most `limit` bytes.
pub fn clip(s: &str, limit: usize) -> (r: &str)
    ensures
        r@ == clipped(s@, limit as nat),
{
    if s.as_bytes().len() <= limit {
        return s;
    }
    let ghost bytes = encode_utf8(s@);
    let mut end: usize = limit;
    proof {
        encode_utf8_valid_utf8(s@);
        is_char_boundary_start_end_of_seq(bytes);
    }
    while !s.is_char_boundary(end)
        invariant
            end <= limit < bytes.len(),
            bytes == encode_utf8(s@),
            is_char_boundary(bytes, 0),
            forall|k: int| end < k <= limit ==> !is_char_boundary(bytes, k),
        decreases end,
    {
        end = end - 1;
    }
    let (head, tail): (&str, &str) = split_text(s, end);
    proof {
        assert forall|k: int| 0 < k <= tail@.len() implies encode_utf8(head@ + #[trigger] tail@.take(k)).len() > limit by {
            let a = head@ + tail@.take(k);
            let b = tail@.skip(k);
            assert(a + b =~= s@);
            lemma_boundary(a, b);
            lemma_encode_concat(a, b);
            lemma_encode_concat(head@, tail@.take(k));
            encode_utf8_first_scalar(tail@.take(k));
        }
        lemma_clipped(head@, tail@, limit as nat);
    }
    head
}

/// The text of a signed number in decimal.
pub open spec fn signed_decimal(n: int) -> Seq<char> {
    if n < 0 {
        seq!['-'] + decimal((-n) as nat)
    } else {
        decimal(n as nat)
    }
}

/// Writes a signed number in decimal.
pub fn signed_text(n: i64) -> (r: String)
    ensures
        r@ == signed_decimal(n as int),
{
    if n < 0 {
        let magnitude: u64 = (-(n + 1)) as u64 + 1;
        let mut out: String = String::new();
        out.push('-');
        let digits: String = decimal_text(magnitude);
        out.append(digits.as_str());
        assert(out@ =~= seq!['-'] + decimal((-n) as nat));
        out
    } else {
        decimal_text(n as u64)
    }
}

/// `n` spaces.
pub open spec fn spaces(n: int) -> Seq<char> {
    Seq::new(
        if n > 0 {
            n as nat
        } else {
            0
        },
        |i: int| ' ',
    )
}

/// Appends `n` spaces.
pub fn push_spaces(out: &mut String, n: usize)
    ensures
        final(out)@ == old(out)@ + spaces(n as int),
{
    let mut i: usize = 0;
    assert(out@ =~= old(out)@ + spaces(0));
    while i < n
        invariant
            i <= n,
            out@ == old(out)@ + spaces(i as int),
        decreases n - i,
    {
        out.push(' ');
        i = i + 1;
        assert(out@ =~= old(out)@ + spaces(i as int));
    }
}

/// Whether `a` comes before `b` where byte strings are ordered like words in a dictionary: at the
/// first place where they differ, `a` has ended or has the smaller byte.
pub open spec fn comes_before(a: Seq<u8>, b: Seq<u8>) -> bool {
    exists|k: int| #[trigger] differ_first(a, b, k)
}

/// Whether the strings agree up to `k`, where `a` has ended or has the smaller byte.
pub open spec fn differ_first(a: Seq<u8>, b: Seq<u8>, k: int) -> bool {
    &&& 0 <= k <= a.len()
    &&& k < b.len()
    &&& forall|i: int| 0 <= i < k ==> a[i] == b[i]
    &&& k < a.len() ==> a[k] < b[k]
}

/// What comes before something that comes before a third comes before the third.
pub proof fn lemma_before_transitive(a: Seq<u8>, b: Seq<u8>, c: Seq<u8>)
    requires
        comes_before(a, b),
        comes_before(b, c),
    ensures
        comes_before(a, c),
{
    let j = choose|k: int| #[trigger] differ_first(a, b, k);
    let k = choose|k: int| #[trigger] differ_first(b, c, k);
    let m = if j < k {
        j
    } else {
        k
    };
    assert(differ_first(a, c, m));
}

/// Nothing comes before what comes before it.
pub proof fn lemma_before_asymmetric(a: Seq<u8>, b: Seq<u8>)
    requires
        comes_before(a, b),
    ensures
        !comes_before(b, a),
{
    let j = choose|k: int| #[trigger] differ_first(a, b, k);
    assert forall|k: int| !(#[trigger] differ_first(b, a, k)) by {
        if differ_first(b, a, k) {
            if k < j {
                assert(a[k] == b[k]);
            } else if j < k {
                assert(a[j] == b[j]);
            }
        }
    }
}

/// Whether one byte string comes before another.
pub fn bytes_before(a: &[u8], b: &[u8]) -> (r: bool)
    ensures
        r == comes_before(a@, b@),
        !r ==> a@ == b@ || comes_before(b@, a@),
{
    let mut i: usize = 0;
    while i < a.len() && i < b.len()
        invariant
            i <= a@.len(),
            i <= b@.len(),
            forall|k: int| 0 <= k < i ==> a@[k] == b@[k],
        decreases a@.len() - i,
    {
        if a[i] != b[i] {
            proof {
                if a@[i as int] < b@[i as int] {
                    assert(differ_first(a@, b@, i as int));
                } else {
                    assert(differ_first(b@, a@, i as int));
                    lemma_before_asymmetric(b@, a@);
                }
            }
            return a[i] < b[i];
        }
        i = i + 1;
    }
    proof {
        if i < b@.len() {
            assert(differ_first(a@, b@, i as int));
        } else if i < a@.len() {
            assert(differ_first(b@, a@, i as int));
            lemma_before_asymmetric(b@, a@);
        } else {
            assert(a@ =~= b@);
            if comes_before(a@, b@) {
                lemma_before_asymmetric(a@, b@);
            }
        }
    }
    i < b.len()
}

} // verus!
