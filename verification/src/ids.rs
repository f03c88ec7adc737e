//! Lists of token numbers as text.

use vstd::prelude::*;
use vstd::string::*;

use crate::error::{ErrorView, FurnaceError};
use crate::text::{decimal, decimal_text};

verus! {

// ---------------------------------------------------------------------------
// Reading.
// ---------------------------------------------------------------------------

/// Whether a character is white space, as Unicode has it.
pub open spec fn is_space(c: char) -> bool {
    let u = c as int;
    ||| 0x9 <= u <= 0xD
    ||| u == 0x20 || u == 0x85 || u == 0xA0 || u == 0x1680
    ||| 0x2000 <= u <= 0x200A
    ||| u == 0x2028 || u == 0x2029 || u == 0x202F || u == 0x205F || u == 0x3000
}

/// The text without white space at its ends.
pub open spec fn trimmed(s: Seq<char>) -> Seq<char>
    decreases s.len(),
{
    if s.len() > 0 && is_space(s.first()) {
        trimmed(s.drop_first())
    } else if s.len() > 0 && is_space(s.last()) {
        trimmed(s.drop_last())
    } else {
        s
    }
}

/// Whether a character is a decimal digit.
pub open spec fn is_digit(c: char) -> bool {
    '0' <= c <= '9'
}

/// The number that digits write.
pub open spec fn value(s: Seq<char>) -> nat
    decreases s.len(),
{
    if s.len() == 0 {
        0
    } else {
        value(s.drop_last()) * 10 + (s.last() as nat - 48) as nat
    }
}

/// The number that digits write, if there are any and it fits in 32 bits.
pub open spec fn digits_number(s: Seq<char>) -> Option<u32> {
    if s.len() > 0 && (forall|i: int| 0 <= i < s.len() ==> is_digit(#[trigger] s[i])) && value(s) <= u32::MAX {
        Some(value(s) as u32)
    } else {
        None
    }
}

/// The number that a text writes, with or without a plus sign.
pub open spec fn number(s: Seq<char>) -> Option<u32> {
    if s.len() > 0 && s[0] == '+' {
        digits_number(s.drop_first())
    } else {
        digits_number(s)
    }
}

/// The pieces of a text between its commas.
pub open spec fn pieces(s: Seq<char>) -> Seq<Seq<char>>
    decreases s.len(),
{
    if s.len() == 0 {
        seq![seq![]]
    } else {
        let before = pieces(s.drop_last());
        if s.last() == ',' {
            before.push(seq![])
        } else {
            before.drop_last().push(before.last().push(s.last()))
        }
    }
}

/// The numbers that these pieces write. A blank one writes none.
pub open spec fn numbers(list: Seq<Seq<char>>) -> Result<Seq<u32>, ErrorView>
    decreases list.len(),
{
    if list.len() == 0 {
        Ok(seq![])
    } else {
        match numbers(list.drop_last()) {
            Err(e) => Err(e),
            Ok(before) => {
                let word = trimmed(list.last());
                if word.len() == 0 {
                    Ok(before)
                } else {
                    match number(word) {
                        Some(n) => Ok(before.push(n)),
                        None => Err(ErrorView::BadTokenId { piece: list.last() }),
                    }
                }
            },
        }
    }
}

/// Whether a character is white space.
fn space(c: char) -> (r: bool)
    ensures
        r == is_space(c),
{
    let u: u32 = c as u32;
    (0x9 <= u && u <= 0xD) || u == 0x20 || u == 0x85 || u == 0xA0 || u == 0x1680 || (0x2000 <= u && u <= 0x200A) || u == 0x2028 || u
        == 0x2029 || u == 0x202F || u == 0x205F || u == 0x3000
}

/// More digits write no smaller number.
proof fn lemma_value_grows(s: Seq<char>, n: int)
    requires
        0 <= n <= s.len(),
        forall|i: int| 0 <= i < s.len() ==> is_digit(#[trigger] s[i]),
    ensures
        value(s.take(n)) <= value(s),
    decreases s.len() - n,
{
    if n < s.len() {
        lemma_value_grows(s, n + 1);
        assert(s.take(n + 1).drop_last() =~= s.take(n));
    } else {
        assert(s.take(n) =~= s);
    }
}

/// Reads the number that digits from `from` to `hi` write.
fn read_digits(s: &[char], from: usize, hi: usize) -> (r: Option<u32>)
    requires
        from <= hi <= s@.len(),
    ensures
        r == digits_number(s@.subrange(from as int, hi as int)),
{
    let ghost digits = s@.subrange(from as int, hi as int);
    if from == hi {
        return None;
    }
    let mut n: u64 = 0;
    let mut i: usize = from;
    assert(digits.take(0) =~= seq![]);
    while i < hi
        invariant
            from <= i <= hi <= s@.len(),
            digits == s@.subrange(from as int, hi as int),
            forall|k: int| 0 <= k < i - from ==> is_digit(#[trigger] digits[k]),
            n == value(digits.take(i - from)),
            n <= u32::MAX,
        decreases hi - i,
    {
        let c: char = s[i];
        assert(digits[i - from] == c);
        if c < '0' || c > '9' {
            assert(!is_digit(digits[i - from]));
            return None;
        }
        let d: u64 = c as u64 - 48;
        n = n * 10 + d;
        proof {
            assert(digits.take(i - from + 1).drop_last() =~= digits.take(i - from));
        }
        if n > u32::MAX as u64 {
            proof {
                if forall|k: int| 0 <= k < digits.len() ==> is_digit(#[trigger] digits[k]) {
                    lemma_value_grows(digits, i - from + 1);
                }
            }
            return None;
        }
        i = i + 1;
    }
    assert(digits.take(i - from) =~= digits);
    Some(n as u32)
}

/// Reads the number that characters from `lo` to `hi` write.
fn read_number(s: &[char], lo: usize, hi: usize) -> (r: Option<u32>)
    requires
        lo <= hi <= s@.len(),
    ensures
        r == number(s@.subrange(lo as int, hi as int)),
{
    let ghost word = s@.subrange(lo as int, hi as int);
    if lo < hi && s[lo] == '+' {
        assert(word[0] == '+');
        assert(word.drop_first() =~= s@.subrange(lo + 1, hi as int));
        read_digits(s, lo + 1, hi)
    } else {
        assert(word.len() > 0 ==> word[0] == s@[lo as int]);
        read_digits(s, lo, hi)
    }
}

/// Writes characters one behind the other.
fn write_chars(s: &[char]) -> (r: String)
    ensures
        r@ == s@,
{
    let mut out: String = String::new();
    let mut i: usize = 0;
    while i < s.len()
        invariant
            i <= s@.len(),
            out@ =~= s@.take(i as int),
        decreases s@.len() - i,
    {
        out.push(s[i]);
        i = i + 1;
    }
    assert(s@.take(i as int) =~= s@);
    out
}

/// Reads the number that one piece writes, if it is not blank.
fn read_piece(s: &[char]) -> (r: Result<Option<u32>, FurnaceError>)
    ensures
        ({
            let word = trimmed(s@);
            if word.len() == 0 {
                r matches Ok(None)
            } else {
                match number(word) {
                    Some(n) => r matches Ok(Some(got)) && got == n,
                    None => r matches Err(e) && e@ == (ErrorView::BadTokenId { piece: s@ }),
                }
            }
        }),
{
    let mut lo: usize = 0;
    let mut hi: usize = s.len();
    assert(s@.subrange(0, s@.len() as int) =~= s@);
    while lo < hi && space(s[lo])
        invariant
            lo <= hi,
            hi == s@.len(),
            trimmed(s@.subrange(lo as int, hi as int)) == trimmed(s@),
        ensures
            lo <= hi,
            hi == s@.len(),
            trimmed(s@.subrange(lo as int, hi as int)) == trimmed(s@),
            lo < hi ==> !is_space(s@[lo as int]),
        decreases hi - lo,
    {
        assert(s@.subrange(lo as int, hi as int).drop_first() =~= s@.subrange(lo + 1, hi as int));
        lo = lo + 1;
    }
    while lo < hi && space(s[hi - 1])
        invariant
            lo <= hi <= s@.len(),
            trimmed(s@.subrange(lo as int, hi as int)) == trimmed(s@),
            lo < hi ==> !is_space(s@[lo as int]),
        ensures
            lo <= hi <= s@.len(),
            trimmed(s@.subrange(lo as int, hi as int)) == trimmed(s@),
            lo < hi ==> !is_space(s@[lo as int]) && !is_space(s@[hi - 1]),
        decreases hi - lo,
    {
        assert(s@.subrange(lo as int, hi as int).drop_last() =~= s@.subrange(lo as int, hi - 1));
        hi = hi - 1;
    }
    let ghost word = s@.subrange(lo as int, hi as int);
    assert(trimmed(word) == word);
    if lo == hi {
        return Ok(None);
    }
    match read_number(s, lo, hi) {
        Some(n) => Ok(Some(n)),
        None => Err(FurnaceError::BadTokenId { piece: write_chars(s) }),
    }
}

/// There is always a piece, if only a blank one.
proof fn lemma_some_piece(s: Seq<char>)
    ensures
        pieces(s).len() > 0,
    decreases s.len(),
{
    if s.len() > 0 {
        lemma_some_piece(s.drop_last());
    }
}

/// A piece that writes no number spoils the list, whatever follows.
proof fn lemma_numbers_fail(list: Seq<Seq<char>>, n: int)
    requires
        0 <= n <= list.len(),
        numbers(list.take(n)) is Err,
    ensures
        numbers(list) == numbers(list.take(n)),
    decreases list.len() - n,
{
    if n < list.len() {
        assert(list.take(n + 1).drop_last() =~= list.take(n));
        lemma_numbers_fail(list, n + 1);
    } else {
        assert(list.take(n) =~= list);
    }
}

/// The pieces of the beginning of a text, but for the last one, are pieces of the text.
proof fn lemma_pieces_grow(s: Seq<char>, n: int)
    requires
        0 <= n <= s.len(),
    ensures
        pieces(s.take(n)).len() <= pieces(s).len(),
        pieces(s.take(n)).drop_last() == pieces(s).take(pieces(s.take(n)).len() - 1),
    decreases s.len(),
{
    lemma_some_piece(s);
    lemma_some_piece(s.take(n));
    if n < s.len() {
        lemma_pieces_grow(s.drop_last(), n);
        lemma_some_piece(s.drop_last());
        assert(s.drop_last().take(n) =~= s.take(n));
        assert(pieces(s.take(n)).drop_last() =~= pieces(s).take(pieces(s.take(n)).len() - 1));
    } else {
        assert(s.take(n) =~= s);
        assert(pieces(s).drop_last() =~= pieces(s).take(pieces(s).len() - 1));
    }
}

/// Reads token numbers with commas between them. Blank pieces are passed over, and so is white space
/// around a number.
pub fn parse_ids(text: &str) -> (r: Result<Vec<u32>, FurnaceError>)
    ensures
        match r {
            Ok(ids) => numbers(pieces(text@)) == Ok::<_, ErrorView>(ids@),
            Err(e) => numbers(pieces(text@)) == Err::<Seq<u32>, _>(e@),
        },
{
    let ghost whole = text@;
    let mut ids: Vec<u32> = Vec::new();
    let mut piece: Vec<char> = Vec::new();
    proof {
        assert(whole.take(0) =~= seq![]);
        assert(pieces(whole.take(0)).drop_last() =~= seq![]);
        assert(piece@ =~= pieces(whole.take(0)).last());
        assert(ids@ =~= seq![]);
    }
    for c in it: text.chars()
        invariant
            whole == text@,
            it.seq() == whole,
            pieces(whole.take(it.index() as int)).len() > 0,
            piece@ == pieces(whole.take(it.index() as int)).last(),
            numbers(pieces(whole.take(it.index() as int)).drop_last()) == Ok::<_, ErrorView>(ids@),
    {
        let ghost at = it.index() as int;
        let ghost next = whole.take(at + 1);
        proof {
            assert(c == whole[at]);
            assert(next.drop_last() =~= whole.take(at));
            lemma_some_piece(next);
        }
        if c == ',' {
            assert(pieces(next).drop_last() =~= pieces(whole.take(at)));
            match read_piece(piece.as_slice()) {
                Ok(Some(n)) => {
                    ids.push(n);
                },
                Ok(None) => {},
                Err(e) => {
                    proof {
                        lemma_pieces_grow(whole, at + 1);
                        lemma_numbers_fail(pieces(whole), pieces(next).len() - 1);
                    }
                    return Err(e);
                },
            }
            piece = Vec::new();
            assert(piece@ =~= pieces(next).last());
        } else {
            piece.push(c);
            assert(pieces(next).drop_last() =~= pieces(whole.take(at)).drop_last());
        }
    }
    assert(whole.take(whole.len() as int) =~= whole);
    match read_piece(piece.as_slice()) {
        Ok(Some(n)) => {
            ids.push(n);
            Ok(ids)
        },
        Ok(None) => Ok(ids),
        Err(e) => Err(e),
    }
}

// ---------------------------------------------------------------------------
// Writing.
// ---------------------------------------------------------------------------

/// Numbers in decimal, with blanks between them.
pub open spec fn listed(ids: Seq<u32>) -> Seq<char>
    decreases ids.len(),
{
    if ids.len() == 0 {
        seq![]
    } else if ids.len() == 1 {
        decimal(ids[0] as nat)
    } else {
        listed(ids.drop_last()).push(' ') + decimal(ids.last() as nat)
    }
}

/// Writes token numbers with blanks between them.
pub fn ids_text(ids: &[u32]) -> (r: String)
    ensures
        r@ == listed(ids@),
{
    let mut out: String = String::new();
    let mut i: usize = 0;
    assert(ids@.take(0) =~= seq![]);
    while i < ids.len()
        invariant
            i <= ids@.len(),
            out@ == listed(ids@.take(i as int)),
        decreases ids@.len() - i,
    {
        proof {
            assert(ids@.take(i + 1).drop_last() =~= ids@.take(i as int));
        }
        if i > 0 {
            out.push(' ');
        }
        let one: String = decimal_text(ids[i] as u64);
        out.append(one.as_str());
        proof {
            if i == 0 {
                assert(out@ =~= decimal(ids@[0] as nat));
            }
        }
        i = i + 1;
    }
    assert(ids@.take(i as int) =~= ids@);
    out
}

} // verus!
