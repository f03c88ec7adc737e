//! Texts: numbers that are written and read, and what a file is described with.

use vstd::prelude::*;
use vstd::utf8::*;

use crate::dump::{dims_text, dtype_text, dump_text, head_line, items_text, metadata_lines, quoted, tensor_line, tensor_lines, value_text, FloatText};
use crate::error::ErrorView;
use crate::gguf::{ParsedView, TensorInfoView, ValueView};
use crate::ids::{digits_number, is_digit, is_space, listed, number, numbers, pieces, trimmed, value};
use crate::text::{clipped, comes_before, decimal, differ_first, lemma_before_asymmetric, signed_decimal, spaces};

verus! {

// ---------------------------------------------------------------------------
// Numbers.
// ---------------------------------------------------------------------------

/// A number in decimal is read back as itself. It is made of digits, and begins with a zero only if it
/// is zero.
pub proof fn lemma_decimal(n: nat)
    ensures
        decimal(n).len() > 0,
        forall|i: int| 0 <= i < decimal(n).len() ==> '0' <= #[trigger] decimal(n)[i] <= '9',
        value(decimal(n)) == n,
        n > 0 ==> decimal(n)[0] != '0',
    decreases n,
{
    if n < 10 {
        assert(decimal(n).drop_last() =~= seq![]);
        assert(value(decimal(n).drop_last()) == 0);
    } else {
        lemma_decimal(n / 10);
        assert(decimal(n).drop_last() =~= decimal(n / 10));
    }
}

/// A digit behind a number makes ten of each of it, and adds itself.
pub proof fn lemma_value(s: Seq<char>, c: char)
    requires
        '0' <= c <= '9',
    ensures
        value(seq![]) == 0,
        value(s.push(c)) == 10 * value(s) + (c as nat - '0' as nat),
{
    assert(s.push(c).drop_last() =~= s);
}

/// A negative number is written with a minus sign before its positive.
pub proof fn lemma_signed(n: int)
    ensures
        n >= 0 ==> value(signed_decimal(n)) == n,
        n < 0 ==> signed_decimal(n)[0] == '-' && value(signed_decimal(n).drop_first()) == -n,
{
    lemma_decimal(n as nat);
    lemma_decimal((-n) as nat);
    if n < 0 {
        assert(signed_decimal(n).drop_first() =~= decimal((-n) as nat));
    }
}

// ---------------------------------------------------------------------------
// Lists of token numbers.
// ---------------------------------------------------------------------------

/// Whether there is only white space in a text.
pub open spec fn is_blank(s: Seq<char>) -> bool {
    forall|i: int| 0 <= i < s.len() ==> is_space(#[trigger] s[i])
}

/// White space around a text is cut off, and nothing else.
pub proof fn lemma_trimmed(before: Seq<char>, word: Seq<char>, behind: Seq<char>)
    requires
        is_blank(before),
        is_blank(behind),
        word.len() > 0 ==> !is_space(word[0]) && !is_space(word[word.len() - 1]),
    ensures
        trimmed(before + word + behind) == word,
    decreases before.len() + behind.len(),
{
    let s = before + word + behind;
    if before.len() > 0 {
        assert(is_space(before[0]));
        assert(s[0] == before[0]);
        assert(s.drop_first() =~= before.drop_first() + word + behind);
        lemma_trimmed(before.drop_first(), word, behind);
    } else if behind.len() > 0 {
        let last = behind.len() - 1;
        assert(is_space(behind[last]));
        assert(s[s.len() - 1] == behind[last]);
        if word.len() == 0 {
            assert(is_space(behind[0]));
            assert(s[0] == behind[0]);
            assert(s.drop_first() =~= before + word + behind.drop_first());
            lemma_trimmed(before, word, behind.drop_first());
        } else {
            assert(s[0] == word[0]);
            assert(s.drop_last() =~= before + word + behind.drop_last());
            lemma_trimmed(before, word, behind.drop_last());
        }
    } else {
        assert(s =~= word);
    }
}

/// A text is cut at its commas: what stands behind the last one is the last piece.
pub proof fn lemma_pieces(s: Seq<char>, last: Seq<char>)
    requires
        !last.contains(','),
    ensures
        pieces(last) == seq![last],
        pieces(s.push(',') + last) == pieces(s).push(last),
    decreases last.len(),
{
    if last.len() == 0 {
        assert(s.push(',') + last =~= s.push(','));
        assert(s.push(',').drop_last() =~= s);
        assert(last =~= seq![]);
        assert(pieces(last) =~= seq![last]);
        assert(pieces(s.push(',')) =~= pieces(s).push(last));
    } else {
        let c = last[last.len() - 1];
        let shorter = last.drop_last();
        assert(last.contains(c));
        assert(!shorter.contains(',')) by {
            if shorter.contains(',') {
                let i = choose|i: int| 0 <= i < shorter.len() && shorter[i] == ',';
                assert(last[i] == ',');
            }
        }
        lemma_pieces(s, shorter);
        let whole = s.push(',') + last;
        assert(whole.drop_last() =~= s.push(',') + shorter);
        assert(whole[whole.len() - 1] == c);
        assert(shorter.push(c) =~= last);
        assert(pieces(last) =~= seq![last]);
        let before = pieces(s).push(shorter);
        assert(before.drop_last() =~= pieces(s));
        assert(pieces(whole) =~= pieces(s).push(last));
    }
}

/// A blank piece counts for nothing. A number, with white space around it, is one more number. Any
/// other piece is refused, and named.
pub proof fn lemma_one_more_number(list: Seq<Seq<char>>, ids: Seq<u32>, before: Seq<char>, word: Seq<char>, behind: Seq<char>)
    requires
        numbers(list) == Ok::<Seq<u32>, ErrorView>(ids),
        is_blank(before),
        is_blank(behind),
        word.len() > 0 ==> !is_space(word[0]) && !is_space(word[word.len() - 1]),
    ensures
        ({
            let piece = before + word + behind;
            let all = numbers(list.push(piece));
            &&& word.len() == 0 ==> all == Ok::<Seq<u32>, ErrorView>(ids)
            &&& word.len() > 0 && number(word) is Some ==> all == Ok::<Seq<u32>, ErrorView>(ids.push(number(word)->0))
            &&& word.len() > 0 && number(word) is None ==> all == Err::<Seq<u32>, ErrorView>(ErrorView::BadTokenId { piece })
        }),
{
    let piece = before + word + behind;
    lemma_trimmed(before, word, behind);
    assert(list.push(piece).drop_last() =~= list);
}

/// A text without the plus sign that it may begin with.
pub open spec fn without_plus(word: Seq<char>) -> Seq<char> {
    if word.len() > 0 && word[0] == '+' {
        word.subrange(1, word.len() as int)
    } else {
        word
    }
}

/// Whether a text is made of digits.
pub open spec fn all_digits(s: Seq<char>) -> bool {
    forall|i: int| 0 <= i < s.len() ==> '0' <= #[trigger] s[i] <= '9'
}

/// Which texts write a token number: digits, after a plus sign or none, of a number of 32 bits.
pub proof fn lemma_number(word: Seq<char>, n: u32)
    ensures
        number(word) == Some(n) <==> without_plus(word).len() > 0 && all_digits(without_plus(word)) && value(without_plus(word)) == n,
{
    let digits = without_plus(word);
    if word.len() > 0 && word[0] == '+' {
        assert(word.drop_first() =~= digits);
    }
    assert(number(word) == digits_number(digits));
    assert(all_digits(digits) == (forall|i: int| 0 <= i < digits.len() ==> is_digit(#[trigger] digits[i])));
}

/// The bytes that a list of token numbers is written with: decimal numbers, with commas between them.
pub open spec fn comma_list(ids: Seq<u32>) -> Seq<char>
    decreases ids.len(),
{
    if ids.len() == 0 {
        seq![]
    } else if ids.len() == 1 {
        decimal(ids[0] as nat)
    } else {
        comma_list(ids.drop_last()).push(',') + decimal(ids[ids.len() - 1] as nat)
    }
}

/// Token numbers with commas between them are read back as they were.
pub proof fn lemma_ids_read_back(ids: Seq<u32>)
    ensures
        numbers(pieces(comma_list(ids))) == Ok::<Seq<u32>, ErrorView>(ids),
    decreases ids.len(),
{
    let none = Seq::<char>::empty();
    let no_pieces = Seq::<Seq<char>>::empty();
    if ids.len() == 0 {
        assert(ids =~= seq![]);
        lemma_pieces(none, none);
        lemma_one_more_number(no_pieces, ids, none, none, none);
        assert(none + none + none =~= none);
        assert(no_pieces.push(none) =~= seq![none]);
    } else {
        let n = ids[ids.len() - 1];
        let word = decimal(n as nat);
        lemma_decimal(n as nat);
        assert(!word.contains(',')) by {
            if word.contains(',') {
                let i = choose|i: int| 0 <= i < word.len() && word[i] == ',';
                assert('0' <= word[i] <= '9');
            }
        }
        assert('0' <= word[0] <= '9' && '0' <= word[word.len() - 1] <= '9');
        lemma_number(word, n);
        assert(none + word + none =~= word);
        let before = ids.drop_last();
        assert(before.push(n) =~= ids);
        if ids.len() == 1 {
            lemma_pieces(none, word);
            assert(before =~= seq![]);
            lemma_one_more_number(no_pieces, before, none, word, none);
            assert(no_pieces.push(word) =~= seq![word]);
        } else {
            lemma_ids_read_back(before);
            lemma_pieces(comma_list(before), word);
            lemma_one_more_number(pieces(comma_list(before)), before, none, word, none);
        }
    }
}

/// Token numbers are listed in decimal, with one blank between two.
pub proof fn lemma_listed(ids: Seq<u32>, n: u32)
    ensures
        listed(seq![]) == Seq::<char>::empty(),
        listed(seq![n]) == decimal(n as nat),
        ids.len() > 0 ==> listed(ids.push(n)) == listed(ids) + seq![' '] + decimal(n as nat),
{
    if ids.len() > 0 {
        assert(ids.push(n).drop_last() =~= ids);
        assert(listed(ids.push(n)) =~= listed(ids) + seq![' '] + decimal(n as nat));
    }
}

// ---------------------------------------------------------------------------
// Descriptions of files.
// ---------------------------------------------------------------------------

/// A text that is cut off is a beginning of the whole, fits, and could not be longer by a character.
pub proof fn lemma_cut_off(s: Seq<char>, limit: nat)
    ensures
        ({
            let c = clipped(s, limit);
            &&& c.len() <= s.len()
            &&& c == s.take(c.len() as int)
            &&& encode_utf8(c).len() <= limit
            &&& c.len() < s.len() ==> encode_utf8(s.take(c.len() + 1int)).len() > limit
        }),
    decreases s.len(),
{
    let c = clipped(s, limit);
    if s.len() == 0 || encode_utf8(s).len() <= limit {
        assert(s.take(s.len() as int) =~= s);
        if s.len() == 0 {
            assert(encode_utf8(s).len() == 0);
        }
    } else {
        let shorter = s.drop_last();
        lemma_cut_off(shorter, limit);
        assert(shorter.take(c.len() as int) =~= s.take(c.len() as int));
        if c.len() < shorter.len() {
            assert(shorter.take(c.len() + 1int) =~= s.take(c.len() + 1int));
        } else {
            assert(s.take(c.len() + 1int) =~= s);
        }
    }
}

/// Of an array the first eight items are shown at most, and how many there are.
pub proof fn lemma_array_text<T: FloatText>(items: Seq<ValueView>, texts: &T)
    ensures
        items.len() <= 8 ==> value_text(ValueView::Array(items), texts) == "["@ + items_text(items, items.len(), texts) + "] ("@ + decimal(items.len())
            + " items)"@,
        items.len() > 8 ==> value_text(ValueView::Array(items), texts) == "["@ + items_text(items, 8, texts) + ", ...] ("@ + decimal(items.len())
            + " items)"@,
        items.len() > 0 ==> items_text(items, 1, texts) == value_text(items[0], texts),
        forall|n: nat|
            1 <= n < items.len() ==> #[trigger] items_text(items, n + 1, texts) == items_text(items, n, texts) + ", "@ + value_text(
                items[n as int],
                texts,
            ),
{
    reveal_strlit("");
    reveal_strlit(", ...");
    reveal_strlit("] (");
    reveal_strlit(", ...] (");
    let v = value_text(ValueView::Array(items), texts);
    if items.len() <= 8 {
        assert(v =~= "["@ + items_text(items, items.len(), texts) + "] ("@ + decimal(items.len()) + " items)"@);
    } else {
        assert(", ...] ("@ =~= ", ..."@ + "] ("@);
        assert(v =~= "["@ + items_text(items, 8, texts) + ", ...] ("@ + decimal(items.len()) + " items)"@);
    }
}

/// A value is written as the number it is; a string is cut off at eighty bytes.
pub proof fn lemma_value_text<T: FloatText>(v: ValueView, texts: &T)
    ensures
        match v {
            ValueView::U8(n) => value_text(v, texts) == decimal(n as nat),
            ValueView::I8(n) => value_text(v, texts) == signed_decimal(n as int),
            ValueView::U16(n) => value_text(v, texts) == decimal(n as nat),
            ValueView::I16(n) => value_text(v, texts) == signed_decimal(n as int),
            ValueView::U32(n) => value_text(v, texts) == decimal(n as nat),
            ValueView::I32(n) => value_text(v, texts) == signed_decimal(n as int),
            ValueView::U64(n) => value_text(v, texts) == decimal(n as nat),
            ValueView::I64(n) => value_text(v, texts) == signed_decimal(n as int),
            ValueView::F32(bits) => value_text(v, texts) == texts.single(bits),
            ValueView::F64(bits) => value_text(v, texts) == texts.double(bits),
            ValueView::Bool(b) => b && value_text(v, texts) == "true"@ || !b && value_text(v, texts) == "false"@,
            ValueView::String(s) => value_text(v, texts) == quoted(clipped(s, 80)),
            ValueView::Array(_) => true,
        },
{
}

/// The line on a tensor has columns: the number ends in the sixth place, the name begins in the ninth,
/// and the dimensions follow forty places on, with the data type and the offset behind them.
pub proof fn lemma_tensor_columns(i: nat, t: TensorInfoView)
    requires
        decimal(i).len() <= 4,
        t.name.len() <= 40,
    ensures
        ({
            let line = tensor_line(i, t);
            let digits = decimal(i).len() as int;
            let name = t.name.len() as int;
            &&& line.subrange(6 - digits, 6) == decimal(i)
            &&& line.subrange(8, 8 + name) == t.name
            &&& forall|k: int| 0 <= k < 6 - digits || 6 <= k < 8 || 8 + name <= k < 50 ==> #[trigger] line[k] == ' '
            &&& line.skip(50) == "["@ + dims_text(t.dims, t.dims.len()) + "]  "@ + dtype_text(t.dtype) + "  offset "@ + decimal(t.offset as nat) + "\n"@
        }),
{
    reveal_strlit("  ");
    reveal_strlit("  [");
    reveal_strlit("[");
    let line = tensor_line(i, t);
    let digits = decimal(i).len() as int;
    let name = t.name.len() as int;
    let rest = dims_text(t.dims, t.dims.len()) + "]  "@ + dtype_text(t.dtype) + "  offset "@ + decimal(t.offset as nat) + "\n"@;
    let front = "  "@ + spaces(4 - digits) + decimal(i) + "  "@ + t.name + spaces(40 - name) + "  ["@;
    assert(line =~= front + rest);
    assert(front.len() == 51);
    assert(line.subrange(6 - digits, 6) =~= decimal(i));
    assert(line.subrange(8, 8 + name) =~= t.name);
    assert(line.skip(50) =~= "["@ + dims_text(t.dims, t.dims.len()) + "]  "@ + dtype_text(t.dtype) + "  offset "@ + decimal(t.offset as nat) + "\n"@);
}

/// A description begins with the version, the number of keys and tensors and where the data start. The
/// metadata follow if they are asked for, a line for each key, and then a line for each tensor.
pub proof fn lemma_description<T: FloatText>(h: ParsedView, keys: Seq<Seq<char>>, texts: &T)
    ensures
        ({
            let numbers = "gguf version "@ + decimal(h.version as nat) + " | "@ + decimal(h.metadata.dom().len()) + " metadata keys | "@ + decimal(
                h.tensors.len(),
            ) + " tensors | data starts at byte "@ + decimal(h.data_start as nat) + "\n"@;
            let metadata = "\nmetadata:\n"@ + metadata_lines(h.metadata, keys, keys.len(), texts);
            let tensors = "\ntensors (dims in ggml order, fastest-varying first):\n"@ + tensor_lines(h.tensors, h.tensors.len());
            &&& dump_text(h, keys, false, texts) == numbers + tensors
            &&& dump_text(h, keys, true, texts) == numbers + metadata + tensors
        }),
        metadata_lines(h.metadata, keys, 0, texts).len() == 0,
        tensor_lines(h.tensors, 0).len() == 0,
        forall|n: nat|
            n < keys.len() ==> #[trigger] metadata_lines(h.metadata, keys, n + 1, texts) == metadata_lines(h.metadata, keys, n, texts) + ("  "@
                + keys[n as int] + " = "@ + value_text(h.metadata[keys[n as int]], texts) + "\n"@),
        forall|n: nat|
            n < h.tensors.len() ==> #[trigger] tensor_lines(h.tensors, n + 1) == tensor_lines(h.tensors, n) + tensor_line(n, h.tensors[n as int]),
{
    let numbers = head_line(h);
    let metadata = "\nmetadata:\n"@ + metadata_lines(h.metadata, keys, keys.len(), texts);
    let tensors = "\ntensors (dims in ggml order, fastest-varying first):\n"@ + tensor_lines(h.tensors, h.tensors.len());
    assert(dump_text(h, keys, false, texts) =~= numbers + tensors);
    assert(dump_text(h, keys, true, texts) =~= numbers + metadata + tensors);
}

/// Dimensions are listed with a comma and a blank between two.
pub proof fn lemma_dims_text(dims: Seq<u64>, n: nat)
    requires
        n < dims.len(),
    ensures
        dims_text(dims, 0).len() == 0,
        dims_text(dims, 1) == decimal(dims[0] as nat),
        n > 0 ==> dims_text(dims, n + 1) == dims_text(dims, n) + ", "@ + decimal(dims[n as int] as nat),
{
}

// ---------------------------------------------------------------------------
// Order.
// ---------------------------------------------------------------------------

/// Byte strings are ordered by the first byte in which they differ, and a beginning comes before the
/// whole.
pub proof fn lemma_dictionary_order(start: Seq<u8>, x: u8, a: Seq<u8>, y: u8, b: Seq<u8>)
    ensures
        x < y ==> comes_before(start + seq![x] + a, start + seq![y] + b),
        y < x ==> !comes_before(start + seq![x] + a, start + seq![y] + b),
        comes_before(start, start + seq![x] + a),
        !comes_before(start + seq![x] + a, start),
        !comes_before(start, start),
{
    let k = start.len() as int;
    let (one, two) = (start + seq![x] + a, start + seq![y] + b);
    if x < y {
        assert(differ_first(one, two, k));
    }
    if y < x {
        assert(differ_first(two, one, k));
        if comes_before(one, two) {
            lemma_before_asymmetric(one, two);
        }
    }
    assert(differ_first(start, one, k));
    if comes_before(one, start) {
        lemma_before_asymmetric(one, start);
    }
    if comes_before(start, start) {
        lemma_before_asymmetric(start, start);
    }
}

} // verus!
