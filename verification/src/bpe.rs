//! Byte-pair merging: a word is a list of symbols, and adjacent symbols are joined by rank.

use vstd::hash_map::StringHashMap;
use vstd::prelude::*;
use vstd::string::*;

use crate::alphabet::{byte_char, mapped};
use crate::text::same_text;

verus! {

/// The texts of a list of strings.
pub open spec fn texts(list: Seq<String>) -> Seq<Seq<char>> {
    Seq::new(list.len(), |i: int| list[i]@)
}

/// The place of each text in a list. Of two equal texts the later counts. Places wrap around at
/// 2^32.
pub open spec fn numbering(list: Seq<Seq<char>>) -> Map<Seq<char>, u32>
    decreases list.len(),
{
    if list.len() == 0 {
        Map::empty()
    } else {
        numbering(list.drop_last()).insert(list.last(), (list.len() - 1) as u32)
    }
}

/// Numbers the strings of a list.
pub fn number_texts(list: &[String]) -> (r: StringHashMap<u32>)
    ensures
        r@ == numbering(texts(list@)),
{
    let mut map: StringHashMap<u32> = StringHashMap::new();
    let ghost all = texts(list@);
    let mut i: usize = 0;
    assert(all.take(0) =~= seq![]);
    while i < list.len()
        invariant
            i <= list@.len(),
            all == texts(list@),
            map@ == numbering(all.take(i as int)),
        decreases list@.len() - i,
    {
        assert(all.take(i + 1).drop_last() =~= all.take(i as int));
        map.insert(list[i].clone(), i as u32);
        i = i + 1;
    }
    assert(all.take(i as int) =~= all);
    map
}

/// What a numbering holds: each text of the list, with a place where it stands.
pub proof fn lemma_numbering(list: Seq<Seq<char>>, s: Seq<char>)
    requires
        list.len() <= 0x1_0000_0000,
    ensures
        numbering(list).contains_key(s) <==> list.contains(s),
        numbering(list).contains_key(s) ==> numbering(list)[s] < list.len() && list[numbering(list)[s] as int] == s,
    decreases list.len(),
{
    if list.len() > 0 {
        lemma_numbering(list.drop_last(), s);
        if list.contains(s) && s != list.last() {
            let i = choose|i: int| 0 <= i < list.len() && list[i] == s;
            assert(list.drop_last()[i] == s);
        }
        if list.drop_last().contains(s) {
            let i = choose|i: int| 0 <= i < list.drop_last().len() && list.drop_last()[i] == s;
            assert(list[i] == s);
        }
        assert(list.last() == list[list.len() - 1]);
    }
}

/// The two symbols as merge rules write them: with a space between.
pub open spec fn pair_key(a: Seq<char>, b: Seq<char>) -> Seq<char> {
    a + " "@ + b
}

/// Among the first `n` adjacent pairs of the word, the leftmost of lowest rank.
pub open spec fn best_pair(ranks: Map<Seq<char>, u32>, word: Seq<Seq<char>>, n: int) -> Option<int>
    decreases n,
{
    if n <= 0 {
        None
    } else {
        let before = best_pair(ranks, word, n - 1);
        let key = pair_key(word[n - 1], word[n]);
        if ranks.contains_key(key) && (before matches Some(i) ==> ranks[key] < ranks[pair_key(word[i], word[i + 1])]) {
            Some(n - 1)
        } else {
            before
        }
    }
}

/// The word with every `a` that `b` follows joined with it, from left to right.
pub open spec fn merge_all(word: Seq<Seq<char>>, a: Seq<char>, b: Seq<char>) -> Seq<Seq<char>>
    decreases word.len(),
{
    if word.len() == 0 {
        seq![]
    } else if word.len() > 1 && word[0] == a && word[1] == b {
        seq![a + b] + merge_all(word.skip(2), a, b)
    } else {
        seq![word[0]] + merge_all(word.skip(1), a, b)
    }
}

/// Merging shortens a word that has the pair, and lengthens none.
pub proof fn lemma_merge_shortens(word: Seq<Seq<char>>, a: Seq<char>, b: Seq<char>, i: int)
    ensures
        merge_all(word, a, b).len() <= word.len(),
        0 <= i && i + 1 < word.len() && word[i] == a && word[i + 1] == b ==> merge_all(word, a, b).len() < word.len(),
    decreases word.len(),
{
    if word.len() > 1 && word[0] == a && word[1] == b {
        lemma_merge_shortens(word.skip(2), a, b, 0);
    } else if word.len() > 0 {
        lemma_merge_shortens(word.skip(1), a, b, i - 1);
    }
}

/// The pair that is merged next stands in the word and has a rank, and none has a lower one.
pub proof fn lemma_best_pair(ranks: Map<Seq<char>, u32>, word: Seq<Seq<char>>, n: int)
    requires
        n < word.len(),
    ensures
        best_pair(ranks, word, n) matches Some(i) ==> {
            &&& 0 <= i < n
            &&& ranks.contains_key(pair_key(word[i], word[i + 1]))
            &&& forall|j: int| #![trigger word[j]] 0 <= j < n && ranks.contains_key(pair_key(word[j], word[j + 1])) ==> {
                let best = ranks[pair_key(word[i], word[i + 1])];
                let other = ranks[pair_key(word[j], word[j + 1])];
                best <= other && (j < i ==> best < other)
            }
        },
        best_pair(ranks, word, n) is None ==> forall|j: int| #![trigger word[j]] 0 <= j < n ==> !ranks.contains_key(pair_key(word[j], word[j + 1])),
    decreases n,
{
    if n > 0 {
        lemma_best_pair(ranks, word, n - 1);
    }
}

/// The word when no pair has a rank any more: again and again the pair of lowest rank, the leftmost
/// of several, is merged wherever it occurs.
pub open spec fn merged(ranks: Map<Seq<char>, u32>, word: Seq<Seq<char>>) -> Seq<Seq<char>>
    decreases word.len(),
{
    match best_pair(ranks, word, word.len() - 1) {
        Some(i) => if merge_all(word, word[i], word[i + 1]).len() < word.len() {
            merged(ranks, merge_all(word, word[i], word[i + 1]))
        } else {
            word
        },
        None => word,
    }
}

/// The symbols of a word, one after the other.
pub open spec fn joined(word: Seq<Seq<char>>) -> Seq<char>
    decreases word.len(),
{
    if word.len() == 0 {
        seq![]
    } else {
        word[0] + joined(word.skip(1))
    }
}

/// Merging a pair keeps the text of the word.
pub proof fn lemma_merge_keeps_text(word: Seq<Seq<char>>, a: Seq<char>, b: Seq<char>)
    ensures
        joined(merge_all(word, a, b)) == joined(word),
    decreases word.len(),
{
    let m = merge_all(word, a, b);
    if word.len() > 1 && word[0] == a && word[1] == b {
        lemma_merge_keeps_text(word.skip(2), a, b);
        assert(m.skip(1) =~= merge_all(word.skip(2), a, b));
        assert(word.skip(1).skip(1) =~= word.skip(2));
        assert(word.skip(1)[0] == b);
        assert(m[0] == a + b);
        assert(joined(word.skip(1)) == b + joined(word.skip(2)));
        assert(joined(m) =~= joined(word));
    } else if word.len() > 0 {
        lemma_merge_keeps_text(word.skip(1), a, b);
        assert(m.skip(1) =~= merge_all(word.skip(1), a, b));
    }
}

/// However a word is merged, its text stays.
pub proof fn lemma_merged_keeps_text(ranks: Map<Seq<char>, u32>, word: Seq<Seq<char>>)
    ensures
        joined(merged(ranks, word)) == joined(word),
    decreases word.len(),
{
    if let Some(i) = best_pair(ranks, word, word.len() - 1) {
        let next = merge_all(word, word[i], word[i + 1]);
        if next.len() < word.len() {
            lemma_merge_keeps_text(word, word[i], word[i + 1]);
            lemma_merged_keeps_text(ranks, next);
        }
    }
}

/// After merging, no adjacent pair has a rank.
pub proof fn lemma_merged_is_done(ranks: Map<Seq<char>, u32>, word: Seq<Seq<char>>)
    ensures
        forall|j: int| #![trigger merged(ranks, word)[j]] 0 <= j < merged(ranks, word).len() - 1 ==> !ranks.contains_key(
            pair_key(merged(ranks, word)[j], merged(ranks, word)[j + 1]),
        ),
    decreases word.len(),
{
    if word.len() > 0 {
        lemma_best_pair(ranks, word, word.len() - 1);
        if let Some(i) = best_pair(ranks, word, word.len() - 1) {
            lemma_merge_shortens(word, word[i], word[i + 1], i);
            lemma_merged_is_done(ranks, merge_all(word, word[i], word[i + 1]));
            assert(merged(ranks, word) == merged(ranks, merge_all(word, word[i], word[i + 1])));
        } else {
            assert(merged(ranks, word) == word);
        }
    }
}

/// One symbol for each byte.
pub open spec fn byte_symbols(bytes: Seq<u8>) -> Seq<Seq<char>> {
    Seq::new(bytes.len(), |i: int| seq![byte_char(bytes[i])])
}

/// The symbols of the bytes write the text that stands for the bytes.
pub proof fn lemma_byte_symbols(bytes: Seq<u8>)
    ensures
        joined(byte_symbols(bytes)) == mapped(bytes),
    decreases bytes.len(),
{
    let word = byte_symbols(bytes);
    if bytes.len() > 0 {
        assert(word.skip(1) =~= byte_symbols(bytes.skip(1)));
        lemma_byte_symbols(bytes.skip(1));
        assert(word[0] + mapped(bytes.skip(1)) =~= mapped(bytes));
    } else {
        assert(joined(word) =~= mapped(bytes));
    }
}

/// Finds the pair to merge next.
fn find_best_pair(ranks: &StringHashMap<u32>, word: &[String]) -> (r: Option<usize>)
    ensures
        match r {
            Some(i) => best_pair(ranks@, texts(word@), word@.len() - 1) == Some(i as int) && i + 1 < word@.len(),
            None => best_pair(ranks@, texts(word@), word@.len() - 1) is None,
        },
{
    let ghost view = texts(word@);
    let mut best: Option<(u32, usize)> = None;
    let mut n: usize = 0;
    while word.len() - n > 1
        invariant
            n < word@.len() || n == 0,
            view == texts(word@),
            match best {
                Some((rank, i)) => {
                    &&& best_pair(ranks@, view, n as int) == Some(i as int)
                    &&& i < n
                    &&& i + 1 < word@.len()
                    &&& rank == ranks@[pair_key(view[i as int], view[i + 1])]
                },
                None => best_pair(ranks@, view, n as int) is None,
            },
        decreases word@.len() - n,
    {
        let mut key: String = word[n].clone();
        key.append(" ");
        key.append(word[n + 1].as_str());
        assert(key@ =~= pair_key(view[n as int], view[n + 1]));
        if let Some(rank) = ranks.get(key.as_str()) {
            let better: bool = match best {
                Some((lowest, _)) => *rank < lowest,
                None => true,
            };
            if better {
                best = Some((*rank, n));
            }
        }
        n = n + 1;
    }
    match best {
        Some((_, i)) => Some(i),
        None => None,
    }
}

/// Merges every occurrence of one pair, from left to right.
fn merge_pair(word: &[String], a: &str, b: &str) -> (r: Vec<String>)
    ensures
        texts(r@) == merge_all(texts(word@), a@, b@),
{
    let ghost view = texts(word@);
    let mut next: Vec<String> = Vec::new();
    let mut i: usize = 0;
    assert(view.skip(0) =~= view);
    assert(texts(next@) + merge_all(view, a@, b@) =~= merge_all(view, a@, b@));
    while i < word.len()
        invariant
            i <= word@.len(),
            view == texts(word@),
            merge_all(view, a@, b@) == texts(next@) + merge_all(view.skip(i as int), a@, b@),
        decreases word@.len() - i,
    {
        let ghost before = texts(next@);
        let ghost rest = view.skip(i as int);
        assert(rest[0] == view[i as int]);
        let mut joins: bool = false;
        if word.len() - i > 1 {
            assert(rest[1] == view[i + 1]);
            joins = same_text(word[i].as_str(), a) && same_text(word[i + 1].as_str(), b);
        }
        if joins {
            let mut both: String = word[i].clone();
            both.append(b);
            next.push(both);
            assert(texts(next@) =~= before.push(a@ + b@));
            assert(rest.skip(2) =~= view.skip(i + 2));
            i = i + 2;
            assert(texts(next@) + merge_all(view.skip(i as int), a@, b@) =~= before + merge_all(rest, a@, b@));
        } else {
            next.push(word[i].clone());
            assert(texts(next@) =~= before.push(rest[0]));
            assert(rest.skip(1) =~= view.skip(i + 1));
            i = i + 1;
            assert(texts(next@) + merge_all(view.skip(i as int), a@, b@) =~= before + merge_all(rest, a@, b@));
        }
    }
    assert(merge_all(view.skip(i as int), a@, b@) =~= seq![]);
    assert(texts(next@) =~= merge_all(view, a@, b@));
    next
}

/// Merges a word until no pair has a rank any more.
pub fn merge_word(ranks: &StringHashMap<u32>, start: Vec<String>) -> (r: Vec<String>)
    ensures
        texts(r@) == merged(ranks@, texts(start@)),
{
    let mut word: Vec<String> = start;
    loop
        invariant
            merged(ranks@, texts(word@)) == merged(ranks@, texts(start@)),
        decreases word@.len(),
    {
        let ghost view = texts(word@);
        match find_best_pair(ranks, word.as_slice()) {
            Some(i) => {
                let a: String = word[i].clone();
                let b: String = word[i + 1].clone();
                proof {
                    lemma_merge_shortens(view, a@, b@, i as int);
                }
                word = merge_pair(word.as_slice(), a.as_str(), b.as_str());
                assert(texts(word@).len() < view.len());
            },
            None => return word,
        }
    }
}

} // verus!
