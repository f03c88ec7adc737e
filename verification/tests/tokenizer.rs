use furnace::alphabet::byte_unicode_map;
use furnace::error::FurnaceError;
use furnace::generate::chat_template;
use furnace::tokenizer::{Segment, Tokenizer};

/// All 256 byte tokens (number == byte), three merges that build "hell", and one special token.
fn tiny() -> Tokenizer {
    let (byte_to_char, _) = byte_unicode_map();
    let mut tokens: Vec<String> = (0..256).map(|b| byte_to_char[b].to_string()).collect();
    let mut types = vec![1i64; 256];
    for t in ["he", "ll", "hell"] {
        tokens.push(t.to_string());
        types.push(1);
    }
    tokens.push("<|test|>".to_string());
    types.push(3);
    let merges: Vec<String> = ["h e", "l l", "he ll"].iter().map(|s| s.to_string()).collect();
    Tokenizer::new(tokens, &types, &merges).unwrap()
}

fn with_specials(specials: &[&str]) -> Tokenizer {
    let (byte_to_char, _) = byte_unicode_map();
    let mut tokens: Vec<String> = (0..256).map(|b| byte_to_char[b].to_string()).collect();
    let mut types = vec![1i64; 256];
    for s in specials {
        tokens.push(s.to_string());
        types.push(4);
    }
    Tokenizer::new(tokens, &types, &[]).unwrap()
}

fn round_trip(t: &Tokenizer, s: &str) {
    let ids = t.encode(s).unwrap();
    assert_eq!(t.decode(&ids).unwrap(), s, "round trip failed for {:?}", s);
}

#[test]
fn merges_apply_by_rank() {
    let t = tiny();
    // h+e -> he (rank 0), l+l -> ll (rank 1), he+ll -> hell (rank 2),
    // 'o' stays a single byte token (its number is the byte 111)
    assert_eq!(t.encode("hello").unwrap(), vec![258, 111]);
}

#[test]
fn ascii_round_trip() {
    round_trip(&tiny(), "Hello, world! 123");
}

#[test]
fn hindi_round_trip() {
    round_trip(&tiny(), "\u{928}\u{92e}\u{938}\u{94d}\u{924}\u{947} \u{926}\u{941}\u{928}\u{93f}\u{92f}\u{93e}");
}

#[test]
fn emoji_round_trip() {
    round_trip(&tiny(), "pizza \u{1F355} and \u{1F363}");
}

#[test]
fn whitespace_round_trip() {
    round_trip(&tiny(), "  leading, trailing  ");
    round_trip(&tiny(), "a   b\t\tc\n\nd");
}

#[test]
fn special_token_is_not_split() {
    let t = tiny();
    let ids = t.encode("a<|test|>b").unwrap();
    assert_eq!(ids, vec![b'a' as u32, 259, b'b' as u32]);
    assert_eq!(t.decode(&ids).unwrap(), "a<|test|>b");
}

#[test]
fn empty_string() {
    let t = tiny();
    assert_eq!(t.encode("").unwrap(), Vec::<u32>::new());
    assert_eq!(t.decode(&[]).unwrap(), "");
}

#[test]
fn byte_map_is_a_bijection() {
    let (byte_to_char, char_to_byte) = byte_unicode_map();
    assert_eq!(char_to_byte.len(), 256);
    for b in 0..=255u8 {
        assert_eq!(char_to_byte[&(byte_to_char[b as usize] as u32)], b);
    }
    // the two famous ones
    assert_eq!(byte_to_char[0x20], '\u{120}'); // space -> G-dot
    assert_eq!(byte_to_char[0x0A], '\u{10A}'); // newline -> C-dot
}

#[test]
fn longest_special_wins_at_one_place() {
    let t = with_specials(&["<a", "<a>", "b<"]);
    assert_eq!(t.encode("<a>").unwrap(), vec![257]);
    // "b<" starts further left than "<a>"
    assert_eq!(t.encode("b<a>").unwrap(), vec![258, b'a' as u32, b'>' as u32]);
    assert_eq!(t.encode("x<ay").unwrap(), vec![b'x' as u32, 256, b'y' as u32]);
}

#[test]
fn first_of_equal_specials_wins() {
    let t = with_specials(&["<a>", "<a>"]);
    assert_eq!(t.encode("<a>").unwrap(), vec![256]);
}

#[test]
fn segments_alternate() {
    let t = tiny();
    let segments = t.split_specials("\u{e9}<|test|><|test|>z").unwrap();
    assert_eq!(segments.len(), 4);
    assert!(matches!(segments[0], Segment::Text("\u{e9}")));
    assert!(matches!(segments[1], Segment::Special(259)));
    assert!(matches!(segments[2], Segment::Special(259)));
    assert!(matches!(segments[3], Segment::Text("z")));
}

#[test]
fn empty_special_token_splits_nothing() {
    let t = with_specials(&["", "<a>"]);
    assert_eq!(t.encode("x"), Err(FurnaceError::EmptySpecial));
    // where a longer one stands the empty one is not reached
    assert_eq!(t.encode("<a><a>").unwrap(), vec![257, 257]);
    assert_eq!(t.encode("").unwrap(), Vec::<u32>::new());
}

#[test]
fn matches_and_gaps_are_chunks() {
    let t = tiny();
    // the match "he" and the gaps around it: nothing merges across their borders
    assert_eq!(t.encode_spans("hehell", &[(1, 3)], false).unwrap(), vec![b'h' as u32, b'e' as u32, b'h' as u32, b'e' as u32, 257]);
    assert_eq!(t.encode_spans("hehell", &[], false).unwrap(), vec![256, 258]);
    assert_eq!(t.encode_spans("hehell", &[(0, 2)], true), Err(FurnaceError::SplitFailed));
}

#[test]
fn splitter_cuts_before_words() {
    // " hell" is one chunk with its space, so the space is no part of a merge
    let t = tiny();
    assert_eq!(t.encode("hell hell").unwrap(), vec![258, 32, 258]);
    // "he" and "ll" meet across a chunk border: digits stand alone
    assert_eq!(t.encode("he1ll").unwrap(), vec![256, b'1' as u32, 257]);
    // "'ll" is a chunk of its own, whose letters merge
    assert_eq!(t.encode("l'll").unwrap(), vec![b'l' as u32, b'\'' as u32, 257]);
}

#[test]
fn equal_merges_go_left_to_right() {
    let (byte_to_char, _) = byte_unicode_map();
    let mut tokens: Vec<String> = (0..256).map(|b| byte_to_char[b].to_string()).collect();
    tokens.push("aa".to_string());
    let types = vec![1i64; 257];
    let t = Tokenizer::new(tokens, &types, &["a a".to_string()]).unwrap();
    assert_eq!(t.encode("aaa").unwrap(), vec![256, b'a' as u32]);
    assert_eq!(t.encode("aaaa").unwrap(), vec![256, 256]);
}

#[test]
fn unknown_symbols_are_refused() {
    let t = Tokenizer::new(vec!["a".to_string()], &[1], &[]).unwrap();
    assert_eq!(t.encode("a").unwrap(), vec![0]);
    assert_eq!(t.encode("ab"), Err(FurnaceError::UnknownSymbol { symbol: "b".to_string() }));
}

#[test]
fn counts_of_tokens_and_types_have_to_agree() {
    let r = Tokenizer::new(vec!["a".to_string()], &[1, 1], &[]);
    assert!(matches!(r, Err(FurnaceError::TokenTypeCount { tokens: 1, types: 2 })));
}

#[test]
fn later_of_equal_tokens_counts() {
    let t = Tokenizer::new(vec!["a".to_string(), "a".to_string()], &[1, 1], &[]).unwrap();
    assert_eq!(t.encode("a").unwrap(), vec![1]);
}

#[test]
fn tokens_have_their_bytes() {
    let t = tiny();
    assert_eq!(t.token_bytes(0x20).unwrap(), vec![0x20]);
    assert_eq!(t.token_bytes(0xE9).unwrap(), vec![0xE9]);
    assert_eq!(t.token_bytes(258).unwrap(), b"hell".to_vec());
    assert_eq!(t.token_bytes(259).unwrap(), b"<|test|>".to_vec());
    assert_eq!(t.token_bytes(260), Err(FurnaceError::NoSuchToken(260)));
    assert_eq!(t.decode(&[104, 300]), Err(FurnaceError::NoSuchToken(300)));
    // a character outside the alphabet of bytes stands for its encoding
    let other = Tokenizer::new(vec!["\u{4e2d}x".to_string()], &[1], &[]).unwrap();
    assert_eq!(other.token_bytes(0).unwrap(), vec![0xE4, 0xB8, 0xAD, b'x']);
}

#[test]
fn broken_utf8_is_decoded_with_replacements() {
    let t = tiny();
    assert_eq!(t.decode(&[b'a' as u32, 0xE9, b'b' as u32]).unwrap(), "a\u{FFFD}b");
}

#[test]
fn special_text_beyond_ascii_reads_differently_as_ordinary_symbol() {
    // the last "\u{e9}" in the list is special, so the byte E9 is encoded to it
    let (byte_to_char, _) = byte_unicode_map();
    let mut tokens: Vec<String> = (0..256).map(|b| byte_to_char[b].to_string()).collect();
    let mut types = vec![1i64; 256];
    tokens.push("\u{e9}".to_string());
    types.push(3);
    let t = Tokenizer::new(tokens, &types, &[]).unwrap();
    // U+9A45 is E9 A9 85
    let ids = t.encode("\u{9a45}").unwrap();
    assert_eq!(ids, vec![256, 0xA9, 0x85]);
    assert_ne!(t.decode(&ids).unwrap(), "\u{9a45}");
}

/// A vocabulary that holds the words of the conversation under their numbers in the real one.
fn conversation() -> Tokenizer {
    let (byte_to_char, _) = byte_unicode_map();
    let mapped = |s: &str| -> String { s.bytes().map(|b| byte_to_char[b as usize]).collect() };
    // words behind a blank first: their merges come before those of bare words
    let words: Vec<(usize, &str)> = vec![
        (525, " are"),
        (1207, " Q"),
        (3465, " created"),
        (553, " by"),
        (54364, " Alibaba"),
        (14817, " Cloud"),
        (1446, " You"),
        (264, " a"),
        (10950, " helpful"),
        (17847, " assistant"),
        (8948, "system"),
        (2610, "You"),
        (16948, "wen"),
        (872, "user"),
        (13048, "Hi"),
        (77091, "assistant"),
    ];
    let size = 151_646;
    let mut tokens: Vec<String> = vec![String::new(); size];
    let mut merges: Vec<String> = Vec::new();
    for (id, word) in &words {
        let chars: Vec<char> = mapped(word).chars().collect();
        tokens[*id] = chars.iter().collect();
        for n in 1..chars.len() {
            let merge = format!("{} {}", chars[..n].iter().collect::<String>(), chars[n]);
            if !merges.contains(&merge) {
                merges.push(merge);
            }
        }
    }
    tokens[198] = mapped("\n");
    tokens[11] = ",".into();
    tokens[13] = ".".into();
    tokens[151_644] = "<|im_start|>".into();
    tokens[151_645] = "<|im_end|>".into();
    for (i, t) in tokens.iter_mut().enumerate() {
        if t.is_empty() {
            *t = format!("unused{}", i);
        }
    }
    let types: Vec<i64> = (0..size).map(|i| if i >= 151_644 { 3 } else { 1 }).collect();
    Tokenizer::new(tokens, &types, &merges).unwrap()
}

#[test]
fn chat_template_matches_hf_apply_chat_template() {
    // expected ids come from HF AutoTokenizer.apply_chat_template for
    // [{role: user, content: "Hi"}] with add_generation_prompt=True
    let tok = conversation();
    let ids = tok.encode(&chat_template("Hi")).unwrap();
    assert_eq!(
        ids,
        vec![
            151644, 8948, 198, 2610, 525, 1207, 16948, 11, 3465, 553,
            54364, 14817, 13, 1446, 525, 264, 10950, 17847, 13, 151645,
            198, 151644, 872, 198, 13048, 151645, 198, 151644, 77091, 198
        ]
    );
    assert_eq!(tok.decode(&ids).unwrap(), chat_template("Hi"));
}
