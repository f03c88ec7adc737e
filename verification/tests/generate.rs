use furnace::generate::{argmax, chat_template, Utf8Stream};

fn bits_of(x: &[f32]) -> Vec<u32> {
    x.iter().map(|v| v.to_bits()).collect()
}

#[test]
fn utf8_stream_holds_partial_characters() {
    // Devanagari NA is 3 bytes: E0 A4 A8. Split across pushes, nothing
    // prints until the final byte arrives.
    let mut s = Utf8Stream::new();
    assert_eq!(s.push(&[0xE0, 0xA4]), "");
    assert_eq!(s.push(&[0xA8]), "\u{928}");
    assert_eq!(s.flush(), "");
}

#[test]
fn utf8_stream_mixed_ascii_and_partial() {
    let mut s = Utf8Stream::new();
    // "ab" + first byte of a 2-byte char: ascii prints, partial waits
    assert_eq!(s.push(&[b'a', b'b', 0xC3]), "ab");
    assert_eq!(s.push(&[0xA9, b'!']), "\u{e9}!"); // e-acute
}

#[test]
fn argmax_first_max_wins_ties() {
    assert_eq!(argmax(&bits_of(&[1.0, 5.0, 5.0, 2.0])), 1);
    assert_eq!(argmax(&bits_of(&[-3.0, -1.0, -2.0])), 1);
}

#[test]
fn utf8_stream_replaces_what_is_no_character() {
    let mut s = Utf8Stream::new();
    assert_eq!(s.push(&[b'a', 0xFF, b'b']), "a\u{FFFD}b");
    assert_eq!(s.push(b"c"), "c");
    // an unfinished character is given out at the end, replaced
    assert_eq!(s.push(&[0xF0, 0x9F]), "");
    assert_eq!(s.flush(), "\u{FFFD}");
    assert_eq!(s.flush(), "");
}

#[test]
fn utf8_stream_gives_the_text_however_it_is_cut() {
    let text = "h\u{e9}llo \u{928}\u{92e} \u{1F355}!";
    let bytes = text.as_bytes();
    for cut in 0..bytes.len() {
        let mut s = Utf8Stream::new();
        let mut out = s.push(&bytes[..cut]);
        out.push_str(&s.push(&bytes[cut..]));
        out.push_str(&s.flush());
        assert_eq!(out, text);
    }
}

#[test]
fn argmax_of_edge_cases() {
    assert_eq!(argmax(&[]), 0);
    assert_eq!(argmax(&bits_of(&[-0.0, 0.0])), 0);
    assert_eq!(argmax(&bits_of(&[f32::NEG_INFINITY, -1e30])), 1);
    // nothing is greater than what is no number
    assert_eq!(argmax(&bits_of(&[f32::NAN, 1.0])), 0);
    assert_eq!(argmax(&bits_of(&[0.5, f32::NAN, 1.0])), 2);
}

#[test]
fn chat_template_wraps_the_question() {
    assert_eq!(
        chat_template("Hi"),
        "<|im_start|>system\nYou are Qwen, created by Alibaba Cloud. You are a helpful assistant.<|im_end|>\n\
         <|im_start|>user\nHi<|im_end|>\n<|im_start|>assistant\n"
    );
}
