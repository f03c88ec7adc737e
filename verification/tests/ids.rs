use furnace::error::FurnaceError;
use furnace::ids::{ids_text, parse_ids};

fn read(s: &str) -> Vec<u32> {
    parse_ids(s).ok().unwrap()
}

#[test]
fn ids_are_read() {
    assert_eq!(read("9707,11,1879"), vec![9707, 11, 1879]);
    assert_eq!(read(" 1 ,\t2\u{3000},\n3"), vec![1, 2, 3]);
    assert_eq!(read("+7,007"), vec![7, 7]);
    assert_eq!(read("4294967295"), vec![u32::MAX]);
    // blank pieces write nothing
    assert_eq!(read(""), Vec::<u32>::new());
    assert_eq!(read(",, ,5,"), vec![5]);
}

#[test]
fn bad_ids_are_refused() {
    for (s, piece) in [
        ("x", "x"),
        ("1, 2x ,3,y", " 2x "),
        ("-1", "-1"),
        ("+", "+"),
        ("1 2", "1 2"),
        ("4294967296", "4294967296"),
        ("99999999999999999999999", "99999999999999999999999"),
        ("1,+-2", "+-2"),
    ] {
        assert_eq!(parse_ids(s), Err(FurnaceError::BadTokenId { piece: piece.to_string() }), "{}", s);
    }
}

#[test]
fn what_is_read_is_what_std_reads() {
    for s in ["12", "+12", "0", "00", "", "+", "-3", "4294967295", "4294967296", "1a", "\u{0661}"] {
        let want: Option<u32> = s.trim().parse::<u32>().ok();
        let got: Option<u32> = parse_ids(s).ok().and_then(|v| v.first().copied());
        assert_eq!(got, want, "{}", s);
    }
    for u in 0..=0x3100u32 {
        if let Some(c) = char::from_u32(u) {
            let s = format!("{}5{}", c, c);
            if c.is_whitespace() {
                assert_eq!(read(&s), vec![5], "{:x}", u);
            }
        }
    }
}

#[test]
fn ids_are_written() {
    assert_eq!(ids_text(&[]), "");
    assert_eq!(ids_text(&[7]), "7");
    assert_eq!(ids_text(&[9707, 0, 4294967295]), "9707 0 4294967295");
}
