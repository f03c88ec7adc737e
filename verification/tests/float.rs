use furnace::float::{greater, is_equal, is_less, nan, negate, rank_of};
use furnace::gguf::{Cursor, GgmlType};
use furnace::tokenizer::find_chunks;

fn samples() -> Vec<f32> {
    vec![
        0.0,
        -0.0,
        1.0,
        -1.0,
        1.5,
        1e-45,
        -1e-45,
        f32::MIN_POSITIVE,
        f32::MAX,
        f32::MIN,
        f32::INFINITY,
        f32::NEG_INFINITY,
        f32::NAN,
        -f32::NAN,
    ]
}

#[test]
fn comparisons_on_bits_are_those_of_numbers() {
    for a in samples() {
        assert_eq!(nan(a.to_bits()), a.is_nan());
        assert_eq!(negate(a.to_bits()), (-a).to_bits());
        for b in samples() {
            assert_eq!(is_less(a.to_bits(), b.to_bits()), a < b, "{} < {}", a, b);
            assert_eq!(is_equal(a.to_bits(), b.to_bits()), a == b, "{} == {}", a, b);
            let max = f32::from_bits(greater(a.to_bits(), b.to_bits()));
            if a.is_nan() && b.is_nan() {
                assert!(max.is_nan());
            } else {
                assert_eq!(max, a.max(b), "max({}, {})", a, b);
            }
        }
    }
    assert_eq!(rank_of((-0.0f32).to_bits()), 0);
    assert!(rank_of(1.5f32.to_bits()) > rank_of(1.0f32.to_bits()));
    assert!(rank_of((-1.5f32).to_bits()) < rank_of((-1.0f32).to_bits()));
}

#[test]
fn cursor_reads_little_endian_and_stops_at_the_end() {
    let data = [1u8, 2, 3, 4, 5, 6, 7, 8, 9, 10, 11, 12, 13, 14, 15, 1, 0, 0, 0, 0, 0, 0, 0, b'x'];
    let mut c = Cursor::new(&data);
    assert_eq!(c.read_u8().ok(), Some(1));
    assert_eq!(c.read_u16().ok(), Some(0x0302));
    assert_eq!(c.read_u32().ok(), Some(0x0706_0504));
    assert_eq!(c.read_u64().ok(), Some(0x0F0E_0D0C_0B0A_0908));
    assert_eq!(c.read_string().ok(), Some("x".to_string()));
    assert!(c.take(0).is_ok());
    assert!(c.read_u8().is_err());
    assert_eq!(c.pos, data.len());
}

#[test]
fn block_layouts() {
    assert_eq!(GgmlType::F32.block_layout(), Some((1, 4)));
    assert_eq!(GgmlType::F16.block_layout(), Some((1, 2)));
    assert_eq!(GgmlType::Q8_0.block_layout(), Some((32, 34)));
    assert_eq!(GgmlType::Q5_0.block_layout(), Some((32, 22)));
    assert_eq!(GgmlType::Q4K.block_layout(), Some((256, 144)));
    assert_eq!(GgmlType::Q6K.block_layout(), Some((256, 210)));
    assert_eq!(GgmlType::Q4_0.block_layout(), None);
}

#[test]
fn gaps_between_matches_are_chunks() {
    assert_eq!(find_chunks(&[(0, 2), (2, 5)], false, 5), vec![(0, 2), (2, 5)]);
    assert_eq!(find_chunks(&[(1, 2), (4, 5)], false, 7), vec![(0, 1), (1, 2), (2, 4), (4, 5), (5, 7)]);
    assert_eq!(find_chunks(&[(1, 2)], true, 7), vec![(0, 1), (1, 2)]);
    assert_eq!(find_chunks(&[], false, 3), vec![(0, 3)]);
    assert_eq!(find_chunks(&[], false, 0), vec![]);
}
