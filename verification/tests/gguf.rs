use furnace::error::{FurnaceError, ReadError};
use furnace::gguf::{parse, GgmlType, GgufFile, GgufValue, TensorInfo};

struct Builder(Vec<u8>);

impl Builder {
    fn u32(&mut self, v: u32) -> &mut Self {
        self.0.extend_from_slice(&v.to_le_bytes());
        self
    }
    fn u64(&mut self, v: u64) -> &mut Self {
        self.0.extend_from_slice(&v.to_le_bytes());
        self
    }
    fn f32(&mut self, v: f32) -> &mut Self {
        self.0.extend_from_slice(&v.to_le_bytes());
        self
    }
    fn string(&mut self, s: &str) -> &mut Self {
        self.u64(s.len() as u64);
        self.0.extend_from_slice(s.as_bytes());
        self
    }
}

/// A file of version 3 with 1 tensor and 3 metadata keys.
fn synthetic_file() -> Vec<u8> {
    let mut b = Builder(Vec::new());
    b.0.extend_from_slice(b"GGUF");
    b.u32(3); // version
    b.u64(1); // tensor count
    b.u64(3); // metadata entry count

    // general.architecture = "qwen2" (string, tag 8)
    b.string("general.architecture").u32(8).string("qwen2");
    // qwen2.rope.freq_base = 1000000.0 (f32, tag 6)
    b.string("qwen2.rope.freq_base").u32(6).f32(1_000_000.0);
    // tokenizer.ggml.tokens = ["a", "b"] (array of string: tag 9, elem 8)
    b.string("tokenizer.ggml.tokens").u32(9).u32(8).u64(2).string("a").string("b");

    // tensor info: "blk.0.attn_q.weight", dims [896, 896], Q8_0, offset 0
    b.string("blk.0.attn_q.weight");
    b.u32(2).u64(896).u64(896);
    b.u32(8); // Q8_0
    b.u64(0);

    // pad to 32 and add dummy data
    while b.0.len() % 32 != 0 {
        b.0.push(0);
    }
    b.0.extend_from_slice(&[0xAB; 64]);
    b.0
}

#[test]
fn parses_synthetic_file() {
    let bytes = synthetic_file();
    let p = parse(&bytes).ok().unwrap();

    assert_eq!(p.version, 3);
    assert_eq!(p.metadata.len(), 3);
    assert_eq!(*p.metadata.get("general.architecture").unwrap(), GgufValue::String("qwen2".into()));
    assert_eq!(*p.metadata.get("qwen2.rope.freq_base").unwrap(), GgufValue::F32(1_000_000.0f32.to_bits()));
    assert_eq!(
        *p.metadata.get("tokenizer.ggml.tokens").unwrap(),
        GgufValue::Array(vec![GgufValue::String("a".into()), GgufValue::String("b".into())])
    );

    assert_eq!(p.tensors.len(), 1);
    let t = &p.tensors[0];
    assert_eq!(t.name, "blk.0.attn_q.weight");
    assert_eq!(t.dims, vec![896, 896]);
    assert_eq!(t.dtype, GgmlType::Q8_0);
    assert_eq!(t.offset, 0);

    // the header ends before the padding, the data start on the 32 boundary
    assert_eq!(p.data_start % 32, 0);
    assert_eq!(bytes[p.data_start], 0xAB);
}

#[test]
fn rejects_bad_magic() {
    let err = parse(b"GGML\x03\x00\x00\x00").err().unwrap();
    assert!(err.message().contains("bad magic"));
}

#[test]
fn rejects_truncated_file() {
    let mut bytes = synthetic_file();
    bytes.truncate(40); // mid-metadata
    assert!(parse(&bytes).is_err());
}

fn file_with(metadata: impl Fn(&mut Builder) -> u64, tensors: impl Fn(&mut Builder) -> u64) -> Vec<u8> {
    let mut m = Builder(Vec::new());
    let n_meta = metadata(&mut m);
    let mut t = Builder(Vec::new());
    let n_tensors = tensors(&mut t);
    let mut b = Builder(Vec::new());
    b.0.extend_from_slice(b"GGUF");
    b.u32(2).u64(n_tensors).u64(n_meta);
    b.0.extend_from_slice(&m.0);
    b.0.extend_from_slice(&t.0);
    b.0
}

fn none(_: &mut Builder) -> u64 {
    0
}

#[test]
fn every_scalar_type_is_read() {
    let mut bytes = file_with(
        |b| {
            b.string("a").u32(0).0.push(200);
            b.string("b").u32(1).0.push(0xFF);
            b.string("c").u32(2).0.extend_from_slice(&[0x34, 0x12]);
            b.string("d").u32(3).0.extend_from_slice(&[0xFE, 0xFF]);
            b.string("e").u32(4).u32(0xDEADBEEF);
            b.string("f").u32(5).u32(0xFFFFFFFD);
            b.string("g").u32(7).0.push(2);
            b.string("h").u32(10).u64(0x0102030405060708);
            b.string("i").u32(11).u64(u64::MAX);
            b.string("j").u32(12).u64(1.5f64.to_bits());
            10
        },
        none,
    );
    bytes.resize(bytes.len() + 32, 0);
    let p = parse(&bytes).ok().unwrap();
    let get = |k: &str| p.metadata.get(k).unwrap();
    assert_eq!(*get("a"), GgufValue::U8(200));
    assert_eq!(*get("b"), GgufValue::I8(-1));
    assert_eq!(*get("c"), GgufValue::U16(0x1234));
    assert_eq!(*get("d"), GgufValue::I16(-2));
    assert_eq!(*get("e"), GgufValue::U32(0xDEADBEEF));
    assert_eq!(*get("f"), GgufValue::I32(-3));
    assert_eq!(*get("g"), GgufValue::Bool(true));
    assert_eq!(*get("h"), GgufValue::U64(0x0102030405060708));
    assert_eq!(*get("i"), GgufValue::I64(-1));
    assert_eq!(*get("j"), GgufValue::F64(1.5f64.to_bits()));
    assert_eq!(get("b").as_i64(), Some(-1));
    assert_eq!(get("b").as_u32(), None);
    assert_eq!(get("h").as_u32(), None);
    assert_eq!(get("h").as_i64(), Some(0x0102030405060708));
    assert_eq!(get("g").as_i64(), None);
    assert_eq!(get("e").as_str(), None);
    assert_eq!(get("e").as_array(), None);
}

#[test]
fn later_entry_replaces_earlier() {
    let mut bytes = file_with(
        |b| {
            b.string("k").u32(4).u32(1);
            b.string("k").u32(4).u32(2);
            2
        },
        none,
    );
    bytes.resize(bytes.len() + 32, 0);
    let p = parse(&bytes).ok().unwrap();
    assert_eq!(p.metadata.len(), 1);
    assert_eq!(*p.metadata.get("k").unwrap(), GgufValue::U32(2));
}

#[test]
fn header_faults_are_told_apart() {
    assert_eq!(parse(b"GG").err(), Some(FurnaceError::Read(ReadError::UnexpectedEof { need: 4, offset: 0 })));
    assert_eq!(parse(b"GGUF\x04\0\0\0").err(), Some(FurnaceError::UnsupportedVersion(4)));
    let tag = file_with(
        |b| {
            b.string("k").u32(13);
            1
        },
        none,
    );
    let fault = parse(&tag).err().unwrap();
    assert_eq!(fault, FurnaceError::InKey { key: "k".to_string(), cause: ReadError::UnknownValueTag(13) });
    assert_eq!(fault.message(), "metadata key 'k': unknown metadata value type tag 13");
    let value = file_with(
        |b| {
            b.string("k").u32(8).u64(1).0.push(0xFF);
            1
        },
        none,
    );
    assert_eq!(
        parse(&value).err().unwrap(),
        FurnaceError::InKey { key: "k".to_string(), cause: ReadError::InvalidUtf8 }
    );
    let utf8 = file_with(
        |b| {
            b.u64(1).0.push(0xFF);
            1
        },
        none,
    );
    assert_eq!(parse(&utf8).err(), Some(FurnaceError::Read(ReadError::InvalidUtf8)));
    let dims = file_with(none, |b| {
        b.string("t").u32(5);
        1
    });
    let fault = parse(&dims).err().unwrap();
    assert_eq!(fault, FurnaceError::TooManyDims { tensor: "t".to_string(), n_dims: 5 });
    assert_eq!(fault.message(), "tensor 't' has 5 dims, max is 4");
    let dtype = file_with(none, |b| {
        b.string("t").u32(0).u32(99).u64(0);
        1
    });
    let fault = parse(&dtype).err().unwrap();
    assert_eq!(fault, FurnaceError::InTensor { tensor: "t".to_string(), cause: ReadError::UnknownTensorType(99) });
    assert_eq!(fault.message(), "tensor 't': unsupported ggml tensor type 99");
    let huge = file_with(|_| u64::MAX, none);
    assert!(matches!(parse(&huge).err(), Some(FurnaceError::Read(ReadError::UnexpectedEof { .. }))));
}

#[test]
fn alignment_is_followed() {
    let with_alignment = |a: u32| {
        move |b: &mut Builder| {
            b.string("general.alignment").u32(4).u32(a);
            1
        }
    };
    // the header ends at 24 + 8 + 17 + 4 + 4 = 57
    let mut bytes = file_with(with_alignment(8), none);
    assert_eq!(bytes.len(), 57);
    let fault = parse(&bytes).err().unwrap();
    assert_eq!(fault, FurnaceError::Truncated { data_start: 64, file_len: 57 });
    assert_eq!(fault.message(), "file truncated: tensor data would start at 64 but file is 57 bytes");
    bytes.resize(64, 0);
    assert_eq!(parse(&bytes).ok().unwrap().data_start, 64);
    let mut one = file_with(with_alignment(1), none);
    assert_eq!(parse(&one).ok().unwrap().data_start, 57);
    one.resize(58, 0);
    assert_eq!(parse(&one).ok().unwrap().data_start, 57);
    assert_eq!(parse(&file_with(with_alignment(0), none)).err(), Some(FurnaceError::BadAlignment(0)));
    assert_eq!(parse(&file_with(with_alignment(24), none)).err(), Some(FurnaceError::BadAlignment(24)));
}

#[test]
fn tensors_are_found_in_the_file() {
    let mut bytes = file_with(none, |b| {
        b.string("t").u32(1).u64(2).u32(0).u64(4);
        b.string("t").u32(1).u64(1).u32(0).u64(0);
        b.string("far").u32(1).u64(1).u32(0).u64(u64::MAX);
        b.string("odd").u32(1).u64(31).u32(8).u64(0);
        b.string("int").u32(1).u64(1).u32(26).u64(0);
        b.string("big").u32(3).u64(1 << 32).u64(1 << 32).u64(1 << 32).u32(0).u64(0);
        b.string("wide").u32(1).u64(1 << 62).u32(0).u64(0);
        7
    });
    while bytes.len() % 32 != 0 {
        bytes.push(0);
    }
    let start = bytes.len();
    bytes.extend_from_slice(&[0, 1, 2, 3, 4, 5, 6, 7, 8, 9, 10, 11]);
    let file = GgufFile::open(&bytes).ok().unwrap();
    assert_eq!(file.data_start, start);
    let (info, data) = file.tensor("t").ok().unwrap();
    assert_eq!(info.dims, vec![2]);
    assert_eq!(data, &[4u8, 5, 6, 7, 8, 9, 10, 11][..]);
    assert_eq!(file.tensor("none").err(), Some(FurnaceError::NoSuchTensor { tensor: "none".to_string() }));
    let far = start as u128 + u64::MAX as u128;
    let fault = file.tensor("far").err().unwrap();
    assert_eq!(fault, FurnaceError::PastEndOfFile { tensor: "far".to_string(), at: far, size: 4, file_len: start + 12 });
    assert_eq!(
        fault.message(),
        format!("tensor 'far' data [{}, {}+4) runs past end of file ({} bytes)", far, far, start + 12)
    );
    let fault = file.tensor("odd").err().unwrap();
    assert_eq!(fault, FurnaceError::PartialTensor { tensor: "odd".to_string(), elements: 31, block: 32 });
    assert_eq!(fault.message(), "tensor 'odd' has 31 elements, not a multiple of block size 32");
    assert_eq!(file.tensor("int").err(), Some(FurnaceError::UnsupportedType(GgmlType::I32)));
    assert_eq!(file.tensor("big").err(), Some(FurnaceError::SizeOverflow));
    assert_eq!(file.tensor("wide").err(), Some(FurnaceError::SizeOverflow));
}

#[test]
fn metadata_is_typed() {
    let bytes = synthetic_file();
    let file = GgufFile::open(&bytes).ok().unwrap();
    assert_eq!(file.meta_str("general.architecture"), Ok("qwen2"));
    assert_eq!(file.meta_str("qwen2.rope.freq_base"), Err(FurnaceError::NotAString { key: "qwen2.rope.freq_base".to_string() }));
    assert_eq!(file.meta_str("none"), Err(FurnaceError::NotAString { key: "none".to_string() }));
    assert_eq!(file.meta_array("tokenizer.ggml.tokens").unwrap().len(), 2);
    assert_eq!(file.meta_array("general.architecture"), Err(FurnaceError::NotAnArray { key: "general.architecture".to_string() }));
    assert_eq!(file.meta_f32("qwen2.rope.freq_base"), Ok(1_000_000.0f32.to_bits()));
    assert_eq!(file.meta_f32("general.architecture"), Err(FurnaceError::NotAFloat { key: "general.architecture".to_string() }));
    assert_eq!(file.meta_u32("general.architecture"), Err(FurnaceError::NotAU32 { key: "general.architecture".to_string() }));
}

#[test]
fn sizes_follow_the_block_layout() {
    let info = |dtype: GgmlType, dims: Vec<u64>| TensorInfo { name: "t".to_string(), dims, dtype, offset: 0 };
    assert_eq!(info(GgmlType::Q8_0, vec![896, 896]).n_elements(), 802816);
    assert_eq!(info(GgmlType::F32, vec![]).n_elements(), 1);
    assert_eq!(info(GgmlType::Q8_0, vec![64, 3]).byte_size(), Ok(6 * 34));
    assert_eq!(info(GgmlType::F16, vec![5]).byte_size(), Ok(10));
    assert_eq!(info(GgmlType::Q5_0, vec![32]).byte_size(), Ok(22));
    assert_eq!(info(GgmlType::Q4K, vec![256]).byte_size(), Ok(144));
    assert_eq!(info(GgmlType::Q6K, vec![512]).byte_size(), Ok(420));
    assert_eq!(info(GgmlType::Q4_0, vec![32]).byte_size(), Err(FurnaceError::UnsupportedType(GgmlType::Q4_0)));
}

#[test]
fn cut_file_is_read_exactly_if_its_header_is_whole() {
    let bytes = synthetic_file();
    let whole = parse(&bytes).ok().unwrap();
    for limit in 0..bytes.len() {
        match parse(&bytes[..limit]) {
            Ok(p) => {
                assert!(limit >= whole.data_start);
                assert_eq!(p.version, whole.version);
                assert_eq!(p.data_start, whole.data_start);
                assert_eq!(p.tensors.len(), 1);
                assert_eq!(p.tensors[0].name, whole.tensors[0].name);
                assert_eq!(p.tensors[0].dims, whole.tensors[0].dims);
                assert_eq!(p.metadata.len(), whole.metadata.len());
            }
            Err(_) => assert!(limit < whole.data_start),
        }
    }
}
