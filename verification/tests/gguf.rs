use velo_core::gguf::{GgmlType, GgufError, GgufFile, GgufValue, TensorInfo};

const GGUF_MAGIC: u32 = 0x4655_4747;

fn write_u32(buf: &mut Vec<u8>, v: u32) {
    buf.extend_from_slice(&v.to_le_bytes());
}

fn write_u64(buf: &mut Vec<u8>, v: u64) {
    buf.extend_from_slice(&v.to_le_bytes());
}

fn write_str(buf: &mut Vec<u8>, s: &str) {
    write_u64(buf, s.len() as u64);
    buf.extend_from_slice(s.as_bytes());
}

fn minimal_gguf(version: u32) -> Vec<u8> {
    let mut b = Vec::new();
    write_u32(&mut b, GGUF_MAGIC);
    write_u32(&mut b, version);
    write_u64(&mut b, 0); // tensor_count
    write_u64(&mut b, 0); // kv_count
    b
}

#[test]
fn the_magic_spells_the_name_of_the_format() {
    assert_eq!(&GGUF_MAGIC.to_le_bytes(), b"GGUF");
}

#[test]
fn parses_empty_v3_file() {
    let data = minimal_gguf(3);
    let file = GgufFile::read(&data).unwrap();
    assert_eq!(file.version, 3);
    assert!(file.metadata.is_empty());
    assert!(file.tensors.is_empty());
}

#[test]
fn rejects_bad_magic() {
    let mut data = minimal_gguf(3);
    data[0] = 0xFF;
    assert!(matches!(GgufFile::read(&data), Err(GgufError::BadMagic(_))));
}

#[test]
fn rejects_unsupported_version() {
    let data = minimal_gguf(99);
    assert!(matches!(
        GgufFile::read(&data),
        Err(GgufError::UnsupportedVersion(99))
    ));
}

#[test]
fn parses_string_metadata() {
    let mut b = Vec::new();
    write_u32(&mut b, GGUF_MAGIC);
    write_u32(&mut b, 3);
    write_u64(&mut b, 0); // tensors
    write_u64(&mut b, 1); // 1 kv
    write_str(&mut b, "general.architecture");
    write_u32(&mut b, 8); // STRING type
    write_str(&mut b, "llama");

    let file = GgufFile::read(&b).unwrap();
    assert_eq!(
        file.metadata.get("general.architecture").unwrap().as_str(),
        Some("llama")
    );
}

#[test]
fn parses_u32_metadata() {
    let mut b = Vec::new();
    write_u32(&mut b, GGUF_MAGIC);
    write_u32(&mut b, 3);
    write_u64(&mut b, 0);
    write_u64(&mut b, 1);
    write_str(&mut b, "llama.embedding_length");
    write_u32(&mut b, 4); // U32
    write_u32(&mut b, 4096);

    let file = GgufFile::read(&b).unwrap();
    assert_eq!(
        file.metadata.get("llama.embedding_length").unwrap().as_u32(),
        Some(4096)
    );
}

#[test]
fn parses_array_metadata() {
    let mut b = Vec::new();
    write_u32(&mut b, GGUF_MAGIC);
    write_u32(&mut b, 3);
    write_u64(&mut b, 0);
    write_u64(&mut b, 1);
    write_str(&mut b, "tokenizer.ggml.tokens");
    write_u32(&mut b, 9); // ARRAY
    write_u32(&mut b, 8); // elem type STRING
    write_u64(&mut b, 2);
    write_str(&mut b, "hello");
    write_str(&mut b, "world");

    let file = GgufFile::read(&b).unwrap();
    let arr = file.metadata.get("tokenizer.ggml.tokens").unwrap().as_array().unwrap();
    assert_eq!(arr.len(), 2);
    assert_eq!(arr[0].as_str(), Some("hello"));
    assert_eq!(arr[1].as_str(), Some("world"));
}

#[test]
fn ggml_type_nbytes_q4_0() {
    // 32 elements → 1 block → 18 bytes
    assert_eq!(GgmlType::Q4_0.nbytes(32), 18);
    // 64 elements → 2 blocks → 36 bytes
    assert_eq!(GgmlType::Q4_0.nbytes(64), 36);
}

#[test]
fn ggml_type_nbytes_f32() {
    assert_eq!(GgmlType::F32.nbytes(100), 400);
}

#[test]
fn a_text_that_is_not_utf8_is_malformed() {
    let mut b = Vec::new();
    write_u32(&mut b, GGUF_MAGIC);
    write_u32(&mut b, 3);
    write_u64(&mut b, 0);
    write_u64(&mut b, 1);
    write_str(&mut b, "k");
    write_u32(&mut b, 8);
    write_u64(&mut b, 2);
    b.extend_from_slice(&[0xC3, 0x28]);
    let e = GgufFile::read(&b).err().unwrap();
    assert!(matches!(e, GgufError::Malformed(_)));
    assert!(e.to_string().contains("invalid utf-8"));
}

#[test]
fn a_short_file_cannot_be_read() {
    let data = minimal_gguf(3);
    assert!(matches!(GgufFile::read(&data[..10]), Err(GgufError::Io(_))));
}

#[test]
fn an_unknown_value_type_is_reported() {
    let mut b = Vec::new();
    write_u32(&mut b, GGUF_MAGIC);
    write_u32(&mut b, 3);
    write_u64(&mut b, 0);
    write_u64(&mut b, 1);
    write_str(&mut b, "k");
    write_u32(&mut b, 77);
    assert!(GgufFile::read(&b).is_err());
}

#[test]
fn tensors_are_listed_and_read() {
    let mut b = Vec::new();
    write_u32(&mut b, GGUF_MAGIC);
    write_u32(&mut b, 3);
    write_u64(&mut b, 1);
    write_u64(&mut b, 0);
    write_str(&mut b, "w");
    write_u32(&mut b, 1); // dimensions
    write_u64(&mut b, 2);
    write_u32(&mut b, 0); // F32
    write_u64(&mut b, 0); // offset
    while b.len() % 32 != 0 {
        b.push(0);
    }
    let start = b.len() as u64;
    b.extend_from_slice(&1.0f32.to_le_bytes());
    b.extend_from_slice(&2.0f32.to_le_bytes());

    let file = GgufFile::read(&b).unwrap();
    assert_eq!(file.data_offset, start);
    let info: &TensorInfo = file.tensors.get("w").unwrap();
    assert_eq!(info.nbytes, 8);
    assert_eq!(info.n_elements(), 2);
    assert_eq!(info.dtype, GgmlType::F32);
    assert_eq!(file.read_tensor(&b, "w").unwrap(), b[start as usize..].to_vec());
    assert_eq!(file.read_all_tensors(&b).unwrap().len(), 8);
    assert!(file.read_tensor(&b, "x").is_err());
}

#[test]
fn values_answer_only_to_their_type() {
    assert_eq!(GgufValue::U32(7).as_u32(), Some(7));
    assert_eq!(GgufValue::U32(7).as_str(), None);
    assert!(GgufValue::String("a".into()).as_array().is_none());
    assert_eq!(GgmlType::from_u32(0), Some(GgmlType::F32));
    assert_eq!(GgmlType::from_u32(9999), None);
}
