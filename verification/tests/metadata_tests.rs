use lune_modules::metadata::{check_standalone, Metadata, MetadataError};

fn sample() -> Metadata {
    Metadata {
        source: b"print('hi')\n".to_vec(),
        entry_path: "/src/main.luau".to_string(),
        files: vec![
            ("/src/main.luau".to_string(), b"print('hi')\n".to_vec()),
            ("/pkgs/P/init.luau".to_string(), b"return {}".to_vec()),
        ],
        aliases: vec![("@pkg/P".to_string(), "/pkgs/P/init.luau".to_string())],
    }
}

#[test]
fn round_trip_behind_a_host_executable() {
    let m = sample();
    let mut bin = b"\x7fELF host executable bytes".to_vec();
    bin.extend_from_slice(&m.to_bytes());
    assert_eq!(Metadata::from_bytes(&bin), Ok(m));
}

#[test]
fn round_trip_of_empty_maps() {
    let m = Metadata {
        source: Vec::new(),
        entry_path: String::new(),
        files: Vec::new(),
        aliases: Vec::new(),
    };
    let bytes = m.to_bytes();
    assert_eq!(Metadata::from_bytes(&bytes), Ok(m));
}

#[test]
fn plain_executable_is_not_standalone() {
    let bin = b"\x7fELF just an ordinary executable, long enough".to_vec();
    assert_eq!(Metadata::from_bytes(&bin), Err(MetadataError::NotStandalone));
    assert!(!check_standalone(&bin));
}

#[test]
fn magic_alone_is_too_short() {
    assert_eq!(Metadata::from_bytes(b"cr3sc3nt"), Err(MetadataError::NotStandalone));
}

#[test]
fn truncated_payload_is_corrupt() {
    let mut bytes = Vec::new();
    bytes.extend_from_slice(&[1, 2, 3]);
    bytes.extend_from_slice(&1000u64.to_be_bytes());
    bytes.extend_from_slice(b"cr3sc3nt");
    assert_eq!(Metadata::from_bytes(&bytes), Err(MetadataError::CorruptMetadata));
}

#[test]
fn frame_is_bit_exact() {
    let m = Metadata {
        source: vec![0xAA],
        entry_path: "/e".to_string(),
        files: Vec::new(),
        aliases: Vec::new(),
    };
    let mut expected = vec![1u8];
    expected.extend_from_slice(&1u64.to_be_bytes());
    expected.push(0xAA);
    expected.push(2);
    expected.extend_from_slice(&2u64.to_be_bytes());
    expected.extend_from_slice(b"/e");
    let payload_len = expected.len() as u64;
    expected.extend_from_slice(&payload_len.to_be_bytes());
    expected.extend_from_slice(b"cr3sc3nt");
    assert_eq!(m.to_bytes(), expected);
}
