use clux::corpus::{CorpusCompiler, CorpusError, CORPUS_VERSION};
use clux::ubc::UbcToken;

#[test]
fn header_layout() {
    let mut want = b"CLUX_CORPUS\0".to_vec();
    want.extend_from_slice(&[1, 0, 0, 0]);
    want.extend_from_slice(&0x0102030405060708u64.to_le_bytes());
    assert_eq!(CorpusCompiler::header_bytes(0x0102030405060708), want);
    assert_eq!(CORPUS_VERSION, 1);
}

#[test]
fn header_reads_back() {
    let mut bytes = CorpusCompiler::header_bytes(12345);
    bytes.extend_from_slice(&[9, 9, 9]);
    assert_eq!(CorpusCompiler::parse_header(&bytes), Ok((1, 12345)));
}

#[test]
fn header_errors() {
    assert_eq!(CorpusCompiler::parse_header(&[]), Err(CorpusError::Truncated));
    assert_eq!(CorpusCompiler::parse_header(b"CLUX_CORP"), Err(CorpusError::Truncated));
    assert_eq!(CorpusCompiler::parse_header(b"NOT_A_CORPUS"), Err(CorpusError::InvalidSignature));
    assert_eq!(CorpusCompiler::parse_header(b"NOT_A_CORPUS_AT_ALL_REALLY"), Err(CorpusError::InvalidSignature));
    assert_eq!(CorpusCompiler::parse_header(b"CLUX_CORPUS\0\x01\0\0\0"), Err(CorpusError::Truncated));
}

#[test]
fn header_version_is_read_not_checked() {
    let mut bytes = b"CLUX_CORPUS\0".to_vec();
    bytes.extend_from_slice(&7u32.to_le_bytes());
    bytes.extend_from_slice(&3u64.to_le_bytes());
    assert_eq!(CorpusCompiler::parse_header(&bytes), Ok((7, 3)));
}

#[test]
fn tokens_are_little_endian_pairs() {
    assert_eq!(CorpusCompiler::token_bytes(&[UbcToken(0x1234), UbcToken(0x00FF)]), vec![0x34, 0x12, 0xFF, 0x00]);
    assert_eq!(CorpusCompiler::token_bytes(&[]), Vec::<u8>::new());
}

#[test]
fn compiling_a_line() {
    let (bytes, total) = CorpusCompiler::compile_line("Aஅ\n", 3);
    assert_eq!(bytes, vec![65, 0, 0x05, 0x01, 10, 0]);
    assert_eq!(total, 6);
}
