//! Compressed files: headers, checksums and blocks.

use infotheory::backends::rwkvzip::container::{
    frame, open_frame, read_rans_blocks, verify_frame, write_rans_blocks, ContainerError, Header,
    MAGIC, VERSION,
};
use infotheory::backends::rwkvzip::rwkv7::profiling::{
    LayerProfiler, LayerTiming, NullProfiler, ProfilerSink,
};
use infotheory::coders::{
    chain_total, crc32, crc32_chain, hex_digits, join_parts, same_bytes, CoderType,
};

#[test]
fn test_header_roundtrip() {
    let header = Header::new(CoderType::AC, 12345, 0xDEADBEEF);

    let mut buf = Vec::new();
    header.write(&mut buf);

    assert_eq!(buf.len(), Header::SIZE);

    let read_header = Header::read(&buf).unwrap();

    assert_eq!(read_header.magic, MAGIC);
    assert_eq!(read_header.version, VERSION);
    assert_eq!(read_header.coder, 0);
    assert_eq!(read_header.original_len, 12345);
    assert_eq!(read_header.crc32, 0xDEADBEEF);
}

#[test]
fn test_header_rans() {
    let header = Header::new(CoderType::RANS, 67890, 0xCAFEBABE);
    assert_eq!(header.coder, 1);
    assert_eq!(header.coder_type(), CoderType::RANS);
}

#[test]
fn test_coder_type_display() {
    assert_eq!(CoderType::AC.name(), "AC");
    assert_eq!(CoderType::RANS.name(), "rANS");
}

#[test]
fn test_crc32() {
    let data = b"Hello, World!";
    let c = crc32(data);
    assert_ne!(c, 0);
    assert_eq!(c, crc32(data));
}

#[test]
fn test_crc32_different_data() {
    let c1 = crc32(b"Hello");
    let c2 = crc32(b"World");
    assert_ne!(c1, c2);
}

#[test]
fn test_crc32_known_vector() {
    assert_eq!(crc32(b"123456789"), 0xCBF4_3926);
}

#[test]
fn test_header_rejects_invalid_magic() {
    let mut buf = Vec::new();
    let header = Header::new(CoderType::AC, 1, 2);
    header.write(&mut buf);
    buf[0] ^= 0xFF;

    let err = Header::read(&buf).unwrap_err();
    let msg = err.message();
    assert!(msg.contains("Invalid magic number"));
}

#[test]
fn checksum_of_a_chain_is_that_of_its_bytes() {
    assert_eq!(crc32_chain(&[b"1234", b"", b"56789"]), 0xCBF4_3926);
    assert_eq!(join_parts(&[b"ab", b"c"]), b"abc".to_vec());
    assert_eq!(chain_total(&[b"ab", b"c"]), 3);
    assert!(same_bytes(b"ab", b"ab"));
    assert!(!same_bytes(b"ab", b"ac"));
    assert_eq!(hex_digits(0xAB, 4), vec!['0', '0', 'A', 'B']);
}

#[test]
fn frames_hold_their_payload() {
    let file = frame(CoderType::RANS, &[b"he", b"llo"], b"xyz");
    let (header, payload) = open_frame(&file).expect("frame");
    assert_eq!(header.coder_type(), CoderType::RANS);
    assert_eq!(header.original_len, 5);
    assert_eq!(payload, b"xyz".to_vec());
    assert_eq!(verify_frame(&header, b"hello"), Ok(()));
    assert_eq!(
        verify_frame(&header, b"jello"),
        Err(ContainerError::CrcMismatch(crc32(b"hello"), crc32(b"jello")))
    );
}

#[test]
fn broken_files_are_refused() {
    let mut buf = Vec::new();
    Header::new(CoderType::AC, 1, 2).write(&mut buf);
    assert_eq!(Header::read(&buf[..10]).unwrap_err(), ContainerError::UnexpectedEnd);
    assert_eq!(Header::read(&[]).unwrap_err(), ContainerError::UnexpectedEnd);
    buf[4] = VERSION + 1;
    assert_eq!(
        Header::read(&buf).unwrap_err(),
        ContainerError::UnsupportedVersion(VERSION + 1)
    );
    assert_eq!(read_rans_blocks(&[1, 0]).unwrap_err(), ContainerError::RansTooShort);
    assert_eq!(
        read_rans_blocks(&[1, 0, 0, 0, 9]).unwrap_err(),
        ContainerError::TruncatedBlockHeader
    );
    assert_eq!(
        read_rans_blocks(&[1, 0, 0, 0, 2, 0, 0, 0, 7]).unwrap_err(),
        ContainerError::TruncatedBlockData
    );
}

#[test]
fn blocks_come_back() {
    let blocks = vec![vec![1u8, 2, 3], Vec::new(), vec![4u8]];
    let payload = write_rans_blocks(&blocks);
    assert_eq!(read_rans_blocks(&payload).expect("blocks"), blocks);
}

#[test]
fn profiler_adds_up() {
    let mut p = LayerProfiler::new(2);
    p.begin_token();
    p.record_attention(0, 5);
    p.record_attention(0, 6);
    p.record_ffn(1, u128::MAX);
    p.record_ffn(9, 1);
    assert!(p.enabled());
    assert_eq!(p.tokens(), 1);
    assert_eq!(
        p.timings(),
        &[
            LayerTiming { attention_ns: 11, ffn_ns: 0 },
            LayerTiming { attention_ns: 0, ffn_ns: u64::MAX },
        ]
    );
    p.reset();
    assert_eq!(p.tokens(), 0);
    assert_eq!(p.timings()[0].attention_ns, 0);
    let mut quiet = NullProfiler;
    quiet.begin_token();
    assert!(!quiet.enabled());
}
