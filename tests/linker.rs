use parables_testing::hex::{BadHex, HexDecode};
use parables_testing::linker::{decode_offsets, Address, Decoder, Linker, LinkerError, Object, Push, Section};

fn address(last: u8) -> Address {
    let mut bytes = [0u8; 20];
    bytes[19] = last;
    Address { bytes }
}

fn placeholder(text: &str) -> String {
    let mut s = String::from("__");
    s.push_str(text);
    while s.len() < 40 {
        s.push('_');
    }
    s
}

#[test]
fn test_linker() {
    let linker = Linker::new();
    let a = hex::decode("608060405234801561001057600080fd5b").expect("bad hex decode");
    let b = linker.link("608060405234801561001057600080fd5b").expect("bad link decode");
    linker.link("FF").expect("bad link decode");
    assert_eq!(a, b);
}

#[test]
fn test_hex_decode() {
    let mut decoder = HexDecode::new("00112233445566778899");
    let mut decoded = Vec::new();
    while let Some(b) = decoder.next() {
        decoded.push(b);
    }
    assert_eq!(
        vec![
            Ok(0x00),
            Ok(0x11),
            Ok(0x22),
            Ok(0x33),
            Ok(0x44),
            Ok(0x55),
            Ok(0x66),
            Ok(0x77),
            Ok(0x88),
            Ok(0x99),
        ],
        decoded
    );
}

#[test]
fn hex_decode_stops_at_bad_digit() {
    let mut decoder = HexDecode::new("0fzz10");
    assert_eq!(Some(Ok(0x0f)), decoder.next());
    assert_eq!(Some(Err(BadHex)), decoder.next());
    assert_eq!(None, decoder.next());
}

#[test]
fn hex_decode_drops_lone_digit() {
    let mut decoder = HexDecode::new("a1f");
    assert_eq!(Some(Ok(0xa1)), decoder.next());
    assert_eq!(None, decoder.next());
}

#[test]
fn empty_code_links_to_nothing() {
    let linker = Linker::new();
    assert_eq!(Vec::<u8>::new(), linker.link("").expect("empty code"));
    let offsets = decode_offsets("").expect("empty code");
    assert_eq!(1, offsets.len());
    assert_eq!(Some(&0), offsets.get(&0));
}

#[test]
fn truncated_push_is_refused() {
    let linker = Linker::new();
    // PUSH2 with one byte of payload.
    assert_eq!(Err(LinkerError::TruncatedPush { pos: 1 }), linker.link("6101"));
    assert_eq!(Err(LinkerError::TruncatedPush { pos: 2 }), linker.link("006101"));
    assert!(matches!(decode_offsets("6101"), Err(LinkerError::TruncatedPush { pos: 1 })));
}

#[test]
fn bad_hex_is_refused() {
    let linker = Linker::new();
    assert_eq!(Err(LinkerError::HexError { pos: 2 }), linker.link("00zz"));
    assert_eq!(Err(LinkerError::HexError { pos: 1 }), linker.link("600g"));
}

#[test]
fn plain_code_round_trips() {
    let linker = Linker::new();
    let code = "6080604052600436106049576000357c0100000000000000000000000000000000000000000000000000000000900463ffffffff16";
    assert_eq!(hex::decode(code).unwrap(), linker.link(code).unwrap());
}

#[test]
fn swarm_hash_is_kept() {
    let linker = Linker::new();
    let hash = "00112233445566778899aabbccddeeff00112233445566778899aabbccddeeff";
    let code = format!("6001a165627a7a72305820{}0029", hash);
    let out = linker.link(&code).unwrap();
    assert_eq!(hex::decode(&code).unwrap(), out);
    let mut decoder = Decoder::new(&code[4..]);
    match decoder.next() {
        Some(Ok(Section::SwarmHash(bytes, h))) => {
            assert_eq!(43, bytes.len());
            assert_eq!(hex::decode(hash).unwrap(), h);
        }
        other => panic!("expected swarm hash, got {:?}", other),
    }
    let offsets = decode_offsets(&code).unwrap();
    assert_eq!(2, offsets.len());
    assert_eq!(Some(&1), offsets.get(&2));
}

#[test]
fn offsets_count_push_payloads() {
    // PUSH1 0x80, PUSH1 0x40, MSTORE, PUSH2 0x0102
    let offsets = decode_offsets("60806040526101020a").unwrap();
    assert_eq!(Some(&0), offsets.get(&0));
    assert_eq!(Some(&1), offsets.get(&2));
    assert_eq!(Some(&2), offsets.get(&4));
    assert_eq!(Some(&3), offsets.get(&5));
    assert_eq!(Some(&4), offsets.get(&8));
    assert_eq!(Some(&5), offsets.get(&9));
    let mut pairs: Vec<(usize, usize)> = offsets.into_iter().collect();
    pairs.sort();
    for w in pairs.windows(2) {
        assert!(w[0].0 < w[1].0 && w[0].1 < w[1].1);
    }
}

#[test]
fn placeholder_is_linked_by_item() {
    let mut linker = Linker::new();
    linker.register_object(
        Object { path: "SimpleLib.sol".to_string(), item: "SimpleLib".to_string() },
        address(0x42),
    );
    let code = format!("73{}00", placeholder("SimpleLib.sol:SimpleLib"));
    let out = linker.link(&code).unwrap();
    let mut want = vec![0x73u8];
    want.extend_from_slice(&address(0x42).bytes);
    want.push(0x00);
    assert_eq!(want, out);
    let offsets = decode_offsets(&code).unwrap();
    assert_eq!(Some(&1), offsets.get(&21));
    assert_eq!(Some(&2), offsets.get(&22));
}

#[test]
fn unknown_item_is_refused() {
    let linker = Linker::new();
    let code = format!("73{}", placeholder("Lib.sol:Missing"));
    assert_eq!(
        Err(LinkerError::LinkerItemError { item: "Missing".to_string() }),
        linker.link(&code)
    );
}

#[test]
fn placeholder_without_colon_is_resolved_by_path() {
    let mut linker = Linker::new();
    let long_path = "contracts/very/long/path/to/the/Lib.sol";
    linker.register_object(
        Object { path: long_path.to_string(), item: "Lib".to_string() },
        address(7),
    );
    let slot = &format!("__{}", long_path)[..40];
    assert!(!slot.contains(':'));
    let code = format!("73{}", slot);
    let mut want = vec![0x73u8];
    want.extend_from_slice(&address(7).bytes);
    assert_eq!(want, linker.link(&code).unwrap());
    let other = Linker::new();
    assert!(matches!(other.link(&code), Err(LinkerError::LinkerPathError { .. })));
}

#[test]
fn decoder_sections() {
    let mut decoder = Decoder::new("600156fe");
    assert!(matches!(decoder.next(), Some(Ok(Section::Push(0x60, Push::Bytes(ref b)))) if b == &vec![1u8]));
    assert!(matches!(decoder.next(), Some(Ok(Section::Instruction(0x56)))));
    assert!(matches!(decoder.next(), Some(Ok(Section::BadInstruction(0xfe)))));
    assert!(decoder.next().is_none());
}

#[test]
fn source_bundles_map_and_offsets() {
    let linker = Linker::new();
    let source = linker.source("A.sol", "A", "600100", "1:2:0;3:4").unwrap();
    assert_eq!("A.sol", source.object.path);
    assert_eq!(Some(&1), source.offsets.get(&2));
    assert!(matches!(
        linker.source("A.sol", "A", "600100", "x"),
        Err(LinkerError::SourceMapDecodeError)
    ));
}
