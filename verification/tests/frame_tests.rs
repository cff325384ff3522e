use chat_relay::frame::decode;
use chat_relay::frame::encodable;
use chat_relay::frame::encode;
use chat_relay::frame::FrameDecoder;
use chat_relay::frame::HEADER_LEN;
use chat_relay::frame::MAX_PAYLOAD_LEN;

#[test]
fn encode_puts_big_endian_length_first() {
    assert_eq!(encode(b"hello"), vec![0, 0, 0, 5, b'h', b'e', b'l', b'l', b'o']);
}

#[test]
fn encode_empty_payload_is_header_only() {
    assert_eq!(encode(b""), vec![0, 0, 0, 0]);
}

#[test]
fn encode_length_uses_every_header_byte() {
    let payload = vec![7u8; 0x01_02_03];
    let wire = encode(&payload);
    assert_eq!(&wire[..4], &[0, 1, 2, 3]);
    assert_eq!(wire.len(), 4 + 0x01_02_03);
    assert_eq!(&wire[4..], &payload[..]);

    let big = vec![1u8; 0x01_00_00_00];
    let wire = encode(&big);
    assert_eq!(&wire[..4], &[1, 0, 0, 0]);
    assert_eq!(wire.len(), 4 + 0x01_00_00_00);
}

#[test]
fn encode_length_258_is_0_0_1_2() {
    let payload = vec![0u8; 258];
    assert_eq!(&encode(&payload)[..4], &[0, 0, 1, 2]);
}

#[test]
fn header_and_limit_constants() {
    assert_eq!(HEADER_LEN, 4);
    assert_eq!(MAX_PAYLOAD_LEN, 4_294_967_295);
    assert!(encodable(b""));
    assert!(encodable(&[0u8; 1000]));
}

#[test]
fn round_trip_of_assorted_payloads() {
    let cases: Vec<Vec<u8>> = vec![
        vec![],
        vec![0],
        vec![0, 0, 0, 0],
        b"alice\0hello".to_vec(),
        (0..=255u8).collect(),
        vec![0xff; 70_000],
    ];
    for payload in cases {
        let wire = encode(&payload);
        let (decoded, consumed) = decode(&wire).expect("a whole frame");
        assert_eq!(decoded, payload);
        assert_eq!(consumed, wire.len());
    }
}

#[test]
fn decode_needs_the_whole_header() {
    assert!(decode(&[]).is_none());
    assert!(decode(&[0]).is_none());
    assert!(decode(&[0, 0, 0]).is_none());
}

#[test]
fn decode_needs_the_whole_payload() {
    assert!(decode(&[0, 0, 0, 3, 1, 2]).is_none());
    assert_eq!(decode(&[0, 0, 0, 3, 1, 2, 3]), Some((vec![1, 2, 3], 7)));
}

#[test]
fn decode_reads_length_most_significant_byte_first() {
    let mut wire = vec![0, 0, 1, 0];
    wire.extend_from_slice(&[9u8; 256]);
    assert_eq!(decode(&wire), Some((vec![9u8; 256], 260)));
    // Read the other way round this header would announce 65536 bytes.
    let mut short = vec![0, 1, 0, 0];
    short.extend_from_slice(&[9u8; 256]);
    assert!(decode(&short).is_none());
}

#[test]
fn decode_leaves_what_follows_the_frame() {
    let mut wire = encode(b"ab");
    wire.extend_from_slice(&encode(b"cde"));
    let (first, consumed) = decode(&wire).unwrap();
    assert_eq!(first, b"ab");
    assert_eq!(consumed, 6);
    let (second, consumed2) = decode(&wire[consumed..]).unwrap();
    assert_eq!(second, b"cde");
    assert_eq!(consumed2, 7);
}

#[test]
fn decode_zero_length_frame() {
    assert_eq!(decode(&[0, 0, 0, 0, 5]), Some((vec![], 4)));
}

#[test]
fn decoder_starts_empty() {
    let mut d = FrameDecoder::new();
    assert_eq!(d.pending_len(), 0);
    assert!(d.next_frame().is_none());
}

#[test]
fn decoder_byte_by_byte_gives_the_same_payload() {
    let payload = b"alice\0hello there".to_vec();
    let wire = encode(&payload);
    let mut d = FrameDecoder::new();
    for (i, b) in wire.iter().enumerate() {
        assert!(d.next_frame().is_none(), "no frame before byte {}", i);
        d.feed(&[*b]);
    }
    assert_eq!(d.next_frame(), Some(payload));
    assert_eq!(d.pending_len(), 0);
    assert!(d.next_frame().is_none());
}

#[test]
fn decoder_every_two_way_split_gives_the_same_payload() {
    let payload: Vec<u8> = vec![0, 1, 2, 0, 255, 0];
    let wire = encode(&payload);
    for cut in 0..=wire.len() {
        let mut d = FrameDecoder::new();
        d.feed(&wire[..cut]);
        if cut < wire.len() {
            assert!(d.next_frame().is_none());
            assert_eq!(d.pending_len(), cut);
        }
        d.feed(&wire[cut..]);
        assert_eq!(d.next_frame(), Some(payload.clone()));
        assert_eq!(d.pending_len(), 0);
    }
}

#[test]
fn decoder_uneven_chunks() {
    let payload: Vec<u8> = (0..200u8).collect();
    let wire = encode(&payload);
    let mut d = FrameDecoder::new();
    let mut at = 0;
    let mut step = 1;
    while at < wire.len() {
        let end = usize::min(at + step, wire.len());
        d.feed(&wire[at..end]);
        at = end;
        step = step * 2 + 1;
        if at < wire.len() {
            assert!(d.next_frame().is_none());
        }
    }
    assert_eq!(d.next_frame(), Some(payload));
}

#[test]
fn decoder_coalesced_frames_come_out_in_order() {
    let mut wire = encode(b"one");
    wire.extend_from_slice(&encode(b""));
    wire.extend_from_slice(&encode(b"three"));
    wire.extend_from_slice(&[0, 0]);
    let mut d = FrameDecoder::new();
    d.feed(&wire);
    assert_eq!(d.next_frame(), Some(b"one".to_vec()));
    assert_eq!(d.next_frame(), Some(vec![]));
    assert_eq!(d.next_frame(), Some(b"three".to_vec()));
    assert_eq!(d.next_frame(), None);
    assert_eq!(d.pending_len(), 2);
    d.feed(&[0, 1, 42]);
    assert_eq!(d.next_frame(), Some(vec![42]));
    assert_eq!(d.pending_len(), 0);
}

#[test]
fn decoder_feed_of_nothing_changes_nothing() {
    let mut d = FrameDecoder::new();
    d.feed(&[0, 0]);
    d.feed(&[]);
    assert_eq!(d.pending_len(), 2);
    assert!(d.next_frame().is_none());
    assert_eq!(d.pending_len(), 2);
}
