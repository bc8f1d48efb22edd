use arplay::framing::{encode_packet, PacketReader};

fn round_trip(payload: Vec<u8>) {
    let encoded = encode_packet(&payload);
    assert_eq!(encoded.len(), payload.len() + 4);
    let mut reader = PacketReader::new();
    reader.feed(&encoded);
    let got = reader.next_packet().expect("a fully fed packet must decode");
    assert_eq!(got, payload);
    assert!(reader.next_packet().is_none());
}

#[test]
fn round_trip_empty_payload() {
    round_trip(Vec::new());
}

#[test]
fn round_trip_one_byte() {
    round_trip(vec![0xAB]);
}

#[test]
fn round_trip_65536_bytes() {
    let payload: Vec<u8> = (0..65536u32).map(|i| (i % 251) as u8).collect();
    round_trip(payload);
}

#[test]
fn round_trip_large_payload() {
    let payload: Vec<u8> = (0..(1u32 << 20)).map(|i| (i.wrapping_mul(31) & 0xFF) as u8).collect();
    round_trip(payload);
}

#[test]
fn header_is_little_endian() {
    let payload = vec![0u8; 0x0102];
    let encoded = encode_packet(&payload);
    assert_eq!(&encoded[0..4], &[0x02, 0x01, 0x00, 0x00]);
}

#[test]
fn length_split_across_reads() {
    let payload = vec![1u8, 2, 3, 4, 5];
    let encoded = encode_packet(&payload);
    let mut reader = PacketReader::new();
    reader.feed(&encoded[0..2]);
    assert!(reader.next_packet().is_none());
    reader.feed(&encoded[2..4]);
    assert!(reader.next_packet().is_none());
    reader.feed(&encoded[4..7]);
    assert!(reader.next_packet().is_none());
    reader.feed(&encoded[7..]);
    assert_eq!(reader.next_packet().unwrap(), payload);
    assert!(reader.next_packet().is_none());
}

#[test]
fn no_strict_prefix_completes() {
    let payload: Vec<u8> = (0..100u8).collect();
    let encoded = encode_packet(&payload);
    for k in 0..encoded.len() {
        let mut reader = PacketReader::new();
        reader.feed(&encoded[..k]);
        assert!(reader.next_packet().is_none(), "prefix of {} bytes must not complete", k);
    }
}

#[test]
fn two_packets_in_one_chunk() {
    let first = vec![9u8, 8, 7];
    let second = vec![6u8];
    let mut wire = encode_packet(&first);
    wire.extend_from_slice(&encode_packet(&second));
    let mut reader = PacketReader::new();
    reader.feed(&wire);
    assert_eq!(reader.next_packet().unwrap(), first);
    assert_eq!(reader.next_packet().unwrap(), second);
    assert!(reader.next_packet().is_none());
}

#[test]
fn zero_length_packet_between_data() {
    let mut wire = encode_packet(&Vec::new());
    wire.extend_from_slice(&encode_packet(&vec![42u8]));
    let mut reader = PacketReader::new();
    reader.feed(&wire);
    assert_eq!(reader.next_packet().unwrap(), Vec::<u8>::new());
    assert_eq!(reader.next_packet().unwrap(), vec![42u8]);
}

#[test]
fn byte_at_a_time_matches_whole_feed() {
    let payload = vec![10u8, 20, 30, 40, 50, 60];
    let encoded = encode_packet(&payload);
    let mut reader = PacketReader::new();
    for b in &encoded {
        assert!(reader.next_packet().is_none());
        reader.feed(std::slice::from_ref(b));
    }
    assert_eq!(reader.next_packet().unwrap(), payload);
}
