use bno080::interface::MAX_SEGMENT_READ;
use bno080::interface::PACKET_HEADER_LENGTH;
use bno080::interface::i2c::ALTERNATE_ADDRESS;
use bno080::interface::i2c::DEFAULT_ADDRESS;
use bno080::interface::i2c::I2cInterface;
use bno080::interface::mock_i2c_port::FakeDelay;
use bno080::interface::mock_i2c_port::FakeI2cPort;
use bno080::interface::parse_packet_header;

// Actual advertising packet received from sensor:
pub const ADVERTISING_PACKET_FULL: [u8; 276] = [
    0x14, 0x81, 0x00, 0x01, 0x00, 0x01, 0x04, 0x00, 0x00, 0x00, 0x00, 0x80, 0x06, 0x31, 0x2e,
    0x30, 0x2e, 0x30, 0x00, 0x02, 0x02, 0x00, 0x01, 0x03, 0x02, 0xff, 0x7f, 0x04, 0x02, 0x00,
    0x01, 0x05, 0x02, 0xff, 0x7f, 0x08, 0x05, 0x53, 0x48, 0x54, 0x50, 0x00, 0x06, 0x01, 0x00,
    0x09, 0x08, 0x63, 0x6f, 0x6e, 0x74, 0x72, 0x6f, 0x6c, 0x00, 0x01, 0x04, 0x01, 0x00, 0x00,
    0x00, 0x08, 0x0b, 0x65, 0x78, 0x65, 0x63, 0x75, 0x74, 0x61, 0x62, 0x6c, 0x65, 0x00, 0x06,
    0x01, 0x01, 0x09, 0x07, 0x64, 0x65, 0x76, 0x69, 0x63, 0x65, 0x00, 0x01, 0x04, 0x02, 0x00,
    0x00, 0x00, 0x08, 0x0a, 0x73, 0x65, 0x6e, 0x73, 0x6f, 0x72, 0x68, 0x75, 0x62, 0x00, 0x06,
    0x01, 0x02, 0x09, 0x08, 0x63, 0x6f, 0x6e, 0x74, 0x72, 0x6f, 0x6c, 0x00, 0x06, 0x01, 0x03,
    0x09, 0x0c, 0x69, 0x6e, 0x70, 0x75, 0x74, 0x4e, 0x6f, 0x72, 0x6d, 0x61, 0x6c, 0x00, 0x07,
    0x01, 0x04, 0x09, 0x0a, 0x69, 0x6e, 0x70, 0x75, 0x74, 0x57, 0x61, 0x6b, 0x65, 0x00, 0x06,
    0x01, 0x05, 0x09, 0x0c, 0x69, 0x6e, 0x70, 0x75, 0x74, 0x47, 0x79, 0x72, 0x6f, 0x52, 0x76,
    0x00, 0x80, 0x06, 0x31, 0x2e, 0x31, 0x2e, 0x30, 0x00, 0x81, 0x64, 0xf8, 0x10, 0xf5, 0x04,
    0xf3, 0x10, 0xf1, 0x10, 0xfb, 0x05, 0xfa, 0x05, 0xfc, 0x11, 0xef, 0x02, 0x01, 0x0a, 0x02,
    0x0a, 0x03, 0x0a, 0x04, 0x0a, 0x05, 0x0e, 0x06, 0x0a, 0x07, 0x10, 0x08, 0x0c, 0x09, 0x0e,
    0x0a, 0x08, 0x0b, 0x08, 0x0c, 0x06, 0x0d, 0x06, 0x0e, 0x06, 0x0f, 0x10, 0x10, 0x05, 0x11,
    0x0c, 0x12, 0x06, 0x13, 0x06, 0x14, 0x10, 0x15, 0x10, 0x16, 0x10, 0x17, 0x00, 0x18, 0x08,
    0x19, 0x06, 0x1a, 0x00, 0x1b, 0x00, 0x1c, 0x06, 0x1d, 0x00, 0x1e, 0x10, 0x1f, 0x00, 0x20,
    0x00, 0x21, 0x00, 0x22, 0x00, 0x23, 0x00, 0x24, 0x00, 0x25, 0x00, 0x26, 0x00, 0x27, 0x00,
    0x28, 0x0e, 0x29, 0x0c, 0x2a, 0x0e,
];

#[test]
fn parse_header_values() {
    // 276 = 0x114; the continuation flag in byte 1 is masked out
    assert_eq!(parse_packet_header(&vec![0x14, 0x81, 0x00, 0x01]), 276);
    assert_eq!(parse_packet_header(&vec![0x14, 0x01, 0x00, 0x01]), 276);
    assert_eq!(parse_packet_header(&vec![0x00, 0x00, 0x00, 0x00]), 0);
    assert_eq!(parse_packet_header(&vec![0x05, 0x00, 0x00, 0x00]), 5);
    assert_eq!(parse_packet_header(&vec![0xff, 0xff, 0xff, 0xff]), 0x7fff);
    // shorter than a header decodes to zero
    assert_eq!(parse_packet_header(&vec![0x01, 0x02]), 0);
}

#[test]
fn test_single_segment_receive_packet() {
    let mut port = FakeI2cPort::new();
    // a 10-byte packet whose header claims 10 bytes
    let packet: Vec<u8> = vec![10, 0, 2, 0, 1, 2, 3, 4, 5, 6];
    port.add_available_packet(&packet);
    let mut shub = I2cInterface::new(port, DEFAULT_ADDRESS);
    let mut buf: Vec<u8> = vec![0u8; 300];
    let n = shub.read_packet(&mut buf).unwrap();
    assert_eq!(n, 10);
    // the transmitted header is kept as the first bytes of the output
    assert_eq!(&buf[..10], &packet[..]);
    let port = shub.free();
    assert_eq!(port.read_calls, 2); // header peek, then one transaction
}

#[test]
fn test_multi_segment_receive_packet() {
    let mut port = FakeI2cPort::new();
    let packet = ADVERTISING_PACKET_FULL.to_vec();
    port.add_available_packet(&packet);
    // two segments: 240 bytes, then 4 + (276 - 4 - 236) = 40 bytes
    assert_eq!(port.available_packets.len(), 3);
    assert_eq!(port.available_packets[0].len(), PACKET_HEADER_LENGTH);
    assert_eq!(port.available_packets[1].len(), MAX_SEGMENT_READ);
    assert_eq!(port.available_packets[2].len(), 40);
    assert_eq!(port.available_packets[2][0], 40); // continuation length
    assert_eq!(port.available_packets[2][1], 0x80); // continuation flag
    let mut shub = I2cInterface::new(port, DEFAULT_ADDRESS);
    let mut buf = vec![0u8; 512];
    let n = shub.read_packet(&mut buf).unwrap();
    assert_eq!(n, 276, "wrong length");
    assert_eq!(buf[0], 0x14);
    assert_eq!(&buf[..276], &packet[..]);
    let port = shub.free();
    assert_eq!(port.read_calls, 3);
}

#[test]
fn boundary_segment_packet() {
    // a packet exactly one segment long takes the multi-segment path
    // but needs no continuation segment
    let mut port = FakeI2cPort::new();
    let mut packet = vec![0u8; 240];
    packet[0] = 240;
    packet[2] = 2;
    packet[3] = 1;
    for i in 4..240 {
        packet[i] = (i % 251) as u8;
    }
    port.add_available_packet(&packet);
    assert_eq!(port.available_packets.len(), 2);
    let mut shub = I2cInterface::new(port, DEFAULT_ADDRESS);
    let mut buf = vec![0u8; 512];
    let n = shub.read_packet(&mut buf).unwrap();
    assert_eq!(n, 240);
    assert_eq!(&buf[..240], &packet[..]);
}

#[test]
fn three_segment_packet_round_trip() {
    // 4 + 236 + 236 + 28 = 504 bytes: two full segments and a short one
    let mut port = FakeI2cPort::new();
    let mut packet = vec![0u8; 504];
    packet[0] = 0xF8;
    packet[1] = 0x01; // 0x01F8 = 504
    packet[2] = 3;
    packet[3] = 7;
    for i in 4..504 {
        packet[i] = (i % 251) as u8;
    }
    port.add_available_packet(&packet);
    assert_eq!(port.available_packets.len(), 4);
    assert_eq!(port.available_packets[3].len(), 4 + 28);
    let mut shub = I2cInterface::new(port, DEFAULT_ADDRESS);
    let mut buf = vec![0u8; 1024];
    let n = shub.read_packet(&mut buf).unwrap();
    assert_eq!(n, 504);
    assert_eq!(&buf[..504], &packet[..]);
    let port = shub.free();
    assert_eq!(port.read_calls, 4);
}

#[test]
fn smallest_continuation_segment() {
    // 241 bytes: one body byte spills into a second, five-byte segment
    let mut port = FakeI2cPort::new();
    let mut packet = vec![0u8; 241];
    packet[0] = 241;
    packet[2] = 1;
    packet[3] = 9;
    for i in 4..241 {
        packet[i] = (i % 251) as u8;
    }
    port.add_available_packet(&packet);
    assert_eq!(port.available_packets.len(), 3);
    assert_eq!(port.available_packets[2].len(), 5);
    assert_eq!(port.available_packets[2][0], 5); // one body byte plus header
    assert_eq!(port.available_packets[2][1], 0x80);
    let mut shub = I2cInterface::new(port, DEFAULT_ADDRESS);
    let mut buf = vec![0u8; 512];
    let n = shub.read_packet(&mut buf).unwrap();
    assert_eq!(n, 241);
    assert_eq!(&buf[..241], &packet[..]);
}

#[test]
fn largest_packet_round_trip() {
    // the largest length the 15-bit field can carry
    let mut port = FakeI2cPort::new();
    let mut packet = vec![0u8; 0x7FFF];
    packet[0] = 0xFF;
    packet[1] = 0x7F;
    packet[2] = 2;
    packet[3] = 0;
    for i in 4..0x7FFF {
        packet[i] = (i % 251) as u8;
    }
    port.add_available_packet(&packet);
    let mut shub = I2cInterface::new(port, DEFAULT_ADDRESS);
    let mut buf = vec![0u8; 0x8000];
    let n = shub.read_packet(&mut buf).unwrap();
    assert_eq!(n, 0x7FFF);
    assert_eq!(&buf[..0x7FFF], &packet[..]);
}

#[test]
fn read_empty_header_returns_zero() {
    // an idle device answers the header read with zeros
    let mut shub = I2cInterface::new(FakeI2cPort::new(), DEFAULT_ADDRESS);
    let mut buf = vec![0xAAu8; 64];
    let n = shub.read_packet(&mut buf).unwrap();
    assert_eq!(n, 0);
    // no body read was issued and nothing was written to the buffer
    assert!(buf.iter().all(|b| *b == 0xAA));
    let port = shub.free();
    assert_eq!(port.read_calls, 1);
}

#[test]
fn timeout_polls_once_per_millisecond() {
    let mut shub = I2cInterface::new(FakeI2cPort::new(), DEFAULT_ADDRESS);
    let mut delay = FakeDelay::new();
    let mut buf = vec![0u8; 64];
    let n = shub.read_with_timeout(&mut buf, &mut delay, 10).unwrap();
    assert_eq!(n, 0);
    assert_eq!(delay.delay_calls, 10);
    let port = shub.free();
    assert_eq!(port.read_calls, 10); // exactly one poll per millisecond
}

#[test]
fn timeout_with_empty_window_returns_at_once() {
    let mut shub = I2cInterface::new(FakeI2cPort::new(), DEFAULT_ADDRESS);
    let mut delay = FakeDelay::new();
    let mut buf = vec![0u8; 64];
    let n = shub.read_with_timeout(&mut buf, &mut delay, 0).unwrap();
    assert_eq!(n, 0);
    assert_eq!(delay.delay_calls, 0);
    let port = shub.free();
    assert_eq!(port.read_calls, 0); // no poll at all
}

#[test]
fn timeout_returns_data_on_later_poll() {
    let mut port = FakeI2cPort::new();
    // the first two polls find nothing; the third finds a packet
    port.add_raw_block(&vec![0, 0, 0, 0]);
    port.add_raw_block(&vec![0, 0, 0, 0]);
    let packet: Vec<u8> = vec![7, 0, 2, 0, 5, 5, 5];
    port.add_available_packet(&packet);
    let mut shub = I2cInterface::new(port, DEFAULT_ADDRESS);
    let mut delay = FakeDelay::new();
    let mut buf = vec![0u8; 64];
    let n = shub.read_with_timeout(&mut buf, &mut delay, 10).unwrap();
    assert_eq!(n, 7);
    assert_eq!(delay.delay_calls, 2); // one sleep per empty poll
    assert_eq!(&buf[..7], &packet[..]);
    let port = shub.free();
    assert_eq!(port.read_calls, 4); // two empty polls, header peek, body
}

#[test]
fn sized_read_of_nothing_returns_zero() {
    let mut shub = I2cInterface::new(FakeI2cPort::new(), DEFAULT_ADDRESS);
    let mut buf = vec![7u8; 64];
    let n = shub.read_sized_packet(0, &mut buf).unwrap();
    assert_eq!(n, 0);
    // only the header region is zeroed; no transaction was issued
    assert_eq!(&buf[..4], &[0u8; 4]);
    assert!(buf[4..].iter().all(|b| *b == 7));
    let port = shub.free();
    assert_eq!(port.read_calls, 0);
}

#[test]
fn timeout_returns_at_first_data() {
    let mut port = FakeI2cPort::new();
    let packet: Vec<u8> = vec![8, 0, 2, 0, 9, 9, 9, 9];
    port.add_available_packet(&packet);
    let mut shub = I2cInterface::new(port, DEFAULT_ADDRESS);
    let mut delay = FakeDelay::new();
    let mut buf = vec![0u8; 64];
    let n = shub.read_with_timeout(&mut buf, &mut delay, 10).unwrap();
    assert_eq!(n, 8);
    assert_eq!(delay.delay_calls, 0);
    assert_eq!(&buf[..8], &packet[..]);
}

#[test]
fn bad_continuation_header_aborts() {
    let mut port = FakeI2cPort::new();
    // the header peek claims 300 bytes, so the reader goes multi-segment,
    // but the segment's re-parsed header claims only 3 bytes
    port.add_raw_block(&vec![0x2C, 0x01, 0, 0]);
    let mut bad = vec![0u8; 240];
    bad[0] = 3;
    port.add_raw_block(&bad);
    let mut shub = I2cInterface::new(port, DEFAULT_ADDRESS);
    let mut buf = vec![0u8; 512];
    let n = shub.read_packet(&mut buf).unwrap();
    assert_eq!(n, 0);
}

#[test]
fn bad_second_continuation_header_aborts() {
    let mut port = FakeI2cPort::new();
    // header peek and first segment claim 500 bytes; the continuation
    // segment's header then claims only 4
    port.add_raw_block(&vec![0xF4, 0x01, 0, 0]);
    let mut first = vec![7u8; 240];
    first[0] = 0xF4;
    first[1] = 0x01;
    port.add_raw_block(&first);
    let mut bad = vec![0u8; 240];
    bad[0] = 4;
    port.add_raw_block(&bad);
    let mut shub = I2cInterface::new(port, DEFAULT_ADDRESS);
    let mut buf = vec![0u8; 512];
    let n = shub.read_packet(&mut buf).unwrap();
    assert_eq!(n, 0);
    let port = shub.free();
    assert_eq!(port.read_calls, 3);
}

#[test]
fn read_sized_packet_bad_segment_returns_zero() {
    let mut port = FakeI2cPort::new();
    port.add_raw_block(&vec![2, 0, 0, 0, 7, 7]); // claims no body at all
    let mut shub = I2cInterface::new(port, DEFAULT_ADDRESS);
    let mut buf = vec![0u8; 512];
    let n = shub.read_sized_packet(300, &mut buf).unwrap();
    assert_eq!(n, 0);
}

#[test]
fn write_packet_logs_bytes() {
    let mut shub = I2cInterface::new(FakeI2cPort::new(), ALTERNATE_ADDRESS);
    let cmd: Vec<u8> = vec![6, 0, 1, 0, 0xF9, 0];
    shub.write_packet(&cmd).unwrap();
    let port = shub.free();
    assert_eq!(port.sent_packets.len(), 1);
    assert_eq!(port.sent_packets[0], cmd);
}

#[test]
fn send_and_receive_packet_round_trip() {
    let mut port = FakeI2cPort::new();
    let reply: Vec<u8> = vec![9, 0, 2, 0, 1, 2, 3, 4, 5];
    port.add_available_packet(&reply);
    let mut shub = I2cInterface::new(port, DEFAULT_ADDRESS);
    let cmd: Vec<u8> = vec![5, 0, 1, 0, 0xF9];
    let mut buf = vec![0xAAu8; 64];
    let n = shub.send_and_receive_packet(&cmd, &mut buf).unwrap();
    assert_eq!(n, 9);
    assert_eq!(&buf[..9], &reply[..]);
    // the rest of the output buffer was zeroed before the read
    assert!(buf[9..].iter().all(|b| *b == 0));
    let port = shub.free();
    assert_eq!(port.sent_packets[0], cmd);
}

#[test]
fn setup_delays_before_use() {
    let mut shub = I2cInterface::new(FakeI2cPort::new(), DEFAULT_ADDRESS);
    let mut delay = FakeDelay::new();
    assert!(shub.setup(&mut delay).is_ok());
    assert_eq!(delay.delay_calls, 5);
    assert!(shub.requires_soft_reset());
}

#[test]
fn header_read_consumes_one_block() {
    let mut port = FakeI2cPort::new();
    port.add_raw_block(&vec![7, 0, 1, 1]);
    let mut shub = I2cInterface::new(port, DEFAULT_ADDRESS);
    assert!(shub.read_packet_header().is_ok());
    let port = shub.free();
    assert_eq!(port.read_calls, 1);
    assert_eq!(port.available_packets.len(), 0);
}

#[test]
fn zero_buffer_clears_all_bytes() {
    let mut b = vec![1u8, 2, 3, 4, 5];
    I2cInterface::<FakeI2cPort>::zero_buffer(&mut b);
    assert_eq!(b, vec![0u8; 5]);
}

#[test]
fn constructors_bind_addresses() {
    assert_eq!(DEFAULT_ADDRESS, 0x4A);
    assert_eq!(ALTERNATE_ADDRESS, 0x4B);
    let shub = I2cInterface::default(FakeI2cPort::new());
    let _ = shub.free();
    let shub = I2cInterface::alternate(FakeI2cPort::new());
    let _ = shub.free();
}
