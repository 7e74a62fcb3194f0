use usb_logger::drain::MAX_PACKET_SIZE;
use usb_logger::logger::UsbLogger;
use usb_logger::session::logger_device_config;

#[test]
fn full_size_record_sends_two_chunks() {
    let max = MAX_PACKET_SIZE as usize;
    let mut logger = UsbLogger::new(256);
    // Message plus the two terminator bytes comes to exactly one packet.
    let message = vec![b'a'; max - 2];
    logger.emit(&message);
    assert_eq!(logger.buffered_len(), max);
    let sent = logger.flush_connected(max);
    assert_eq!(sent.len(), 2);
    assert_eq!(sent[0].len(), max);
    assert!(sent[1].is_empty());
}

#[test]
fn short_record_sends_one_chunk() {
    let max = MAX_PACKET_SIZE as usize;
    let mut logger = UsbLogger::new(256);
    logger.emit(b"short line");
    let sent = logger.flush_connected(max);
    assert_eq!(sent.len(), 1);
    assert_eq!(sent[0], b"short line\r\n".to_vec());
}

#[test]
fn multi_packet_flush_concatenates_to_stream() {
    let max = MAX_PACKET_SIZE as usize;
    let mut logger = UsbLogger::new(512);
    let message = vec![b'x'; 2 * max - 2];
    logger.emit(&message);
    let sent = logger.flush_connected(max);
    // Two full chunks, each with its zero-length terminator.
    assert_eq!(sent.len(), 4);
    assert_eq!(sent[0].len(), max);
    assert!(sent[1].is_empty());
    assert_eq!(sent[2].len(), max);
    assert!(sent[3].is_empty());
    let mut stream = Vec::new();
    for packet in &sent {
        stream.extend_from_slice(packet);
    }
    let mut expected = message.clone();
    expected.extend_from_slice(b"\r\n");
    assert_eq!(stream, expected);
}

#[test]
fn drain_chunk_flags_full_size_chunks() {
    let mut logger = UsbLogger::new(16);
    logger.emit(b"abcdef");
    let (chunk, full) = logger.drain_chunk(4);
    assert_eq!(chunk, b"abcd".to_vec());
    assert!(full);
    let (chunk, full) = logger.drain_chunk(8);
    assert_eq!(chunk, b"ef\r\n".to_vec());
    assert!(!full);
    let (chunk, full) = logger.drain_chunk(8);
    assert!(chunk.is_empty());
    assert!(!full);
}

#[test]
fn single_byte_packets_each_get_a_terminator() {
    let mut logger = UsbLogger::new(8);
    logger.emit(b"ab");
    let sent = logger.flush_connected(1);
    let expected: Vec<Vec<u8>> = vec![
        b"a".to_vec(),
        Vec::new(),
        b"b".to_vec(),
        Vec::new(),
        b"\r".to_vec(),
        Vec::new(),
        b"\n".to_vec(),
        Vec::new(),
    ];
    assert_eq!(sent, expected);
}

#[test]
fn inbound_traffic_is_discarded() {
    let max = MAX_PACKET_SIZE as usize;
    let mut quiet = UsbLogger::new(128);
    let mut noisy = UsbLogger::new(128);
    quiet.emit(b"status");
    noisy.emit(b"status");
    let no_inbound: Vec<Vec<u8>> = Vec::new();
    let much_inbound = vec![b"ignore me".to_vec(), vec![0u8; max], b"and me".to_vec()];
    let sent_quiet = quiet.run_session(&no_inbound, max);
    let sent_noisy = noisy.run_session(&much_inbound, max);
    assert_eq!(sent_quiet, sent_noisy);
    assert_eq!(sent_quiet, vec![b"status\r\n".to_vec()]);
    assert_eq!(noisy.buffered_len(), 0);
}

#[test]
fn device_identification_fields() {
    let config = logger_device_config();
    assert_eq!(config.vendor_id, 0xc0de);
    assert_eq!(config.product_id, 0xcafe);
    assert_eq!(config.manufacturer, "Embassy");
    assert_eq!(config.product, "USB-serial logger");
    assert!(!config.has_serial_number);
    assert_eq!(config.max_power_ma, 100);
    assert_eq!(config.max_packet_size, 64);
    assert_eq!(config.device_class, 0xEF);
    assert_eq!(config.device_sub_class, 0x02);
    assert_eq!(config.device_protocol, 0x01);
    assert!(config.composite_with_iads);
}
