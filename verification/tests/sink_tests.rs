use usb_logger::logger::UsbLogger;

#[test]
fn emit_appends_message_and_terminator() {
    let mut logger = UsbLogger::new(64);
    logger.emit(b"hi");
    assert_eq!(logger.buffered_len(), 4);
    let sent = logger.flush_connected(64);
    assert_eq!(sent, vec![b"hi\r\n".to_vec()]);
}

#[test]
fn emit_on_overflow_truncates_silently() {
    let mut logger = UsbLogger::new(4);
    logger.emit(b"abcdef");
    assert_eq!(logger.buffered_len(), 4);
    let sent = logger.flush_connected(64);
    assert_eq!(sent, vec![b"abcd".to_vec()]);
}

#[test]
fn emit_while_disconnected_then_flush_in_order() {
    // No host attached: emits complete immediately and only buffer bytes.
    let mut logger = UsbLogger::new(128);
    logger.emit(b"one");
    logger.emit(b"two");
    logger.emit(b"three");
    assert_eq!(logger.buffered_len(), 17);
    // Host connects: everything buffered goes out, in original order.
    let sent = logger.flush_connected(64);
    let mut stream = Vec::new();
    for packet in &sent {
        stream.extend_from_slice(packet);
    }
    assert_eq!(stream, b"one\r\ntwo\r\nthree\r\n".to_vec());
    assert_eq!(logger.buffered_len(), 0);
}

#[test]
fn emit_empty_message_buffers_terminator_only() {
    let mut logger = UsbLogger::new(8);
    logger.emit(b"");
    assert_eq!(logger.buffered_len(), 2);
    let sent = logger.flush_connected(64);
    assert_eq!(sent, vec![b"\r\n".to_vec()]);
}

#[test]
fn capacity_one_buffer_holds_one_byte() {
    let mut logger = UsbLogger::new(1);
    logger.emit(b"ab");
    assert_eq!(logger.buffered_len(), 1);
    let sent = logger.flush_connected(64);
    assert_eq!(sent, vec![b"a".to_vec()]);
}

#[test]
fn flush_of_empty_buffer_sends_nothing() {
    let mut logger = UsbLogger::new(8);
    let sent = logger.flush_connected(64);
    assert!(sent.is_empty());
}

#[test]
fn enabled_is_always_true() {
    let logger = UsbLogger::new(16);
    assert!(logger.enabled());
}

#[test]
fn flush_is_a_no_op() {
    let mut logger = UsbLogger::new(16);
    logger.emit(b"x");
    logger.flush();
    assert_eq!(logger.buffered_len(), 3);
}

#[test]
fn write_fragment_reports_accepted_count() {
    let mut logger = UsbLogger::new(4);
    assert_eq!(logger.write_fragment(b"abc"), 3);
    assert_eq!(logger.write_fragment(b"def"), 1);
    let sent = logger.flush_connected(64);
    assert_eq!(sent, vec![b"abcd".to_vec()]);
}
