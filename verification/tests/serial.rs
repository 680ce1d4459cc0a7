use dusk::debug::serial::{print, SerialPort, SerialPortError, LOOPBACK_TEST_VALUE, SCRATCH_TEST_VALUE};

#[test]
fn the_port_is_probed_through_its_scratch_register() {
    let com1 = SerialPort::com1();
    assert_eq!(com1.probe_write(), (0x3FF, 0x42));
    assert_eq!(com1.init(0x00), Err(SerialPortError::NotFound));
    assert_eq!(com1.init(0xFF), Err(SerialPortError::NotFound));
}

#[test]
fn setup_writes_baud_format_fifos_and_loopback_in_order() {
    let com1 = SerialPort::new(0x3F8);
    let w = com1.init(SCRATCH_TEST_VALUE).unwrap();
    assert_eq!(
        w,
        vec![(0x3F9, 0), (0x3FB, 0x80), (0x3F8, 1), (0x3F9, 0), (0x3FB, 0x03), (0x3FA, 0xC7), (0x3FC, 0x0B), (0x3FC, 0x1E)]
    );
    assert_eq!(com1.finish_init(LOOPBACK_TEST_VALUE), Ok((0x3FC, 0x0F)));
    assert_eq!(com1.finish_init(0), Err(SerialPortError::Faulty));
    assert_eq!(com1.port(5), 0x3FD);
}

#[test]
fn newlines_go_out_as_carriage_return_and_newline() {
    assert_eq!(SerialPort::write_byte(b'a'), vec![b'a']);
    assert_eq!(SerialPort::write_byte(b'\n'), vec![b'\r', b'\n']);
    assert_eq!(print(b"ab\ncd\n"), b"ab\r\ncd\r\n".to_vec());
    assert_eq!(print(b""), Vec::<u8>::new());
    assert!(SerialPort::can_transfer(0x60));
    assert!(!SerialPort::can_transfer(0x01));
}
