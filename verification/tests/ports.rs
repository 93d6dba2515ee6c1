use wasabi::qemu::QemuExitCode;
use wasabi::serial::SerialPort;
use wasabi::serial::COM1_BASE;

#[test]
fn serial_port_keeps_its_base() {
    assert_eq!(SerialPort::new(0x2F8).base(), 0x2F8);
    assert_eq!(SerialPort::new_for_com1().base(), 0x3F8);
    assert_eq!(COM1_BASE, 0x3F8);
}

#[test]
fn default_serial_port_is_com1() {
    assert_eq!(SerialPort::default().base(), 0x3F8);
}

#[test]
fn exit_codes_map_to_their_bytes() {
    assert_eq!(QemuExitCode::Success.code(), 1);
    assert_eq!(QemuExitCode::Failed.code(), 2);
    assert_eq!(QemuExitCode::Success, QemuExitCode::Success);
    assert_ne!(QemuExitCode::Success, QemuExitCode::Failed);
}
