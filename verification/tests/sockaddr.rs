use dbus_native_channel::address::{ConnectionMode, ParseError};
use dbus_native_channel::sockaddr::{
    address_to_sockaddr_un, encode, make_sockaddr_un, AddressFamily, SUN_PATH_LEN,
};

#[test]
fn encode_path_starts_at_offset_zero() {
    let d = encode(ConnectionMode::FilesystemPath, "/tmp/s").unwrap();
    assert_eq!(d.sun_family, AddressFamily::Unix);
    assert_eq!(d.sun_path.len(), SUN_PATH_LEN);
    assert_eq!(&d.sun_path[..7], b"/tmp/s\0");
    assert!(d.sun_path[7..].iter().all(|&b| b == 0));
}

#[test]
fn encode_abstract_starts_at_offset_one() {
    let d = encode(ConnectionMode::AbstractNamespace, "foo").unwrap();
    assert_eq!(d.sun_path[0], 0);
    assert_eq!(&d.sun_path[1..5], b"foo\0");
    assert!(d.sun_path[5..].iter().all(|&b| b == 0));
}

#[test]
fn encode_rejects_value_filling_whole_buffer() {
    // 107 bytes in path mode need 108 bytes, equal to the capacity: the
    // boundary is strict, so this is rejected.
    let long = "a".repeat(107);
    assert_eq!(
        encode(ConnectionMode::FilesystemPath, &long),
        Err(ParseError::TooLong)
    );
}

#[test]
fn encode_accepts_value_one_under_the_boundary() {
    let long = "a".repeat(106);
    let d = encode(ConnectionMode::FilesystemPath, &long).unwrap();
    assert!(d.sun_path[..106].iter().all(|&b| b == b'a'));
    assert_eq!(d.sun_path[106], 0);
    assert_eq!(d.sun_path[107], 0);
}

#[test]
fn encode_abstract_needs_one_more_byte() {
    // In abstract mode the reserved leading byte counts too: 106 value
    // bytes need 108, which reaches the capacity.
    let long = "a".repeat(106);
    assert_eq!(
        encode(ConnectionMode::AbstractNamespace, &long),
        Err(ParseError::TooLong)
    );
    let ok = "a".repeat(105);
    let d = encode(ConnectionMode::AbstractNamespace, &ok).unwrap();
    assert_eq!(d.sun_path[0], 0);
    assert!(d.sun_path[1..106].iter().all(|&b| b == b'a'));
    assert_eq!(d.sun_path[106], 0);
}

#[test]
fn encode_reads_back_the_value_bytes() {
    let value = "/run/user/1000/bus";
    let d = encode(ConnectionMode::FilesystemPath, value).unwrap();
    assert_eq!(&d.sun_path[..value.len()], value.as_bytes());

    let d = encode(ConnectionMode::AbstractNamespace, value).unwrap();
    assert_eq!(&d.sun_path[1..1 + value.len()], value.as_bytes());
}

#[test]
fn encode_uses_utf8_byte_length() {
    // A two-byte character counts as two buffer bytes.
    let value = "caf\u{e9}";
    let d = encode(ConnectionMode::FilesystemPath, value).unwrap();
    assert_eq!(&d.sun_path[..5], value.as_bytes());
    assert_eq!(d.sun_path[5], 0);
}

#[test]
fn make_sockaddr_un_writes_at_the_given_offset() {
    let d = make_sockaddr_un(1, "x").unwrap();
    assert_eq!(d.sun_path[0], 0);
    assert_eq!(d.sun_path[1], b'x');
    assert_eq!(d.sun_path[2], 0);
}

#[test]
fn pipeline_path_address() {
    let d = address_to_sockaddr_un("unix:path=/tmp/s").unwrap();
    assert_eq!(d.sun_family, AddressFamily::Unix);
    assert_eq!(&d.sun_path[..7], b"/tmp/s\0");
}

#[test]
fn pipeline_abstract_address() {
    let d = address_to_sockaddr_un("unix:abstract=foo").unwrap();
    assert_eq!(d.sun_path[0], 0);
    assert_eq!(&d.sun_path[1..5], b"foo\0");
}

#[test]
fn pipeline_reports_each_stage_error() {
    assert_eq!(
        address_to_sockaddr_un("tcp:host=x"),
        Err(ParseError::NotUnix)
    );
    assert_eq!(
        address_to_sockaddr_un("unix:tcp=1"),
        Err(ParseError::UnsupportedAddressType("unix:tcp=1".to_owned()))
    );
    let long = format!("unix:path={}", "a".repeat(107));
    assert_eq!(address_to_sockaddr_un(&long), Err(ParseError::TooLong));
}
