use dbus_native_channel::address::{
    parse, resolve_session_address, resolve_starter_address, resolve_system_address,
    ConnectionMode, NotFound, ParseError,
};

#[test]
fn parse_path_address() {
    let r = parse("unix:path=/tmp/s").unwrap();
    assert_eq!(r.0, ConnectionMode::FilesystemPath);
    assert_eq!(r.1, "/tmp/s");
}

#[test]
fn parse_abstract_address() {
    let r = parse("unix:abstract=foo").unwrap();
    assert_eq!(r.0, ConnectionMode::AbstractNamespace);
    assert_eq!(r.1, "foo");
}

#[test]
fn parse_rejects_missing_prefix() {
    assert_eq!(parse("tcp:host=localhost"), Err(ParseError::NotUnix));
    assert_eq!(parse(""), Err(ParseError::NotUnix));
    assert_eq!(parse("unix"), Err(ParseError::NotUnix));
    assert_eq!(parse("UNIX:path=/tmp/s"), Err(ParseError::NotUnix));
}

#[test]
fn parse_rejects_unrecognized_keys() {
    assert_eq!(
        parse("unix:tcp=1"),
        Err(ParseError::UnsupportedAddressType("unix:tcp=1".to_owned()))
    );
    assert_eq!(
        parse("unix:guid=abc,port=7"),
        Err(ParseError::UnsupportedAddressType("unix:guid=abc,port=7".to_owned()))
    );
    assert_eq!(
        parse("unix:"),
        Err(ParseError::UnsupportedAddressType("unix:".to_owned()))
    );
}

#[test]
fn parse_first_recognized_key_wins() {
    let r = parse("unix:abstract=X,path=Y").unwrap();
    assert_eq!(r.0, ConnectionMode::AbstractNamespace);
    assert_eq!(r.1, "X");

    let r = parse("unix:path=Y,abstract=X").unwrap();
    assert_eq!(r.0, ConnectionMode::FilesystemPath);
    assert_eq!(r.1, "Y");
}

#[test]
fn parse_skips_unrecognized_segments() {
    let r = parse("unix:guid=abc,path=/run/bus").unwrap();
    assert_eq!(r.0, ConnectionMode::FilesystemPath);
    assert_eq!(r.1, "/run/bus");
}

#[test]
fn parse_skips_segments_without_equals() {
    let r = parse("unix:noequalsign,abstract=name").unwrap();
    assert_eq!(r.0, ConnectionMode::AbstractNamespace);
    assert_eq!(r.1, "name");
}

#[test]
fn parse_accepts_empty_value() {
    let r = parse("unix:path=").unwrap();
    assert_eq!(r.0, ConnectionMode::FilesystemPath);
    assert_eq!(r.1, "");
}

#[test]
fn parse_value_keeps_later_equals() {
    let r = parse("unix:path=/tmp/a=b").unwrap();
    assert_eq!(r.0, ConnectionMode::FilesystemPath);
    assert_eq!(r.1, "/tmp/a=b");
}

#[test]
fn parse_key_must_match_exactly() {
    assert_eq!(
        parse("unix:paths=/tmp/s"),
        Err(ParseError::UnsupportedAddressType("unix:paths=/tmp/s".to_owned()))
    );
    assert_eq!(
        parse("unix:pat=/tmp/s"),
        Err(ParseError::UnsupportedAddressType("unix:pat=/tmp/s".to_owned()))
    );
}

#[test]
fn resolve_session_uses_environment_value() {
    let r = resolve_session_address(Some("unix:path=/run/user/1000/bus".to_owned()));
    assert_eq!(r, Ok("unix:path=/run/user/1000/bus".to_owned()));
}

#[test]
fn resolve_session_fails_when_absent() {
    assert_eq!(resolve_session_address(None), Err(NotFound));
}

#[test]
fn resolve_system_uses_environment_value() {
    let r = resolve_system_address(Some("unix:abstract=sysbus".to_owned()));
    assert_eq!(r, "unix:abstract=sysbus");
}

#[test]
fn resolve_system_falls_back_when_absent() {
    let r = resolve_system_address(None);
    assert_eq!(r, "unix:path=/var/run/dbus/system_bus_socket");
}

#[test]
fn resolve_starter_matches_session_lookup() {
    let r = resolve_starter_address(Some("unix:path=/run/bus".to_owned()));
    assert_eq!(r, Ok("unix:path=/run/bus".to_owned()));
    assert_eq!(resolve_starter_address(None), Err(NotFound));
}

#[test]
fn fallback_address_parses() {
    let addr = resolve_system_address(None);
    let r = parse(&addr).unwrap();
    assert_eq!(r.0, ConnectionMode::FilesystemPath);
    assert_eq!(r.1, "/var/run/dbus/system_bus_socket");
}
