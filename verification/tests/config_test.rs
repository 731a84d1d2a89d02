use portforwarder::convert_to_bytes;
use portforwarder::forward_config::ForwardSessionConfig;

fn base_config() -> ForwardSessionConfig {
    ForwardSessionConfig {
        local: "127.0.0.1:8808".to_string(),
        remoteMap: vec![(".*".to_string(), "127.0.0.1:9000".to_string())],
        allow_nets: vec![],
        enable_tcp: true,
        enable_udp: true,
        conn_bufsize: 2 * 1024 * 1024,
        max_connections: -1,
    }
}

#[test]
fn default_config_is_valid() {
    assert!(base_config().validate());
}

#[test]
fn some_protocol_must_be_enabled() {
    let mut c = base_config();
    c.enable_tcp = false;
    c.enable_udp = false;
    assert!(!c.validate());
    c.enable_udp = true;
    assert!(c.validate());
}

#[test]
fn zero_buffer_is_rejected() {
    // "0MB" parses to a size of zero, which no engine can make progress with
    assert_eq!(convert_to_bytes("0MB"), Some(0));
    let mut c = base_config();
    c.conn_bufsize = 0;
    assert!(!c.validate());
}
