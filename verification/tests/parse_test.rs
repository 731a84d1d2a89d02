use portforwarder::convert_to_bytes;

#[test]
fn bytes_unit() {
    assert_eq!(convert_to_bytes("512B"), Some(512));
}

#[test]
fn kilo_mega_units() {
    assert_eq!(convert_to_bytes("1KB"), Some(1024));
    assert_eq!(convert_to_bytes("2MB"), Some(2 * 1024 * 1024));
}

#[test]
fn giga_tera_units() {
    assert_eq!(convert_to_bytes("10GB"), Some(10 * 1024 * 1024 * 1024));
    assert_eq!(convert_to_bytes("1TB"), Some(1024usize.pow(4)));
}

#[test]
fn lowercase_and_spaces() {
    assert_eq!(convert_to_bytes("2mb"), Some(2 * 1024 * 1024));
    assert_eq!(convert_to_bytes("3 kb"), Some(3 * 1024));
}

#[test]
fn malformed_inputs() {
    assert_eq!(convert_to_bytes(""), None);
    assert_eq!(convert_to_bytes("MB"), None);
    assert_eq!(convert_to_bytes("12"), None);
    assert_eq!(convert_to_bytes("7XB"), None);
}

#[test]
fn oversized_number() {
    assert_eq!(convert_to_bytes("99999999999999999999999TB"), None);
}
