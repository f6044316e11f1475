use kvs::KvsError;

#[test]
fn io_error_text_is_passed_through() {
    let e = KvsError::from(std::io::Error::new(std::io::ErrorKind::Other, "disk gone"));
    assert!(matches!(e, KvsError::Io(_)));
    assert_eq!(e.message(), "disk gone");
}

#[test]
fn sled_error_text_is_passed_through() {
    let e = KvsError::from(sled::Error::Unsupported("no way".to_string()));
    assert!(matches!(e, KvsError::Sled(_)));
    assert_eq!(e.message(), "Unsupported: no way");
}

#[test]
fn utf8_error_text_has_its_prefix() {
    let e = KvsError::from(String::from_utf8(vec![0xff]).unwrap_err());
    let text = e.message();
    assert!(text.starts_with("UTF-8 error: "));
    assert!(text.len() > "UTF-8 error: ".len());
}

#[test]
fn logical_error_texts() {
    assert_eq!(KvsError::KeyNotFound.message(), "Key not found");
    assert_eq!(KvsError::Codec.message(), "Malformed record");
    assert_eq!(KvsError::EngineNotFound.message(), "Engine not found");
}
