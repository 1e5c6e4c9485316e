use loom::result::{get_os_err, is_eagain, should_retry, LoomError, Result};

fn io(code: i32) -> LoomError {
    LoomError::from_io(std::io::Error::from_raw_os_error(code))
}

#[test]
fn error_equality() {
    assert_eq!(LoomError::NoSpace, LoomError::NoSpace);
    assert_eq!(LoomError::ToLarge, LoomError::ToLarge);
    assert_ne!(LoomError::NoSpace, LoomError::ToLarge);
    assert_ne!(io(11), io(11));
}

#[test]
fn io_errors_keep_their_code() {
    assert!(matches!(io(11), LoomError::IO(_, Some(11))));
    let plain = LoomError::from_io(std::io::Error::new(std::io::ErrorKind::Other, "x"));
    assert!(matches!(plain, LoomError::IO(_, None)));
}

#[test]
fn retry_only_on_eagain() {
    let r: Result<u8> = Err(io(11));
    assert_eq!(get_os_err(&r), Some(11));
    assert!(should_retry(&r));
    let r: Result<u8> = Err(io(4));
    assert_eq!(get_os_err(&r), Some(4));
    assert!(!should_retry(&r));
    let r: Result<u8> = Err(LoomError::NoSpace);
    assert_eq!(get_os_err(&r), None);
    assert!(!should_retry(&r));
    let r: Result<u8> = Ok(1);
    assert!(!should_retry(&r));
    let r: Result<u8> = Err(LoomError::from_io(std::io::Error::new(std::io::ErrorKind::Other, "x")));
    assert_eq!(get_os_err(&r), None);
}

#[test]
fn conversions_into_errors() {
    let j = serde_json::from_slice::<u8>(b"x").unwrap_err();
    let e: LoomError = j.into();
    assert!(matches!(e, LoomError::JSON(_)));
    let e: LoomError = crypto::symmetriccipher::SymmetricCipherError::InvalidLength.into();
    assert!(matches!(e, LoomError::AES(_)));
}

#[test]
fn eagain_code() {
    assert!(is_eagain(Some(11)));
    assert!(!is_eagain(Some(35)));
    assert!(!is_eagain(None));
}
