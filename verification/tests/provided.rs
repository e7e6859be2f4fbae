use context_engine::text::decimal;
use context_engine::{ContextError, DslError, LoadError, StoreError};

#[test]
fn decimal_renders_base_ten() {
    assert_eq!(decimal(0), "0");
    assert_eq!(decimal(7), "7");
    assert_eq!(decimal(65535), "65535");
    assert_eq!(decimal(u64::MAX), "18446744073709551615");
}

#[test]
fn error_messages_name_the_kind() {
    assert_eq!(DslError::LimitExceeded("paths".to_string()).message(), "LimitExceeded: paths");
    assert_eq!(DslError::ParseError("x".to_string()).message(), "ParseError: x");
    assert_eq!(LoadError::NotFound("user:1".to_string()).message(), "NotFound: user:1");
    assert_eq!(StoreError::ClientNotFound("3".to_string()).message(), "ClientNotFound: 3");
    assert_eq!(
        ContextError::StoreFailed(StoreError::ClientNotFound("0".to_string())).message(),
        "StoreFailed: ClientNotFound: 0"
    );
    assert_eq!(
        ContextError::LoadFailed(LoadError::ConfigMissing("k".to_string())).message(),
        "LoadFailed: ConfigMissing: k"
    );
    assert_eq!(ContextError::RecursionLimitExceeded.message(), "RecursionLimitExceeded");
    assert_eq!(ContextError::KeyNotFound("a.b".to_string()).message(), "KeyNotFound: a.b");
}
