use jwt_cracker::dispatcher::DEFAULT_WORKER_COUNT;
use jwt_cracker::error::ConfigError;

#[test]
fn each_error_has_its_message() {
    assert_eq!(ConfigError::MalformedToken.message(), "Invalid token");
    assert_eq!(ConfigError::HeaderEncoding.message(), "Failed to decode header");
    assert_eq!(ConfigError::UnsupportedType.message(), "Invalid token type");
    assert_eq!(ConfigError::UnsupportedAlgorithm.message(), "Currently only HS256 is supported");
    assert_eq!(ConfigError::SignatureEncoding.message(), "Failed to decode signature");
    assert_eq!(ConfigError::ZeroWorkers.message(), "At least one worker is needed");
}

#[test]
fn errors_compare_by_variant() {
    assert_eq!(ConfigError::ZeroWorkers, ConfigError::ZeroWorkers);
    assert_ne!(ConfigError::ZeroWorkers, ConfigError::MalformedToken);
    assert_ne!(ConfigError::HeaderEncoding, ConfigError::SignatureEncoding);
    assert_ne!(ConfigError::UnsupportedType, ConfigError::UnsupportedAlgorithm);
}

#[test]
fn the_default_pool_has_ten_workers() {
    assert_eq!(DEFAULT_WORKER_COUNT, 10);
}
