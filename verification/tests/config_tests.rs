use scherzo_core::config::{
    default_host, default_jobs_dir, default_max_job_size, default_port, hash_outcome,
    hash_password, verify_outcome, verify_password, AuthConfig, Config, ConfigError, JobsConfig,
    PasswordError, ServerConfig,
};

fn base() -> Config {
    Config { server: ServerConfig::default(), plugins: Vec::new(), jobs: JobsConfig::default() }
}

#[test]
fn defaults_are_as_documented() {
    assert_eq!(default_port(), 3000);
    assert_eq!(default_host(), "127.0.0.1");
    assert_eq!(default_jobs_dir(), "./jobs");
    assert_eq!(default_max_job_size(), 100 * 1024 * 1024);
    let config = base();
    assert_eq!(config.server.port, 3000);
    assert_eq!(config.server.host, "127.0.0.1");
    assert!(config.server.auth.is_none());
    assert_eq!(config.jobs.storage_dir, "./jobs");
    assert_eq!(config.jobs.max_size_bytes, 104857600);
}

#[test]
fn default_configuration_is_valid() {
    assert_eq!(base().validate(), Ok(()));
}

#[test]
fn empty_storage_dir_is_refused_first() {
    let mut config = base();
    config.jobs.storage_dir = String::new();
    config.server.auth =
        Some(AuthConfig { username: String::new(), password_hash: String::new() });
    assert_eq!(config.validate(), Err(ConfigError::EmptyStorageDir));
}

#[test]
fn empty_username_is_refused_before_empty_hash() {
    let mut config = base();
    config.server.auth =
        Some(AuthConfig { username: String::new(), password_hash: String::new() });
    assert_eq!(config.validate(), Err(ConfigError::EmptyUsername));
}

#[test]
fn empty_password_hash_is_refused() {
    let mut config = base();
    config.server.auth =
        Some(AuthConfig { username: "admin".to_string(), password_hash: String::new() });
    assert_eq!(config.validate(), Err(ConfigError::EmptyPasswordHash));
}

#[test]
fn full_credentials_are_accepted() {
    let mut config = base();
    config.server.auth =
        Some(AuthConfig { username: "admin".to_string(), password_hash: "$2b$12$x".to_string() });
    assert_eq!(config.validate(), Ok(()));
}

#[test]
fn test_password_hashing() {
    let password = "test123";
    let hash = hash_password(password).unwrap();

    assert!(verify_password(password, &hash));
    assert!(!verify_password("wrong", &hash));
}

#[test]
fn hash_is_sixty_characters_and_salted() {
    let first = hash_password("hunter2").unwrap();
    assert_eq!(first.chars().count(), 60);
    assert!(first.starts_with("$2b$12$"));
    assert_ne!(first, "hunter2");
}

#[test]
fn known_hashes_are_recognised() {
    let empty = "$2a$06$DCq7YPn5Rq63x1Lad4cll.TV4S6ytwfsfvkgY8jIucDrjc8deX1s.";
    let a = "$2a$06$m0CrhHm10qJ3lXRY.5zDGO3rS2KdeeWLuGmsfGlMfOxih58VYVfxe";
    let alphabet = "$2a$08$aTsUwsyowQuzRrDqFflhgekJ8d9/7Z3GV3UcgvzQW3J5zMyrTvlz.";
    assert!(verify_password("", empty));
    assert!(verify_password("a", a));
    assert!(verify_password("abcdefghijklmnopqrstuvwxyz", alphabet));
    assert!(!verify_password("b", a));
    assert!(!verify_password("a", empty));
    assert!(!verify_password("", a));
}

#[test]
fn text_that_is_no_hash_has_no_password() {
    assert!(!verify_password("a", ""));
    assert!(!verify_password("a", "a"));
    assert!(!verify_password("", "not a hash at all"));
    // sixty characters, but no bcrypt prefix
    let sixty = "x".repeat(60);
    assert!(!verify_password("x", &sixty));
    // a hash cut short
    assert!(!verify_password("a", "$2a$06$m0CrhHm10qJ3lXRY.5zDGO3rS2KdeeWLuGmsfGlMfOxih58VYVfx"));
}

#[test]
fn config_errors_say_which_rule_was_broken() {
    assert_eq!(ConfigError::EmptyStorageDir.message(), "jobs.storage_dir cannot be empty");
    assert_eq!(ConfigError::EmptyUsername.message(), "server.auth.username cannot be empty");
    assert_eq!(
        ConfigError::EmptyPasswordHash.message(),
        "server.auth.password_hash cannot be empty"
    );
}

#[test]
fn failed_hashing_is_one_error() {
    assert_eq!(
        hash_outcome(Err(bcrypt::BcryptError::CostNotAllowed(3))),
        Err(PasswordError::HashFailed)
    );
    assert_eq!(
        hash_outcome(Err(bcrypt::BcryptError::Truncation(80))),
        Err(PasswordError::HashFailed)
    );
    assert_eq!(hash_outcome(Ok("kept as it is".to_string())), Ok("kept as it is".to_string()));
}

#[test]
fn failed_check_counts_as_no() {
    assert!(verify_outcome(Ok(true)));
    assert!(!verify_outcome(Ok(false)));
    assert!(!verify_outcome(Err(bcrypt::BcryptError::InvalidHash("malformed"))));
}
