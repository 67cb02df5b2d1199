//! Configuration of the runtime and the rules it must meet.

use vstd::prelude::*;

verus! {

/// Port that the server binds where none is given.
pub const DEFAULT_PORT: u16 = 3000;

/// Largest job, in bytes, where no limit is given: 100 MiB.
pub const DEFAULT_MAX_JOB_SIZE: u64 = 104857600;

/// Configuration of the runtime.
#[derive(Debug, Clone)]
pub struct Config {
    pub server: ServerConfig,
    /// Paths of the plugins to load at start.
    pub plugins: Vec<String>,
    pub jobs: JobsConfig,
}

#[derive(Debug, Clone)]
pub struct ServerConfig {
    pub port: u16,
    /// Host name or address to bind.
    pub host: String,
    pub auth: Option<AuthConfig>,
}

/// Credentials for basic authentication.
#[derive(Debug, Clone)]
pub struct AuthConfig {
    pub username: String,
    /// Hash of the password.
    pub password_hash: String,
}

#[derive(Debug, Clone)]
pub struct JobsConfig {
    /// Directory that holds uploaded jobs.
    pub storage_dir: String,
    pub max_size_bytes: u64,
}

/// The rule that a configuration breaks.
#[derive(Debug, Clone, Copy, PartialEq, Eq, Structural)]
pub enum ConfigError {
    EmptyStorageDir,
    EmptyUsername,
    EmptyPasswordHash,
}

impl ConfigError {
    /// The rule that was broken, in words.
    pub fn message(&self) -> (text: &'static str)
        ensures
            text@ == match *self {
                ConfigError::EmptyStorageDir => "jobs.storage_dir cannot be empty"@,
                ConfigError::EmptyUsername => "server.auth.username cannot be empty"@,
                ConfigError::EmptyPasswordHash => "server.auth.password_hash cannot be empty"@,
            },
    {
        match self {
            ConfigError::EmptyStorageDir => "jobs.storage_dir cannot be empty",
            ConfigError::EmptyUsername => "server.auth.username cannot be empty",
            ConfigError::EmptyPasswordHash => "server.auth.password_hash cannot be empty",
        }
    }
}

pub fn default_port() -> (port: u16)
    ensures
        port == DEFAULT_PORT,
{
    DEFAULT_PORT
}

pub fn default_host() -> (host: String)
    ensures
        host@ == "127.0.0.1"@,
{
    "127.0.0.1".to_owned()
}

pub fn default_jobs_dir() -> (dir: String)
    ensures
        dir@ == "./jobs"@,
{
    "./jobs".to_owned()
}

pub fn default_max_job_size() -> (size: u64)
    ensures
        size == DEFAULT_MAX_JOB_SIZE,
{
    DEFAULT_MAX_JOB_SIZE
}

impl Default for ServerConfig {
    fn default() -> (config: Self)
        ensures
            config.port == DEFAULT_PORT,
            config.host@ == "127.0.0.1"@,
            config.auth is None,
    {
        ServerConfig { port: default_port(), host: default_host(), auth: None }
    }
}

impl Default for JobsConfig {
    fn default() -> (config: Self)
        ensures
            config.storage_dir@ == "./jobs"@,
            config.max_size_bytes == DEFAULT_MAX_JOB_SIZE,
    {
        JobsConfig { storage_dir: default_jobs_dir(), max_size_bytes: default_max_job_size() }
    }
}

impl Config {
    /// The first rule that the configuration breaks, if any: the storage
    /// directory is named; where credentials are given, neither the user
    /// name nor the password hash is empty.
    pub open spec fn verdict(&self) -> Result<(), ConfigError> {
        if self.jobs.storage_dir@.len() == 0 {
            Err(ConfigError::EmptyStorageDir)
        } else {
            match self.server.auth {
                Some(auth) => if auth.username@.len() == 0 {
                    Err(ConfigError::EmptyUsername)
                } else if auth.password_hash@.len() == 0 {
                    Err(ConfigError::EmptyPasswordHash)
                } else {
                    Ok(())
                },
                None => Ok(()),
            }
        }
    }

    pub fn validate(&self) -> (r: Result<(), ConfigError>)
        ensures
            r == self.verdict(),
    {
        if self.jobs.storage_dir.as_str().is_empty() {
            return Err(ConfigError::EmptyStorageDir);
        }
        match &self.server.auth {
            Some(auth) => {
                if auth.username.as_str().is_empty() {
                    return Err(ConfigError::EmptyUsername);
                }
                if auth.password_hash.as_str().is_empty() {
                    return Err(ConfigError::EmptyPasswordHash);
                }
            },
            None => {},
        }
        Ok(())
    }
}

/// The error type of the `bcrypt` crate; nothing is read from it.
#[verifier::external_type_specification]
#[verifier::external_body]
pub struct ExBcryptError(bcrypt::BcryptError);

/// Whether `bcrypt::verify` finds that `password` belongs to `hash`.
pub uninterp spec fn bcrypt_matches(password: Seq<char>, hash: Seq<char>) -> bool;

/// `bcrypt::hash` at `bcrypt::DEFAULT_COST`: a hash of the password under a
/// salt drawn at random, or an error where no salt could be drawn. The
/// contract claims of a hash that comes back that it is 60 characters long
/// and that `bcrypt::verify` finds the password to belong to it.
#[verifier::external_body]
fn bcrypt_hash(password: &str) -> (outcome: Result<String, bcrypt::BcryptError>)
    ensures
        outcome matches Ok(hash) ==> hash@.len() == 60 && bcrypt_matches(password@, hash@),
{
    bcrypt::hash(password, bcrypt::DEFAULT_COST)
}

/// `bcrypt::verify`: whether the password, hashed under the salt and cost
/// that `hash` holds, gives `hash`; an error where `hash` is not a bcrypt
/// hash. The contract names the outcome: it is the same for the same texts.
#[verifier::external_body]
fn bcrypt_verify(password: &str, hash: &str) -> (outcome: Result<bool, bcrypt::BcryptError>)
    ensures
        (outcome matches Ok(found) && found) == bcrypt_matches(password@, hash@),
{
    bcrypt::verify(password, hash)
}

/// Why no hash was made.
#[derive(Debug, Clone, Copy, PartialEq, Eq, Structural)]
pub enum PasswordError {
    HashFailed,
}

/// The hash that came back, or the one error that stands for any failure.
pub fn hash_outcome(outcome: Result<String, bcrypt::BcryptError>) -> (r: Result<
    String,
    PasswordError,
>)
    ensures
        outcome matches Ok(hash) ==> r == Ok::<String, PasswordError>(hash),
        outcome is Err ==> r == Err::<String, PasswordError>(PasswordError::HashFailed),
{
    match outcome {
        Ok(hash) => Ok(hash),
        Err(_) => Err(PasswordError::HashFailed),
    }
}

/// A password belongs to a hash where the check says so; a failed check
/// counts as no.
pub fn verify_outcome(outcome: Result<bool, bcrypt::BcryptError>) -> (found: bool)
    ensures
        found == (outcome matches Ok(b) && b),
{
    match outcome {
        Ok(found) => found,
        Err(_) => false,
    }
}

/// Hashes a password for storage. A hash that comes back is 60 characters
/// long and the password belongs to it.
pub fn hash_password(password: &str) -> (r: Result<String, PasswordError>)
    ensures
        r matches Ok(hash) ==> hash@.len() == 60 && bcrypt_matches(password@, hash@),
{
    hash_outcome(bcrypt_hash(password))
}

/// Whether a password belongs to a stored hash. A text that is no hash has
/// no password.
pub fn verify_password(password: &str, hash: &str) -> (found: bool)
    ensures
        found == bcrypt_matches(password@, hash@),
{
    verify_outcome(bcrypt_verify(password, hash))
}

} // verus!
