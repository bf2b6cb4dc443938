//! User-facing configuration, as read from the environment and the command
//! line. Values are kept as the user wrote them; only the merge of the two
//! sources is decided here, and parsing errors surface when the application
//! converts them into its runtime configuration.

use vstd::prelude::*;

verus! {

/// The configuration a user can set via environment variables or command
/// line arguments; every field is optional and unvalidated text. The command
/// line takes precedence over the environment.
#[derive(Default)]
pub struct UserConfig {
    pub listen: Option<String>,
    pub store_path: Option<String>,
    pub chunk_size: Option<String>,
    pub username: Option<String>,
    pub password: Option<String>,
    pub secret: Option<String>,
    pub token_expiry: Option<String>,
    pub tls_cert: Option<String>,
    pub tls_key: Option<String>,
}

impl UserConfig {
    /// Merge the environment and command line configurations: each field set
    /// on the command line wins; every other field keeps its environment
    /// value.
    pub fn from_env_and_cli(env_config: UserConfig, cli_config: UserConfig) -> (r: UserConfig)
        ensures
            r.listen == if cli_config.listen is Some {
                cli_config.listen
            } else {
                env_config.listen
            },
            r.store_path == if cli_config.store_path is Some {
                cli_config.store_path
            } else {
                env_config.store_path
            },
            r.chunk_size == if cli_config.chunk_size is Some {
                cli_config.chunk_size
            } else {
                env_config.chunk_size
            },
            r.username == if cli_config.username is Some {
                cli_config.username
            } else {
                env_config.username
            },
            r.password == if cli_config.password is Some {
                cli_config.password
            } else {
                env_config.password
            },
            r.secret == if cli_config.secret is Some {
                cli_config.secret
            } else {
                env_config.secret
            },
            r.token_expiry == if cli_config.token_expiry is Some {
                cli_config.token_expiry
            } else {
                env_config.token_expiry
            },
            r.tls_cert == if cli_config.tls_cert is Some {
                cli_config.tls_cert
            } else {
                env_config.tls_cert
            },
            r.tls_key == if cli_config.tls_key is Some {
                cli_config.tls_key
            } else {
                env_config.tls_key
            },
    {
        let mut config = env_config;
        if cli_config.listen.is_some() {
            config.listen = cli_config.listen;
        }
        if cli_config.store_path.is_some() {
            config.store_path = cli_config.store_path;
        }
        if cli_config.chunk_size.is_some() {
            config.chunk_size = cli_config.chunk_size;
        }
        if cli_config.username.is_some() {
            config.username = cli_config.username;
        }
        if cli_config.password.is_some() {
            config.password = cli_config.password;
        }
        if cli_config.secret.is_some() {
            config.secret = cli_config.secret;
        }
        if cli_config.token_expiry.is_some() {
            config.token_expiry = cli_config.token_expiry;
        }
        if cli_config.tls_cert.is_some() {
            config.tls_cert = cli_config.tls_cert;
        }
        if cli_config.tls_key.is_some() {
            config.tls_key = cli_config.tls_key;
        }
        config
    }
}

} // verus!
