//! Settings of one mirrored image and the fixed parameters of the store.

use vstd::prelude::*;

verus! {

/// Size in bytes of one logical block of an image.
pub const LOG_BLOCK_SIZE: usize = 262144;

/// Width in bytes of a block digest.
pub const HASH_SIZE: usize = 32;

/// Port used when the configuration names none.
pub const DEFAULT_SSH_PORT: u16 = 22;

pub struct BackupConfig {
    pub remote: BackupRemoteConfig,
    pub local: BackupLocalConfig,
}

pub struct BackupRemoteConfig {
    /// Remote address.
    pub server: String,
    /// SSH port number. Defaults to 22.
    pub port: Option<u16>,
    /// SSH username.
    pub user: String,
    /// Path to SSH private key. Agent auth is used if this is empty.
    pub key: Option<String>,
    /// Remote image path.
    pub image: String,
    /// Host verification method.
    pub verify: HostVerification,
    /// Scripts.
    pub scripts: Option<BackupRemoteScripts>,
}

pub struct BackupRemoteScripts {
    pub no_pull_lock: Option<bool>,
    pub pre_pull: Option<String>,
    pub post_pull: Option<String>,
}

#[derive(Clone, Copy, Debug, PartialEq, Eq, Structural)]
pub enum HostVerification {
    Insecure,
    Known,
    Dnssec,
}

impl Default for HostVerification {
    fn default() -> (r: Self)
        ensures
            r == HostVerification::Known,
    {
        HostVerification::Known
    }
}

pub struct BackupLocalConfig {
    /// Local database path.
    pub db: String,
    /// Local pull lock path.
    pub pull_lock: Option<String>,
}

impl BackupRemoteConfig {
    /// The port to connect to: the configured one, or 22.
    pub fn port_or_default(&self) -> (r: u16)
        ensures
            r == (match self.port {
                Some(p) => p,
                None => DEFAULT_SSH_PORT,
            }),
    {
        match self.port {
            Some(p) => p,
            None => DEFAULT_SSH_PORT,
        }
    }
}

impl BackupConfig {
    /// Scripts run on the remote must not race with a second pull, so a
    /// configuration with scripts needs a lock path unless it waives the lock.
    pub open spec fn lock_missing(&self) -> bool {
        &&& self.remote.scripts is Some
        &&& self.remote.scripts.unwrap().no_pull_lock != Some(true)
        &&& self.local.pull_lock is None
    }

    /// Whether this configuration asks for scripts without naming a pull lock.
    pub fn pull_lock_missing(&self) -> (r: bool)
        ensures
            r == self.lock_missing(),
    {
        match &self.remote.scripts {
            Some(scripts) => {
                let waived = match scripts.no_pull_lock {
                    Some(b) => b,
                    None => false,
                };
                !waived && self.local.pull_lock.is_none()
            },
            None => false,
        }
    }
}

} // verus!
