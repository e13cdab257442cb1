//! The boundary validation that gates the pipeline: a run with no input at
//! all, an offline run with only requested identifiers and no local keyring,
//! or online mode combined with unlimited (depth 0) gossip is rejected
//! before any fetching or building starts.
use vstd::prelude::*;

verus! {

/// The run options the boundary hands to the pipeline.
#[derive(Debug, Clone, Copy, PartialEq, Eq, Structural)]
pub struct RunConfig {
    /// The gossip depth limit, when gossip is requested; 0 means unlimited.
    pub gossip: Option<u8>,
    /// Whether keys are fetched from the keyserver.
    pub online: bool,
    /// Whether a local keyring was supplied.
    pub has_import: bool,
    /// Whether explicit key ids were supplied.
    pub has_fingerprints: bool,
    /// Whether only primary identities are shown.
    pub show_primary_uid_only: bool,
    /// Whether self-signatures are shown.
    pub show_self_sigs: bool,
    /// Whether labels are plain text instead of JSON.
    pub simple: bool,
}

/// Why a run is rejected before it starts.
#[derive(Debug, Clone, Copy, PartialEq, Eq, Structural)]
pub enum ConfigError {
    /// Online mode combined with a gossip depth limit of 0: an adversarial
    /// trust graph could make the walk unbounded.
    UnlimitedOnlineGossip,
    /// Neither a keyring nor an explicit key id was supplied.
    NoInput,
    /// Explicit key ids without a keyring in offline mode: nothing could
    /// ever be fetched or imported.
    OfflineWithoutKeyring,
}

impl ConfigError {
    /// The diagnostic the run fails with.
    pub fn describe(&self) -> (r: String)
        ensures
            r@ == match self {
                ConfigError::UnlimitedOnlineGossip => "Online mode is not allowed with depth limit 0"@,
                ConfigError::NoInput => "No input found, please consider provide at least one of keyring or fingerprint."@,
                ConfigError::OfflineWithoutKeyring => "Offline mode is not allowed without keyring"@,
            },
    {
        match self {
            ConfigError::UnlimitedOnlineGossip => String::from_str(
                "Online mode is not allowed with depth limit 0",
            ),
            ConfigError::NoInput => String::from_str(
                "No input found, please consider provide at least one of keyring or fingerprint.",
            ),
            ConfigError::OfflineWithoutKeyring => String::from_str(
                "Offline mode is not allowed without keyring",
            ),
        }
    }
}

/// Checks the run options in the boundary's order: unlimited online gossip
/// first, then missing input, then offline mode without a keyring. The run
/// proceeds exactly when none of the three holds.
pub fn validate_config(cfg: &RunConfig) -> (r: Result<(), ConfigError>)
    ensures
        match r {
            Ok(_) => {
                &&& !(cfg.gossip == Some(0u8) && cfg.online)
                &&& (cfg.has_import || cfg.has_fingerprints)
                &&& !(cfg.has_fingerprints && !cfg.has_import && !cfg.online)
            },
            Err(e) => match e {
                ConfigError::UnlimitedOnlineGossip => cfg.gossip == Some(0u8) && cfg.online,
                ConfigError::NoInput => {
                    &&& !(cfg.gossip == Some(0u8) && cfg.online)
                    &&& !cfg.has_import
                    &&& !cfg.has_fingerprints
                },
                ConfigError::OfflineWithoutKeyring => {
                    &&& !(cfg.gossip == Some(0u8) && cfg.online)
                    &&& (cfg.has_import || cfg.has_fingerprints)
                    &&& cfg.has_fingerprints
                    &&& !cfg.has_import
                    &&& !cfg.online
                },
            },
        },
{
    let unlimited_online = match cfg.gossip {
        Some(d) => d == 0 && cfg.online,
        None => false,
    };
    if unlimited_online {
        return Err(ConfigError::UnlimitedOnlineGossip);
    }
    if !cfg.has_import && !cfg.has_fingerprints {
        return Err(ConfigError::NoInput);
    }
    if cfg.has_fingerprints && !cfg.has_import && !cfg.online {
        return Err(ConfigError::OfflineWithoutKeyring);
    }
    Ok(())
}

} // verus!
