use crate::error::VaultError;
use crate::session::{SessionManager, SessionMarkers};
use crate::vault::{opened_entries, Vault, VAULT_SALT};
use crate::crypto::derived_key;
use vstd::prelude::*;

verus! {

/// The idle timeout a fresh configuration has, in minutes.
pub const DEFAULT_TIMEOUT_MINUTES: u64 = 10;

/// The auto-lock configuration: the idle timeout in minutes, or `None`
/// where auto-lock is disabled.
#[derive(Debug, Clone, Copy, PartialEq, Eq, Structural)]
pub struct AutoLockConfig {
    pub timeout_minutes: Option<u64>,
}

impl Default for AutoLockConfig {
    fn default() -> (r: Self)
        ensures
            r.timeout_minutes == Some(DEFAULT_TIMEOUT_MINUTES),
    {
        AutoLockConfig { timeout_minutes: Some(DEFAULT_TIMEOUT_MINUTES) }
    }
}

/// The markers after an activity at time `now`: the activity time is
/// recorded where auto-lock is enabled, and nothing changes otherwise.
pub open spec fn after_activity(timeout_minutes: Option<u64>, markers: SessionMarkers, now: u64) -> SessionMarkers {
    match timeout_minutes {
        Some(_) => SessionMarkers { locked: markers.locked, last_activity: Some(now) },
        None => markers,
    }
}

/// Whether the session is due to lock at time `now`: never with auto-lock
/// disabled or no recorded activity; otherwise exactly when more than the
/// timeout, in seconds, has passed since the last activity. An activity time
/// later than `now` cannot be judged and is a marker failure.
pub open spec fn lock_due(timeout_minutes: Option<u64>, last_activity: Option<u64>, now: u64) -> Result<bool, VaultError> {
    match timeout_minutes {
        None => Ok(false),
        Some(t) => match last_activity {
            None => Ok(false),
            Some(a) => if now < a {
                Err(VaultError::SessionLockIoError)
            } else {
                Ok(now - a > t * 60)
            },
        },
    }
}

/// Unlocking with `password` succeeds where its key derives and, with a
/// vault file present, opens that file.
pub open spec fn unlock_allowed(password: Seq<char>, vault_file: Option<Seq<u8>>) -> Result<(), VaultError> {
    match derived_key(password, VAULT_SALT@) {
        None => Err(VaultError::KeyDerivationError),
        Some(k) => match vault_file {
            None => Ok(()),
            Some(b) => match opened_entries(k, b) {
                Ok(_) => Ok(()),
                Err(e) => Err(e),
            },
        },
    }
}

/// The idle-timeout session lock. Every decision is taken on the markers as
/// read by the caller, who writes back the markers it is handed.
pub struct AutoLockManager;

impl AutoLockManager {
    /// Sets the idle timeout; `None` disables auto-lock.
    pub fn set_timeout(config: &mut AutoLockConfig, minutes: Option<u64>)
        ensures
            final(config).timeout_minutes == minutes,
    {
        config.timeout_minutes = minutes;
    }

    /// Records an activity at time `now` where auto-lock is enabled.
    pub fn update_activity(config: &AutoLockConfig, markers: &mut SessionMarkers, now: u64)
        ensures
            *final(markers) == after_activity(config.timeout_minutes, *old(markers), now),
    {
        if config.timeout_minutes.is_some() {
            markers.last_activity = Some(now);
        }
    }

    /// Whether the session has been idle for longer than the timeout at time `now`.
    pub fn should_lock(config: &AutoLockConfig, markers: &SessionMarkers, now: u64) -> (r: Result<bool, VaultError>)
        ensures
            r == lock_due(config.timeout_minutes, markers.last_activity, now),
    {
        let t = match config.timeout_minutes {
            None => return Ok(false),
            Some(t) => t,
        };
        let a = match markers.last_activity {
            None => return Ok(false),
            Some(a) => a,
        };
        if now < a {
            return Err(VaultError::SessionLockIoError);
        }
        let elapsed = now - a;
        if t > u64::MAX / 60 {
            assert(t * 60 > u64::MAX) by (nonlinear_arith)
                requires
                    t > u64::MAX / 60,
            ;
            Ok(false)
        } else {
            assert(t * 60 <= u64::MAX) by (nonlinear_arith)
                requires
                    t <= u64::MAX / 60,
            ;
            Ok(elapsed > t * 60)
        }
    }

    /// Whether the lock marker is present.
    pub fn is_locked(markers: &SessionMarkers) -> (r: bool)
        ensures
            r == markers.locked,
    {
        SessionManager::is_locked(markers)
    }

    /// Locks the session: sets the lock marker and drops the activity marker,
    /// so that the idle clock stops while locked.
    pub fn lock_session(markers: &mut SessionMarkers)
        ensures
            final(markers).locked,
            final(markers).last_activity is None,
    {
        markers.locked = true;
        markers.last_activity = None;
    }

    /// Removes the lock marker without any check.
    pub fn unlock_session(markers: &mut SessionMarkers)
        ensures
            !final(markers).locked,
            final(markers).last_activity == old(markers).last_activity,
    {
        SessionManager::unlock_session(markers)
    }

    /// Unlocks the session after re-validating the master password against
    /// the vault file's contents (`None` where no vault file exists). On
    /// failure the markers stay as they were.
    pub fn unlock(markers: &mut SessionMarkers, password: &str, vault_file: Option<&[u8]>) -> (r: Result<(), VaultError>)
        ensures
            r == unlock_allowed(password@, match vault_file {
                Some(b) => Some(b@),
                None => None,
            }),
            r is Ok ==> !final(markers).locked && final(markers).last_activity == old(markers).last_activity,
            r is Err ==> *final(markers) == *old(markers),
    {
        let mut vault = match Vault::new(password) {
            Ok(v) => v,
            Err(e) => return Err(e),
        };
        match vault.load_from_bytes(vault_file) {
            Ok(()) => {
                SessionManager::unlock_session(markers);
                Ok(())
            },
            Err(e) => Err(e),
        }
    }
}

/// After an activity the session is not due to lock; later it becomes due
/// exactly when more than the timeout has passed with no further activity;
/// with auto-lock disabled it is never due.
pub proof fn lemma_activity_resets_idle_clock(
    timeout_minutes: Option<u64>,
    markers: SessionMarkers,
    now: u64,
    later: u64,
)
    requires
        now <= later,
    ensures
        lock_due(timeout_minutes, after_activity(timeout_minutes, markers, now).last_activity, now) == Ok::<bool, VaultError>(false),
        lock_due(timeout_minutes, after_activity(timeout_minutes, markers, now).last_activity, later) == Ok::<bool, VaultError>(
            match timeout_minutes {
                Some(t) => later - now > t * 60,
                None => false,
            },
        ),
        timeout_minutes is None ==> forall|last: Option<u64>, t: u64| lock_due(timeout_minutes, last, t) == Ok::<bool, VaultError>(false),
{
}

} // verus!
