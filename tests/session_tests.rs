use hiho::{AutoLockConfig, AutoLockManager, BiometricConfig, BiometricManager, SessionManager, SessionMarkers, Vault, VaultError};

#[test]
fn default_timeout_is_ten_minutes() {
    assert_eq!(AutoLockConfig::default().timeout_minutes, Some(10));
    let mut c = AutoLockConfig::default();
    AutoLockManager::set_timeout(&mut c, None);
    assert_eq!(c.timeout_minutes, None);
}

#[test]
fn should_lock_only_after_timeout() {
    let config = AutoLockConfig { timeout_minutes: Some(10) };
    let mut m = SessionMarkers::unlocked();
    assert_eq!(AutoLockManager::should_lock(&config, &m, 1_000), Ok(false));
    AutoLockManager::update_activity(&config, &mut m, 1_000);
    assert_eq!(m.last_activity, Some(1_000));
    assert_eq!(AutoLockManager::should_lock(&config, &m, 1_000), Ok(false));
    assert_eq!(AutoLockManager::should_lock(&config, &m, 1_600), Ok(false));
    assert_eq!(AutoLockManager::should_lock(&config, &m, 1_601), Ok(true));
    AutoLockManager::update_activity(&config, &mut m, 1_500);
    assert_eq!(AutoLockManager::should_lock(&config, &m, 1_601), Ok(false));
    assert_eq!(AutoLockManager::should_lock(&config, &m, 999), Err(VaultError::SessionLockIoError));
}

#[test]
fn should_lock_never_when_disabled() {
    let config = AutoLockConfig { timeout_minutes: None };
    let mut m = SessionMarkers { locked: false, last_activity: Some(0) };
    AutoLockManager::update_activity(&config, &mut m, 5);
    assert_eq!(m.last_activity, Some(0));
    assert_eq!(AutoLockManager::should_lock(&config, &m, u64::MAX), Ok(false));
}

#[test]
fn huge_timeout_does_not_overflow() {
    let config = AutoLockConfig { timeout_minutes: Some(u64::MAX) };
    let m = SessionMarkers { locked: false, last_activity: Some(0) };
    assert_eq!(AutoLockManager::should_lock(&config, &m, u64::MAX), Ok(false));
}

#[test]
fn lock_and_unlock_markers() {
    let mut m = SessionMarkers { locked: false, last_activity: Some(42) };
    assert!(!AutoLockManager::is_locked(&m));
    AutoLockManager::lock_session(&mut m);
    assert!(AutoLockManager::is_locked(&m));
    assert!(SessionManager::is_locked(&m));
    assert_eq!(m.last_activity, None);
    AutoLockManager::unlock_session(&mut m);
    assert!(!SessionManager::is_locked(&m));
}

#[test]
fn unlock_requires_the_vault_password() {
    let mut v = Vault::new("Tr0ub4dor&3").unwrap();
    v.add_entry(hiho::Entry::new("email", "a@b.com", "xyz"));
    let bytes = v.save_to_bytes().unwrap();
    let mut m = SessionMarkers { locked: true, last_activity: None };
    assert_eq!(AutoLockManager::unlock(&mut m, "Tr0ub4dor&3", Some(&bytes)), Ok(()));
    assert!(!m.locked);
}

#[test]
fn unlock_with_a_wrong_password_stays_locked() {
    let mut v = Vault::new("Tr0ub4dor&3").unwrap();
    v.add_entry(hiho::Entry::new("email", "a@b.com", "xyz"));
    let bytes = v.save_to_bytes().unwrap();
    let mut m = SessionMarkers { locked: true, last_activity: None };
    assert!(AutoLockManager::unlock(&mut m, "wrong", Some(&bytes)).is_err());
    assert!(m.locked);
}

#[test]
fn unlock_without_a_vault_file_succeeds() {
    let mut m = SessionMarkers { locked: true, last_activity: Some(3) };
    assert_eq!(AutoLockManager::unlock(&mut m, "anything", None), Ok(()));
    assert_eq!(m, SessionMarkers { locked: false, last_activity: Some(3) });
}

#[test]
fn biometric_settings() {
    let mut c = BiometricConfig::for_platform("linux");
    assert!(!c.enabled);
    assert_eq!(c.platform, "linux");
    BiometricManager::enable_biometric(&mut c);
    assert!(c.enabled);
    BiometricManager::disable_biometric(&mut c);
    assert!(!c.enabled);
    assert!(BiometricManager::is_available("windows"));
    assert!(BiometricManager::is_available("macos"));
    assert!(!BiometricManager::is_available("linux"));
}
