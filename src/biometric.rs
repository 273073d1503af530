use vstd::prelude::*;

verus! {

/// Settings of biometric unlocking.
#[derive(Debug, Clone)]
pub struct BiometricConfig {
    pub enabled: bool,
    pub platform: String,
    pub key_id: Option<String>,
}

impl BiometricConfig {
    /// The initial settings on a platform: disabled, with no stored key.
    pub fn for_platform(platform: &str) -> (r: BiometricConfig)
        ensures
            !r.enabled,
            r.platform@ == platform@,
            r.key_id is None,
    {
        BiometricConfig { enabled: false, platform: platform.to_owned(), key_id: None }
    }
}

/// Switches and platform checks for biometric unlocking.
pub struct BiometricManager;

impl BiometricManager {
    /// Turns biometric unlocking on.
    pub fn enable_biometric(config: &mut BiometricConfig)
        ensures
            final(config).enabled,
            final(config).platform == old(config).platform,
            final(config).key_id == old(config).key_id,
    {
        config.enabled = true;
    }

    /// Turns biometric unlocking off.
    pub fn disable_biometric(config: &mut BiometricConfig)
        ensures
            !final(config).enabled,
            final(config).platform == old(config).platform,
            final(config).key_id == old(config).key_id,
    {
        config.enabled = false;
    }

    /// Whether the operating system `os` (as `std::env::consts::OS` names it)
    /// offers biometric hardware support: Windows Hello and Touch ID do.
    pub fn is_available(os: &str) -> (r: bool)
        ensures
            r == (os@ == "windows"@ || os@ == "macos"@),
    {
        let name = os.to_owned();
        name == "windows".to_owned() || name == "macos".to_owned()
    }
}

} // verus!
