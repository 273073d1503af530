use vstd::prelude::*;

verus! {

/// What the two session markers hold: whether the lock marker is present,
/// and the last-modified time (seconds since the Unix epoch) of the activity
/// marker where that one is present.
#[derive(Debug, Clone, Copy, PartialEq, Eq, Structural)]
pub struct SessionMarkers {
    pub locked: bool,
    pub last_activity: Option<u64>,
}

impl SessionMarkers {
    /// No marker present: the session is unlocked and no activity is recorded.
    pub fn unlocked() -> (r: SessionMarkers)
        ensures
            !r.locked,
            r.last_activity is None,
    {
        SessionMarkers { locked: false, last_activity: None }
    }
}

/// The process-wide lock flag, kept as the presence of the lock marker.
pub struct SessionManager;

impl SessionManager {
    /// Whether the lock marker is present.
    pub fn is_locked(markers: &SessionMarkers) -> (r: bool)
        ensures
            r == markers.locked,
    {
        markers.locked
    }

    /// Removes the lock marker; the activity marker is left alone.
    pub fn unlock_session(markers: &mut SessionMarkers)
        ensures
            !final(markers).locked,
            final(markers).last_activity == old(markers).last_activity,
    {
        markers.locked = false;
    }
}

} // verus!
