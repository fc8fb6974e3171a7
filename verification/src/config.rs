//! Preferences of the daemon that outlive it.

use vstd::prelude::*;

verus! {

/// Preferences of the daemon.
#[derive(Debug)]
pub struct DaemonConfig {
    /// Preferred interface for shaping. Where there is none, the interface of the
    /// default route is taken.
    pub interface: Option<String>,
}

impl Default for DaemonConfig {
    fn default() -> (r: DaemonConfig)
        ensures
            r.interface is None,
    {
        DaemonConfig { interface: None }
    }
}

impl DaemonConfig {
    /// Preferences that name an interface.
    pub fn with_interface(name: &str) -> (r: DaemonConfig)
        ensures
            r.interface is Some,
            r.interface->0@ == name@,
    {
        DaemonConfig { interface: Some(name.to_string()) }
    }

    /// The interface to shape, given that of the default route, if there is one.
    pub fn shaping_interface(self, detected: Option<String>) -> (r: Option<String>)
        ensures
            r == match self.interface {
                Some(name) => Some(name),
                None => detected,
            },
    {
        match self.interface {
            Some(name) => Some(name),
            None => detected,
        }
    }
}

} // verus!
