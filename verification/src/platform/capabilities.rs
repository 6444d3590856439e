//! What the desktop can do for the program.

use vstd::prelude::*;

verus! {

#[derive(Debug, Clone, Copy, PartialEq, Eq, Structural)]
pub struct PlatformCapabilities {
    pub screen_capture: bool,
    pub window_enumeration: bool,
    pub global_hotkeys: bool,
    pub overlay: bool,
    pub system_tray: bool,
    pub startup: bool,
    pub screenshot: bool,
}

/// Everything can be done.
pub open spec fn all_capabilities() -> PlatformCapabilities {
    PlatformCapabilities {
        screen_capture: true,
        window_enumeration: true,
        global_hotkeys: true,
        overlay: true,
        system_tray: true,
        startup: true,
        screenshot: true,
    }
}

impl Default for PlatformCapabilities {
    fn default() -> (r: Self)
        ensures
            r == all_capabilities(),
    {
        PlatformCapabilities {
            screen_capture: true,
            window_enumeration: true,
            global_hotkeys: true,
            overlay: true,
            system_tray: true,
            startup: true,
            screenshot: true,
        }
    }
}

/// A portal is taken to be there: a missing one shows when it is first used.
pub fn check_portal_available(_interface: &str) -> (r: bool)
    ensures
        r,
{
    true
}

/// What can be done here.
pub fn detect_capabilities() -> (r: PlatformCapabilities)
    ensures
        r == all_capabilities(),
{
    let mut caps = PlatformCapabilities::default();
    caps.screen_capture = check_portal_available("org.freedesktop.portal.ScreenCast");
    caps.window_enumeration = check_portal_available("org.freedesktop.portal.ScreenCast");
    caps.global_hotkeys = true;
    caps.overlay = true;
    caps.system_tray = check_portal_available("org.freedesktop.portal.StatusNotifier");
    caps
}

} // verus!
