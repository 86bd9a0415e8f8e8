//! Overlay interface decisions: the click-through flag and the debouncing of
//! global shortcuts.
//!
//! The window work itself — applying cursor-event settings, hiding or showing
//! — is the caller's task; this module only decides. Times are milliseconds of
//! whatever monotonic clock the caller reads.

use vstd::prelude::*;

verus! {

/// A shortcut is accepted only when strictly more than this many milliseconds
/// have passed since the last accepted one.
pub const SHORTCUT_DEBOUNCE_MILLIS: u64 = 200;

/// Shared interface state: whether clicks pass through the overlay, and when
/// a global shortcut last took effect.
pub struct InterfaceState {
    click_through: bool,
    last_shortcut_millis: u64,
}

impl InterfaceState {
    /// True while clicks pass through the overlay to whatever lies under it.
    pub closed spec fn clicks_pass_through(self) -> bool {
        self.click_through
    }

    /// When a shortcut was last accepted.
    pub closed spec fn last_accepted(self) -> u64 {
        self.last_shortcut_millis
    }

    /// The initial state: clicks pass through, and the clock reading at
    /// creation counts as the last accepted shortcut.
    pub fn new(now: u64) -> (r: Self)
        ensures
            r.clicks_pass_through() == true,
            r.last_accepted() == now,
    {
        InterfaceState { click_through: true, last_shortcut_millis: now }
    }

    /// The current click-through setting.
    pub fn click_through_enabled(&self) -> (r: bool)
        ensures
            r == self.clicks_pass_through(),
    {
        self.click_through
    }

    /// Decide whether a global shortcut fires: it is accepted exactly when
    /// the debounce window has passed since the last accepted one — a clock
    /// reading from the past counts as no time passed — and acceptance
    /// records the new time.
    pub fn accept_shortcut(&mut self, now: u64) -> (accepted: bool)
        ensures
            accepted == (now - old(self).last_accepted() > SHORTCUT_DEBOUNCE_MILLIS),
            accepted ==> final(self).last_accepted() == now,
            accepted ==> final(self).clicks_pass_through() == old(self).clicks_pass_through(),
            !accepted ==> *final(self) == *old(self),
    {
        if now > self.last_shortcut_millis && now - self.last_shortcut_millis
            > SHORTCUT_DEBOUNCE_MILLIS {
            self.last_shortcut_millis = now;
            true
        } else {
            false
        }
    }

    /// Flip the click-through flag, returning the setting the caller must now
    /// apply to the window.
    pub fn toggle_click_through(&mut self) -> (enabled: bool)
        ensures
            enabled == !old(self).clicks_pass_through(),
            final(self).clicks_pass_through() == enabled,
            final(self).last_accepted() == old(self).last_accepted(),
    {
        self.click_through = !self.click_through;
        self.click_through
    }

    /// Record a click-through setting chosen directly by the caller.
    pub fn set_click_through(&mut self, enable: bool)
        ensures
            final(self).clicks_pass_through() == enable,
            final(self).last_accepted() == old(self).last_accepted(),
    {
        self.click_through = enable;
    }
}

} // verus!
