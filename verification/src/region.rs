//! Capture-region geometry and switching between the two capture regions.

use vstd::prelude::*;

verus! {

/// Capture region geometry in physical pixels.
#[derive(Debug, Clone, Copy, PartialEq, Eq, Structural)]
pub struct MonitorRect {
    pub top: i32,
    pub left: i32,
    pub width: u32,
    pub height: u32,
}

impl Default for MonitorRect {
    fn default() -> (r: Self)
        ensures
            r == (MonitorRect { top: 900, left: 375, width: 1170, height: 120 }),
    {
        MonitorRect { top: 900, left: 375, width: 1170, height: 120 }
    }
}

/// The geometry settings of the two capture regions.
#[derive(Debug, Clone, Copy, PartialEq, Eq)]
pub struct CaptureGeometry {
    pub monitor: MonitorRect,
    pub monitor2_enabled: bool,
    pub monitor2_top: i32,
    pub monitor2_left: i32,
    pub monitor2_width: u32,
    pub monitor2_height: u32,
}

impl CaptureGeometry {
    /// The second region as a rectangle.
    pub open spec fn monitor2_rect(&self) -> MonitorRect {
        MonitorRect {
            top: self.monitor2_top,
            left: self.monitor2_left,
            width: self.monitor2_width,
            height: self.monitor2_height,
        }
    }

    /// The region selected by `active_monitor` (2 picks the second region when
    /// it is enabled; anything else picks the first).
    pub fn get_active_monitor(&self, active_monitor: u8) -> (r: MonitorRect)
        ensures
            r == (if self.monitor2_enabled && active_monitor == 2 {
                self.monitor2_rect()
            } else {
                self.monitor
            }),
    {
        if self.monitor2_enabled && active_monitor == 2 {
            MonitorRect {
                top: self.monitor2_top,
                left: self.monitor2_left,
                width: self.monitor2_width,
                height: self.monitor2_height,
            }
        } else {
            self.monitor
        }
    }
}

/// Active capture region selector.
#[derive(Debug, Clone, Copy, PartialEq, Eq, Structural)]
pub enum ActiveRegion {
    /// Primary region
    Monitor1,
    /// Secondary region (monitor2)
    Monitor2,
}

/// Switches between the two capture regions.  The second region can only be
/// active while it is enabled.
#[derive(Debug, Clone, Copy)]
pub struct RegionManager {
    active_region: ActiveRegion,
    monitor2_enabled: bool,
}

pub open spec fn region_toggled(r: ActiveRegion) -> ActiveRegion {
    match r {
        ActiveRegion::Monitor1 => ActiveRegion::Monitor2,
        ActiveRegion::Monitor2 => ActiveRegion::Monitor1,
    }
}

impl RegionManager {
    #[verifier::type_invariant]
    spec fn inv(&self) -> bool {
        self.active_region == ActiveRegion::Monitor2 ==> self.monitor2_enabled
    }

    pub closed spec fn active(&self) -> ActiveRegion {
        self.active_region
    }

    pub closed spec fn enabled2(&self) -> bool {
        self.monitor2_enabled
    }

    /// Creates a manager on the first region.
    pub fn new(monitor2_enabled: bool) -> (m: Self)
        ensures
            m.active() == ActiveRegion::Monitor1,
            m.enabled2() == monitor2_enabled,
    {
        RegionManager { active_region: ActiveRegion::Monitor1, monitor2_enabled }
    }

    /// The active region; the second region is only ever active while it is
    /// enabled.
    pub fn active_region(&self) -> (r: ActiveRegion)
        ensures
            r == self.active(),
            r == ActiveRegion::Monitor2 ==> self.enabled2(),
    {
        proof {
            use_type_invariant(self);
        }
        self.active_region
    }

    /// Whether the second region is enabled.
    pub fn is_monitor2_enabled(&self) -> (b: bool)
        ensures
            b == self.enabled2(),
    {
        self.monitor2_enabled
    }

    /// Enables or disables the second region; disabling it while active
    /// switches back to the first.
    pub fn set_monitor2_enabled(&mut self, enabled: bool)
        ensures
            final(self).enabled2() == enabled,
            final(self).active() == (if !enabled && old(self).active() == ActiveRegion::Monitor2 {
                ActiveRegion::Monitor1
            } else {
                old(self).active()
            }),
    {
        proof {
            use_type_invariant(&*self);
        }
        let next = if !enabled && self.active_region == ActiveRegion::Monitor2 {
            ActiveRegion::Monitor1
        } else {
            self.active_region
        };
        *self = RegionManager { active_region: next, monitor2_enabled: enabled };
    }

    /// Switches to `region`; refused for the second region while it is
    /// disabled (the state is then unchanged).
    pub fn switch_to(&mut self, region: ActiveRegion) -> (r: Result<(), String>)
        ensures
            (region == ActiveRegion::Monitor2 && !old(self).enabled2()) <==> r is Err,
            r is Err ==> final(self).active() == old(self).active(),
            r is Ok ==> final(self).active() == region,
            final(self).enabled2() == old(self).enabled2(),
    {
        proof {
            use_type_invariant(&*self);
        }
        if region == ActiveRegion::Monitor2 && !self.monitor2_enabled {
            return Err("Cannot switch to Monitor2: it is not enabled".to_owned());
        }
        *self = RegionManager { active_region: region, monitor2_enabled: self.monitor2_enabled };
        Ok(())
    }

    /// Toggles between the regions; refused while the second is disabled.
    pub fn toggle(&mut self) -> (r: Result<ActiveRegion, String>)
        ensures
            !old(self).enabled2() <==> r is Err,
            r is Err ==> final(self).active() == old(self).active(),
            r matches Ok(a) ==> a == region_toggled(old(self).active()) && final(self).active() == a,
            final(self).enabled2() == old(self).enabled2(),
    {
        proof {
            use_type_invariant(&*self);
        }
        if !self.monitor2_enabled {
            return Err("Cannot toggle: Monitor2 is not enabled".to_owned());
        }
        let next = match self.active_region {
            ActiveRegion::Monitor1 => ActiveRegion::Monitor2,
            ActiveRegion::Monitor2 => ActiveRegion::Monitor1,
        };
        *self = RegionManager { active_region: next, monitor2_enabled: self.monitor2_enabled };
        Ok(next)
    }

    /// The rectangle of the active region.
    pub fn get_active_rect(&self, geometry: &CaptureGeometry) -> (r: MonitorRect)
        ensures
            r == (match self.active() {
                ActiveRegion::Monitor1 => geometry.monitor,
                ActiveRegion::Monitor2 => geometry.monitor2_rect(),
            }),
    {
        match self.active_region {
            ActiveRegion::Monitor1 => geometry.monitor,
            ActiveRegion::Monitor2 => MonitorRect {
                top: geometry.monitor2_top,
                left: geometry.monitor2_left,
                width: geometry.monitor2_width,
                height: geometry.monitor2_height,
            },
        }
    }

    /// Back to the first region.
    pub fn reset(&mut self)
        ensures
            final(self).active() == ActiveRegion::Monitor1,
            final(self).enabled2() == old(self).enabled2(),
    {
        *self = RegionManager { active_region: ActiveRegion::Monitor1, monitor2_enabled: self.monitor2_enabled };
    }
}

/// Toggling twice returns to the region one started from.
pub proof fn lemma_toggle_twice(r: ActiveRegion)
    ensures
        region_toggled(region_toggled(r)) == r,
{
}

} // verus!
