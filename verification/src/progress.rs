//! Installation progress codes.
//!
//! A host's `install_progress` is an integer drawn from a fixed ordered set.
//! The controller writes `RebootingToKickstart` and `Done`; the host-side
//! installer reports the remaining codes.

use vstd::prelude::*;

verus! {

/// The named stages of the installation workflow.
#[derive(Clone, Copy, PartialEq, Eq, Structural, Debug)]
pub enum Progress {
    /// Observed but not yet scheduled for installation.
    NotConfigured,
    /// The controller has staged a kickstart reboot.
    RebootingToKickstart,
    /// iPXE served; kickstart is running.
    KickstartLoaded,
    /// The kickstart `%pre` section completed.
    PreInstallFinished,
    /// The kickstart `%post` section completed.
    PostInstallFinished,
    /// Reboot into the installed system is imminent.
    InstallFinished,
    /// The host booted into the target system.
    RebootedToSystem,
    /// The production network is reachable.
    Done,
}

/// The integer codes that may appear as a host's `install_progress`.
pub open spec fn is_progress_code(c: int) -> bool {
    c == 0 || c == 5 || c == 10 || c == 20 || c == 60 || c == 80 || c == 85 || c == 100
}

impl Progress {
    /// The integer code this stage is stored as.
    pub open spec fn spec_code(self) -> int {
        match self {
            Progress::NotConfigured => 0,
            Progress::RebootingToKickstart => 5,
            Progress::KickstartLoaded => 10,
            Progress::PreInstallFinished => 20,
            Progress::PostInstallFinished => 60,
            Progress::InstallFinished => 80,
            Progress::RebootedToSystem => 85,
            Progress::Done => 100,
        }
    }

    /// The integer code this stage is stored as.
    pub fn code(self) -> (c: i32)
        ensures
            c == self.spec_code(),
            is_progress_code(c as int),
    {
        match self {
            Progress::NotConfigured => 0,
            Progress::RebootingToKickstart => 5,
            Progress::KickstartLoaded => 10,
            Progress::PreInstallFinished => 20,
            Progress::PostInstallFinished => 60,
            Progress::InstallFinished => 80,
            Progress::RebootedToSystem => 85,
            Progress::Done => 100,
        }
    }

    /// Decode an integer code; unknown codes are rejected.
    pub fn from_code(c: i32) -> (p: Option<Progress>)
        ensures
            p is Some <==> is_progress_code(c as int),
            p is Some ==> p->Some_0.spec_code() == c as int,
    {
        match c {
            0 => Some(Progress::NotConfigured),
            5 => Some(Progress::RebootingToKickstart),
            10 => Some(Progress::KickstartLoaded),
            20 => Some(Progress::PreInstallFinished),
            60 => Some(Progress::PostInstallFinished),
            80 => Some(Progress::InstallFinished),
            85 => Some(Progress::RebootedToSystem),
            100 => Some(Progress::Done),
            _ => None,
        }
    }
}

} // verus!
