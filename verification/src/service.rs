//! The daemon as a Windows service: how it reacts to what the service control manager
//! asks, and how it is taken down.

use vstd::prelude::*;

verus! {

/// Name under which the service is registered.
pub const SERVICE_NAME: &'static str = "needled";

/// Name under which the service is shown.
pub const DISPLAY_NAME: &'static str = "needle file-search daemon";

/// What is said of the service.
pub const DESCRIPTION: &'static str =
    "Ultra-fast whole-machine NTFS filename search (MFT + USN) for AI agents.";

/// How often a service that was told to stop is asked whether it has.
pub const STOP_POLLS: u32 = 20;

/// Pause before each time it is asked.
pub const STOP_PAUSE_MS: u64 = 100;

/// What the service control manager asks of the service.
#[derive(Clone, Copy)]
pub enum Control {
    Stop,
    Shutdown,
    Interrogate,
    Other,
}

/// How the service reacts.
#[derive(Clone, Copy)]
pub struct Reaction {
    /// The daemon is to end.
    pub ends: bool,
    /// The request is one that the service knows.
    pub known: bool,
}

/// How the service reacts to a request.
pub fn react(control: Control) -> (reaction: Reaction)
    ensures
        reaction.ends <==> control is Stop || control is Shutdown,
        reaction.known <==> !(control is Other),
{
    match control {
        Control::Stop | Control::Shutdown => Reaction { ends: true, known: true },
        Control::Interrogate => Reaction { ends: false, known: true },
        Control::Other => Reaction { ends: false, known: false },
    }
}

/// What is known of a service's state.
#[derive(Clone, Copy)]
pub enum Status {
    Stopped,
    /// It is in another state.
    Active,
    /// It could not be asked.
    Unknown,
}

/// What is to be done next to remove the service.
#[derive(Clone, Copy)]
pub enum Removal {
    /// Tell it to stop, whatever comes of that, and go on as with `Poll`.
    Stop { pause_ms: u64 },
    /// Ask for its state after the pause.
    Poll { pause_ms: u64 },
    /// Delete it.
    Delete,
}

/// A service on its way out.
pub struct Uninstall {
    /// How often it may still be asked whether it has stopped.
    pub polls_left: u32,
}

impl Uninstall {
    /// Begins with the state that the service is in. Only one that is known to be
    /// active is told to stop.
    pub fn begin(status: Status) -> (r: (Self, Removal))
        ensures
            status is Active ==> r.0.polls_left == STOP_POLLS && r.1 == (Removal::Stop {
                pause_ms: STOP_PAUSE_MS,
            }),
            !(status is Active) ==> r.0.polls_left == 0 && r.1 == Removal::Delete,
    {
        match status {
            Status::Active => (
                Uninstall { polls_left: STOP_POLLS },
                Removal::Stop { pause_ms: STOP_PAUSE_MS },
            ),
            _ => (Uninstall { polls_left: 0 }, Removal::Delete),
        }
    }

    /// Goes on with the state that the service is in now. It is deleted once it has
    /// stopped, or was asked often enough.
    pub fn polled(&mut self, status: Status) -> (next: Removal)
        ensures
            final(self).polls_left == (if old(self).polls_left > 0 {
                (old(self).polls_left - 1) as u32
            } else {
                0
            }),
            next == (if status is Stopped || final(self).polls_left == 0 {
                Removal::Delete
            } else {
                Removal::Poll { pause_ms: STOP_PAUSE_MS }
            }),
    {
        if self.polls_left > 0 {
            self.polls_left -= 1;
        }
        match status {
            Status::Stopped => Removal::Delete,
            _ => if self.polls_left == 0 {
                Removal::Delete
            } else {
                Removal::Poll { pause_ms: STOP_PAUSE_MS }
            },
        }
    }
}

} // verus!
