use vstd::prelude::*;

verus! {

/// Connection state of the live memory watcher.
#[derive(Clone, Copy, Debug, PartialEq, Eq, Structural)]
pub enum AutoTrackerState {
    Idle,
    Connecting,
    Disconnected,
    Running,
}

/// What the watcher's loop hands to the decision function.
#[derive(Clone, Copy, Debug, PartialEq, Eq, Structural)]
pub enum TrackerEvent {
    /// The user asked to start tracking.
    Start,
    /// The user asked to stop tracking.
    Stop,
    /// The sampling timer fired.
    Tick,
    /// A connection attempt succeeded.
    Connected,
    /// A connection attempt failed.
    ConnectFailed,
    /// Memory was read and the scripts ran.
    Sampled,
    /// Reading memory or running the scripts failed.
    SampleFailed,
    /// Nobody can send commands any more.
    ControlClosed,
}

/// What the loop must do next.
#[derive(Clone, Copy, Debug, PartialEq, Eq, Structural)]
pub enum TrackerAction {
    Nothing,
    /// Open a connection to the device, then report `Connected` or `ConnectFailed`.
    Connect,
    /// Read the watched memory, run the scripts and report `Sampled` or `SampleFailed`.
    Sample,
    /// Drop the connection.
    Disconnect,
    /// Leave the loop.
    Exit,
}

/// The watcher's next state and action after `e` in state `s`.
pub open spec fn tracker_step(s: AutoTrackerState, e: TrackerEvent) -> (AutoTrackerState, TrackerAction) {
    match e {
        TrackerEvent::Start => (AutoTrackerState::Connecting, TrackerAction::Connect),
        TrackerEvent::Stop => (AutoTrackerState::Idle, TrackerAction::Disconnect),
        TrackerEvent::Tick => match s {
            AutoTrackerState::Running => (AutoTrackerState::Running, TrackerAction::Sample),
            AutoTrackerState::Disconnected => (AutoTrackerState::Connecting, TrackerAction::Connect),
            _ => (s, TrackerAction::Nothing),
        },
        TrackerEvent::Connected => if s == AutoTrackerState::Connecting {
            (AutoTrackerState::Running, TrackerAction::Nothing)
        } else {
            (s, TrackerAction::Disconnect)
        },
        TrackerEvent::ConnectFailed => if s == AutoTrackerState::Connecting {
            (AutoTrackerState::Disconnected, TrackerAction::Nothing)
        } else {
            (s, TrackerAction::Nothing)
        },
        TrackerEvent::Sampled => (s, TrackerAction::Nothing),
        TrackerEvent::SampleFailed => if s == AutoTrackerState::Running {
            (AutoTrackerState::Disconnected, TrackerAction::Disconnect)
        } else {
            (s, TrackerAction::Nothing)
        },
        TrackerEvent::ControlClosed => (s, TrackerAction::Exit),
    }
}

impl AutoTrackerState {
    /// Decides the next state and action of the watcher's loop.
    pub fn on_event(self, e: TrackerEvent) -> (r: (AutoTrackerState, TrackerAction))
        ensures
            r == tracker_step(self, e),
    {
        match e {
            TrackerEvent::Start => (AutoTrackerState::Connecting, TrackerAction::Connect),
            TrackerEvent::Stop => (AutoTrackerState::Idle, TrackerAction::Disconnect),
            TrackerEvent::Tick => match self {
                AutoTrackerState::Running => (AutoTrackerState::Running, TrackerAction::Sample),
                AutoTrackerState::Disconnected => (
                    AutoTrackerState::Connecting,
                    TrackerAction::Connect,
                ),
                _ => (self, TrackerAction::Nothing),
            },
            TrackerEvent::Connected => if self == AutoTrackerState::Connecting {
                (AutoTrackerState::Running, TrackerAction::Nothing)
            } else {
                (self, TrackerAction::Disconnect)
            },
            TrackerEvent::ConnectFailed => if self == AutoTrackerState::Connecting {
                (AutoTrackerState::Disconnected, TrackerAction::Nothing)
            } else {
                (self, TrackerAction::Nothing)
            },
            TrackerEvent::Sampled => (self, TrackerAction::Nothing),
            TrackerEvent::SampleFailed => if self == AutoTrackerState::Running {
                (AutoTrackerState::Disconnected, TrackerAction::Disconnect)
            } else {
                (self, TrackerAction::Nothing)
            },
            TrackerEvent::ControlClosed => (self, TrackerAction::Exit),
        }
    }
}

/// A block of memory read from the game, as the watch scripts see it.
#[derive(Clone, Debug, PartialEq, Eq)]
pub struct MemData {
    pub data: Vec<u8>,
}

/// The little-endian value of the `n` bytes of `b` from `off` on.
pub open spec fn le_value(b: Seq<u8>, off: int, n: nat) -> nat
    decreases n,
{
    if n == 0 {
        0
    } else {
        b[off] as nat + 256 * le_value(b, off + 1, (n - 1) as nat)
    }
}

/// The `n`-byte little-endian value at `off`, or zero where it does not fit.
pub open spec fn read_le(b: Seq<u8>, off: int, n: nat) -> nat {
    if off + n <= b.len() {
        le_value(b, off, n)
    } else {
        0
    }
}

impl MemData {
    pub fn get_u8(&self, offset: usize) -> (r: u8)
        ensures
            r as nat == read_le(self.data@, offset as int, 1),
    {
        if offset < self.data.len() {
            proof {
                reveal_with_fuel(le_value, 2);
            }
            self.data[offset]
        } else {
            0
        }
    }

    pub fn get_u16(&self, offset: usize) -> (r: u16)
        ensures
            r as nat == read_le(self.data@, offset as int, 2),
    {
        if offset < self.data.len() && self.data.len() - offset >= 2 {
            let b0 = self.data[offset] as u16;
            let b1 = self.data[offset + 1] as u16;
            proof {
                reveal_with_fuel(le_value, 3);
            }
            b0 + 256 * b1
        } else {
            0
        }
    }

    pub fn get_u24(&self, offset: usize) -> (r: u32)
        ensures
            r as nat == read_le(self.data@, offset as int, 3),
    {
        if offset < self.data.len() && self.data.len() - offset >= 3 {
            let b0 = self.data[offset] as u32;
            let b1 = self.data[offset + 1] as u32;
            let b2 = self.data[offset + 2] as u32;
            proof {
                reveal_with_fuel(le_value, 4);
            }
            b0 + 256 * (b1 + 256 * b2)
        } else {
            0
        }
    }

    pub fn get_u32(&self, offset: usize) -> (r: u32)
        ensures
            r as nat == read_le(self.data@, offset as int, 4),
    {
        if offset < self.data.len() && self.data.len() - offset >= 4 {
            let b0 = self.data[offset] as u32;
            let b1 = self.data[offset + 1] as u32;
            let b2 = self.data[offset + 2] as u32;
            let b3 = self.data[offset + 3] as u32;
            proof {
                reveal_with_fuel(le_value, 5);
            }
            b0 + 256 * (b1 + 256 * (b2 + 256 * b3))
        } else {
            0
        }
    }
}

} // verus!
