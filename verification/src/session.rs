//! Per-connection role state machine.
//!
//! A connection starts unidentified, becomes a camera or a dispatcher on its
//! first identification, and keeps that role until it closes.  Every inbound
//! message is answered by one [`Step`]: the next state, whether a heartbeat
//! schedule is now running, and the one action the connection must take.  A
//! [`SessionAction::Reject`] step is the uniform protocol-violation rule:
//! send exactly one error frame, then close the connection.

use vstd::prelude::*;
use vstd::string::StringSliceAdditionalSpecFns;
use crate::codec::ClientMessage;
use crate::codec::ClientMsgV;
use crate::codec::DispatcherV;
use crate::codec::Error;
use crate::codec::IAmCamera;
use crate::codec::IAmDispatcher;
use crate::codec::PlateV;

verus! {

/// A connection's role: fixed at first identification.
#[derive(Clone, Debug)]
pub enum ClientState {
    Camera { state: IAmCamera },
    Dispatcher { state: IAmDispatcher },
    Connecting,
}

pub enum ClientStateV {
    Camera { state: IAmCamera },
    Dispatcher { state: DispatcherV },
    Connecting,
}

impl View for ClientState {
    type V = ClientStateV;

    open spec fn view(&self) -> ClientStateV {
        match self {
            ClientState::Camera { state } => ClientStateV::Camera { state: *state },
            ClientState::Dispatcher { state } => ClientStateV::Dispatcher { state: state@ },
            ClientState::Connecting => ClientStateV::Connecting,
        }
    }
}

/// What the connection must do after handling one message.
pub enum SessionAction {
    /// Nothing beyond the state change.
    Proceed,
    /// Start the heartbeat schedule at `interval` deciseconds; 0 means no
    /// heartbeat is ever sent.
    StartHeartbeat { interval: u32 },
    /// Hand the sighting to the road registry under the camera's identity.
    RecordSighting { road: u16, mile: u16, limit: u16, plate: Vec<u8>, timestamp: u32 },
    /// Register the connection as dispatcher for `roads` and collect the
    /// tickets queued for them.
    BindDispatcher { roads: Vec<u16> },
    /// Send this one error frame, then close the connection.
    Reject { error: Error },
}

pub enum SessionActionV {
    Proceed,
    StartHeartbeat { interval: u32 },
    RecordSighting { road: u16, mile: u16, limit: u16, plate: Seq<u8>, timestamp: u32 },
    BindDispatcher { roads: Seq<u16> },
    Reject { msg: Seq<u8> },
}

impl View for SessionAction {
    type V = SessionActionV;

    open spec fn view(&self) -> SessionActionV {
        match self {
            SessionAction::Proceed => SessionActionV::Proceed,
            SessionAction::StartHeartbeat { interval } => SessionActionV::StartHeartbeat {
                interval: *interval,
            },
            SessionAction::RecordSighting { road, mile, limit, plate, timestamp } => {
                SessionActionV::RecordSighting {
                    road: *road,
                    mile: *mile,
                    limit: *limit,
                    plate: plate@,
                    timestamp: *timestamp,
                }
            },
            SessionAction::BindDispatcher { roads } => SessionActionV::BindDispatcher {
                roads: roads@,
            },
            SessionAction::Reject { error } => SessionActionV::Reject { msg: error@.msg },
        }
    }
}

/// The outcome of one message: next state, heartbeat flag, action.
pub struct Step {
    pub state: ClientState,
    pub heartbeat_running: bool,
    pub action: SessionAction,
}

pub struct StepV {
    pub state: ClientStateV,
    pub heartbeat_running: bool,
    pub action: SessionActionV,
}

impl View for Step {
    type V = StepV;

    open spec fn view(&self) -> StepV {
        StepV { state: self.state@, heartbeat_running: self.heartbeat_running, action: self.action@ }
    }
}

/// A protocol violation: keep the state, send `msg` once, close.
pub open spec fn spec_reject(state: ClientStateV, heartbeat_running: bool, msg: &str) -> StepV {
    StepV {
        state: state,
        heartbeat_running: heartbeat_running,
        action: SessionActionV::Reject { msg: msg.spec_bytes() },
    }
}

/// The transition table of the role state machine.
pub open spec fn spec_step(state: ClientStateV, heartbeat_running: bool, msg: ClientMsgV) -> StepV {
    match msg {
        ClientMsgV::Plate(p) => match state {
            ClientStateV::Camera { state: c } => StepV {
                state: state,
                heartbeat_running: heartbeat_running,
                action: SessionActionV::RecordSighting {
                    road: c.road,
                    mile: c.mile,
                    limit: c.limit,
                    plate: p.plate,
                    timestamp: p.timestamp,
                },
            },
            _ => spec_reject(state, heartbeat_running, "You are not a camera"),
        },
        ClientMsgV::WantHeartbeat(h) => if heartbeat_running {
            spec_reject(state, heartbeat_running, "Cannot request multiple heartbeats")
        } else {
            StepV {
                state: state,
                heartbeat_running: true,
                action: SessionActionV::StartHeartbeat { interval: h.interval },
            }
        },
        ClientMsgV::IAmCamera(c) => match state {
            ClientStateV::Connecting => StepV {
                state: ClientStateV::Camera { state: c },
                heartbeat_running: heartbeat_running,
                action: SessionActionV::Proceed,
            },
            ClientStateV::Camera { .. } => spec_reject(
                state,
                heartbeat_running,
                "You are already a camera",
            ),
            ClientStateV::Dispatcher { .. } => spec_reject(
                state,
                heartbeat_running,
                "You are a camera, not a dispatcher",
            ),
        },
        ClientMsgV::IAmDispatcher(d) => match state {
            ClientStateV::Connecting => StepV {
                state: ClientStateV::Dispatcher { state: d },
                heartbeat_running: heartbeat_running,
                action: SessionActionV::BindDispatcher { roads: d.roads },
            },
            ClientStateV::Camera { .. } => spec_reject(
                state,
                heartbeat_running,
                "You are a dispatcher, not a camera",
            ),
            ClientStateV::Dispatcher { .. } => spec_reject(
                state,
                heartbeat_running,
                "You are already a dispatcher",
            ),
        },
    }
}

/// Runs one message through the role state machine.
pub fn handle_message(state: ClientState, heartbeat_running: bool, msg: ClientMessage) -> (r: Step)
    ensures
        r@ == spec_step(state@, heartbeat_running, msg@),
{
    match msg {
        ClientMessage::Plate(p) => match state {
            ClientState::Camera { state: c } => Step {
                state: ClientState::Camera { state: c },
                heartbeat_running,
                action: SessionAction::RecordSighting {
                    road: c.road,
                    mile: c.mile,
                    limit: c.limit,
                    plate: p.plate,
                    timestamp: p.timestamp,
                },
            },
            _ => Step {
                state,
                heartbeat_running,
                action: SessionAction::Reject { error: Error::with_msg("You are not a camera") },
            },
        },
        ClientMessage::WantHeartbeat(h) => if heartbeat_running {
            Step {
                state,
                heartbeat_running,
                action: SessionAction::Reject {
                    error: Error::with_msg("Cannot request multiple heartbeats"),
                },
            }
        } else {
            Step {
                state,
                heartbeat_running: true,
                action: SessionAction::StartHeartbeat { interval: h.interval },
            }
        },
        ClientMessage::IAmCamera(c) => match state {
            ClientState::Connecting => Step {
                state: ClientState::Camera { state: c },
                heartbeat_running,
                action: SessionAction::Proceed,
            },
            ClientState::Camera { state: prev } => Step {
                state: ClientState::Camera { state: prev },
                heartbeat_running,
                action: SessionAction::Reject {
                    error: Error::with_msg("You are already a camera"),
                },
            },
            ClientState::Dispatcher { state: prev } => Step {
                state: ClientState::Dispatcher { state: prev },
                heartbeat_running,
                action: SessionAction::Reject {
                    error: Error::with_msg("You are a camera, not a dispatcher"),
                },
            },
        },
        ClientMessage::IAmDispatcher(d) => match state {
            ClientState::Connecting => {
                let roads = clone_roads(&d.roads);
                Step {
                    state: ClientState::Dispatcher { state: d },
                    heartbeat_running,
                    action: SessionAction::BindDispatcher { roads },
                }
            },
            ClientState::Camera { state: prev } => Step {
                state: ClientState::Camera { state: prev },
                heartbeat_running,
                action: SessionAction::Reject {
                    error: Error::with_msg("You are a dispatcher, not a camera"),
                },
            },
            ClientState::Dispatcher { state: prev } => Step {
                state: ClientState::Dispatcher { state: prev },
                heartbeat_running,
                action: SessionAction::Reject {
                    error: Error::with_msg("You are already a dispatcher"),
                },
            },
        },
    }
}

/// A fresh copy of a road list.
fn clone_roads(v: &Vec<u16>) -> (r: Vec<u16>)
    ensures
        r@ == v@,
{
    let mut r: Vec<u16> = Vec::new();
    let mut i: usize = 0;
    while i < v.len()
        invariant
            i <= v@.len(),
            r@ =~= v@.take(i as int),
        decreases v@.len() - i,
    {
        r.push(v[i]);
        i += 1;
    }
    proof {
        assert(v@.take(v@.len() as int) =~= v@);
    }
    r
}

/// A plate report on a connection that has not identified itself is
/// rejected: one error frame, then disconnect, with the role unchanged.
pub proof fn lemma_plate_before_identification(heartbeat_running: bool, p: PlateV)
    ensures
        spec_step(ClientStateV::Connecting, heartbeat_running, ClientMsgV::Plate(p)).action
            is Reject,
        spec_step(ClientStateV::Connecting, heartbeat_running, ClientMsgV::Plate(p)).state
            is Connecting,
{
}

/// A second identification on an already-identified connection is rejected
/// with one error frame and disconnect, whatever the first role was.
pub proof fn lemma_second_identification(
    state: ClientStateV,
    heartbeat_running: bool,
    msg: ClientMsgV,
)
    requires
        !(state is Connecting),
        msg is IAmCamera || msg is IAmDispatcher,
    ensures
        spec_step(state, heartbeat_running, msg).action is Reject,
        spec_step(state, heartbeat_running, msg).state == state,
{
}

} // verus!
