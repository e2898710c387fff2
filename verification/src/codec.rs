//! Frame codec for the speed-daemon wire protocol.
//!
//! Every message is one tag byte followed by fixed-width big-endian fields;
//! `Plate`, `Error` and `Ticket` carry one length-prefixed byte string capped
//! at 255 bytes.  Decoding consumes exactly the bytes of one frame; an
//! unknown tag is a malformed frame, and a frame whose bytes have not all
//! arrived yet is reported as incomplete (at end of stream the caller treats
//! that as malformed).  Plate and error strings are kept as the raw wire
//! bytes.

use vstd::prelude::*;
use vstd::string::StringSliceAdditionalSpecFns;
use vstd::string::StrSliceExecFns;
use crate::wire::lemma_be16_reverse;
use crate::wire::lemma_be16_roundtrip;
use crate::wire::lemma_be32_reverse;
use crate::wire::lemma_be32_roundtrip;
use crate::wire::push_be16;
use crate::wire::push_be32;
use crate::wire::read_be16;
use crate::wire::read_be32;
use crate::wire::spec_be16;
use crate::wire::spec_be32;
use crate::wire::spec_u16_of;
use crate::wire::spec_u32_of;

verus! {

pub const TAG_ERROR: u8 = 0x10;
pub const TAG_PLATE: u8 = 0x20;
pub const TAG_TICKET: u8 = 0x21;
pub const TAG_WANT_HEARTBEAT: u8 = 0x40;
pub const TAG_HEARTBEAT: u8 = 0x41;
pub const TAG_I_AM_CAMERA: u8 = 0x80;
pub const TAG_I_AM_DISPATCHER: u8 = 0x81;

/// Longest byte string a single length byte can announce.
pub const MAX_STR_LEN: usize = 255;

// ---------------------------------------------------------------------------
// Message types
// ---------------------------------------------------------------------------

/// A camera's report: plate bytes as seen on the wire, and the sighting time.
#[derive(Clone, Debug, PartialEq, Eq)]
pub struct Plate {
    pub plate: Vec<u8>,
    pub timestamp: u32,
}

/// Request for heartbeats every `interval` deciseconds; 0 disables them.
#[derive(Clone, Copy, Debug, PartialEq, Eq, Structural)]
pub struct WantHeartbeat {
    pub interval: u32,
}

/// The empty heartbeat frame.
#[derive(Clone, Copy, Debug, PartialEq, Eq, Structural)]
pub struct Heartbeat();

/// A camera's identity: where it stands and the limit it enforces.
#[derive(Clone, Copy, Debug, PartialEq, Eq, Structural)]
pub struct IAmCamera {
    pub road: u16,
    pub mile: u16,
    pub limit: u16,
}

/// A dispatcher's identity: the roads it is responsible for.
#[derive(Clone, Debug, PartialEq, Eq)]
pub struct IAmDispatcher {
    pub numroads: u8,
    pub roads: Vec<u16>,
}

/// An error report sent to a misbehaving client before disconnecting.
#[derive(Clone, Debug, PartialEq, Eq)]
pub struct Error {
    msg: Vec<u8>,
}

/// A speeding ticket; `speed` is in hundredths of a mile per hour.
#[derive(Clone, Debug, PartialEq, Eq)]
pub struct Ticket {
    pub plate: Vec<u8>,
    pub road: u16,
    pub mile1: u16,
    pub timestamp1: u32,
    pub mile2: u16,
    pub timestamp2: u32,
    pub speed: u16,
}

/// The messages a client may send.
#[derive(Clone, Debug, PartialEq, Eq)]
pub enum ClientMessage {
    Plate(Plate),
    WantHeartbeat(WantHeartbeat),
    IAmCamera(IAmCamera),
    IAmDispatcher(IAmDispatcher),
}

/// The messages the server may send.
#[derive(Clone, Debug, PartialEq, Eq)]
pub enum ServerMessage {
    Error(Error),
    Ticket(Ticket),
    Heartbeat(Heartbeat),
}

/// Why a buffer holds no complete frame.
#[derive(Clone, Copy, Debug, PartialEq, Eq, Structural)]
pub enum FrameError {
    /// The first byte is no known tag: the connection is broken beyond repair.
    MalformedFrame,
    /// The frame's bytes have not all arrived; at end of stream this too is
    /// a malformed frame.
    Incomplete,
}

/// Why a message cannot be put on the wire.
#[derive(Clone, Copy, Debug, PartialEq, Eq, Structural)]
pub enum EncodeError {
    /// An error message longer than 255 bytes.
    MessageTooLong,
    /// A plate longer than 255 bytes.
    PlateTooLong,
    /// A dispatcher claiming more than 255 roads.
    TooManyRoads,
}

// ---------------------------------------------------------------------------
// Views
// ---------------------------------------------------------------------------

pub struct PlateV {
    pub plate: Seq<u8>,
    pub timestamp: u32,
}

pub struct DispatcherV {
    pub numroads: u8,
    pub roads: Seq<u16>,
}

pub struct ErrorV {
    pub msg: Seq<u8>,
}

pub struct TicketV {
    pub plate: Seq<u8>,
    pub road: u16,
    pub mile1: u16,
    pub timestamp1: u32,
    pub mile2: u16,
    pub timestamp2: u32,
    pub speed: u16,
}

pub enum ClientMsgV {
    Plate(PlateV),
    WantHeartbeat(WantHeartbeat),
    IAmCamera(IAmCamera),
    IAmDispatcher(DispatcherV),
}

pub enum ServerMsgV {
    Error(ErrorV),
    Ticket(TicketV),
    Heartbeat,
}

impl View for Plate {
    type V = PlateV;

    open spec fn view(&self) -> PlateV {
        PlateV { plate: self.plate@, timestamp: self.timestamp }
    }
}

impl View for IAmDispatcher {
    type V = DispatcherV;

    open spec fn view(&self) -> DispatcherV {
        DispatcherV { numroads: self.numroads, roads: self.roads@ }
    }
}

impl View for Error {
    type V = ErrorV;

    closed spec fn view(&self) -> ErrorV {
        ErrorV { msg: self.msg@ }
    }
}

impl View for Ticket {
    type V = TicketV;

    open spec fn view(&self) -> TicketV {
        TicketV {
            plate: self.plate@,
            road: self.road,
            mile1: self.mile1,
            timestamp1: self.timestamp1,
            mile2: self.mile2,
            timestamp2: self.timestamp2,
            speed: self.speed,
        }
    }
}

impl View for ClientMessage {
    type V = ClientMsgV;

    open spec fn view(&self) -> ClientMsgV {
        match self {
            ClientMessage::Plate(p) => ClientMsgV::Plate(p@),
            ClientMessage::WantHeartbeat(h) => ClientMsgV::WantHeartbeat(*h),
            ClientMessage::IAmCamera(c) => ClientMsgV::IAmCamera(*c),
            ClientMessage::IAmDispatcher(d) => ClientMsgV::IAmDispatcher(d@),
        }
    }
}

impl View for ServerMessage {
    type V = ServerMsgV;

    open spec fn view(&self) -> ServerMsgV {
        match self {
            ServerMessage::Error(e) => ServerMsgV::Error(e@),
            ServerMessage::Ticket(t) => ServerMsgV::Ticket(t@),
            ServerMessage::Heartbeat(_) => ServerMsgV::Heartbeat,
        }
    }
}

impl Error {
    /// Builds an error report from a human-readable reason.
    pub fn with_msg(msg: &str) -> (r: Error)
        ensures
            r@.msg == msg.spec_bytes(),
    {
        Error { msg: msg.as_bytes_vec() }
    }

    /// The reason's bytes.
    pub fn msg(&self) -> (r: &Vec<u8>)
        ensures
            r@ == self@.msg,
    {
        &self.msg
    }
}

// ---------------------------------------------------------------------------
// Well-formedness: what fits behind a one-byte length field
// ---------------------------------------------------------------------------

pub open spec fn wf_client(m: ClientMsgV) -> bool {
    match m {
        ClientMsgV::Plate(p) => p.plate.len() <= 255,
        ClientMsgV::WantHeartbeat(_) => true,
        ClientMsgV::IAmCamera(_) => true,
        ClientMsgV::IAmDispatcher(d) => d.roads.len() <= 255 && d.numroads == d.roads.len(),
    }
}

pub open spec fn wf_server(m: ServerMsgV) -> bool {
    match m {
        ServerMsgV::Error(e) => e.msg.len() <= 255,
        ServerMsgV::Ticket(t) => t.plate.len() <= 255,
        ServerMsgV::Heartbeat => true,
    }
}

// ---------------------------------------------------------------------------
// Encoding, as a mathematical function of the message
// ---------------------------------------------------------------------------

/// The concatenated big-endian bytes of a road list.
pub open spec fn spec_roads_bytes(roads: Seq<u16>) -> Seq<u8>
    decreases roads.len(),
{
    if roads.len() == 0 {
        Seq::empty()
    } else {
        spec_be16(roads[0]) + spec_roads_bytes(roads.drop_first())
    }
}

pub open spec fn spec_encode_client(m: ClientMsgV) -> Seq<u8> {
    match m {
        ClientMsgV::Plate(p) => seq![TAG_PLATE, p.plate.len() as u8] + p.plate + spec_be32(
            p.timestamp,
        ),
        ClientMsgV::WantHeartbeat(h) => seq![TAG_WANT_HEARTBEAT] + spec_be32(h.interval),
        ClientMsgV::IAmCamera(c) => seq![TAG_I_AM_CAMERA] + spec_be16(c.road) + spec_be16(c.mile)
            + spec_be16(c.limit),
        ClientMsgV::IAmDispatcher(d) => seq![TAG_I_AM_DISPATCHER, d.roads.len() as u8]
            + spec_roads_bytes(d.roads),
    }
}

pub open spec fn spec_encode_server(m: ServerMsgV) -> Seq<u8> {
    match m {
        ServerMsgV::Error(e) => seq![TAG_ERROR, e.msg.len() as u8] + e.msg,
        ServerMsgV::Ticket(t) => seq![TAG_TICKET, t.plate.len() as u8] + t.plate + spec_be16(
            t.road,
        ) + spec_be16(t.mile1) + spec_be32(t.timestamp1) + spec_be16(t.mile2) + spec_be32(
            t.timestamp2,
        ) + spec_be16(t.speed),
        ServerMsgV::Heartbeat => seq![TAG_HEARTBEAT],
    }
}

// ---------------------------------------------------------------------------
// Decoding, as a mathematical function of the buffered bytes
// ---------------------------------------------------------------------------

pub open spec fn spec_decode_client(bytes: Seq<u8>) -> Result<(ClientMsgV, int), FrameError> {
    if bytes.len() < 1 {
        Err(FrameError::Incomplete)
    } else if bytes[0] == TAG_PLATE {
        if bytes.len() < 2 {
            Err(FrameError::Incomplete)
        } else {
            let n = bytes[1] as int;
            if bytes.len() < 6 + n {
                Err(FrameError::Incomplete)
            } else {
                Ok(
                    (
                        ClientMsgV::Plate(
                            PlateV {
                                plate: bytes.subrange(2, 2 + n),
                                timestamp: spec_u32_of(
                                    bytes[2 + n],
                                    bytes[3 + n],
                                    bytes[4 + n],
                                    bytes[5 + n],
                                ),
                            },
                        ),
                        6 + n,
                    ),
                )
            }
        }
    } else if bytes[0] == TAG_WANT_HEARTBEAT {
        if bytes.len() < 5 {
            Err(FrameError::Incomplete)
        } else {
            Ok(
                (
                    ClientMsgV::WantHeartbeat(
                        WantHeartbeat {
                            interval: spec_u32_of(bytes[1], bytes[2], bytes[3], bytes[4]),
                        },
                    ),
                    5,
                ),
            )
        }
    } else if bytes[0] == TAG_I_AM_CAMERA {
        if bytes.len() < 7 {
            Err(FrameError::Incomplete)
        } else {
            Ok(
                (
                    ClientMsgV::IAmCamera(
                        IAmCamera {
                            road: spec_u16_of(bytes[1], bytes[2]),
                            mile: spec_u16_of(bytes[3], bytes[4]),
                            limit: spec_u16_of(bytes[5], bytes[6]),
                        },
                    ),
                    7,
                ),
            )
        }
    } else if bytes[0] == TAG_I_AM_DISPATCHER {
        if bytes.len() < 2 {
            Err(FrameError::Incomplete)
        } else {
            let n = bytes[1] as int;
            if bytes.len() < 2 + 2 * n {
                Err(FrameError::Incomplete)
            } else {
                Ok(
                    (
                        ClientMsgV::IAmDispatcher(
                            DispatcherV {
                                numroads: bytes[1],
                                roads: Seq::new(
                                    n as nat,
                                    |i: int| spec_u16_of(bytes[2 + 2 * i], bytes[3 + 2 * i]),
                                ),
                            },
                        ),
                        2 + 2 * n,
                    ),
                )
            }
        }
    } else {
        Err(FrameError::MalformedFrame)
    }
}

pub open spec fn spec_decode_server(bytes: Seq<u8>) -> Result<(ServerMsgV, int), FrameError> {
    if bytes.len() < 1 {
        Err(FrameError::Incomplete)
    } else if bytes[0] == TAG_ERROR {
        if bytes.len() < 2 {
            Err(FrameError::Incomplete)
        } else {
            let n = bytes[1] as int;
            if bytes.len() < 2 + n {
                Err(FrameError::Incomplete)
            } else {
                Ok((ServerMsgV::Error(ErrorV { msg: bytes.subrange(2, 2 + n) }), 2 + n))
            }
        }
    } else if bytes[0] == TAG_TICKET {
        if bytes.len() < 2 {
            Err(FrameError::Incomplete)
        } else {
            let n = bytes[1] as int;
            if bytes.len() < 18 + n {
                Err(FrameError::Incomplete)
            } else {
                Ok(
                    (
                        ServerMsgV::Ticket(
                            TicketV {
                                plate: bytes.subrange(2, 2 + n),
                                road: spec_u16_of(bytes[2 + n], bytes[3 + n]),
                                mile1: spec_u16_of(bytes[4 + n], bytes[5 + n]),
                                timestamp1: spec_u32_of(
                                    bytes[6 + n],
                                    bytes[7 + n],
                                    bytes[8 + n],
                                    bytes[9 + n],
                                ),
                                mile2: spec_u16_of(bytes[10 + n], bytes[11 + n]),
                                timestamp2: spec_u32_of(
                                    bytes[12 + n],
                                    bytes[13 + n],
                                    bytes[14 + n],
                                    bytes[15 + n],
                                ),
                                speed: spec_u16_of(bytes[16 + n], bytes[17 + n]),
                            },
                        ),
                        18 + n,
                    ),
                )
            }
        }
    } else if bytes[0] == TAG_HEARTBEAT {
        Ok((ServerMsgV::Heartbeat, 1))
    } else {
        Err(FrameError::MalformedFrame)
    }
}

// ---------------------------------------------------------------------------
// Executable decoding
// ---------------------------------------------------------------------------

impl ClientMessage {
    /// Decodes the first complete frame in `bytes`, returning the message and
    /// the count of bytes it occupied.
    pub fn from_bytes(bytes: &[u8]) -> (r: Result<(ClientMessage, usize), FrameError>)
        ensures
            match r {
                Ok(p) => spec_decode_client(bytes@) matches Ok(q) && q.0 == p.0@ && q.1
                    == p.1 as int,
                Err(e) => spec_decode_client(bytes@) matches Err(e2) && e2 == e,
            },
    {
        let avail = bytes.len();
        if avail < 1 {
            return Err(FrameError::Incomplete);
        }
        let tag = bytes[0];
        if tag == TAG_PLATE {
            if avail < 2 {
                return Err(FrameError::Incomplete);
            }
            let n = bytes[1] as usize;
            if avail < 6 + n {
                return Err(FrameError::Incomplete);
            }
            let mut plate: Vec<u8> = Vec::new();
            let mut i: usize = 0;
            while i < n
                invariant
                    6 + n <= bytes@.len(),
                    n <= 255,
                    i <= n,
                    plate@ =~= bytes@.subrange(2, 2 + i as int),
                decreases n - i,
            {
                plate.push(bytes[2 + i]);
                i += 1;
            }
            let timestamp = read_be32(bytes, 2 + n);
            proof {
                assert(plate@ =~= bytes@.subrange(2, 2 + n as int));
            }
            Ok((ClientMessage::Plate(Plate { plate, timestamp }), 6 + n))
        } else if tag == TAG_WANT_HEARTBEAT {
            if avail < 5 {
                return Err(FrameError::Incomplete);
            }
            let interval = read_be32(bytes, 1);
            Ok((ClientMessage::WantHeartbeat(WantHeartbeat { interval }), 5))
        } else if tag == TAG_I_AM_CAMERA {
            if avail < 7 {
                return Err(FrameError::Incomplete);
            }
            let road = read_be16(bytes, 1);
            let mile = read_be16(bytes, 3);
            let limit = read_be16(bytes, 5);
            Ok((ClientMessage::IAmCamera(IAmCamera { road, mile, limit }), 7))
        } else if tag == TAG_I_AM_DISPATCHER {
            if avail < 2 {
                return Err(FrameError::Incomplete);
            }
            let n = bytes[1] as usize;
            if avail < 2 + 2 * n {
                return Err(FrameError::Incomplete);
            }
            let mut roads: Vec<u16> = Vec::new();
            let mut i: usize = 0;
            while i < n
                invariant
                    2 + 2 * n <= bytes@.len(),
                    n <= 255,
                    i <= n,
                    roads@.len() == i,
                    forall|j: int|
                        0 <= j < i ==> roads@[j] == spec_u16_of(
                            bytes@[2 + 2 * j],
                            bytes@[3 + 2 * j],
                        ),
                decreases n - i,
            {
                let r = read_be16(bytes, 2 + 2 * i);
                roads.push(r);
                i += 1;
            }
            proof {
                assert(roads@ =~= Seq::new(
                    n as nat,
                    |i: int| spec_u16_of(bytes@[2 + 2 * i], bytes@[3 + 2 * i]),
                ));
            }
            Ok((ClientMessage::IAmDispatcher(IAmDispatcher { numroads: bytes[1], roads }), 2 + 2
                * n))
        } else {
            Err(FrameError::MalformedFrame)
        }
    }
}

impl ServerMessage {
    /// Decodes the first complete server frame in `bytes`, returning the
    /// message and the count of bytes it occupied.
    pub fn from_bytes(bytes: &[u8]) -> (r: Result<(ServerMessage, usize), FrameError>)
        ensures
            match r {
                Ok(p) => spec_decode_server(bytes@) matches Ok(q) && q.0 == p.0@ && q.1
                    == p.1 as int,
                Err(e) => spec_decode_server(bytes@) matches Err(e2) && e2 == e,
            },
    {
        let avail = bytes.len();
        if avail < 1 {
            return Err(FrameError::Incomplete);
        }
        let tag = bytes[0];
        if tag == TAG_ERROR {
            if avail < 2 {
                return Err(FrameError::Incomplete);
            }
            let n = bytes[1] as usize;
            if avail < 2 + n {
                return Err(FrameError::Incomplete);
            }
            let mut msg: Vec<u8> = Vec::new();
            let mut i: usize = 0;
            while i < n
                invariant
                    2 + n <= bytes@.len(),
                    n <= 255,
                    i <= n,
                    msg@ =~= bytes@.subrange(2, 2 + i as int),
                decreases n - i,
            {
                msg.push(bytes[2 + i]);
                i += 1;
            }
            proof {
                assert(msg@ =~= bytes@.subrange(2, 2 + n as int));
            }
            Ok((ServerMessage::Error(Error { msg }), 2 + n))
        } else if tag == TAG_TICKET {
            if avail < 2 {
                return Err(FrameError::Incomplete);
            }
            let n = bytes[1] as usize;
            if avail < 18 + n {
                return Err(FrameError::Incomplete);
            }
            let mut plate: Vec<u8> = Vec::new();
            let mut i: usize = 0;
            while i < n
                invariant
                    18 + n <= bytes@.len(),
                    n <= 255,
                    i <= n,
                    plate@ =~= bytes@.subrange(2, 2 + i as int),
                decreases n - i,
            {
                plate.push(bytes[2 + i]);
                i += 1;
            }
            proof {
                assert(plate@ =~= bytes@.subrange(2, 2 + n as int));
            }
            let road = read_be16(bytes, 2 + n);
            let mile1 = read_be16(bytes, 4 + n);
            let timestamp1 = read_be32(bytes, 6 + n);
            let mile2 = read_be16(bytes, 10 + n);
            let timestamp2 = read_be32(bytes, 12 + n);
            let speed = read_be16(bytes, 16 + n);
            Ok(
                (
                    ServerMessage::Ticket(
                        Ticket { plate, road, mile1, timestamp1, mile2, timestamp2, speed },
                    ),
                    18 + n,
                ),
            )
        } else if tag == TAG_HEARTBEAT {
            Ok((ServerMessage::Heartbeat(Heartbeat()), 1))
        } else {
            Err(FrameError::MalformedFrame)
        }
    }
}

// ---------------------------------------------------------------------------
// Executable encoding
// ---------------------------------------------------------------------------

/// Whether a client message fits the wire format's length fields.
pub open spec fn encodable_client(m: ClientMsgV) -> bool {
    match m {
        ClientMsgV::Plate(p) => p.plate.len() <= 255,
        ClientMsgV::WantHeartbeat(_) => true,
        ClientMsgV::IAmCamera(_) => true,
        ClientMsgV::IAmDispatcher(d) => d.roads.len() <= 255,
    }
}

/// Whether a server message fits the wire format's length fields.
pub open spec fn encodable_server(m: ServerMsgV) -> bool {
    match m {
        ServerMsgV::Error(e) => e.msg.len() <= 255,
        ServerMsgV::Ticket(t) => t.plate.len() <= 255,
        ServerMsgV::Heartbeat => true,
    }
}

impl ClientMessage {
    /// Encodes the message; fails only when a length-prefixed field cannot
    /// fit behind its one-byte length.  The road count written for a
    /// dispatcher is the length of its road list.
    pub fn to_bytes(&self) -> (r: Result<Vec<u8>, EncodeError>)
        ensures
            r is Ok <==> encodable_client(self@),
            r matches Ok(v) ==> v@ == spec_encode_client(self@),
            r matches Err(e) ==> e == if self@ is Plate {
                EncodeError::PlateTooLong
            } else {
                EncodeError::TooManyRoads
            },
    {
        match self {
            ClientMessage::Plate(p) => {
                if p.plate.len() > MAX_STR_LEN {
                    return Err(EncodeError::PlateTooLong);
                }
                let mut out: Vec<u8> = Vec::new();
                out.push(TAG_PLATE);
                out.push(p.plate.len() as u8);
                out.extend_from_slice(p.plate.as_slice());
                push_be32(&mut out, p.timestamp);
                proof {
                    assert(out@ =~= spec_encode_client(self@));
                }
                Ok(out)
            },
            ClientMessage::WantHeartbeat(h) => {
                let mut out: Vec<u8> = Vec::new();
                out.push(TAG_WANT_HEARTBEAT);
                push_be32(&mut out, h.interval);
                proof {
                    assert(out@ =~= spec_encode_client(self@));
                }
                Ok(out)
            },
            ClientMessage::IAmCamera(c) => {
                let mut out: Vec<u8> = Vec::new();
                out.push(TAG_I_AM_CAMERA);
                push_be16(&mut out, c.road);
                push_be16(&mut out, c.mile);
                push_be16(&mut out, c.limit);
                proof {
                    assert(out@ =~= spec_encode_client(self@));
                }
                Ok(out)
            },
            ClientMessage::IAmDispatcher(d) => {
                if d.roads.len() > MAX_STR_LEN {
                    return Err(EncodeError::TooManyRoads);
                }
                let mut out: Vec<u8> = Vec::new();
                out.push(TAG_I_AM_DISPATCHER);
                out.push(d.roads.len() as u8);
                let mut i: usize = 0;
                while i < d.roads.len()
                    invariant
                        i <= d.roads@.len(),
                        d.roads@.len() <= 255,
                        out@ == seq![TAG_I_AM_DISPATCHER, d.roads@.len() as u8]
                            + spec_roads_bytes(d.roads@.take(i as int)),
                    decreases d.roads@.len() - i,
                {
                    proof {
                        lemma_roads_bytes_snoc(d.roads@, i as int);
                    }
                    push_be16(&mut out, d.roads[i]);
                    i += 1;
                }
                proof {
                    assert(d.roads@.take(d.roads@.len() as int) =~= d.roads@);
                    assert(out@ =~= spec_encode_client(self@));
                }
                Ok(out)
            },
        }
    }
}

impl ServerMessage {
    /// Encodes the message; fails only when a length-prefixed field cannot
    /// fit behind its one-byte length.
    pub fn to_bytes(&self) -> (r: Result<Vec<u8>, EncodeError>)
        ensures
            r is Ok <==> encodable_server(self@),
            r matches Ok(v) ==> v@ == spec_encode_server(self@),
            r matches Err(e) ==> e == if self@ is Error {
                EncodeError::MessageTooLong
            } else {
                EncodeError::PlateTooLong
            },
    {
        match self {
            ServerMessage::Error(e) => {
                if e.msg.len() > MAX_STR_LEN {
                    return Err(EncodeError::MessageTooLong);
                }
                let mut out: Vec<u8> = Vec::new();
                out.push(TAG_ERROR);
                out.push(e.msg.len() as u8);
                out.extend_from_slice(e.msg.as_slice());
                proof {
                    assert(out@ =~= spec_encode_server(self@));
                }
                Ok(out)
            },
            ServerMessage::Ticket(t) => {
                if t.plate.len() > MAX_STR_LEN {
                    return Err(EncodeError::PlateTooLong);
                }
                let mut out: Vec<u8> = Vec::new();
                out.push(TAG_TICKET);
                out.push(t.plate.len() as u8);
                out.extend_from_slice(t.plate.as_slice());
                push_be16(&mut out, t.road);
                push_be16(&mut out, t.mile1);
                push_be32(&mut out, t.timestamp1);
                push_be16(&mut out, t.mile2);
                push_be32(&mut out, t.timestamp2);
                push_be16(&mut out, t.speed);
                proof {
                    assert(out@ =~= spec_encode_server(self@));
                }
                Ok(out)
            },
            ServerMessage::Heartbeat(_) => {
                let mut out: Vec<u8> = Vec::new();
                out.push(TAG_HEARTBEAT);
                proof {
                    assert(out@ =~= spec_encode_server(self@));
                }
                Ok(out)
            },
        }
    }
}

// ---------------------------------------------------------------------------
// The codec round trip
// ---------------------------------------------------------------------------

/// The byte layout of a road list, one entry at a time.
pub proof fn lemma_roads_bytes_snoc(roads: Seq<u16>, i: int)
    requires
        0 <= i < roads.len(),
    ensures
        spec_roads_bytes(roads.take(i + 1)) == spec_roads_bytes(roads.take(i)) + spec_be16(
            roads[i],
        ),
    decreases i,
{
    if i == 0 {
        assert(roads.take(1) =~= seq![roads[0]]);
        assert(roads.take(0) =~= Seq::<u16>::empty());
        assert(roads.take(1).drop_first() =~= Seq::<u16>::empty());
        assert(spec_roads_bytes(Seq::<u16>::empty()) =~= Seq::<u8>::empty());
        assert(roads.take(1)[0] == roads[0]);
        assert(spec_roads_bytes(roads.take(1)) == spec_be16(roads.take(1)[0]) + spec_roads_bytes(
            roads.take(1).drop_first(),
        ));
        assert(spec_roads_bytes(roads.take(1)) =~= spec_be16(roads[0]));
        assert(spec_roads_bytes(roads.take(0)) + spec_be16(roads[0]) =~= spec_be16(roads[0]));
    } else {
        lemma_roads_bytes_snoc(roads.drop_first(), i - 1);
        assert(roads.take(i + 1).drop_first() =~= roads.drop_first().take(i));
        assert(roads.take(i).drop_first() =~= roads.drop_first().take(i - 1));
        assert(spec_roads_bytes(roads.take(i + 1)) == spec_be16(roads[0]) + spec_roads_bytes(
            roads.drop_first().take(i),
        ));
        assert(spec_roads_bytes(roads.take(i)) == spec_be16(roads[0]) + spec_roads_bytes(
            roads.drop_first().take(i - 1),
        ));
        assert(spec_roads_bytes(roads.take(i + 1)) =~= spec_roads_bytes(roads.take(i))
            + spec_be16(roads[i]));
    }
}

/// Length and bytes of an encoded road list.
pub proof fn lemma_roads_bytes(roads: Seq<u16>)
    ensures
        spec_roads_bytes(roads).len() == 2 * roads.len(),
        forall|i: int|
            0 <= i < roads.len() ==> spec_roads_bytes(roads)[2 * i] == spec_be16(roads[i])[0]
                && spec_roads_bytes(roads)[2 * i + 1] == spec_be16(roads[i])[1],
    decreases roads.len(),
{
    if roads.len() > 0 {
        lemma_roads_bytes(roads.drop_first());
        assert forall|i: int|
            0 <= i < roads.len() implies spec_roads_bytes(roads)[2 * i] == spec_be16(roads[i])[0]
            && spec_roads_bytes(roads)[2 * i + 1] == spec_be16(roads[i])[1] by {
            if i > 0 {
                assert(roads.drop_first()[i - 1] == roads[i]);
                assert(spec_roads_bytes(roads)[2 * i] == spec_roads_bytes(roads.drop_first())[2 * (
                i - 1)]);
                assert(spec_roads_bytes(roads)[2 * i + 1] == spec_roads_bytes(
                    roads.drop_first(),
                )[2 * (i - 1) + 1]);
            }
        }
    }
}

/// Decoding an encoded client message, whatever follows it in the buffer,
/// yields that message back and consumes exactly its bytes.
pub proof fn lemma_client_decode_encode(m: ClientMsgV, rest: Seq<u8>)
    requires
        wf_client(m),
    ensures
        spec_decode_client(spec_encode_client(m) + rest) matches Ok(p) && p.0 == m && p.1
            == spec_encode_client(m).len(),
{
    let enc = spec_encode_client(m);
    let b = enc + rest;
    match m {
        ClientMsgV::Plate(p) => {
            let n = p.plate.len() as int;
            assert(b[0] == TAG_PLATE);
            assert(b[1] == n as u8);
            assert(b.subrange(2, 2 + n) =~= p.plate);
            lemma_be32_roundtrip(p.timestamp);
            assert(b[2 + n] == spec_be32(p.timestamp)[0]);
            assert(b[3 + n] == spec_be32(p.timestamp)[1]);
            assert(b[4 + n] == spec_be32(p.timestamp)[2]);
            assert(b[5 + n] == spec_be32(p.timestamp)[3]);
        },
        ClientMsgV::WantHeartbeat(h) => {
            lemma_be32_roundtrip(h.interval);
            assert(b[1] == spec_be32(h.interval)[0]);
            assert(b[2] == spec_be32(h.interval)[1]);
            assert(b[3] == spec_be32(h.interval)[2]);
            assert(b[4] == spec_be32(h.interval)[3]);
        },
        ClientMsgV::IAmCamera(c) => {
            lemma_be16_roundtrip(c.road);
            lemma_be16_roundtrip(c.mile);
            lemma_be16_roundtrip(c.limit);
            assert(b[1] == spec_be16(c.road)[0]);
            assert(b[2] == spec_be16(c.road)[1]);
            assert(b[3] == spec_be16(c.mile)[0]);
            assert(b[4] == spec_be16(c.mile)[1]);
            assert(b[5] == spec_be16(c.limit)[0]);
            assert(b[6] == spec_be16(c.limit)[1]);
        },
        ClientMsgV::IAmDispatcher(d) => {
            let n = d.roads.len() as int;
            lemma_roads_bytes(d.roads);
            assert(b[0] == TAG_I_AM_DISPATCHER);
            assert(b[1] == n as u8);
            assert(b.len() >= 2 + 2 * n);
            let decoded = Seq::new(n as nat, |i: int| spec_u16_of(b[2 + 2 * i], b[3 + 2 * i]));
            assert forall|i: int| 0 <= i < n implies decoded[i] == d.roads[i] by {
                assert(b[2 + 2 * i] == spec_roads_bytes(d.roads)[2 * i]);
                assert(b[3 + 2 * i] == spec_roads_bytes(d.roads)[2 * i + 1]);
                lemma_be16_roundtrip(d.roads[i]);
            }
            assert(decoded =~= d.roads);
        },
    }
}

/// A successfully decoded client frame re-encodes to exactly the bytes it
/// was decoded from.
pub proof fn lemma_client_encode_decode(bytes: Seq<u8>)
    requires
        spec_decode_client(bytes) is Ok,
    ensures
        ({
            let (m, n) = spec_decode_client(bytes)->Ok_0;
            &&& wf_client(m)
            &&& 0 <= n <= bytes.len()
            &&& spec_encode_client(m) == bytes.take(n)
        }),
{
    let (m, n) = spec_decode_client(bytes)->Ok_0;
    if bytes[0] == TAG_PLATE {
        let k = bytes[1] as int;
        lemma_be32_reverse(bytes[2 + k], bytes[3 + k], bytes[4 + k], bytes[5 + k]);
        assert(spec_encode_client(m) =~= bytes.take(n));
    } else if bytes[0] == TAG_WANT_HEARTBEAT {
        lemma_be32_reverse(bytes[1], bytes[2], bytes[3], bytes[4]);
        assert(spec_encode_client(m) =~= bytes.take(n));
    } else if bytes[0] == TAG_I_AM_CAMERA {
        lemma_be16_reverse(bytes[1], bytes[2]);
        lemma_be16_reverse(bytes[3], bytes[4]);
        lemma_be16_reverse(bytes[5], bytes[6]);
        assert(spec_encode_client(m) =~= bytes.take(n));
    } else {
        let k = bytes[1] as int;
        let roads = m->IAmDispatcher_0.roads;
        lemma_roads_bytes(roads);
        assert forall|i: int| 0 <= i < 2 * k implies spec_roads_bytes(roads)[i] == bytes[2 + i] by {
            let j = i / 2;
            lemma_be16_reverse(bytes[2 + 2 * j], bytes[3 + 2 * j]);
            assert(roads[j] == spec_u16_of(bytes[2 + 2 * j], bytes[3 + 2 * j]));
            if i % 2 == 0 {
                assert(i == 2 * j);
                assert(spec_roads_bytes(roads)[2 * j] == spec_be16(roads[j])[0]);
            } else {
                assert(i == 2 * j + 1);
                assert(spec_roads_bytes(roads)[2 * j + 1] == spec_be16(roads[j])[1]);
            }
        }
        assert(spec_encode_client(m) =~= bytes.take(n));
    }
}

/// A buffer that opens with an unknown tag byte decodes to a malformed
/// frame, never to a message or a wait for more bytes.
pub proof fn lemma_client_decode_unknown_tag(bytes: Seq<u8>)
    requires
        bytes.len() >= 1,
        bytes[0] != TAG_PLATE,
        bytes[0] != TAG_WANT_HEARTBEAT,
        bytes[0] != TAG_I_AM_CAMERA,
        bytes[0] != TAG_I_AM_DISPATCHER,
    ensures
        spec_decode_client(bytes) == Err::<(ClientMsgV, int), FrameError>(
            FrameError::MalformedFrame,
        ),
{
}

/// The server-side counterpart: an unknown tag is a malformed frame.
pub proof fn lemma_server_decode_unknown_tag(bytes: Seq<u8>)
    requires
        bytes.len() >= 1,
        bytes[0] != TAG_ERROR,
        bytes[0] != TAG_TICKET,
        bytes[0] != TAG_HEARTBEAT,
    ensures
        spec_decode_server(bytes) == Err::<(ServerMsgV, int), FrameError>(
            FrameError::MalformedFrame,
        ),
{
}

/// Decoding an encoded server message, whatever follows it in the buffer,
/// yields that message back and consumes exactly its bytes.
pub proof fn lemma_server_decode_encode(m: ServerMsgV, rest: Seq<u8>)
    requires
        wf_server(m),
    ensures
        spec_decode_server(spec_encode_server(m) + rest) matches Ok(p) && p.0 == m && p.1
            == spec_encode_server(m).len(),
{
    let enc = spec_encode_server(m);
    let b = enc + rest;
    match m {
        ServerMsgV::Error(e) => {
            let n = e.msg.len() as int;
            assert(b[0] == TAG_ERROR);
            assert(b[1] == n as u8);
            assert(b.subrange(2, 2 + n) =~= e.msg);
        },
        ServerMsgV::Ticket(t) => {
            let n = t.plate.len() as int;
            assert(b[0] == TAG_TICKET);
            assert(b[1] == n as u8);
            assert(b.subrange(2, 2 + n) =~= t.plate);
            lemma_be16_roundtrip(t.road);
            lemma_be16_roundtrip(t.mile1);
            lemma_be16_roundtrip(t.mile2);
            lemma_be16_roundtrip(t.speed);
            lemma_be32_roundtrip(t.timestamp1);
            lemma_be32_roundtrip(t.timestamp2);
            assert(b[2 + n] == spec_be16(t.road)[0]);
            assert(b[3 + n] == spec_be16(t.road)[1]);
            assert(b[4 + n] == spec_be16(t.mile1)[0]);
            assert(b[5 + n] == spec_be16(t.mile1)[1]);
            assert(b[6 + n] == spec_be32(t.timestamp1)[0]);
            assert(b[7 + n] == spec_be32(t.timestamp1)[1]);
            assert(b[8 + n] == spec_be32(t.timestamp1)[2]);
            assert(b[9 + n] == spec_be32(t.timestamp1)[3]);
            assert(b[10 + n] == spec_be16(t.mile2)[0]);
            assert(b[11 + n] == spec_be16(t.mile2)[1]);
            assert(b[12 + n] == spec_be32(t.timestamp2)[0]);
            assert(b[13 + n] == spec_be32(t.timestamp2)[1]);
            assert(b[14 + n] == spec_be32(t.timestamp2)[2]);
            assert(b[15 + n] == spec_be32(t.timestamp2)[3]);
            assert(b[16 + n] == spec_be16(t.speed)[0]);
            assert(b[17 + n] == spec_be16(t.speed)[1]);
        },
        ServerMsgV::Heartbeat => {
            assert(b[0] == TAG_HEARTBEAT);
        },
    }
}

/// A successfully decoded server frame re-encodes to exactly the bytes it
/// was decoded from.
pub proof fn lemma_server_encode_decode(bytes: Seq<u8>)
    requires
        spec_decode_server(bytes) is Ok,
    ensures
        ({
            let (m, n) = spec_decode_server(bytes)->Ok_0;
            &&& wf_server(m)
            &&& 0 <= n <= bytes.len()
            &&& spec_encode_server(m) == bytes.take(n)
        }),
{
    let (m, n) = spec_decode_server(bytes)->Ok_0;
    if bytes[0] == TAG_ERROR {
        assert(spec_encode_server(m) =~= bytes.take(n));
    } else if bytes[0] == TAG_TICKET {
        let k = bytes[1] as int;
        lemma_be16_reverse(bytes[2 + k], bytes[3 + k]);
        lemma_be16_reverse(bytes[4 + k], bytes[5 + k]);
        lemma_be32_reverse(bytes[6 + k], bytes[7 + k], bytes[8 + k], bytes[9 + k]);
        lemma_be16_reverse(bytes[10 + k], bytes[11 + k]);
        lemma_be32_reverse(bytes[12 + k], bytes[13 + k], bytes[14 + k], bytes[15 + k]);
        lemma_be16_reverse(bytes[16 + k], bytes[17 + k]);
        assert(spec_encode_server(m) =~= bytes.take(n));
    } else {
        assert(spec_encode_server(m) =~= bytes.take(n));
    }
}

} // verus!
