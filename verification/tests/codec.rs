use protohackers::codec::ClientMessage;
use protohackers::codec::EncodeError;
use protohackers::codec::Error;
use protohackers::codec::FrameError;
use protohackers::codec::Heartbeat;
use protohackers::codec::IAmCamera;
use protohackers::codec::IAmDispatcher;
use protohackers::codec::Plate;
use protohackers::codec::ServerMessage;
use protohackers::codec::Ticket;
use protohackers::codec::WantHeartbeat;

#[test]
fn client_plate_round_trip() {
    let msg = ClientMessage::Plate(Plate { plate: b"UN1X".to_vec(), timestamp: 1000 });
    let bytes = msg.to_bytes().unwrap();
    assert_eq!(bytes, vec![0x20, 0x04, 0x55, 0x4e, 0x31, 0x58, 0x00, 0x00, 0x03, 0xe8]);
    let (decoded, used) = ClientMessage::from_bytes(&bytes).unwrap();
    assert_eq!(used, bytes.len());
    assert_eq!(decoded, msg);
}

#[test]
fn client_want_heartbeat_round_trip() {
    let msg = ClientMessage::WantHeartbeat(WantHeartbeat { interval: 10 });
    let bytes = msg.to_bytes().unwrap();
    assert_eq!(bytes, vec![0x40, 0x00, 0x00, 0x00, 0x0a]);
    let (decoded, used) = ClientMessage::from_bytes(&bytes).unwrap();
    assert_eq!(used, 5);
    assert_eq!(decoded, msg);
}

#[test]
fn client_camera_round_trip() {
    let msg = ClientMessage::IAmCamera(IAmCamera { road: 66, mile: 100, limit: 60 });
    let bytes = msg.to_bytes().unwrap();
    assert_eq!(bytes, vec![0x80, 0x00, 0x42, 0x00, 0x64, 0x00, 0x3c]);
    let (decoded, used) = ClientMessage::from_bytes(&bytes).unwrap();
    assert_eq!(used, 7);
    assert_eq!(decoded, msg);
}

#[test]
fn client_dispatcher_round_trip() {
    let msg = ClientMessage::IAmDispatcher(IAmDispatcher { numroads: 2, roads: vec![66, 368] });
    let bytes = msg.to_bytes().unwrap();
    assert_eq!(bytes, vec![0x81, 0x02, 0x00, 0x42, 0x01, 0x70]);
    let (decoded, used) = ClientMessage::from_bytes(&bytes).unwrap();
    assert_eq!(used, 6);
    assert_eq!(decoded, msg);
}

#[test]
fn dispatcher_with_no_roads_round_trips() {
    let msg = ClientMessage::IAmDispatcher(IAmDispatcher { numroads: 0, roads: vec![] });
    let bytes = msg.to_bytes().unwrap();
    assert_eq!(bytes, vec![0x81, 0x00]);
    let (decoded, used) = ClientMessage::from_bytes(&bytes).unwrap();
    assert_eq!(used, 2);
    assert_eq!(decoded, msg);
}

#[test]
fn decode_consumes_one_frame_of_a_longer_buffer() {
    let mut bytes = vec![0x40, 0x00, 0x00, 0x00, 0x0a];
    bytes.extend_from_slice(&[0x80, 0x00]);
    let (decoded, used) = ClientMessage::from_bytes(&bytes).unwrap();
    assert_eq!(used, 5);
    assert_eq!(decoded, ClientMessage::WantHeartbeat(WantHeartbeat { interval: 10 }));
}

#[test]
fn decode_unknown_tag_is_malformed() {
    assert_eq!(ClientMessage::from_bytes(&[0x99]), Err(FrameError::MalformedFrame));
    assert_eq!(ServerMessage::from_bytes(&[0x00]), Err(FrameError::MalformedFrame));
}

#[test]
fn decode_truncated_frames_are_incomplete() {
    assert_eq!(ClientMessage::from_bytes(&[]), Err(FrameError::Incomplete));
    assert_eq!(ClientMessage::from_bytes(&[0x40, 0x00]), Err(FrameError::Incomplete));
    // The plate length byte announces four bytes; only two follow.
    assert_eq!(
        ClientMessage::from_bytes(&[0x20, 0x04, 0x55, 0x4e]),
        Err(FrameError::Incomplete)
    );
    assert_eq!(ClientMessage::from_bytes(&[0x81, 0x02, 0x00, 0x42]), Err(FrameError::Incomplete));
}

#[test]
fn server_error_round_trip() {
    let msg = ServerMessage::Error(Error::with_msg("bad"));
    let bytes = msg.to_bytes().unwrap();
    assert_eq!(bytes, vec![0x10, 0x03, 0x62, 0x61, 0x64]);
    let (decoded, used) = ServerMessage::from_bytes(&bytes).unwrap();
    assert_eq!(used, 5);
    assert_eq!(decoded, msg);
}

#[test]
fn server_ticket_round_trip() {
    let msg = ServerMessage::Ticket(Ticket {
        plate: b"RE05BKG".to_vec(),
        road: 368,
        mile1: 1234,
        timestamp1: 1000000,
        mile2: 1235,
        timestamp2: 1000060,
        speed: 6000,
    });
    let bytes = msg.to_bytes().unwrap();
    assert_eq!(bytes.len(), 18 + 7);
    assert_eq!(bytes[0], 0x21);
    let (decoded, used) = ServerMessage::from_bytes(&bytes).unwrap();
    assert_eq!(used, bytes.len());
    assert_eq!(decoded, msg);
}

#[test]
fn server_heartbeat_round_trip() {
    let msg = ServerMessage::Heartbeat(Heartbeat());
    let bytes = msg.to_bytes().unwrap();
    assert_eq!(bytes, vec![0x41]);
    let (decoded, used) = ServerMessage::from_bytes(&bytes).unwrap();
    assert_eq!(used, 1);
    assert_eq!(decoded, msg);
}

#[test]
fn encode_rejects_oversized_fields() {
    let long = vec![0x41u8; 256];
    let msg = ClientMessage::Plate(Plate { plate: long.clone(), timestamp: 0 });
    assert_eq!(msg.to_bytes(), Err(EncodeError::PlateTooLong));
    let msg = ServerMessage::Ticket(Ticket {
        plate: long,
        road: 0,
        mile1: 0,
        timestamp1: 0,
        mile2: 0,
        timestamp2: 0,
        speed: 0,
    });
    assert_eq!(msg.to_bytes(), Err(EncodeError::PlateTooLong));
    let msg = ClientMessage::IAmDispatcher(IAmDispatcher { numroads: 0, roads: vec![7; 300] });
    assert_eq!(msg.to_bytes(), Err(EncodeError::TooManyRoads));
    let msg = ServerMessage::Error(Error::with_msg(&"x".repeat(256)));
    assert_eq!(msg.to_bytes(), Err(EncodeError::MessageTooLong));
}

#[test]
fn error_keeps_its_message() {
    let e = Error::with_msg("illegal msg");
    assert_eq!(e.msg().as_slice(), b"illegal msg");
}
