use protohackers::codec::ClientMessage;
use protohackers::codec::IAmCamera;
use protohackers::codec::IAmDispatcher;
use protohackers::codec::Plate;
use protohackers::codec::WantHeartbeat;
use protohackers::heartbeat::heartbeat_count;
use protohackers::heartbeat::heartbeat_enabled;
use protohackers::registry::Registry;
use protohackers::session::ClientState;
use protohackers::session::SessionAction;
use protohackers::session::handle_message;

fn camera(road: u16, mile: u16, limit: u16) -> ClientState {
    ClientState::Camera { state: IAmCamera { road, mile, limit } }
}

fn dispatcher(roads: Vec<u16>) -> ClientState {
    ClientState::Dispatcher {
        state: IAmDispatcher { numroads: roads.len() as u8, roads },
    }
}

#[test]
fn plate_before_identification_is_rejected() {
    let step = handle_message(
        ClientState::Connecting,
        false,
        ClientMessage::Plate(Plate { plate: b"ABC".to_vec(), timestamp: 0 }),
    );
    match step.action {
        SessionAction::Reject { error } => {
            assert_eq!(error.msg().as_slice(), b"You are not a camera");
        }
        _ => panic!("a plate before identification must be rejected"),
    }
    assert!(matches!(step.state, ClientState::Connecting));
}

#[test]
fn plate_on_dispatcher_is_rejected() {
    let step = handle_message(
        dispatcher(vec![1]),
        false,
        ClientMessage::Plate(Plate { plate: b"ABC".to_vec(), timestamp: 0 }),
    );
    assert!(matches!(step.action, SessionAction::Reject { .. }));
}

#[test]
fn second_identification_is_rejected_whatever_the_roles() {
    let cam = IAmCamera { road: 1, mile: 2, limit: 60 };
    let step = handle_message(camera(1, 2, 60), false, ClientMessage::IAmCamera(cam));
    match step.action {
        SessionAction::Reject { error } => {
            assert_eq!(error.msg().as_slice(), b"You are already a camera");
        }
        _ => panic!("a second IAmCamera must be rejected"),
    }

    let msg = ClientMessage::IAmDispatcher(IAmDispatcher { numroads: 1, roads: vec![1] });
    let step = handle_message(dispatcher(vec![1]), false, msg);
    match step.action {
        SessionAction::Reject { error } => {
            assert_eq!(error.msg().as_slice(), b"You are already a dispatcher");
        }
        _ => panic!("a second IAmDispatcher must be rejected"),
    }

    let msg = ClientMessage::IAmDispatcher(IAmDispatcher { numroads: 1, roads: vec![1] });
    let step = handle_message(camera(1, 2, 60), false, msg);
    assert!(matches!(step.action, SessionAction::Reject { .. }));

    let step = handle_message(
        dispatcher(vec![1]),
        false,
        ClientMessage::IAmCamera(IAmCamera { road: 1, mile: 2, limit: 60 }),
    );
    assert!(matches!(step.action, SessionAction::Reject { .. }));
}

#[test]
fn identification_and_plates_flow_to_the_registry() {
    let step = handle_message(
        ClientState::Connecting,
        false,
        ClientMessage::IAmCamera(IAmCamera { road: 7, mile: 8, limit: 80 }),
    );
    assert!(matches!(step.action, SessionAction::Proceed));
    assert!(matches!(step.state, ClientState::Camera { .. }));

    let step = handle_message(
        step.state,
        false,
        ClientMessage::Plate(Plate { plate: b"XY".to_vec(), timestamp: 99 }),
    );
    match step.action {
        SessionAction::RecordSighting { road, mile, limit, plate, timestamp } => {
            assert_eq!((road, mile, limit, timestamp), (7, 8, 80, 99));
            assert_eq!(plate, b"XY".to_vec());
        }
        _ => panic!("a camera's plate must be recorded"),
    }
}

#[test]
fn second_heartbeat_request_is_rejected() {
    let msg = ClientMessage::WantHeartbeat(WantHeartbeat { interval: 5 });
    let step = handle_message(ClientState::Connecting, false, msg);
    assert!(step.heartbeat_running);
    assert!(matches!(step.action, SessionAction::StartHeartbeat { interval: 5 }));

    let msg = ClientMessage::WantHeartbeat(WantHeartbeat { interval: 5 });
    let step = handle_message(step.state, step.heartbeat_running, msg);
    match step.action {
        SessionAction::Reject { error } => {
            assert_eq!(error.msg().as_slice(), b"Cannot request multiple heartbeats");
        }
        _ => panic!("a second WantHeartbeat must be rejected"),
    }
}

#[test]
fn hundred_miles_in_an_hour_is_ticketed_at_exactly_100mph() {
    let mut reg = Registry::new();
    let drained = reg.bind_dispatcher(1, 42);
    assert!(drained.is_empty());
    let plate = b"ABC".to_vec();
    let first = reg.record_sighting(1, &plate, 0, 0, 60);
    assert!(first.is_empty());
    let tickets = reg.record_sighting(1, &plate, 100, 3600, 60);
    assert_eq!(tickets.len(), 1);
    let t = &tickets[0];
    assert_eq!(t.plate, plate);
    assert_eq!(t.road, 1);
    assert_eq!(t.mile1, 0);
    assert_eq!(t.timestamp1, 0);
    assert_eq!(t.mile2, 100);
    assert_eq!(t.timestamp2, 3600);
    assert_eq!(t.speed, 10000);
}

#[test]
fn exactly_the_limit_is_no_offense() {
    let mut reg = Registry::new();
    reg.bind_dispatcher(1, 42);
    let plate = b"ABC".to_vec();
    reg.record_sighting(1, &plate, 0, 0, 60);
    let tickets = reg.record_sighting(1, &plate, 60, 3600, 60);
    assert!(tickets.is_empty());
}

#[test]
fn one_ticket_per_plate_and_day() {
    let mut reg = Registry::new();
    reg.bind_dispatcher(1, 42);
    let plate = b"ABC".to_vec();
    reg.record_sighting(1, &plate, 0, 0, 10);
    let tickets = reg.record_sighting(1, &plate, 100, 3600, 10);
    assert_eq!(tickets.len(), 1);
    // A third sighting pairs over the limit with both earlier ones, but
    // every such pair's day range covers the already-ticketed day.
    let tickets = reg.record_sighting(1, &plate, 200, 7200, 10);
    assert!(tickets.is_empty());
    // The next day the plate can be ticketed again.
    let day = 86400;
    reg.record_sighting(1, &plate, 0, day, 10);
    let tickets = reg.record_sighting(1, &plate, 100, day + 3600, 10);
    assert_eq!(tickets.len(), 1);
}

#[test]
fn ticket_spanning_days_blocks_both_days() {
    let mut reg = Registry::new();
    reg.bind_dispatcher(1, 42);
    let plate = b"ABC".to_vec();
    // A pair spanning day 0 and day 1.
    reg.record_sighting(1, &plate, 0, 86000, 10);
    let tickets = reg.record_sighting(1, &plate, 100, 86400 + 3600, 10);
    assert_eq!(tickets.len(), 1);
    // A fast pair wholly inside day 1 is blocked by the span.
    reg.record_sighting(1, &plate, 0, 86400 + 40000, 10);
    let tickets = reg.record_sighting(1, &plate, 100, 86400 + 43600, 10);
    assert!(tickets.is_empty());
}

#[test]
fn queued_tickets_reach_a_later_dispatcher_in_fifo_order() {
    let mut reg = Registry::new();
    let a = b"AAA".to_vec();
    let b = b"BBB".to_vec();
    reg.record_sighting(1, &a, 0, 0, 10);
    let none = reg.record_sighting(1, &a, 100, 3600, 10);
    assert!(none.is_empty());
    reg.record_sighting(1, &b, 0, 0, 10);
    let none = reg.record_sighting(1, &b, 100, 7200, 10);
    assert!(none.is_empty());
    // No dispatcher was bound: both tickets were retained, in order.
    let drained = reg.bind_dispatcher(1, 7);
    assert_eq!(drained.len(), 2);
    assert_eq!(drained[0].plate, a);
    assert_eq!(drained[1].plate, b);
    // The queue is now empty.
    let drained = reg.bind_dispatcher(1, 8);
    assert!(drained.is_empty());
}

#[test]
fn binding_many_roads_drains_each_queue_once() {
    let mut reg = Registry::new();
    let a = b"AAA".to_vec();
    let b = b"BBB".to_vec();
    reg.record_sighting(1, &a, 0, 0, 10);
    reg.record_sighting(1, &a, 100, 3600, 10);
    reg.record_sighting(2, &b, 0, 0, 10);
    reg.record_sighting(2, &b, 100, 3600, 10);
    // Claiming road 2 twice must not duplicate its queue.
    let drained = reg.bind_dispatcher_all(&vec![2, 1, 2], 7);
    assert_eq!(drained.len(), 2);
    assert_eq!(drained[0].plate, b);
    assert_eq!(drained[1].plate, a);
}

#[test]
fn unbinding_makes_tickets_queue_again() {
    let mut reg = Registry::new();
    reg.bind_dispatcher(1, 7);
    assert_eq!(reg.first_dispatcher(1), Some(7));
    reg.unbind_dispatcher(7);
    assert_eq!(reg.first_dispatcher(1), None);
    let plate = b"ABC".to_vec();
    reg.record_sighting(1, &plate, 0, 0, 10);
    let tickets = reg.record_sighting(1, &plate, 100, 3600, 10);
    assert!(tickets.is_empty());
    let drained = reg.bind_dispatcher(1, 9);
    assert_eq!(drained.len(), 1);
}

#[test]
fn requeued_tickets_wait_for_the_next_dispatcher() {
    let mut reg = Registry::new();
    reg.bind_dispatcher(1, 7);
    let plate = b"ABC".to_vec();
    reg.record_sighting(1, &plate, 0, 0, 10);
    let tickets = reg.record_sighting(1, &plate, 100, 3600, 10);
    assert_eq!(tickets.len(), 1);
    // The dispatcher vanished before the hand-off: the ticket goes back.
    reg.unbind_dispatcher(7);
    let ticket = tickets.into_iter().next().unwrap();
    reg.requeue_ticket(1, ticket);
    let drained = reg.bind_dispatcher(1, 8);
    assert_eq!(drained.len(), 1);
    assert_eq!(drained[0].plate, plate);
}

#[test]
fn roads_do_not_interfere() {
    let mut reg = Registry::new();
    reg.bind_dispatcher(1, 7);
    let plate = b"ABC".to_vec();
    reg.record_sighting(2, &plate, 0, 0, 10);
    let tickets = reg.record_sighting(2, &plate, 100, 3600, 10);
    // Road 2 has no dispatcher: the ticket queues there.
    assert!(tickets.is_empty());
    // The same plate on road 1 is judged independently.
    reg.record_sighting(1, &plate, 0, 50000, 10);
    let tickets = reg.record_sighting(1, &plate, 100, 53600, 10);
    assert_eq!(tickets.len(), 1);
}

#[test]
fn heartbeat_interval_zero_sends_nothing() {
    assert!(!heartbeat_enabled(0));
    assert_eq!(heartbeat_count(0, 1000), 0);
    assert_eq!(heartbeat_count(0, 0), 0);
}

#[test]
fn heartbeat_cadence_is_exact() {
    assert!(heartbeat_enabled(25));
    // Beats at 0, 25, 50, 75 deciseconds fall inside a 100-decisecond window.
    assert_eq!(heartbeat_count(25, 100), 4);
    assert_eq!(heartbeat_count(25, 101), 5);
    assert_eq!(heartbeat_count(30, 100), 4);
    assert_eq!(heartbeat_count(100, 100), 1);
    assert_eq!(heartbeat_count(100, 0), 0);
}
