use bookd_ceo::args::Cli;
use bookd_ceo::booking::{Booking, Timestamp};
use bookd_ceo::clients::{Client, ClientGroup};
use bookd_ceo::coordinator::{Coordinator, Event};
use bookd_ceo::protocol::{
    handle_request, identify, is_canonical_identifier, notification, ConnectionError,
    ConnectionState, Request, Response,
};

const ID_TEXT: &str = "550e8400-e29b-41d4-a716-446655440000";
const ID: u128 = 0x550e8400_e29b_41d4_a716_446655440000;

fn coordinator() -> Coordinator {
    Coordinator::new(ClientGroup::load(vec![
        Client { id: ID, name: "desk".to_string(), uses: 0, order: 0 },
        Client { id: 7, name: "other".to_string(), uses: 1, order: 1 },
    ]))
}

fn booking(id: u128) -> Booking {
    Booking {
        id,
        start: Timestamp { secs: 10, nanos: 0 },
        end: Timestamp { secs: 20, nanos: 5 },
        rooms: vec!["r1".to_string(), "r2".to_string()] }
}

fn identify_text(text: &str, c: &Coordinator) -> Result<ConnectionState, ConnectionError> {
    handle_request(ConnectionState::Unidentified, Request::Identify(Some(text.to_string())), c)
        .map(|o| {
            assert!(o.reply.is_none());
            o.state
        })
}

#[test]
fn requests_before_identify_are_refused() {
    let c = coordinator();
    for request in [Request::Ping, Request::Status, Request::Listen, Request::CurrentBooking] {
        match handle_request(ConnectionState::Unidentified, request, &c) {
            Err(e) => assert_eq!(e, ConnectionError::NoIdentification),
            Ok(_) => panic!("a request before identification was answered"),
        }
    }
}

#[test]
fn identify_accepts_registered_identifier() {
    let c = coordinator();
    assert_eq!(identify_text(ID_TEXT, &c), Ok(ConnectionState::Identified(ID)));
}

#[test]
fn identify_accepts_uppercase_text() {
    let c = coordinator();
    assert_eq!(
        identify_text("550E8400-E29B-41D4-A716-446655440000", &c),
        Ok(ConnectionState::Identified(ID))
    );
}

#[test]
fn identify_rejects_malformed_identifier() {
    let c = coordinator();
    assert_eq!(identify_text("not-a-uuid", &c), Err(ConnectionError::InvalidIdentifier));
    assert_eq!(identify_text("", &c), Err(ConnectionError::InvalidIdentifier));
    match handle_request(ConnectionState::Unidentified, Request::Identify(None), &c) {
        Err(e) => assert_eq!(e, ConnectionError::InvalidIdentifier),
        Ok(_) => panic!("a non-string identifier was accepted"),
    }
}

#[test]
fn identify_rejects_unregistered_identifier() {
    let c = coordinator();
    assert_eq!(
        identify_text("00000000-0000-0000-0000-000000000001", &c),
        Err(ConnectionError::UnregisteredIdentifier)
    );
}

#[test]
fn identify_from_parsed_value() {
    let c = coordinator();
    assert_eq!(identify(Some(7), &c), Ok(ConnectionState::Identified(7)));
    assert_eq!(identify(Some(8), &c), Err(ConnectionError::UnregisteredIdentifier));
    assert_eq!(identify(None, &c), Err(ConnectionError::InvalidIdentifier));
}

#[test]
fn identify_again_switches_identity() {
    let c = coordinator();
    let o = handle_request(
        ConnectionState::Identified(7),
        Request::Identify(Some(ID_TEXT.to_string())),
        &c,
    )
    .ok()
    .unwrap();
    assert_eq!(o.state, ConnectionState::Identified(ID));
}

#[test]
fn ping_answers_pong() {
    let c = coordinator();
    let o = handle_request(ConnectionState::Identified(ID), Request::Ping, &c).ok().unwrap();
    assert_eq!(o.state, ConnectionState::Identified(ID));
    assert!(matches!(o.reply, Some(Response::Pong)));
}

#[test]
fn status_answers_held_count() {
    let mut c = coordinator();
    c.schedule_and_broadcast(booking(1));
    c.schedule_and_broadcast(booking(2));
    c.schedule_and_broadcast(booking(3));
    let o = handle_request(ConnectionState::Identified(7), Request::Status, &c).ok().unwrap();
    assert!(matches!(o.reply, Some(Response::StatusAnswer(3))));
}

#[test]
fn current_booking_answers_own_assignments() {
    let mut c = coordinator();
    c.schedule_and_broadcast(booking(1));
    c.schedule_and_broadcast(booking(2));
    c.schedule_and_broadcast(booking(3));
    let o = handle_request(ConnectionState::Identified(ID), Request::CurrentBooking, &c)
        .ok()
        .unwrap();
    match o.reply {
        Some(Response::CurrentBooking(v)) => {
            let ids: Vec<u128> = v.iter().map(|a| a.booking.id).collect();
            assert_eq!(ids, vec![1, 3]);
            assert!(v.iter().all(|a| a.assigned_client.id == ID));
        }
        _ => panic!("expected the current bookings"),
    }
}

#[test]
fn listen_starts_streaming_silently() {
    let c = coordinator();
    let o = handle_request(ConnectionState::Identified(ID), Request::Listen, &c).ok().unwrap();
    assert_eq!(o.state, ConnectionState::Streaming(ID));
    assert!(o.reply.is_none());
}

#[test]
fn notification_relays_events() {
    let mut c = coordinator();
    let mut rx = c.subscribe();
    c.schedule_and_broadcast(booking(11));
    assert!(c.cancel(11));
    match notification(&rx.try_recv().ok().unwrap()) {
        Response::NewAssignment(a) => {
            assert_eq!(a.booking.id, 11);
            assert_eq!(a.assigned_client.id, ID);
        }
        _ => panic!("expected a new assignment"),
    }
    assert!(matches!(notification(&Event::Cancelled(11)), Response::Cancellation(11)));
    assert!(matches!(notification(&rx.try_recv().ok().unwrap()), Response::Cancellation(11)));
}

#[test]
fn worker_threads_never_below_lowest() {
    let cli = |threads| Cli { threads, bind_address: None, port: None };
    assert_eq!(cli(Some(2)).worker_threads(Some(16)), 4);
    assert_eq!(cli(Some(8)).worker_threads(Some(2)), 8);
    assert_eq!(cli(Some(0)).worker_threads(Some(6)), 6);
    assert_eq!(cli(None).worker_threads(Some(12)), 12);
    assert_eq!(cli(None).worker_threads(Some(1)), 4);
    assert_eq!(cli(None).worker_threads(None), 4);
}

#[test]
fn bind_defaults() {
    let none = Cli { threads: None, bind_address: None, port: None };
    assert_eq!(none.bind_ip(), "0.0.0.0");
    assert_eq!(none.bind_port(), 8080);
    let given = Cli { threads: None, bind_address: Some("127.0.0.1".to_string()), port: Some(9000) };
    assert_eq!(given.bind_ip(), "127.0.0.1");
    assert_eq!(given.bind_port(), 9000);
}

#[test]
fn identify_rejects_other_uuid_forms() {
    let c = coordinator();
    for text in [
        "550e8400e29b41d4a716446655440000",
        "{550e8400-e29b-41d4-a716-446655440000}",
        "urn:uuid:550e8400-e29b-41d4-a716-446655440000",
        "550e8400-e29b-41d4-a716-44665544000g",
        "550e8400+e29b-41d4-a716-446655440000",
    ] {
        assert_eq!(identify_text(text, &c), Err(ConnectionError::InvalidIdentifier), "{}", text);
    }
}

#[test]
fn canonical_identifier_form() {
    assert!(is_canonical_identifier(ID_TEXT));
    assert!(is_canonical_identifier("550E8400-E29B-41D4-A716-446655440000"));
    assert!(!is_canonical_identifier("550e8400e29b41d4a716446655440000"));
    assert!(!is_canonical_identifier("550e8400-e29b-41d4-a716-4466554400000"));
    assert!(!is_canonical_identifier("550e8400-e29b-41d4-a716-44665544000é"));
    assert!(!is_canonical_identifier(""));
}
