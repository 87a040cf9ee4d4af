use vstd::prelude::*;
use vstd::string::StrSliceExecFns;

use crate::coordinator::{assignments_view, Assignment, AssignmentView, Coordinator, Event, EventView};

verus! {

/// An ASCII hexadecimal digit, in either case.
pub open spec fn is_hex_digit(c: char) -> bool {
    ('0' <= c && c <= '9') || ('a' <= c && c <= 'f') || ('A' <= c && c <= 'F')
}

/// The value of a hexadecimal digit.
pub open spec fn hex_digit_value(c: char) -> nat {
    if '0' <= c && c <= '9' {
        ((c as u32) - ('0' as u32)) as nat
    } else if 'a' <= c && c <= 'f' {
        ((c as u32) - ('a' as u32) + 10) as nat
    } else {
        ((c as u32) - ('A' as u32) + 10) as nat
    }
}

/// The value of a run of hexadecimal digits, most significant first.
pub open spec fn hex_value(d: Seq<char>) -> nat
    decreases d.len(),
{
    if d.len() == 0 {
        0
    } else {
        hex_value(d.drop_last()) * 16 + hex_digit_value(d.last())
    }
}

/// The canonical text of a UUID: 36 characters, hyphens at positions 8, 13,
/// 18 and 23, and hexadecimal digits everywhere else.
pub open spec fn is_hyphenated_uuid(s: Seq<char>) -> bool {
    &&& s.len() == 36
    &&& forall|i: int|
        0 <= i < 36 ==> if i == 8 || i == 13 || i == 18 || i == 23 {
            #[trigger] s[i] == '-'
        } else {
            is_hex_digit(s[i])
        }
}

/// The 32 digits of a hyphenated UUID text, without its hyphens.
pub open spec fn uuid_digits(s: Seq<char>) -> Seq<char> {
    s.subrange(0, 8) + s.subrange(9, 13) + s.subrange(14, 18) + s.subrange(19, 23) + s.subrange(
        24,
        36,
    )
}

/// Whether `s` is the canonical hyphenated text of an identifier.
pub fn is_canonical_identifier(s: &str) -> (r: bool)
    ensures
        r == is_hyphenated_uuid(s@),
{
    if s.unicode_len() != 36 {
        return false;
    }
    let mut i: usize = 0;
    while i < 36
        invariant
            s@.len() == 36,
            i <= 36,
            forall|j: int|
                0 <= j < i ==> if j == 8 || j == 13 || j == 18 || j == 23 {
                    #[trigger] s@[j] == '-'
                } else {
                    is_hex_digit(s@[j])
                },
        decreases 36 - i,
    {
        let c = s.get_char(i);
        let ok = if i == 8 || i == 13 || i == 18 || i == 23 {
            c == '-'
        } else {
            ('0' <= c && c <= '9') || ('a' <= c && c <= 'f') || ('A' <= c && c <= 'F')
        };
        if !ok {
            return false;
        }
        i = i + 1;
    }
    true
}

/// Relies on uuid::Uuid::try_parse: on the canonical hyphenated form it reads
/// the 32 digits as one big-endian number (`try_parse` through
/// `parse_hyphenated` and `decode_hex32`, then `Uuid::as_u128`).
#[verifier::external_body]
fn parse_identifier(s: &str) -> (r: Option<u128>)
    requires
        is_hyphenated_uuid(s@),
    ensures
        r == Some(hex_value(uuid_digits(s@)) as u128),
{
    uuid::Uuid::try_parse(s).ok().map(|u| u.as_u128())
}

/// Where a connection stands in the protocol.
#[derive(Clone, Copy, Debug, PartialEq, Eq, Structural)]
pub enum ConnectionState {
    /// No identifier has been accepted yet.
    Unidentified,
    /// The peer identified as the client with this identifier.
    Identified(u128),
    /// The peer listens to events; no further request is read.
    Streaming(u128),
}

/// A decoded request line.
pub enum Request {
    /// The text of the identifier, or nothing when the value was not a string.
    Identify(Option<String>),
    Ping,
    Status,
    Listen,
    CurrentBooking,
}

/// A line sent back to the peer.
pub enum Response {
    Pong,
    StatusAnswer(usize),
    CurrentBooking(Vec<Assignment>),
    NewAssignment(Assignment),
    Cancellation(u128),
}

pub enum ResponseView {
    Pong,
    StatusAnswer(usize),
    CurrentBooking(Seq<AssignmentView>),
    NewAssignment(AssignmentView),
    Cancellation(u128),
}

impl View for Response {
    type V = ResponseView;

    open spec fn view(&self) -> ResponseView {
        match self {
            Response::Pong => ResponseView::Pong,
            Response::StatusAnswer(n) => ResponseView::StatusAnswer(*n),
            Response::CurrentBooking(v) => ResponseView::CurrentBooking(
                v@.map_values(|a: Assignment| a@),
            ),
            Response::NewAssignment(a) => ResponseView::NewAssignment(a@),
            Response::Cancellation(id) => ResponseView::Cancellation(*id),
        }
    }
}

/// Why a connection ends.
#[derive(Clone, Debug, PartialEq, Eq)]
pub enum ConnectionError {
    Io(String),
    Json(String),
    Codec(String),
    /// The stream ended while a request was awaited.
    ClientDidntRespond,
    BroadcastError,
    /// A request other than `Identify` came before any identification.
    NoIdentification,
    /// The value of `Identify` is not an identifier.
    InvalidIdentifier,
    /// The identifier names no client of the registry.
    UnregisteredIdentifier,
}

/// The state after a request, and the line to send back, if any.
pub struct Outcome {
    pub state: ConnectionState,
    pub reply: Option<Response>,
}

pub open spec fn reply_view(reply: Option<Response>) -> Option<ResponseView> {
    match reply {
        Some(r) => Some(r@),
        None => None,
    }
}

/// Whether the registry of `c` holds a client with identifier `id`.
pub open spec fn registered(c: Coordinator, id: u128) -> bool {
    exists|i: int|
        0 <= i < c.registry().clients().len() && (#[trigger] c.registry().clients()[i]).id == id
}

/// What an `Identify` whose value was read as `parsed` gives.
pub open spec fn identify_spec(parsed: Option<u128>, c: Coordinator) -> Result<ConnectionState, ConnectionError> {
    match parsed {
        None => Err(ConnectionError::InvalidIdentifier),
        Some(id) => if registered(c, id) {
            Ok(ConnectionState::Identified(id))
        } else {
            Err(ConnectionError::UnregisteredIdentifier)
        },
    }
}

/// Accepts an identifier that was read from an `Identify` request, if the
/// registry knows it.
pub fn identify(parsed: Option<u128>, coordinator: &Coordinator) -> (r: Result<ConnectionState, ConnectionError>)
    ensures
        r == identify_spec(parsed, *coordinator),
{
    match parsed {
        None => Err(ConnectionError::InvalidIdentifier),
        Some(id) => if coordinator.client_identified(id) {
            Ok(ConnectionState::Identified(id))
        } else {
            Err(ConnectionError::UnregisteredIdentifier)
        },
    }
}

/// Handles one request of a connection that is not yet streaming.
/// `Identify` is accepted in any state and answers nothing; every other
/// request needs an identified peer. `Listen` moves to streaming.
pub fn handle_request(state: ConnectionState, request: Request, coordinator: &Coordinator) -> (r: Result<Outcome, ConnectionError>)
    requires
        coordinator.wf(),
        !(state is Streaming),
    ensures
        match request {
            Request::Identify(value) => match value {
                None => r == Err::<Outcome, ConnectionError>(ConnectionError::InvalidIdentifier),
                Some(s) => if !is_hyphenated_uuid(s@) {
                    r == Err::<Outcome, ConnectionError>(ConnectionError::InvalidIdentifier)
                } else {
                    match identify_spec(Some(hex_value(uuid_digits(s@)) as u128), *coordinator) {
                        Ok(next) => r matches Ok(o) && o.state == next && o.reply is None,
                        Err(e) => r == Err::<Outcome, ConnectionError>(e),
                    }
                },
            },
            _ => match state {
                ConnectionState::Identified(id) => r matches Ok(o) && match request {
                    Request::Ping => o.state == state && reply_view(o.reply) == Some(ResponseView::Pong),
                    Request::Status => o.state == state && reply_view(o.reply) == Some(
                        ResponseView::StatusAnswer(coordinator.ledger().len() as usize),
                    ),
                    Request::CurrentBooking => o.state == state && reply_view(o.reply) == Some(
                        ResponseView::CurrentBooking(assignments_view(*coordinator, id)),
                    ),
                    _ => o.state == ConnectionState::Streaming(id) && o.reply is None,
                },
                _ => r == Err::<Outcome, ConnectionError>(ConnectionError::NoIdentification),
            },
        },
{
    match request {
        Request::Identify(value) => match value {
            None => Err(ConnectionError::InvalidIdentifier),
            Some(s) => {
                if !is_canonical_identifier(s.as_str()) {
                    return Err(ConnectionError::InvalidIdentifier);
                }
                let parsed = parse_identifier(s.as_str());
                match identify(parsed, coordinator) {
                    Ok(next) => Ok(Outcome { state: next, reply: None }),
                    Err(e) => Err(e),
                }
            },
        },
        Request::Ping => match state {
            ConnectionState::Identified(_) => Ok(Outcome { state, reply: Some(Response::Pong) }),
            _ => Err(ConnectionError::NoIdentification),
        },
        Request::Status => match state {
            ConnectionState::Identified(_) => Ok(
                Outcome {
                    state,
                    reply: Some(Response::StatusAnswer(coordinator.get_status_count())),
                },
            ),
            _ => Err(ConnectionError::NoIdentification),
        },
        Request::CurrentBooking => match state {
            ConnectionState::Identified(id) => Ok(
                Outcome {
                    state,
                    reply: Some(Response::CurrentBooking(coordinator.assignments_for(id))),
                },
            ),
            _ => Err(ConnectionError::NoIdentification),
        },
        Request::Listen => match state {
            ConnectionState::Identified(id) => Ok(
                Outcome { state: ConnectionState::Streaming(id), reply: None },
            ),
            _ => Err(ConnectionError::NoIdentification),
        },
    }
}

/// The line that relays a published event to a listening peer.
pub fn notification(event: &Event) -> (r: Response)
    ensures
        r@ == match event@ {
            EventView::Assigned(a) => ResponseView::NewAssignment(a),
            EventView::Cancelled(id) => ResponseView::Cancellation(id),
        },
{
    match event {
        Event::Assigned(a) => Response::NewAssignment(a.copy()),
        Event::Cancelled(id) => Response::Cancellation(*id),
    }
}

} // verus!
