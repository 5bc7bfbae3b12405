//! The connection handler: what one connection does with each result that its
//! caller brings back.
//!
//! A connection waits for one thing at a time. At the start it waits for the
//! peer's address, then for the request, then, once routed, for the resource,
//! and last for the response to be written. The caller does that work and
//! reports it as an event; `handle_connection` answers with the state that
//! follows. A state says what to do next: `Routing` names the resource to load,
//! `Responding` holds the bytes to write, and `Closed` holds the outcome.

use crate::request::{lines_view, read_request, request_lines};
use crate::response::{
    blank_line_at,
    decimal_digits,
    decimal_value,
    format_response,
    lemma_response_framing,
    response_bytes,
};
use crate::route::{lemma_status_line_is_single_line, route_of, route_request, Route};
use vstd::prelude::*;
use vstd::utf8::*;

verus! {

/// Why a connection was given up. None of these stops the server.
#[derive(Clone, Copy, Debug, PartialEq, Eq, Structural)]
pub enum ConnectionError {
    /// The peer's address could not be had.
    PeerAddressFailure,
    /// The resource could not be loaded.
    ResourceUnavailable,
    /// The response was not written in full.
    WriteFailure,
}

/// Where a connection stands.
#[derive(Debug, PartialEq, Eq)]
pub enum Connection {
    /// Accepted; waits for the peer's address.
    Start,
    /// Waits for the bytes of the request.
    Reading,
    /// Routed; waits for the resource of the route.
    Routing { route: Route },
    /// Waits for the response to be written.
    Responding { response: Vec<u8> },
    /// Done, with the outcome for the caller.
    Closed { outcome: Result<(), ConnectionError> },
}

/// What the caller reports back.
#[derive(Clone, Debug, PartialEq, Eq)]
pub enum Event {
    /// Whether the peer's address could be had.
    PeerAddress { known: bool },
    /// The bytes received up to the blank line or to the end of the stream.
    Request { bytes: Vec<u8> },
    /// The bytes of the resource, or nothing where it could not be loaded.
    Resource { content: Option<Vec<u8>> },
    /// Whether the whole response was written and flushed.
    Written { complete: bool },
}

/// A connection's state as a mathematical value.
pub enum ConnectionView {
    Start,
    Reading,
    Routing { route: Route },
    Responding { response: Seq<u8> },
    Closed { outcome: Result<(), ConnectionError> },
}

/// An event as a mathematical value.
pub enum EventView {
    PeerAddress { known: bool },
    Request { bytes: Seq<u8> },
    Resource { content: Option<Seq<u8>> },
    Written { complete: bool },
}

impl View for Connection {
    type V = ConnectionView;

    open spec fn view(&self) -> ConnectionView {
        match *self {
            Connection::Start => ConnectionView::Start,
            Connection::Reading => ConnectionView::Reading,
            Connection::Routing { route } => ConnectionView::Routing { route },
            Connection::Responding { response } => ConnectionView::Responding {
                response: response@,
            },
            Connection::Closed { outcome } => ConnectionView::Closed { outcome },
        }
    }
}

impl View for Event {
    type V = EventView;

    open spec fn view(&self) -> EventView {
        match *self {
            Event::PeerAddress { known } => EventView::PeerAddress { known },
            Event::Request { bytes } => EventView::Request { bytes: bytes@ },
            Event::Resource { content } => EventView::Resource {
                content: match content {
                    Some(bytes) => Some(bytes@),
                    None => None,
                },
            },
            Event::Written { complete } => EventView::Written { complete },
        }
    }
}

/// The response for a route and the bytes of its resource.
pub open spec fn route_response(route: Route, content: Seq<u8>) -> Seq<u8> {
    response_bytes(encode_utf8(route.spec_status_line()), content)
}

/// The state that follows a state and an event. An event that the state does
/// not wait for leaves it as it is, and a closed connection stays closed.
pub open spec fn next_state(state: ConnectionView, event: EventView) -> ConnectionView {
    match (state, event) {
        (ConnectionView::Start, EventView::PeerAddress { known }) => if known {
            ConnectionView::Reading
        } else {
            ConnectionView::Closed { outcome: Err(ConnectionError::PeerAddressFailure) }
        },
        (ConnectionView::Reading, EventView::Request { bytes }) => if request_lines(bytes).len()
            == 0 {
            ConnectionView::Closed { outcome: Ok(()) }
        } else {
            ConnectionView::Routing { route: route_of(request_lines(bytes)[0]) }
        },
        (ConnectionView::Routing { route }, EventView::Resource { content }) => match content {
            Some(bytes) => ConnectionView::Responding { response: route_response(route, bytes) },
            None => ConnectionView::Closed { outcome: Err(ConnectionError::ResourceUnavailable) },
        },
        (ConnectionView::Responding { response }, EventView::Written { complete }) => if complete {
            ConnectionView::Closed { outcome: Ok(()) }
        } else {
            ConnectionView::Closed { outcome: Err(ConnectionError::WriteFailure) }
        },
        _ => state,
    }
}

/// The state after a sequence of events, taken in order.
pub open spec fn run(state: ConnectionView, events: Seq<EventView>) -> ConnectionView
    decreases events.len(),
{
    if events.len() == 0 {
        state
    } else {
        next_state(run(state, events.drop_last()), events.last())
    }
}

/// How far a connection has come: a state never goes back.
pub open spec fn progress(state: ConnectionView) -> nat {
    match state {
        ConnectionView::Start => 0,
        ConnectionView::Reading => 1,
        ConnectionView::Routing { .. } => 2,
        ConnectionView::Responding { .. } => 3,
        ConnectionView::Closed { .. } => 4,
    }
}

/// Takes a connection from one state to the next.
pub fn handle_connection(state: Connection, event: Event) -> (next: Connection)
    ensures
        next@ == next_state(state@, event@),
{
    match state {
        Connection::Start => match event {
            Event::PeerAddress { known } => if known {
                Connection::Reading
            } else {
                Connection::Closed { outcome: Err(ConnectionError::PeerAddressFailure) }
            },
            _ => Connection::Start,
        },
        Connection::Reading => match event {
            Event::Request { bytes } => {
                let lines = read_request(bytes.as_slice());
                assert(lines_view(lines@).len() == lines@.len());
                if lines.len() == 0 {
                    Connection::Closed { outcome: Ok(()) }
                } else {
                    assert(lines_view(lines@)[0] == lines@[0]@);
                    Connection::Routing { route: route_request(lines[0].as_str()) }
                }
            },
            _ => Connection::Reading,
        },
        Connection::Routing { route } => match event {
            Event::Resource { content } => match content {
                Some(bytes) => Connection::Responding {
                    response: format_response(route.status_line(), bytes.as_slice()),
                },
                None => Connection::Closed { outcome: Err(ConnectionError::ResourceUnavailable) },
            },
            _ => Connection::Routing { route },
        },
        Connection::Responding { response } => match event {
            Event::Written { complete } => if complete {
                Connection::Closed { outcome: Ok(()) }
            } else {
                Connection::Closed { outcome: Err(ConnectionError::WriteFailure) }
            },
            _ => Connection::Responding { response },
        },
        Connection::Closed { outcome } => Connection::Closed { outcome },
    }
}

/// A state never goes back, whatever the event.
pub proof fn lemma_step_never_goes_back(state: ConnectionView, event: EventView)
    ensures
        progress(state) <= progress(next_state(state, event)),
{
}

/// A run never goes back: the state after part of the events has come no
/// further than the state after all of them.
pub proof fn lemma_run_never_goes_back(state: ConnectionView, events: Seq<EventView>, n: int)
    requires
        0 <= n <= events.len(),
    ensures
        progress(run(state, events.take(n))) <= progress(run(state, events)),
    decreases events.len(),
{
    if n == events.len() {
        assert(events.take(n) =~= events);
    } else {
        assert(events.drop_last().take(n) =~= events.take(n));
        lemma_run_never_goes_back(state, events.drop_last(), n);
        lemma_step_never_goes_back(run(state, events.drop_last()), events.last());
    }
}

/// A closed connection stays closed with its outcome, whatever comes after.
pub proof fn lemma_closed_is_final(
    outcome: Result<(), ConnectionError>,
    events: Seq<EventView>,
)
    ensures
        run(ConnectionView::Closed { outcome }, events) == (ConnectionView::Closed { outcome }),
    decreases events.len(),
{
    if events.len() > 0 {
        lemma_closed_is_final(outcome, events.drop_last());
    }
}

/// The state after two runs of events, one after the other.
pub proof fn lemma_run_in_two(state: ConnectionView, first: Seq<EventView>, then: Seq<EventView>)
    ensures
        run(state, first + then) == run(run(state, first), then),
    decreases then.len(),
{
    if then.len() == 0 {
        assert(first + then =~= first);
    } else {
        assert((first + then).drop_last() =~= first + then.drop_last());
        lemma_run_in_two(state, first, then.drop_last());
    }
}

/// A request without lines is not routed and gets no response. Where the
/// events in `before` take a new connection to the point of reading, and the
/// request that is read holds no line, the connection closes with success and
/// stays so whatever events come `after`; and at no point up to there was the
/// connection routed or a response to write.
pub proof fn lemma_empty_request_gets_no_response(
    before: Seq<EventView>,
    bytes: Seq<u8>,
    after: Seq<EventView>,
    n: int,
)
    requires
        run(ConnectionView::Start, before) == ConnectionView::Reading,
        request_lines(bytes).len() == 0,
        0 <= n <= before.len(),
    ensures
        run(ConnectionView::Start, before + seq![EventView::Request { bytes }] + after) == (
            ConnectionView::Closed { outcome: Ok(()) }
        ),
        !(run(ConnectionView::Start, before.take(n)) is Routing),
        !(run(ConnectionView::Start, before.take(n)) is Responding),
{
    let request = seq![EventView::Request { bytes }];
    lemma_run_in_two(ConnectionView::Start, before, request);
    assert(request.drop_last() =~= Seq::<EventView>::empty());
    assert(run(ConnectionView::Reading, request) == next_state(
        run(ConnectionView::Reading, request.drop_last()),
        request.last(),
    ));
    lemma_run_in_two(ConnectionView::Start, before + request, after);
    lemma_closed_is_final(Ok(()), after);
    lemma_run_never_goes_back(ConnectionView::Start, before, n);
}

/// A request with at least one line is answered by its first line alone. Once
/// the resource is loaded, the response to write is the status line of the
/// first line's route, the length of the resource in decimal after the header
/// name, one blank line, and the bytes of the resource.
pub proof fn lemma_request_is_answered(bytes: Seq<u8>, content: Seq<u8>)
    requires
        request_lines(bytes).len() > 0,
    ensures
        ({
            let route = route_of(request_lines(bytes)[0]);
            let status = encode_utf8(route.spec_status_line());
            let response = route_response(route, content);
            let start: int = status.len() as int + 18;
            let end: int = start + decimal_digits(content.len()).len();
            &&& next_state(ConnectionView::Reading, EventView::Request { bytes }) == (
                ConnectionView::Routing { route }
            )
            &&& next_state(
                ConnectionView::Routing { route },
                EventView::Resource { content: Some(content) },
            ) == (ConnectionView::Responding { response })
            &&& response.subrange(0, status.len() as int) == status
            &&& decimal_value(response.subrange(start, end)) == content.len()
            &&& blank_line_at(response, end)
            &&& forall|i: int| 0 <= i < end ==> !blank_line_at(response, i)
            &&& response.skip(end + 4) == content
        }),
{
    let route = route_of(request_lines(bytes)[0]);
    lemma_status_line_is_single_line(route);
    lemma_response_framing(encode_utf8(route.spec_status_line()), content);
}

/// Several connections side by side: the states of all of them after one
/// event was delivered to the connection at position `to`.
pub open spec fn deliver(
    states: Seq<ConnectionView>,
    to: int,
    event: EventView,
) -> Seq<ConnectionView> {
    if 0 <= to < states.len() {
        states.update(to, next_state(states[to], event))
    } else {
        states
    }
}

/// The states of all connections after a sequence of deliveries, in any
/// order among the connections.
pub open spec fn run_all(
    states: Seq<ConnectionView>,
    deliveries: Seq<(int, EventView)>,
) -> Seq<ConnectionView>
    decreases deliveries.len(),
{
    if deliveries.len() == 0 {
        states
    } else {
        deliver(run_all(states, deliveries.drop_last()), deliveries.last().0, deliveries.last().1)
    }
}

/// The events among the deliveries that went to the connection at `to`.
pub open spec fn events_of(deliveries: Seq<(int, EventView)>, to: int) -> Seq<EventView>
    decreases deliveries.len(),
{
    if deliveries.len() == 0 {
        Seq::empty()
    } else if deliveries.last().0 == to {
        events_of(deliveries.drop_last(), to).push(deliveries.last().1)
    } else {
        events_of(deliveries.drop_last(), to)
    }
}

/// Connections do not touch each other. However the events of several
/// connections are interleaved, each connection ends where its own events
/// alone would have taken it, so none gets the response of another.
pub proof fn lemma_connections_are_independent(
    states: Seq<ConnectionView>,
    deliveries: Seq<(int, EventView)>,
    i: int,
)
    requires
        0 <= i < states.len(),
    ensures
        run_all(states, deliveries).len() == states.len(),
        run_all(states, deliveries)[i] == run(states[i], events_of(deliveries, i)),
    decreases deliveries.len(),
{
    if deliveries.len() > 0 {
        let earlier = deliveries.drop_last();
        lemma_connections_are_independent(states, earlier, i);
        if deliveries.last().0 == i {
            let own = events_of(earlier, i);
            assert(own.push(deliveries.last().1).drop_last() =~= own);
        }
    }
}

} // verus!
