//! The acceptance loop: what the server does with the result of binding its
//! endpoint and of each attempt to accept a connection.
//!
//! The loop knows nothing of how a connection ends. A handler runs on its own
//! and reports to nobody, so no outcome of a connection is an event here, and
//! none can stop the server. Only a failure to bind or to accept does.

use vstd::prelude::*;

verus! {

/// Why the server stopped. Both are fatal.
#[derive(Clone, Copy, Debug, PartialEq, Eq, Structural)]
pub enum ServerError {
    /// The listening endpoint could not be bound.
    BindFailure,
    /// Accepting a connection failed.
    AcceptFailure,
}

/// Where the acceptance loop stands.
#[derive(Clone, Copy, Debug, PartialEq, Eq, Structural)]
pub enum Server {
    /// Waits for the listening endpoint to be bound.
    Binding,
    /// Waits for the next connection.
    Accepting,
    /// Stopped for good.
    Stopped { error: ServerError },
}

/// What the caller reports back.
#[derive(Clone, Copy, Debug, PartialEq, Eq, Structural)]
pub enum ServerEvent {
    /// Whether the endpoint was bound.
    Bound { ok: bool },
    /// Whether a connection was accepted.
    Accepted { ok: bool },
}

/// What the caller does next.
#[derive(Clone, Copy, Debug, PartialEq, Eq, Structural)]
pub enum ServerAction {
    /// Bind the listening endpoint.
    Bind,
    /// Wait for the next connection.
    Accept,
    /// Hand the accepted connection to a handler of its own and, without
    /// waiting for that handler, wait for the next connection.
    Dispatch,
    /// Leave the process with the error.
    Exit { error: ServerError },
}

/// What a state calls for when nothing new has happened.
pub open spec fn pending_action(state: Server) -> ServerAction {
    match state {
        Server::Binding => ServerAction::Bind,
        Server::Accepting => ServerAction::Accept,
        Server::Stopped { error } => ServerAction::Exit { error },
    }
}

/// The state that follows a state and an event, and what to do then. An event
/// that the state does not wait for changes nothing.
pub open spec fn next_server(state: Server, event: ServerEvent) -> (Server, ServerAction) {
    match (state, event) {
        (Server::Binding, ServerEvent::Bound { ok }) => if ok {
            (Server::Accepting, ServerAction::Accept)
        } else {
            (
                Server::Stopped { error: ServerError::BindFailure },
                ServerAction::Exit { error: ServerError::BindFailure },
            )
        },
        (Server::Accepting, ServerEvent::Accepted { ok }) => if ok {
            (Server::Accepting, ServerAction::Dispatch)
        } else {
            (
                Server::Stopped { error: ServerError::AcceptFailure },
                ServerAction::Exit { error: ServerError::AcceptFailure },
            )
        },
        _ => (state, pending_action(state)),
    }
}

/// The state after a sequence of events, taken in order.
pub open spec fn serve(state: Server, events: Seq<ServerEvent>) -> Server
    decreases events.len(),
{
    if events.len() == 0 {
        state
    } else {
        next_server(serve(state, events.drop_last()), events.last()).0
    }
}

/// Takes the acceptance loop one step further.
pub fn run_server(state: Server, event: ServerEvent) -> (step: (Server, ServerAction))
    ensures
        step == next_server(state, event),
{
    match state {
        Server::Binding => match event {
            ServerEvent::Bound { ok } => if ok {
                (Server::Accepting, ServerAction::Accept)
            } else {
                (
                    Server::Stopped { error: ServerError::BindFailure },
                    ServerAction::Exit { error: ServerError::BindFailure },
                )
            },
            _ => (Server::Binding, ServerAction::Bind),
        },
        Server::Accepting => match event {
            ServerEvent::Accepted { ok } => if ok {
                (Server::Accepting, ServerAction::Dispatch)
            } else {
                (
                    Server::Stopped { error: ServerError::AcceptFailure },
                    ServerAction::Exit { error: ServerError::AcceptFailure },
                )
            },
            _ => (Server::Accepting, ServerAction::Accept),
        },
        Server::Stopped { error } => (Server::Stopped { error }, ServerAction::Exit { error }),
    }
}

/// A stopped server stays stopped with its error, whatever comes after.
pub proof fn lemma_stopped_is_final(error: ServerError, events: Seq<ServerEvent>)
    ensures
        serve(Server::Stopped { error }, events) == (Server::Stopped { error }),
    decreases events.len(),
{
    if events.len() > 0 {
        lemma_stopped_is_final(error, events.drop_last());
    }
}

/// A server that accepts goes on accepting for as long as no attempt to accept
/// fails, however many connections come.
pub proof fn lemma_server_keeps_accepting(events: Seq<ServerEvent>)
    requires
        forall|i: int| 0 <= i < events.len() ==> events[i] != (ServerEvent::Accepted { ok: false }),
    ensures
        serve(Server::Accepting, events) == Server::Accepting,
    decreases events.len(),
{
    if events.len() > 0 {
        let earlier = events.drop_last();
        assert forall|i: int| 0 <= i < earlier.len() implies earlier[i] != (ServerEvent::Accepted {
            ok: false,
        }) by {
            assert(earlier[i] == events[i]);
        }
        lemma_server_keeps_accepting(earlier);
    }
}

/// A server stops only where binding or accepting failed: if it has stopped
/// after some events, one of them reported such a failure.
pub proof fn lemma_server_stops_only_on_failure(events: Seq<ServerEvent>)
    requires
        serve(Server::Binding, events) is Stopped,
    ensures
        exists|i: int|
            0 <= i < events.len() && (#[trigger] events[i] == (ServerEvent::Bound { ok: false })
                || events[i] == (ServerEvent::Accepted { ok: false })),
    decreases events.len(),
{
    if events.len() > 0 {
        let earlier = events.drop_last();
        if serve(Server::Binding, earlier) is Stopped {
            lemma_server_stops_only_on_failure(earlier);
            let i = choose|i: int|
                0 <= i < earlier.len() && (#[trigger] earlier[i] == (ServerEvent::Bound {
                    ok: false,
                }) || earlier[i] == (ServerEvent::Accepted { ok: false }));
            assert(events[i] == earlier[i]);
        } else {
            let last = events.len() - 1;
            assert(events[last] == (ServerEvent::Bound { ok: false }) || events[last] == (
                ServerEvent::Accepted { ok: false }
            ));
        }
    }
}

} // verus!
