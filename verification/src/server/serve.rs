//! What the server does with its connections.
use crate::protocol::{unexpected_cmd, Command, Id, Unexpected};
use crate::server::coordinator::{Coordinator, ForwardRequest};
use crate::server::host::HostError;
use crate::server::response::{bad_gateway, gateway_timeout, Response};
use crate::util::select::Either;
use vstd::prelude::*;

verus! {

/// For how many seconds a client may send nothing and be told nothing.
pub const CLIENT_INACTIVE_SECS: u64 = 300;

/// For how many seconds the server waits for the host name of a request.
pub const HOST_WAIT_SECS: u64 = 15;

/// For how many seconds the server waits for the connection of a client.
pub const FORWARD_WAIT_SECS: u64 = 15;

/// What follows the first command on a client's connection.
pub enum ClientStart {
    /// Give the answer, then serve the domains until the connection ends, and strike them out.
    Serve { answer: Command, domain: Vec<String> },
    /// Give the answer, then hand the connection to the request with this number.
    Offer { answer: Command, id: Id },
    /// Give this answer and end the connection.
    Refuse(Command),
    /// Log what came, give the answer and end the connection.
    Unexpected(Unexpected),
    /// End the connection.
    Close,
}

/// Decides what a new connection of a client is for. `cmd` is its first command, if there was
/// one, and `tx` leads to the client. Only a registration with a good signature changes anything.
pub fn serve_client_start<S: Clone, W, D>(
    coordinator: &mut Coordinator<S, W, D>,
    secret: &str,
    cmd: Option<Command>,
    tx: &S,
) -> (r: ClientStart)
    ensures
        final(coordinator).waiting() == old(coordinator).waiting(),
        final(coordinator).count() == old(coordinator).count(),
        match cmd {
            Some(Command::Register(reg)) if reg.signed_with(secret@) => {
                let names = reg.domain.deep_view();
                let i = crate::server::coordinator::first_taken(
                    old(coordinator).clients().dom(),
                    names,
                    0,
                );
                if i == names.len() {
                    &&& r == (ClientStart::Serve { answer: Command::Okay, domain: reg.domain })
                    &&& crate::server::coordinator::client_added(
                        old(coordinator).clients(),
                        names,
                        *tx,
                        final(coordinator).clients(),
                    )
                } else {
                    &&& r matches ClientStart::Refuse(answer) && answer.is_error(
                        "domain "@ + names[i] + " exists"@,
                    )
                    &&& final(coordinator).clients() == old(coordinator).clients()
                }
            },
            _ => {
                &&& final(coordinator).clients() == old(coordinator).clients()
                &&& match cmd {
                    Some(Command::Register(_)) => r matches ClientStart::Refuse(answer)
                        && answer.is_error("bad signature"@),
                    Some(Command::Accept(a)) => if a.signed_with(secret@) {
                        r == (ClientStart::Offer { answer: Command::Okay, id: a.id })
                    } else {
                        r matches ClientStart::Refuse(answer) && answer.is_error("bad signature"@)
                    },
                    Some(other) => r matches ClientStart::Unexpected(u) && u.is_cmd(other),
                    None => r is Close,
                }
            },
        },
{
    match cmd {
        Some(Command::Register(register)) => {
            if !register.verify_sign(secret) {
                return ClientStart::Refuse(Command::error("bad signature"));
            }
            match coordinator.add_client(&register.domain, tx) {
                Ok(_) => ClientStart::Serve { answer: Command::Okay, domain: register.domain },
                Err(err) => ClientStart::Refuse(Command::error(err.as_str())),
            }
        },
        Some(Command::Accept(accept)) => {
            if accept.verify_sign(secret) {
                ClientStart::Offer { answer: Command::Okay, id: accept.id }
            } else {
                ClientStart::Refuse(Command::error("bad signature"))
            }
        },
        Some(other) => ClientStart::Unexpected(unexpected_cmd(&other)),
        None => ClientStart::Close,
    }
}

/// What happens on the connection of a client that is registered.
pub enum ClientEvent {
    /// A command came, or the connection ended.
    Command(Option<Command>),
    /// A request waits, or no more can come.
    Request(Option<ForwardRequest>),
    /// Nothing happened for `CLIENT_INACTIVE_SECS`.
    Inactive,
}

/// What is to be done with the connection of a client that is registered.
pub enum ClientAction {
    /// Send this command.
    Write(Command),
    /// Log what came and send the answer.
    Unexpected(Unexpected),
    /// Go on waiting.
    Wait,
    /// End the connection.
    Stop,
}

/// Decides what an event on the connection of a registered client leads to.
pub fn serve_client(event: ClientEvent) -> (r: ClientAction)
    ensures
        match event {
            ClientEvent::Command(Some(Command::Ping)) => r == ClientAction::Write(Command::Pong),
            ClientEvent::Command(Some(other)) => r matches ClientAction::Unexpected(u) && u.is_cmd(
                other,
            ),
            ClientEvent::Command(None) => r is Stop,
            ClientEvent::Request(Some(req)) => r == ClientAction::Write(
                Command::Forward { id: req.id, domain: req.domain },
            ),
            ClientEvent::Request(None) => r is Wait,
            ClientEvent::Inactive => r is Stop,
        },
{
    match event {
        ClientEvent::Command(Some(Command::Ping)) => ClientAction::Write(Command::Pong),
        ClientEvent::Command(Some(other)) => ClientAction::Unexpected(unexpected_cmd(&other)),
        ClientEvent::Command(None) => ClientAction::Stop,
        ClientEvent::Request(Some(req)) => ClientAction::Write(
            Command::Forward { id: req.id, domain: req.domain },
        ),
        ClientEvent::Request(None) => ClientAction::Wait,
        ClientEvent::Inactive => ClientAction::Stop,
    }
}

/// What follows the reading of the host name of an HTTP connection.
pub enum HttpStart {
    /// Look for a client for this host; the bytes have been read already.
    Forward(Vec<u8>, String),
    /// The connection ended before its first byte: shut it down.
    Close,
    /// The host name did not come in time: shut the connection down.
    TimedOut,
    /// Drop the connection for this reason.
    Fail(HostError),
}

/// Decides what to do with an HTTP connection: `read` is the outcome of reading its host name, or
/// right if that took `HOST_WAIT_SECS`.
pub fn serve_http_start(
    read: Either<Result<Option<(Vec<u8>, String)>, HostError>, ()>,
) -> (r: HttpStart)
    ensures
        r == match read {
            Either::Left(Ok(Some((buf, host)))) => HttpStart::Forward(buf, host),
            Either::Left(Ok(None)) => HttpStart::Close,
            Either::Left(Err(e)) => HttpStart::Fail(e),
            Either::Right(_) => HttpStart::TimedOut,
        },
{
    match read {
        Either::Left(Ok(Some((buf, host)))) => HttpStart::Forward(buf, host),
        Either::Left(Ok(None)) => HttpStart::Close,
        Either::Left(Err(e)) => HttpStart::Fail(e),
        Either::Right(_) => HttpStart::TimedOut,
    }
}

/// What follows the search for a client.
pub enum HttpAction<D> {
    /// Join the connection with this one, after sending it what was read already, if anything.
    Join(D, Option<Vec<u8>>),
    /// Send this answer and shut the connection down.
    Answer(Response),
}

/// Decides what to do with an HTTP connection of which `buf` has been read: `forwarded` is the
/// connection that a client offered for it, if one did, or right if that took
/// `FORWARD_WAIT_SECS`.
pub fn serve_http<D>(forwarded: Either<Option<D>, ()>, buf: Vec<u8>) -> (r: HttpAction<D>)
    ensures
        match forwarded {
            Either::Left(Some(dst)) => r == HttpAction::Join(
                dst,
                if buf@.len() == 0 {
                    None
                } else {
                    Some(buf)
                },
            ),
            Either::Left(None) => r matches HttpAction::Answer(a) && a.code == 502
                && a.reason_phrase@ == "Bad Gateway"@,
            Either::Right(_) => r matches HttpAction::Answer(a) && a.code == 504
                && a.reason_phrase@ == "Gateway Timeout"@,
        },
{
    match forwarded {
        Either::Left(Some(dst)) => {
            if buf.len() == 0 {
                HttpAction::Join(dst, None)
            } else {
                HttpAction::Join(dst, Some(buf))
            }
        },
        Either::Left(None) => HttpAction::Answer(bad_gateway()),
        Either::Right(_) => HttpAction::Answer(gateway_timeout()),
    }
}

} // verus!
