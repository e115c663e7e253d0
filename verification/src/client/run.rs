//! What a client does with its connections.
use crate::client::options::Options;
use crate::protocol::{
    unexpected_cmd, unexpected_domain, Accept, Command, Id, Register, Unexpected,
};
use crate::util::error::StrError;
use vstd::prelude::*;

verus! {

/// After how many seconds of silence the client asks for a sign of life.
pub const PING_SECS: u64 = 60;

/// How many questions may go without an answer.
pub const MAX_PINGS: u32 = 3;

/// The command with which a client registers its domains.
pub fn register_cmd<A>(options: &Options<A>) -> (r: Command)
    ensures
        r matches Command::Register(reg) && {
            &&& reg.domain.deep_view() == crate::client::options::domains(options.forward@)
            &&& reg.signed_with(options.secret@)
        },
{
    Command::Register(Register::new(options.domain(), options.secret.as_str()))
}

/// Decides whether a registration succeeded; `reply` is the answer, if there was one.
pub fn register(reply: Option<Command>) -> (r: Result<(), StrError>)
    ensures
        match reply {
            Some(Command::Okay) => r is Ok,
            Some(Command::Error(e)) => r == Err::<(), StrError>(e),
            Some(cmd) => r matches Err(e) && e@ == "unexpected cmd "@ + crate::protocol::shown(cmd),
            None => r matches Err(e) && e@ == "server shutdown"@,
        },
{
    match reply {
        Some(Command::Okay) => Ok(()),
        Some(Command::Error(err)) => Err(err),
        Some(cmd) => {
            let text = "unexpected cmd ".to_owned().concat(cmd.show().as_str());
            Err(StrError::new(text.as_str()))
        },
        None => Err(StrError::new("server shutdown")),
    }
}

/// What happens on the connection of a client that is registered.
pub enum RunEvent {
    /// A command came, or the connection ended.
    Received(Option<Command>),
    /// Nothing came for `PING_SECS`.
    Silence,
    /// A request could not be taken and the server has to be told so; or no more such can come.
    Rejected(Option<Command>),
}

/// What is to be done.
pub enum RunAction<A> {
    /// Take the request with this number to this destination.
    Forward(A, Id),
    /// Send this command.
    Write(Command),
    /// Log the command that came and send the answer.
    Unexpected(Unexpected),
    /// Log the request that came and send the answer.
    UnexpectedDomain(Unexpected),
    /// Go on waiting.
    Wait,
    /// The server has ended the connection.
    Finish,
    /// Give up.
    Fail(StrError),
}

/// The state of a registered client: the questions that have gone without an answer.
#[derive(Clone, Copy, Debug, PartialEq, Eq, Structural)]
pub struct Run {
    pub ping: u32,
}

/// The questions without an answer after an event.
pub open spec fn pings_after(ping: int, event: RunEvent) -> int {
    match event {
        RunEvent::Received(_) => 0,
        RunEvent::Silence => if ping >= MAX_PINGS {
            ping
        } else {
            ping + 1
        },
        RunEvent::Rejected(_) => ping,
    }
}

impl Run {
    /// No question has been asked.
    pub fn new() -> (r: Run)
        ensures
            r.ping == 0,
    {
        Run { ping: 0 }
    }

    /// Decides what an event leads to.
    pub fn run<A: Copy>(&mut self, options: &Options<A>, event: RunEvent) -> (r: RunAction<A>)
        ensures
            final(self).ping == pings_after(old(self).ping as int, event),
            match event {
                RunEvent::Received(Some(Command::Forward { id, domain })) => {
                    match crate::client::options::destination(options.forward@, domain@, 0) {
                        Some(dst) => r == RunAction::Forward(dst, id),
                        None => r matches RunAction::UnexpectedDomain(u) && u.is_domain(domain@),
                    }
                },
                RunEvent::Received(Some(Command::Pong)) => r is Wait,
                RunEvent::Received(Some(other)) => r matches RunAction::Unexpected(u) && u.is_cmd(
                    other,
                ),
                RunEvent::Received(None) => r is Finish,
                RunEvent::Silence => if old(self).ping >= MAX_PINGS {
                    r matches RunAction::Fail(e) && e@ == "server not responding"@
                } else {
                    r == RunAction::<A>::Write(Command::Ping)
                },
                RunEvent::Rejected(Some(cmd)) => r == RunAction::<A>::Write(cmd),
                RunEvent::Rejected(None) => r is Wait,
            },
    {
        match event {
            RunEvent::Received(cmd) => {
                self.ping = 0;
                match cmd {
                    Some(Command::Forward { id, domain }) => match options.dest(domain.as_str()) {
                        Some(dst) => RunAction::Forward(dst, id),
                        None => RunAction::UnexpectedDomain(unexpected_domain(domain.as_str())),
                    },
                    Some(Command::Pong) => RunAction::Wait,
                    Some(other) => RunAction::Unexpected(unexpected_cmd(&other)),
                    None => RunAction::Finish,
                }
            },
            RunEvent::Silence => {
                if self.ping >= MAX_PINGS {
                    return RunAction::Fail(StrError::new("server not responding"));
                }
                self.ping = self.ping + 1;
                RunAction::Write(Command::Ping)
            },
            RunEvent::Rejected(Some(cmd)) => RunAction::Write(cmd),
            RunEvent::Rejected(None) => RunAction::Wait,
        }
    }
}

/// The questions without an answer after `events`.
pub open spec fn pings_after_all(ping: int, events: Seq<RunEvent>) -> int
    decreases events.len(),
{
    if events.len() == 0 {
        ping
    } else {
        pings_after(pings_after_all(ping, events.drop_last()), events.last())
    }
}

/// How many of `events` are silences.
pub open spec fn silences(events: Seq<RunEvent>) -> nat
    decreases events.len(),
{
    if events.len() == 0 {
        0
    } else {
        silences(events.drop_last()) + if events.last() is Silence {
            1nat
        } else {
            0
        }
    }
}

/// A client gives up exactly at a silence that follows `MAX_PINGS` others with nothing received in
/// between: while nothing is received, it counts the silences up to that bound.
pub proof fn law_silences_are_counted(ping: int, events: Seq<RunEvent>)
    requires
        0 <= ping <= MAX_PINGS,
        forall|i: int| 0 <= i < events.len() ==> !(#[trigger] events[i] is Received),
    ensures
        pings_after_all(ping, events) == if ping + silences(events) < MAX_PINGS {
            ping + silences(events)
        } else {
            MAX_PINGS as int
        },
    decreases events.len(),
{
    if events.len() > 0 {
        let init = events.drop_last();
        assert forall|i: int| 0 <= i < init.len() implies !(#[trigger] init[i] is Received) by {
            assert(init[i] == events[i]);
        }
        law_silences_are_counted(ping, init);
        assert(!(events[events.len() - 1] is Received));
    }
}

/// Never more than `MAX_PINGS` questions are without an answer.
pub proof fn law_pings_are_bounded(events: Seq<RunEvent>)
    ensures
        0 <= pings_after_all(0, events) <= MAX_PINGS,
    decreases events.len(),
{
    if events.len() > 0 {
        law_pings_are_bounded(events.drop_last());
    }
}

/// Whatever is received, the count of silences starts again.
pub proof fn law_receiving_resets(ping: int, events: Seq<RunEvent>, cmd: Option<Command>)
    ensures
        pings_after_all(ping, events.push(RunEvent::Received(cmd))) == 0,
{
    let all = events.push(RunEvent::Received(cmd));
    assert(all.last() == RunEvent::Received(cmd));
}

/// A silence adds one to the questions without an answer until there are three, what is received
/// leaves none, and a request that could not be taken changes nothing.
pub proof fn law_three_questions_are_asked(ping: int, cmd: Option<Command>)
    ensures
        ping < 3 ==> pings_after(ping, RunEvent::Silence) == ping + 1,
        ping >= 3 ==> pings_after(ping, RunEvent::Silence) == ping,
        pings_after(ping, RunEvent::Received(cmd)) == 0,
        pings_after(ping, RunEvent::Rejected(cmd)) == ping,
{
}

/// A client asks for a sign of life every minute, and gives up after as many questions as the server
/// may leave unanswered; all that is shorter than the time after which the server takes it for gone.
pub proof fn law_client_asks_before_it_is_taken_for_gone()
    ensures
        PING_SECS == 60,
        MAX_PINGS == 3,
        crate::server::serve::CLIENT_INACTIVE_SECS == 300,
        PING_SECS * (MAX_PINGS + 1) < crate::server::serve::CLIENT_INACTIVE_SECS,
        crate::server::serve::HOST_WAIT_SECS == 15,
        crate::server::serve::FORWARD_WAIT_SECS == 15,
{
}

/// What tells the server that a request cannot be taken, for the reason `err`.
pub fn reject_cmd(err: &str) -> (r: Command)
    ensures
        r.is_error(err@),
{
    Command::error(err)
}

/// The command that offers a connection for the request `id`.
pub fn accept_cmd<A>(options: &Options<A>, id: Id) -> (r: Command)
    ensures
        r matches Command::Accept(a) && a.id == id && a.signed_with(options.secret@),
{
    Command::Accept(Accept::new(options.secret.as_str(), id))
}

/// What follows the answer to the offer of a connection.
pub enum ForwardStep {
    /// Join the connection with the destination.
    Join,
    /// The server refused it for this reason.
    Refused(StrError),
    /// Log what came, send the answer and end the connection.
    Unexpected(Unexpected),
    /// End the connection.
    Close,
}

/// Decides what to do with a connection that was offered; `reply` is the answer, if there was one.
pub fn forward_inner(reply: Option<Command>) -> (r: ForwardStep)
    ensures
        match reply {
            Some(Command::Okay) => r is Join,
            Some(Command::Error(e)) => r == ForwardStep::Refused(e),
            Some(other) => r matches ForwardStep::Unexpected(u) && u.is_cmd(other),
            None => r is Close,
        },
{
    match reply {
        Some(Command::Okay) => ForwardStep::Join,
        Some(Command::Error(err)) => ForwardStep::Refused(err),
        Some(other) => ForwardStep::Unexpected(unexpected_cmd(&other)),
        None => ForwardStep::Close,
    }
}

} // verus!
