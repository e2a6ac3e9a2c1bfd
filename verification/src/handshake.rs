//! The handshake that opens a direct connection between two sites, carried
//! over the signalling server: what each side sends, and what it does with
//! each message it receives. The connection calls themselves (offers,
//! answers, candidates) are the caller's.
use vstd::prelude::*;

verus! {

/// The messages of the handshake.
pub enum HandshakeProtocol {
    /// Asks the other side to start a handshake.
    Start {  },
    /// A session offer.
    Offer { off: String },
    /// The answer to an offer.
    Answer { ans: String },
    /// A connection candidate.
    Ice { ice: String },
    /// No more candidates.
    IceDone {  },
}

/// Where a handshake stands.
pub enum Phase {
    /// Waiting for the other side's offer.
    AwaitOffer,
    /// Waiting for the answer to our offer.
    AwaitAnswer,
    /// Trading connection candidates.
    ExchangeIce,
    /// The other side is no longer listened to.
    Done,
}

/// What the side does next.
pub enum Action {
    /// Create an offer, and send it.
    SendOffer,
    /// Wait for the next message.
    Wait,
    /// Take the offer as the remote description, create an answer, send it.
    AnswerOffer { off: String },
    /// Take the answer as the remote description.
    AcceptAnswer { ans: String },
    /// Add the remote candidate.
    AddCandidate { ice: String },
    /// Stop listening to the other side.
    Close,
}

/// The state of a connection once the candidates are traded.
pub enum IceState {
    New,
    Checking,
    Connected,
    Completed,
    Failed,
    Disconnected,
    Closed,
}

/// The first step: the side that asked for the connection waits for the
/// offer; the side that was asked sends one.
pub fn start(initiator: bool) -> (r: (Phase, Action))
    ensures
        initiator ==> r == (Phase::AwaitOffer, Action::Wait),
        !initiator ==> r == (Phase::AwaitAnswer, Action::SendOffer),
{
    if initiator {
        (Phase::AwaitOffer, Action::Wait)
    } else {
        (Phase::AwaitAnswer, Action::SendOffer)
    }
}

/// The step after the other side's next message (`None` when it has nothing
/// more to send). While an offer or an answer is awaited, the next message is
/// taken as that offer or answer if it is one, and passed over otherwise;
/// then candidates are added until something else comes, which closes the
/// exchange; candidates still queued after that are added too.
pub fn on_message(phase: Phase, msg: Option<HandshakeProtocol>) -> (r: (Phase, Action))
    requires
        msg is None ==> (phase is ExchangeIce || phase is Done),
    ensures
        match (phase, msg) {
            (Phase::AwaitOffer, Some(HandshakeProtocol::Offer { off })) => r == (
                Phase::ExchangeIce,
                Action::AnswerOffer { off },
            ),
            (Phase::AwaitAnswer, Some(HandshakeProtocol::Answer { ans })) => r == (
                Phase::ExchangeIce,
                Action::AcceptAnswer { ans },
            ),
            (Phase::AwaitOffer, _) => r == (Phase::ExchangeIce, Action::Wait),
            (Phase::AwaitAnswer, _) => r == (Phase::ExchangeIce, Action::Wait),
            (Phase::ExchangeIce, Some(HandshakeProtocol::Ice { ice })) => r == (
                Phase::ExchangeIce,
                Action::AddCandidate { ice },
            ),
            (Phase::ExchangeIce, _) => r == (Phase::Done, Action::Close),
            (Phase::Done, Some(HandshakeProtocol::Ice { ice })) => r == (
                Phase::Done,
                Action::AddCandidate { ice },
            ),
            (Phase::Done, _) => r == (Phase::Done, Action::Close),
        },
{
    match phase {
        Phase::AwaitOffer => match msg {
            Some(HandshakeProtocol::Offer { off }) => (Phase::ExchangeIce, Action::AnswerOffer { off }),
            _ => (Phase::ExchangeIce, Action::Wait),
        },
        Phase::AwaitAnswer => match msg {
            Some(HandshakeProtocol::Answer { ans }) => (
                Phase::ExchangeIce,
                Action::AcceptAnswer { ans },
            ),
            _ => (Phase::ExchangeIce, Action::Wait),
        },
        Phase::ExchangeIce => match msg {
            Some(HandshakeProtocol::Ice { ice }) => (Phase::ExchangeIce, Action::AddCandidate { ice }),
            _ => (Phase::Done, Action::Close),
        },
        Phase::Done => match msg {
            // candidates still queued when the exchange closed are added too
            Some(HandshakeProtocol::Ice { ice }) => (Phase::Done, Action::AddCandidate { ice }),
            _ => (Phase::Done, Action::Close),
        },
    }
}

/// The message that passes on a local candidate, or the end of them.
pub fn local_candidate(cand: Option<String>) -> (r: HandshakeProtocol)
    ensures
        match cand {
            Some(ice) => r == HandshakeProtocol::Ice { ice },
            None => r == HandshakeProtocol::IceDone {  },
        },
{
    match cand {
        Some(ice) => HandshakeProtocol::Ice { ice },
        None => HandshakeProtocol::IceDone {  },
    }
}

/// A message relayed by the signalling server opens a handshake when it is
/// `Start`; any other one belongs to a handshake under way.
pub fn starts_handshake(msg: &HandshakeProtocol) -> (r: bool)
    ensures
        r == (*msg is Start),
{
    match msg {
        HandshakeProtocol::Start {  } => true,
        _ => false,
    }
}

/// The connection is usable once its state is `Connected` or `Completed`.
pub fn established(state: IceState) -> (r: bool)
    ensures
        r == (state is Connected || state is Completed),
{
    match state {
        IceState::Connected => true,
        IceState::Completed => true,
        _ => false,
    }
}

} // verus!
