use crdocs::handshake::{
    established, local_candidate, on_message, start, starts_handshake, Action, HandshakeProtocol,
    IceState, Phase,
};

#[test]
fn asking_side_waits_asked_side_offers() {
    assert!(matches!(start(true), (Phase::AwaitOffer, Action::Wait)));
    assert!(matches!(start(false), (Phase::AwaitAnswer, Action::SendOffer)));
}

#[test]
fn offer_is_answered() {
    let r = on_message(Phase::AwaitOffer, Some(HandshakeProtocol::Offer { off: "sdp-o".to_string() }));
    match r {
        (Phase::ExchangeIce, Action::AnswerOffer { off }) => assert_eq!(off, "sdp-o"),
        _ => panic!("offer not answered"),
    }
}

#[test]
fn answer_is_accepted() {
    let r = on_message(Phase::AwaitAnswer, Some(HandshakeProtocol::Answer { ans: "sdp-a".to_string() }));
    match r {
        (Phase::ExchangeIce, Action::AcceptAnswer { ans }) => assert_eq!(ans, "sdp-a"),
        _ => panic!("answer not accepted"),
    }
}

#[test]
fn unexpected_first_message_is_passed_over() {
    let r = on_message(Phase::AwaitOffer, Some(HandshakeProtocol::IceDone {}));
    assert!(matches!(r, (Phase::ExchangeIce, Action::Wait)));
    let r = on_message(Phase::AwaitAnswer, Some(HandshakeProtocol::Offer { off: String::new() }));
    assert!(matches!(r, (Phase::ExchangeIce, Action::Wait)));
}

#[test]
fn candidates_until_something_else() {
    let r = on_message(Phase::ExchangeIce, Some(HandshakeProtocol::Ice { ice: "c1".to_string() }));
    match r {
        (Phase::ExchangeIce, Action::AddCandidate { ice }) => assert_eq!(ice, "c1"),
        _ => panic!("candidate not added"),
    }
    assert!(matches!(on_message(Phase::ExchangeIce, Some(HandshakeProtocol::IceDone {})), (Phase::Done, Action::Close)));
    assert!(matches!(on_message(Phase::ExchangeIce, None), (Phase::Done, Action::Close)));
    assert!(matches!(on_message(Phase::Done, None), (Phase::Done, Action::Close)));
    // candidates still queued after the close are added
    match on_message(Phase::Done, Some(HandshakeProtocol::Ice { ice: "c2".to_string() })) {
        (Phase::Done, Action::AddCandidate { ice }) => assert_eq!(ice, "c2"),
        _ => panic!("late candidate not added"),
    }
}

#[test]
fn local_candidates_and_their_end() {
    assert!(matches!(local_candidate(Some("x".to_string())), HandshakeProtocol::Ice { ref ice } if ice == "x"));
    assert!(matches!(local_candidate(None), HandshakeProtocol::IceDone {}));
}

#[test]
fn only_start_opens_a_handshake() {
    assert!(starts_handshake(&HandshakeProtocol::Start {}));
    assert!(!starts_handshake(&HandshakeProtocol::IceDone {}));
}

#[test]
fn usable_connection_states() {
    assert!(established(IceState::Connected));
    assert!(established(IceState::Completed));
    assert!(!established(IceState::Checking));
    assert!(!established(IceState::Failed));
}
