use crdocs::signal::{hello, PeerState, SignalMsg};

#[test]
fn hello_asks_or_reconnects() {
    assert!(matches!(hello(None), SignalMsg::NewSite {}));
    assert!(matches!(hello(Some(4)), SignalMsg::Reconn { site_id: 4 }));
}

#[test]
fn new_sites_get_consecutive_identifiers() {
    let mut st: PeerState<&str> = PeerState::new();
    assert_eq!(st.register(&SignalMsg::NewSite {}, "a"), Some(0));
    assert_eq!(st.register(&SignalMsg::NewSite {}, "b"), Some(1));
    assert_eq!(st.num_peers, 2);
    assert_eq!(st.peers.get(&1), Some(&"b"));
}

#[test]
fn returning_site_keeps_its_identifier() {
    let mut st: PeerState<&str> = PeerState::new();
    assert_eq!(st.register(&SignalMsg::Reconn { site_id: 9 }, "x"), Some(9));
    assert_eq!(st.num_peers, 0);
    assert_eq!(st.peers.get(&9), Some(&"x"));
}

#[test]
fn other_first_messages_are_refused() {
    let mut st: PeerState<&str> = PeerState::new();
    let r = st.register(&SignalMsg::InitMsg { site_id: 1, initial_peer: 0 }, "x");
    assert_eq!(r, None);
    assert!(st.peers.is_empty());
    assert!(st.connect(&SignalMsg::InitMsg { site_id: 1, initial_peer: 0 }, "y").is_none());
}

#[test]
fn initial_peer_is_the_smallest_connected() {
    let mut st: PeerState<&str> = PeerState::new();
    assert_eq!(st.initial_peer(), 0);
    st.register(&SignalMsg::Reconn { site_id: 7 }, "x");
    st.register(&SignalMsg::Reconn { site_id: 3 }, "y");
    assert_eq!(st.initial_peer(), 3);
}

#[test]
fn connect_answers_with_identifier_and_initial_peer() {
    let mut st: PeerState<&str> = PeerState::new();
    st.register(&SignalMsg::Reconn { site_id: 5 }, "old");
    match st.connect(&SignalMsg::NewSite {}, "new") {
        Some(SignalMsg::InitMsg { site_id, initial_peer }) => {
            assert_eq!(site_id, 0);
            assert_eq!(initial_peer, 0);
        }
        _ => panic!("expected an answer"),
    }
    match st.connect(&SignalMsg::Reconn { site_id: 8 }, "back") {
        Some(SignalMsg::InitMsg { site_id, initial_peer }) => {
            assert_eq!(site_id, 8);
            assert_eq!(initial_peer, 0);
        }
        _ => panic!("expected an answer"),
    }
}

#[test]
fn first_site_is_its_own_initial_peer() {
    let mut st: PeerState<&str> = PeerState::new();
    match st.connect(&SignalMsg::Reconn { site_id: 12 }, "only") {
        Some(SignalMsg::InitMsg { site_id, initial_peer }) => {
            assert_eq!(site_id, 12);
            assert_eq!(initial_peer, 12);
        }
        _ => panic!("expected an answer"),
    }
}

#[test]
fn messages_go_to_connected_peers_only() {
    let mut st: PeerState<&str> = PeerState::new();
    st.register(&SignalMsg::NewSite {}, "a");
    st.register(&SignalMsg::NewSite {}, "b");
    assert_eq!(st.route(0, 1), Some((1, 0)));
    assert_eq!(st.route(1, 4), None);
    st.disconnect(1);
    assert_eq!(st.route(0, 1), None);
    assert_eq!(st.num_peers, 2);
    assert_eq!(st.initial_peer(), 0);
}
