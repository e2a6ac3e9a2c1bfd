//! The signalling server's bookkeeping: which site identifier each
//! connecting peer gets, and which peer a newcomer should contact first.
//! The channels to the peers are whatever the server uses (`T`).
use std::collections::BTreeMap;

use vstd::prelude::*;

verus! {

/// The first message of a signalling session, and the server's answer.
pub enum SignalMsg {
    /// A new site asks for an identifier.
    NewSite {  },
    /// A known site comes back with its identifier.
    Reconn { site_id: u32 },
    /// The server's answer: the site's identifier and the peer to contact.
    InitMsg { site_id: u32, initial_peer: u32 },
}

/// The first message a site sends: a reconnection when it already has an
/// identifier, a request for a new one otherwise.
pub fn hello(id: Option<u32>) -> (r: SignalMsg)
    ensures
        match id {
            Some(i) => r == SignalMsg::Reconn { site_id: i },
            None => r == SignalMsg::NewSite {  },
        },
{
    match id {
        Some(i) => SignalMsg::Reconn { site_id: i },
        None => SignalMsg::NewSite {  },
    }
}

/// The connected peers, by site identifier, and the number of identifiers
/// handed out to new sites.
pub struct PeerState<T> {
    pub peers: BTreeMap<u32, T>,
    pub num_peers: u32,
}

impl<T> PeerState<T> {
    /// No peer yet.
    pub fn new() -> (r: Self)
        ensures
            r.peers@ == Map::<u32, T>::empty(),
            r.num_peers == 0,
    {
        PeerState { peers: BTreeMap::new(), num_peers: 0 }
    }

    /// Registers a connecting peer by its first message: a new site gets the
    /// next identifier, a returning one keeps its own; any other message is
    /// refused.
    pub fn register(&mut self, msg: &SignalMsg, tx: T) -> (r: Option<u32>)
        requires
            *msg is NewSite ==> old(self).num_peers < u32::MAX,
        ensures
            match *msg {
                SignalMsg::NewSite {  } => {
                    &&& r == Some(old(self).num_peers)
                    &&& final(self).peers@ == old(self).peers@.insert(old(self).num_peers, tx)
                    &&& final(self).num_peers == old(self).num_peers + 1
                },
                SignalMsg::Reconn { site_id } => {
                    &&& r == Some(site_id)
                    &&& final(self).peers@ == old(self).peers@.insert(site_id, tx)
                    &&& final(self).num_peers == old(self).num_peers
                },
                SignalMsg::InitMsg { .. } => {
                    &&& r == None::<u32>
                    &&& final(self).peers@ == old(self).peers@
                    &&& final(self).num_peers == old(self).num_peers
                },
            },
    {
        match msg {
            SignalMsg::NewSite {  } => {
                let peer_id = self.num_peers;
                self.peers.insert(peer_id, tx);
                self.num_peers = self.num_peers + 1;
                Some(peer_id)
            },
            SignalMsg::Reconn { site_id } => {
                self.peers.insert(*site_id, tx);
                Some(*site_id)
            },
            _ => None,
        }
    }

    /// The peer a newcomer contacts first: the smallest identifier connected
    /// (zero when there is none).
    pub fn initial_peer(&self) -> (r: u32)
        ensures
            self.peers@.dom() == Set::<u32>::empty() ==> r == 0,
            self.peers@.dom() != Set::<u32>::empty() ==> self.peers@.contains_key(r),
            forall|k: u32| #[trigger] self.peers@.contains_key(k) ==> r <= k,
    {
        let mut min: Option<u32> = None;
        for k in it: self.peers.keys()
            invariant
                it.seq().unref().to_set() == self.peers@.dom(),
                min is Some ==> self.peers@.contains_key(min->0),
                min is Some ==> forall|j: int|
                    0 <= j < it.index() ==> min->0 <= #[trigger] it.seq().unref()[j],
                min is None ==> it.index() == 0,
                it.index() == it.seq().len() ==> forall|x: u32|
                    #[trigger] self.peers@.contains_key(x) ==> min is Some && min->0 <= x,
        {
            let ghost idx = it.index();
            assert(it.seq().unref()[idx] == *k);
            assert(it.seq().unref().contains(*k));
            assert(self.peers@.contains_key(*k));
            min = match min {
                Some(m) => if *k < m {
                    Some(*k)
                } else {
                    Some(m)
                },
                None => Some(*k),
            };
            assert forall|x: u32| #[trigger] self.peers@.contains_key(x) && idx + 1 == it.seq().len()
                implies min is Some && min->0 <= x by {
                assert(it.seq().unref().to_set().contains(x));
                let j = choose|j: int| 0 <= j < it.seq().unref().len() && it.seq().unref()[j] == x;
                assert(j <= idx);
            }
        }
        let r = match min {
            Some(m) => m,
            None => 0,
        };
        proof {
            if self.peers@.dom() != Set::<u32>::empty() {
                assert(exists|x: u32| self.peers@.dom().contains(x)) by {
                    if !(exists|x: u32| self.peers@.dom().contains(x)) {
                        assert(self.peers@.dom() =~= Set::<u32>::empty());
                    }
                }
                let x = choose|x: u32| self.peers@.dom().contains(x);
                assert(self.peers@.contains_key(x));
            }
        }
        r
    }

    /// Registers a connecting peer and gives the answer the server sends it:
    /// its identifier and the connected peer with the smallest identifier
    /// (which may be the newcomer itself). A first message that is neither a
    /// request nor a reconnection is refused with `None`, and nothing changes.
    pub fn connect(&mut self, msg: &SignalMsg, tx: T) -> (r: Option<SignalMsg>)
        requires
            *msg is NewSite ==> old(self).num_peers < u32::MAX,
        ensures
            match *msg {
                SignalMsg::NewSite {  } => {
                    &&& final(self).peers@ == old(self).peers@.insert(old(self).num_peers, tx)
                    &&& final(self).num_peers == old(self).num_peers + 1
                    &&& r matches Some(SignalMsg::InitMsg { site_id, initial_peer })
                    &&& site_id == old(self).num_peers
                    &&& final(self).peers@.contains_key(initial_peer)
                    &&& forall|k: u32| #[trigger] final(self).peers@.contains_key(k) ==> initial_peer <= k
                },
                SignalMsg::Reconn { site_id: id } => {
                    &&& final(self).peers@ == old(self).peers@.insert(id, tx)
                    &&& final(self).num_peers == old(self).num_peers
                    &&& r matches Some(SignalMsg::InitMsg { site_id, initial_peer })
                    &&& site_id == id
                    &&& final(self).peers@.contains_key(initial_peer)
                    &&& forall|k: u32| #[trigger] final(self).peers@.contains_key(k) ==> initial_peer <= k
                },
                SignalMsg::InitMsg { .. } => {
                    &&& r is None
                    &&& final(self).peers@ == old(self).peers@
                    &&& final(self).num_peers == old(self).num_peers
                },
            },
    {
        match self.register(msg, tx) {
            Some(site_id) => {
                let initial_peer = self.initial_peer();
                proof {
                    assert(self.peers@.contains_key(site_id));
                    assert(self.peers@.dom() != Set::<u32>::empty()) by {
                        assert(self.peers@.dom().contains(site_id));
                    }
                }
                Some(SignalMsg::InitMsg { site_id, initial_peer })
            },
            None => None,
        }
    }

    /// Where a message that `from` addresses to `to` is delivered, and the
    /// sender it is delivered as: to `to`, as coming from `from`, when `to`
    /// is connected; nowhere otherwise.
    pub fn route(&self, from: u32, to: u32) -> (r: Option<(u32, u32)>)
        ensures
            self.peers@.contains_key(to) ==> r == Some((to, from)),
            !self.peers@.contains_key(to) ==> r is None,
    {
        if self.peers.contains_key(&to) {
            Some((to, from))
        } else {
            None
        }
    }

    /// Forgets a peer whose connection closed; the count of identifiers
    /// handed out stays.
    pub fn disconnect(&mut self, peer_id: u32)
        ensures
            final(self).peers@ == old(self).peers@.remove(peer_id),
            final(self).num_peers == old(self).num_peers,
    {
        self.peers.remove(&peer_id);
    }
}

} // verus!
