//! The peer-to-peer layer's stand-ins: it keeps track of peers it was asked
//! to connect to, always agrees to proposals and always leads. No message
//! leaves the process.
use vstd::prelude::*;
use crate::error::VectorError;

verus! {

pub const DEFAULT_NETWORK_PORT: u16 = 8000;

pub const DEFAULT_MAX_PEERS: usize = 50;

#[derive(Debug, Clone)]
pub struct NetworkConfig {
    pub port: u16,
    pub bootstrap_peers: Vec<String>,
    pub max_peers: usize,
}

impl Default for NetworkConfig {
    fn default() -> (r: NetworkConfig)
        ensures
            r.port == DEFAULT_NETWORK_PORT,
            r.bootstrap_peers@.len() == 0,
            r.max_peers == DEFAULT_MAX_PEERS,
    {
        NetworkConfig {
            port: DEFAULT_NETWORK_PORT,
            bootstrap_peers: Vec::new(),
            max_peers: DEFAULT_MAX_PEERS,
        }
    }
}

/// Agreement among nodes; this node decides alone.
pub struct ConsensusEngine {}

impl ConsensusEngine {
    pub fn new() -> (r: ConsensusEngine) {
        ConsensusEngine {}
    }

    /// Every proposal is accepted.
    pub fn propose_operation(&self, _operation: &str) -> (r: Result<bool, VectorError>)
        ensures
            r == Ok::<bool, VectorError>(true),
    {
        Ok(true)
    }

    /// This node is always the leader.
    pub fn is_leader(&self) -> (r: bool)
        ensures
            r,
    {
        true
    }
}

/// Copying of records to other nodes; there are none to copy to.
pub struct ReplicationManager {}

impl ReplicationManager {
    pub fn new() -> (r: ReplicationManager) {
        ReplicationManager {}
    }

    pub fn replicate_vector(&self, _vector_id: &str, _data: &[u8]) -> (r: Result<(), VectorError>)
        ensures
            r is Ok,
    {
        Ok(())
    }

    pub fn sync_with_peers(&self) -> (r: Result<(), VectorError>)
        ensures
            r is Ok,
    {
        Ok(())
    }
}

/// A network node and the peers it has connected to.
pub struct P2PNode {
    config: NetworkConfig,
    peers: Vec<String>,
}

impl P2PNode {
    /// The connected peer addresses, each once, in order of connection.
    pub closed spec fn spec_peers(&self) -> Seq<Seq<char>> {
        self.peers@.map_values(|p: String| p@)
    }

    pub closed spec fn spec_port(&self) -> u16 {
        self.config.port
    }

    pub fn new(config: NetworkConfig) -> (r: P2PNode)
        ensures
            r.spec_peers() == Seq::<Seq<char>>::empty(),
            r.spec_port() == config.port,
    {
        let r = P2PNode { config, peers: Vec::new() };
        assert(r.spec_peers() =~= Seq::<Seq<char>>::empty());
        r
    }

    pub fn port(&self) -> (r: u16)
        ensures
            r == self.spec_port(),
    {
        self.config.port
    }

    pub fn stop(&mut self) -> (r: Result<(), VectorError>)
        ensures
            r is Ok,
            *final(self) == *old(self),
    {
        Ok(())
    }

    /// Publishing goes nowhere.
    pub fn publish_message(&mut self, _topic: &str, _message: &[u8]) -> (r: Result<(), VectorError>)
        ensures
            r is Ok,
            *final(self) == *old(self),
    {
        Ok(())
    }

    /// Records `peer_addr` as connected; connecting twice records it once.
    pub fn connect_to_peer(&mut self, peer_addr: &str) -> (r: Result<(), VectorError>)
        ensures
            r is Ok,
            final(self).spec_port() == old(self).spec_port(),
            final(self).spec_peers() == if old(self).spec_peers().contains(peer_addr@) {
                old(self).spec_peers()
            } else {
                old(self).spec_peers().push(peer_addr@)
            },
    {
        let key = peer_addr.to_owned();
        let mut i: usize = 0;
        while i < self.peers.len()
            invariant
                i <= self.peers@.len(),
                key@ == peer_addr@,
                forall|j: int| 0 <= j < i ==> self.peers@[j]@ != peer_addr@,
            decreases self.peers@.len() - i,
        {
            if self.peers[i].eq(&key) {
                assert(self.spec_peers()[i as int] == peer_addr@);
                return Ok(());
            }
            i = i + 1;
        }
        let ghost before = self.spec_peers();
        self.peers.push(key);
        assert(self.spec_peers() =~= before.push(peer_addr@));
        Ok(())
    }

    /// The connected peer addresses.
    pub fn get_connected_peers(&self) -> (r: Vec<String>)
        ensures
            r@.map_values(|p: String| p@) == self.spec_peers(),
    {
        let mut r: Vec<String> = Vec::new();
        let mut i: usize = 0;
        while i < self.peers.len()
            invariant
                i <= self.peers@.len(),
                r@.len() == i,
                forall|j: int| 0 <= j < i ==> r@[j]@ == self.peers@[j]@,
            decreases self.peers@.len() - i,
        {
            r.push(self.peers[i].clone());
            i = i + 1;
        }
        assert(r@.map_values(|p: String| p@) =~= self.spec_peers());
        r
    }
}

} // verus!
