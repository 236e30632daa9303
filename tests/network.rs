use skypier::{Config, ConsensusEngine, NetworkConfig, P2PNode, ReplicationManager};

#[test]
fn peers_are_recorded_once() {
    let mut node = P2PNode::new(NetworkConfig::default());
    assert_eq!(node.port(), 8000);
    assert!(node.get_connected_peers().is_empty());
    node.connect_to_peer("10.0.0.1:7777").unwrap();
    node.connect_to_peer("10.0.0.2:7777").unwrap();
    node.connect_to_peer("10.0.0.1:7777").unwrap();
    assert_eq!(
        node.get_connected_peers(),
        vec!["10.0.0.1:7777".to_string(), "10.0.0.2:7777".to_string()]
    );
    node.publish_message("topic", b"payload").unwrap();
    node.stop().unwrap();
}

#[test]
fn stand_ins_always_agree() {
    let c = ConsensusEngine::new();
    assert_eq!(c.propose_operation("insert"), Ok(true));
    assert!(c.is_leader());
    let r = ReplicationManager::new();
    assert!(r.replicate_vector("id", &[1, 2, 3]).is_ok());
    assert!(r.sync_with_peers().is_ok());
}

#[test]
fn default_configuration() {
    let n = NetworkConfig::default();
    assert_eq!((n.port, n.bootstrap_peers.len(), n.max_peers), (8000, 0, 50));
    let c = Config::default();
    assert_eq!(c.server.host, "0.0.0.0");
    assert_eq!(c.server.port, 8080);
    assert_eq!(c.p2p.port, 7777);
    assert_eq!(c.p2p.max_peers, 50);
    assert_eq!(c.storage.data_dir, "./data");
    assert_eq!(c.storage.max_file_size, 1024 * 1024 * 1024);
    assert!(c.storage.compression);
    assert_eq!(c.index.index_type, "embedded");
    assert_eq!(c.index.dimensions, 768);
    assert_eq!(c.index.distance_metric, "cosine");
    assert_eq!((c.index.ef_construction, c.index.ef_search, c.index.max_connections), (200, 50, 16));
}

#[test]
fn it_works() {
    let result = 2 + 2;
    assert_eq!(result, 4);
}
