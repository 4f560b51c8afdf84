use swarmban::peer::Peer;
use swarmban::store::{FetchedSwarm, PeerEntry, SwarmState, TorrentInfo, CycleError};

const MIB: u64 = 1024 * 1024;

fn mk_peer(ip: &str, port: u16, uploaded: u64, progress_ppm: u64, client: &str) -> Peer {
    Peer {
        ip: ip.to_string(),
        port,
        uploaded,
        progress: progress_ppm,
        client: client.to_string(),
    }
}

fn mk_entry(ip: &str, port: u16, uploaded: u64, progress_ppm: u64, client: &str) -> PeerEntry {
    PeerEntry {
        key: format!("{}:{}", ip, port),
        peer: mk_peer(ip, port, uploaded, progress_ppm, client),
    }
}

fn fresh_store_with_torrent(hash: &str, size: u64) -> SwarmState {
    let mut state = SwarmState::new(1_000_000);
    state.register_torrents(vec![TorrentInfo { hash: hash.to_string(), size }]);
    state
}

fn one_swarm(hash: &str, peers: Vec<PeerEntry>) -> Vec<FetchedSwarm> {
    vec![FetchedSwarm { hash: hash.to_string(), peers }]
}

#[test]
fn leech_client_banned_regardless_of_figures() {
    let mut state = fresh_store_with_torrent("h1", 100 * MIB);
    let swarms = one_swarm("h1", vec![mk_entry("1.2.3.4", 100, 0, 1_000_000, "Mozilla")]);
    let bans = state.reconcile(swarms).unwrap();
    assert_eq!(bans, vec!["1.2.3.4:100".to_string()]);
    // a stage-one ban is not committed to the store
    assert_eq!(state.torrents[0].peers.len(), 0);
}

#[test]
fn ancient_client_exact_match_banned() {
    let mut state = fresh_store_with_torrent("h1", 100 * MIB);
    let swarms = one_swarm("h1", vec![mk_entry("1.2.3.4", 100, 0, 0, "Transmission 0.")]);
    let bans = state.reconcile(swarms).unwrap();
    assert_eq!(bans.len(), 1);
}

#[test]
fn utorrent_one_zero_banned_on_first_sighting() {
    // perfect upload and progress figures; the version prefix alone bans it
    let mut state = fresh_store_with_torrent("h1", 100 * MIB);
    let swarms = one_swarm("h1", vec![mk_entry("9.9.9.9", 6881, 0, 500_000, "µTorrent 1.0")]);
    let bans = state.reconcile(swarms).unwrap();
    assert_eq!(bans, vec!["9.9.9.9:6881".to_string()]);
}

#[test]
fn clean_client_clean_figures_not_banned() {
    let mut state = fresh_store_with_torrent("h1", 100 * MIB);
    let swarms = one_swarm("h1", vec![mk_entry("1.2.3.4", 100, 10 * MIB, 500_000, "qBittorrent 4.5.2")]);
    let bans = state.reconcile(swarms).unwrap();
    assert!(bans.is_empty());
    assert_eq!(state.torrents[0].peers.len(), 1);
    assert_eq!(state.torrents[0].peers[0].key, "1.2.3.4:100");
}

#[test]
fn upload_bound_is_exclusive_at_equality() {
    // torrent size 100 MiB, progress 0: the bound is exactly 10 MiB
    let mut state = fresh_store_with_torrent("h1", 100 * MIB);
    let at_bound = one_swarm("h1", vec![mk_entry("1.2.3.4", 1, 10 * MIB, 0, "deluge 2.0")]);
    let bans = state.reconcile(at_bound).unwrap();
    assert!(bans.is_empty());

    let mut state2 = fresh_store_with_torrent("h1", 100 * MIB);
    let above = one_swarm("h1", vec![mk_entry("1.2.3.4", 1, 10 * MIB + 1, 0, "deluge 2.0")]);
    let bans2 = state2.reconcile(above).unwrap();
    assert_eq!(bans2.len(), 1);
}

#[test]
fn upload_bound_counts_reported_progress() {
    // progress 50% of a 100 MiB torrent allows 50 MiB + 10 MiB
    let mut state = fresh_store_with_torrent("h1", 100 * MIB);
    let ok = one_swarm("h1", vec![mk_entry("1.2.3.4", 1, 60 * MIB, 500_000, "x")]);
    assert!(state.reconcile(ok).unwrap().is_empty());

    let mut state2 = fresh_store_with_torrent("h1", 100 * MIB);
    let bad = one_swarm("h1", vec![mk_entry("1.2.3.4", 1, 60 * MIB + 1, 500_000, "x")]);
    assert_eq!(state2.reconcile(bad).unwrap().len(), 1);
}

#[test]
fn five_bans_poison_the_network_block() {
    let mut state = fresh_store_with_torrent("h1", 100 * MIB);
    let mut peers = Vec::new();
    for i in 0..5u16 {
        peers.push(mk_entry(&format!("10.0.0.{}", i + 1), 1000 + i, 0, 0, "Mozilla"));
    }
    // the sixth peer is clean in every other respect, but shares the /24
    peers.push(mk_entry("10.0.0.250", 2000, 0, 500_000, "qBittorrent 4.5.2"));
    // a clean peer from another /24 in the same cycle is untouched
    peers.push(mk_entry("10.0.1.1", 2001, 0, 500_000, "qBittorrent 4.5.2"));
    let bans = state.reconcile(one_swarm("h1", peers)).unwrap();
    assert_eq!(bans.len(), 6);
    assert!(bans.contains(&"10.0.0.250:2000".to_string()));
    assert!(!bans.contains(&"10.0.1.1:2001".to_string()));
}

#[test]
fn network_counter_spans_torrents_within_a_cycle() {
    let mut state = SwarmState::new(0);
    state.register_torrents(vec![
        TorrentInfo { hash: "h1".to_string(), size: 100 * MIB },
        TorrentInfo { hash: "h2".to_string(), size: 100 * MIB },
    ]);
    let mut first = Vec::new();
    for i in 0..5u16 {
        first.push(mk_entry(&format!("10.0.0.{}", i + 1), 1000 + i, 0, 0, "Mozilla"));
    }
    let swarms = vec![
        FetchedSwarm { hash: "h1".to_string(), peers: first },
        FetchedSwarm {
            hash: "h2".to_string(),
            peers: vec![mk_entry("10.0.0.99", 1, 0, 500_000, "qBittorrent 4.5.2")],
        },
    ];
    let bans = state.reconcile(swarms).unwrap();
    assert_eq!(bans.len(), 6);
    assert!(bans.contains(&"10.0.0.99:1".to_string()));
}

#[test]
fn progress_regression_bans_and_still_commits() {
    let mut state = fresh_store_with_torrent("h1", 100 * MIB);
    let c1 = one_swarm("h1", vec![mk_entry("1.2.3.4", 1, 0, 500_000, "x")]);
    assert!(state.reconcile(c1).unwrap().is_empty());
    let c2 = one_swarm("h1", vec![mk_entry("1.2.3.4", 1, 0, 400_000, "x")]);
    let bans = state.reconcile(c2).unwrap();
    assert_eq!(bans, vec!["1.2.3.4:1".to_string()]);
    // a stage-two ban replaces the stored record first
    assert_eq!(state.torrents[0].peers[0].peer.progress, 400_000);
}

#[test]
fn rate_rule_two_cycle_scenario() {
    // torrent size 100 MiB; cycle 1: progress 0.5, uploaded 40 MiB -> fine;
    // cycle 2: progress still 0.5, uploaded 80 MiB -> banned by the rate rule
    let mut state = fresh_store_with_torrent("h1", 100 * MIB);
    let c1 = one_swarm("h1", vec![mk_entry("1.2.3.4", 1, 40 * MIB, 500_000, "x")]);
    assert!(state.reconcile(c1).unwrap().is_empty());
    let c2 = one_swarm("h1", vec![mk_entry("1.2.3.4", 1, 80 * MIB, 500_000, "x")]);
    let bans = state.reconcile(c2).unwrap();
    assert_eq!(bans, vec!["1.2.3.4:1".to_string()]);
}

#[test]
fn rate_rule_boundary_within_epsilon_is_not_banned() {
    // size 1_000_000 bytes: dp * size == du * 1_000_000 - 10 * size
    // exactly when dp == du - 10
    let mut state = fresh_store_with_torrent("h1", 1_000_000);
    let c1 = one_swarm("h1", vec![mk_entry("1.2.3.4", 1, 0, 0, "x")]);
    assert!(state.reconcile(c1).unwrap().is_empty());
    let c2 = one_swarm("h1", vec![mk_entry("1.2.3.4", 1, 100, 90, "x")]);
    assert!(state.reconcile(c2).unwrap().is_empty());

    let mut state2 = fresh_store_with_torrent("h1", 1_000_000);
    let d1 = one_swarm("h1", vec![mk_entry("1.2.3.4", 1, 0, 0, "x")]);
    assert!(state2.reconcile(d1).unwrap().is_empty());
    let d2 = one_swarm("h1", vec![mk_entry("1.2.3.4", 1, 100, 89, "x")]);
    assert_eq!(state2.reconcile(d2).unwrap().len(), 1);
}

#[test]
fn vanished_peers_are_pruned() {
    let mut state = fresh_store_with_torrent("h1", 100 * MIB);
    let c1 = one_swarm(
        "h1",
        vec![
            mk_entry("1.2.3.4", 1, 0, 100_000, "x"),
            mk_entry("5.6.7.8", 2, 0, 200_000, "y"),
        ],
    );
    assert!(state.reconcile(c1).unwrap().is_empty());
    assert_eq!(state.torrents[0].peers.len(), 2);
    let c2 = one_swarm("h1", vec![mk_entry("5.6.7.8", 2, 0, 300_000, "y")]);
    assert!(state.reconcile(c2).unwrap().is_empty());
    assert_eq!(state.torrents[0].peers.len(), 1);
    assert_eq!(state.torrents[0].peers[0].key, "5.6.7.8:2");
}

#[test]
fn unreachable_torrent_keeps_its_peers() {
    let mut state = SwarmState::new(0);
    state.register_torrents(vec![
        TorrentInfo { hash: "h1".to_string(), size: 100 * MIB },
        TorrentInfo { hash: "h2".to_string(), size: 100 * MIB },
    ]);
    let c1 = vec![
        FetchedSwarm {
            hash: "h1".to_string(),
            peers: vec![mk_entry("1.2.3.4", 1, 0, 100_000, "x")],
        },
        FetchedSwarm {
            hash: "h2".to_string(),
            peers: vec![mk_entry("5.6.7.8", 2, 0, 100_000, "y")],
        },
    ];
    assert!(state.reconcile(c1).unwrap().is_empty());
    // the second torrent's swarm could not be fetched this cycle: no
    // information, so its stored peers stay
    let c2 = one_swarm("h1", vec![mk_entry("1.2.3.4", 1, 0, 100_000, "x")]);
    assert!(state.reconcile(c2).unwrap().is_empty());
    assert_eq!(state.torrents[1].peers.len(), 1);
}

#[test]
fn swarm_for_unknown_hash_is_skipped() {
    let mut state = fresh_store_with_torrent("h1", 100 * MIB);
    let swarms = one_swarm("zzz", vec![mk_entry("1.2.3.4", 1, 0, 0, "Mozilla")]);
    let bans = state.reconcile(swarms).unwrap();
    assert!(bans.is_empty());
    assert_eq!(state.torrents.len(), 1);
}

#[test]
fn known_torrent_size_is_never_refreshed() {
    let mut state = fresh_store_with_torrent("h1", 100 * MIB);
    state.register_torrents(vec![TorrentInfo { hash: "h1".to_string(), size: 7 }]);
    assert_eq!(state.torrents.len(), 1);
    assert_eq!(state.torrents[0].size, 100 * MIB);
}

#[test]
fn unparsable_peer_address_aborts_the_cycle() {
    let mut state = fresh_store_with_torrent("h1", 100 * MIB);
    let swarms = one_swarm("h1", vec![mk_entry("not-an-ip", 1, 0, 0, "x")]);
    match state.reconcile(swarms) {
        Ok(_) => panic!("expected an error"),
        Err(CycleError::BadPeerAddress(ip)) => assert_eq!(ip, "not-an-ip"),
    }
}

#[test]
fn full_reset_clears_peers_and_counters_keeps_torrents() {
    let mut state = fresh_store_with_torrent("h1", 100 * MIB);
    let peers = vec![
        mk_entry("1.2.3.4", 1, 0, 100_000, "x"),
        mk_entry("10.0.0.1", 2, 0, 0, "Mozilla"),
    ];
    let bans = state.reconcile(one_swarm("h1", peers)).unwrap();
    assert_eq!(bans.len(), 1);
    assert_eq!(state.torrents[0].peers.len(), 1);
    assert_eq!(state.networks.len(), 1);

    state.apply_reset(500_000);
    assert_eq!(state.torrents.len(), 1);
    assert_eq!(state.torrents[0].hash, "h1");
    assert_eq!(state.torrents[0].size, 100 * MIB);
    assert!(state.torrents[0].peers.is_empty());
    assert!(state.networks.is_empty());
    assert_eq!(state.last_reset, 500_000);
}

#[test]
fn reset_due_after_one_day_strictly() {
    let mut state = SwarmState::new(1_000_000);
    // a fresh store starts overdue
    assert!(state.reset_due(1_000_000));
    state.apply_reset(1_000_000);
    assert!(!state.reset_due(1_000_000));
    assert!(!state.reset_due(1_000_000 + 86_400));
    assert!(state.reset_due(1_000_000 + 86_401));
}

#[test]
fn cli_carries_port_and_interval() {
    let cli = swarmban::Cli { port: 8080, interval: 10 };
    let copy = cli;
    assert_eq!(copy.port, 8080);
    assert_eq!(copy.interval, 10);
}

#[test]
fn torrent_hashes_lists_store_order() {
    let mut state = SwarmState::new(0);
    state.register_torrents(vec![
        TorrentInfo { hash: "b".to_string(), size: 1 },
        TorrentInfo { hash: "a".to_string(), size: 2 },
        TorrentInfo { hash: "b".to_string(), size: 3 },
    ]);
    assert_eq!(state.torrent_hashes(), vec!["b".to_string(), "a".to_string()]);
}
