//! The peer state store and its per-cycle operations.
//!
//! The store maps each known torrent to its last-observed swarm and keeps
//! the per-network ban counters and the time of the last full reset. One
//! monitoring cycle registers freshly listed torrents, prunes peers that
//! vanished from their swarm, classifies every observed peer, and commits
//! the survivors; a daily reset clears the swarms and the counters but
//! keeps the torrents themselves.

use vstd::prelude::*;
use crate::classify::stage_one_banned;
use crate::classify::stage_two_banned;
use crate::classify::classify_context_free;
use crate::classify::classify_delta;
use crate::classify::NETWORK_BAN_LIMIT;
use crate::clients::matches_denylist;
use crate::net::NetworkPrefix;
use crate::net::network_prefix_of;
use crate::net::spec_network_prefix;
use crate::peer::Peer;
use crate::peer::PeerData;
use crate::text::str_eq;

verus! {

/// Seconds after which a new full reset is due.
pub const RESET_PERIOD_SECONDS: i64 = 24 * 60 * 60;

/// How far in the past the reset clock starts, so that a fresh store
/// treats its first cycle check as overdue.
pub const INITIAL_RESET_AGE_SECONDS: i64 = 2 * 24 * 60 * 60;

/// A keyed observation of one peer, under the swarm key the remote client
/// lists it by (its `ip:port` text).
pub struct PeerEntry {
    pub key: String,
    pub peer: Peer,
}

pub struct PeerEntryData {
    pub key: Seq<char>,
    pub peer: PeerData,
}

impl View for PeerEntry {
    type V = PeerEntryData;

    open spec fn view(&self) -> PeerEntryData {
        PeerEntryData { key: self.key@, peer: self.peer@ }
    }
}

/// A tracked torrent: its content hash, the size recorded at first
/// sighting, and the last-observed swarm.
pub struct Torrent {
    pub hash: String,
    pub size: u64,
    pub peers: Vec<PeerEntry>,
}

pub struct TorrentData {
    pub hash: Seq<char>,
    pub size: int,
    pub peers: Seq<PeerEntryData>,
}

/// View of a peer-entry vector.
pub open spec fn entries_view(v: Seq<PeerEntry>) -> Seq<PeerEntryData> {
    v.map_values(|e: PeerEntry| e@)
}

impl View for Torrent {
    type V = TorrentData;

    open spec fn view(&self) -> TorrentData {
        TorrentData { hash: self.hash@, size: self.size as int, peers: entries_view(self.peers@) }
    }
}

/// One line of the freshly fetched torrent list.
pub struct TorrentInfo {
    pub hash: String,
    pub size: u64,
}

pub struct TorrentInfoData {
    pub hash: Seq<char>,
    pub size: int,
}

impl View for TorrentInfo {
    type V = TorrentInfoData;

    open spec fn view(&self) -> TorrentInfoData {
        TorrentInfoData { hash: self.hash@, size: self.size as int }
    }
}

/// The freshly fetched swarm of one torrent.
pub struct FetchedSwarm {
    pub hash: String,
    pub peers: Vec<PeerEntry>,
}

pub struct FetchedSwarmData {
    pub hash: Seq<char>,
    pub peers: Seq<PeerEntryData>,
}

impl View for FetchedSwarm {
    type V = FetchedSwarmData;

    open spec fn view(&self) -> FetchedSwarmData {
        FetchedSwarmData { hash: self.hash@, peers: entries_view(self.peers@) }
    }
}

/// Bans charged to one network block since the last reset.
pub struct NetworkCount {
    pub prefix: NetworkPrefix,
    pub count: u64,
}

pub struct NetworkCountData {
    pub prefix: NetworkPrefix,
    pub count: int,
}

impl View for NetworkCount {
    type V = NetworkCountData;

    open spec fn view(&self) -> NetworkCountData {
        NetworkCountData { prefix: self.prefix, count: self.count as int }
    }
}

pub open spec fn torrents_view(v: Seq<Torrent>) -> Seq<TorrentData> {
    v.map_values(|t: Torrent| t@)
}

pub open spec fn infos_view(v: Seq<TorrentInfo>) -> Seq<TorrentInfoData> {
    v.map_values(|t: TorrentInfo| t@)
}

pub open spec fn swarms_view(v: Seq<FetchedSwarm>) -> Seq<FetchedSwarmData> {
    v.map_values(|f: FetchedSwarm| f@)
}

pub open spec fn nets_view(v: Seq<NetworkCount>) -> Seq<NetworkCountData> {
    v.map_values(|n: NetworkCount| n@)
}

pub open spec fn keys_view(v: Seq<String>) -> Seq<Seq<char>> {
    v.map_values(|k: String| k@)
}

/// The whole classification state between cycles.
pub struct SwarmState {
    pub torrents: Vec<Torrent>,
    pub networks: Vec<NetworkCount>,
    pub last_reset: i64,
}

pub struct SwarmStateData {
    pub torrents: Seq<TorrentData>,
    pub networks: Seq<NetworkCountData>,
    pub last_reset: int,
}

impl View for SwarmState {
    type V = SwarmStateData;

    open spec fn view(&self) -> SwarmStateData {
        SwarmStateData {
            torrents: torrents_view(self.torrents@),
            networks: nets_view(self.networks@),
            last_reset: self.last_reset as int,
        }
    }
}

impl TorrentData {
    /// Peer keys are unique within the swarm and every record is a valid
    /// observation.
    pub open spec fn wf(self) -> bool {
        &&& forall|i: int, j: int|
            0 <= i < j < self.peers.len() ==> (#[trigger] self.peers[i]).key != (
            #[trigger] self.peers[j]).key
        &&& forall|i: int| 0 <= i < self.peers.len() ==> (#[trigger] self.peers[i]).peer.wf()
    }
}

impl SwarmStateData {
    /// Torrent hashes and network prefixes are unique and every swarm is
    /// well formed.
    pub open spec fn wf(self) -> bool {
        &&& forall|i: int, j: int|
            0 <= i < j < self.torrents.len() ==> (#[trigger] self.torrents[i]).hash != (
            #[trigger] self.torrents[j]).hash
        &&& forall|i: int| 0 <= i < self.torrents.len() ==> (#[trigger] self.torrents[i]).wf()
        &&& forall|i: int, j: int|
            0 <= i < j < self.networks.len() ==> (#[trigger] self.networks[i]).prefix != (
            #[trigger] self.networks[j]).prefix
    }
}

/// Index of the torrent with the given hash, or -1.
pub open spec fn torrent_idx(ts: Seq<TorrentData>, h: Seq<char>) -> int
    decreases ts.len(),
{
    if ts.len() == 0 {
        -1
    } else if ts[0].hash == h {
        0
    } else {
        let r = torrent_idx(ts.drop_first(), h);
        if r < 0 {
            -1
        } else {
            r + 1
        }
    }
}

proof fn lemma_torrent_idx_at(ts: Seq<TorrentData>, h: Seq<char>, k: int)
    requires
        0 <= k < ts.len(),
        ts[k].hash == h,
        forall|j: int| 0 <= j < k ==> (#[trigger] ts[j]).hash != h,
    ensures
        torrent_idx(ts, h) == k,
    decreases ts.len(),
{
    if k > 0 {
        lemma_torrent_idx_at(ts.drop_first(), h, k - 1);
    }
}

proof fn lemma_torrent_idx_none(ts: Seq<TorrentData>, h: Seq<char>)
    requires
        forall|j: int| 0 <= j < ts.len() ==> (#[trigger] ts[j]).hash != h,
    ensures
        torrent_idx(ts, h) == -1,
    decreases ts.len(),
{
    if ts.len() > 0 {
        lemma_torrent_idx_none(ts.drop_first(), h);
    }
}

/// Index of the stored record under the given peer key, or -1.
pub open spec fn peer_idx(ps: Seq<PeerEntryData>, k: Seq<char>) -> int
    decreases ps.len(),
{
    if ps.len() == 0 {
        -1
    } else if ps[0].key == k {
        0
    } else {
        let r = peer_idx(ps.drop_first(), k);
        if r < 0 {
            -1
        } else {
            r + 1
        }
    }
}

proof fn lemma_peer_idx_at(ps: Seq<PeerEntryData>, k: Seq<char>, i: int)
    requires
        0 <= i < ps.len(),
        ps[i].key == k,
        forall|j: int| 0 <= j < i ==> (#[trigger] ps[j]).key != k,
    ensures
        peer_idx(ps, k) == i,
    decreases ps.len(),
{
    if i > 0 {
        lemma_peer_idx_at(ps.drop_first(), k, i - 1);
    }
}

proof fn lemma_peer_idx_none(ps: Seq<PeerEntryData>, k: Seq<char>)
    requires
        forall|j: int| 0 <= j < ps.len() ==> (#[trigger] ps[j]).key != k,
    ensures
        peer_idx(ps, k) == -1,
    decreases ps.len(),
{
    if ps.len() > 0 {
        lemma_peer_idx_none(ps.drop_first(), k);
    }
}

/// Index of the fetched swarm for the given hash, or -1.
pub open spec fn swarm_idx(fs: Seq<FetchedSwarmData>, h: Seq<char>) -> int
    decreases fs.len(),
{
    if fs.len() == 0 {
        -1
    } else if fs[0].hash == h {
        0
    } else {
        let r = swarm_idx(fs.drop_first(), h);
        if r < 0 {
            -1
        } else {
            r + 1
        }
    }
}

proof fn lemma_swarm_idx_at(fs: Seq<FetchedSwarmData>, h: Seq<char>, k: int)
    requires
        0 <= k < fs.len(),
        fs[k].hash == h,
        forall|j: int| 0 <= j < k ==> (#[trigger] fs[j]).hash != h,
    ensures
        swarm_idx(fs, h) == k,
    decreases fs.len(),
{
    if k > 0 {
        lemma_swarm_idx_at(fs.drop_first(), h, k - 1);
    }
}

proof fn lemma_swarm_idx_none(fs: Seq<FetchedSwarmData>, h: Seq<char>)
    requires
        forall|j: int| 0 <= j < fs.len() ==> (#[trigger] fs[j]).hash != h,
    ensures
        swarm_idx(fs, h) == -1,
    decreases fs.len(),
{
    if fs.len() > 0 {
        lemma_swarm_idx_none(fs.drop_first(), h);
    }
}

/// Index of the counter for the given network block, or -1.
pub open spec fn net_idx(ns: Seq<NetworkCountData>, p: NetworkPrefix) -> int
    decreases ns.len(),
{
    if ns.len() == 0 {
        -1
    } else if ns[0].prefix == p {
        0
    } else {
        let r = net_idx(ns.drop_first(), p);
        if r < 0 {
            -1
        } else {
            r + 1
        }
    }
}

proof fn lemma_net_idx_at(ns: Seq<NetworkCountData>, p: NetworkPrefix, k: int)
    requires
        0 <= k < ns.len(),
        ns[k].prefix == p,
        forall|j: int| 0 <= j < k ==> (#[trigger] ns[j]).prefix != p,
    ensures
        net_idx(ns, p) == k,
    decreases ns.len(),
{
    if k > 0 {
        lemma_net_idx_at(ns.drop_first(), p, k - 1);
    }
}

proof fn lemma_net_idx_none(ns: Seq<NetworkCountData>, p: NetworkPrefix)
    requires
        forall|j: int| 0 <= j < ns.len() ==> (#[trigger] ns[j]).prefix != p,
    ensures
        net_idx(ns, p) == -1,
    decreases ns.len(),
{
    if ns.len() > 0 {
        lemma_net_idx_none(ns.drop_first(), p);
    }
}

/// Position of the torrent with hash `h`, together with the facts an
/// exact caller needs.
fn find_torrent(ts: &Vec<Torrent>, h: &str) -> (r: Option<usize>)
    ensures
        match r {
            Some(i) => i < ts@.len() && torrents_view(ts@)[i as int].hash == h@ && torrent_idx(
                torrents_view(ts@),
                h@,
            ) == i as int,
            None => torrent_idx(torrents_view(ts@), h@) == -1 && forall|j: int|
                0 <= j < ts@.len() ==> (#[trigger] torrents_view(ts@)[j]).hash != h@,
        },
{
    let ghost views = torrents_view(ts@);
    let mut i: usize = 0;
    while i < ts.len()
        invariant
            i <= ts.len(),
            views == torrents_view(ts@),
            views.len() == ts@.len(),
            forall|j: int| 0 <= j < i ==> (#[trigger] views[j]).hash != h@,
        decreases ts.len() - i,
    {
        if str_eq(ts[i].hash.as_str(), h) {
            proof {
                lemma_torrent_idx_at(views, h@, i as int);
            }
            return Some(i);
        }
        i = i + 1;
    }
    proof {
        lemma_torrent_idx_none(views, h@);
    }
    None
}

/// Position of the stored record for peer key `k`, together with the
/// facts an exact caller needs.
fn find_peer(ps: &Vec<PeerEntry>, k: &str) -> (r: Option<usize>)
    ensures
        match r {
            Some(i) => i < ps@.len() && entries_view(ps@)[i as int].key == k@ && peer_idx(
                entries_view(ps@),
                k@,
            ) == i as int,
            None => peer_idx(entries_view(ps@), k@) == -1 && forall|j: int|
                0 <= j < ps@.len() ==> (#[trigger] entries_view(ps@)[j]).key != k@,
        },
{
    let ghost views = entries_view(ps@);
    let mut i: usize = 0;
    while i < ps.len()
        invariant
            i <= ps.len(),
            views == entries_view(ps@),
            views.len() == ps@.len(),
            forall|j: int| 0 <= j < i ==> (#[trigger] views[j]).key != k@,
        decreases ps.len() - i,
    {
        if str_eq(ps[i].key.as_str(), k) {
            proof {
                lemma_peer_idx_at(views, k@, i as int);
            }
            return Some(i);
        }
        i = i + 1;
    }
    proof {
        lemma_peer_idx_none(views, k@);
    }
    None
}

/// Position of the fetched swarm for hash `h`.
fn find_swarm(fs: &Vec<FetchedSwarm>, h: &str) -> (r: Option<usize>)
    ensures
        match r {
            Some(i) => i < fs@.len() && swarms_view(fs@)[i as int].hash == h@ && swarm_idx(
                swarms_view(fs@),
                h@,
            ) == i as int,
            None => swarm_idx(swarms_view(fs@), h@) == -1,
        },
{
    let ghost views = swarms_view(fs@);
    let mut i: usize = 0;
    while i < fs.len()
        invariant
            i <= fs.len(),
            views == swarms_view(fs@),
            views.len() == fs@.len(),
            forall|j: int| 0 <= j < i ==> (#[trigger] views[j]).hash != h@,
        decreases fs.len() - i,
    {
        if str_eq(fs[i].hash.as_str(), h) {
            proof {
                lemma_swarm_idx_at(views, h@, i as int);
            }
            return Some(i);
        }
        i = i + 1;
    }
    proof {
        lemma_swarm_idx_none(views, h@);
    }
    None
}

/// Bans charged so far to the network block `p`: the recorded counter, or
/// zero when the block has none.
pub open spec fn net_count(ns: Seq<NetworkCountData>, p: NetworkPrefix) -> int {
    let i = net_idx(ns, p);
    if i >= 0 {
        ns[i].count
    } else {
        0
    }
}

/// The counters after charging one more ban to the block `p`: an existing
/// counter grows by one (stopping at the machine limit), a missing one is
/// created at one.
pub open spec fn spec_bump(ns: Seq<NetworkCountData>, p: NetworkPrefix) -> Seq<NetworkCountData> {
    let i = net_idx(ns, p);
    if i >= 0 {
        ns.update(
            i,
            NetworkCountData {
                prefix: p,
                count: if ns[i].count < u64::MAX as int {
                    ns[i].count + 1
                } else {
                    ns[i].count
                },
            },
        )
    } else {
        ns.push(NetworkCountData { prefix: p, count: 1 })
    }
}

/// Reads the ban count of the network block `p`.
fn net_count_of(ns: &Vec<NetworkCount>, p: NetworkPrefix) -> (r: u64)
    ensures
        r as int == net_count(nets_view(ns@), p),
{
    let ghost views = nets_view(ns@);
    let mut i: usize = 0;
    while i < ns.len()
        invariant
            i <= ns.len(),
            views == nets_view(ns@),
            views.len() == ns@.len(),
            forall|j: int| 0 <= j < i ==> (#[trigger] views[j]).prefix != p,
        decreases ns.len() - i,
    {
        if ns[i].prefix == p {
            proof {
                lemma_net_idx_at(views, p, i as int);
            }
            return ns[i].count;
        }
        i = i + 1;
    }
    proof {
        lemma_net_idx_none(views, p);
    }
    0
}

/// Charges one more ban to the network block `p`.
fn bump_network(ns: &mut Vec<NetworkCount>, p: NetworkPrefix)
    requires
        forall|i: int, j: int|
            0 <= i < j < old(ns)@.len() ==> (#[trigger] nets_view(old(ns)@)[i]).prefix != (
            #[trigger] nets_view(old(ns)@)[j]).prefix,
    ensures
        nets_view(final(ns)@) == spec_bump(nets_view(old(ns)@), p),
        forall|i: int, j: int|
            0 <= i < j < final(ns)@.len() ==> (#[trigger] nets_view(final(ns)@)[i]).prefix != (
            #[trigger] nets_view(final(ns)@)[j]).prefix,
{
    let ghost views = nets_view(old(ns)@);
    let mut i: usize = 0;
    while i < ns.len()
        invariant
            i <= ns.len(),
            views == nets_view(ns@),
            views == nets_view(old(ns)@),
            views.len() == ns@.len(),
            forall|a: int, b: int|
                0 <= a < b < views.len() ==> (#[trigger] views[a]).prefix != (
                #[trigger] views[b]).prefix,
            forall|j: int| 0 <= j < i ==> (#[trigger] views[j]).prefix != p,
        decreases ns.len() - i,
    {
        if ns[i].prefix == p {
            proof {
                lemma_net_idx_at(views, p, i as int);
            }
            let c = ns[i].count;
            let c2: u64 = if c < u64::MAX {
                c + 1
            } else {
                c
            };
            let e = ns.remove(i);
            ns.insert(i, NetworkCount { prefix: e.prefix, count: c2 });
            proof {
                assert(nets_view(ns@) =~= spec_bump(views, p));
                assert forall|a: int, b: int|
                    0 <= a < b < nets_view(ns@).len() implies (#[trigger] nets_view(
                    ns@,
                )[a]).prefix != (#[trigger] nets_view(ns@)[b]).prefix by {
                    assert(nets_view(ns@)[a].prefix == views[a].prefix);
                    assert(nets_view(ns@)[b].prefix == views[b].prefix);
                }
            }
            return ;
        }
        i = i + 1;
    }
    proof {
        lemma_net_idx_none(views, p);
    }
    ns.push(NetworkCount { prefix: p, count: 1 });
    proof {
        assert(nets_view(ns@) =~= spec_bump(views, p));
        assert forall|a: int, b: int|
            0 <= a < b < nets_view(ns@).len() implies (#[trigger] nets_view(ns@)[a]).prefix != (
        #[trigger] nets_view(ns@)[b]).prefix by {
            if b < views.len() {
                assert(nets_view(ns@)[a].prefix == views[a].prefix);
                assert(nets_view(ns@)[b].prefix == views[b].prefix);
            } else {
                assert(nets_view(ns@)[a].prefix == views[a].prefix);
                assert(nets_view(ns@)[b].prefix == p);
            }
        }
    }
}

/// The keys under which a swarm lists its peers.
pub open spec fn swarm_keys(ps: Seq<PeerEntryData>) -> Seq<Seq<char>> {
    ps.map_values(|pe: PeerEntryData| pe.key)
}

/// The stored records that survive a pruning against the fresh key set,
/// in their stored order: exactly those whose key the fresh swarm still
/// lists.
pub open spec fn spec_keep_peers(ps: Seq<PeerEntryData>, keys: Seq<Seq<char>>) -> Seq<
    PeerEntryData,
>
    decreases ps.len(),
{
    if ps.len() == 0 {
        Seq::empty()
    } else {
        let prev = spec_keep_peers(ps.drop_last(), keys);
        if keys.contains(ps.last().key) {
            prev.push(ps.last())
        } else {
            prev
        }
    }
}

/// A torrent after pruning against the fresh swarm: same hash and size,
/// only the still-listed peer records kept.
pub open spec fn spec_prune_torrent(t: TorrentData, fresh: Seq<PeerEntryData>) -> TorrentData {
    TorrentData { hash: t.hash, size: t.size, peers: spec_keep_peers(t.peers, swarm_keys(fresh)) }
}

/// The store's torrents after the pruning step of one cycle: a torrent
/// whose hash was fetched this cycle keeps only the peers its fresh swarm
/// still lists; a torrent that was not reachable this cycle is left as it
/// was.
pub open spec fn spec_prune_all(ts: Seq<TorrentData>, fs: Seq<FetchedSwarmData>) -> Seq<
    TorrentData,
> {
    Seq::new(
        ts.len(),
        |i: int|
            {
                let si = swarm_idx(fs, ts[i].hash);
                if si >= 0 {
                    spec_prune_torrent(ts[i], fs[si].peers)
                } else {
                    ts[i]
                }
            },
    )
}

proof fn lemma_keep_peers_wf(ps: Seq<PeerEntryData>, keys: Seq<Seq<char>>)
    requires
        forall|i: int, j: int|
            0 <= i < j < ps.len() ==> (#[trigger] ps[i]).key != (#[trigger] ps[j]).key,
        forall|i: int| 0 <= i < ps.len() ==> (#[trigger] ps[i]).peer.wf(),
    ensures
        forall|i: int|
            0 <= i < spec_keep_peers(ps, keys).len() ==> exists|j: int|
                0 <= j < ps.len() && #[trigger] spec_keep_peers(ps, keys)[i] == ps[j],
        forall|i: int, j: int|
            0 <= i < j < spec_keep_peers(ps, keys).len() ==> (#[trigger] spec_keep_peers(
                ps,
                keys,
            )[i]).key != (#[trigger] spec_keep_peers(ps, keys)[j]).key,
        forall|i: int|
            0 <= i < spec_keep_peers(ps, keys).len() ==> (#[trigger] spec_keep_peers(
                ps,
                keys,
            )[i]).peer.wf(),
    decreases ps.len(),
{
    if ps.len() > 0 {
        let pre = ps.drop_last();
        assert forall|i: int, j: int|
            0 <= i < j < pre.len() implies (#[trigger] pre[i]).key != (#[trigger] pre[j]).key by {
            assert(pre[i] == ps[i]);
            assert(pre[j] == ps[j]);
        }
        assert forall|i: int| 0 <= i < pre.len() implies (#[trigger] pre[i]).peer.wf() by {
            assert(pre[i] == ps[i]);
        }
        lemma_keep_peers_wf(pre, keys);
        let prev = spec_keep_peers(pre, keys);
        let cur = spec_keep_peers(ps, keys);
        if keys.contains(ps.last().key) {
            assert(cur == prev.push(ps.last()));
            assert forall|i: int|
                0 <= i < cur.len() implies exists|j: int|
                    0 <= j < ps.len() && #[trigger] cur[i] == ps[j] by {
                if i < prev.len() {
                    assert(cur[i] == prev[i]);
                    let j = choose|j: int| 0 <= j < pre.len() && prev[i] == pre[j];
                    assert(pre[j] == ps[j]);
                    assert(cur[i] == ps[j]);
                } else {
                    assert(cur[i] == ps[ps.len() - 1]);
                }
            }
            assert forall|i: int, j: int|
                0 <= i < j < cur.len() implies (#[trigger] cur[i]).key != (
            #[trigger] cur[j]).key by {
                if j < prev.len() {
                    assert(cur[i] == prev[i]);
                    assert(cur[j] == prev[j]);
                } else {
                    assert(cur[i] == prev[i]);
                    assert(cur[j] == ps.last());
                    let m = choose|m: int| 0 <= m < pre.len() && prev[i] == pre[m];
                    assert(pre[m] == ps[m]);
                    assert(ps[m].key != ps[ps.len() - 1].key);
                }
            }
            assert forall|i: int| 0 <= i < cur.len() implies (#[trigger] cur[i]).peer.wf() by {
                if i < prev.len() {
                    assert(cur[i] == prev[i]);
                } else {
                    assert(cur[i] == ps.last());
                    assert(ps[ps.len() - 1].peer.wf());
                }
            }
        }
    }
}

/// Whether the swarm lists a peer under key `k`.
fn swarm_has_key(ps: &Vec<PeerEntry>, k: &str) -> (r: bool)
    ensures
        r == swarm_keys(entries_view(ps@)).contains(k@),
{
    let ghost keys = swarm_keys(entries_view(ps@));
    let mut i: usize = 0;
    while i < ps.len()
        invariant
            i <= ps.len(),
            keys == swarm_keys(entries_view(ps@)),
            keys.len() == ps@.len(),
            forall|j: int| 0 <= j < i ==> keys[j] != k@,
        decreases ps.len() - i,
    {
        if str_eq(ps[i].key.as_str(), k) {
            proof {
                assert(keys[i as int] == entries_view(ps@)[i as int].key);
            }
            return true;
        }
        proof {
            assert(keys[i as int] == entries_view(ps@)[i as int].key);
        }
        i = i + 1;
    }
    false
}

/// The error that aborts a reconciliation cycle.
#[derive(Debug)]
pub enum CycleError {
    /// A fetched peer's address is neither a valid IPv4 nor a valid IPv6
    /// literal, so no network block can be charged for it.
    BadPeerAddress(String),
}

/// Every peer observation in every fetched swarm is well formed.
pub open spec fn peers_all_wf(ps: Seq<PeerEntryData>) -> bool {
    forall|i: int| 0 <= i < ps.len() ==> (#[trigger] ps[i]).peer.wf()
}

pub open spec fn fetched_wf(fs: Seq<FetchedSwarmData>) -> bool {
    forall|i: int| 0 <= i < fs.len() ==> peers_all_wf((#[trigger] fs[i]).peers)
}

/// The torrent after committing one observation: an existing record under
/// the same key is replaced in place, a new key is appended.
pub open spec fn spec_commit(t: TorrentData, pe: PeerEntryData) -> TorrentData {
    let i = peer_idx(t.peers, pe.key);
    TorrentData {
        hash: t.hash,
        size: t.size,
        peers: if i >= 0 {
            t.peers.update(i, pe)
        } else {
            t.peers.push(pe)
        },
    }
}

/// State carried through the classification of one swarm: the torrent
/// being updated, the network counters, the ban list of the cycle so
/// far, and the address of the first unresolvable peer, if one was met.
pub struct StepState {
    pub t: TorrentData,
    pub nets: Seq<NetworkCountData>,
    pub bans: Seq<Seq<char>>,
    pub failed: Option<Seq<char>>,
}

/// Classifies one observation against the state so far. A peer with an
/// unresolvable address stops the cycle. A peer banned by the stage-one
/// rules is charged to its network block and put on the ban list without
/// being committed. Any other peer is committed; if it replaced a stored
/// record and the stage-two rules ban it, it is charged and listed as
/// well, after the commit.
pub open spec fn spec_peer_step(st: StepState, pe: PeerEntryData) -> StepState {
    if st.failed is Some {
        st
    } else {
        match spec_network_prefix(pe.peer.ip) {
            None => StepState { failed: Some(pe.peer.ip), ..st },
            Some(px) => {
                if stage_one_banned(pe.peer, st.t.size, net_count(st.nets, px)) {
                    StepState { nets: spec_bump(st.nets, px), bans: st.bans.push(pe.key), ..st }
                } else {
                    let i = peer_idx(st.t.peers, pe.key);
                    let t2 = spec_commit(st.t, pe);
                    if i >= 0 && stage_two_banned(st.t.peers[i].peer, pe.peer, st.t.size) {
                        StepState {
                            t: t2,
                            nets: spec_bump(st.nets, px),
                            bans: st.bans.push(pe.key),
                            ..st
                        }
                    } else {
                        StepState { t: t2, ..st }
                    }
                }
            },
        }
    }
}

/// Classifies a swarm's observations in order, stopping at the first
/// unresolvable address.
pub open spec fn spec_swarm_fold(st: StepState, ps: Seq<PeerEntryData>) -> StepState
    decreases ps.len(),
{
    if ps.len() == 0 {
        st
    } else {
        spec_peer_step(spec_swarm_fold(st, ps.drop_last()), ps.last())
    }
}

/// State carried through the classification phase of a whole cycle.
pub struct CycleState {
    pub torrents: Seq<TorrentData>,
    pub nets: Seq<NetworkCountData>,
    pub bans: Seq<Seq<char>>,
    pub failed: Option<Seq<char>>,
}

/// Processes one fetched swarm: a swarm whose hash is not tracked is
/// skipped; otherwise its torrent is run through the per-peer
/// classification and written back.
pub open spec fn spec_swarm_step(cs: CycleState, f: FetchedSwarmData) -> CycleState {
    if cs.failed is Some {
        cs
    } else {
        let ti = torrent_idx(cs.torrents, f.hash);
        if ti < 0 {
            cs
        } else {
            let st = spec_swarm_fold(
                StepState { t: cs.torrents[ti], nets: cs.nets, bans: cs.bans, failed: None },
                f.peers,
            );
            CycleState {
                torrents: cs.torrents.update(ti, st.t),
                nets: st.nets,
                bans: st.bans,
                failed: st.failed,
            }
        }
    }
}

/// Processes the fetched swarms in order, stopping at the first
/// unresolvable address.
pub open spec fn spec_cycle_fold(cs: CycleState, fs: Seq<FetchedSwarmData>) -> CycleState
    decreases fs.len(),
{
    if fs.len() == 0 {
        cs
    } else {
        spec_swarm_step(spec_cycle_fold(cs, fs.drop_last()), fs.last())
    }
}

/// The outcome of one reconciliation cycle on a store: prune first, then
/// classify and commit every fetched observation.
pub open spec fn spec_reconcile(s: SwarmStateData, fs: Seq<FetchedSwarmData>) -> CycleState {
    spec_cycle_fold(
        CycleState {
            torrents: spec_prune_all(s.torrents, fs),
            nets: s.networks,
            bans: Seq::empty(),
            failed: None,
        },
        fs,
    )
}

/// A peer whose client string matches either denylist is put on the ban
/// list the moment it is classified, and its record is not committed:
/// the torrent is left exactly as it was, so the next cycle sees the
/// peer as wholly new.
pub proof fn lemma_denylisted_peer_is_listed_not_committed(
    st: StepState,
    pe: PeerEntryData,
    px: NetworkPrefix,
)
    requires
        st.failed is None,
        spec_network_prefix(pe.peer.ip) == Some(px),
        matches_denylist(pe.peer.client),
    ensures
        spec_peer_step(st, pe).bans == st.bans.push(pe.key),
        spec_peer_step(st, pe).t == st.t,
        spec_peer_step(st, pe).nets == spec_bump(st.nets, px),
        spec_peer_step(st, pe).failed is None,
{
}

/// Once a peer's network block has at least the ban limit recorded in the
/// current epoch, any further peer of that block is put on the ban list
/// whatever its other fields, and its record is not committed.
pub proof fn lemma_poisoned_block_peer_is_listed_not_committed(
    st: StepState,
    pe: PeerEntryData,
    px: NetworkPrefix,
)
    requires
        st.failed is None,
        spec_network_prefix(pe.peer.ip) == Some(px),
        net_count(st.nets, px) >= NETWORK_BAN_LIMIT as int,
    ensures
        spec_peer_step(st, pe).bans == st.bans.push(pe.key),
        spec_peer_step(st, pe).t == st.t,
        spec_peer_step(st, pe).nets == spec_bump(st.nets, px),
        spec_peer_step(st, pe).failed is None,
{
}

proof fn lemma_swarm_fold_stuck(st: StepState, ps: Seq<PeerEntryData>, k: int)
    requires
        0 <= k <= ps.len(),
        spec_swarm_fold(st, ps.take(k)).failed is Some,
    ensures
        spec_swarm_fold(st, ps) == spec_swarm_fold(st, ps.take(k)),
    decreases ps.len() - k,
{
    if k < ps.len() {
        assert(ps.take(k + 1).drop_last() =~= ps.take(k));
        assert(ps.take(k + 1).last() == ps[k]);
        lemma_swarm_fold_stuck(st, ps, k + 1);
    } else {
        assert(ps.take(k) =~= ps);
    }
}

proof fn lemma_cycle_fold_stuck(cs: CycleState, fs: Seq<FetchedSwarmData>, k: int)
    requires
        0 <= k <= fs.len(),
        spec_cycle_fold(cs, fs.take(k)).failed is Some,
    ensures
        spec_cycle_fold(cs, fs) == spec_cycle_fold(cs, fs.take(k)),
    decreases fs.len() - k,
{
    if k < fs.len() {
        assert(fs.take(k + 1).drop_last() =~= fs.take(k));
        assert(fs.take(k + 1).last() == fs[k]);
        lemma_cycle_fold_stuck(cs, fs, k + 1);
    } else {
        assert(fs.take(k) =~= fs);
    }
}

/// Routes one fetched observation through the classification rules,
/// mutating the torrent, the counters and the ban list exactly as
/// `spec_peer_step` describes. Returns the peer's address when it is
/// neither IPv4 nor IPv6; everything is then left unchanged.
fn process_peer(
    t: &mut Torrent,
    networks: &mut Vec<NetworkCount>,
    bans: &mut Vec<String>,
    pe: PeerEntry,
) -> (r: Option<String>)
    requires
        pe@.peer.wf(),
        old(t)@.wf(),
        forall|a: int, b: int|
            0 <= a < b < nets_view(old(networks)@).len() ==> (#[trigger] nets_view(
                old(networks)@,
            )[a]).prefix != (#[trigger] nets_view(old(networks)@)[b]).prefix,
    ensures
        ({
            let st = StepState {
                t: old(t)@,
                nets: nets_view(old(networks)@),
                bans: keys_view(old(bans)@),
                failed: None,
            };
            let st2 = spec_peer_step(st, pe@);
            &&& final(t)@ == st2.t
            &&& nets_view(final(networks)@) == st2.nets
            &&& keys_view(final(bans)@) == st2.bans
            &&& match r {
                None => st2.failed is None,
                Some(ip) => st2.failed == Some(ip@),
            }
        }),
        final(t)@.wf(),
        final(t)@.hash == old(t)@.hash,
        final(t)@.size == old(t)@.size,
        forall|a: int, b: int|
            0 <= a < b < nets_view(final(networks)@).len() ==> (#[trigger] nets_view(
                final(networks)@,
            )[a]).prefix != (#[trigger] nets_view(final(networks)@)[b]).prefix,
{
    let ghost st = StepState {
        t: old(t)@,
        nets: nets_view(old(networks)@),
        bans: keys_view(old(bans)@),
        failed: None,
    };
    let ghost pev = pe@;
    match network_prefix_of(pe.peer.ip.as_str()) {
        None => {
            proof {
                let st2 = spec_peer_step(st, pev);
                assert(st2.failed == Some(pev.peer.ip));
                assert(st2.t == st.t && st2.nets == st.nets && st2.bans == st.bans);
            }
            let PeerEntry { key: _, peer } = pe;
            let Peer { ip, port: _, uploaded: _, progress: _, client: _ } = peer;
            Some(ip)
        },
        Some(px) => {
            proof {
                assert(spec_network_prefix(pev.peer.ip) == Some(px));
            }
            let prior = net_count_of(networks, px);
            if classify_context_free(&pe.peer, t.size, prior) {
                let ghost prevbans = bans@;
                let PeerEntry { key, peer: _ } = pe;
                bans.push(key);
                bump_network(networks, px);
                proof {
                    assert forall|i: int|
                        0 <= i < bans@.len() implies #[trigger] keys_view(bans@)[i] == st.bans.push(
                        pev.key,
                    )[i] by {
                        assert(keys_view(bans@)[i] == bans@[i]@);
                        if i < prevbans.len() {
                            assert(bans@[i] == prevbans[i]);
                            assert(keys_view(prevbans)[i] == prevbans[i]@);
                        }
                    }
                    assert(keys_view(bans@) =~= st.bans.push(pev.key));
                    assert(spec_peer_step(st, pev) == StepState {
                        nets: spec_bump(st.nets, px),
                        bans: st.bans.push(pev.key),
                        ..st
                    });
                }
            } else {
                match find_peer(&t.peers, pe.key.as_str()) {
                    Some(i) => {
                        let ghost prevpeers = t.peers@;
                        let old_entry = t.peers.remove(i);
                        proof {
                            assert(entries_view(prevpeers)[i as int] == prevpeers[i as int]@);
                            assert(old_entry@ == st.t.peers[i as int]);
                            assert(st.t.peers[i as int].peer.wf());
                        }
                        let banned2 = classify_delta(&old_entry.peer, &pe.peer, t.size);
                        let key_copy = pe.key.clone();
                        t.peers.insert(i, pe);
                        proof {
                            assert forall|m: int|
                                0 <= m < t.peers@.len() implies #[trigger] entries_view(
                                t.peers@,
                            )[m] == st.t.peers.update(i as int, pev)[m] by {
                                assert(entries_view(t.peers@)[m] == t.peers@[m]@);
                                if m < i {
                                    assert(t.peers@[m] == prevpeers[m]);
                                    assert(entries_view(prevpeers)[m] == prevpeers[m]@);
                                } else if m > i {
                                    assert(t.peers@[m] == prevpeers[m]);
                                    assert(entries_view(prevpeers)[m] == prevpeers[m]@);
                                }
                            }
                            assert(entries_view(t.peers@) =~= st.t.peers.update(i as int, pev));
                            let np = st.t.peers.update(i as int, pev);
                            assert forall|a: int, b: int|
                                0 <= a < b < np.len() implies (#[trigger] np[a]).key != (
                            #[trigger] np[b]).key by {
                                assert(st.t.peers[a].key != st.t.peers[b].key);
                                assert(np[a].key == st.t.peers[a].key);
                                assert(np[b].key == st.t.peers[b].key);
                            }
                            assert forall|a: int|
                                0 <= a < np.len() implies (#[trigger] np[a]).peer.wf() by {
                                if a != i {
                                    assert(np[a] == st.t.peers[a]);
                                }
                            }
                        }
                        if banned2 {
                            let ghost prevbans = bans@;
                            bans.push(key_copy);
                            bump_network(networks, px);
                            proof {
                                assert forall|m: int|
                                    0 <= m < bans@.len() implies #[trigger] keys_view(bans@)[m]
                                    == st.bans.push(pev.key)[m] by {
                                    assert(keys_view(bans@)[m] == bans@[m]@);
                                    if m < prevbans.len() {
                                        assert(bans@[m] == prevbans[m]);
                                        assert(keys_view(prevbans)[m] == prevbans[m]@);
                                    }
                                }
                                assert(keys_view(bans@) =~= st.bans.push(pev.key));
                            }
                        }
                    },
                    None => {
                        let ghost prevpeers = t.peers@;
                        t.peers.push(pe);
                        proof {
                            assert forall|m: int|
                                0 <= m < t.peers@.len() implies #[trigger] entries_view(
                                t.peers@,
                            )[m] == st.t.peers.push(pev)[m] by {
                                assert(entries_view(t.peers@)[m] == t.peers@[m]@);
                                if m < prevpeers.len() {
                                    assert(t.peers@[m] == prevpeers[m]);
                                    assert(entries_view(prevpeers)[m] == prevpeers[m]@);
                                }
                            }
                            assert(entries_view(t.peers@) =~= st.t.peers.push(pev));
                            let np = st.t.peers.push(pev);
                            assert forall|a: int, b: int|
                                0 <= a < b < np.len() implies (#[trigger] np[a]).key != (
                            #[trigger] np[b]).key by {
                                assert(np[a] == st.t.peers[a]);
                                if b < st.t.peers.len() {
                                    assert(np[b] == st.t.peers[b]);
                                } else {
                                    assert(np[b] == pev);
                                    assert(st.t.peers[a].key != pev.key);
                                }
                            }
                            assert forall|a: int|
                                0 <= a < np.len() implies (#[trigger] np[a]).peer.wf() by {
                                if a < st.t.peers.len() {
                                    assert(np[a] == st.t.peers[a]);
                                } else {
                                    assert(np[a] == pev);
                                }
                            }
                        }
                    },
                }
            }
            None
        },
    }
}

/// Reset mark of a fresh store: far enough in the past that the first
/// cycle finds a reset overdue, clamped at the machine minimum.
pub open spec fn initial_reset_mark(now: int) -> int {
    if now - INITIAL_RESET_AGE_SECONDS as int >= i64::MIN as int {
        now - INITIAL_RESET_AGE_SECONDS as int
    } else {
        i64::MIN as int
    }
}

/// A full reset is due once more than a day has passed since the last one.
pub open spec fn spec_reset_due(last_reset: int, now: int) -> bool {
    now - last_reset > RESET_PERIOD_SECONDS as int
}

/// The torrent list after registering the freshly listed torrents, in
/// order: a listed torrent whose hash is already present is left exactly
/// as it was, any other is appended with its reported size and an empty
/// swarm.
pub open spec fn spec_register(ts: Seq<TorrentData>, listed: Seq<TorrentInfoData>) -> Seq<
    TorrentData,
>
    decreases listed.len(),
{
    if listed.len() == 0 {
        ts
    } else {
        let prev = spec_register(ts, listed.drop_last());
        let l = listed.last();
        if torrent_idx(prev, l.hash) >= 0 {
            prev
        } else {
            prev.push(TorrentData { hash: l.hash, size: l.size, peers: Seq::empty() })
        }
    }
}

impl SwarmState {
    /// Shorthand for the well-formedness of the state's view.
    pub open spec fn wf(&self) -> bool {
        self@.wf()
    }

    /// Creates an empty store whose reset clock starts in the past, so
    /// that the first cycle performs a full reset.
    pub fn new(now: i64) -> (s: SwarmState)
        ensures
            s@.torrents == Seq::<TorrentData>::empty(),
            s@.networks == Seq::<NetworkCountData>::empty(),
            s@.last_reset == initial_reset_mark(now as int),
            s.wf(),
    {
        let last_reset: i64 = if now >= i64::MIN + INITIAL_RESET_AGE_SECONDS {
            now - INITIAL_RESET_AGE_SECONDS
        } else {
            i64::MIN
        };
        let s = SwarmState { torrents: Vec::new(), networks: Vec::new(), last_reset };
        proof {
            assert(s@.torrents =~= Seq::<TorrentData>::empty());
            assert(s@.networks =~= Seq::<NetworkCountData>::empty());
        }
        s
    }

    /// Whether a full reset is due at wall-clock time `now`.
    pub fn reset_due(&self, now: i64) -> (r: bool)
        ensures
            r == spec_reset_due(self@.last_reset, now as int),
    {
        (now as i128) - (self.last_reset as i128) > RESET_PERIOD_SECONDS as i128
    }

    /// Performs the local part of a full reset: clears every torrent's
    /// swarm and all network counters, and restarts the reset clock at
    /// `now`. The torrents themselves, with their hashes and recorded
    /// sizes, are kept.
    pub fn apply_reset(&mut self, now: i64)
        ensures
            final(self)@.torrents.len() == old(self)@.torrents.len(),
            forall|i: int|
                0 <= i < old(self)@.torrents.len() ==> {
                    &&& (#[trigger] final(self)@.torrents[i]).hash == old(self)@.torrents[i].hash
                    &&& final(self)@.torrents[i].size == old(self)@.torrents[i].size
                    &&& final(self)@.torrents[i].peers == Seq::<PeerEntryData>::empty()
                },
            final(self)@.networks == Seq::<NetworkCountData>::empty(),
            final(self)@.last_reset == now as int,
            old(self).wf() ==> final(self).wf(),
    {
        let ghost orig = old(self)@.torrents;
        let total: usize = self.torrents.len();
        let mut cleared: Vec<Torrent> = Vec::new();
        let mut k: usize = 0;
        proof {
            assert(orig.skip(0) =~= orig);
        }
        while self.torrents.len() > 0
            invariant
                k + self.torrents@.len() == orig.len(),
                orig.len() == total,
                torrents_view(self.torrents@) == orig.skip(k as int),
                cleared@.len() == k,
                forall|i: int|
                    0 <= i < k ==> {
                        &&& (#[trigger] torrents_view(cleared@)[i]).hash == orig[i].hash
                        &&& torrents_view(cleared@)[i].size == orig[i].size
                        &&& torrents_view(cleared@)[i].peers == Seq::<PeerEntryData>::empty()
                    },
            decreases self.torrents@.len(),
        {
            let ghost prev = self.torrents@;
            let t = self.torrents.remove(0);
            proof {
                assert(torrents_view(prev)[0] == prev[0]@);
                assert(torrents_view(prev)[0] == orig.skip(k as int)[0]);
                assert(t@ == orig[k as int]);
                assert forall|i: int| 0 <= i < self.torrents@.len() implies torrents_view(
                    self.torrents@,
                )[i] == orig.skip(k + 1)[i] by {
                    assert(torrents_view(self.torrents@)[i] == self.torrents@[i]@);
                    assert(self.torrents@[i] == prev[i + 1]);
                    assert(torrents_view(prev)[i + 1] == prev[i + 1]@);
                    assert(torrents_view(prev)[i + 1] == orig.skip(k as int)[i + 1]);
                }
                assert(torrents_view(self.torrents@) =~= orig.skip(k + 1));
            }
            let ghost prevc = cleared@;
            cleared.push(Torrent { hash: t.hash, size: t.size, peers: Vec::new() });
            proof {
                assert forall|i: int|
                    0 <= i < k + 1 implies {
                        &&& (#[trigger] torrents_view(cleared@)[i]).hash == orig[i].hash
                        &&& torrents_view(cleared@)[i].size == orig[i].size
                        &&& torrents_view(cleared@)[i].peers == Seq::<PeerEntryData>::empty()
                    } by {
                    assert(torrents_view(cleared@)[i] == cleared@[i]@);
                    if i < k {
                        assert(cleared@[i] == prevc[i]);
                        assert(torrents_view(prevc)[i] == prevc[i]@);
                    } else {
                        assert(entries_view(cleared@[i].peers@) =~= Seq::<PeerEntryData>::empty());
                    }
                }
            }
            k = k + 1;
        }
        self.torrents = cleared;
        self.networks = Vec::new();
        self.last_reset = now;
        proof {
            assert(nets_view(self.networks@) =~= Seq::<NetworkCountData>::empty());
        }
    }

    /// Prunes vanished peers: for every torrent whose hash was fetched
    /// this cycle, drops each stored record whose key the fresh swarm no
    /// longer lists. Torrents absent from the fetched set are left as
    /// they are, as are the counters and the reset clock.
    fn prune(&mut self, fetched: &Vec<FetchedSwarm>)
        requires
            old(self).wf(),
        ensures
            final(self)@.torrents == spec_prune_all(old(self)@.torrents, swarms_view(fetched@)),
            final(self)@.networks == old(self)@.networks,
            final(self)@.last_reset == old(self)@.last_reset,
            final(self).wf(),
    {
        let ghost orig = old(self)@.torrents;
        let ghost fsv = swarms_view(fetched@);
        let ghost target = spec_prune_all(orig, fsv);
        let n = self.torrents.len();
        let mut ti: usize = 0;
        while ti < n
            invariant
                ti <= n,
                self.torrents@.len() == n,
                orig.len() == n,
                target == spec_prune_all(orig, fsv),
                fsv == swarms_view(fetched@),
                forall|i: int|
                    0 <= i < ti ==> #[trigger] torrents_view(self.torrents@)[i] == target[i],
                forall|i: int|
                    ti <= i < n ==> #[trigger] torrents_view(self.torrents@)[i] == orig[i],
                nets_view(self.networks@) == old(self)@.networks,
                self.last_reset == old(self).last_reset,
            decreases n - ti,
        {
            proof {
                assert(torrents_view(self.torrents@)[ti as int] == self.torrents@[ti as int]@);
            }
            match find_swarm(fetched, self.torrents[ti].hash.as_str()) {
                None => {
                    proof {
                        assert(torrents_view(self.torrents@)[ti as int] == target[ti as int]);
                    }
                },
                Some(si) => {
                    let ghost prevvec = self.torrents@;
                    let t = self.torrents.remove(ti);
                    proof {
                        assert(t@ == orig[ti as int]);
                    }
                    let Torrent { hash, size, peers } = t;
                    let ghost pv = entries_view(peers@);
                    let ghost keys = swarm_keys(fsv[si as int].peers);
                    proof {
                        assert(fsv[si as int] == fetched@[si as int]@);
                        assert(fsv[si as int].peers == entries_view(fetched@[si as int].peers@));
                        assert(pv.skip(0) =~= pv);
                    }
                    let mut kept: Vec<PeerEntry> = Vec::new();
                    let mut rest = peers;
                    let mut j: usize = 0;
                    let total: usize = rest.len();
                    while rest.len() > 0
                        invariant
                            j + rest@.len() == pv.len(),
                            pv.len() == total,
                            entries_view(rest@) == pv.skip(j as int),
                            entries_view(kept@) == spec_keep_peers(pv.take(j as int), keys),
                            keys == swarm_keys(entries_view(fetched@[si as int].peers@)),
                            si < fetched@.len(),
                        decreases rest@.len(),
                    {
                        let ghost prevrest = rest@;
                        let pe = rest.remove(0);
                        proof {
                            assert(entries_view(prevrest)[0] == prevrest[0]@);
                            assert(entries_view(prevrest)[0] == pv.skip(j as int)[0]);
                            assert(pe@ == pv[j as int]);
                            assert forall|i: int|
                                0 <= i < rest@.len() implies #[trigger] entries_view(rest@)[i]
                                == pv.skip(j + 1)[i] by {
                                assert(entries_view(rest@)[i] == rest@[i]@);
                                assert(rest@[i] == prevrest[i + 1]);
                                assert(entries_view(prevrest)[i + 1] == prevrest[i + 1]@);
                                assert(entries_view(prevrest)[i + 1] == pv.skip(j as int)[i + 1]);
                            }
                            assert(entries_view(rest@) =~= pv.skip(j + 1));
                            assert(pv.take(j + 1).drop_last() =~= pv.take(j as int));
                            assert(pv.take(j + 1).last() == pv[j as int]);
                        }
                        let ghost prevkept = kept@;
                        if swarm_has_key(&fetched[si].peers, pe.key.as_str()) {
                            proof {
                                assert(keys.contains(pe@.key));
                            }
                            kept.push(pe);
                            proof {
                                assert forall|i: int|
                                    0 <= i < kept@.len() implies #[trigger] entries_view(kept@)[i]
                                    == spec_keep_peers(pv.take(j as int), keys).push(
                                    pv[j as int],
                                )[i] by {
                                    assert(entries_view(kept@)[i] == kept@[i]@);
                                    if i < prevkept.len() {
                                        assert(kept@[i] == prevkept[i]);
                                        assert(entries_view(prevkept)[i] == prevkept[i]@);
                                    }
                                }
                                assert(entries_view(kept@) =~= spec_keep_peers(
                                    pv.take(j as int),
                                    keys,
                                ).push(pv[j as int]));
                            }
                        } else {
                            proof {
                                assert(!keys.contains(pe@.key));
                            }
                        }
                        j = j + 1;
                    }
                    proof {
                        assert(pv.take(total as int) =~= pv);
                    }
                    self.torrents.insert(ti, Torrent { hash, size, peers: kept });
                    proof {
                        let ghost nt = TorrentData {
                            hash: orig[ti as int].hash,
                            size: orig[ti as int].size,
                            peers: spec_keep_peers(orig[ti as int].peers, keys),
                        };
                        assert(swarm_idx(fsv, orig[ti as int].hash) == si as int);
                        assert(target[ti as int] == spec_prune_torrent(
                            orig[ti as int],
                            fsv[si as int].peers,
                        ));
                        assert(self.torrents@[ti as int]@ == nt);
                        assert forall|i: int|
                            0 <= i < n && i != ti implies #[trigger] torrents_view(
                            self.torrents@,
                        )[i] == torrents_view(prevvec)[i] by {
                            assert(torrents_view(self.torrents@)[i] == self.torrents@[i]@);
                            if i < ti {
                                assert(self.torrents@[i] == prevvec[i]);
                            } else {
                                assert(self.torrents@[i] == prevvec[i]);
                            }
                            assert(torrents_view(prevvec)[i] == prevvec[i]@);
                        }
                        assert(torrents_view(self.torrents@)[ti as int] == target[ti as int]);
                    }
                },
            }
            ti = ti + 1;
        }
        proof {
            assert forall|i: int| 0 <= i < n implies #[trigger] torrents_view(self.torrents@)[i]
                == target[i] by {}
            assert(torrents_view(self.torrents@) =~= target);
            assert forall|i: int| 0 <= i < n implies (#[trigger] target[i]).wf() by {
                assert(orig[i].wf());
                let si = swarm_idx(fsv, orig[i].hash);
                if si >= 0 {
                    lemma_keep_peers_wf(orig[i].peers, swarm_keys(fsv[si].peers));
                }
            }
            assert forall|a: int, b: int|
                0 <= a < b < n implies (#[trigger] target[a]).hash != (
            #[trigger] target[b]).hash by {
                assert(orig[a].hash != orig[b].hash);
                assert(target[a].hash == orig[a].hash);
                assert(target[b].hash == orig[b].hash);
            }
        }
    }

    /// Registers the freshly listed torrents: hashes not yet tracked are
    /// appended with their reported size and an empty swarm, torrents
    /// already tracked are left untouched, and the counters and the reset
    /// clock are unchanged.
    pub fn register_torrents(&mut self, listed: Vec<TorrentInfo>)
        requires
            old(self).wf(),
        ensures
            final(self)@.torrents == spec_register(old(self)@.torrents, infos_view(listed@)),
            final(self)@.networks == old(self)@.networks,
            final(self)@.last_reset == old(self)@.last_reset,
            final(self).wf(),
    {
        let ghost orig = old(self)@.torrents;
        let ghost all = infos_view(listed@);
        let mut rest = listed;
        let total: usize = rest.len();
        let mut k: usize = 0;
        proof {
            assert(all.skip(0) =~= all);
        }
        while rest.len() > 0
            invariant
                k + rest@.len() == all.len(),
                all.len() == total,
                infos_view(rest@) == all.skip(k as int),
                torrents_view(self.torrents@) == spec_register(orig, all.take(k as int)),
                nets_view(self.networks@) == old(self)@.networks,
                self.last_reset == old(self).last_reset,
                self.wf(),
            decreases rest@.len(),
        {
            let ghost prev = rest@;
            let info = rest.remove(0);
            proof {
                assert(infos_view(prev)[0] == info@);
                assert(infos_view(prev)[0] == all.skip(k as int)[0]);
                assert(info@ == all[k as int]);
                assert forall|i: int| 0 <= i < rest@.len() implies infos_view(rest@)[i] == all.skip(
                    k + 1,
                )[i] by {
                    assert(infos_view(rest@)[i] == rest@[i]@);
                    assert(rest@[i] == prev[i + 1]);
                    assert(infos_view(prev)[i + 1] == prev[i + 1]@);
                    assert(infos_view(prev)[i + 1] == all.skip(k as int)[i + 1]);
                }
                assert(infos_view(rest@) =~= all.skip(k + 1));
                assert(all.take(k + 1).drop_last() =~= all.take(k as int));
                assert(all.take(k + 1).last() == all[k as int]);
            }
            let ghost prevvec = self.torrents@;
            let ghost before = torrents_view(self.torrents@);
            let ghost sd = self@;
            match find_torrent(&self.torrents, info.hash.as_str()) {
                Some(_) => {},
                None => {
                    self.torrents.push(
                        Torrent { hash: info.hash, size: info.size, peers: Vec::new() },
                    );
                    proof {
                        let nd = TorrentData {
                            hash: all[k as int].hash,
                            size: all[k as int].size,
                            peers: Seq::empty(),
                        };
                        assert forall|i: int| 0 <= i < self.torrents@.len() implies torrents_view(
                            self.torrents@,
                        )[i] == before.push(nd)[i] by {
                            assert(torrents_view(self.torrents@)[i] == self.torrents@[i]@);
                            if i < prevvec.len() {
                                assert(self.torrents@[i] == prevvec[i]);
                                assert(before[i] == prevvec[i]@);
                            } else {
                                assert(entries_view(self.torrents@[i].peers@)
                                    =~= Seq::<PeerEntryData>::empty());
                            }
                        }
                        assert(torrents_view(self.torrents@) =~= before.push(nd));
                        let nv = before.push(nd);
                        assert(sd.wf());
                        assert(sd.torrents == before);
                        assert forall|a: int, b: int|
                            0 <= a < b < nv.len() implies (#[trigger] nv[a]).hash != (
                        #[trigger] nv[b]).hash by {
                            assert(nv[a] == before[a]);
                            assert(sd.torrents[a] == before[a]);
                            if b < before.len() {
                                assert(nv[b] == before[b]);
                                assert(sd.torrents[b] == before[b]);
                                assert(sd.torrents[a].hash != sd.torrents[b].hash);
                            } else {
                                assert(nv[b] == nd);
                            }
                        }
                        assert forall|a: int| 0 <= a < nv.len() implies (#[trigger] nv[a]).wf() by {
                            if a < before.len() {
                                assert(nv[a] == before[a]);
                                assert(sd.torrents[a] == before[a]);
                                assert(sd.torrents[a].wf());
                            } else {
                                assert(nv[a] == nd);
                                assert(nd.peers.len() == 0);
                            }
                        }
                    }
                },
            }
            k = k + 1;
        }
        proof {
            assert(all.take(k as int) =~= all);
        }
    }

    /// The hashes of all tracked torrents, in store order: the swarm of
    /// each is fetched once per cycle.
    pub fn torrent_hashes(&self) -> (r: Vec<String>)
        ensures
            r@.len() == self@.torrents.len(),
            forall|i: int|
                0 <= i < r@.len() ==> (#[trigger] keys_view(r@)[i]) == self@.torrents[i].hash,
    {
        let mut out: Vec<String> = Vec::new();
        let mut i: usize = 0;
        while i < self.torrents.len()
            invariant
                i <= self.torrents@.len(),
                out@.len() == i,
                forall|m: int|
                    0 <= m < i ==> (#[trigger] keys_view(out@)[m]) == torrents_view(
                        self.torrents@,
                    )[m].hash,
            decreases self.torrents@.len() - i,
        {
            let ghost prevout = out@;
            out.push(self.torrents[i].hash.clone());
            proof {
                assert forall|m: int|
                    0 <= m < i + 1 implies (#[trigger] keys_view(out@)[m]) == torrents_view(
                    self.torrents@,
                )[m].hash by {
                    assert(keys_view(out@)[m] == out@[m]@);
                    if m < i {
                        assert(out@[m] == prevout[m]);
                        assert(keys_view(prevout)[m] == prevout[m]@);
                    } else {
                        assert(torrents_view(self.torrents@)[m] == self.torrents@[m]@);
                    }
                }
            }
            i = i + 1;
        }
        out
    }

    /// Runs the classification phase of one cycle: prunes vanished peers,
    /// then routes every fetched observation through the two-stage rules,
    /// committing survivors and stage-two offenders, charging every ban
    /// to its network block, and collecting the banned keys in order.
    /// A peer address that is neither IPv4 nor IPv6 stops the cycle with
    /// an error; the store then keeps the work done up to that peer.
    pub fn reconcile(&mut self, fetched: Vec<FetchedSwarm>) -> (r: Result<
        Vec<String>,
        CycleError,
    >)
        requires
            old(self).wf(),
            fetched_wf(swarms_view(fetched@)),
        ensures
            ({
                let out = spec_reconcile(old(self)@, swarms_view(fetched@));
                &&& final(self)@.torrents == out.torrents
                &&& final(self)@.networks == out.nets
                &&& final(self)@.last_reset == old(self)@.last_reset
                &&& match r {
                    Ok(keys) => out.failed is None && keys_view(keys@) == out.bans,
                    Err(CycleError::BadPeerAddress(ip)) => out.failed == Some(ip@),
                }
            }),
            final(self).wf(),
    {
        let ghost fsv = swarms_view(fetched@);
        let ghost cs0 = CycleState {
            torrents: spec_prune_all(old(self)@.torrents, fsv),
            nets: old(self)@.networks,
            bans: Seq::empty(),
            failed: None,
        };
        self.prune(&fetched);
        proof {
            assert(keys_view(Seq::<String>::empty()) =~= Seq::<Seq<char>>::empty());
            assert(fsv.skip(0) =~= fsv);
            assert(fsv.take(0) =~= Seq::<FetchedSwarmData>::empty());
        }
        let mut bans: Vec<String> = Vec::new();
        let mut restf = fetched;
        let totalf: usize = restf.len();
        let mut k: usize = 0;
        while restf.len() > 0
            invariant
                k + restf@.len() == fsv.len(),
                fsv.len() == totalf,
                swarms_view(restf@) == fsv.skip(k as int),
                fsv == swarms_view(fetched@),
                fetched_wf(fsv),
                cs0 == (CycleState {
                    torrents: spec_prune_all(old(self)@.torrents, fsv),
                    nets: old(self)@.networks,
                    bans: Seq::<Seq<char>>::empty(),
                    failed: None,
                }),
                ({
                    let cs = spec_cycle_fold(cs0, fsv.take(k as int));
                    &&& cs.failed is None
                    &&& torrents_view(self.torrents@) == cs.torrents
                    &&& nets_view(self.networks@) == cs.nets
                    &&& keys_view(bans@) == cs.bans
                }),
                self.last_reset == old(self).last_reset,
                self.wf(),
            decreases restf@.len(),
        {
            let ghost cs_k = spec_cycle_fold(cs0, fsv.take(k as int));
            let ghost prevrestf = restf@;
            let sw = restf.remove(0);
            proof {
                assert(swarms_view(prevrestf)[0] == prevrestf[0]@);
                assert(swarms_view(prevrestf)[0] == fsv.skip(k as int)[0]);
                assert(sw@ == fsv[k as int]);
                assert forall|i: int|
                    0 <= i < restf@.len() implies #[trigger] swarms_view(restf@)[i] == fsv.skip(
                    k + 1,
                )[i] by {
                    assert(swarms_view(restf@)[i] == restf@[i]@);
                    assert(restf@[i] == prevrestf[i + 1]);
                    assert(swarms_view(prevrestf)[i + 1] == prevrestf[i + 1]@);
                    assert(swarms_view(prevrestf)[i + 1] == fsv.skip(k as int)[i + 1]);
                }
                assert(swarms_view(restf@) =~= fsv.skip(k + 1));
                assert(fsv.take(k + 1).drop_last() =~= fsv.take(k as int));
                assert(fsv.take(k + 1).last() == fsv[k as int]);
            }
            let ghost sd_k = self@;
            match find_torrent(&self.torrents, sw.hash.as_str()) {
                None => {
                    proof {
                        assert(torrent_idx(cs_k.torrents, fsv[k as int].hash) == -1);
                        assert(spec_cycle_fold(cs0, fsv.take(k + 1)) == cs_k);
                    }
                },
                Some(ti) => {
                    proof {
                        assert(torrent_idx(cs_k.torrents, fsv[k as int].hash) == ti as int);
                        assert(sd_k.wf());
                        assert(sd_k.torrents == cs_k.torrents);
                    }
                    let ghost pjv = fsv[k as int].peers;
                    let ghost st0 = StepState {
                        t: cs_k.torrents[ti as int],
                        nets: cs_k.nets,
                        bans: cs_k.bans,
                        failed: None,
                    };
                    let ghost prevvec = self.torrents@;
                    let mut t = self.torrents.remove(ti);
                    proof {
                        assert(torrents_view(prevvec)[ti as int] == prevvec[ti as int]@);
                        assert(t@ == cs_k.torrents[ti as int]);
                        assert(sd_k.torrents[ti as int].wf());
                        assert(t@.wf());
                        assert(entries_view(sw.peers@) == pjv);
                        assert(pjv.skip(0) =~= pjv);
                        assert(pjv.take(0) =~= Seq::<PeerEntryData>::empty());
                        assert(peers_all_wf(pjv));
                        assert forall|i: int|
                            0 <= i < self.torrents@.len() implies #[trigger] torrents_view(
                            self.torrents@,
                        )[i] == cs_k.torrents.remove(ti as int)[i] by {
                            assert(torrents_view(self.torrents@)[i] == self.torrents@[i]@);
                            if i < ti {
                                assert(self.torrents@[i] == prevvec[i]);
                                assert(torrents_view(prevvec)[i] == prevvec[i]@);
                            } else {
                                assert(self.torrents@[i] == prevvec[i + 1]);
                                assert(torrents_view(prevvec)[i + 1] == prevvec[i + 1]@);
                            }
                        }
                        assert(torrents_view(self.torrents@) =~= cs_k.torrents.remove(ti as int));
                    }
                    let mut restp = sw.peers;
                    let totalp: usize = restp.len();
                    let mut j: usize = 0;
                    while restp.len() > 0
                        invariant
                            j + restp@.len() == pjv.len(),
                            pjv.len() == totalp,
                            entries_view(restp@) == pjv.skip(j as int),
                            pjv == fsv[k as int].peers,
                            peers_all_wf(pjv),
                            fsv == swarms_view(fetched@),
                            fetched_wf(fsv),
                            k < fsv.len(),
                            fsv.len() == totalf,
                            cs0 == (CycleState {
                                torrents: spec_prune_all(old(self)@.torrents, fsv),
                                nets: old(self)@.networks,
                                bans: Seq::<Seq<char>>::empty(),
                                failed: None,
                            }),
                            cs_k == spec_cycle_fold(cs0, fsv.take(k as int)),
                            cs_k.failed is None,
                            ti < cs_k.torrents.len(),
                            torrent_idx(cs_k.torrents, fsv[k as int].hash) == ti as int,
                            st0 == (StepState {
                                t: cs_k.torrents[ti as int],
                                nets: cs_k.nets,
                                bans: cs_k.bans,
                                failed: None,
                            }),
                            forall|a: int, b: int|
                                0 <= a < b < cs_k.torrents.len() ==> (
                                #[trigger] cs_k.torrents[a]).hash != (
                                #[trigger] cs_k.torrents[b]).hash,
                            forall|i: int|
                                0 <= i < cs_k.torrents.len() ==> (
                                #[trigger] cs_k.torrents[i]).wf(),
                            torrents_view(self.torrents@) == cs_k.torrents.remove(ti as int),
                            ({
                                let stj = spec_swarm_fold(st0, pjv.take(j as int));
                                &&& stj.failed is None
                                &&& t@ == stj.t
                                &&& nets_view(self.networks@) == stj.nets
                                &&& keys_view(bans@) == stj.bans
                            }),
                            t@.hash == cs_k.torrents[ti as int].hash,
                            t@.wf(),
                            forall|a: int, b: int|
                                0 <= a < b < nets_view(self.networks@).len() ==> (
                                #[trigger] nets_view(self.networks@)[a]).prefix != (
                                #[trigger] nets_view(self.networks@)[b]).prefix,
                            self.last_reset == old(self).last_reset,
                        decreases restp@.len(),
                    {
                        let ghost stj = spec_swarm_fold(st0, pjv.take(j as int));
                        let ghost prevrestp = restp@;
                        let pe = restp.remove(0);
                        let ghost pev = pe@;
                        proof {
                            assert(entries_view(prevrestp)[0] == prevrestp[0]@);
                            assert(entries_view(prevrestp)[0] == pjv.skip(j as int)[0]);
                            assert(pev == pjv[j as int]);
                            assert(pjv[j as int].peer.wf());
                            assert forall|i: int|
                                0 <= i < restp@.len() implies #[trigger] entries_view(restp@)[i]
                                == pjv.skip(j + 1)[i] by {
                                assert(entries_view(restp@)[i] == restp@[i]@);
                                assert(restp@[i] == prevrestp[i + 1]);
                                assert(entries_view(prevrestp)[i + 1] == prevrestp[i + 1]@);
                                assert(entries_view(prevrestp)[i + 1] == pjv.skip(j as int)[i + 1]);
                            }
                            assert(entries_view(restp@) =~= pjv.skip(j + 1));
                            assert(pjv.take(j + 1).drop_last() =~= pjv.take(j as int));
                            assert(pjv.take(j + 1).last() == pjv[j as int]);
                        }
                        let step = process_peer(&mut t, &mut self.networks, &mut bans, pe);
                        proof {
                            assert(spec_swarm_fold(st0, pjv.take(j + 1)) == spec_peer_step(
                                stj,
                                pev,
                            ));
                        }
                        match step {
                            None => {},
                            Some(ip) => {
                                proof {
                                    let st_err = spec_peer_step(stj, pev);
                                    assert(st_err.failed == Some(pev.peer.ip));
                                    lemma_swarm_fold_stuck(st0, pjv, j + 1);
                                    assert(spec_swarm_fold(st0, pjv) == st_err);
                                    assert(torrents_view(self.torrents@).len()
                                        == self.torrents@.len());
                                    assert(cs_k.torrents.remove(ti as int).len()
                                        == cs_k.torrents.len() - 1);
                                    assert(self.torrents@.len() == cs_k.torrents.len() - 1);
                                }
                                let ghost prevvec3 = self.torrents@;
                                self.torrents.insert(ti, t);
                                proof {
                                    let st_err = spec_peer_step(stj, pev);
                                    assert(fsv.take(k + 1).drop_last() =~= fsv.take(k as int));
                                    assert(fsv.take(k + 1).last() == fsv[k as int]);
                                    let cs_err = spec_swarm_step(cs_k, fsv[k as int]);
                                    assert(cs_err == CycleState {
                                        torrents: cs_k.torrents.update(ti as int, st_err.t),
                                        nets: st_err.nets,
                                        bans: st_err.bans,
                                        failed: st_err.failed,
                                    });
                                    assert(spec_cycle_fold(cs0, fsv.take(k + 1)) == cs_err);
                                    lemma_cycle_fold_stuck(cs0, fsv, k + 1);
                                    assert(spec_cycle_fold(cs0, fsv) == cs_err);
                                    assert forall|i: int|
                                        0 <= i < self.torrents@.len() implies #[trigger] torrents_view(
                                        self.torrents@,
                                    )[i] == cs_k.torrents.update(ti as int, t@)[i] by {
                                        assert(torrents_view(self.torrents@)[i]
                                            == self.torrents@[i]@);
                                        if i < ti {
                                            assert(self.torrents@[i] == prevvec3[i]);
                                            assert(torrents_view(prevvec3)[i] == prevvec3[i]@);
                                            assert(torrents_view(prevvec3)[i]
                                                == cs_k.torrents.remove(ti as int)[i]);
                                        } else if i > ti {
                                            assert(self.torrents@[i] == prevvec3[i - 1]);
                                            assert(torrents_view(prevvec3)[i - 1] == prevvec3[i
                                                - 1]@);
                                            assert(torrents_view(prevvec3)[i - 1]
                                                == cs_k.torrents.remove(ti as int)[i - 1]);
                                        }
                                    }
                                    assert(torrents_view(self.torrents@) =~= cs_k.torrents.update(
                                        ti as int,
                                        t@,
                                    ));
                                    let nv = cs_k.torrents.update(ti as int, t@);
                                    assert forall|a: int, b: int|
                                        0 <= a < b < nv.len() implies (#[trigger] nv[a]).hash != (
                                    #[trigger] nv[b]).hash by {
                                        assert(cs_k.torrents[a].hash != cs_k.torrents[b].hash);
                                        assert(nv[a].hash == cs_k.torrents[a].hash);
                                        assert(nv[b].hash == cs_k.torrents[b].hash);
                                    }
                                    assert forall|i: int|
                                        0 <= i < nv.len() implies (#[trigger] nv[i]).wf() by {
                                        if i != ti {
                                            assert(nv[i] == cs_k.torrents[i]);
                                        }
                                    }
                                }
                                return Err(CycleError::BadPeerAddress(ip));
                            },
                        }
                        j = j + 1;
                    }
                    proof {
                        assert(pjv.take(totalp as int) =~= pjv);
                    }
                    let ghost st_full = spec_swarm_fold(st0, pjv);
                    let ghost prevvec2 = self.torrents@;
                    self.torrents.insert(ti, t);
                    proof {
                        let cs_next = spec_swarm_step(cs_k, fsv[k as int]);
                        assert(cs_next == CycleState {
                            torrents: cs_k.torrents.update(ti as int, st_full.t),
                            nets: st_full.nets,
                            bans: st_full.bans,
                            failed: st_full.failed,
                        });
                        assert(spec_cycle_fold(cs0, fsv.take(k + 1)) == cs_next);
                        assert forall|i: int|
                            0 <= i < self.torrents@.len() implies #[trigger] torrents_view(
                            self.torrents@,
                        )[i] == cs_k.torrents.update(ti as int, t@)[i] by {
                            assert(torrents_view(self.torrents@)[i] == self.torrents@[i]@);
                            if i < ti {
                                assert(self.torrents@[i] == prevvec2[i]);
                                assert(torrents_view(prevvec2)[i] == prevvec2[i]@);
                                assert(torrents_view(prevvec2)[i] == cs_k.torrents.remove(
                                    ti as int,
                                )[i]);
                            } else if i > ti {
                                assert(self.torrents@[i] == prevvec2[i - 1]);
                                assert(torrents_view(prevvec2)[i - 1] == prevvec2[i - 1]@);
                                assert(torrents_view(prevvec2)[i - 1] == cs_k.torrents.remove(
                                    ti as int,
                                )[i - 1]);
                            }
                        }
                        assert(torrents_view(self.torrents@) =~= cs_k.torrents.update(
                            ti as int,
                            t@,
                        ));
                        let nv = cs_k.torrents.update(ti as int, t@);
                        assert forall|a: int, b: int|
                            0 <= a < b < nv.len() implies (#[trigger] nv[a]).hash != (
                        #[trigger] nv[b]).hash by {
                            assert(cs_k.torrents[a].hash != cs_k.torrents[b].hash);
                            assert(nv[a].hash == cs_k.torrents[a].hash);
                            assert(nv[b].hash == cs_k.torrents[b].hash);
                        }
                        assert forall|i: int| 0 <= i < nv.len() implies (#[trigger] nv[i]).wf() by {
                            if i != ti {
                                assert(nv[i] == cs_k.torrents[i]);
                            }
                        }
                    }
                },
            }
            k = k + 1;
        }
        proof {
            assert(fsv.take(totalf as int) =~= fsv);
        }
        Ok(bans)
    }
}

} // verus!
