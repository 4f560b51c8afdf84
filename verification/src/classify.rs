//! The two-stage ban classification rules.
//!
//! Stage one looks at a single observation together with the torrent size
//! and the number of bans already charged to the peer's network block.
//! Stage two compares an observation with the peer's previous record.
//! All rules are exact integer statements: progress is carried in parts
//! per million, so the upload-plausibility bound and the rate bound are
//! the original rational comparisons cross-multiplied by the scale.

use vstd::prelude::*;
use crate::PROGRESS_SCALE;
use crate::clients::client_matches_denylist;
use crate::clients::matches_denylist;
use crate::peer::Peer;
use crate::peer::PeerData;

verus! {

/// Slack added to the plausible upload bound, in bytes.
pub const UPLOAD_SLACK_BYTES: u64 = 10 * 1024 * 1024;

/// Number of bans in a network block after which the whole block is
/// treated as hostile.
pub const NETWORK_BAN_LIMIT: u64 = 5;

/// Tolerance of the upload-rate rule, in parts per million of progress.
pub const RATE_EPSILON_PPM: u64 = 10;

/// The peer reports more upload than its progress can explain:
/// `uploaded > progress * size + slack`, with progress scaled to parts
/// per million and both sides multiplied by the scale.
pub open spec fn upload_implausible(uploaded: int, progress: int, size: int) -> bool {
    uploaded * (PROGRESS_SCALE as int) > progress * size + (UPLOAD_SLACK_BYTES as int) * (
    PROGRESS_SCALE as int)
}

/// Stage-one verdict on a fresh observation: a denylisted client, a
/// poisoned network block, or an implausible upload total is banned.
pub open spec fn stage_one_banned(p: PeerData, size: int, prefix_bans: int) -> bool {
    ||| matches_denylist(p.client)
    ||| prefix_bans >= NETWORK_BAN_LIMIT as int
    ||| upload_implausible(p.uploaded, p.progress, size)
}

/// The new observation reports less progress than the stored one.
pub open spec fn progress_regressed(prev: PeerData, cur: PeerData) -> bool {
    cur.progress < prev.progress
}

/// The progress gain falls short of the upload gain:
/// `dp < du / size - epsilon`, with progress in parts per million and
/// both sides multiplied by `size` times the scale.
pub open spec fn rate_inconsistent(prev: PeerData, cur: PeerData, size: int) -> bool {
    (cur.progress - prev.progress) * size < (cur.uploaded - prev.uploaded) * (PROGRESS_SCALE as int)
        - (RATE_EPSILON_PPM as int) * size
}

/// Stage-two verdict on a peer that already had a record: regressed
/// progress or an inconsistent upload rate is banned.
pub open spec fn stage_two_banned(prev: PeerData, cur: PeerData, size: int) -> bool {
    progress_regressed(prev, cur) || rate_inconsistent(prev, cur, size)
}

/// Applies the stage-one rules to a fresh observation.
pub fn classify_context_free(p: &Peer, size: u64, prefix_bans: u64) -> (b: bool)
    requires
        p.wf(),
    ensures
        b == stage_one_banned(p@, size as int, prefix_bans as int),
{
    if client_matches_denylist(p.client.as_str()) {
        return true;
    }
    if prefix_bans >= NETWORK_BAN_LIMIT {
        return true;
    }
    proof {
        assert((p.progress as int) * (size as int) <= (PROGRESS_SCALE as int) * (u64::MAX as int))
            by (nonlinear_arith)
            requires
                0 <= p.progress as int <= PROGRESS_SCALE as int,
                0 <= size as int <= u64::MAX as int,
        ;
    }
    let lhs: u128 = (p.uploaded as u128) * (PROGRESS_SCALE as u128);
    let rhs: u128 = (p.progress as u128) * (size as u128) + (UPLOAD_SLACK_BYTES as u128) * (
    PROGRESS_SCALE as u128);
    lhs > rhs
}

/// Applies the stage-two rules to a new observation of a stored peer.
pub fn classify_delta(prev: &Peer, cur: &Peer, size: u64) -> (b: bool)
    requires
        prev.wf(),
        cur.wf(),
    ensures
        b == stage_two_banned(prev@, cur@, size as int),
{
    if cur.progress < prev.progress {
        return true;
    }
    let dp: i128 = (cur.progress as i128) - (prev.progress as i128);
    let du: i128 = (cur.uploaded as i128) - (prev.uploaded as i128);
    let sz: i128 = size as i128;
    proof {
        assert(dp as int * sz as int <= (PROGRESS_SCALE as int) * (u64::MAX as int)
            && dp as int * sz as int >= 0) by (nonlinear_arith)
            requires
                0 <= dp as int <= PROGRESS_SCALE as int,
                0 <= sz as int <= u64::MAX as int,
        ;
        assert(du as int * (PROGRESS_SCALE as int) <= (u64::MAX as int) * (PROGRESS_SCALE as int)
            && du as int * (PROGRESS_SCALE as int) >= -((u64::MAX as int) * (PROGRESS_SCALE as int)))
            by (nonlinear_arith)
            requires
                -(u64::MAX as int) <= du as int <= u64::MAX as int,
        ;
        assert((RATE_EPSILON_PPM as int) * (sz as int) <= (RATE_EPSILON_PPM as int) * (u64::MAX
            as int) && (RATE_EPSILON_PPM as int) * (sz as int) >= 0) by (nonlinear_arith)
            requires
                0 <= sz as int <= u64::MAX as int,
        ;
    }
    let lhs: i128 = dp * sz;
    let rhs: i128 = du * (PROGRESS_SCALE as i128) - (RATE_EPSILON_PPM as i128) * sz;
    lhs < rhs
}

/// A peer whose client string matches the leech or the ancient denylist is
/// banned by stage one whatever its upload figures, the torrent size, or
/// the state of its network block.
pub proof fn lemma_denylisted_client_is_banned(p: PeerData, size: int, prefix_bans: int)
    requires
        matches_denylist(p.client),
    ensures
        stage_one_banned(p, size, prefix_bans),
{
}

/// Once a network block has reached the ban limit, every further peer in
/// that block is banned by stage one, whatever its other fields.
pub proof fn lemma_poisoned_network_is_banned(p: PeerData, size: int, prefix_bans: int)
    requires
        prefix_bans >= NETWORK_BAN_LIMIT as int,
    ensures
        stage_one_banned(p, size, prefix_bans),
{
}

/// The upload-plausibility bound is exclusive: a peer above
/// `progress * size + slack` is banned by stage one; a peer exactly at
/// the bound is not banned, provided no other stage-one rule fires.
pub proof fn lemma_upload_bound_is_exclusive(p: PeerData, size: int, prefix_bans: int)
    ensures
        upload_implausible(p.uploaded, p.progress, size) ==> stage_one_banned(p, size, prefix_bans),
        (p.uploaded * (PROGRESS_SCALE as int) == p.progress * size + (UPLOAD_SLACK_BYTES as int) * (
        PROGRESS_SCALE as int) && !matches_denylist(p.client) && prefix_bans < NETWORK_BAN_LIMIT
            as int) ==> !stage_one_banned(p, size, prefix_bans),
{
}

/// A peer whose progress went backwards is banned by stage two whatever
/// the upload figures.
pub proof fn lemma_progress_regression_is_banned(prev: PeerData, cur: PeerData, size: int)
    requires
        cur.progress < prev.progress,
    ensures
        stage_two_banned(prev, cur, size),
{
}

/// For a peer whose progress did not regress, the stage-two verdict is
/// exactly the rate rule: banned if and only if the progress gain times
/// the size falls short of the upload gain times the scale by more than
/// the epsilon allowance; equality at the allowance is not a ban.
pub proof fn lemma_rate_rule_is_exact(prev: PeerData, cur: PeerData, size: int)
    requires
        prev.progress <= cur.progress,
    ensures
        stage_two_banned(prev, cur, size) == rate_inconsistent(prev, cur, size),
        ((cur.progress - prev.progress) * size == (cur.uploaded - prev.uploaded) * (PROGRESS_SCALE
            as int) - (RATE_EPSILON_PPM as int) * size) ==> !stage_two_banned(prev, cur, size),
{
}

} // verus!

