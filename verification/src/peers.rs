//! Peer addresses: normalising what users and peers hand in, merging lists
//! of peers and choosing whom to talk to.
use vstd::prelude::*;

use crate::body::FaultRequest;
use crate::chain::{lemma_wf_blocked, ChainState};
use crate::scan::{
    drop_ws_end, skip_ws, split_all, split_on, string_of, strip_char_end, strip_char_end_window, strip_prefix_all,
    strip_prefix_window, trim_ws,
};
use crate::sorting::{insert_sorted_unique, strictly_sorted, views};
use crate::store::StringSet;
use crate::text::{chars_of, concat, str_equal};
use crate::consensus::contains_str;

verus! {

/// A peer address as the node keeps it: trimmed, without an `http://` or
/// `https://` scheme or trailing slashes, and with the default port added
/// when it names none; empty when nothing is left.
pub open spec fn spec_normalize_peer(peer: Seq<char>, default_port: Seq<char>) -> Seq<char> {
    let p = strip_char_end(strip_prefix_all(strip_prefix_all(trim_ws(peer), "http://"@), "https://"@), '/');
    if p.len() == 0 {
        Seq::empty()
    } else if p.contains(':') {
        p
    } else {
        p + ":"@ + default_port
    }
}

/// Normalises one peer address.
pub fn normalize_peer(peer: &str, default_port: &str) -> (res: String)
    ensures
        res@ == spec_normalize_peer(peer@, default_port@),
{
    let v = chars_of(peer);
    let n = v.len();
    assert(v@.subrange(0, n as int) =~= peer@);
    let lo = skip_ws(&v, 0, n);
    let hi = drop_ws_end(&v, lo, n);
    let http = chars_of("http://");
    let https = chars_of("https://");
    let lo = strip_prefix_window(&v, lo, hi, &http);
    let lo = strip_prefix_window(&v, lo, hi, &https);
    let hi = strip_char_end_window(&v, lo, hi, '/');
    let ghost p = v@.subrange(lo as int, hi as int);
    proof {
        reveal_strlit("http://");
        reveal_strlit("https://");
    }
    assert(p == strip_char_end(strip_prefix_all(strip_prefix_all(trim_ws(peer@), "http://"@), "https://"@), '/'));
    if lo == hi {
        return String::new();
    }
    let mut i = lo;
    while i < hi
        invariant
            lo <= i <= hi,
            hi <= v@.len(),
            p == v@.subrange(lo as int, hi as int),
            p == strip_char_end(strip_prefix_all(strip_prefix_all(trim_ws(peer@), "http://"@), "https://"@), '/'),
            lo < hi,
            forall|k: int| lo <= k < i ==> v@[k] != ':',
        decreases hi - i,
    {
        if v[i] == ':' {
            assert(p[i - lo] == ':');
            assert(p.contains(':'));
            return string_of(&v, lo, hi);
        }
        i = i + 1;
    }
    assert(!p.contains(':')) by {
        if p.contains(':') {
            let k = choose|k: int| 0 <= k < p.len() && p[k] == ':';
            assert(v@[lo + k] == ':');
        }
    }
    let host = string_of(&v, lo, hi);
    let with_colon = concat(&host, ":");
    concat(&with_colon, default_port)
}

/// The normalised, non-empty addresses among `parts`, in order.
pub open spec fn normalized_peers(parts: Seq<Seq<char>>, default_port: Seq<char>) -> Seq<Seq<char>>
    decreases parts.len(),
{
    if parts.len() == 0 {
        Seq::empty()
    } else {
        let rest = normalized_peers(parts.drop_last(), default_port);
        let p = spec_normalize_peer(parts.last(), default_port);
        if p.len() == 0 {
            rest
        } else {
            rest.push(p)
        }
    }
}

/// Adds the peers of a comma-separated list, normalised, skipping empty ones.
pub fn push_peer_values(peers: &mut Vec<String>, value: &str, default_port: &str)
    ensures
        views(final(peers)@) == views(old(peers)@) + normalized_peers(split_on(value@, ","@), default_port@),
{
    proof {
        reveal_strlit(",");
    }
    let parts = split_all(value, ",");
    let ghost start = views(peers@);
    let mut i: usize = 0;
    while i < parts.len()
        invariant
            i <= parts@.len(),
            views(peers@) == start + normalized_peers(views(parts@).take(i as int), default_port@),
        decreases parts@.len() - i,
    {
        let peer = normalize_peer(&parts[i], default_port);
        assert(views(parts@).take(i + 1).drop_last() =~= views(parts@).take(i as int));
        let ghost before = views(peers@);
        if !peer.as_str().is_empty() {
            peers.push(peer);
            assert(views(peers@) =~= before.push(peer@));
        } else {
            assert(peer@.len() == 0);
        }
        i = i + 1;
    }
    assert(views(parts@).take(parts@.len() as int) =~= views(parts@));
}

/// Sorts a peer list and drops repeated addresses.
pub fn sort_dedup(peers: &mut Vec<String>)
    ensures
        strictly_sorted(views(final(peers)@)),
        views(final(peers)@).to_set() == views(old(peers)@).to_set(),
{
    let mut sorted: Vec<String> = Vec::new();
    assert(views(sorted@).to_set() =~= Set::<Seq<char>>::empty());
    let mut i: usize = 0;
    while i < peers.len()
        invariant
            i <= peers@.len(),
            strictly_sorted(views(sorted@)),
            views(sorted@).to_set() == views(peers@).take(i as int).to_set(),
        decreases peers@.len() - i,
    {
        insert_sorted_unique(&mut sorted, peers[i].clone());
        assert(views(peers@).take(i + 1) =~= views(peers@).take(i as int).push(peers@[i as int]@));
        proof {
            broadcast use vstd::seq_lib::lemma_seq_contains_after_push;
            assert(views(peers@).take(i + 1).to_set() =~= views(peers@).take(i as int).to_set().insert(
                peers@[i as int]@,
            ));
        }
        i = i + 1;
    }
    assert(views(peers@).take(peers@.len() as int) =~= views(peers@));
    *peers = sorted;
}

/// The peers of `incoming` that are new: not this node, not known before and
/// not already met earlier in `incoming`.
pub open spec fn discovered(existing: Seq<Seq<char>>, addr: Seq<char>, incoming: Seq<Seq<char>>) -> Seq<Seq<char>>
    decreases incoming.len(),
{
    if incoming.len() == 0 {
        Seq::empty()
    } else {
        let prev = discovered(existing, addr, incoming.drop_last());
        let p = incoming.last();
        if p != addr && !(existing + prev).contains(p) {
            prev.push(p)
        } else {
            prev
        }
    }
}

/// Adds the new peers among `incoming` to `peers` and returns them; when any
/// was added the list is sorted and each address kept once.
pub fn merge_peers(peers: &mut Vec<String>, addr: &str, incoming: &Vec<String>) -> (res: Vec<String>)
    ensures
        views(res@) == discovered(views(old(peers)@), addr@, views(incoming@)),
        res@.len() == 0 ==> final(peers)@ == old(peers)@,
        res@.len() > 0 ==> strictly_sorted(views(final(peers)@)),
        res@.len() > 0 ==> views(final(peers)@).to_set() == (views(old(peers)@) + views(res@)).to_set(),
{
    let ghost existing = views(peers@);
    let mut found: Vec<String> = Vec::new();
    let mut i: usize = 0;
    while i < incoming.len()
        invariant
            i <= incoming@.len(),
            views(found@) == discovered(existing, addr@, views(incoming@).take(i as int)),
            views(peers@) == existing + views(found@),
            found@.len() == 0 ==> peers@ == old(peers)@,
            existing == views(old(peers)@),
        decreases incoming@.len() - i,
    {
        let peer = &incoming[i];
        assert(views(incoming@).take(i + 1).drop_last() =~= views(incoming@).take(i as int));
        assert(views(incoming@).take(i + 1).last() == peer@);
        if !str_equal(peer, addr) && !contains_str(peers, peer) {
            let ghost before_found = views(found@);
            let ghost before_peers = views(peers@);
            peers.push(peer.clone());
            found.push(peer.clone());
            assert(views(found@) =~= before_found.push(peer@));
            assert(views(peers@) =~= before_peers.push(peer@));
            assert(views(peers@) =~= existing + views(found@));
        }
        i = i + 1;
    }
    assert(views(incoming@).take(incoming@.len() as int) =~= views(incoming@));
    if found.len() > 0 {
        sort_dedup(peers);
    }
    found
}

/// The peers to talk to: those that are not this node and not blocked.
pub open spec fn spec_active_peers(peers: Seq<Seq<char>>, addr: Seq<char>, blocked: Seq<Seq<char>>) -> Seq<Seq<char>> {
    peers.filter(|p: Seq<char>| p != addr && !blocked.contains(p))
}

/// The peers of the list to talk to, in list order.
pub fn active_peers(peers: &Vec<String>, addr: &str, chain: &ChainState) -> (res: Vec<String>)
    ensures
        views(res@) == spec_active_peers(views(peers@), addr@, chain.blocked_peers.items()),
{
    let mut res: Vec<String> = Vec::new();
    let mut i: usize = 0;
    while i < peers.len()
        invariant
            i <= peers@.len(),
            views(res@) == spec_active_peers(views(peers@).take(i as int), addr@, chain.blocked_peers.items()),
        decreases peers@.len() - i,
    {
        let peer = &peers[i];
        let ghost before = views(res@);
        assert(views(peers@).take(i + 1) =~= views(peers@).take(i as int).push(peer@));
        proof {
            views(peers@).take(i as int).lemma_filter_push(
                peer@,
                |p: Seq<char>| p != addr@ && !chain.blocked_peers.items().contains(p),
            );
        }
        if !str_equal(peer, addr) && !chain.blocked_peers.contains(peer) {
            res.push(peer.clone());
            assert(views(res@) =~= before.push(peer@));
        }
        i = i + 1;
    }
    assert(views(peers@).take(peers@.len() as int) =~= views(peers@));
    res
}

/// Blocks a peer, unless it is this node; returns whether the peer was blocked.
pub fn block_peer(chain: &mut ChainState, addr: &str, peer: &str) -> (res: bool)
    requires
        old(chain).wf(),
    ensures
        final(chain).wf(),
        res == (peer@ != addr@),
        forall|x: Seq<char>| final(chain).blocked_peers.has(x) <==> (old(chain).blocked_peers.has(x) || (res && x == peer@)),
        final(chain).blocks == old(chain).blocks,
        final(chain).best_tip == old(chain).best_tip,
        final(chain).mempool == old(chain).mempool,
        final(chain).orphan_blocks == old(chain).orphan_blocks,
        final(chain).mining == old(chain).mining,
{
    proof {
        reveal(ChainState::wf);
    }
    if str_equal(peer, addr) {
        return false;
    }
    let ghost before = chain.blocked_peers;
    chain.blocked_peers.insert(peer);
    proof {
        assert forall|x: Seq<char>| chain.blocked_peers.has(x) <==> (before.has(x) || x == peer@) by {
            vstd::seq_lib::lemma_seq_contains_after_push(before.items(), peer@, x);
        }
        lemma_wf_blocked(*old(chain), *chain);
    }
    true
}

/// Unblocks a peer.
pub fn unblock_peer(chain: &mut ChainState, peer: &str)
    requires
        old(chain).wf(),
    ensures
        final(chain).wf(),
        forall|x: Seq<char>| final(chain).blocked_peers.has(x) <==> (old(chain).blocked_peers.has(x) && x != peer@),
        final(chain).blocks == old(chain).blocks,
        final(chain).best_tip == old(chain).best_tip,
        final(chain).mempool == old(chain).mempool,
        final(chain).orphan_blocks == old(chain).orphan_blocks,
        final(chain).mining == old(chain).mining,
{
    proof {
        reveal(ChainState::wf);
    }
    chain.blocked_peers.remove(peer);
    proof {
        lemma_wf_blocked(*old(chain), *chain);
    }
}

/// Unblocks every peer.
pub fn clear_blocked_peers(chain: &mut ChainState)
    requires
        old(chain).wf(),
    ensures
        final(chain).wf(),
        final(chain).blocked_peers.items().len() == 0,
        final(chain).blocks == old(chain).blocks,
        final(chain).best_tip == old(chain).best_tip,
        final(chain).mempool == old(chain).mempool,
        final(chain).orphan_blocks == old(chain).orphan_blocks,
        final(chain).mining == old(chain).mining,
{
    chain.blocked_peers = StringSet::new();
    proof {
        lemma_wf_blocked(*old(chain), *chain);
    }
}

/// The blocked peers, sorted.
pub fn blocked_peer_list(chain: &ChainState) -> (res: Vec<String>)
    ensures
        strictly_sorted(views(res@)),
        views(res@).to_set() == chain.blocked_peers.items().to_set(),
{
    let mut list = chain.blocked_peers.to_vec();
    assert(views(list@) =~= chain.blocked_peers.items());
    sort_dedup(&mut list);
    list
}

/// The peer events a fault request gives, in order: clearing, blocking a
/// peer other than this node, unblocking.
pub open spec fn fault_events(req: FaultRequest, addr: Seq<char>) -> Seq<Seq<char>> {
    let cleared: Seq<Seq<char>> = if req.clear_blocked_peers { seq!["cleared blocked peers"@] } else { seq![] };
    let blocked: Seq<Seq<char>> = match req.block_peer {
        Some(p) => if p@ != addr { seq!["blocked "@ + p@] } else { seq![] },
        None => seq![],
    };
    let unblocked: Seq<Seq<char>> = match req.unblock_peer {
        Some(u) => seq!["unblocked "@ + u@],
        None => seq![],
    };
    cleared + blocked + unblocked
}

/// Carries out a fault request on the blocked peers, in order: unblock every
/// peer, block one (never this node), unblock one. Returns the peer events to
/// record. Nothing but the blocked peers changes.
pub fn apply_fault_request(chain: &mut ChainState, addr: &str, req: &FaultRequest) -> (res: Vec<String>)
    requires
        old(chain).wf(),
    ensures
        final(chain).wf(),
        forall|x: Seq<char>| #[trigger] final(chain).blocked_peers.has(x) <==> ({
            &&& (!req.clear_blocked_peers && old(chain).blocked_peers.has(x)) || (req.block_peer matches Some(p) && p@
                != addr@ && x == p@)
            &&& !(req.unblock_peer matches Some(u) && x == u@)
        }),
        views(res@) == fault_events(*req, addr@),
        final(chain).blocks == old(chain).blocks,
        final(chain).best_tip == old(chain).best_tip,
        final(chain).mempool == old(chain).mempool,
        final(chain).orphan_blocks == old(chain).orphan_blocks,
        final(chain).mining == old(chain).mining,
{
    let mut events: Vec<String> = Vec::new();
    let ghost b0 = chain.blocked_peers;
    if req.clear_blocked_peers {
        clear_blocked_peers(chain);
        events.push(crate::text::owned("cleared blocked peers"));
        proof {
            assert forall|x: Seq<char>| !chain.blocked_peers.has(x) by {
                assert(chain.blocked_peers.items().len() == 0);
            }
        }
    }
    let ghost b1 = chain.blocked_peers;
    let ghost e1 = views(events@);
    match &req.block_peer {
        Some(peer) => {
            if block_peer(chain, addr, peer) {
                events.push(concat("blocked ", peer));
                assert(views(events@) =~= e1.push("blocked "@ + peer@));
            }
        },
        None => {},
    }
    let ghost e2 = views(events@);
    match &req.unblock_peer {
        Some(peer) => {
            unblock_peer(chain, peer);
            events.push(concat("unblocked ", peer));
            assert(views(events@) =~= e2.push("unblocked "@ + peer@));
        },
        None => {},
    }
    assert(views(events@) =~= fault_events(*req, addr@));
    events
}

/// Takes in the peers saved on disk: the node's peers and the saved ones,
/// without the node itself, sorted and each once.
pub fn restore_peers(peers: &mut Vec<String>, addr: &str, saved: Vec<String>)
    ensures
        strictly_sorted(views(final(peers)@)),
        views(final(peers)@).to_set() == (views(old(peers)@) + views(saved@)).to_set().remove(addr@),
{
    let ghost all = views(old(peers)@) + views(saved@);
    let mut kept: Vec<String> = Vec::new();
    let mut i: usize = 0;
    while i < peers.len()
        invariant
            i <= peers@.len(),
            peers@ == old(peers)@,
            all == views(old(peers)@) + views(saved@),
            views(kept@).to_set() == views(peers@).take(i as int).to_set().remove(addr@),
        decreases peers@.len() - i,
    {
        let ghost before = views(kept@);
        let ghost x = peers@[i as int]@;
        let ghost pre = views(peers@).take(i as int);
        assert(views(peers@).take(i + 1) =~= pre.push(x));
        proof {
            pre.lemma_push_to_set_commute(x);
        }
        if !str_equal(&peers[i], addr) {
            kept.push(peers[i].clone());
            assert(views(kept@) =~= before.push(x));
            proof {
                before.lemma_push_to_set_commute(x);
            }
            assert(views(kept@).to_set() =~= pre.push(x).to_set().remove(addr@));
        } else {
            assert(views(kept@).to_set() =~= pre.push(x).to_set().remove(addr@));
        }
        i = i + 1;
    }
    assert(views(peers@).take(peers@.len() as int) =~= views(peers@));
    let mut j: usize = 0;
    while j < saved.len()
        invariant
            j <= saved@.len(),
            all == views(old(peers)@) + views(saved@),
            views(kept@).to_set() == (views(old(peers)@) + views(saved@).take(j as int)).to_set().remove(addr@),
        decreases saved@.len() - j,
    {
        let ghost before = views(kept@);
        let ghost x = saved@[j as int]@;
        let ghost pre = views(old(peers)@) + views(saved@).take(j as int);
        assert(views(old(peers)@) + views(saved@).take(j + 1) =~= pre.push(x));
        proof {
            pre.lemma_push_to_set_commute(x);
        }
        if !str_equal(&saved[j], addr) {
            kept.push(saved[j].clone());
            assert(views(kept@) =~= before.push(x));
            proof {
                before.lemma_push_to_set_commute(x);
            }
            assert(views(kept@).to_set() =~= pre.push(x).to_set().remove(addr@));
        } else {
            assert(views(kept@).to_set() =~= pre.push(x).to_set().remove(addr@));
        }
        j = j + 1;
    }
    assert(views(saved@).take(saved@.len() as int) =~= views(saved@));
    sort_dedup(&mut kept);
    *peers = kept;
}

} // verus!
