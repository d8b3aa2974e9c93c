//! Catching up with a peer's chain: how far two canonical chains agree and
//! which of the peer's blocks to fetch.
use vstd::prelude::*;

use crate::sorting::views;
use crate::text::str_equal;

verus! {

/// The number of leading positions on which two hash lists agree.
pub open spec fn spec_common_prefix(a: Seq<Seq<char>>, b: Seq<Seq<char>>) -> nat
    decreases a.len(),
{
    if a.len() == 0 || b.len() == 0 || a[0] != b[0] {
        0
    } else {
        1 + spec_common_prefix(a.drop_first(), b.drop_first())
    }
}

/// How many leading hashes two lists share.
pub fn common_prefix_len(left: &[String], right: &[String]) -> (res: usize)
    ensures
        res == spec_common_prefix(views(left@), views(right@)),
        res <= left@.len() && res <= right@.len(),
        forall|i: int| 0 <= i < res ==> left@[i]@ == #[trigger] right@[i]@,
        res < left@.len() && res < right@.len() ==> left@[res as int]@ != right@[res as int]@,
{
    let mut i: usize = 0;
    assert(views(left@).skip(0) =~= views(left@));
    assert(views(right@).skip(0) =~= views(right@));
    while i < left.len() && i < right.len() && str_equal(&left[i], &right[i])
        invariant
            i <= left@.len() && i <= right@.len(),
            forall|k: int| 0 <= k < i ==> left@[k]@ == #[trigger] right@[k]@,
            spec_common_prefix(views(left@), views(right@)) == i + spec_common_prefix(
                views(left@).skip(i as int),
                views(right@).skip(i as int),
            ),
        decreases left@.len() - i,
    {
        assert(views(left@).skip(i as int).drop_first() =~= views(left@).skip(i + 1));
        assert(views(right@).skip(i as int).drop_first() =~= views(right@).skip(i + 1));
        i = i + 1;
    }
    if i < left.len() && i < right.len() {
        assert(views(left@).skip(i as int)[0] != views(right@).skip(i as int)[0]);
    }
    i
}

/// The peer's hashes worth fetching: none when the peer's chain is empty,
/// shorter than ours, or as long as ours with the same tip; otherwise those
/// after the prefix both chains share.
pub open spec fn spec_hashes_to_fetch(local: Seq<Seq<char>>, peer: Seq<Seq<char>>) -> Seq<Seq<char>> {
    if peer.len() == 0 || peer.len() < local.len() || (peer.len() == local.len() && local.last() == peer.last()) {
        Seq::empty()
    } else {
        peer.skip(spec_common_prefix(local, peer) as int)
    }
}

/// The peer's canonical hashes to ask for, in order.
pub fn hashes_to_fetch(local: &Vec<String>, peer: &Vec<String>) -> (res: Vec<String>)
    ensures
        views(res@) == spec_hashes_to_fetch(views(local@), views(peer@)),
{
    let mut res: Vec<String> = Vec::new();
    if peer.len() == 0 || peer.len() < local.len() {
        assert(views(res@) =~= Seq::<Seq<char>>::empty());
        return res;
    }
    if peer.len() == local.len() && str_equal(&local[local.len() - 1], &peer[peer.len() - 1]) {
        assert(views(res@) =~= Seq::<Seq<char>>::empty());
        return res;
    }
    let common = common_prefix_len(local.as_slice(), peer.as_slice());
    let mut i = common;
    while i < peer.len()
        invariant
            common <= i <= peer@.len(),
            views(res@) == views(peer@).subrange(common as int, i as int),
        decreases peer@.len() - i,
    {
        let ghost before = views(res@);
        res.push(peer[i].clone());
        assert(views(res@) =~= before.push(peer@[i as int]@));
        i = i + 1;
        assert(views(res@) =~= views(peer@).subrange(common as int, i as int));
    }
    assert(views(res@) =~= views(peer@).skip(common as int));
    res
}

} // verus!
