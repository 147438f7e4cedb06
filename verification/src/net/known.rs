//! The peers that a node knows.

use vstd::prelude::*;

use crate::net::addr::{PeerAddress, PeerAddressView};
use crate::net::seeds::{peer_views, seed_peer_addrs, seed_peers, Network};

verus! {

/// The addresses of known peers, none of them twice. Its view is the set of what
/// the addresses are.
#[derive(Debug)]
pub struct KnownPeers {
    rows: Vec<PeerAddress>,
}

impl View for KnownPeers {
    type V = Set<PeerAddressView>;

    closed spec fn view(&self) -> Set<PeerAddressView> {
        peer_views(self.rows@).to_set()
    }
}

impl KnownPeers {
    /// No address occurs twice.
    pub closed spec fn wf(&self) -> bool {
        peer_views(self.rows@).no_duplicates()
    }

    /// No known peer.
    pub fn new() -> (known: Self)
        ensures
            known.wf(),
            known@ == Set::<PeerAddressView>::empty(),
    {
        let known = KnownPeers { rows: Vec::new() };
        assert(known@ =~= Set::empty());
        known
    }

    /// The known peers, none of them twice, in some order.
    pub fn rows(&self) -> (rows: &Vec<PeerAddress>)
        requires
            self.wf(),
        ensures
            peer_views(rows@).no_duplicates(),
            peer_views(rows@).to_set() == self@,
    {
        &self.rows
    }

    /// How many peers are known.
    pub fn len(&self) -> (n: usize)
        requires
            self.wf(),
        ensures
            self@.finite(),
            n == self@.len(),
    {
        proof {
            peer_views(self.rows@).unique_seq_to_set();
            vstd::seq_lib::seq_to_set_is_finite(peer_views(self.rows@));
        }
        self.rows.len()
    }

    /// The place of a peer.
    fn find(&self, peer: &PeerAddress) -> (place: Option<usize>)
        ensures
            match place {
                Some(i) => i < self.rows@.len() && self.rows@[i as int]@ == peer@
                    && self@.contains(peer@),
                None => !self@.contains(peer@),
            },
    {
        let mut i: usize = 0;
        while i < self.rows.len()
            invariant
                i <= self.rows.len(),
                forall|j: int| 0 <= j < i ==> (#[trigger] self.rows@[j])@ != peer@,
            decreases self.rows.len() - i,
        {
            if self.rows[i].same(peer) {
                assert(peer_views(self.rows@)[i as int] == peer@);
                return Some(i);
            }
            i += 1;
        }
        proof {
            if self@.contains(peer@) {
                let k = choose|k: int|
                    0 <= k < peer_views(self.rows@).len() && peer_views(self.rows@)[k] == peer@;
                assert(self.rows@[k]@ == peer@);
            }
        }
        None
    }

    /// Whether a peer is known.
    pub fn contains(&self, peer: &PeerAddress) -> (b: bool)
        ensures
            b == self@.contains(peer@),
    {
        self.find(peer).is_some()
    }

    /// Takes a peer on record.
    pub fn insert(&mut self, peer: PeerAddress)
        requires
            old(self).wf(),
        ensures
            final(self).wf(),
            final(self)@ == old(self)@.insert(peer@),
    {
        if self.find(&peer).is_none() {
            let ghost before = peer_views(self.rows@);
            let ghost added = peer@;
            self.rows.push(peer);
            proof {
                let after = peer_views(self.rows@);
                assert(after =~= before.push(added));
                assert forall|v: PeerAddressView| after.contains(v) <==> before.contains(v) || v
                    == added by {
                    if before.contains(v) {
                        let k = choose|k: int| 0 <= k < before.len() && before[k] == v;
                        assert(after[k] == v);
                    }
                    if v == added {
                        assert(after[before.len() as int] == v);
                    }
                }
                assert forall|i: int, j: int| 0 <= i < j < after.len() implies after[i]
                    != after[j] by {
                    if j == before.len() {
                        assert(before.contains(before[i]));
                    }
                }
                assert(self@ =~= old(self)@.insert(added));
            }
        } else {
            assert(self@ =~= old(self)@.insert(peer@));
        }
    }

    /// Forgets a peer. Returns whether it was known.
    pub fn remove(&mut self, peer: &PeerAddress) -> (removed: bool)
        requires
            old(self).wf(),
        ensures
            final(self).wf(),
            final(self)@ == old(self)@.remove(peer@),
            removed == old(self)@.contains(peer@),
    {
        match self.find(peer) {
            Some(i) => {
                let ghost before = peer_views(self.rows@);
                self.rows.remove(i);
                proof {
                    let after = peer_views(self.rows@);
                    assert(after =~= before.remove(i as int));
                    assert(before[i as int] == peer@);
                    assert forall|v: PeerAddressView| after.contains(v) <==> before.contains(v)
                        && v != peer@ by {
                        if after.contains(v) {
                            let k = choose|k: int| 0 <= k < after.len() && after[k] == v;
                            if k < i {
                                assert(before[k] == v);
                            } else {
                                assert(before[k + 1] == v);
                            }
                        }
                        if before.contains(v) && v != peer@ {
                            let k = choose|k: int| 0 <= k < before.len() && before[k] == v;
                            if k < i {
                                assert(after[k] == v);
                            } else {
                                assert(after[k - 1] == v);
                            }
                        }
                    }
                    assert forall|a: int, b: int| 0 <= a < b < after.len() implies after[a]
                        != after[b] by {
                        let p = if a < i { a } else { a + 1 };
                        let q = if b < i { b } else { b + 1 };
                        assert(after[a] == before[p] && after[b] == before[q]);
                    }
                    assert(self@ =~= old(self)@.remove(peer@));
                }
                true
            },
            None => {
                assert(self@ =~= old(self)@.remove(peer@));
                false
            },
        }
    }

    /// Takes every one of these peers on record.
    pub fn insert_all(&mut self, peers: Vec<PeerAddress>)
        requires
            old(self).wf(),
        ensures
            final(self).wf(),
            final(self)@ == old(self)@.union(peer_views(peers@).to_set()),
    {
        let ghost views = peer_views(peers@);
        assert(self@ =~= old(self)@.union(views.take(0).to_set()));
        for peer in it: peers
            invariant
                self.wf(),
                it.seq() == peers@,
                views == peer_views(peers@),
                self@ == old(self)@.union(views.take(it.index() as int).to_set()),
        {
            let ghost n = it.index() as int;
            assert(views[n] == peer@);
            self.insert(peer);
            proof {
                let done = views.take(n);
                let next = views.take(n + 1);
                assert(next =~= done.push(views[n]));
                assert forall|v: PeerAddressView| next.contains(v) <==> done.contains(v) || v
                    == views[n] by {
                    if done.contains(v) {
                        let k = choose|k: int| 0 <= k < done.len() && done[k] == v;
                        assert(next[k] == v);
                    }
                    if v == views[n] {
                        assert(next[n] == v);
                    }
                }
                assert(self@ =~= old(self)@.union(next.to_set()));
            }
        }
        assert(views.take(views.len() as int) =~= views);
    }

    /// Adds every seed of the network that is not known.
    pub fn ensure_seed_peers(&mut self, network: Network)
        requires
            old(self).wf(),
        ensures
            final(self).wf(),
            final(self)@ == old(self)@.union(seed_peers(network).to_set()),
    {
        self.insert_all(seed_peer_addrs(network));
    }
}

/// To add the seeds again changes nothing, and no seed is lost.
pub proof fn seeds_are_added_once(known: Set<PeerAddressView>, network: Network)
    ensures
        ({
            let once = known.union(seed_peers(network).to_set());
            &&& once.union(seed_peers(network).to_set()) == once
            &&& forall|i: int|
                0 <= i < seed_peers(network).len() ==> once.contains(
                    #[trigger] seed_peers(network)[i],
                )
        }),
{
    let seeds = seed_peers(network);
    let once = known.union(seeds.to_set());
    assert(once.union(seeds.to_set()) =~= once);
    assert forall|i: int| 0 <= i < seeds.len() implies once.contains(#[trigger] seeds[i]) by {
        assert(seeds.contains(seeds[i]));
    }
}

/// A network names no seed twice. So a node that knew nobody knows as many peers
/// as the network has seeds.
pub proof fn seeds_are_distinct(network: Network)
    ensures
        seed_peers(network).no_duplicates(),
        Set::<PeerAddressView>::empty().union(seed_peers(network).to_set()).len() == seed_peers(
            network,
        ).len(),
{
    let seeds = seed_peers(network);
    assert(seeds.no_duplicates());
    seeds.unique_seq_to_set();
    assert(Set::<PeerAddressView>::empty().union(seeds.to_set()) =~= seeds.to_set());
}

} // verus!
