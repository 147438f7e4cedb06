//! The peers of a node: those that it knows and those that it is connected to.

use vstd::prelude::*;

use crate::net::addr::{PeerAddress, PeerAddressView, ResolvedPeerAddress, SocketAddr};
use crate::net::dial::{
    a_peer_is_reached_at_its_address, dial, dials, AlreadyConnected, ConnectError, ConnectPeerError,
};
use crate::net::known::KnownPeers;
use crate::net::redial::{DialRound, DialRoundView};
use crate::net::seeds::{peer_views, seed_peers, Network};
use crate::table::{lemma_rows_map, lists, Key, Table};
use crate::types::Version;

verus! {

/// How far a connection has come.
#[derive(Clone, Copy, Debug, PartialEq, Eq)]
pub enum PeerConnectionStatus {
    Connecting,
    Connected,
}

/// A peer that the node is connected to, or is connecting to.
#[derive(Clone, Copy, Debug, PartialEq, Eq)]
pub struct Peer {
    pub address: SocketAddr,
    pub status: PeerConnectionStatus,
}

/// A store that was made by a version whose known peers cannot be read.
#[derive(Clone, Copy, Debug, PartialEq, Eq)]
pub struct IncompatibleVersion {
    pub version: Version,
}

/// The version that gave known peers the form in which they are stored.
pub open spec fn first_readable() -> Version {
    Version { major: 0, minor: 17, patch: 6 }
}

/// Refuses a store whose known peers cannot be read: one that was made before they
/// had their present form.
pub fn check_version(stored: Option<Version>) -> (result: Result<(), IncompatibleVersion>)
    ensures
        match stored {
            Some(version) => if version.is_before(first_readable()) {
                result == Err::<(), IncompatibleVersion>(IncompatibleVersion { version })
            } else {
                result is Ok
            },
            None => result is Ok,
        },
        result is Err <==> (stored matches Some(version) && version.major == 0 && (version.minor
            < 17 || version.minor == 17 && version.patch < 6)),
{
    match stored {
        Some(version) => {
            if version.before(&Version { major: 0, minor: 17, patch: 6 }) {
                Err(IncompatibleVersion { version })
            } else {
                Ok(())
            }
        },
        None => Ok(()),
    }
}

/// What a node holds of its peers. `H` is the handle of a connection.
#[verifier::reject_recursive_types(H)]
pub struct NetView<H> {
    pub magic_bytes: [u8; 4],
    pub known: Set<PeerAddressView>,
    pub active: Map<SocketAddr, H>,
    pub version: Version,
}

/// The peers of a node. `H` is the handle of a connection.
#[verifier::reject_recursive_types(H)]
pub struct Net<H> {
    magic_bytes: [u8; 4],
    known: KnownPeers,
    active: Table<SocketAddr, H>,
    version: Version,
}

impl<H> View for Net<H> {
    type V = NetView<H>;

    closed spec fn view(&self) -> NetView<H> {
        NetView {
            magic_bytes: self.magic_bytes,
            known: self.known@,
            active: self.active@,
            version: self.version,
        }
    }
}

/// The known peers of a store, in some order, and the version that made it.
#[derive(Debug)]
pub struct StoredNet {
    pub known: Vec<PeerAddress>,
    pub version: Option<Version>,
}

/// The listing tells each connection once, with a status that its handle gives.
pub open spec fn reports<H, S: Fn(&H) -> PeerConnectionStatus>(
    active: Map<SocketAddr, H>,
    status: S,
    peers: Seq<Peer>,
) -> bool {
    &&& peers.len() == active.len()
    &&& forall|i: int, j: int| 0 <= i < j < peers.len() ==> peers[i].address != peers[j].address
    &&& forall|i: int|
        0 <= i < peers.len() ==> active.contains_key((#[trigger] peers[i]).address)
            && call_ensures(status, (&active[peers[i].address],), peers[i].status)
}

/// One of the first `n` addresses of a peer is connected.
pub open spec fn active_below<H>(
    active: Map<SocketAddr, H>,
    peer: ResolvedPeerAddress,
    n: int,
) -> bool {
    exists|i: int|
        0 <= i < n && active.contains_key(
            SocketAddr::at(#[trigger] peer.ips()[i], peer.spec_port()),
        )
}

/// An address of a peer is connected.
pub open spec fn is_active<H>(active: Map<SocketAddr, H>, peer: ResolvedPeerAddress) -> bool {
    active_below(active, peer, peer.ips().len() as int)
}

/// This comes of connecting to a peer that is stored: it is known. An address of it
/// that is connected already is an error, the first such address being named. Else
/// the peer is dialed, and a connection is added under the address that was reached.
pub open spec fn connects<
    H,
    C,
    F: Fn(SocketAddr, &String) -> Result<C, ConnectError>,
    G: FnOnce(C, ResolvedPeerAddress) -> H,
>(
    before: NetView<H>,
    after: NetView<H>,
    peer: ResolvedPeerAddress,
    connect: F,
    open: G,
    result: Result<(), ConnectPeerError>,
) -> bool {
    &&& after.magic_bytes == before.magic_bytes
    &&& after.known == before.known.insert(peer.peer_view())
    &&& after.version == before.version
    &&& if is_active(before.active, peer) {
        &&& after.active == before.active
        &&& exists|n: int|
            {
                let addr = SocketAddr::at(#[trigger] peer.ips()[n], peer.spec_port());
                &&& 0 <= n < peer.ips().len()
                &&& before.active.contains_key(addr)
                &&& !active_below(before.active, peer, n)
                &&& result == Err::<(), ConnectPeerError>(
                    ConnectPeerError::AlreadyConnected(AlreadyConnected(addr)),
                )
            }
    } else {
        match result {
            Ok(()) => exists|addr: SocketAddr, connection: C, rest: ResolvedPeerAddress, handle: H|
                #![trigger call_ensures(open, (connection, rest), handle),
                    before.active.insert(addr, handle)]
                dials(connect, peer, Ok((addr, connection, rest))) && call_ensures(
                    open,
                    (connection, rest),
                    handle,
                ) && after.active == before.active.insert(addr, handle),
            Err(error) => after.active == before.active && dials::<C, F>(
                connect,
                peer,
                Err(error),
            ),
        }
    }
}

/// Why a peer was not connected to.
#[derive(Debug, PartialEq, Eq)]
pub enum ConnectFailure<E> {
    /// The peer could not be stored.
    Store(E),
    /// The peer was not reached.
    Peer(ConnectPeerError),
}

/// This comes of connecting to a peer that is stored first: where it cannot be
/// stored, nothing else happens.
pub open spec fn stores_and_connects<
    H,
    C,
    E,
    S: FnOnce(&PeerAddress) -> Result<(), E>,
    F: Fn(SocketAddr, &String) -> Result<C, ConnectError>,
    G: FnOnce(C, ResolvedPeerAddress) -> H,
>(
    before: NetView<H>,
    after: NetView<H>,
    peer: ResolvedPeerAddress,
    store: S,
    connect: F,
    open: G,
    result: Result<(), ConnectFailure<E>>,
) -> bool {
    exists|address: PeerAddress, stored: Result<(), E>| #[trigger]
        call_ensures(store, (&address,), stored) && address@ == peer.peer_view() && match stored {
            Err(error) => after == before && result == Err::<(), ConnectFailure<E>>(
                ConnectFailure::Store(error),
            ),
            Ok(()) => match result {
                Ok(()) => connects(before, after, peer, connect, open, Ok(())),
                Err(ConnectFailure::Peer(error)) => connects(
                    before,
                    after,
                    peer,
                    connect,
                    open,
                    Err(error),
                ),
                Err(ConnectFailure::Store(_)) => false,
            },
        }
}

impl<H> Net<H> {
    /// The number of tables of the node's store that are about peers.
    pub const NUM_DBS: u32 = 2;

    /// The tables are in order.
    pub closed spec fn wf(&self) -> bool {
        self.known.wf() && self.active.wf()
    }

    /// The peers of a node as its store has them, with the seeds of the network
    /// and with the peers to add. There is no connection yet. A store that was
    /// made before known peers had their present form is refused.
    pub fn new(
        stored: StoredNet,
        current: Version,
        network: Network,
        add_peers: Vec<PeerAddress>,
        magic_bytes_override: Option<[u8; 4]>,
        magic_bytes: [u8; 4],
    ) -> (net: Result<Self, IncompatibleVersion>)
        ensures
            match net {
                Ok(n) => {
                    &&& n.wf()
                    &&& stored.version matches Some(version) ==> !version.is_before(
                        first_readable(),
                    )
                    &&& n@.version == match stored.version {
                        Some(version) => version,
                        None => current,
                    }
                    &&& n@.known == peer_views(stored.known@).to_set().union(
                        seed_peers(network).to_set(),
                    ).union(peer_views(add_peers@).to_set())
                    &&& n@.active == Map::<SocketAddr, H>::empty()
                    &&& n@.magic_bytes == match magic_bytes_override {
                        Some(bytes) => bytes,
                        None => magic_bytes,
                    }
                },
                Err(error) => stored.version == Some(error.version) && error.version.is_before(
                    first_readable(),
                ),
            },
            net is Err <==> (stored.version matches Some(version) && version.major == 0 && (
            version.minor < 17 || version.minor == 17 && version.patch < 6)),
    {
        match check_version(stored.version) {
            Ok(()) => {},
            Err(error) => return Err(error),
        }
        let mut known = KnownPeers::new();
        known.insert_all(stored.known);
        proof {
            assert(known@ =~= peer_views(stored.known@).to_set());
        }
        known.ensure_seed_peers(network);
        known.insert_all(add_peers);
        let version = match stored.version {
            Some(version) => version,
            None => current,
        };
        let magic_bytes = match magic_bytes_override {
            Some(bytes) => bytes,
            None => magic_bytes,
        };
        Ok(Net { magic_bytes, known, active: Table::new(), version })
    }

    /// The bytes that begin each message of the network.
    pub fn magic_bytes(&self) -> (bytes: [u8; 4])
        ensures
            bytes == self@.magic_bytes,
    {
        self.magic_bytes
    }

    /// The version that made the store.
    pub fn version(&self) -> (version: Version)
        ensures
            version == self@.version,
    {
        self.version
    }

    /// Adds a connection, unless there is one to the same address.
    pub fn add_active_peer(&mut self, addr: SocketAddr, handle: H) -> (result: Result<
        (),
        AlreadyConnected,
    >)
        requires
            old(self).wf(),
        ensures
            final(self).wf(),
            if old(self)@.active.contains_key(addr) {
                result == Err::<(), AlreadyConnected>(AlreadyConnected(addr)) && final(self)@
                    == old(self)@
            } else {
                result is Ok && final(self)@ == (NetView {
                    active: old(self)@.active.insert(addr, handle),
                    ..old(self)@
                })
            },
    {
        if self.active.contains_key(&addr) {
            return Err(AlreadyConnected(addr));
        }
        self.active.insert(addr, handle);
        Ok(())
    }

    /// Drops the connection to an address, if there is one.
    pub fn remove_active_peer(&mut self, addr: SocketAddr)
        requires
            old(self).wf(),
        ensures
            final(self).wf(),
            final(self)@ == (NetView { active: old(self)@.active.remove(addr), ..old(self)@ }),
    {
        let _ = self.active.remove(&addr);
    }

    /// Applies a function to the handle of the connection to an address, if there
    /// is one.
    pub fn try_with_active_peer_connection<F, T>(&self, addr: SocketAddr, f: F) -> (result: Option<
        T,
    >) where F: FnOnce(&H) -> T
        requires
            self.wf(),
            self@.active.contains_key(addr) ==> call_requires(f, (&self@.active[addr],)),
        ensures
            match result {
                Some(value) => self@.active.contains_key(addr) && call_ensures(
                    f,
                    (&self@.active[addr],),
                    value,
                ),
                None => !self@.active.contains_key(addr),
            },
    {
        match self.active.get(&addr) {
            Some(handle) => Some(f(handle)),
            None => None,
        }
    }

    /// Hands a message to the connection to an address. `send` tells whether the
    /// connection took it. Returns whether it did; without a connection nobody
    /// does.
    pub fn push_internal_message<M, F>(&self, message: M, addr: SocketAddr, send: F) -> (
        pushed: bool) where F: FnOnce(&H, M) -> bool
        requires
            self.wf(),
            self@.active.contains_key(addr) ==> call_requires(
                send,
                (&self@.active[addr], message),
            ),
        ensures
            if self@.active.contains_key(addr) {
                call_ensures(send, (&self@.active[addr], message), pushed)
            } else {
                !pushed
            },
    {
        match self.active.get(&addr) {
            Some(handle) => send(handle, message),
            None => false,
        }
    }

    /// The connections, each of them once. `status` reads a handle.
    pub fn get_active_peers<S: Fn(&H) -> PeerConnectionStatus>(&self, status: S) -> (peers: Vec<
        Peer,
    >)
        requires
            self.wf(),
            forall|handle: &H| call_requires(status, (handle,)),
        ensures
            reports(self@.active, status, peers@),
    {
        let rows = self.active.rows();
        proof {
            lemma_rows_map(rows@);
        }
        let mut peers: Vec<Peer> = Vec::new();
        let mut i: usize = 0;
        while i < rows.len()
            invariant
                i <= rows.len(),
                lists(rows@, self@.active),
                forall|handle: &H| call_requires(status, (handle,)),
                peers@.len() == i,
                forall|j: int|
                    0 <= j < i ==> (#[trigger] peers@[j]).address == rows@[j].0 && call_ensures(
                        status,
                        (&rows@[j].1,),
                        peers@[j].status,
                    ),
            decreases rows.len() - i,
        {
            peers.push(Peer { address: rows[i].0, status: status(&rows[i].1) });
            i += 1;
        }
        proof {
            assert forall|j: int| 0 <= j < peers@.len() implies self@.active.contains_key(
                (#[trigger] peers@[j]).address,
            ) && call_ensures(status, (&self@.active[peers@[j].address],), peers@[j].status) by {
                assert(rows@[j].0 == peers@[j].address);
            }
        }
        peers
    }

    /// The peers that a transaction is pushed to: all active ones, each of them
    /// once, but for the excluded ones.
    pub fn push_tx(&self, exclude: &Vec<SocketAddr>) -> (pushed: Vec<SocketAddr>)
        requires
            self.wf(),
        ensures
            pushed@.no_duplicates(),
            forall|a: SocketAddr|
                pushed@.contains(a) <==> self@.active.contains_key(a) && !exclude@.contains(a),
    {
        let rows = self.active.rows();
        let mut pushed: Vec<SocketAddr> = Vec::new();
        let mut i: usize = 0;
        while i < rows.len()
            invariant
                i <= rows.len(),
                lists(rows@, self@.active),
                pushed@.no_duplicates(),
                forall|a: SocketAddr|
                    pushed@.contains(a) <==> !exclude@.contains(a) && exists|j: int|
                        0 <= j < i && (#[trigger] rows@[j]).0 == a,
            decreases rows.len() - i,
        {
            let addr = rows[i].0;
            let ghost before = pushed@;
            if !contains_addr(exclude, &addr) {
                assert(forall|j: int| 0 <= j < i ==> (#[trigger] rows@[j]).0 != rows@[i as int].0);
                pushed.push(addr);
                assert(pushed@ == before.push(addr));
            }
            proof {
                assert forall|a: SocketAddr|
                    pushed@.contains(a) <==> !exclude@.contains(a) && exists|j: int|
                        0 <= j < i + 1 && (#[trigger] rows@[j]).0 == a by {
                    assert(rows@[i as int].0 == addr);
                    if before.contains(a) {
                        let k = choose|k: int| 0 <= k < before.len() && before[k] == a;
                        assert(pushed@[k] == a);
                    }
                    if a == addr && !exclude@.contains(a) {
                        assert(pushed@[pushed@.len() - 1] == a);
                    }
                }
            }
            i += 1;
        }
        proof {
            lemma_rows_map(rows@);
        }
        pushed
    }

    /// Forgets a known peer. Connections to it stay. Returns whether it was known.
    pub fn forget_peer(&mut self, peer: &PeerAddress) -> (forgotten: bool)
        requires
            old(self).wf(),
        ensures
            final(self).wf(),
            forgotten == old(self)@.known.contains(peer@),
            final(self)@ == (NetView { known: old(self)@.known.remove(peer@), ..old(self)@ }),
    {
        self.known.remove(peer)
    }

    /// The known peers, none of them twice, in some order.
    pub fn known_peer_addrs(&self) -> (peers: Vec<PeerAddress>)
        requires
            self.wf(),
        ensures
            peer_views(peers@).no_duplicates(),
            peer_views(peers@).to_set() == self@.known,
    {
        let rows = self.known.rows();
        let mut peers: Vec<PeerAddress> = Vec::new();
        let mut i: usize = 0;
        while i < rows.len()
            invariant
                i <= rows.len(),
                peers@ =~= rows@.take(i as int),
            decreases rows.len() - i,
        {
            peers.push(rows[i].clone());
            i += 1;
        }
        assert(rows@.take(i as int) =~= rows@);
        peers
    }

    /// A round of dials over every known peer.
    pub fn dial_known_peers(&self) -> (round: DialRound)
        requires
            self.wf(),
        ensures
            round.wf(),
            round@ == DialRoundView::of(round@.peers),
            round@.peers.no_duplicates(),
            round@.peers.to_set() == self@.known,
    {
        DialRound::new(self.known_peer_addrs())
    }

    /// How many connections there are.
    pub fn num_active_peers(&self) -> (count: usize)
        requires
            self.wf(),
        ensures
            self@.active.dom().finite(),
            count == self@.active.len(),
    {
        proof {
            lemma_rows_map(self.active.entries());
        }
        self.active.len()
    }

    /// The first address of a peer that is connected.
    fn first_active(&self, peer: &ResolvedPeerAddress) -> (addr: Option<SocketAddr>)
        requires
            self.wf(),
        ensures
            match addr {
                Some(a) => exists|n: int|
                    0 <= n < peer.ips().len() && a == SocketAddr::at(
                        #[trigger] peer.ips()[n],
                        peer.spec_port(),
                    ) && self@.active.contains_key(a) && !active_below(self@.active, *peer, n),
                None => !is_active(self@.active, *peer),
            },
            addr is Some ==> is_active(self@.active, *peer),
    {
        let ips = peer.ip_addrs();
        let port = peer.port();
        let mut i: usize = 0;
        while i < ips.len()
            invariant
                i <= ips.len(),
                self.wf(),
                ips@ == peer.ips(),
                port == peer.spec_port(),
                !active_below(self@.active, *peer, i as int),
            decreases ips.len() - i,
        {
            let addr = SocketAddr::new(ips[i], port);
            if self.active.contains_key(&addr) {
                assert(peer.ips()[i as int] == ips@[i as int]);
                return Some(addr);
            }
            i += 1;
        }
        None
    }

    /// Whether an address of a peer is connected.
    pub fn is_active_peer(&self, peer: &ResolvedPeerAddress) -> (b: bool)
        requires
            self.wf(),
        ensures
            b == is_active(self@.active, *peer),
            b == exists|i: int|
                0 <= i < peer.ips().len() && self@.active.contains_key(
                    SocketAddr {
                        ip: #[trigger] peer.ips()[i],
                        port: peer.spec_port(),
                        flowinfo: 0,
                        scope_id: 0,
                    },
                ),
    {
        self.first_active(peer).is_some()
    }

    /// Connects to a peer. It is stored and known first, whether or not it is reached
    /// then; where it cannot be stored, nothing else happens. `store` stores a peer,
    /// `connect` asks the endpoint for a connection, and `open` makes a handle of one;
    /// it is told the addresses that were not passed over.
    pub fn connect_peer<C, E, S, F, G>(
        &mut self,
        peer: ResolvedPeerAddress,
        store: S,
        connect: F,
        open: G,
    ) -> (result: Result<(), ConnectFailure<E>>) where
        S: FnOnce(&PeerAddress) -> Result<(), E>,
        F: Fn(SocketAddr, &String) -> Result<C, ConnectError>,
        G: FnOnce(C, ResolvedPeerAddress) -> H,

        requires
            old(self).wf(),
            forall|address: &PeerAddress| call_requires(store, (address,)),
            forall|addr: SocketAddr, name: &String| call_requires(connect, (addr, name)),
            forall|connection: C, rest: ResolvedPeerAddress|
                call_requires(open, (connection, rest)),
        ensures
            final(self).wf(),
            stores_and_connects(old(self)@, final(self)@, peer, store, connect, open, result),
    {
        let address = peer.as_peer_address();
        let stored = store(&address);
        assert(call_ensures(store, (&address,), stored));
        match stored {
            Ok(()) => {},
            Err(error) => return Err(ConnectFailure::Store(error)),
        }
        self.known.insert(address);
        if let Some(addr) = self.first_active(&peer) {
            return Err(
                ConnectFailure::Peer(ConnectPeerError::AlreadyConnected(AlreadyConnected(addr))),
            );
        }
        match dial(&connect, peer) {
            Ok((addr, connection, rest)) => {
                let ghost (c, r) = (connection, rest);
                let handle = open(connection, rest);
                assert(call_ensures(open, (c, r), handle));
                match self.add_active_peer(addr, handle) {
                    Ok(()) => Ok(()),
                    Err(error) => Err(
                        ConnectFailure::Peer(ConnectPeerError::AlreadyConnected(error)),
                    ),
                }
            },
            Err(error) => Err(ConnectFailure::Peer(error)),
        }
    }

    /// Dials a known peer whose addresses have been looked up. Returns whether a
    /// connection started: it does not where the peer is connected already, and then
    /// nothing is stored.
    pub fn dial_known_peer<C, E, S, F, G>(
        &mut self,
        peer: ResolvedPeerAddress,
        store: S,
        connect: F,
        open: G,
    ) -> (dialed: Result<bool, ConnectFailure<E>>) where
        S: FnOnce(&PeerAddress) -> Result<(), E>,
        F: Fn(SocketAddr, &String) -> Result<C, ConnectError>,
        G: FnOnce(C, ResolvedPeerAddress) -> H,

        requires
            old(self).wf(),
            forall|address: &PeerAddress| call_requires(store, (address,)),
            forall|addr: SocketAddr, name: &String| call_requires(connect, (addr, name)),
            forall|connection: C, rest: ResolvedPeerAddress|
                call_requires(open, (connection, rest)),
        ensures
            final(self).wf(),
            if is_active(old(self)@.active, peer) {
                dialed == Ok::<bool, ConnectFailure<E>>(false) && final(self)@ == old(self)@
            } else {
                let result = match dialed {
                    Ok(_) => Ok(()),
                    Err(error) => Err(error),
                };
                &&& dialed matches Ok(started) ==> started
                &&& stores_and_connects(
                    old(self)@,
                    final(self)@,
                    peer,
                    store,
                    connect,
                    open,
                    result,
                )
            },
    {
        if self.is_active_peer(&peer) {
            return Ok(false);
        }
        match self.connect_peer(peer, store, connect, open) {
            Ok(()) => Ok(true),
            Err(error) => Err(error),
        }
    }
}

/// How a connection is refused: with this code and for this reason.
#[derive(Clone, Copy, Debug, PartialEq, Eq)]
pub struct Refusal {
    pub code: u32,
    pub reason: &'static str,
}

impl<H> Net<H> {
    /// How an incoming connection from an address is refused, where there is a
    /// connection to that address already.
    pub fn refuse_incoming(&self, addr: SocketAddr) -> (refusal: Option<Refusal>)
        requires
            self.wf(),
        ensures
            match refusal {
                Some(refused) => self@.active.contains_key(addr) && refused.code == 1
                    && refused.reason@ == "already connected"@,
                None => !self@.active.contains_key(addr),
            },
    {
        if self.active.contains_key(&addr) {
            Some(Refusal { code: 1, reason: "already connected" })
        } else {
            None
        }
    }

    /// Takes an incoming connection in, unless it was closed meanwhile, as one is
    /// that was refused. `open` makes a handle of it. Returns the address where a
    /// connection was added.
    pub fn accept_incoming<G: FnOnce(ResolvedPeerAddress) -> H>(
        &mut self,
        addr: SocketAddr,
        closed: bool,
        open: G,
    ) -> (accepted: Result<Option<SocketAddr>, AlreadyConnected>)
        requires
            old(self).wf(),
            call_requires(open, (ResolvedPeerAddress::Static(addr),)),
        ensures
            final(self).wf(),
            if closed {
                accepted == Ok::<Option<SocketAddr>, AlreadyConnected>(None) && final(self)@
                    == old(self)@
            } else if old(self)@.active.contains_key(addr) {
                accepted == Err::<Option<SocketAddr>, AlreadyConnected>(AlreadyConnected(addr))
                    && final(self)@ == old(self)@
            } else {
                &&& accepted == Ok::<Option<SocketAddr>, AlreadyConnected>(Some(addr))
                &&& exists|handle: H| #[trigger]
                    call_ensures(open, (ResolvedPeerAddress::Static(addr),), handle)
                        && final(self)@ == (NetView {
                        active: old(self)@.active.insert(addr, handle),
                        ..old(self)@
                    })
            },
    {
        if closed {
            return Ok(None);
        }
        let handle = open(ResolvedPeerAddress::from(addr));
        assert(call_ensures(open, (ResolvedPeerAddress::Static(addr),), handle));
        match self.add_active_peer(addr, handle) {
            Ok(()) => Ok(Some(addr)),
            Err(error) => Err(error),
        }
    }
}

/// To connect to a peer touches no connection that there is, and forgets no peer.
/// To connect to a known one changes nothing of what is known.
pub proof fn connecting_keeps_every_connection<
    H,
    C,
    F: Fn(SocketAddr, &String) -> Result<C, ConnectError>,
    G: FnOnce(C, ResolvedPeerAddress) -> H,
>(
    before: NetView<H>,
    after: NetView<H>,
    peer: ResolvedPeerAddress,
    connect: F,
    open: G,
    result: Result<(), ConnectPeerError>,
)
    requires
        connects(before, after, peer, connect, open, result),
    ensures
        forall|addr: SocketAddr| #[trigger]
            before.active.contains_key(addr) ==> after.active.contains_key(addr)
                && after.active[addr] == before.active[addr],
        before.known.subset_of(after.known),
        after.known.contains(peer.peer_view()),
        before.known.contains(peer.peer_view()) ==> after.known == before.known,
{
    if before.known.contains(peer.peer_view()) {
        assert(after.known =~= before.known);
    }
    if !is_active(before.active, peer) && result is Ok {
        let (addr, connection, rest, handle) = choose|
            addr: SocketAddr,
            connection: C,
            rest: ResolvedPeerAddress,
            handle: H,
        |
            #![trigger call_ensures(open, (connection, rest), handle),
                before.active.insert(addr, handle)]
            dials(connect, peer, Ok((addr, connection, rest))) && call_ensures(
                open,
                (connection, rest),
                handle,
            ) && after.active == before.active.insert(addr, handle);
        a_peer_is_reached_at_its_address(connect, peer, addr, connection, rest);
        let n = choose|n: int| 0 <= n < peer.ips().len() && peer.ips()[n] == addr.ip;
        assert(!before.active.contains_key(SocketAddr::at(peer.ips()[n], peer.spec_port())));
    }
}

/// A peer that was connected to is connected: the known peer is not dialed again,
/// and to connect to it again is an error. There is then one connection more.
pub proof fn a_connected_peer_is_not_dialed_again<
    H,
    C,
    F: Fn(SocketAddr, &String) -> Result<C, ConnectError>,
    G: FnOnce(C, ResolvedPeerAddress) -> H,
>(
    before: NetView<H>,
    after: NetView<H>,
    peer: ResolvedPeerAddress,
    connect: F,
    open: G,
)
    requires
        before.active.dom().finite(),
        connects(before, after, peer, connect, open, Ok(())),
    ensures
        is_active(after.active, peer),
        after.active.len() == before.active.len() + 1,
{
    let (addr, connection, rest, handle) = choose|
        addr: SocketAddr,
        connection: C,
        rest: ResolvedPeerAddress,
        handle: H,
    |
        #![trigger call_ensures(open, (connection, rest), handle),
            before.active.insert(addr, handle)]
        dials(connect, peer, Ok((addr, connection, rest))) && call_ensures(
            open,
            (connection, rest),
            handle,
        ) && after.active == before.active.insert(addr, handle);
    a_peer_is_reached_at_its_address(connect, peer, addr, connection, rest);
    let n = choose|n: int| 0 <= n < peer.ips().len() && peer.ips()[n] == addr.ip;
    assert(!before.active.contains_key(SocketAddr::at(peer.ips()[n], peer.spec_port())));
    assert(after.active.contains_key(SocketAddr::at(peer.ips()[n], peer.spec_port())));
}

/// A peer at one address is dialed again once its connection is dropped.
pub proof fn a_lost_peer_is_dialed_again<H>(active: Map<SocketAddr, H>, addr: SocketAddr)
    ensures
        !is_active(
            active.remove(SocketAddr::at(addr.ip, addr.port)),
            ResolvedPeerAddress::Static(addr),
        ),
{
}

/// Whether an address is among these.
fn contains_addr(addrs: &Vec<SocketAddr>, addr: &SocketAddr) -> (b: bool)
    ensures
        b == addrs@.contains(*addr),
{
    let mut i: usize = 0;
    while i < addrs.len()
        invariant
            i <= addrs.len(),
            forall|j: int| 0 <= j < i ==> addrs@[j] != *addr,
        decreases addrs.len() - i,
    {
        if addrs[i].same(addr) {
            assert(addrs@[i as int] == *addr);
            return true;
        }
        i += 1;
    }
    false
}

/// A listing of the connections tells each of them once, with a status that its own
/// handle gives, and no other address.
pub proof fn each_connection_is_reported_once<H, S: Fn(&H) -> PeerConnectionStatus>(
    active: Map<SocketAddr, H>,
    status: S,
    peers: Seq<Peer>,
)
    requires
        active.dom().finite(),
        reports(active, status, peers),
    ensures
        peers.len() == active.len(),
        forall|i: int, j: int| 0 <= i < j < peers.len() ==> peers[i].address != peers[j].address,
        forall|i: int|
            0 <= i < peers.len() ==> active.contains_key((#[trigger] peers[i]).address)
                && call_ensures(status, (&active[peers[i].address],), peers[i].status),
        forall|addr: SocketAddr| #[trigger]
            active.contains_key(addr) ==> exists|i: int|
                0 <= i < peers.len() && (#[trigger] peers[i]).address == addr,
{
    let told = peers.map_values(|peer: Peer| peer.address);
    assert(told.no_duplicates()) by {
        assert forall|i: int, j: int| 0 <= i < j < told.len() implies told[i] != told[j] by {
            assert(peers[i].address != peers[j].address);
        }
    }
    told.unique_seq_to_set();
    assert forall|addr: SocketAddr| told.to_set().contains(addr) implies active.dom().contains(
        addr,
    ) by {
        let k = choose|k: int| 0 <= k < told.len() && told[k] == addr;
        assert(active.contains_key(peers[k].address));
    }
    vstd::set_lib::lemma_subset_equality(told.to_set(), active.dom());
    assert forall|addr: SocketAddr| #[trigger] active.contains_key(addr) implies exists|i: int|
        0 <= i < peers.len() && (#[trigger] peers[i]).address == addr by {
        assert(told.to_set().contains(addr));
        let k = choose|k: int| 0 <= k < told.len() && told[k] == addr;
        assert(peers[k].address == addr);
    }
}

/// To connect to a stored peer makes it known, and has one of three ends. An address of
/// the peer has a connection, and the first such address is the error. Or none has, and
/// dialing fails, which is the error. Or none has, and dialing gives a connection,
/// whose handle is added under the address that was reached. No other connection comes
/// or goes.
pub proof fn connecting_has_one_of_three_ends<
    H,
    C,
    F: Fn(SocketAddr, &String) -> Result<C, ConnectError>,
    G: FnOnce(C, ResolvedPeerAddress) -> H,
>(
    before: NetView<H>,
    after: NetView<H>,
    peer: ResolvedPeerAddress,
    connect: F,
    open: G,
    result: Result<(), ConnectPeerError>,
)
    requires
        connects(before, after, peer, connect, open, result),
    ensures
        after.magic_bytes == before.magic_bytes,
        after.version == before.version,
        after.known == before.known.insert(
            PeerAddressView { host: peer.host_view(), port: peer.spec_port() },
        ),
        result is Err ==> after.active == before.active,
        match result {
            Err(ConnectPeerError::AlreadyConnected(AlreadyConnected(addr))) => exists|n: int|
                0 <= n < peer.ips().len() && before.active.contains_key(addr) && addr == (
                SocketAddr {
                    ip: #[trigger] peer.ips()[n],
                    port: peer.spec_port(),
                    flowinfo: 0,
                    scope_id: 0,
                }) && forall|i: int|
                    0 <= i < n ==> !before.active.contains_key(
                        SocketAddr {
                            ip: #[trigger] peer.ips()[i],
                            port: peer.spec_port(),
                            flowinfo: 0,
                            scope_id: 0,
                        },
                    ),
            _ => forall|i: int|
                0 <= i < peer.ips().len() ==> !before.active.contains_key(
                    SocketAddr {
                        ip: #[trigger] peer.ips()[i],
                        port: peer.spec_port(),
                        flowinfo: 0,
                        scope_id: 0,
                    },
                ),
        },
        match result {
            Ok(()) => exists|addr: SocketAddr, connection: C, rest: ResolvedPeerAddress, handle: H|
                #![trigger call_ensures(open, (connection, rest), handle),
                    before.active.insert(addr, handle)]
                dials(connect, peer, Ok((addr, connection, rest))) && call_ensures(
                    open,
                    (connection, rest),
                    handle,
                ) && after.active == before.active.insert(addr, handle),
            Err(ConnectPeerError::AlreadyConnected(_)) => true,
            Err(error) => dials::<C, F>(connect, peer, Err(error)),
        },
{
    if is_active(before.active, peer) {
        let n = choose|n: int|
            {
                let addr = SocketAddr::at(#[trigger] peer.ips()[n], peer.spec_port());
                &&& 0 <= n < peer.ips().len()
                &&& before.active.contains_key(addr)
                &&& !active_below(before.active, peer, n)
                &&& result == Err::<(), ConnectPeerError>(
                    ConnectPeerError::AlreadyConnected(AlreadyConnected(addr)),
                )
            };
        let here = peer.ips()[n];
        assert forall|i: int| 0 <= i < n implies !before.active.contains_key(
            SocketAddr {
                ip: #[trigger] peer.ips()[i],
                port: peer.spec_port(),
                flowinfo: 0,
                scope_id: 0,
            },
        ) by {
            assert(SocketAddr::at(peer.ips()[i], peer.spec_port()) == (SocketAddr {
                ip: peer.ips()[i],
                port: peer.spec_port(),
                flowinfo: 0,
                scope_id: 0,
            }));
        }
    } else {
        assert forall|i: int| 0 <= i < peer.ips().len() implies !before.active.contains_key(
            SocketAddr {
                ip: #[trigger] peer.ips()[i],
                port: peer.spec_port(),
                flowinfo: 0,
                scope_id: 0,
            },
        ) by {
            assert(!before.active.contains_key(
                SocketAddr::at(peer.ips()[i], peer.spec_port()),
            ));
        }
    }
}

/// A peer is stored before anything else happens to it. Where it cannot be stored,
/// nothing does. What is stored is the address of the peer.
pub proof fn a_peer_is_stored_first<
    H,
    C,
    E,
    S: FnOnce(&PeerAddress) -> Result<(), E>,
    F: Fn(SocketAddr, &String) -> Result<C, ConnectError>,
    G: FnOnce(C, ResolvedPeerAddress) -> H,
>(
    before: NetView<H>,
    after: NetView<H>,
    peer: ResolvedPeerAddress,
    store: S,
    connect: F,
    open: G,
    result: Result<(), ConnectFailure<E>>,
)
    requires
        stores_and_connects(before, after, peer, store, connect, open, result),
    ensures
        result matches Err(ConnectFailure::Store(error)) ==> after == before,
        result matches Err(ConnectFailure::Store(error)) ==> exists|address: PeerAddress| #[trigger]
            call_ensures(store, (&address,), Err::<(), E>(error)) && address@ == (
            PeerAddressView { host: peer.host_view(), port: peer.spec_port() }),
        result matches Err(ConnectFailure::Peer(error)) ==> connects(
            before,
            after,
            peer,
            connect,
            open,
            Err(error),
        ),
        result is Ok ==> connects(before, after, peer, connect, open, Ok(())),
        !(result matches Err(ConnectFailure::Store(_))) ==> exists|
            address: PeerAddress,
            stored: Result<(), E>,
        | #[trigger]
            call_ensures(store, (&address,), stored) && stored is Ok && address@ == (
            PeerAddressView { host: peer.host_view(), port: peer.spec_port() }),
{
    let (address, stored) = choose|address: PeerAddress, stored: Result<(), E>| #[trigger]
        call_ensures(store, (&address,), stored) && address@ == peer.peer_view() && match stored {
            Err(error) => after == before && result == Err::<(), ConnectFailure<E>>(
                ConnectFailure::Store(error),
            ),
            Ok(()) => match result {
                Ok(()) => connects(before, after, peer, connect, open, Ok(())),
                Err(ConnectFailure::Peer(error)) => connects(
                    before,
                    after,
                    peer,
                    connect,
                    open,
                    Err(error),
                ),
                Err(ConnectFailure::Store(_)) => false,
            },
        };
    let view = PeerAddressView { host: peer.host_view(), port: peer.spec_port() };
    assert(address@ == view);
    match result {
        Err(ConnectFailure::Store(error)) => {
            assert(stored == Err::<(), E>(error));
            assert(call_ensures(store, (&address,), Err::<(), E>(error)));
        },
        _ => {
            assert(call_ensures(store, (&address,), stored));
        },
    }
}

} // verus!
