use std::cell::RefCell;
use std::sync::Arc;

use futures::channel::mpsc;
use futures::StreamExt;
use thunder_wallet::net::addr::{
    finish_resolution, start_resolution, Host, IpAddr, NoIpAddrs, PeerAddress, Resolution,
    ResolvedPeerAddress, SocketAddr, DEFAULT_PORT,
};
use thunder_wallet::net::dial::{
    dial, server_name_of, AlreadyConnected, ConnectError, ConnectPeerError,
};
use thunder_wallet::net::known::KnownPeers;
use thunder_wallet::net::node::{
    ConnectFailure, IncompatibleVersion, Net, Peer, PeerConnectionStatus, Refusal, StoredNet,
};
use thunder_wallet::net::redial::{
    DialRound, Redial, RedialAction, RedialEvent, LONGEST_DELAY,
};
use thunder_wallet::net::seeds::{seed_peer_addrs, Network};
use thunder_wallet::net::server::{certificate_names, SkipServerVerification};
use thunder_wallet::types::Version;
use tokio_stream::StreamNotifyClose;

const VERSION: Version = Version { major: 0, minor: 17, patch: 6 };

const LOCALHOST: IpAddr = IpAddr::V4([127, 0, 0, 1]);
const LOCALHOST_V6: IpAddr = IpAddr::V6([0, 0, 0, 0, 0, 0, 0, 0, 0, 0, 0, 0, 0, 0, 0, 1]);

fn ipv6(last: u8) -> IpAddr {
    let mut bytes = [0; 16];
    bytes[15] = last;
    IpAddr::V6(bytes)
}

fn at(ip: IpAddr, port: u16) -> SocketAddr {
    SocketAddr::new(ip, port)
}

/// The handle of a connection in these tests: a status, and the addresses that
/// the connection was told of.
#[derive(Clone, Debug, PartialEq)]
struct Handle {
    status: PeerConnectionStatus,
    told: Vec<IpAddr>,
}

fn status(handle: &Handle) -> PeerConnectionStatus {
    handle.status
}

fn connected() -> Handle {
    Handle { status: PeerConnectionStatus::Connected, told: Vec::new() }
}

fn connecting() -> Handle {
    Handle { status: PeerConnectionStatus::Connecting, told: Vec::new() }
}

/// An endpoint on an IPv4 socket.
fn ipv4_endpoint(addr: SocketAddr, _name: &String) -> Result<SocketAddr, ConnectError> {
    match addr.ip {
        IpAddr::V4(_) => Ok(addr),
        IpAddr::V6(_) => Err(ConnectError::InvalidRemoteAddress(addr)),
    }
}

fn closed_endpoint(_addr: SocketAddr, _name: &String) -> Result<SocketAddr, ConnectError> {
    Err(ConnectError::EndpointStopping)
}

fn open(_connection: SocketAddr, rest: ResolvedPeerAddress) -> Handle {
    Handle { status: PeerConnectionStatus::Connecting, told: rest.ip_addrs() }
}

/// A store that always takes a peer.
fn store(_peer: &PeerAddress) -> Result<(), String> {
    Ok(())
}

fn temp_net() -> Net<Handle> {
    let stored = StoredNet { known: Vec::new(), version: None };
    Net::new(stored, VERSION, Network::Regtest, Vec::new(), None, [1, 2, 3, 4]).unwrap()
}

fn named(domain: &str, port: u16) -> PeerAddress {
    PeerAddress { host: Host::Domain(domain.to_owned()), port }
}

/// A connection that reports nothing until its handle is dropped.
fn reporting() -> (mpsc::UnboundedSender<()>, mpsc::UnboundedReceiver<()>) {
    mpsc::unbounded()
}

#[test]
fn rejected_duplicate_has_no_peer_close_event() {
    let stored = StoredNet { known: Vec::new(), version: None };
    let mut net: Net<mpsc::UnboundedSender<()>> =
        Net::new(stored, VERSION, Network::Regtest, Vec::new(), None, [1, 2, 3, 4]).unwrap();
    // What each added connection reports, and then its end.
    let mut reports = Vec::new();
    let addr = at(LOCALHOST, 5000);
    let (handle, info) = reporting();
    net.connect_peer(addr.into(), store, ipv4_endpoint, |_, _| handle).unwrap();
    reports.push(StreamNotifyClose::new(info));

    let (duplicate, duplicate_info) = reporting();
    let added = net.add_active_peer(addr, duplicate);
    if added.is_ok() {
        reports.push(StreamNotifyClose::new(duplicate_info));
    }
    let error = added.unwrap_err();
    assert_eq!(error.0, addr);
    let connecting = |_: &mpsc::UnboundedSender<()>| PeerConnectionStatus::Connecting;
    assert_eq!(net.get_active_peers(connecting).len(), 1);
    drop(net);

    let events: Vec<Option<()>> =
        futures::executor::block_on(futures::stream::iter(reports).flatten().collect());
    assert_eq!(events.iter().filter(|info| info.is_none()).count(), 1);
}

#[test]
fn a_duplicate_leaves_the_first_connection() {
    let mut net = temp_net();
    let addr = at(LOCALHOST, 5000);
    net.connect_peer(addr.into(), store, ipv4_endpoint, open).unwrap();
    assert_eq!(net.add_active_peer(addr, connected()), Err(AlreadyConnected(addr)));
    let told = net.try_with_active_peer_connection(addr, |handle: &Handle| handle.told.clone());
    assert_eq!(told, Some(vec![LOCALHOST]));
}

#[test]
fn connect_peer_skips_ipv6_on_an_ipv4_endpoint() {
    let mut net = temp_net();
    let addr = at(LOCALHOST, 5001);
    let next_ip = IpAddr::V4([127, 0, 0, 2]);
    let resolved = ResolvedPeerAddress::Domain {
        domain: "localhost".to_owned(),
        port: addr.port,
        addrs: nonempty::NonEmpty { head: next_ip, tail: vec![LOCALHOST, LOCALHOST_V6] },
    };

    net.connect_peer(resolved, store, ipv4_endpoint, open).unwrap();

    let peers = net.get_active_peers(status);
    assert_eq!(peers.len(), 1);
    assert_eq!(peers[0].address, addr);
    let told = net.try_with_active_peer_connection(addr, |handle: &Handle| handle.told.clone());
    assert_eq!(told, Some(vec![LOCALHOST, next_ip]));
}

#[test]
fn connect_peer_returns_the_last_invalid_address() {
    let mut net = temp_net();
    let addr = at(LOCALHOST_V6, 4009);
    let resolved = ResolvedPeerAddress::Domain {
        domain: "localhost".to_owned(),
        port: addr.port,
        addrs: nonempty::NonEmpty { head: addr.ip, tail: vec![ipv6(2)] },
    };

    let error = net.connect_peer(resolved, store, ipv4_endpoint, open).unwrap_err();

    assert!(matches!(
        error,
        ConnectFailure::Peer(ConnectPeerError::Connect(
            ConnectError::InvalidRemoteAddress(failed)
        )) if failed == addr
    ));
    assert!(net.get_active_peers(status).is_empty());
}

#[test]
fn connect_peer_keeps_a_static_ipv4_address() {
    let mut net = temp_net();
    let addr = at(LOCALHOST, 5002);

    net.connect_peer(addr.into(), store, ipv4_endpoint, open).unwrap();

    let peers = net.get_active_peers(status);
    assert_eq!(peers.len(), 1);
    assert_eq!(peers[0].address, addr);
}

#[test]
fn connect_peer_returns_other_quinn_errors() {
    let mut net = temp_net();
    let addr = at(LOCALHOST, 4009);

    let error = net.connect_peer(addr.into(), store, closed_endpoint, open).unwrap_err();

    assert!(matches!(
        error,
        ConnectFailure::Peer(ConnectPeerError::Connect(ConnectError::EndpointStopping))
    ));
    assert!(net.get_active_peers(status).is_empty());
    // The peer is known all the same.
    assert_eq!(
        net.known_peer_addrs(),
        vec![PeerAddress { host: Host::Ipv4([127, 0, 0, 1]), port: 4009 }]
    );
}

/// A peer that drops leaves no connection, so the node dials it again.
#[test]
fn a_lost_peer_is_dialed_again() {
    let mut net = temp_net();
    let addr = at(LOCALHOST, 5003);
    net.connect_peer(addr.into(), store, ipv4_endpoint, open).unwrap();
    assert_eq!(net.get_active_peers(status).len(), 1);
    net.remove_active_peer(addr);
    assert!(net.get_active_peers(status).is_empty());

    let mut redial = Redial::new(50, 200);
    assert!(!redial.check(net.num_active_peers()));
    assert!(redial.check(net.num_active_peers()));
    for peer in net.known_peer_addrs() {
        let Resolution::Done(resolved) = start_resolution(peer) else {
            panic!("the peer has an IP address");
        };
        assert_eq!(net.dial_known_peer(resolved, store, ipv4_endpoint, open), Ok(true));
    }
    assert_eq!(net.get_active_peers(status)[0].address, addr);
}

/// A peer that holds a connection takes no redial.
#[test]
fn a_connected_peer_takes_no_redial() {
    let mut net = temp_net();
    let addr = at(LOCALHOST, 5004);
    net.connect_peer(addr.into(), store, ipv4_endpoint, open).unwrap();

    assert!(net.is_active_peer(&addr.into()));
    assert_eq!(net.dial_known_peer(addr.into(), store, ipv4_endpoint, open), Ok(false));
    let mut round = net.dial_known_peers();
    while let Some(peer) = round.next_peer() {
        let Resolution::Done(resolved) = start_resolution(peer) else {
            panic!("the peer has an IP address");
        };
        let outcome = net.dial_known_peer(resolved, store, ipv4_endpoint, open);
        round.dialed(&outcome);
    }
    assert_eq!(round.started(), 0);
    let mut redial = Redial::new(50, 200);
    for _ in 0..5 {
        assert!(!redial.check(net.num_active_peers()));
    }
    let peers = net.get_active_peers(status);
    assert_eq!(peers.len(), 1);
    assert_eq!(peers[0].address, addr);
}

/// Every seed reaches a peer table that already exists, and a second call
/// writes the same set.
#[test]
fn seeds_reach_an_existing_database() {
    let network = Network::Alphanet;
    let mut known_peers = KnownPeers::new();
    known_peers.ensure_seed_peers(network);
    known_peers.ensure_seed_peers(network);
    for seed_peer_addr in seed_peer_addrs(network) {
        assert!(known_peers.contains(&seed_peer_addr));
    }
    assert_eq!(known_peers.len(), seed_peer_addrs(network).len());
}

/// A seed names a host and a port, and the resolver keeps both.
#[test]
fn a_seed_name_resolves_with_its_port() {
    let Resolution::Lookup { domain, port } = start_resolution(named("localhost", 4009)) else {
        panic!("a name has to be looked up");
    };
    let resolved = finish_resolution(domain, port, &vec![LOCALHOST, LOCALHOST_V6]).unwrap();
    assert_eq!(resolved.port(), 4009);
    assert!(resolved.ip_addrs().iter().any(|addr| *addr == LOCALHOST || *addr == LOCALHOST_V6));
    assert_eq!(resolved.as_peer_address(), named("localhost", 4009));
}

#[test]
fn each_network_has_its_seeds() {
    assert_eq!(
        seed_peer_addrs(Network::Alphanet),
        vec![named("seed.alpha.ecash.eu.com", 4009)]
    );
    assert_eq!(
        seed_peer_addrs(Network::Signet),
        vec![
            PeerAddress { host: Host::Ipv4([172, 105, 148, 135]), port: DEFAULT_PORT },
            named("thunder.bip300.xyz", 4009),
        ]
    );
    assert_eq!(seed_peer_addrs(Network::Regtest), vec![]);
    assert_eq!(
        seed_peer_addrs(Network::Forknet),
        vec![
            named("explorer.bip300.xyz", 4009),
            PeerAddress { host: Host::Ipv4([157, 180, 8, 224]), port: DEFAULT_PORT },
        ]
    );
}

#[test]
fn an_address_needs_no_lookup() {
    let peer = PeerAddress { host: Host::Ipv4([10, 0, 0, 1]), port: 7 };
    assert_eq!(
        start_resolution(peer),
        Resolution::Done(ResolvedPeerAddress::Static(at(IpAddr::V4([10, 0, 0, 1]), 7)))
    );
    let bytes = [0, 0, 0, 0, 0, 0, 0, 0, 0, 0, 0, 0, 0, 0, 0, 1];
    let peer = PeerAddress { host: Host::Ipv6(bytes), port: 8 };
    assert_eq!(
        start_resolution(peer),
        Resolution::Done(ResolvedPeerAddress::Static(at(LOCALHOST_V6, 8)))
    );
}

#[test]
fn found_addresses_are_dialed_in_the_order_found() {
    let (a, b, c) = (IpAddr::V4([1; 4]), IpAddr::V4([2; 4]), IpAddr::V4([3; 4]));
    let found = vec![a, IpAddr::V4([0; 4]), b, IpAddr::V6([0; 16]), c];
    let resolved = finish_resolution("a.test".to_owned(), 9, &found).unwrap();
    assert_eq!(resolved.ip_addrs(), vec![a, b, c]);
    assert_eq!(resolved.first_ip_addr(), a);
    let (first, rest) = resolved.pop_first_ip_addr();
    assert_eq!(first, a);
    let (second, rest) = rest.unwrap().pop_first_ip_addr();
    assert_eq!(second, b);
    let (third, rest) = rest.unwrap().pop_first_ip_addr();
    assert_eq!(third, c);
    assert_eq!(rest, None);
    assert_eq!(
        finish_resolution("b.test".to_owned(), 9, &vec![IpAddr::V4([0; 4])]),
        Err(NoIpAddrs { domain: "b.test".to_owned() })
    );
}

#[test]
fn a_peer_is_dialed_under_its_name() {
    let seen: RefCell<Vec<(SocketAddr, String)>> = RefCell::new(Vec::new());
    let connect = |addr: SocketAddr, name: &String| -> Result<(), ConnectError> {
        seen.borrow_mut().push((addr, name.clone()));
        Err(ConnectError::InvalidRemoteAddress(addr))
    };
    let found = vec![LOCALHOST, LOCALHOST_V6];
    let resolved = finish_resolution("a.test".to_owned(), 9, &found).unwrap();
    assert_eq!(server_name_of(&resolved), "a.test");
    assert!(dial(&connect, resolved).is_err());
    assert_eq!(server_name_of(&at(LOCALHOST, 1).into()), "localhost");
    assert!(dial(&connect, at(LOCALHOST, 1).into()).is_err());
    assert_eq!(
        *seen.borrow(),
        vec![
            (at(LOCALHOST, 9), "a.test".to_owned()),
            (at(LOCALHOST_V6, 9), "a.test".to_owned()),
            (at(LOCALHOST, 1), "localhost".to_owned()),
        ]
    );
}

#[test]
fn an_unspecified_address_is_not_dialed() {
    let mut net = temp_net();
    for ip in [IpAddr::V4([0; 4]), IpAddr::V6([0; 16])] {
        assert_eq!(
            net.connect_peer(at(ip, 1).into(), store, ipv4_endpoint, open),
            Err(ConnectFailure::Peer(ConnectPeerError::UnspecifiedPeerIP(ip)))
        );
    }
    assert_eq!(net.num_active_peers(), 0);
}

#[test]
fn the_first_connected_address_is_named() {
    let mut net = temp_net();
    let (a, b, c) = (IpAddr::V4([1; 4]), IpAddr::V4([2; 4]), IpAddr::V4([3; 4]));
    net.add_active_peer(at(c, 9), connected()).unwrap();
    net.add_active_peer(at(b, 9), connected()).unwrap();
    net.add_active_peer(at(a, 8), connected()).unwrap();
    let resolved = finish_resolution("a.test".to_owned(), 9, &vec![a, b, c]).unwrap();
    assert!(net.is_active_peer(&resolved));
    assert_eq!(
        net.connect_peer(resolved, store, ipv4_endpoint, open),
        Err(ConnectFailure::Peer(ConnectPeerError::AlreadyConnected(AlreadyConnected(at(b, 9)))))
    );
    assert_eq!(net.num_active_peers(), 3);
    assert_eq!(net.known_peer_addrs(), vec![named("a.test", 9)]);
}

#[test]
fn a_duplicate_incoming_connection_is_refused() {
    let mut net = temp_net();
    let addr = at(LOCALHOST, 6000);
    assert_eq!(net.refuse_incoming(addr), None);
    let accepted = net.accept_incoming(addr, false, |peer: ResolvedPeerAddress| Handle {
        status: PeerConnectionStatus::Connected,
        told: peer.ip_addrs(),
    });
    assert_eq!(accepted, Ok(Some(addr)));
    assert_eq!(
        net.refuse_incoming(addr),
        Some(Refusal { code: 1, reason: "already connected" })
    );
    let open = |_: ResolvedPeerAddress| connecting();
    assert_eq!(net.accept_incoming(addr, true, open), Ok(None));
    assert_eq!(net.accept_incoming(addr, false, open), Err(AlreadyConnected(addr)));
    let other = at(LOCALHOST, 6001);
    assert_eq!(net.accept_incoming(other, true, open), Ok(None));
    assert_eq!(
        net.get_active_peers(status),
        vec![Peer { address: addr, status: PeerConnectionStatus::Connected }]
    );
}

#[test]
fn transactions_go_to_active_peers_that_are_not_excluded() {
    let mut net = temp_net();
    let (a, b, c) = (at(LOCALHOST, 1), at(LOCALHOST, 2), at(LOCALHOST, 3));
    net.add_active_peer(a, connected()).unwrap();
    net.add_active_peer(b, connecting()).unwrap();
    net.add_active_peer(c, connected()).unwrap();
    assert_eq!(net.push_tx(&vec![]), vec![a, b, c]);
    assert_eq!(net.push_tx(&vec![c, at(LOCALHOST, 9)]), vec![a, b]);
    assert_eq!(net.push_tx(&vec![a, b, c]), vec![]);
    assert_eq!(net.num_active_peers(), 3);
}

#[test]
fn a_message_reaches_the_connection_it_is_for() {
    let mut net = temp_net();
    let addr = at(LOCALHOST, 1);
    net.add_active_peer(addr, connected()).unwrap();
    let sent: RefCell<Vec<u32>> = RefCell::new(Vec::new());
    let send = |_: &Handle, message: u32| {
        sent.borrow_mut().push(message);
        message != 2
    };
    assert!(net.push_internal_message(1, addr, send));
    assert!(!net.push_internal_message(2, addr, send));
    assert!(!net.push_internal_message(3, at(LOCALHOST, 9), send));
    assert_eq!(*sent.borrow(), vec![1, 2]);
    let none = net.try_with_active_peer_connection(at(LOCALHOST, 9), status);
    assert_eq!(none, None);
}

#[test]
fn a_forgotten_peer_keeps_its_connection() {
    let mut net = temp_net();
    let addr = at(LOCALHOST, 1);
    net.connect_peer(addr.into(), store, ipv4_endpoint, open).unwrap();
    let peer = PeerAddress { host: Host::Ipv4([127, 0, 0, 1]), port: 1 };
    assert!(net.forget_peer(&peer));
    assert!(!net.forget_peer(&peer));
    assert!(net.known_peer_addrs().is_empty());
    assert_eq!(net.num_active_peers(), 1);
}

#[test]
fn a_node_knows_what_is_stored_the_seeds_and_what_is_added() {
    let stored = StoredNet {
        known: vec![named("a.test", 1), named("explorer.bip300.xyz", DEFAULT_PORT)],
        version: Some(VERSION),
    };
    let newer = Version { major: 0, minor: 18, patch: 0 };
    let added = vec![named("a.test", 1), named("a.test", 2)];
    let net: Net<Handle> =
        Net::new(stored, newer, Network::Forknet, added, Some([9; 4]), [1; 4]).unwrap();
    let mut known = net.known_peer_addrs();
    known.sort();
    assert_eq!(
        known,
        vec![
            named("a.test", 1),
            named("a.test", 2),
            named("explorer.bip300.xyz", DEFAULT_PORT),
            PeerAddress { host: Host::Ipv4([157, 180, 8, 224]), port: DEFAULT_PORT },
        ]
    );
    assert_eq!(net.version(), VERSION);
    assert_eq!(net.magic_bytes(), [9; 4]);
    assert_eq!(net.num_active_peers(), 0);
    assert_eq!(temp_net().magic_bytes(), [1, 2, 3, 4]);
    assert_eq!(temp_net().version(), VERSION);
    assert_eq!(Net::<Handle>::NUM_DBS, 2);
}

#[test]
fn a_store_of_an_old_version_is_refused() {
    let open = |version: Version| -> Option<IncompatibleVersion> {
        let stored = StoredNet { known: Vec::new(), version: Some(version) };
        let net: Result<Net<Handle>, IncompatibleVersion> =
            Net::new(stored, VERSION, Network::Regtest, Vec::new(), None, [0; 4]);
        net.err()
    };
    for (major, minor, patch) in [(0, 17, 5), (0, 16, 9), (0, 0, 0)] {
        let version = Version { major, minor, patch };
        assert_eq!(open(version), Some(IncompatibleVersion { version }));
    }
    for (major, minor, patch) in [(0, 17, 6), (0, 17, 7), (0, 18, 0), (1, 0, 0)] {
        assert_eq!(open(Version { major, minor, patch }), None);
    }
}

#[test]
fn the_delay_doubles_up_to_the_greatest_and_falls_back() {
    let mut redial = Redial::new(50, 300);
    let mut delays = Vec::new();
    for _ in 0..6 {
        delays.push(redial.delay);
        if redial.check(0) {
            redial.dialed();
        }
    }
    assert_eq!(delays, vec![50, 50, 100, 200, 300, 300]);
    assert!(!redial.check(1));
    assert_eq!(redial, Redial::new(50, 300));
    // The first check without a connection never dials.
    assert!(!redial.check(0));
    assert!(redial.check(0));
    // A shortest delay above the greatest is cut at the first redial.
    let mut odd = Redial::new(500, 300);
    assert_eq!(odd.delay, 500);
    odd.dialed();
    assert_eq!(odd.delay, 300);
    assert_eq!(LONGEST_DELAY, std::time::Duration::MAX.as_nanos());
}

#[test]
fn only_dials_that_started_a_connection_count() {
    let peers =
        vec![named("a.test", 1), named("b.test", 1), named("c.test", 1), named("d.test", 1)];
    let outcomes = vec![
        Ok(true),
        Err(ConnectPeerError::Connect(ConnectError::CidsExhausted)),
        Ok(false),
        Ok(true),
    ];
    let mut round = DialRound::new(peers.clone());
    let mut dialed = Vec::new();
    for outcome in &outcomes {
        dialed.push(round.next_peer().unwrap());
        round.dialed(outcome);
    }
    assert_eq!(round.next_peer(), None);
    assert_eq!(dialed, peers);
    assert_eq!(round.started(), 2);
    let mut empty = DialRound::new(Vec::new());
    assert_eq!(empty.next_peer(), None);
    assert_eq!(empty.started(), 0);
}

#[test]
fn redialing_ends_on_a_database_error_only() {
    let mut redial = Redial::new(50, 300);
    let waited = |active: usize| -> RedialEvent<String> { RedialEvent::Waited { active } };
    assert_eq!(redial.step(waited(3)), RedialAction::Wait { delay: 50 });
    assert_eq!(redial.step(waited(0)), RedialAction::Wait { delay: 50 });
    assert_eq!(redial.step(waited(0)), RedialAction::Dial);
    assert_eq!(
        redial.step(RedialEvent::<String>::Dialed(Ok(0))),
        RedialAction::Wait { delay: 100 }
    );
    assert_eq!(redial.step(waited(0)), RedialAction::Dial);
    assert_eq!(
        redial.step(RedialEvent::Dialed(Err("no such table".to_owned()))),
        RedialAction::Stop("no such table".to_owned())
    );
    assert_eq!(redial.step(waited(1)), RedialAction::Wait { delay: 50 });
}

#[test]
fn a_certificate_names_localhost_once() {
    let names = |given: &[&str]| {
        let mut names =
            certificate_names(given.iter().map(|name| (*name).to_owned()).collect());
        names.sort();
        names
    };
    assert_eq!(names(&[]), vec!["localhost"]);
    assert_eq!(names(&["localhost"]), vec!["localhost"]);
    assert_eq!(names(&["b.test", "a.test", "b.test"]), vec!["a.test", "b.test", "localhost"]);
    assert_eq!(SkipServerVerification::new(), Arc::new(SkipServerVerification));
}

#[test]
fn known_peers_are_told_apart_by_host_and_port() {
    let mut known = KnownPeers::new();
    known.insert(named("a.test", 1));
    known.insert(named("a.test", 1));
    known.insert(named("a.test", 2));
    known.insert(named("b.test", 1));
    known.insert(PeerAddress { host: Host::Ipv4([1; 4]), port: 1 });
    known.insert(PeerAddress { host: Host::Ipv6([1; 16]), port: 1 });
    assert_eq!(known.len(), 5);
    assert!(known.remove(&named("a.test", 2)));
    assert!(!known.remove(&named("a.test", 2)));
    assert!(!known.contains(&named("a.test", 2)));
    assert!(known.contains(&named("a.test", 1)));
    assert_eq!(known.rows().len(), 4);
}

#[test]
fn a_peer_is_stored_before_it_is_dialed() {
    let mut net = temp_net();
    let addr = at(LOCALHOST, 7000);
    let seen: RefCell<Vec<String>> = RefCell::new(Vec::new());
    let connect = |_: SocketAddr, _: &String| -> Result<(), ConnectError> {
        seen.borrow_mut().push("dialed".to_owned());
        Ok(())
    };
    let full = |_: &PeerAddress| Err("no space".to_owned());
    assert_eq!(
        net.connect_peer(addr.into(), full, connect, |_, _| connected()),
        Err(ConnectFailure::Store("no space".to_owned()))
    );
    assert!(seen.borrow().is_empty());
    assert!(net.known_peer_addrs().is_empty());
    assert_eq!(net.num_active_peers(), 0);

    let store = |peer: &PeerAddress| -> Result<(), String> {
        seen.borrow_mut().push(format!("stored {}", peer.port));
        Ok(())
    };
    assert_eq!(net.dial_known_peer(addr.into(), store, connect, |_, _| connected()), Ok(true));
    assert_eq!(*seen.borrow(), vec!["stored 7000".to_owned(), "dialed".to_owned()]);
    // A peer that is connected is neither stored nor dialed.
    assert_eq!(net.dial_known_peer(addr.into(), store, connect, |_, _| connected()), Ok(false));
    assert_eq!(seen.borrow().len(), 2);
}
