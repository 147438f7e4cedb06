//! The peers that every node of a network knows from the start.

use vstd::prelude::*;

use crate::net::addr::{Host, HostView, PeerAddress, PeerAddressView, DEFAULT_PORT};

verus! {

/// The networks of the sidechain.
#[derive(Clone, Copy, Debug, PartialEq, Eq)]
pub enum Network {
    Alphanet,
    Signet,
    Regtest,
    Forknet,
}

/// A seed that is named by its domain.
pub open spec fn domain_seed(name: Seq<char>) -> PeerAddressView {
    PeerAddressView { host: HostView::Domain(name), port: DEFAULT_PORT }
}

/// A seed that is named by its IPv4 address.
pub open spec fn ipv4_seed(bytes: [u8; 4]) -> PeerAddressView {
    PeerAddressView { host: HostView::Ipv4(bytes), port: DEFAULT_PORT }
}

/// The seeds of a network.
pub open spec fn seed_peers(network: Network) -> Seq<PeerAddressView> {
    match network {
        Network::Alphanet => seq![domain_seed("seed.alpha.ecash.eu.com"@)],
        Network::Signet => seq![
            ipv4_seed([172u8, 105, 148, 135]),
            domain_seed("thunder.bip300.xyz"@),
        ],
        Network::Regtest => seq![],
        Network::Forknet => seq![
            domain_seed("explorer.bip300.xyz"@),
            ipv4_seed([157u8, 180, 8, 224]),
        ],
    }
}

/// The addresses, one by one, taken by their views.
pub open spec fn peer_views(peers: Seq<PeerAddress>) -> Seq<PeerAddressView> {
    peers.map_values(|peer: PeerAddress| peer@)
}

/// A peer that listens on the default port of a named host.
fn domain_peer(name: &str) -> (peer: PeerAddress)
    ensures
        peer@ == domain_seed(name@),
{
    PeerAddress { host: Host::Domain(name.to_owned()), port: DEFAULT_PORT }
}

/// A peer that listens on the default port of an IPv4 address.
fn ipv4_peer(bytes: [u8; 4]) -> (peer: PeerAddress)
    ensures
        peer@ == ipv4_seed(bytes),
{
    PeerAddress { host: Host::Ipv4(bytes), port: DEFAULT_PORT }
}

/// The seeds of a network.
pub fn seed_peer_addrs(network: Network) -> (peers: Vec<PeerAddress>)
    ensures
        peer_views(peers@) == seed_peers(network),
{
    let mut peers: Vec<PeerAddress> = Vec::new();
    match network {
        Network::Alphanet => {
            peers.push(domain_peer("seed.alpha.ecash.eu.com"));
        },
        Network::Signet => {
            peers.push(ipv4_peer([172, 105, 148, 135]));
            peers.push(domain_peer("thunder.bip300.xyz"));
        },
        Network::Regtest => {},
        Network::Forknet => {
            peers.push(domain_peer("explorer.bip300.xyz"));
            peers.push(ipv4_peer([157, 180, 8, 224]));
        },
    }
    assert(peer_views(peers@) =~= seed_peers(network));
    peers
}

/// The seeds of each network. All of them listen on port 4009.
pub proof fn each_network_has_these_seeds()
    ensures
        seed_peers(Network::Alphanet) == seq![
            PeerAddressView { host: HostView::Domain("seed.alpha.ecash.eu.com"@), port: 4009 },
        ],
        seed_peers(Network::Signet) == seq![
            PeerAddressView { host: HostView::Ipv4([172u8, 105, 148, 135]), port: 4009 },
            PeerAddressView { host: HostView::Domain("thunder.bip300.xyz"@), port: 4009 },
        ],
        seed_peers(Network::Regtest) == Seq::<PeerAddressView>::empty(),
        seed_peers(Network::Forknet) == seq![
            PeerAddressView { host: HostView::Domain("explorer.bip300.xyz"@), port: 4009 },
            PeerAddressView { host: HostView::Ipv4([157u8, 180, 8, 224]), port: 4009 },
        ],
{
}

/// The views of addresses are those of each address, at its place.
pub proof fn each_address_has_its_view(peers: Seq<PeerAddress>, i: int)
    ensures
        peer_views(peers).len() == peers.len(),
        0 <= i < peers.len() ==> peer_views(peers)[i] == peers[i]@,
{
}

} // verus!
