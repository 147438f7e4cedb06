//! Dialing a peer: which of its addresses to connect to.

use vstd::prelude::*;

use crate::net::addr::{dialable, Host, HostView, IpAddr, ResolvedPeerAddress, SocketAddr};

verus! {

/// Why an endpoint refused to start a connection.
#[derive(Debug, PartialEq, Eq)]
pub enum ConnectError {
    /// The endpoint is being closed.
    EndpointStopping,
    /// There is no connection identifier left.
    CidsExhausted,
    /// The name of the server is malformed.
    InvalidServerName(String),
    /// The endpoint cannot reach an address like this one, such as an IPv6
    /// address from an IPv4 socket.
    InvalidRemoteAddress(SocketAddr),
    /// The endpoint was given no configuration for clients.
    NoDefaultClientConfig,
    /// The endpoint does not speak the configured version.
    UnsupportedVersion,
}

/// Another connection to the same address exists.
#[derive(Clone, Copy, Debug, PartialEq, Eq)]
pub struct AlreadyConnected(pub SocketAddr);

/// Why a peer was not connected to.
#[derive(Debug, PartialEq, Eq)]
pub enum ConnectPeerError {
    AlreadyConnected(AlreadyConnected),
    /// The endpoint refused.
    Connect(ConnectError),
    /// The IP address is the unspecified one.
    UnspecifiedPeerIP(IpAddr),
}

/// The name that the certificate of a peer is checked against: its domain, or
/// `localhost` where it has none.
pub open spec fn server_name(host: HostView) -> Seq<char> {
    match host {
        HostView::Domain(domain) => domain,
        HostView::Ipv4(_) | HostView::Ipv6(_) => "localhost"@,
    }
}

/// The name that the certificate of a peer is checked against.
pub fn server_name_of(peer: &ResolvedPeerAddress) -> (name: String)
    ensures
        name@ == server_name(peer.host_view()),
{
    match peer.host() {
        Host::Domain(domain) => domain,
        Host::Ipv4(_) | Host::Ipv6(_) => "localhost".to_owned(),
    }
}

/// The endpoint can answer so when it is asked for a connection to this address,
/// under this name.
pub open spec fn answers<C, F: Fn(SocketAddr, &String) -> Result<C, ConnectError>>(
    connect: F,
    addr: SocketAddr,
    name: Seq<char>,
    answer: Result<C, ConnectError>,
) -> bool {
    exists|s: String| #[trigger] s@ == name && call_ensures(connect, (addr, &s), answer)
}

/// The endpoint can refuse the first `n` addresses of a peer as unreachable. None
/// of them is unspecified.
pub open spec fn skips<C, F: Fn(SocketAddr, &String) -> Result<C, ConnectError>>(
    connect: F,
    peer: ResolvedPeerAddress,
    n: int,
) -> bool {
    &&& 0 <= n <= peer.ips().len()
    &&& forall|i: int|
        0 <= i < n ==> !(#[trigger] peer.ips()[i]).unspecified() && exists|bad: SocketAddr|
            #[trigger]
            answers::<C, F>(
                connect,
                SocketAddr::at(peer.ips()[i], peer.spec_port()),
                server_name(peer.host_view()),
                Err(ConnectError::InvalidRemoteAddress(bad)),
            )
}

/// This comes of dialing a peer. Its addresses are tried in order. The first one
/// that is unspecified is an error. One that the endpoint cannot reach is passed
/// over, unless it is the last; every other answer of the endpoint ends the
/// search. A connection comes with its address and with the addresses that were
/// not passed over.
pub open spec fn dials<C, F: Fn(SocketAddr, &String) -> Result<C, ConnectError>>(
    connect: F,
    peer: ResolvedPeerAddress,
    result: Result<(SocketAddr, C, ResolvedPeerAddress), ConnectPeerError>,
) -> bool {
    let name = server_name(peer.host_view());
    exists|n: int| #[trigger]
        skips::<C, F>(connect, peer, n) && n < peer.ips().len() && {
            let addr = SocketAddr::at(peer.ips()[n], peer.spec_port());
            match result {
                Ok((reached, connection, rest)) => {
                    &&& !peer.ips()[n].unspecified()
                    &&& answers(connect, addr, name, Ok(connection))
                    &&& reached == addr
                    &&& rest.ips() == peer.ips().skip(n)
                    &&& rest.spec_port() == peer.spec_port()
                    &&& rest.host_view() == peer.host_view()
                    &&& n == 0 ==> rest == peer
                },
                Err(ConnectPeerError::UnspecifiedPeerIP(ip)) => ip == peer.ips()[n]
                    && ip.unspecified(),
                Err(ConnectPeerError::Connect(error)) => {
                    &&& !peer.ips()[n].unspecified()
                    &&& answers::<C, F>(connect, addr, name, Err(error))
                    &&& error is InvalidRemoteAddress ==> n == peer.ips().len() - 1
                },
                Err(ConnectPeerError::AlreadyConnected(_)) => false,
            }
        }
}

/// Dials a peer. `connect` asks the endpoint for a connection.
pub fn dial<C, F: Fn(SocketAddr, &String) -> Result<C, ConnectError>>(
    connect: &F,
    peer: ResolvedPeerAddress,
) -> (result: Result<(SocketAddr, C, ResolvedPeerAddress), ConnectPeerError>)
    requires
        forall|addr: SocketAddr, name: &String| call_requires(*connect, (addr, name)),
    ensures
        dials(*connect, peer, result),
{
    let ghost mut n: int = 0;
    let mut left = peer;
    let port = left.port();
    let name = server_name_of(&left);
    loop
        invariant
            forall|addr: SocketAddr, name: &String| call_requires(*connect, (addr, name)),
            skips::<C, F>(*connect, peer, n),
            n < peer.ips().len() || n == 0,
            left.ips() == peer.ips().skip(n),
            left.spec_port() == peer.spec_port(),
            left.host_view() == peer.host_view(),
            n == 0 ==> left == peer,
            port == peer.spec_port(),
            name@ == server_name(peer.host_view()),
        decreases left.ips().len(),
    {
        let ip = left.first_ip_addr();
        let addr = SocketAddr::new(ip, port);
        assert(peer.ips()[n] == ip);
        if ip.is_unspecified() {
            return Err(ConnectPeerError::UnspecifiedPeerIP(ip));
        }
        let answer = connect(addr, &name);
        assert(answers(*connect, addr, name@, answer));
        match answer {
            Ok(connection) => return Ok((addr, connection, left)),
            Err(ConnectError::InvalidRemoteAddress(bad)) => {
                let (_, next) = left.pop_first_ip_addr();
                match next {
                    Some(rest) => {
                        proof {
                            assert(rest.ips() =~= peer.ips().skip(n + 1));
                            n = n + 1;
                        }
                        left = rest;
                    },
                    None => return Err(
                        ConnectPeerError::Connect(ConnectError::InvalidRemoteAddress(bad)),
                    ),
                }
            },
            Err(error) => return Err(ConnectPeerError::Connect(error)),
        }
    }
}

/// A peer is reached at one of its addresses, and that one is not unspecified.
pub proof fn a_peer_is_reached_at_its_address<
    C,
    F: Fn(SocketAddr, &String) -> Result<C, ConnectError>,
>(
    connect: F,
    peer: ResolvedPeerAddress,
    reached: SocketAddr,
    connection: C,
    rest: ResolvedPeerAddress,
)
    requires
        dials(connect, peer, Ok((reached, connection, rest))),
    ensures
        peer.ips().contains(reached.ip),
        reached == SocketAddr::at(reached.ip, peer.spec_port()),
        !reached.ip.unspecified(),
        rest.ips().len() > 0,
        rest.ips()[0] == reached.ip,
        rest.peer_view() == peer.peer_view(),
{
}

/// The addresses of a name that was looked up are none of them unspecified, so
/// that is never why such a peer cannot be dialed.
pub proof fn a_resolved_name_is_never_unspecified<
    C,
    F: Fn(SocketAddr, &String) -> Result<C, ConnectError>,
>(
    connect: F,
    peer: ResolvedPeerAddress,
    found: Seq<IpAddr>,
    result: Result<(SocketAddr, C, ResolvedPeerAddress), ConnectPeerError>,
)
    requires
        peer.ips() == dialable(found),
        dials(connect, peer, result),
    ensures
        !(result matches Err(ConnectPeerError::UnspecifiedPeerIP(_))),
{
    let keep = |ip: IpAddr| !ip.unspecified();
    assert forall|n: int| 0 <= n < peer.ips().len() implies !(
    #[trigger] peer.ips()[n]).unspecified() by {
        found.lemma_filter_pred(keep, n);
    }
}

/// A peer is asked for under its name, and under `localhost` where it has none.
pub proof fn a_peer_is_asked_for_under_its_name(domain: Seq<char>, v4: [u8; 4], v6: [u8; 16])
    ensures
        server_name(HostView::Domain(domain)) == domain,
        server_name(HostView::Ipv4(v4)) == "localhost"@,
        server_name(HostView::Ipv6(v6)) == "localhost"@,
{
}

/// The endpoint can give this answer for the address at this place of a peer, with no
/// flow label and no scope, under the peer's name.
pub open spec fn answers_at<C, F: Fn(SocketAddr, &String) -> Result<C, ConnectError>>(
    connect: F,
    peer: ResolvedPeerAddress,
    place: int,
    answer: Result<C, ConnectError>,
) -> bool {
    exists|name: String|
        #![trigger name@]
        name@ == match peer.host_view() {
                HostView::Domain(domain) => domain,
                _ => "localhost"@,
            } && call_ensures(
            connect,
            (
                SocketAddr {
                    ip: peer.ips()[place],
                    port: peer.spec_port(),
                    flowinfo: 0,
                    scope_id: 0,
                },
                &name,
            ),
            answer,
        )
}

/// Dialing ends at some place among the addresses of a peer. At every place before it
/// the endpoint could not reach the address, which was not unspecified. At that place
/// the address is unspecified, or the endpoint gave a connection, or an error other
/// than that it cannot reach the address, or that error at the last place of all.
pub proof fn dialing_ends_at_the_first_address_that_can_be_reached<
    C,
    F: Fn(SocketAddr, &String) -> Result<C, ConnectError>,
>(
    connect: F,
    peer: ResolvedPeerAddress,
    result: Result<(SocketAddr, C, ResolvedPeerAddress), ConnectPeerError>,
)
    requires
        dials(connect, peer, result),
    ensures
        exists|n: int|
            {
                &&& 0 <= n < peer.ips().len()
                &&& forall|i: int|
                    0 <= i < n ==> !(#[trigger] peer.ips()[i]).unspecified() && exists|
                        bad: SocketAddr,
                    | #[trigger]
                        answers_at::<C, F>(
                            connect,
                            peer,
                            i,
                            Err(ConnectError::InvalidRemoteAddress(bad)),
                        )
                &&& match result {
                    Ok((reached, connection, rest)) => {
                        &&& !(#[trigger] peer.ips()[n]).unspecified()
                        &&& answers_at(connect, peer, n, Ok(connection))
                        &&& reached == (SocketAddr {
                            ip: peer.ips()[n],
                            port: peer.spec_port(),
                            flowinfo: 0,
                            scope_id: 0,
                        })
                        &&& rest.ips() == peer.ips().subrange(n, peer.ips().len() as int)
                        &&& rest.spec_port() == peer.spec_port()
                        &&& rest.host_view() == peer.host_view()
                    },
                    Err(ConnectPeerError::UnspecifiedPeerIP(ip)) => ip == peer.ips()[n]
                        && ip.unspecified(),
                    Err(ConnectPeerError::Connect(error)) => {
                        &&& !peer.ips()[n].unspecified()
                        &&& answers_at::<C, F>(connect, peer, n, Err(error))
                        &&& error is InvalidRemoteAddress ==> n == peer.ips().len() - 1
                    },
                    Err(ConnectPeerError::AlreadyConnected(_)) => false,
                }
            },
{
    let n = choose|n: int| #[trigger]
        skips::<C, F>(connect, peer, n) && n < peer.ips().len() && {
            let addr = SocketAddr::at(peer.ips()[n], peer.spec_port());
            let name = server_name(peer.host_view());
            match result {
                Ok((reached, connection, rest)) => {
                    &&& !peer.ips()[n].unspecified()
                    &&& answers(connect, addr, name, Ok(connection))
                    &&& reached == addr
                    &&& rest.ips() == peer.ips().skip(n)
                    &&& rest.spec_port() == peer.spec_port()
                    &&& rest.host_view() == peer.host_view()
                    &&& n == 0 ==> rest == peer
                },
                Err(ConnectPeerError::UnspecifiedPeerIP(ip)) => ip == peer.ips()[n]
                    && ip.unspecified(),
                Err(ConnectPeerError::Connect(error)) => {
                    &&& !peer.ips()[n].unspecified()
                    &&& answers::<C, F>(connect, addr, name, Err(error))
                    &&& error is InvalidRemoteAddress ==> n == peer.ips().len() - 1
                },
                Err(ConnectPeerError::AlreadyConnected(_)) => false,
            }
        };
    assert forall|i: int| 0 <= i < n implies !(#[trigger] peer.ips()[i]).unspecified() && exists|
        bad: SocketAddr,
    | #[trigger]
        answers_at::<C, F>(connect, peer, i, Err(ConnectError::InvalidRemoteAddress(bad))) by {
        let bad = choose|bad: SocketAddr| #[trigger]
            answers::<C, F>(
                connect,
                SocketAddr::at(peer.ips()[i], peer.spec_port()),
                server_name(peer.host_view()),
                Err(ConnectError::InvalidRemoteAddress(bad)),
            );
        assert(answers_at::<C, F>(connect, peer, i, Err(ConnectError::InvalidRemoteAddress(bad))));
    }
    let here = peer.ips()[n];
}

} // verus!
