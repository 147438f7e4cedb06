//! Addresses of peers, as given and as resolved.

use nonempty::NonEmpty;
use vstd::prelude::*;

use crate::bytes::same_bytes;
use crate::table::Key;

verus! {

/// The port on which a node listens unless told otherwise.
pub const DEFAULT_PORT: u16 = 4009;

/// An IP address: its bytes in network order.
#[derive(Clone, Copy, Debug, PartialEq, Eq, PartialOrd, Ord, Hash)]
pub enum IpAddr {
    V4([u8; 4]),
    V6([u8; 16]),
}

impl IpAddr {
    /// Every byte is zero.
    pub open spec fn unspecified(&self) -> bool {
        match self {
            IpAddr::V4(bytes) => forall|i: int| 0 <= i < 4 ==> bytes[i] == 0,
            IpAddr::V6(bytes) => forall|i: int| 0 <= i < 16 ==> bytes[i] == 0,
        }
    }

    /// Whether this is the unspecified address of its family.
    pub fn is_unspecified(&self) -> (b: bool)
        ensures
            b == self.unspecified(),
            b == match self {
                IpAddr::V4(bytes) => bytes@ == Seq::new(4, |i: int| 0u8),
                IpAddr::V6(bytes) => bytes@ == Seq::new(16, |i: int| 0u8),
            },
    {
        proof {
            only_zeros_are_unspecified(*self);
        }
        match self {
            IpAddr::V4(bytes) => {
                let zero = [0u8; 4];
                assert(self.unspecified() ==> *bytes =~= zero);
                same_bytes(bytes, &zero)
            },
            IpAddr::V6(bytes) => {
                let zero = [0u8; 16];
                assert(self.unspecified() ==> *bytes =~= zero);
                same_bytes(bytes, &zero)
            },
        }
    }
}

impl Key for IpAddr {
    fn same(&self, other: &Self) -> (b: bool) {
        match (self, other) {
            (IpAddr::V4(a), IpAddr::V4(b)) => same_bytes(a, b),
            (IpAddr::V6(a), IpAddr::V6(b)) => same_bytes(a, b),
            _ => false,
        }
    }
}

/// The address of a socket. The flow label and the scope of an IPv6 address are
/// part of it; they are zero in an address that is made of an IP address and a
/// port.
#[derive(Clone, Copy, Debug, PartialEq, Eq, PartialOrd, Ord, Hash)]
pub struct SocketAddr {
    pub ip: IpAddr,
    pub port: u16,
    pub flowinfo: u32,
    pub scope_id: u32,
}

impl SocketAddr {
    /// The address with this IP address and port.
    pub open spec fn at(ip: IpAddr, port: u16) -> SocketAddr {
        SocketAddr { ip, port, flowinfo: 0, scope_id: 0 }
    }

    /// The address with this IP address and port.
    pub fn new(ip: IpAddr, port: u16) -> (addr: Self)
        ensures
            addr == SocketAddr::at(ip, port),
            addr.ip == ip && addr.port == port && addr.flowinfo == 0 && addr.scope_id == 0,
    {
        SocketAddr { ip, port, flowinfo: 0, scope_id: 0 }
    }
}

impl Key for SocketAddr {
    fn same(&self, other: &Self) -> (b: bool) {
        self.ip.same(&other.ip) && self.port == other.port && self.flowinfo == other.flowinfo
            && self.scope_id == other.scope_id
    }
}

/// The host of a peer: a name to resolve, or an IP address.
#[derive(Debug, PartialEq, Eq, PartialOrd, Ord, Hash)]
pub enum Host {
    Domain(String),
    Ipv4([u8; 4]),
    Ipv6([u8; 16]),
}

/// What a host is: the characters of a name, or an IP address.
pub enum HostView {
    Domain(Seq<char>),
    Ipv4([u8; 4]),
    Ipv6([u8; 16]),
}

impl View for Host {
    type V = HostView;

    open spec fn view(&self) -> HostView {
        match self {
            Host::Domain(name) => HostView::Domain(name@),
            Host::Ipv4(bytes) => HostView::Ipv4(*bytes),
            Host::Ipv6(bytes) => HostView::Ipv6(*bytes),
        }
    }
}

impl Clone for Host {
    fn clone(&self) -> (copy: Self)
        ensures
            copy == *self,
    {
        match self {
            Host::Domain(name) => Host::Domain(name.clone()),
            Host::Ipv4(bytes) => Host::Ipv4(*bytes),
            Host::Ipv6(bytes) => Host::Ipv6(*bytes),
        }
    }
}

impl Host {
    /// Whether two hosts are the same.
    pub fn same(&self, other: &Self) -> (b: bool)
        ensures
            b == (self@ == other@),
    {
        match (self, other) {
            (Host::Domain(a), Host::Domain(b)) => *a == *b,
            (Host::Ipv4(a), Host::Ipv4(b)) => same_bytes(a, b),
            (Host::Ipv6(a), Host::Ipv6(b)) => same_bytes(a, b),
            _ => false,
        }
    }
}

/// The address of a peer as an operator gives it.
#[derive(Debug, PartialEq, Eq, PartialOrd, Ord, Hash)]
pub struct PeerAddress {
    pub host: Host,
    pub port: u16,
}

/// What the address of a peer is.
pub struct PeerAddressView {
    pub host: HostView,
    pub port: u16,
}

impl View for PeerAddress {
    type V = PeerAddressView;

    open spec fn view(&self) -> PeerAddressView {
        PeerAddressView { host: self.host@, port: self.port }
    }
}

impl Clone for PeerAddress {
    fn clone(&self) -> (copy: Self)
        ensures
            copy == *self,
    {
        PeerAddress { host: self.host.clone(), port: self.port }
    }
}

impl PeerAddress {
    /// Whether two addresses are the same.
    pub fn same(&self, other: &Self) -> (b: bool)
        ensures
            b == (self@ == other@),
    {
        self.host.same(&other.host) && self.port == other.port
    }
}

/// The crate `nonempty`'s vector with at least one item.
#[verifier::external_type_specification]
#[verifier::external_body]
#[verifier::reject_recursive_types(T)]
pub struct ExNonEmpty<T>(NonEmpty<T>);

/// The items of a vector of the crate `nonempty`, from its head on.
pub uninterp spec fn items(addrs: NonEmpty<IpAddr>) -> Seq<IpAddr>;

/// Makes a `nonempty::NonEmpty` of its two fields: the head comes before the
/// items of the tail.
#[verifier::external_body]
fn nonempty_of(head: IpAddr, tail: Vec<IpAddr>) -> (addrs: NonEmpty<IpAddr>)
    ensures
        items(addrs) == seq![head] + tail@,
{
    NonEmpty { head, tail }
}

/// Calls `nonempty::NonEmpty::pop`, which takes the last item away unless it is
/// the only one.
#[verifier::external_body]
fn nonempty_pop(addrs: &mut NonEmpty<IpAddr>) -> (popped: Option<IpAddr>)
    ensures
        popped is None ==> items(*old(addrs)).len() == 1 && *final(addrs) == *old(addrs),
        popped matches Some(ip) ==> items(*old(addrs)) == items(*final(addrs)).push(ip),
        items(*final(addrs)).len() > 0,
{
    addrs.pop()
}

/// Calls the conversion of a `nonempty::NonEmpty` into a `Vec`, which keeps the
/// items and their order. There is at least one.
#[verifier::external_body]
fn nonempty_vec(addrs: &NonEmpty<IpAddr>) -> (all: Vec<IpAddr>)
    ensures
        all@ == items(*addrs),
        all@.len() > 0,
{
    Vec::from(addrs.clone())
}

/// An address of a peer that can be dialed: a socket address, or a name with the
/// IP addresses that it stands for. The IP addresses of a name are kept in a
/// stack: the one to dial first is the last item.
#[derive(Debug, PartialEq, Eq)]
pub enum ResolvedPeerAddress {
    Static(SocketAddr),
    Domain { domain: String, port: u16, addrs: NonEmpty<IpAddr> },
}

impl ResolvedPeerAddress {
    /// The IP addresses, in the order in which they are to be dialed.
    pub open spec fn ips(&self) -> Seq<IpAddr> {
        match self {
            ResolvedPeerAddress::Static(addr) => seq![addr.ip],
            ResolvedPeerAddress::Domain { addrs, .. } => items(*addrs).reverse(),
        }
    }

    /// The port.
    pub open spec fn spec_port(&self) -> u16 {
        match self {
            ResolvedPeerAddress::Static(addr) => addr.port,
            ResolvedPeerAddress::Domain { port, .. } => *port,
        }
    }

    /// The host: the name, or the IP address where there is no name.
    pub open spec fn host_view(&self) -> HostView {
        match self {
            ResolvedPeerAddress::Static(addr) => match addr.ip {
                IpAddr::V4(bytes) => HostView::Ipv4(bytes),
                IpAddr::V6(bytes) => HostView::Ipv6(bytes),
            },
            ResolvedPeerAddress::Domain { domain, .. } => HostView::Domain(domain@),
        }
    }

    /// The address as a set of known peers holds it.
    pub open spec fn peer_view(&self) -> PeerAddressView {
        PeerAddressView { host: self.host_view(), port: self.spec_port() }
    }

    /// The port.
    pub fn port(&self) -> (port: u16)
        ensures
            port == self.spec_port(),
    {
        match self {
            ResolvedPeerAddress::Static(addr) => addr.port,
            ResolvedPeerAddress::Domain { port, .. } => *port,
        }
    }

    /// The host.
    pub fn host(&self) -> (host: Host)
        ensures
            host@ == self.host_view(),
    {
        match self {
            ResolvedPeerAddress::Static(addr) => match addr.ip {
                IpAddr::V4(bytes) => Host::Ipv4(bytes),
                IpAddr::V6(bytes) => Host::Ipv6(bytes),
            },
            ResolvedPeerAddress::Domain { domain, .. } => Host::Domain(domain.clone()),
        }
    }

    /// The address as a set of known peers holds it.
    pub fn as_peer_address(&self) -> (peer: PeerAddress)
        ensures
            peer@ == self.peer_view(),
    {
        PeerAddress { host: self.host(), port: self.port() }
    }

    /// The IP addresses, in the order in which they are to be dialed. There is at
    /// least one.
    pub fn ip_addrs(&self) -> (ips: Vec<IpAddr>)
        ensures
            ips@ == self.ips(),
            ips@.len() > 0,
    {
        match self {
            ResolvedPeerAddress::Static(addr) => {
                let mut ips: Vec<IpAddr> = Vec::new();
                ips.push(addr.ip);
                ips
            },
            ResolvedPeerAddress::Domain { addrs, .. } => reversed(&nonempty_vec(addrs)),
        }
    }

    /// The IP address to dial first.
    pub fn first_ip_addr(&self) -> (ip: IpAddr)
        ensures
            self.ips().len() > 0 && ip == self.ips()[0],
    {
        let ips = self.ip_addrs();
        ips[0]
    }

    /// Takes the first IP address away. Where it was the only one, nothing is
    /// left to dial.
    pub fn pop_first_ip_addr(self) -> (popped: (IpAddr, Option<ResolvedPeerAddress>))
        ensures
            self.ips().len() > 0 && popped.0 == self.ips()[0],
            popped.1 is None <==> self.ips().len() == 1,
            popped.1 matches Some(rest) ==> rest.ips() == self.ips().drop_first()
                && rest.spec_port() == self.spec_port() && rest.host_view() == self.host_view()
                && rest is Domain,
    {
        match self {
            ResolvedPeerAddress::Static(addr) => (addr.ip, None),
            ResolvedPeerAddress::Domain { domain, port, addrs } => {
                let ghost before = items(addrs);
                let mut rest = addrs;
                match nonempty_pop(&mut rest) {
                    Some(ip) => {
                        proof {
                            assert(before.reverse().drop_first() =~= items(rest).reverse());
                        }
                        (ip, Some(ResolvedPeerAddress::Domain { domain, port, addrs: rest }))
                    },
                    None => {
                        let all = nonempty_vec(&rest);
                        (all[0], None)
                    },
                }
            },
        }
    }
}

impl From<SocketAddr> for ResolvedPeerAddress {
    fn from(addr: SocketAddr) -> (resolved: Self) {
        ResolvedPeerAddress::Static(addr)
    }
}

impl vstd::std_specs::convert::FromSpecImpl<SocketAddr> for ResolvedPeerAddress {
    open spec fn obeys_from_spec() -> bool {
        true
    }

    open spec fn from_spec(addr: SocketAddr) -> ResolvedPeerAddress {
        ResolvedPeerAddress::Static(addr)
    }
}

/// The items in the opposite order.
pub fn reversed(ips: &Vec<IpAddr>) -> (turned: Vec<IpAddr>)
    ensures
        turned@ == ips@.reverse(),
{
    let mut turned: Vec<IpAddr> = Vec::new();
    let mut left: usize = ips.len();
    while left > 0
        invariant
            left <= ips.len(),
            turned@ =~= ips@.skip(left as int).reverse(),
        decreases left,
    {
        left -= 1;
        turned.push(ips[left]);
        assert(ips@.skip(left as int) =~= seq![ips@[left as int]] + ips@.skip(left + 1));
    }
    assert(ips@.skip(0) =~= ips@);
    turned
}

/// What has to be done to resolve the address of a peer.
#[derive(Debug, PartialEq, Eq)]
pub enum Resolution {
    /// Nothing: the address names an IP address.
    Done(ResolvedPeerAddress),
    /// Look the IP addresses of this name up.
    Lookup { domain: String, port: u16 },
}

/// What has to be done to resolve the address of a peer.
pub fn start_resolution(peer: PeerAddress) -> (resolution: Resolution)
    ensures
        match peer.host {
            Host::Ipv4(bytes) => resolution == Resolution::Done(
                ResolvedPeerAddress::Static(SocketAddr::at(IpAddr::V4(bytes), peer.port)),
            ),
            Host::Ipv6(bytes) => resolution == Resolution::Done(
                ResolvedPeerAddress::Static(SocketAddr::at(IpAddr::V6(bytes), peer.port)),
            ),
            Host::Domain(name) => resolution == (Resolution::Lookup {
                domain: name,
                port: peer.port,
            }),
        },
        resolution matches Resolution::Done(resolved) ==> resolved.peer_view() == peer@,
{
    match peer.host {
        Host::Ipv4(bytes) => Resolution::Done(
            ResolvedPeerAddress::Static(SocketAddr::new(IpAddr::V4(bytes), peer.port)),
        ),
        Host::Ipv6(bytes) => Resolution::Done(
            ResolvedPeerAddress::Static(SocketAddr::new(IpAddr::V6(bytes), peer.port)),
        ),
        Host::Domain(name) => Resolution::Lookup { domain: name, port: peer.port },
    }
}

/// A name that stands for no IP address that can be dialed.
#[derive(Debug, PartialEq, Eq)]
pub struct NoIpAddrs {
    pub domain: String,
}

/// The IP addresses that can be dialed: those that are not unspecified.
pub open spec fn dialable(found: Seq<IpAddr>) -> Seq<IpAddr> {
    found.filter(|ip: IpAddr| !ip.unspecified())
}

/// The address of a peer with a name, once the IP addresses of the name have been
/// looked up. They are dialed in the order in which they were found, without the
/// unspecified ones. Where none is left, the name is an error.
pub fn finish_resolution(domain: String, port: u16, found: &Vec<IpAddr>) -> (resolved: Result<
    ResolvedPeerAddress,
    NoIpAddrs,
>)
    ensures
        match resolved {
            Ok(address) => dialable(found@).len() > 0 && address.ips() == dialable(found@)
                && address is Domain && address->domain == domain && address.peer_view() == (
            PeerAddressView { host: HostView::Domain(domain@), port }),
            Err(error) => dialable(found@).len() == 0 && error.domain == domain,
        },
        resolved matches Ok(address) ==> forall|ip: IpAddr| #[trigger]
            address.ips().contains(ip) <==> found@.contains(ip) && !ip.unspecified(),
        resolved is Err ==> forall|i: int|
            0 <= i < found@.len() ==> (#[trigger] found@[i]).unspecified(),
{
    let mut addrs: Vec<IpAddr> = Vec::new();
    let mut i: usize = 0;
    let ghost keep = |ip: IpAddr| !ip.unspecified();
    while i < found.len()
        invariant
            i <= found.len(),
            keep == (|ip: IpAddr| !ip.unspecified()),
            addrs@ == found@.take(i as int).filter(keep),
        decreases found.len() - i,
    {
        proof {
            assert(found@.take(i + 1).drop_last() =~= found@.take(i as int));
            reveal(Seq::filter);
        }
        if !found[i].is_unspecified() {
            addrs.push(found[i]);
        }
        i += 1;
    }
    assert(found@.take(found@.len() as int) =~= found@);
    proof {
        every_other_address_is_kept(found@);
        assert forall|i: int| 0 <= i < found@.len() && dialable(found@).len() == 0 implies (
        #[trigger] found@[i]).unspecified() by {
            assert(found@.contains(found@[i]));
            assert(!dialable(found@).contains(found@[i]));
        }
    }
    let ghost all = addrs@;
    match addrs.pop() {
        Some(last_addr) => {
            let tail = reversed(&addrs);
            let addrs = nonempty_of(last_addr, tail);
            proof {
                assert(items(addrs).reverse() =~= all);
            }
            Ok(ResolvedPeerAddress::Domain { domain, port, addrs })
        },
        None => Err(NoIpAddrs { domain }),
    }
}

/// An address is unspecified where all its bytes are zero, and only there.
pub proof fn only_zeros_are_unspecified(ip: IpAddr)
    ensures
        ip.unspecified() <==> match ip {
            IpAddr::V4(bytes) => bytes@ == Seq::new(4, |i: int| 0u8),
            IpAddr::V6(bytes) => bytes@ == Seq::new(16, |i: int| 0u8),
        },
{
    match ip {
        IpAddr::V4(bytes) => {
            if ip.unspecified() {
                assert(bytes@ =~= Seq::new(4, |i: int| 0u8));
            }
            if bytes@ == Seq::new(4, |i: int| 0u8) {
                assert forall|i: int| 0 <= i < 4 implies bytes[i] == 0 by {
                    assert(bytes@[i] == 0);
                }
            }
        },
        IpAddr::V6(bytes) => {
            if ip.unspecified() {
                assert(bytes@ =~= Seq::new(16, |i: int| 0u8));
            }
            if bytes@ == Seq::new(16, |i: int| 0u8) {
                assert forall|i: int| 0 <= i < 16 implies bytes[i] == 0 by {
                    assert(bytes@[i] == 0);
                }
            }
        },
    }
}

/// Of the addresses that were found every one is kept that is not unspecified, of
/// either family, and no other.
pub proof fn every_other_address_is_kept(found: Seq<IpAddr>)
    ensures
        forall|ip: IpAddr| #[trigger]
            dialable(found).contains(ip) <==> found.contains(ip) && !ip.unspecified(),
    decreases found.len(),
{
    if found.len() > 0 {
        let front = found.drop_last();
        let last = found.last();
        every_other_address_is_kept(front);
        an_address_found_later_is_kept_later(front, last);
        assert(found =~= front.push(last));
        assert forall|ip: IpAddr| #[trigger] dialable(found).contains(ip) <==> found.contains(ip)
            && !ip.unspecified() by {
            assert(found.contains(ip) <==> front.contains(ip) || ip == last) by {
                if front.contains(ip) {
                    let k = choose|k: int| 0 <= k < front.len() && front[k] == ip;
                    assert(found[k] == ip);
                }
                if found.contains(ip) {
                    let k = choose|k: int| 0 <= k < found.len() && found[k] == ip;
                    if k < front.len() {
                        assert(front[k] == ip);
                    }
                }
                assert(found[found.len() - 1] == last);
            }
            let kept = dialable(front);
            if !last.unspecified() {
                if kept.contains(ip) {
                    let k = choose|k: int| 0 <= k < kept.len() && kept[k] == ip;
                    assert(dialable(found)[k] == ip);
                }
                assert(dialable(found)[kept.len() as int] == last);
                if dialable(found).contains(ip) {
                    let k = choose|k: int| 0 <= k < dialable(found).len() && dialable(found)[k]
                        == ip;
                    if k < kept.len() {
                        assert(kept[k] == ip);
                    }
                }
            }
        }
    } else {
        reveal(Seq::filter);
    }
}

/// The addresses are kept in the order in which they were found: one that is found
/// later comes behind all that were found before, unless it is unspecified.
pub proof fn an_address_found_later_is_kept_later(found: Seq<IpAddr>, ip: IpAddr)
    ensures
        dialable(Seq::empty()) == Seq::<IpAddr>::empty(),
        ip.unspecified() ==> dialable(found.push(ip)) == dialable(found),
        !ip.unspecified() ==> dialable(found.push(ip)) == dialable(found).push(ip),
{
    reveal(Seq::filter);
    assert(found.push(ip).drop_last() =~= found);
}

/// A resolved address says what it was made of: a socket address its own IP address
/// and port, a name its port and its IP addresses, the last of the stack first.
pub proof fn a_resolved_address_says_what_it_was_made_of(
    addr: SocketAddr,
    domain: String,
    port: u16,
    addrs: NonEmpty<IpAddr>,
    i: int,
)
    ensures
        ({
            let peer = ResolvedPeerAddress::Static(addr);
            &&& peer.ips().len() == 1
            &&& peer.ips()[0] == addr.ip
            &&& peer.spec_port() == addr.port
            &&& peer.peer_view().port == addr.port
            &&& match addr.ip {
                IpAddr::V4(bytes) => peer.peer_view().host == HostView::Ipv4(bytes)
                    && peer.host_view() == HostView::Ipv4(bytes),
                IpAddr::V6(bytes) => peer.peer_view().host == HostView::Ipv6(bytes)
                    && peer.host_view() == HostView::Ipv6(bytes),
            }
        }),
        ({
            let peer = ResolvedPeerAddress::Domain { domain, port, addrs };
            &&& peer.ips().len() == items(addrs).len()
            &&& 0 <= i < peer.ips().len() ==> peer.ips()[i] == items(addrs)[items(addrs).len() - 1
                - i]
            &&& peer.spec_port() == port
            &&& peer.host_view() == HostView::Domain(domain@)
            &&& peer.peer_view() == (PeerAddressView { host: HostView::Domain(domain@), port })
        }),
{
}

/// A socket address that is made of an IP address and a port has no flow label and no
/// scope.
pub proof fn a_socket_address_is_made_of_ip_and_port(ip: IpAddr, port: u16)
    ensures
        SocketAddr::at(ip, port) == (SocketAddr { ip, port, flowinfo: 0, scope_id: 0 }),
{
}

/// Two addresses of peers are the same where their ports are and their hosts are: the
/// same name, or the same bytes of the same family.
pub proof fn peers_are_told_apart_by_host_and_port(a: PeerAddress, b: PeerAddress)
    ensures
        a@ == b@ <==> a.port == b.port && match (a.host, b.host) {
            (Host::Domain(x), Host::Domain(y)) => x@ == y@,
            (Host::Ipv4(x), Host::Ipv4(y)) => x == y,
            (Host::Ipv6(x), Host::Ipv6(y)) => x == y,
            _ => false,
        },
{
}

/// A host is what it names, and the address of a peer its host and its port.
pub proof fn a_host_is_what_it_names(name: String, v4: [u8; 4], v6: [u8; 16], peer: PeerAddress)
    ensures
        Host::Domain(name)@ == HostView::Domain(name@),
        Host::Ipv4(v4)@ == HostView::Ipv4(v4),
        Host::Ipv6(v6)@ == HostView::Ipv6(v6),
        peer@.port == peer.port,
        peer@.host == peer.host@,
{
}

} // verus!
