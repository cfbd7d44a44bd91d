//! The transport layer: peer addresses, the error kinds of the network code and
//! the rules that a datagram must meet to be sent or accepted.

use vstd::prelude::*;

pub mod addrmap;
pub mod udp;
pub mod udpmanager;

verus! {

/// The largest datagram, in bytes, that a peer sends or accepts.
pub const MAX_UDP: usize = 512;

/// The address of a datagram endpoint, as plain numbers: an IPv4 or IPv6
/// address with its port.
#[derive(Debug, Clone, Copy, PartialEq, Eq, Hash, Structural)]
#[allow(inconsistent_fields)]
pub enum Addr {
    /// An IPv4 endpoint; `ip` holds the four octets, most significant first.
    V4 { ip: u32, port: u16 },
    /// An IPv6 endpoint; `ip` holds the sixteen octets, most significant first.
    V6 { ip: u128, port: u16, flowinfo: u32, scope_id: u32 },
}

#[verifier::external_type_specification]
#[verifier::external_body]
pub struct ExIoError(std::io::Error);

/// What can go wrong in the network code. The three kinds call for three
/// different answers: retry after `Timeout`, ignore `NoMessage`, give up on
/// `IOError`.
#[derive(Debug)]
pub enum NetworkError {
    /// The socket failed.
    IOError(std::io::Error),
    /// What arrived was not meant for us, or what was to leave is too large.
    NoMessage,
    /// A bounded wait ran out.
    Timeout,
    /// Anything else, with a description.
    Other(&'static str),
}

/// The kinds of socket error that the receive path tells apart.
#[derive(Debug, Clone, Copy, PartialEq, Eq, Structural)]
pub enum IoKind {
    /// A non-blocking read found nothing.
    WouldBlock,
    /// A blocking read ran into its timeout.
    TimedOut,
    /// Every other kind.
    Other,
}

/// The kind of a socket error as `std::io::Error::kind` gives it, reduced to
/// the three cases of `IoKind`. The kind is a property of the error alone.
pub uninterp spec fn kind_of(e: std::io::Error) -> IoKind;

/// The kind of a socket error, from `std::io::Error::kind`, reduced to the
/// three cases of `IoKind`: the result is `kind_of` the error.
#[verifier::external_body]
pub(crate) fn io_kind(e: &std::io::Error) -> (k: IoKind)
    ensures
        k == kind_of(*e),
{
    match e.kind() {
        std::io::ErrorKind::WouldBlock => IoKind::WouldBlock,
        std::io::ErrorKind::TimedOut => IoKind::TimedOut,
        _ => IoKind::Other,
    }
}

/// The words in which a socket error describes itself, from its `Display`
/// (`to_string`). Nothing is claimed of them: they are the system's.
#[verifier::external_body]
pub(crate) fn io_text(e: &std::io::Error) -> String {
    e.to_string()
}

impl From<std::io::Error> for NetworkError {
    fn from(error: std::io::Error) -> (r: NetworkError) {
        NetworkError::IOError(error)
    }
}

impl vstd::std_specs::convert::FromSpecImpl<std::io::Error> for NetworkError {
    open spec fn obeys_from_spec() -> bool {
        true
    }

    open spec fn from_spec(error: std::io::Error) -> NetworkError {
        NetworkError::IOError(error)
    }
}

impl NetworkError {
    /// The error that a failed read of kind `kind` stands for: an empty
    /// non-blocking socket and a read timeout are both `Timeout`, everything
    /// else is passed on as `IOError`.
    pub fn from_read(kind: IoKind, error: std::io::Error) -> (r: NetworkError)
        ensures
            r == match kind {
                IoKind::WouldBlock => NetworkError::Timeout,
                IoKind::TimedOut => NetworkError::Timeout,
                IoKind::Other => NetworkError::IOError(error),
            },
    {
        match kind {
            IoKind::WouldBlock => NetworkError::Timeout,
            IoKind::TimedOut => NetworkError::Timeout,
            IoKind::Other => NetworkError::IOError(error),
        }
    }

    /// The error that a failed read stands for: `Timeout` where the socket had
    /// nothing to read or the read ran into its timeout, and `IOError(error)`
    /// for every other kind of `error`.
    pub fn from_read_error(error: std::io::Error) -> (r: NetworkError)
        ensures
            r == match kind_of(error) {
                IoKind::WouldBlock => NetworkError::Timeout,
                IoKind::TimedOut => NetworkError::Timeout,
                IoKind::Other => NetworkError::IOError(error),
            },
    {
        let kind = io_kind(&error);
        NetworkError::from_read(kind, error)
    }

    /// A few words on what went wrong. A socket failure describes itself, in
    /// the words of the system; the other errors have fixed words.
    pub fn description(&self) -> (r: String)
        ensures
            match *self {
                NetworkError::IOError(_) => true,
                NetworkError::NoMessage => r@ == "the received packet was not meant for us"@,
                NetworkError::Timeout => r@ == "the receiving timed out"@,
                NetworkError::Other(s) => r@ == s@,
            },
    {
        match self {
            NetworkError::IOError(e) => io_text(e),
            NetworkError::NoMessage => "the received packet was not meant for us".to_owned(),
            NetworkError::Timeout => "the receiving timed out".to_owned(),
            NetworkError::Other(s) => (*s).to_owned(),
        }
    }

    /// Whether this is `Timeout`.
    pub fn is_timeout(&self) -> (r: bool)
        ensures
            r == (*self is Timeout),
    {
        match self {
            NetworkError::Timeout => true,
            _ => false,
        }
    }

    /// Whether this is `NoMessage`.
    pub fn is_no_message(&self) -> (r: bool)
        ensures
            r == (*self is NoMessage),
    {
        match self {
            NetworkError::NoMessage => true,
            _ => false,
        }
    }
}

/// What is known of a network interface of this machine.
#[derive(Debug)]
pub struct Interface {
    /// Whether the interface loops back to this machine.
    pub loopback: bool,
    /// Whether the interface is up.
    pub up: bool,
    /// The IPv4 addresses of the interface, in the order in which the system
    /// lists them.
    pub ips: Vec<u32>,
}

/// The view of `Interface`.
pub struct InterfaceView {
    pub loopback: bool,
    pub up: bool,
    pub ips: Seq<u32>,
}

impl View for Interface {
    type V = InterfaceView;

    open spec fn view(&self) -> InterfaceView {
        InterfaceView { loopback: self.loopback, up: self.up, ips: self.ips@ }
    }
}

impl InterfaceView {
    /// Whether the interface can be used to reach other machines: it is up,
    /// does not loop back, and has an IPv4 address.
    pub open spec fn usable(self) -> bool {
        !self.loopback && self.up && self.ips.len() > 0
    }
}

/// The first IPv4 address of the first usable interface.
pub open spec fn first_usable(ifaces: Seq<InterfaceView>) -> Option<u32>
    decreases ifaces.len(),
{
    if ifaces.len() == 0 {
        None
    } else {
        match first_usable(ifaces.drop_last()) {
            Some(ip) => Some(ip),
            None => if ifaces.last().usable() {
                Some(ifaces.last().ips[0])
            } else {
                None
            },
        }
    }
}

/// Where a usable interface is found among the first `k`, its address is the
/// one found among all.
pub proof fn lemma_first_usable_prefix(ifaces: Seq<InterfaceView>, k: int)
    requires
        0 <= k <= ifaces.len(),
        first_usable(ifaces.take(k)) is Some,
    ensures
        first_usable(ifaces) == first_usable(ifaces.take(k)),
    decreases ifaces.len() - k,
{
    if k < ifaces.len() {
        assert(ifaces.take(k + 1).drop_last() =~= ifaces.take(k));
        lemma_first_usable_prefix(ifaces, k + 1);
    } else {
        assert(ifaces.take(k) =~= ifaces);
    }
}

/// finds the first best IPv4 address to use: that of the first interface that
/// is up and does not loop back. Without one the result is an error.
pub fn find_internet_interface(ifaces: &Vec<Interface>) -> (r: Result<u32, NetworkError>)
    ensures
        match r {
            Ok(ip) => first_usable(ifaces@.map_values(|i: Interface| i@)) == Some(ip),
            Err(e) => e is Other && first_usable(ifaces@.map_values(|i: Interface| i@)) is None,
        },
{
    let ghost views = ifaces@.map_values(|i: Interface| i@);
    let mut i: usize = 0;
    proof {
        assert(views.take(0) =~= Seq::<InterfaceView>::empty());
    }
    while i < ifaces.len()
        invariant
            i <= ifaces@.len(),
            views == ifaces@.map_values(|i: Interface| i@),
            first_usable(views.take(i as int)) is None,
        decreases ifaces@.len() - i,
    {
        proof {
            assert(views.take(i + 1).drop_last() =~= views.take(i as int));
            assert(views.take(i + 1).last() == ifaces@[i as int]@);
        }
        let iface = &ifaces[i];
        if !iface.loopback && iface.up && iface.ips.len() > 0 {
            proof {
                lemma_first_usable_prefix(views, i + 1);
            }
            return Ok(iface.ips[0]);
        }
        i += 1;
    }
    proof {
        assert(views.take(i as int) =~= views);
    }
    Err(NetworkError::Other("couldn't find an available interface"))
}

/// creates an `Addr` from an ipv4 address and port
pub fn from_ipv4(adr: u32, port: u16) -> (a: Addr)
    ensures
        a == (Addr::V4 { ip: adr, port }),
{
    Addr::V4 { ip: adr, port }
}

} // verus!
