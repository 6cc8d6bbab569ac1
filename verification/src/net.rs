//! Decisions on the way to a connection.
use vstd::prelude::*;
use crate::request::ParsedUrl;

verus! {

/// The name of a TLS server, as the `rustls` crate has it.
#[verifier::external_type_specification]
#[verifier::external_body]
pub struct ExServerName<'a>(rustls::pki_types::ServerName<'a>);

/// The error of the `rustls` crate for a text that names no TLS server.
#[verifier::external_type_specification]
#[verifier::external_body]
pub struct ExInvalidDnsNameError(rustls::pki_types::InvalidDnsNameError);

/// What `ServerName::try_from` of the `rustls` crate makes of `host`.
pub uninterp spec fn parsed_server_name(host: Seq<char>) -> Result<
    rustls::pki_types::ServerName<'static>,
    rustls::pki_types::InvalidDnsNameError,
>;

/// Calls `ServerName::try_from` of the `rustls` crate, which takes DNS names and IP
/// addresses. The outcome depends on the text alone.
#[verifier::external_body]
fn tls_server_name(host: String) -> (name: Result<
    rustls::pki_types::ServerName<'static>,
    rustls::pki_types::InvalidDnsNameError,
>)
    ensures
        name == parsed_server_name(host@),
{
    rustls::pki_types::ServerName::try_from(host)
}

/// Why no connection comes about.
#[derive(Debug)]
pub enum ConnectError {
    /// The host has no address.
    Unresolved,
    /// The first address of the host is an IPv6 address.
    Ipv6Unsupported,
    /// The kernel refused to connect, with the error number given here.
    Refused(i32),
    /// The host is no name that a TLS server can have.
    InvalidServerName,
}

/// An address that a host name was resolved to.
#[derive(Clone, Copy, Debug, PartialEq, Eq, Structural)]
pub enum ResolvedAddr {
    /// An IPv4 address, as a number, and a port.
    V4 { ip: u32, port: u16 },
    V6,
}

/// The IPv4 address and port to connect to, where `first` is the first address
/// that the host was resolved to.
pub fn choose_address(first: Option<ResolvedAddr>) -> (addr: Result<(u32, u16), ConnectError>)
    ensures
        addr == (match first {
            Some(ResolvedAddr::V4 { ip, port }) => Ok((ip, port)),
            Some(ResolvedAddr::V6) => Err(ConnectError::Ipv6Unsupported),
            None => Err(ConnectError::Unresolved),
        }),
{
    match first {
        Some(ResolvedAddr::V4 { ip, port }) => Ok((ip, port)),
        Some(ResolvedAddr::V6) => Err(ConnectError::Ipv6Unsupported),
        None => Err(ConnectError::Unresolved),
    }
}

/// Whether a connection comes about after the kernel answered with `error`, the
/// error number of its refusal if there was one. That the attempt is still in
/// progress is no refusal.
pub fn connect_outcome(error: Option<i32>, in_progress: i32) -> (outcome: Result<(), ConnectError>)
    ensures
        outcome == (match error {
            Some(errno) if errno != in_progress => Err(ConnectError::Refused(errno)),
            _ => Ok(()),
        }),
{
    match error {
        Some(errno) => if errno != in_progress {
            Err(ConnectError::Refused(errno))
        } else {
            Ok(())
        },
        None => Ok(()),
    }
}

impl ParsedUrl {
    /// The name that the server has to prove to be its own.
    pub fn server_name(&self) -> (name: Result<
        rustls::pki_types::ServerName<'static>,
        ConnectError,
    >)
        ensures
            name == (match parsed_server_name(self@.host) {
                Ok(n) => Ok(n),
                Err(_) => Err(ConnectError::InvalidServerName),
            }),
    {
        match tls_server_name(self.host.clone()) {
            Ok(name) => Ok(name),
            Err(_) => Err(ConnectError::InvalidServerName),
        }
    }
}

} // verus!
