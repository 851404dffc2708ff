//! Staged configuration of a query channel: address, then port, then a
//! validated endpoint, plus the fixed probe datagram the protocol sends.

use vstd::prelude::*;

use crate::error::QueryError;

verus! {

/// A remote server address, held as plain numeric components.
#[derive(Debug, Clone, Copy, PartialEq, Eq, Structural)]
pub enum IpAddress {
    V4(u8, u8, u8, u8),
    V6(u16, u16, u16, u16, u16, u16, u16, u16),
}

/// A fully validated endpoint configuration: everything a datagram socket
/// needs in order to connect to one server.
#[derive(Debug, Clone, Copy, PartialEq, Eq, Structural)]
pub struct Connect {
    pub ip: IpAddress,
    pub port: u16,
}

/// The bytes of the out-of-band `getstatus` probe: four `0xFF` marker bytes
/// followed by the ASCII text `getstatus`.
pub open spec fn spec_probe() -> Seq<u8> {
    seq![255u8, 255u8, 255u8, 255u8, 103u8, 101u8, 116u8, 115u8, 116u8, 97u8, 116u8, 117u8, 115u8]
}

/// Builds the probe datagram sent to a server to request its status.
pub fn status_probe() -> (p: Vec<u8>)
    ensures
        p@ == spec_probe(),
{
    let p: Vec<u8> = vec![255u8, 255u8, 255u8, 255u8, 103u8, 101u8, 116u8, 115u8, 116u8, 97u8, 116u8, 117u8, 115u8];
    proof {
        assert(p@ =~= spec_probe());
    }
    p
}

/// Capacity of the receive buffer for a single status reply datagram.
pub const RESPONSE_BUFFER_LEN: usize = 1024;

/// Builder stage: nothing supplied yet.
#[derive(Debug, Clone, Copy, PartialEq, Eq, Structural)]
pub struct Init;

/// Builder stage: ready to take the address.
#[derive(Debug, Clone, Copy, PartialEq, Eq, Structural)]
pub struct Ip;

/// Builder stage: address supplied, ready to take the port.
#[derive(Debug, Clone, Copy, PartialEq, Eq, Structural)]
pub struct Port;

/// Builder stage: address and port supplied, ready to build.
#[derive(Debug, Clone, Copy, PartialEq, Eq, Structural)]
pub struct Build;

/// Staged configuration of a query channel.  The stage parameter exposes
/// each setter only where it is legal, so a build step is reachable only
/// after an address and then a port have been supplied.
#[derive(Debug)]
pub struct ServerBuilder<S> {
    ip: Option<IpAddress>,
    port: Option<u16>,
    stage: core::marker::PhantomData<S>,
}

impl<S> ServerBuilder<S> {
    /// The address supplied so far.
    pub closed spec fn spec_ip(self) -> Option<IpAddress> {
        self.ip
    }

    /// The port supplied so far.
    pub closed spec fn spec_port(self) -> Option<u16> {
        self.port
    }

    /// Both fields are present, so a channel may be built.
    pub open spec fn complete(self) -> bool {
        self.spec_ip() is Some && self.spec_port() is Some
    }
}

impl ServerBuilder<Init> {
    /// Starts a fresh configuration with neither address nor port.
    pub fn new() -> (r: ServerBuilder<Ip>)
        ensures
            r.spec_ip() is None,
            r.spec_port() is None,
    {
        ServerBuilder { ip: None, port: None, stage: core::marker::PhantomData }
    }
}

impl ServerBuilder<Ip> {
    /// Supplies the remote address and advances to the port stage.
    pub fn ip(self, ip: IpAddress) -> (r: ServerBuilder<Port>)
        ensures
            r.spec_ip() == Some(ip),
            r.spec_port() == self.spec_port(),
    {
        ServerBuilder { ip: Some(ip), port: self.port, stage: core::marker::PhantomData }
    }
}

impl ServerBuilder<Port> {
    /// Supplies the remote port and advances to the buildable stage.
    pub fn port(self, port: u16) -> (r: ServerBuilder<Build>)
        ensures
            r.spec_ip() == self.spec_ip(),
            r.spec_port() == Some(port),
            self.spec_ip() is Some ==> r.complete(),
    {
        ServerBuilder { ip: self.ip, port: Some(port), stage: core::marker::PhantomData }
    }
}

impl ServerBuilder<Build> {
    /// Finishes the configuration.  A builder that went through the staged
    /// calls is always complete and yields exactly the endpoint supplied;
    /// the incomplete case is unreachable through the staged interface and
    /// is rejected rather than built.
    pub fn build(self) -> (r: Result<Connect, QueryError>)
        ensures
            self.complete() ==> r == Ok::<Connect, QueryError>(Connect {
                ip: self.spec_ip().unwrap(),
                port: self.spec_port().unwrap(),
            }),
            !self.complete() ==> r == Err::<Connect, QueryError>(QueryError::IncompleteConfiguration),
    {
        match (self.ip, self.port) {
            (Some(ip), Some(port)) => Ok(Connect { ip, port }),
            _ => Err(QueryError::IncompleteConfiguration),
        }
    }
}

} // verus!
