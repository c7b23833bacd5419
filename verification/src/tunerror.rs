//! The engine's error taxonomy.
//!
//! Start-up errors abort the process; steady-state errors drop the
//! offending packet and the loop goes on.

use vstd::prelude::*;

verus! {

/// What can go wrong around the tunnel.
#[derive(Debug)]
pub enum Error {
    /// The TUN device name does not fit the kernel's interface-name limit.
    InvalidTunnelName,
    /// Failure creating or operating on the TUN or UDP socket.
    Socket,
    /// Failure configuring the TUN device.
    IOCtl,
    /// A read from the TUN device failed.
    IfaceRead,
    /// Header parse failure, wrong IP version, or an authentication
    /// failure when opening a sealed packet.
    InvalidPacket,
    /// A generic diagnostic for the receive path.
    Message(String),
}

/// The kernel's interface-name limit: a name and its trailing NUL must
/// fit in 16 bytes.
pub fn validate_tun_name(name: &Vec<u8>) -> (r: Result<(), Error>)
    ensures
        r is Ok <==> name@.len() < 15,
{
    if name.len() < 15 {
        Ok(())
    } else {
        Err(Error::InvalidTunnelName)
    }
}

} // verus!
