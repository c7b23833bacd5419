//! Data-plane engine of a point-to-point userspace VPN.
//!
//! Kernel-routed IP packets enter a TUN device, are sealed with
//! AES-256-GCM, and travel to the peer as UDP payloads; inbound payloads
//! are opened and written back into the TUN.  This crate holds the packet
//! transform pipeline, the AEAD framing, the server-side peer map and the
//! client-side NAT rewrite, all verified; the TUN device, the UDP socket
//! and the readiness loop live outside it and hand it plain bytes.

pub mod checksum;
pub mod codec;
pub mod engine;
pub mod net;
pub mod packet;
pub mod peers;
pub mod tunerror;
