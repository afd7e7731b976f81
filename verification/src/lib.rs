//! Verified core of a personal-server network control plane.
//!
//! The library models gateways (network interfaces with addresses), an
//! algebra of interface filters with structural equality, the listener and
//! NAT-forward reconcilers driven by those filters, an authoritative DNS
//! resolver with reference-counted registrations, a declarative WireGuard
//! server, onion-service supervision, and detached-signature authentication
//! for RPCs. Everything that decides or computes lives here with a contract;
//! sockets, processes and the system bus stay with the callers.

pub mod binding;
pub mod dns;
pub mod eq_set;
pub mod error;
pub mod filter;
pub mod forward;
pub mod gateway;
pub mod hosts;
pub mod ip;
pub mod iroh;
pub mod listener;
pub mod onion;
pub mod signature;
pub mod text;
pub mod watch;
pub mod wireguard;

