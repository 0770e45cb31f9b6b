//! A verified core for a small geolocation gateway: IP-address validation,
//! a bounded-lifetime response cache with lazy expiry, and the request-handling
//! state machine that ties them together. HTTP transport and the upstream
//! provider are external collaborators supplied by the surrounding binary.

pub mod cache;
pub mod ip;
pub mod laws;
pub mod resolver;
