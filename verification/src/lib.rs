//! Verified core of the Garry's Mod GABP bridge: message framing, the GABP
//! envelope, the tool registry and call queue, and the request dispatcher.

pub mod gabp;
