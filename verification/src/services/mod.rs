//! The computational core of the server's services: content addressing, the
//! hash-chained audit log, the durable federation queue, agent rate limits
//! and quotas, and the checks the room and appservice services make.

pub mod be;
pub mod digest;
pub mod cas;
pub mod audit;
pub mod federation;
pub mod agent;
pub mod grant_spec;
pub mod shadow;
pub mod spaces;
pub mod appservice;
pub mod laws;
