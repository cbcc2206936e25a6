//! Configuration of the relay, and what it builds.

pub mod endpoint;
pub mod error;
pub mod legacy;
pub mod material;
pub mod net;
pub mod option_laws;
pub mod options;
pub mod rule_laws;
