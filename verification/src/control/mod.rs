//! The control plane: an adapter over the endpoint lifecycle that decides how
//! requests are routed and what they are answered, and how its socket is set up.

pub mod api;
pub mod reply_laws;
pub mod socket;
pub mod status;
