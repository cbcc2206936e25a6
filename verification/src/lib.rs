//! A relay that is reconfigured while it runs: what it decides, apart from the
//! sockets, files and tasks of its host.

pub mod accept;
pub mod cmd;
pub mod conf;
pub mod control;
pub mod dns;
pub mod endpoint;
pub mod host_laws;
pub mod idmap;
pub mod io;
pub mod lifecycle;
pub mod net;
pub mod process;
pub mod startup;
pub mod text;
pub mod text_laws;
pub mod time;
