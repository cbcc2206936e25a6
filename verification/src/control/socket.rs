//! How the control socket is set up.
//!
//! The control plane is reachable from this host only: a unix socket, with
//! owner-only permissions on the socket and on a directory made for it.

use vstd::prelude::*;
use vstd::string::*;

use crate::lifecycle::snapshot::quoted;

verus! {

/// Permissions of the socket and of a directory made for it.
pub const OWNER_ONLY: u32 = 0x1c0;

/// A connection that has not finished sending its request headers within this
/// many seconds is closed.
pub const HEADER_READ_TIMEOUT: u64 = 5;

/// What to do about the directory that holds the socket.
#[derive(Debug, Clone, Copy, PartialEq, Eq, Structural)]
pub enum DirectoryPlan {
    /// make it, owner-only
    Create,
    /// leave it as it is
    Keep,
    /// leave it as it is, and report that others can reach it with this mode
    KeepAndWarn(u32),
}

/// Whether anyone but the owner has any permission in a mode.
pub open spec fn shared(mode: u32) -> bool {
    mode & 0x3f != 0
}

/// What to do about the directory that holds the socket, given its mode if it
/// exists.
///
/// Only a directory that is made for the socket is tightened: an existing one may
/// be shared, and taking it away from everybody else would be far worse.
pub fn plan_directory(existing: Option<u32>) -> (r: DirectoryPlan)
    ensures
        match existing {
            None => r == DirectoryPlan::Create,
            Some(mode) => if shared(mode) {
                r == DirectoryPlan::KeepAndWarn(mode & 0x1ff)
            } else {
                r == DirectoryPlan::Keep
            },
        },
{
    match existing {
        None => DirectoryPlan::Create,
        Some(mode) => if mode & 0x3f != 0 {
            DirectoryPlan::KeepAndWarn(mode & 0x1ff)
        } else {
            DirectoryPlan::Keep
        },
    }
}

/// What is found at the path of the control socket.
#[derive(Debug, Clone, Copy, PartialEq, Eq, Structural)]
pub enum Leftover {
    /// nothing
    Nothing,
    /// something that answers
    Alive,
    /// something that does not
    Dead,
}

/// Whether a leftover is to be removed before binding.
///
/// If something answers, another process owns the path and binding fails with a
/// clear message; if nothing does, the stale file is removed.
pub fn plan_bind(path: &str, found: Leftover) -> (r: Result<bool, String>)
    ensures
        r is Err == (found is Alive),
        r matches Ok(remove) ==> remove == (found is Dead),
        r matches Err(e) ==> e@ == "another process is already serving the control socket at "@
            + crate::lifecycle::snapshot::debug_text(path@),
{
    match found {
        Leftover::Nothing => Ok(false),
        Leftover::Dead => Ok(true),
        Leftover::Alive => {
            let mut m = "another process is already serving the control socket at ".to_string();
            m.append(quoted(path).as_str());
            Err(m)
        },
    }
}

} // verus!
