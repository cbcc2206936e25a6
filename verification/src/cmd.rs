//! What the command line asks for.

use vstd::prelude::*;
use vstd::string::*;

use crate::conf::endpoint::{EndpointConf, EndpointConfView};
use crate::text;
use crate::text::{chars_of, parse_number};

verus! {

/// Control-plane options.
///
/// Without a socket there is no control plane at all.
#[derive(Debug)]
pub struct ControlOpts {
    pub socket: Option<String>,
    pub state_file: Option<String>,
}

/// The parent directory of a path, as `std::path::Path::parent` gives it.
pub uninterp spec fn path_parent(path: Seq<char>) -> Option<Seq<char>>;

/// A path below a directory. An absolute path stays as it is.
pub open spec fn path_join(dir: Seq<char>, name: Seq<char>) -> Seq<char> {
    if name.len() > 0 && name[0] == '/' {
        name
    } else if dir.len() == 0 || dir.last() == '/' {
        dir + name
    } else {
        dir + seq!['/'] + name
    }
}

/// `std::path::Path::parent`: the path without its final component, and nothing
/// if there is none. With the separators of unix, where control sockets are, the
/// result is a function of the path's text alone.
#[verifier::external_body]
fn parent_of(path: &str) -> (r: Option<String>)
    ensures
        text::opt_text(r) == path_parent(path@),
{
    std::path::Path::new(path).parent().map(|p| p.to_string_lossy().into_owned())
}

/// A path below a directory.
fn join(dir: &str, name: &str) -> (r: String)
    ensures
        r@ == path_join(dir@, name@),
{
    let d = chars_of(dir);
    let n = chars_of(name);
    if n.len() > 0 && n[0] == '/' {
        return name.to_string();
    }
    let mut r = dir.to_string();
    if d.len() > 0 && d[d.len() - 1] != '/' {
        r.push('/');
        assert(r@ =~= dir@ + seq!['/']);
    }
    r.append(name);
    r
}

/// Where the last-known-good state is kept, when the control socket is in `dir`:
/// where it was asked for, else next to the socket.
pub open spec fn state_file_beside(given: Option<Seq<char>>, dir: Option<Seq<char>>) -> Option<Seq<char>> {
    match given {
        Some(path) => Some(path),
        None => match dir {
            Some(dir) => Some(path_join(dir, "realm-state.json"@)),
            None => None,
        },
    }
}

/// The directory of the control socket, if there is one.
pub open spec fn socket_dir(socket: Option<Seq<char>>) -> Option<Seq<char>> {
    match socket {
        Some(path) => path_parent(path),
        None => None,
    }
}

impl Default for ControlOpts {
    fn default() -> (r: Self)
        ensures
            r.socket is None,
            r.state_file is None,
    {
        ControlOpts { socket: None, state_file: None }
    }
}

impl Clone for ControlOpts {
    fn clone(&self) -> (r: Self)
        ensures
            text::opt_text(r.socket) == text::opt_text(self.socket),
            text::opt_text(r.state_file) == text::opt_text(self.state_file),
    {
        ControlOpts { socket: text::dup_opt(&self.socket), state_file: text::dup_opt(&self.state_file) }
    }
}

impl ControlOpts {
    /// Where to keep the last-known-good state when the control socket is in
    /// `dir`.
    pub fn state_file_in(&self, dir: Option<String>) -> (r: Option<String>)
        ensures
            text::opt_text(r) == state_file_beside(text::opt_text(self.state_file), text::opt_text(dir)),
    {
        if let Some(path) = &self.state_file {
            return Some(path.clone());
        }
        match dir {
            Some(dir) => Some(join(dir.as_str(), "realm-state.json")),
            None => None,
        }
    }

    /// Where to keep the last-known-good state: next to the control socket
    /// unless another path was given.
    pub fn state_file(&self) -> (r: Option<String>)
        ensures
            text::opt_text(r) == state_file_beside(
                text::opt_text(self.state_file),
                socket_dir(text::opt_text(self.socket)),
            ),
    {
        let dir = match &self.socket {
            Some(path) => parent_of(path.as_str()),
            None => None,
        };
        self.state_file_in(dir)
    }

    /// Where the state is kept when the process runs: nowhere without a control
    /// plane.
    pub fn snapshot_path(&self) -> (r: Option<String>)
        ensures
            self.socket is None ==> r is None,
            self.socket is Some ==> text::opt_text(r) == state_file_beside(
                text::opt_text(self.state_file),
                socket_dir(text::opt_text(self.socket)),
            ),
    {
        if self.socket.is_none() {
            return None;
        }
        self.state_file()
    }
}

/// What to do about the limit on open files.
#[derive(Debug, Clone, Copy, PartialEq, Eq, Structural)]
pub enum NofilePlan {
    /// set it
    To(u64),
    /// raise it as far as it goes
    Bump,
    /// leave it alone: what was given is no number
    Invalid,
}

/// What to do about the limit on open files, given the option for it.
pub fn plan_nofile(given: &Option<String>) -> (r: NofilePlan)
    ensures
        match text::opt_text(*given) {
            None => r == NofilePlan::Bump,
            Some(s) => match text::parsed_number(s, u64::MAX as int) {
                Ok(n) => r == NofilePlan::To(n as u64),
                Err(_) => r == NofilePlan::Invalid,
            },
        },
{
    match given {
        None => NofilePlan::Bump,
        Some(s) => match parse_number(&chars_of(s.as_str()), u64::MAX) {
            Ok(n) => NofilePlan::To(n),
            Err(_) => NofilePlan::Invalid,
        },
    }
}

/// Bytes in a page of a pipe.
pub const PIPE_PAGE: usize = 0x1000;

/// What to do about the capacity of pipes.
#[derive(Debug, Clone, Copy, PartialEq, Eq, Structural)]
pub enum PipePlan {
    /// leave it alone
    Keep,
    To { page: usize, bytes: usize },
    /// leave it alone: what was given is no number of pages
    Invalid,
}

/// What to do about the capacity of pipes, given the option for it in pages.
pub fn plan_pipe(given: &Option<String>) -> (r: PipePlan)
    ensures
        match text::opt_text(*given) {
            None => r == PipePlan::Keep,
            Some(s) => match text::parsed_number(s, usize::MAX as int) {
                Ok(n) => if n * PIPE_PAGE <= usize::MAX {
                    r == (PipePlan::To { page: n as usize, bytes: (n * PIPE_PAGE) as usize })
                } else {
                    r == PipePlan::Invalid
                },
                Err(_) => r == PipePlan::Invalid,
            },
        },
        r matches PipePlan::To { page, bytes } ==> bytes == page * 4096,
{
    match given {
        None => PipePlan::Keep,
        Some(s) => match parse_number(&chars_of(s.as_str()), usize::MAX as u64) {
            Ok(n) => {
                let page: usize = n as usize;
                if page <= usize::MAX / PIPE_PAGE {
                    PipePlan::To { page, bytes: page * PIPE_PAGE }
                } else {
                    PipePlan::Invalid
                }
            },
            Err(_) => PipePlan::Invalid,
        },
    }
}

/// What the process is to do. `O` is what overrides a configuration.
#[derive(Debug)]
pub enum CmdInput<O> {
    Config(String, O, ControlOpts),
    Endpoint(EndpointConf, O, ControlOpts),
    Nothing,
}

/// The options of a single rule.
#[derive(Debug)]
pub struct RuleArgs {
    pub local: Option<String>,
    pub remote: Option<String>,
    pub through: Option<String>,
    pub interface: Option<String>,
    pub listen_interface: Option<String>,
    pub listen_transport: Option<String>,
    pub remote_transport: Option<String>,
}

/// The rule the options describe, if both its addresses are given.
pub open spec fn rule_of(args: RuleArgs) -> Option<EndpointConfView> {
    if args.local is Some && args.remote is Some {
        Some(
            EndpointConfView {
                through: text::opt_text(args.through),
                interface: text::opt_text(args.interface),
                listen_interface: text::opt_text(args.listen_interface),
                listen_transport: text::opt_text(args.listen_transport),
                remote_transport: text::opt_text(args.remote_transport),
                ..crate::conf::endpoint::plain_conf(args.local->0@, args.remote->0@)
            },
        )
    } else {
        None
    }
}

impl RuleArgs {
    /// The rule the options describe, if both its addresses are given.
    pub fn into_rule(self) -> (r: Option<EndpointConf>)
        ensures
            (match r {
                Some(c) => Some(c@),
                None => None,
            }) == rule_of(self),
            r matches Some(c) ==> {
                &&& self.local == Some(c.listen)
                &&& self.remote == Some(c.remote)
                &&& c.through == self.through
                &&& c.interface == self.interface
                &&& c.listen_interface == self.listen_interface
                &&& c.listen_transport == self.listen_transport
                &&& c.remote_transport == self.remote_transport
            },
    {
        match (self.local, self.remote) {
            (Some(listen), Some(remote)) => {
                let mut c = EndpointConf::plain(listen, remote);
                c.through = self.through;
                c.interface = self.interface;
                c.listen_interface = self.listen_interface;
                c.listen_transport = self.listen_transport;
                c.remote_transport = self.remote_transport;
                Some(c)
            },
            _ => None,
        }
    }
}

/// What the process is to do: a configuration file comes before a single rule,
/// and with neither there is nothing to do.
pub fn choose_input<O>(config: Option<String>, rule: RuleArgs, opts: O, control: ControlOpts) -> (r: CmdInput<O>)
    ensures
        match r {
            CmdInput::Config(path, o, c) => config == Some(path) && o == opts && c == control,
            CmdInput::Endpoint(conf, o, c) => config is None && rule_of(rule) == Some(conf@) && o == opts && c
                == control,
            CmdInput::Nothing => config is None && rule_of(rule) is None,
        },
{
    if let Some(path) = config {
        return CmdInput::Config(path, opts, control);
    }
    match rule.into_rule() {
        Some(conf) => CmdInput::Endpoint(conf, opts, control),
        None => CmdInput::Nothing,
    }
}

} // verus!
