//! Last-known-good snapshot.
//!
//! Records what was being served, so that a restarted process resumes
//! forwarding at once instead of waiting for its next submission. The file is
//! replaced atomically: a temporary file in the same directory is written and
//! renamed over it.

use vstd::prelude::*;
use vstd::string::*;

use crate::idmap::IdMap;
use crate::io::{ErrorKind, IoError, IoErrorView};
use crate::lifecycle::types::{EndpointId, Generation};
use crate::text::push_number;

verus! {

/// Format version of the snapshot file, so a future change can be detected
/// instead of misread.
pub const SNAPSHOT_VERSION: u32 = 1;

/// What was being served when the snapshot was written.
pub struct Snapshot<S> {
    /// generation the desired state belongs to
    pub generation: Generation,
    /// whether that generation was only partially applied
    pub partial: bool,
    /// desired endpoints, by caller-provided id
    pub endpoints: IdMap<S>,
}

#[verifier::ext_equal]
pub struct SnapshotView<V> {
    pub generation: Generation,
    pub partial: bool,
    pub endpoints: Map<Seq<char>, V>,
}

impl<S: View> View for Snapshot<S> {
    type V = SnapshotView<S::V>;

    open spec fn view(&self) -> SnapshotView<S::V> {
        SnapshotView {
            generation: self.generation,
            partial: self.partial,
            endpoints: crate::lifecycle::plan::spec_views(self.endpoints@),
        }
    }
}

/// A snapshot file, as parsed.
pub struct Envelope<S> {
    pub version: u32,
    pub snapshot: Snapshot<S>,
}

/// What reading the snapshot file gave.
pub enum FileRead<S> {
    /// it could not be read, or there is no such file
    Failed(IoError),
    /// it was read, but is not a snapshot
    Malformed(String),
    Parsed(Envelope<S>),
}

/// Reads and writes the snapshot file.
#[derive(Debug)]
pub struct SnapshotStore {
    path: String,
}

/// A path in quotes with its special characters escaped, as `{:?}` shows it.
pub uninterp spec fn debug_text(path: Seq<char>) -> Seq<char>;

/// `format!("{:?}", path)` for a `std::path::Path`: the text that `Debug` gives
/// it, which depends on the characters of the path alone.
#[verifier::external_body]
pub(crate) fn quoted(path: &str) -> (r: String)
    ensures
        r@ == debug_text(path@),
{
    format!("{:?}", std::path::Path::new(path))
}

/// An error that comes from no system call.
pub open spec fn other_error(message: Seq<char>) -> IoErrorView {
    IoErrorView { kind: ErrorKind::Other, message }
}

/// Whether reading found that there is no file.
pub open spec fn is_missing<S>(read: FileRead<S>) -> bool {
    read matches FileRead::Failed(e) && e.kind == ErrorKind::NotFound
}

/// Why a snapshot file is refused. A file that is there but cannot be read is
/// refused with the kind of error that reading it gave.
pub open spec fn load_error<S>(path: Seq<char>, read: FileRead<S>) -> Option<IoErrorView> {
    match read {
        FileRead::Failed(e) => if e.kind == ErrorKind::NotFound {
            None
        } else {
            Some(
                IoErrorView {
                    kind: e.kind,
                    message: "failed to read "@ + debug_text(path) + ": "@ + e.message@,
                },
            )
        },
        FileRead::Malformed(e) => Some(other_error("failed to parse "@ + debug_text(path) + ": "@ + e@)),
        FileRead::Parsed(envelope) => if envelope.version == SNAPSHOT_VERSION {
            None
        } else {
            Some(
                other_error(
                    "unsupported snapshot version "@ + crate::text::decimal(envelope.version as nat) + " in "@
                        + debug_text(path) + ", expected "@ + crate::text::decimal(SNAPSHOT_VERSION as nat),
                ),
            )
        },
    }
}

/// Name of a temporary file next to a snapshot.
pub open spec fn temp_name(base: Seq<char>, process: u32, seq: u64) -> Seq<char> {
    base + "."@ + crate::text::decimal(process as nat) + "."@ + crate::text::decimal(seq as nat) + ".tmp"@
}

impl SnapshotStore {
    pub closed spec fn location(&self) -> Seq<char> {
        self.path@
    }

    /// A store for the file at `path`.
    pub fn new(path: String) -> (r: Self)
        ensures
            r.location() == path@,
    {
        SnapshotStore { path }
    }

    /// Where the snapshot is.
    pub fn path(&self) -> (r: &str)
        ensures
            r@ == self.location(),
    {
        self.path.as_str()
    }

    /// The snapshot, if there is one.
    ///
    /// `Ok(None)` means there is nothing to restore; an unreadable or corrupt
    /// snapshot is an error, never a silent empty state: restoring nothing when
    /// something was expected would drop every endpoint.
    pub fn load<S>(&self, read: FileRead<S>) -> (r: Result<Option<Snapshot<S>>, IoError>)
        ensures
            r is Err == load_error(self.location(), read) is Some,
            r matches Err(e) ==> load_error(self.location(), read) == Some(e@),
            r matches Ok(None) <==> is_missing(read),
            r matches Ok(Some(s)) ==> read matches FileRead::Parsed(envelope) && s == envelope.snapshot,
    {
        match read {
            FileRead::Failed(e) => {
                if e.kind == ErrorKind::NotFound {
                    return Ok(None);
                }
                let mut m = "failed to read ".to_string();
                m.append(quoted(self.path.as_str()).as_str());
                m.append(": ");
                m.append(e.message.as_str());
                Err(IoError { kind: e.kind, message: m })
            },
            FileRead::Malformed(e) => {
                let mut m = "failed to parse ".to_string();
                m.append(quoted(self.path.as_str()).as_str());
                m.append(": ");
                m.append(e.as_str());
                Err(IoError { kind: ErrorKind::Other, message: m })
            },
            FileRead::Parsed(envelope) => {
                if envelope.version == SNAPSHOT_VERSION {
                    return Ok(Some(envelope.snapshot));
                }
                let mut m = "unsupported snapshot version ".to_string();
                push_number(&mut m, envelope.version as u64, 10);
                m.append(" in ");
                m.append(quoted(self.path.as_str()).as_str());
                m.append(", expected ");
                push_number(&mut m, SNAPSHOT_VERSION as u64, 10);
                Err(IoError { kind: ErrorKind::Other, message: m })
            },
        }
    }

    /// A snapshot as it is written.
    pub fn envelope<S>(snapshot: Snapshot<S>) -> (r: Envelope<S>)
        ensures
            r.version == SNAPSHOT_VERSION,
            r.snapshot == snapshot,
    {
        Envelope { version: SNAPSHOT_VERSION, snapshot }
    }

    /// Name of the temporary file a snapshot is written to, next to the file
    /// `base` that it replaces.
    pub fn temp_name(base: &str, process: u32, seq: u64) -> (r: String)
        ensures
            r@ == temp_name(base@, process, seq),
    {
        let mut r = base.to_string();
        r.append(".");
        push_number(&mut r, process as u64, 10);
        r.append(".");
        push_number(&mut r, seq, 10);
        r.append(".tmp");
        r
    }
}

/// What is written is what is read back.
pub proof fn law_written_snapshot_loads<S>(path: Seq<char>, envelope: Envelope<S>)
    requires
        envelope.version == SNAPSHOT_VERSION,
    ensures
        load_error(path, FileRead::Parsed(envelope)) is None,
{
}

/// A file that is there never comes out as nothing to restore, and one that
/// cannot be read is refused with the kind of error that reading it gave.
pub proof fn law_only_a_missing_file_is_nothing<S>(path: Seq<char>, read: FileRead<S>)
    ensures
        load_error(path, read) is None <==> is_missing(read) || (read matches FileRead::Parsed(e) && e.version
            == SNAPSHOT_VERSION),
        read is Failed && !is_missing(read) ==> load_error(path, read)->0.kind == read->Failed_0.kind,
{
}

/// Result of restoring a snapshot at startup.
#[derive(Debug)]
pub struct RestoreOutcome {
    /// generation the restored state belongs to
    pub generation: Option<Generation>,
    /// endpoints that came back
    pub restored: usize,
    /// endpoints that could not, with the reason
    pub failed: Vec<(EndpointId, String)>,
    /// whether the restored generation is partial
    pub partial: bool,
}

#[verifier::ext_equal]
pub struct RestoreView {
    pub generation: Option<Generation>,
    pub restored: int,
    pub failed: Seq<(Seq<char>, Seq<char>)>,
    pub partial: bool,
}

/// The ids and reasons of a list.
pub open spec fn failure_views(v: Seq<(EndpointId, String)>) -> Seq<(Seq<char>, Seq<char>)> {
    Seq::new(v.len(), |i: int| (v[i].0@, v[i].1@))
}

impl View for RestoreOutcome {
    type V = RestoreView;

    open spec fn view(&self) -> RestoreView {
        RestoreView {
            generation: self.generation,
            restored: self.restored as int,
            failed: failure_views(self.failed@),
            partial: self.partial,
        }
    }
}

impl Default for RestoreOutcome {
    fn default() -> (r: Self)
        ensures
            r@ == (RestoreView { generation: None, restored: 0, failed: Seq::empty(), partial: false }),
    {
        let r = RestoreOutcome { generation: None, restored: 0, failed: Vec::new(), partial: false };
        assert(r@.failed =~= Seq::empty());
        r
    }
}

} // verus!
