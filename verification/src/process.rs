//! Process-wide settings, frozen at startup.
//!
//! Logging, file-descriptor limits, pipe capacity and the pre-connect hook are
//! installed once during startup and never change afterwards: they are outside
//! what a reconcile may touch. They are recorded so that the control plane can
//! report the values actually in effect.

use vstd::prelude::*;

use crate::text;
use crate::text::dup_opt;

verus! {

/// What this process was started with.
#[derive(Debug)]
pub struct ProcessSettings {
    pub log_level: Option<String>,
    pub log_output: Option<String>,
    /// soft and hard limit on open files
    pub nofile: Option<(u64, u64)>,
    /// pipe capacity in pages, when it was set explicitly
    pub pipe_page: Option<usize>,
    /// path of the pre-connect hook library, when one was loaded
    pub pre_conn_hook: Option<String>,
}

#[verifier::ext_equal]
pub struct ProcessSettingsView {
    pub log_level: Option<Seq<char>>,
    pub log_output: Option<Seq<char>>,
    pub nofile: Option<(u64, u64)>,
    pub pipe_page: Option<usize>,
    pub pre_conn_hook: Option<Seq<char>>,
}

impl View for ProcessSettings {
    type V = ProcessSettingsView;

    open spec fn view(&self) -> ProcessSettingsView {
        ProcessSettingsView {
            log_level: text::opt_text(self.log_level),
            log_output: text::opt_text(self.log_output),
            nofile: self.nofile,
            pipe_page: self.pipe_page,
            pre_conn_hook: text::opt_text(self.pre_conn_hook),
        }
    }
}

/// Settings that are all unknown.
pub open spec fn no_settings() -> ProcessSettingsView {
    ProcessSettingsView { log_level: None, log_output: None, nofile: None, pipe_page: None, pre_conn_hook: None }
}

impl ProcessSettings {
    /// Settings that are all unknown.
    pub fn empty() -> (r: Self)
        ensures
            r@ == no_settings(),
    {
        ProcessSettings { log_level: None, log_output: None, nofile: None, pipe_page: None, pre_conn_hook: None }
    }
}

impl Default for ProcessSettings {
    fn default() -> (r: Self)
        ensures
            r@ == no_settings(),
    {
        ProcessSettings::empty()
    }
}

impl Clone for ProcessSettings {
    fn clone(&self) -> (r: Self)
        ensures
            r@ == self@,
    {
        ProcessSettings {
            log_level: dup_opt(&self.log_level),
            log_output: dup_opt(&self.log_output),
            nofile: self.nofile,
            pipe_page: self.pipe_page,
            pre_conn_hook: dup_opt(&self.pre_conn_hook),
        }
    }
}

/// Record part of the settings: they become what `f` makes of them.
///
/// Startup learns them from two places, the argument parser and the
/// configuration, so they are built up rather than written in one go.
pub fn amend<F: FnOnce(ProcessSettings) -> ProcessSettings>(settings: &mut ProcessSettings, f: F)
    requires
        f.requires((*old(settings),)),
    ensures
        f.ensures((*old(settings),), *final(settings)),
{
    let mut s = ProcessSettings::empty();
    std::mem::swap(&mut s, settings);
    *settings = f(s);
}

/// The settings in effect.
pub fn effective(settings: &ProcessSettings) -> (r: ProcessSettings)
    ensures
        r@ == settings@,
{
    settings.clone()
}

/// Whether a change leaves something as it is.
pub open spec fn keeps<F: FnOnce(ProcessSettings) -> ProcessSettings, T>(
    f: F,
    field: spec_fn(ProcessSettings) -> T,
) -> bool {
    forall|s: ProcessSettings, t: ProcessSettings| #[trigger] f.ensures((s,), t) ==> field(t) == field(s)
}

/// Changes add up: after `f` and then `g`, whatever `g` does not write is as `f`
/// left it, and whatever neither writes is as it was.
pub proof fn law_changes_add_up<
    F: FnOnce(ProcessSettings) -> ProcessSettings,
    G: FnOnce(ProcessSettings) -> ProcessSettings,
    T,
>(f: F, g: G, before: ProcessSettings, between: ProcessSettings, after: ProcessSettings, field: spec_fn(ProcessSettings) -> T)
    requires
        f.ensures((before,), between),
        g.ensures((between,), after),
        keeps(g, field),
    ensures
        field(after) == field(between),
        keeps(f, field) ==> field(after) == field(before),
{
}

} // verus!
