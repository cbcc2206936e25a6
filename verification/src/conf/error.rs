//! Why a configuration is refused.

use vstd::prelude::*;
use vstd::string::*;

verus! {

/// A field of the configuration that cannot be made sense of.
#[derive(Debug, PartialEq, Eq)]
pub struct BuildError {
    pub field: &'static str,
    pub value: String,
    pub reason: String,
}

#[verifier::ext_equal]
pub struct BuildErrorView {
    pub field: Seq<char>,
    pub value: Seq<char>,
    pub reason: Seq<char>,
}

impl View for BuildError {
    type V = BuildErrorView;

    open spec fn view(&self) -> BuildErrorView {
        BuildErrorView { field: self.field@, value: self.value@, reason: self.reason@ }
    }
}

/// What an error says.
pub open spec fn build_error_text(e: BuildErrorView) -> Seq<char> {
    "invalid `"@ + e.field + "` = `"@ + e.value + "`: "@ + e.reason
}

impl BuildError {
    /// A field that cannot be used, and why.
    pub fn new(field: &'static str, value: &str, reason: String) -> (r: Self)
        ensures
            r@ == (BuildErrorView { field: field@, value: value@, reason: reason@ }),
    {
        BuildError { field, value: value.to_string(), reason }
    }

    /// The error as text: which field, its value, and what is wrong with it.
    pub fn message(&self) -> (r: String)
        ensures
            r@ == build_error_text(self@),
    {
        let mut r = "invalid `".to_string();
        r.append(self.field);
        r.append("` = `");
        r.append(self.value.as_str());
        r.append("`: ");
        r.append(self.reason.as_str());
        r
    }
}

} // verus!
