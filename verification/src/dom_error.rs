//! The error of a DOM operation that the browser refused, or that gave back something
//! unusable; the renderer logs it and recovers instead of panicking.

use crate::text::push_text;
use vstd::prelude::*;

verus! {

/// A DOM operation that the browser refused, or that gave back something unusable.
#[derive(Debug, Clone, PartialEq, Eq)]
pub struct DomError {
    /// The operation, e.g. `document.createElement`.
    pub op: &'static str,
    /// What went wrong: the exception the browser threw, or what was unexpected.
    pub detail: String,
}

/// The error as it reads: the operation, then what went wrong.
pub open spec fn dom_error_text(op: Seq<char>, detail: Seq<char>) -> Seq<char> {
    op + ": "@ + detail
}

/// The warning that logs an error, with what the renderer did instead.
pub open spec fn dom_warning_text(op: Seq<char>, detail: Seq<char>, recovery: Seq<char>) -> Seq<char> {
    "[halyard] DOM operation failed: "@ + dom_error_text(op, detail) + "\n  recovery: "@ + recovery
}

impl DomError {
    /// An operation that gave back something unusable; `detail` says what.
    pub fn new(op: &'static str, detail: String) -> (error: Self)
        ensures
            error.op@ == op@,
            error.detail@ == detail@,
    {
        DomError { op, detail }
    }

    /// The error as it reads: `{op}: {detail}`.
    pub fn message(&self) -> (text: String)
        ensures
            text@ == dom_error_text(self.op@, self.detail@),
    {
        let mut text = String::new();
        push_text(&mut text, self.op);
        push_text(&mut text, ": ");
        push_text(&mut text, self.detail.as_str());
        text
    }

    /// The console warning that logs this error, with what the renderer did instead
    /// (`recovery`).
    pub fn warning(&self, recovery: &str) -> (text: String)
        ensures
            text@ == dom_warning_text(self.op@, self.detail@, recovery@),
    {
        let mut text = String::new();
        push_text(&mut text, "[halyard] DOM operation failed: ");
        push_text(&mut text, self.message().as_str());
        push_text(&mut text, "\n  recovery: ");
        push_text(&mut text, recovery);
        proof {
            assert(text@ =~= dom_warning_text(self.op@, self.detail@, recovery@));
        }
        text
    }
}

} // verus!
