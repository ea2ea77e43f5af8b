//! What can go wrong in an export.
use vstd::prelude::*;

use crate::NodeId;

verus! {

/// A mistake in a template. Spans are byte ranges in the text of the section
/// that holds the mistake.
#[derive(Debug, PartialEq, Eq)]
#[allow(inconsistent_fields)]
pub enum TemplateError {
    /// A `<%name%>` placeholder with a name that is not known.
    UnknownPlaceholder { name: String, section: &'static str, span: std::ops::Range<usize> },
    /// A `<%` without `%>`.
    UnterminatedPlaceholder { section: &'static str, span: std::ops::Range<usize> },
    /// A `{name ...}` command that is not known.
    UnknownCommand { name: String, section: &'static str, span: std::ops::Range<usize> },
    /// A command whose argument makes no sense.
    InvalidCommandArg {
        command: &'static str,
        reason: String,
        section: &'static str,
        span: std::ops::Range<usize>,
    },
    /// A command that is known and deliberately not carried out.
    UnsupportedCommand { name: String, section: &'static str, span: std::ops::Range<usize> },
    /// A `{` without `}`.
    UnterminatedCommand { section: &'static str, span: std::ops::Range<usize> },
    /// An `{else}` or `{endif}` without an `{if}`.
    UnmatchedConditional {
        command: &'static str,
        section: &'static str,
        span: std::ops::Range<usize>,
    },
    /// An `{if}` without an `{endif}`.
    MissingEndif { section: &'static str, span: std::ops::Range<usize> },
    /// `{if}` blocks in each other beyond the limit.
    ConditionalNestingTooDeep { section: &'static str },
    /// An `{if}` whose condition is none of the names it can test.
    InvalidCondition { reason: String, section: &'static str, span: std::ops::Range<usize> },
    /// A pad command that no placeholder follows.
    DanglingPad { command: &'static str, section: &'static str, span: std::ops::Range<usize> },
}

/// What went wrong in an export.
#[derive(Debug, PartialEq, Eq)]
pub enum ExportError {
    /// The root is no node of the tree.
    InvalidRoot(NodeId),
    /// The template has a mistake.
    Template(TemplateError),
}

} // verus!
