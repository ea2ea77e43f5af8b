//! What a scan on the command line says at its end.
use vstd::prelude::*;
use vstd::string::*;

use crate::export::{ExportOptions, SizeMode};
use crate::scan;
use crate::scan::{ProblemView, ScanProblem, ScanSummary, SummaryView};
use crate::sizes;
use crate::text;

verus! {

/// The file that an export goes to: that of the option, or else the one that
/// stands by itself. Without either the arguments are wrong.
pub fn output_file(out: Option<String>, out_file: Option<String>) -> (r: Option<String>)
    ensures
        r == if out is Some {
            out
        } else {
            out_file
        },
{
    match out {
        Some(o) => Some(o),
        None => out_file,
    }
}

/// What siblings are ordered by in an export.
pub fn export_options(logical: bool) -> (o: ExportOptions)
    ensures
        o.size_mode == if logical {
            SizeMode::Logical
        } else {
            SizeMode::Allocated
        },
{
    ExportOptions {
        size_mode: if logical {
            SizeMode::Logical
        } else {
            SizeMode::Allocated
        },
    }
}

/// The sizes of a scan in words.
pub open spec fn sizes_text(s: SummaryView, logical: bool) -> Seq<char> {
    if logical {
        sizes::bytes_text(s.logical_size as nat) + " logical total"@
    } else {
        sizes::bytes_text(s.allocated_size as nat) + " allocated / "@ + sizes::bytes_text(
            s.logical_size as nat,
        ) + " logical total"@
    }
}

/// The counts of a scan in words.
pub open spec fn counts_text(s: SummaryView) -> Seq<char> {
    text::dec(s.entries as nat) + " entries ("@ + text::dec(s.files as nat) + " files, "@
        + text::dec(s.dirs as nat) + " dirs, "@ + text::dec(s.unaccessible as nat)
        + " unaccessible)"@
}

/// A problem of a scan in words.
pub open spec fn problem_text(p: ProblemView) -> Seq<char> {
    match p.path {
        Some(path) => path + ": "@ + p.message,
        None => p.message,
    }
}

/// The sizes of a scan in words.
pub fn describe_sizes(summary: &ScanSummary, logical: bool) -> (t: String)
    ensures
        t@ == sizes_text(summary@, logical),
{
    if logical {
        let mut t = sizes::format_bytes(summary.logical_size);
        t.append(" logical total");
        t
    } else {
        let mut t = sizes::format_bytes(summary.allocated_size);
        t.append(" allocated / ");
        t.append(sizes::format_bytes(summary.logical_size).as_str());
        t.append(" logical total");
        t
    }
}

/// The counts of a scan in words.
pub fn describe_counts(summary: &ScanSummary) -> (t: String)
    ensures
        t@ == counts_text(summary@),
{
    let mut t = String::new();
    text::push_decimal(&mut t, summary.entries);
    t.append(" entries (");
    text::push_decimal(&mut t, summary.files);
    t.append(" files, ");
    text::push_decimal(&mut t, summary.dirs);
    t.append(" dirs, ");
    text::push_decimal(&mut t, summary.unaccessible);
    t.append(" unaccessible)");
    proof {
        assert(t@ =~= counts_text(summary@));
    }
    t
}

/// A problem of a scan in words.
pub fn describe_problem(problem: &ScanProblem) -> (t: String)
    ensures
        t@ == problem_text(problem@),
{
    match &problem.path {
        Some(path) => {
            let mut t = path.clone();
            t.append(": ");
            t.append(problem.message.as_str());
            t
        },
        None => problem.message.clone(),
    }
}

/// The problems of a scan in words.
pub open spec fn problem_texts(ps: Seq<ProblemView>) -> Seq<Seq<char>> {
    Seq::new(ps.len(), |i: int| problem_text(ps[i]))
}

/// The problems of a scan in words.
pub fn describe_problems(summary: &ScanSummary) -> (v: Vec<String>)
    ensures
        text::texts(v@) == problem_texts(summary@.errors),
{
    let mut v: Vec<String> = Vec::new();
    for i in 0..summary.errors.len()
        invariant
            v@.len() == i,
            forall|j: int|
                0 <= j < i ==> (#[trigger] v@[j])@ == problem_texts(
                    scan::problem_views(summary.errors@),
                )[j],
    {
        v.push(describe_problem(&summary.errors[i]));
    }
    proof {
        assert(text::texts(v@) =~= problem_texts(summary@.errors));
    }
    v
}

/// Sizes are told as allocated and logical, or as logical alone where that is asked
/// for.
pub proof fn law_told_sizes(s: SummaryView)
    ensures
        sizes_text(s, true) == sizes::bytes_text(s.logical_size as nat) + " logical total"@,
        sizes_text(s, false) == sizes::bytes_text(s.allocated_size as nat) + " allocated / "@
            + sizes::bytes_text(s.logical_size as nat) + " logical total"@,
{
}

/// Counts are told in the order of the words beside them.
pub proof fn law_told_counts(s: SummaryView)
    ensures
        counts_text(s) == text::dec(s.entries as nat) + " entries ("@ + text::dec(s.files as nat)
            + " files, "@ + text::dec(s.dirs as nat) + " dirs, "@ + text::dec(s.unaccessible as nat)
            + " unaccessible)"@,
{
}

/// A problem is told with its path before its message, where it has one.
pub proof fn law_told_problems(path: Seq<char>, message: Seq<char>)
    ensures
        problem_text(ProblemView { path: Some(path), message }) == path + ": "@ + message,
        problem_text(ProblemView { path: None, message }) == message,
{
}

} // verus!
