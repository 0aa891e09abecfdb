//! The verdict of `check` on a node's `.0`: missing, malformed, or drifted
//! from the values its present state derives.

use vstd::prelude::*;
use crate::sidecar::{Sidecar, SidecarView, spec_parse, spec_serialize, no_newline, law_parse_serialize};

verus! {

/// What is wrong with a node's `.0`.
#[derive(Debug, Clone, PartialEq, Eq)]
pub enum CheckFinding {
    /// The node has no `.0`, and one is required.
    Missing,
    /// The `.0` does not read; the reader's message.
    Malformed(String),
    /// The `.0` reads, but its values differ from the derived ones.
    Drift,
}

/// A finding as plain values.
pub enum CheckFindingView {
    Missing,
    Malformed(Seq<char>),
    Drift,
}

impl View for CheckFinding {
    type V = CheckFindingView;

    open spec fn view(&self) -> CheckFindingView {
        match self {
            CheckFinding::Missing => CheckFindingView::Missing,
            CheckFinding::Malformed(m) => CheckFindingView::Malformed(m@),
            CheckFinding::Drift => CheckFindingView::Drift,
        }
    }
}

/// A possible finding as plain values.
pub open spec fn finding_view(r: Option<CheckFinding>) -> Option<CheckFindingView> {
    match r {
        Some(f) => Some(f@),
        None => None,
    }
}

/// The verdict on a node's `.0` text (`None`: the node has none), against
/// the derived values (`None`: the format alone is checked). A missing `.0`
/// is a finding only when required (`strict`).
pub open spec fn spec_check(
    text: Option<Seq<char>>,
    derived: Option<SidecarView>,
    strict: bool,
) -> Option<CheckFindingView> {
    match text {
        None => if strict {
            Some(CheckFindingView::Missing)
        } else {
            None
        },
        Some(t) => match spec_parse(t) {
            Err(e) => Some(CheckFindingView::Malformed(e)),
            Ok(v) => match derived {
                Some(d) => if v == d {
                    None
                } else {
                    Some(CheckFindingView::Drift)
                },
                None => None,
            },
        },
    }
}

/// The nine values of two sidecars are equal.
fn same_values(a: &Sidecar, b: &Sidecar) -> (r: bool)
    ensures
        r == (a@ == b@),
{
    a.last_file == b.last_file && a.last_dir == b.last_dir && a.extra_files == b.extra_files
        && a.extra_dirs == b.extra_dirs && a.missing_files == b.missing_files && a.missing_dirs
        == b.missing_dirs && a.total_files == b.total_files && a.total_dirs == b.total_dirs
        && a.total_bytes == b.total_bytes
}

/// Checks a node's `.0`: `text` is its contents, or `None` when the node has
/// none; `derived` is the sidecar its present state derives, or `None` to
/// check the format only; `strict` requires a `.0`.
pub fn check_sidecar(text: Option<&str>, derived: Option<&Sidecar>, strict: bool) -> (r: Option<
    CheckFinding,
>)
    ensures
        finding_view(r) == spec_check(
            match text {
                Some(t) => Some(t@),
                None => None,
            },
            match derived {
                Some(d) => Some(d@),
                None => None,
            },
            strict,
        ),
{
    match text {
        None => if strict {
            Some(CheckFinding::Missing)
        } else {
            None
        },
        Some(t) => match Sidecar::parse(t) {
            Err(e) => Some(CheckFinding::Malformed(e)),
            Ok(parsed) => match derived {
                Some(d) => if same_values(&parsed, d) {
                    None
                } else {
                    Some(CheckFinding::Drift)
                },
                None => None,
            },
        },
    }
}

/// Law (a written sidecar checks clean): the text that `serialize` writes
/// for some values is neither malformed nor drifted against those values,
/// whenever neither index field holds a line feed.
pub proof fn law_written_sidecar_checks_clean(v: SidecarView, strict: bool)
    requires
        no_newline(v.last_file),
        no_newline(v.last_dir),
    ensures
        spec_check(Some(spec_serialize(v)), Some(v), strict) == None::<CheckFindingView>,
        spec_check(Some(spec_serialize(v)), None, strict) == None::<CheckFindingView>,
{
    law_parse_serialize(v);
}

/// Law (what `check` finds): with no `.0` the finding is "missing" exactly
/// when one is required; an unreadable `.0` is malformed, with the reader's
/// message; a readable one is never a finding when only the format is
/// checked, and against derived values it is clean exactly when all nine
/// values agree, and drifted otherwise.
pub proof fn law_check_findings(t: Seq<char>, d: SidecarView, strict: bool)
    ensures
        spec_check(None, Some(d), strict) == (if strict {
            Some(CheckFindingView::Missing)
        } else {
            None
        }),
        spec_check(None, None, strict) == (if strict {
            Some(CheckFindingView::Missing)
        } else {
            None
        }),
        spec_parse(t) is Err ==> spec_check(Some(t), Some(d), strict) == Some(
            CheckFindingView::Malformed(spec_parse(t)->Err_0),
        ),
        spec_parse(t) is Err ==> spec_check(Some(t), None, strict) == Some(
            CheckFindingView::Malformed(spec_parse(t)->Err_0),
        ),
        spec_parse(t) is Ok ==> spec_check(Some(t), None, strict) == None::<CheckFindingView>,
        spec_parse(t) is Ok ==> ({
            let v = spec_parse(t)->Ok_0;
            let same = v.last_file == d.last_file && v.last_dir == d.last_dir && v.extra_files
                == d.extra_files && v.extra_dirs == d.extra_dirs && v.missing_files
                == d.missing_files && v.missing_dirs == d.missing_dirs && v.total_files
                == d.total_files && v.total_dirs == d.total_dirs && v.total_bytes == d.total_bytes;
            &&& same ==> spec_check(Some(t), Some(d), strict) == None::<CheckFindingView>
            &&& !same ==> spec_check(Some(t), Some(d), strict) == Some(CheckFindingView::Drift)
        }),
{
}

} // verus!
