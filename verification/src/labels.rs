//! Names and one-line labels for kinds, classes and rules, and the kind
//! filters the `sdt` views use.

use vstd::prelude::*;
use crate::kind::Kind;
use crate::classify::{Class, ExtraRule};
use crate::decimal::{spec_decimal, push_decimal};

verus! {

/// The label of an extra rule.
pub open spec fn spec_rule_label(rule: ExtraRule) -> Seq<char> {
    match rule {
        ExtraRule::NameTooLong => "name-too-long"@,
        ExtraRule::NonAlnum => "non-alnum"@,
        ExtraRule::NonCanonicalDirForm => "non-canonical-dir-form"@,
        ExtraRule::FileNamedDirIndex => "file-named-dir-index"@,
        ExtraRule::DirNamedFileIndex => "dir-named-file-index"@,
        ExtraRule::TenMissingPredecessors => "ten-missing-predecessors"@,
        ExtraRule::UnsupportedType => "unsupported-type"@,
    }
}

/// The one-line label of a class.
pub open spec fn spec_class_label(class: Class) -> Seq<char> {
    match class {
        Class::Sidecar => "sidecar"@,
        Class::CoveredFile { ordinal } => "file ordinal="@ + spec_decimal(ordinal as nat),
        Class::CoveredDir { ordinal } => "dir ordinal="@ + spec_decimal(ordinal as nat),
        Class::ExtraFile { rule } => "extra_file rule="@ + spec_rule_label(rule),
        Class::ExtraDir { rule } => "extra_dir rule="@ + spec_rule_label(rule),
        Class::ExtraOther { rule } => "extra_other rule="@ + spec_rule_label(rule),
    }
}

/// The name of a kind.
pub open spec fn spec_kind_name(kind: Kind) -> Seq<char> {
    match kind {
        Kind::File => "file"@,
        Kind::Dir => "dir"@,
    }
}

/// Whether a class is shown under a kind filter: no filter shows all; a
/// kind shows its covered and extra entries.
pub open spec fn spec_filtered(class: Class, kind: Option<Kind>) -> bool {
    match kind {
        None => true,
        Some(Kind::File) => class is CoveredFile || class is ExtraFile,
        Some(Kind::Dir) => class is CoveredDir || class is ExtraDir,
    }
}

/// The label of an extra rule.
pub fn rule_label(rule: &ExtraRule) -> (r: &'static str)
    ensures
        r@ == spec_rule_label(*rule),
{
    match rule {
        ExtraRule::NameTooLong => "name-too-long",
        ExtraRule::NonAlnum => "non-alnum",
        ExtraRule::NonCanonicalDirForm => "non-canonical-dir-form",
        ExtraRule::FileNamedDirIndex => "file-named-dir-index",
        ExtraRule::DirNamedFileIndex => "dir-named-file-index",
        ExtraRule::TenMissingPredecessors => "ten-missing-predecessors",
        ExtraRule::UnsupportedType => "unsupported-type",
    }
}

fn labelled(prefix: &str, rule: &ExtraRule) -> (r: String)
    ensures
        r@ == prefix@ + spec_rule_label(*rule),
{
    let mut out = String::new();
    out.append(prefix);
    out.append(rule_label(rule));
    assert(out@ =~= prefix@ + spec_rule_label(*rule));
    out
}

fn numbered(prefix: &str, n: u64) -> (r: String)
    ensures
        r@ == prefix@ + spec_decimal(n as nat),
{
    let mut out = String::new();
    out.append(prefix);
    push_decimal(&mut out, n);
    assert(out@ =~= prefix@ + spec_decimal(n as nat));
    out
}

/// The one-line label of a class, e.g. `file ordinal=3` or
/// `extra_dir rule=non-alnum`.
pub fn class_label(class: &Class) -> (r: String)
    ensures
        r@ == spec_class_label(*class),
{
    match class {
        Class::Sidecar => {
            let mut out = String::new();
            out.append("sidecar");
            assert(out@ =~= "sidecar"@);
            out
        },
        Class::CoveredFile { ordinal } => numbered("file ordinal=", *ordinal),
        Class::CoveredDir { ordinal } => numbered("dir ordinal=", *ordinal),
        Class::ExtraFile { rule } => labelled("extra_file rule=", rule),
        Class::ExtraDir { rule } => labelled("extra_dir rule=", rule),
        Class::ExtraOther { rule } => labelled("extra_other rule=", rule),
    }
}

/// The name of a kind: `file` or `dir`.
pub fn kind_name(kind: Kind) -> (r: &'static str)
    ensures
        r@ == spec_kind_name(kind),
{
    match kind {
        Kind::File => "file",
        Kind::Dir => "dir",
    }
}

/// The kinds a view covers: the given one, or both (files first).
pub fn kinds(kind: Option<Kind>) -> (r: Vec<Kind>)
    ensures
        r@ == (match kind {
            Some(k) => seq![k],
            None => seq![Kind::File, Kind::Dir],
        }),
{
    match kind {
        Some(k) => {
            let v = vec![k];
            assert(v@ =~= seq![k]);
            v
        },
        None => {
            let v = vec![Kind::File, Kind::Dir];
            assert(v@ =~= seq![Kind::File, Kind::Dir]);
            v
        },
    }
}

/// Whether a class is shown under a kind filter.
pub fn filtered(class: &Class, kind: Option<Kind>) -> (r: bool)
    ensures
        r == spec_filtered(*class, kind),
{
    match kind {
        None => true,
        Some(Kind::File) => match class {
            Class::CoveredFile { .. } | Class::ExtraFile { .. } => true,
            _ => false,
        },
        Some(Kind::Dir) => match class {
            Class::CoveredDir { .. } | Class::ExtraDir { .. } => true,
            _ => false,
        },
    }
}

} // verus!
