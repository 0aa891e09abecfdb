//! Portability hazards of a node: fan-out caps, Windows reserved device
//! names, and names that collide when case is folded.

use vstd::prelude::*;
use crate::classify::{Class, EntryClass};
use crate::derive::{count_dirs, without_sidecars};
use crate::order::{stable_sort_by_key, is_stable_sort};
use crate::text::{chars_of, push_char};

verus! {

/// GitHub's soft cap on combined entries per directory.
pub const GITHUB_ENTRY_CAP: usize = 3000;

/// Subdirectories per directory above which ext4's hard cap is exceeded.
pub const EXT4_SUBDIR_CAP: usize = 64000;

/// A portability hazard of a node.
#[derive(Debug, Clone)]
pub enum PortabilityIssue {
    /// More than 3,000 combined entries (GitHub soft cap).
    EntryCap,
    /// More than 64,000 subdirectories (ext4 hard cap).
    SubdirCap,
    /// An entry whose name, case folded, is `aux`, `con`, `prn` or `nul`.
    ReservedName(String),
    /// Entries whose names are equal once case is folded (in entry order).
    CaseFoldCollision(Vec<String>),
}

/// A portability hazard as plain values.
pub enum PortabilityIssueView {
    EntryCap,
    SubdirCap,
    ReservedName(Seq<char>),
    CaseFoldCollision(Seq<Seq<char>>),
}

impl View for PortabilityIssue {
    type V = PortabilityIssueView;

    open spec fn view(&self) -> PortabilityIssueView {
        match self {
            PortabilityIssue::EntryCap => PortabilityIssueView::EntryCap,
            PortabilityIssue::SubdirCap => PortabilityIssueView::SubdirCap,
            PortabilityIssue::ReservedName(n) => PortabilityIssueView::ReservedName(n@),
            PortabilityIssue::CaseFoldCollision(ns) => PortabilityIssueView::CaseFoldCollision(
                ns@.map_values(|n: String| n@),
            ),
        }
    }
}

/// ASCII uppercase letters to lowercase; every other character unchanged.
pub open spec fn ascii_lower(c: char) -> char {
    if 'A' <= c && c <= 'Z' {
        ((c as int) + 32) as char
    } else {
        c
    }
}

/// A name with its ASCII letters folded to lowercase.
pub open spec fn fold_case(s: Seq<char>) -> Seq<char> {
    s.map_values(|c: char| ascii_lower(c))
}

/// The name, case folded, is a Windows reserved device name.
pub open spec fn is_reserved(s: Seq<char>) -> bool {
    let f = fold_case(s);
    f == seq!['a', 'u', 'x'] || f == seq!['c', 'o', 'n'] || f == seq!['p', 'r', 'n'] || f
        == seq!['n', 'u', 'l']
}

/// The reserved-name hazards of the entries, in entry order.
pub open spec fn reserved_issues(s: Seq<EntryClass>) -> Seq<PortabilityIssueView>
    decreases s.len(),
{
    if s.len() == 0 {
        Seq::empty()
    } else {
        let init = reserved_issues(s.drop_last());
        if is_reserved(s.last().name@) {
            init.push(PortabilityIssueView::ReservedName(s.last().name@))
        } else {
            init
        }
    }
}

/// `pairs` holds, for each non-sidecar entry in order, its case-folded name
/// and its name.
pub open spec fn folded_pairs(pairs: Seq<(String, String)>, s: Seq<EntryClass>) -> bool {
    let ns = without_sidecars(s);
    &&& pairs.len() == ns.len()
    &&& forall|i: int|
        0 <= i < pairs.len() ==> (#[trigger] pairs[i]).0@ == fold_case(ns[i].name@) && pairs[i].1
            == ns[i].name
}

/// The names of `sorted` grouped into maximal runs of equal keys.
pub open spec fn key_runs(sorted: Seq<(String, String)>) -> Seq<Seq<Seq<char>>>
    decreases sorted.len(),
{
    if sorted.len() == 0 {
        Seq::empty()
    } else {
        let init = sorted.drop_last();
        let r = key_runs(init);
        if init.len() > 0 && init.last().0@ == sorted.last().0@ {
            r.update(r.len() - 1, r.last().push(sorted.last().1@))
        } else {
            r.push(seq![sorted.last().1@])
        }
    }
}

/// The runs of more than one name, as collision hazards.
pub open spec fn collisions(runs: Seq<Seq<Seq<char>>>) -> Seq<PortabilityIssueView>
    decreases runs.len(),
{
    if runs.len() == 0 {
        Seq::empty()
    } else {
        let init = collisions(runs.drop_last());
        if runs.last().len() > 1 {
            init.push(PortabilityIssueView::CaseFoldCollision(runs.last()))
        } else {
            init
        }
    }
}

/// The hazards of a node, given its non-sidecar (folded name, name) pairs
/// sorted by folded name: the entry cap, the subdirectory cap, reserved
/// names in entry order, then case-fold collisions in folded-name order.
pub open spec fn spec_portability(
    s: Seq<EntryClass>,
    sorted: Seq<(String, String)>,
) -> Seq<PortabilityIssueView> {
    (if s.len() > GITHUB_ENTRY_CAP {
        seq![PortabilityIssueView::EntryCap]
    } else {
        Seq::empty()
    }) + (if count_dirs(s) > EXT4_SUBDIR_CAP {
        seq![PortabilityIssueView::SubdirCap]
    } else {
        Seq::empty()
    }) + reserved_issues(s) + collisions(key_runs(sorted))
}

/// The name with its ASCII letters folded to lowercase.
pub fn to_ascii_lowercase(s: &String) -> (r: String)
    ensures
        r@ == fold_case(s@),
{
    let v = chars_of(s.as_str());
    let mut out = String::new();
    let mut i: usize = 0;
    while i < v.len()
        invariant
            i <= v.len(),
            v@ == s@,
            out@ == fold_case(v@.take(i as int)),
        decreases v.len() - i,
    {
        let c = v[i];
        let l = if 'A' <= c && c <= 'Z' {
            ((c as u8) + 32) as char
        } else {
            c
        };
        push_char(&mut out, l);
        i = i + 1;
        assert(out@ =~= fold_case(v@.take(i as int)));
    }
    assert(v@.take(v.len() as int) =~= v@);
    out
}

fn is_reserved_exec(name: &String) -> (r: bool)
    ensures
        r == is_reserved(name@),
{
    let f = to_ascii_lowercase(name);
    let v = chars_of(f.as_str());
    if v.len() != 3 {
        return false;
    }
    let r = (v[0] == 'a' && v[1] == 'u' && v[2] == 'x') || (v[0] == 'c' && v[1] == 'o' && v[2]
        == 'n') || (v[0] == 'p' && v[1] == 'r' && v[2] == 'n') || (v[0] == 'n' && v[1] == 'u'
        && v[2] == 'l');
    proof {
        if r {
            assert(v@ =~= seq![v@[0], v@[1], v@[2]]);
        }
    }
    r
}


/// Views of a list of hazards.
pub open spec fn issue_views(v: Seq<PortabilityIssue>) -> Seq<PortabilityIssueView> {
    v.map_values(|i: PortabilityIssue| i@)
}

/// Groups sorted pairs into maximal runs of equal keys.
fn runs_of(sorted: &Vec<(String, String)>) -> (r: Vec<Vec<String>>)
    ensures
        r@.map_values(|g: Vec<String>| g@.map_values(|n: String| n@)) == key_runs(sorted@),
{
    let ghost sv = sorted@;
    let mut runs: Vec<Vec<String>> = Vec::new();
    let mut j: usize = 0;
    assert(sv.take(0) =~= Seq::<(String, String)>::empty());
    while j < sorted.len()
        invariant
            sv == sorted@,
            j <= sv.len(),
            runs@.map_values(|g: Vec<String>| g@.map_values(|n: String| n@)) == key_runs(
                sv.take(j as int),
            ),
            j > 0 ==> runs.len() > 0,
        decreases sv.len() - j,
    {
        let ghost before = runs@.map_values(|g: Vec<String>| g@.map_values(|n: String| n@));
        proof {
            assert(sv.take(j + 1).drop_last() =~= sv.take(j as int));
            assert(sv.take(j + 1).last() == sv[j as int]);
            if j > 0 {
                assert(sv.take(j as int).last() == sv[j - 1]);
            }
        }
        let name = sorted[j].1.clone();
        if j > 0 && sorted[j].0 == sorted[j - 1].0 {
            let last = runs.len() - 1;
            let mut group = runs.remove(last);
            let ghost gv = group@;
            group.push(name);
            runs.push(group);
            proof {
                assert(group@.map_values(|n: String| n@) =~= gv.map_values(|n: String| n@).push(
                    sv[j as int].1@,
                ));
                assert(runs@.map_values(|g: Vec<String>| g@.map_values(|n: String| n@))
                    =~= before.update(before.len() - 1, before.last().push(sv[j as int].1@)));
            }
        } else {
            let group = vec![name];
            runs.push(group);
            proof {
                assert(group@.map_values(|n: String| n@) =~= seq![sv[j as int].1@]);
                assert(runs@.map_values(|g: Vec<String>| g@.map_values(|n: String| n@))
                    =~= before.push(seq![sv[j as int].1@]));
            }
        }
        j = j + 1;
    }
    assert(sv.take(sv.len() as int) =~= sv);
    runs
}

/// The portability hazards of a node: more than 3,000 entries, more than
/// 64,000 subdirectories, entries named (case folded) `aux`/`con`/`prn`/`nul`
/// in entry order, and groups of non-sidecar names that are equal once case
/// is folded, in folded-name order.
pub fn portability_issues(entries: &Vec<EntryClass>) -> (r: Vec<PortabilityIssue>)
    ensures
        exists|pairs: Seq<(String, String)>, sorted: Seq<(String, String)>|
            #![trigger spec_portability(entries@, sorted), folded_pairs(pairs, entries@)]
            folded_pairs(pairs, entries@) && is_stable_sort(sorted, pairs) && issue_views(r@)
                == spec_portability(entries@, sorted),
{
    let ghost s = entries@;
    let mut out: Vec<PortabilityIssue> = Vec::new();
    let ghost mut head: Seq<PortabilityIssueView> = Seq::empty();
    if entries.len() > GITHUB_ENTRY_CAP {
        out.push(PortabilityIssue::EntryCap);
        proof {
            head = seq![PortabilityIssueView::EntryCap];
        }
    }
    let mut subdirs: usize = 0;
    let mut i: usize = 0;
    assert(s.take(0) =~= Seq::<EntryClass>::empty());
    while i < entries.len()
        invariant
            s == entries@,
            i <= s.len(),
            subdirs == count_dirs(s.take(i as int)),
            subdirs <= i,
        decreases s.len() - i,
    {
        proof {
            assert(s.take(i + 1).drop_last() =~= s.take(i as int));
            assert(s.take(i + 1).last() == s[i as int]);
        }
        match entries[i].class {
            Class::CoveredDir { .. } | Class::ExtraDir { .. } => {
                subdirs = subdirs + 1;
            },
            _ => {},
        }
        i = i + 1;
    }
    assert(s.take(s.len() as int) =~= s);
    if subdirs > EXT4_SUBDIR_CAP {
        out.push(PortabilityIssue::SubdirCap);
        proof {
            head = head.push(PortabilityIssueView::SubdirCap);
        }
    }
    let ghost caps = head;
    assert(issue_views(out@) =~= caps);
    let mut pairs: Vec<(String, String)> = Vec::new();
    i = 0;
    while i < entries.len()
        invariant
            s == entries@,
            i <= s.len(),
            issue_views(out@) == caps + reserved_issues(s.take(i as int)),
            folded_pairs(pairs@, s.take(i as int)),
        decreases s.len() - i,
    {
        let e = &entries[i];
        proof {
            assert(s.take(i + 1).drop_last() =~= s.take(i as int));
            assert(s.take(i + 1).last() == *e);
        }
        let ghost out0 = issue_views(out@);
        let ghost pairs0 = pairs@;
        if is_reserved_exec(&e.name) {
            out.push(PortabilityIssue::ReservedName(e.name.clone()));
            assert(issue_views(out@) =~= out0.push(PortabilityIssueView::ReservedName(e.name@)));
        }
        match e.class {
            Class::Sidecar => {},
            _ => {
                let folded = to_ascii_lowercase(&e.name);
                pairs.push((folded, e.name.clone()));
                proof {
                    let ns = without_sidecars(s.take(i + 1));
                    assert(ns == without_sidecars(s.take(i as int)).push(*e));
                    assert forall|k: int| 0 <= k < pairs@.len() implies (#[trigger] pairs@[k]).0@
                        == fold_case(ns[k].name@) && pairs@[k].1 == ns[k].name by {
                        if k < pairs0.len() {
                            assert(pairs@[k] == pairs0[k]);
                        }
                    }
                }
            },
        }
        i = i + 1;
    }
    assert(s.take(s.len() as int) =~= s);
    let ghost pairs_v = pairs@;
    let sorted = stable_sort_by_key(pairs);
    let runs = runs_of(&sorted);
    let ghost rv = runs@.map_values(|g: Vec<String>| g@.map_values(|n: String| n@));
    let ghost base = issue_views(out@);
    let mut k: usize = 0;
    assert(rv.take(0) =~= Seq::<Seq<Seq<char>>>::empty());
    while k < runs.len()
        invariant
            rv == runs@.map_values(|g: Vec<String>| g@.map_values(|n: String| n@)),
            k <= runs.len(),
            issue_views(out@) == base + collisions(rv.take(k as int)),
        decreases runs.len() - k,
    {
        proof {
            assert(rv.take(k + 1).drop_last() =~= rv.take(k as int));
            assert(rv.take(k + 1).last() == rv[k as int]);
        }
        if runs[k].len() > 1 {
            let ghost out0 = issue_views(out@);
            let group = runs[k].clone();
            out.push(PortabilityIssue::CaseFoldCollision(group));
            assert(issue_views(out@) =~= out0.push(
                PortabilityIssueView::CaseFoldCollision(rv[k as int]),
            ));
        }
        k = k + 1;
    }
    assert(rv.take(runs.len() as int) =~= rv);
    assert(issue_views(out@) =~= spec_portability(s, sorted@));
    out
}

} // verus!
