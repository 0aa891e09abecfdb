//! Deriving a node's sidecar values, gaps and fragility from its classified
//! entries (present state alone).

use vstd::prelude::*;
use crate::kind::Kind;
use crate::codec::{decode_core, spec_valid_index, spec_is_canonical_dir_name, all_digits, has_underscore};
use crate::sidecar::{spec_parse, spec_serialize, no_newline, law_parse_serialize};
use crate::classify::{Class, EntryClass, RawEntry, spec_ten_missing, classified, classify_entry, law_sidecar_entry_inert};
use crate::sidecar::{Sidecar, SidecarView};
use crate::text::{chars_of, push_char};
use crate::order::{stable_sort_by_key, is_stable_sort, is_stable_sort_with};
use std::collections::HashSet;

verus! {

broadcast use vstd::std_specs::hash::group_hash_axioms;

/// The ordinal of a covered entry of `kind`, if the class is one.
pub open spec fn covered_ordinal(c: Class, kind: Kind) -> Option<u64> {
    match c {
        Class::CoveredFile { ordinal } => if kind == Kind::File {
            Some(ordinal)
        } else {
            None
        },
        Class::CoveredDir { ordinal } => if kind == Kind::Dir {
            Some(ordinal)
        } else {
            None
        },
        _ => None,
    }
}

/// The class is a file (covered or extra).
pub open spec fn is_file_class(c: Class) -> bool {
    c is CoveredFile || c is ExtraFile
}

/// The class is a directory (covered or extra).
pub open spec fn is_dir_class(c: Class) -> bool {
    c is CoveredDir || c is ExtraDir
}

/// The covered ordinals of `kind` present among the entries.
pub open spec fn covered_set(s: Seq<EntryClass>, kind: Kind) -> Set<u64> {
    Set::new(
        |o: u64|
            exists|i: int| 0 <= i < s.len() && #[trigger] covered_ordinal(s[i].class, kind) == Some(o),
    )
}

/// The greatest covered ordinal of `kind`, or 0 if there is none.
pub open spec fn max_covered(s: Seq<EntryClass>, kind: Kind) -> u64
    decreases s.len(),
{
    if s.len() == 0 {
        0
    } else {
        let m = max_covered(s.drop_last(), kind);
        match covered_ordinal(s.last().class, kind) {
            Some(o) => if o > m {
                o
            } else {
                m
            },
            None => m,
        }
    }
}

/// The logical index of the first entry that reaches the greatest covered
/// ordinal of `kind` (directory names without their `_` prefix), or empty.
pub open spec fn last_index(s: Seq<EntryClass>, kind: Kind) -> Seq<char>
    decreases s.len(),
{
    if s.len() == 0 {
        Seq::empty()
    } else {
        match covered_ordinal(s.last().class, kind) {
            Some(o) => if o > max_covered(s.drop_last(), kind) {
                decode_core(s.last().name@, kind)
            } else {
                last_index(s.drop_last(), kind)
            },
            None => last_index(s.drop_last(), kind),
        }
    }
}

/// Number of entries whose class satisfies `p`.
pub open spec fn count_class(s: Seq<EntryClass>, p: spec_fn(Class) -> bool) -> nat
    decreases s.len(),
{
    if s.len() == 0 {
        0
    } else {
        count_class(s.drop_last(), p) + if p(s.last().class) {
            1nat
        } else {
            0nat
        }
    }
}

/// Number of covered entries of `kind`.
pub open spec fn count_covered(s: Seq<EntryClass>, kind: Kind) -> nat {
    count_class(s, |c: Class| covered_ordinal(c, kind) is Some)
}

/// Number of extra files.
pub open spec fn count_extra_files(s: Seq<EntryClass>) -> nat {
    count_class(s, |c: Class| c is ExtraFile)
}

/// Number of extra directories.
pub open spec fn count_extra_dirs(s: Seq<EntryClass>) -> nat {
    count_class(s, |c: Class| c is ExtraDir)
}

/// `a - b`, or 0 when `b > a`.
pub open spec fn saturating_sub(a: nat, b: nat) -> nat {
    if a >= b {
        (a - b) as nat
    } else {
        0
    }
}

/// The sidecar values local to a node: fields 1 to 6, the node's own file
/// and directory counts as totals, and no bytes.
pub open spec fn spec_local(s: Seq<EntryClass>) -> SidecarView {
    SidecarView {
        last_file: last_index(s, Kind::File),
        last_dir: last_index(s, Kind::Dir),
        extra_files: count_extra_files(s) as u64,
        extra_dirs: count_extra_dirs(s) as u64,
        missing_files: saturating_sub(max_covered(s, Kind::File) as nat, count_covered(s, Kind::File)) as u64,
        missing_dirs: saturating_sub(max_covered(s, Kind::Dir) as nat, count_covered(s, Kind::Dir)) as u64,
        total_files: (count_covered(s, Kind::File) + count_extra_files(s)) as u64,
        total_dirs: (count_covered(s, Kind::Dir) + count_extra_dirs(s)) as u64,
        total_bytes: 0,
    }
}

/// A string made of `v[from..]`.
fn string_from(v: &Vec<char>, from: usize) -> (r: String)
    requires
        from <= v.len(),
    ensures
        r@ == v@.skip(from as int),
{
    let mut out = String::new();
    let mut i = from;
    while i < v.len()
        invariant
            from <= i <= v.len(),
            out@ == v@.subrange(from as int, i as int),
        decreases v.len() - i,
    {
        push_char(&mut out, v[i]);
        i = i + 1;
        assert(out@ =~= v@.subrange(from as int, i as int));
    }
    assert(v@.subrange(from as int, v.len() as int) =~= v@.skip(from as int));
    out
}

/// The logical index of a name: a directory name without its one leading `_`.
fn logical_index(name: &String, kind: Kind) -> (r: String)
    ensures
        r@ == decode_core(name@, kind),
{
    let v = chars_of(name.as_str());
    let from: usize = match kind {
        Kind::Dir => if v.len() > 0 && v[0] == '_' {
            1
        } else {
            0
        },
        Kind::File => 0,
    };
    let r = string_from(&v, from);
    assert(r@ =~= decode_core(name@, kind));
    r
}

/// The sidecar fields of a node that depend on its own entries only (1 to 6),
/// with the node's own file and directory counts as totals and no bytes.
pub fn derive_local(entries: &Vec<EntryClass>) -> (r: Sidecar)
    ensures
        r@ == spec_local(entries@),
{
    let ghost s = entries@;
    let mut last_file_ord: u64 = 0;
    let mut last_file = String::new();
    let mut last_dir_ord: u64 = 0;
    let mut last_dir = String::new();
    let mut covered_files: u64 = 0;
    let mut covered_dirs: u64 = 0;
    let mut extra_files: u64 = 0;
    let mut extra_dirs: u64 = 0;
    let mut i: usize = 0;
    proof {
        assert(s.take(0) =~= Seq::<EntryClass>::empty());
        assert(last_file@ =~= Seq::<char>::empty());
        assert(last_dir@ =~= Seq::<char>::empty());
    }
    while i < entries.len()
        invariant
            s == entries@,
            i <= s.len(),
            last_file_ord == max_covered(s.take(i as int), Kind::File),
            last_dir_ord == max_covered(s.take(i as int), Kind::Dir),
            last_file@ == last_index(s.take(i as int), Kind::File),
            last_dir@ == last_index(s.take(i as int), Kind::Dir),
            covered_files == count_covered(s.take(i as int), Kind::File),
            covered_dirs == count_covered(s.take(i as int), Kind::Dir),
            extra_files == count_extra_files(s.take(i as int)),
            extra_dirs == count_extra_dirs(s.take(i as int)),
            covered_files + extra_files <= i,
            covered_dirs + extra_dirs <= i,
        decreases s.len() - i,
    {
        let e = &entries[i];
        proof {
            assert(s.take(i + 1).drop_last() =~= s.take(i as int));
            assert(s.take(i + 1).last() == *e);
        }
        match e.class {
            Class::CoveredFile { ordinal } => {
                covered_files = covered_files + 1;
                if ordinal > last_file_ord {
                    last_file_ord = ordinal;
                    last_file = e.name.clone();
                }
            },
            Class::CoveredDir { ordinal } => {
                covered_dirs = covered_dirs + 1;
                if ordinal > last_dir_ord {
                    last_dir_ord = ordinal;
                    last_dir = logical_index(&e.name, Kind::Dir);
                }
            },
            Class::ExtraFile { .. } => {
                extra_files = extra_files + 1;
            },
            Class::ExtraDir { .. } => {
                extra_dirs = extra_dirs + 1;
            },
            _ => {},
        }
        i = i + 1;
    }
    assert(s.take(s.len() as int) =~= s);
    let missing_files = if last_file_ord >= covered_files {
        last_file_ord - covered_files
    } else {
        0
    };
    let missing_dirs = if last_dir_ord >= covered_dirs {
        last_dir_ord - covered_dirs
    } else {
        0
    };
    Sidecar {
        last_file,
        last_dir,
        extra_files,
        extra_dirs,
        missing_files,
        missing_dirs,
        total_files: covered_files + extra_files,
        total_dirs: covered_dirs + extra_dirs,
        total_bytes: 0,
    }
}


/// Bytes of the node's own files (covered and extra).
pub open spec fn file_bytes(s: Seq<EntryClass>) -> nat
    decreases s.len(),
{
    if s.len() == 0 {
        0
    } else {
        file_bytes(s.drop_last()) + if is_file_class(s.last().class) {
            s.last().len as nat
        } else {
            0nat
        }
    }
}

/// Number of the node's directories (covered and extra).
pub open spec fn count_dirs(s: Seq<EntryClass>) -> nat {
    count_class(s, |c: Class| is_dir_class(c))
}

/// Sum of the children's `total_files`.
pub open spec fn sum_total_files(ch: Seq<SidecarView>) -> nat
    decreases ch.len(),
{
    if ch.len() == 0 {
        0
    } else {
        sum_total_files(ch.drop_last()) + ch.last().total_files as nat
    }
}

/// Sum of the children's `total_dirs`.
pub open spec fn sum_total_dirs(ch: Seq<SidecarView>) -> nat
    decreases ch.len(),
{
    if ch.len() == 0 {
        0
    } else {
        sum_total_dirs(ch.drop_last()) + ch.last().total_dirs as nat
    }
}

/// Sum of the children's `total_bytes`.
pub open spec fn sum_total_bytes(ch: Seq<SidecarView>) -> nat
    decreases ch.len(),
{
    if ch.len() == 0 {
        0
    } else {
        sum_total_bytes(ch.drop_last()) + ch.last().total_bytes as nat
    }
}

/// The subtree rollups fit in `u64`.
pub open spec fn subtree_fits(s: Seq<EntryClass>, ch: Seq<SidecarView>) -> bool {
    &&& spec_local(s).total_files + sum_total_files(ch) <= u64::MAX
    &&& spec_local(s).total_dirs + sum_total_dirs(ch) <= u64::MAX
    &&& file_bytes(s) + sum_total_bytes(ch) <= u64::MAX
}

/// The full sidecar of a node whose entries are `s` and whose directories
/// (covered and extra, in entry order) have the subtree sidecars `ch`: the
/// local fields, with totals that add the children's totals and the bytes
/// of the node's own files.
pub open spec fn spec_subtree(s: Seq<EntryClass>, ch: Seq<SidecarView>) -> SidecarView {
    let local = spec_local(s);
    SidecarView {
        total_files: (local.total_files + sum_total_files(ch)) as u64,
        total_dirs: (local.total_dirs + sum_total_dirs(ch)) as u64,
        total_bytes: (file_bytes(s) + sum_total_bytes(ch)) as u64,
        ..local
    }
}

/// Views of a list of sidecars.
pub open spec fn views(v: Seq<Sidecar>) -> Seq<SidecarView> {
    v.map_values(|c: Sidecar| c@)
}

proof fn lemma_file_bytes_mono(s: Seq<EntryClass>, i: int)
    requires
        0 <= i <= s.len(),
    ensures
        file_bytes(s.take(i)) <= file_bytes(s),
    decreases s.len() - i,
{
    if i < s.len() {
        lemma_file_bytes_mono(s, i + 1);
        assert(s.take(i + 1).drop_last() =~= s.take(i));
    } else {
        assert(s.take(i) =~= s);
    }
}

proof fn lemma_sums_mono(ch: Seq<SidecarView>, j: int)
    requires
        0 <= j <= ch.len(),
    ensures
        sum_total_files(ch.take(j)) <= sum_total_files(ch),
        sum_total_dirs(ch.take(j)) <= sum_total_dirs(ch),
        sum_total_bytes(ch.take(j)) <= sum_total_bytes(ch),
    decreases ch.len() - j,
{
    if j < ch.len() {
        lemma_sums_mono(ch, j + 1);
        assert(ch.take(j + 1).drop_last() =~= ch.take(j));
    } else {
        assert(ch.take(j) =~= ch);
    }
}

proof fn lemma_count_dirs_le(s: Seq<EntryClass>)
    ensures
        count_dirs(s) <= s.len(),
    decreases s.len(),
{
    if s.len() > 0 {
        lemma_count_dirs_le(s.drop_last());
    }
}

/// Whether the subtree rollups of a node fit in `u64` (see `subtree_fits`);
/// `derive_subtree` requires it.
pub fn subtree_in_range(entries: &Vec<EntryClass>, children: &Vec<Sidecar>) -> (r: bool)
    ensures
        r == subtree_fits(entries@, views(children@)),
{
    let local = derive_local(entries);
    let ghost ch = views(children@);
    let mut files: u64 = local.total_files;
    let mut dirs: u64 = local.total_dirs;
    let mut bytes: u64 = 0;
    let mut j: usize = 0;
    assert(ch.take(0) =~= Seq::<SidecarView>::empty());
    while j < children.len()
        invariant
            ch == views(children@),
            j <= children.len(),
            files == spec_local(entries@).total_files + sum_total_files(ch.take(j as int)),
            dirs == spec_local(entries@).total_dirs + sum_total_dirs(ch.take(j as int)),
            bytes == sum_total_bytes(ch.take(j as int)),
        decreases children.len() - j,
    {
        let c = &children[j];
        proof {
            assert(ch.take(j + 1).drop_last() =~= ch.take(j as int));
            assert(ch.take(j + 1).last() == c@);
            lemma_sums_mono(ch, j + 1);
        }
        match files.checked_add(c.total_files) {
            Some(v) => {
                files = v;
            },
            None => {
                return false;
            },
        }
        match dirs.checked_add(c.total_dirs) {
            Some(v) => {
                dirs = v;
            },
            None => {
                return false;
            },
        }
        match bytes.checked_add(c.total_bytes) {
            Some(v) => {
                bytes = v;
            },
            None => {
                assert(file_bytes(entries@) + sum_total_bytes(ch) > u64::MAX);
                return false;
            },
        }
        j = j + 1;
    }
    assert(ch.take(children.len() as int) =~= ch);
    let ghost s = entries@;
    let mut i: usize = 0;
    assert(s.take(0) =~= Seq::<EntryClass>::empty());
    while i < entries.len()
        invariant
            s == entries@,
            ch == views(children@),
            i <= s.len(),
            bytes == sum_total_bytes(ch) + file_bytes(s.take(i as int)),
        decreases s.len() - i,
    {
        let e = &entries[i];
        proof {
            assert(s.take(i + 1).drop_last() =~= s.take(i as int));
            assert(s.take(i + 1).last() == *e);
            lemma_file_bytes_mono(s, i + 1);
        }
        match e.class {
            Class::CoveredFile { .. } | Class::ExtraFile { .. } => match bytes.checked_add(e.len) {
                Some(v) => {
                    bytes = v;
                },
                None => {
                    return false;
                },
            },
            _ => {},
        }
        i = i + 1;
    }
    assert(s.take(s.len() as int) =~= s);
    true
}

/// The full sidecar of a node from its classified entries and the subtree
/// sidecars of its directories (covered and extra, in entry order): local
/// fields, totals that add the children's totals, and the bytes of the
/// node's own files plus the children's bytes.
pub fn derive_subtree(entries: &Vec<EntryClass>, children: &Vec<Sidecar>) -> (r: Sidecar)
    requires
        children.len() == count_dirs(entries@),
        subtree_fits(entries@, views(children@)),
    ensures
        r@ == spec_subtree(entries@, views(children@)),
{
    let mut sidecar = derive_local(entries);
    let ghost s = entries@;
    let ghost ch = views(children@);
    let ghost local = spec_local(s);
    let mut total_bytes: u64 = 0;
    let mut j: usize = 0;
    let mut i: usize = 0;
    proof {
        assert(s.take(0) =~= Seq::<EntryClass>::empty());
        assert(ch.take(0) =~= Seq::<SidecarView>::empty());
    }
    while i < entries.len()
        invariant
            s == entries@,
            ch == views(children@),
            local == spec_local(s),
            children.len() == count_dirs(s),
            subtree_fits(s, ch),
            i <= s.len(),
            j == count_dirs(s.take(i as int)),
            j <= children.len(),
            sidecar@ == (SidecarView {
                total_files: (local.total_files + sum_total_files(ch.take(j as int))) as u64,
                total_dirs: (local.total_dirs + sum_total_dirs(ch.take(j as int))) as u64,
                ..local
            }),
            total_bytes == file_bytes(s.take(i as int)) + sum_total_bytes(ch.take(j as int)),
        decreases s.len() - i,
    {
        let e = &entries[i];
        proof {
            assert(s.take(i + 1).drop_last() =~= s.take(i as int));
            assert(s.take(i + 1).last() == *e);
            lemma_file_bytes_mono(s, i + 1);
            lemma_count_dirs_le(s.take(i + 1));
            lemma_count_dirs_mono(s, i + 1);
        }
        match e.class {
            Class::CoveredFile { .. } | Class::ExtraFile { .. } => {
                proof {
                    lemma_sums_mono(ch, j as int);
                }
                total_bytes = total_bytes + e.len;
            },
            Class::CoveredDir { .. } | Class::ExtraDir { .. } => {
                let child = &children[j];
                proof {
                    assert(ch.take(j + 1).drop_last() =~= ch.take(j as int));
                    assert(ch.take(j + 1).last() == child@);
                    lemma_sums_mono(ch, j + 1);
                }
                sidecar.total_files = sidecar.total_files + child.total_files;
                sidecar.total_dirs = sidecar.total_dirs + child.total_dirs;
                total_bytes = total_bytes + child.total_bytes;
                j = j + 1;
            },
            _ => {},
        }
        i = i + 1;
    }
    proof {
        assert(s.take(s.len() as int) =~= s);
        assert(ch.take(j as int) =~= ch);
    }
    sidecar.total_bytes = total_bytes;
    sidecar
}

proof fn lemma_count_dirs_mono(s: Seq<EntryClass>, i: int)
    requires
        0 <= i <= s.len(),
    ensures
        count_dirs(s.take(i)) <= count_dirs(s),
    decreases s.len() - i,
{
    if i < s.len() {
        lemma_count_dirs_mono(s, i + 1);
        assert(s.take(i + 1).drop_last() =~= s.take(i));
    } else {
        assert(s.take(i) =~= s);
    }
}


proof fn lemma_covered_set_push(s: Seq<EntryClass>, e: EntryClass, kind: Kind)
    ensures
        covered_ordinal(e.class, kind) is Some ==> covered_set(s.push(e), kind) == covered_set(
            s,
            kind,
        ).insert(covered_ordinal(e.class, kind)->0),
        covered_ordinal(e.class, kind) is None ==> covered_set(s.push(e), kind) == covered_set(
            s,
            kind,
        ),
{
    let t = s.push(e);
    assert forall|x: u64|
        covered_set(t, kind).contains(x) == (covered_set(s, kind).contains(x) || covered_ordinal(
            e.class,
            kind,
        ) == Some(x)) by {
        if covered_set(t, kind).contains(x) {
            let i = choose|i: int|
                0 <= i < t.len() && #[trigger] covered_ordinal(t[i].class, kind) == Some(x);
            if i < s.len() {
                assert(covered_ordinal(s[i].class, kind) == Some(x));
            }
        }
        if covered_set(s, kind).contains(x) {
            let i = choose|i: int|
                0 <= i < s.len() && #[trigger] covered_ordinal(s[i].class, kind) == Some(x);
            assert(covered_ordinal(t[i].class, kind) == Some(x));
        }
        if covered_ordinal(e.class, kind) == Some(x) {
            assert(covered_ordinal(t[s.len() as int].class, kind) == Some(x));
        }
    }
    if covered_ordinal(e.class, kind) is Some {
        assert(covered_set(t, kind) =~= covered_set(s, kind).insert(
            covered_ordinal(e.class, kind)->0,
        ));
    } else {
        assert(covered_set(t, kind) =~= covered_set(s, kind));
    }
}

/// The greatest covered ordinal is 0 or present, and bounds every present one.
pub proof fn lemma_max_covered(s: Seq<EntryClass>, kind: Kind)
    ensures
        max_covered(s, kind) == 0 || covered_set(s, kind).contains(max_covered(s, kind)),
        forall|o: u64| #[trigger] covered_set(s, kind).contains(o) ==> o <= max_covered(s, kind),
    decreases s.len(),
{
    if s.len() > 0 {
        lemma_max_covered(s.drop_last(), kind);
        lemma_covered_set_push(s.drop_last(), s.last(), kind);
        assert(s.drop_last().push(s.last()) =~= s);
    } else {
        assert forall|o: u64| #[trigger] covered_set(s, kind).contains(o) implies o <= max_covered(
            s,
            kind,
        ) by {
            if covered_set(s, kind).contains(o) {
                let i = choose|i: int|
                    0 <= i < s.len() && #[trigger] covered_ordinal(s[i].class, kind) == Some(o);
            }
        }
    }
}

/// The covered ordinals of `kind` among `entries`.
pub fn covered_ordinals(entries: &Vec<EntryClass>, kind: Kind) -> (r: HashSet<u64>)
    ensures
        r@ == covered_set(entries@, kind),
{
    let ghost s = entries@;
    let mut present: HashSet<u64> = HashSet::new();
    let mut i: usize = 0;
    assert(covered_set(s.take(0), kind) =~= Set::<u64>::empty());
    while i < entries.len()
        invariant
            s == entries@,
            i <= s.len(),
            present@ == covered_set(s.take(i as int), kind),
        decreases s.len() - i,
    {
        let e = &entries[i];
        proof {
            assert(s.take(i + 1) =~= s.take(i as int).push(*e));
            lemma_covered_set_push(s.take(i as int), *e, kind);
        }
        match (e.class, kind) {
            (Class::CoveredFile { ordinal }, Kind::File) => {
                present.insert(ordinal);
            },
            (Class::CoveredDir { ordinal }, Kind::Dir) => {
                present.insert(ordinal);
            },
            _ => {},
        }
        i = i + 1;
    }
    assert(s.take(s.len() as int) =~= s);
    present
}

/// The greatest covered ordinal of `kind` among `entries`, or 0.
pub fn max_covered_ordinal(entries: &Vec<EntryClass>, kind: Kind) -> (r: u64)
    ensures
        r == max_covered(entries@, kind),
{
    let ghost s = entries@;
    let mut m: u64 = 0;
    let mut i: usize = 0;
    while i < entries.len()
        invariant
            s == entries@,
            i <= s.len(),
            m == max_covered(s.take(i as int), kind),
        decreases s.len() - i,
    {
        let e = &entries[i];
        proof {
            assert(s.take(i + 1).drop_last() =~= s.take(i as int));
            assert(s.take(i + 1).last() == *e);
        }
        match (e.class, kind) {
            (Class::CoveredFile { ordinal }, Kind::File) => if ordinal > m {
                m = ordinal;
            },
            (Class::CoveredDir { ordinal }, Kind::Dir) => if ordinal > m {
                m = ordinal;
            },
            _ => {},
        }
        i = i + 1;
    }
    assert(s.take(s.len() as int) =~= s);
    m
}

/// The vacant ordinals behind the greatest covered ordinal of `kind`, in
/// increasing order: `n` in `1..=max` with no covered entry of ordinal `n`.
pub fn gaps(entries: &Vec<EntryClass>, kind: Kind) -> (r: Vec<u64>)
    ensures
        forall|i: int, j: int| 0 <= i < j < r.len() ==> r@[i] < r@[j],
        forall|n: u64|
            r@.contains(n) <==> (1 <= n <= max_covered(entries@, kind) && !covered_set(
                entries@,
                kind,
            ).contains(n)),
{
    let present = covered_ordinals(entries, kind);
    let max = max_covered_ordinal(entries, kind);
    let mut out: Vec<u64> = Vec::new();
    let mut n: u64 = 0;
    while n < max
        invariant
            n <= max,
            max == max_covered(entries@, kind),
            present@ == covered_set(entries@, kind),
            forall|i: int, j: int| 0 <= i < j < out.len() ==> out@[i] < out@[j],
            forall|i: int| 0 <= i < out.len() ==> out@[i] <= n,
            forall|x: u64| out@.contains(x) <==> (1 <= x <= n && !present@.contains(x)),
        decreases max - n,
    {
        let ghost before = out@;
        let ghost n0 = n;
        n = n + 1;
        if !present.contains(&n) {
            out.push(n);
        }
        assert forall|x: u64| out@.contains(x) <==> (1 <= x <= n && !present@.contains(x)) by {
            if out@.contains(x) {
                let k = choose|k: int| 0 <= k < out@.len() && out@[k] == x;
                if k < before.len() {
                    assert(before[k] == x);
                    assert(before.contains(x));
                } else {
                    assert(x == n);
                }
            }
            if 1 <= x <= n0 && !present@.contains(x) {
                assert(before.contains(x));
                let k = choose|k: int| 0 <= k < before.len() && before[k] == x;
                assert(out@[k] == x);
            }
            if x == n && !present@.contains(x) {
                assert(out@[out@.len() - 1] == x);
            }
        }
    }
    out
}


/// How many of the offsets `1..=d` below `o` fall on a vacant ordinal; only
/// offsets that land on an ordinal (at least 1) count as predecessor slots.
pub open spec fn count_vacant_below(o: u64, present: Set<u64>, d: nat) -> nat
    decreases d,
{
    if d == 0 {
        0
    } else {
        count_vacant_below(o, present, (d - 1) as nat) + if d < o && !present.contains(
            (o - d) as u64,
        ) {
            1nat
        } else {
            0nat
        }
    }
}

/// How many of the offsets `1..=d` below `o` fall on a present ordinal (at least 1).
pub open spec fn count_present_below(o: u64, present: Set<u64>, d: nat) -> nat
    decreases d,
{
    if d == 0 {
        0
    } else {
        count_present_below(o, present, (d - 1) as nat) + if d < o && present.contains(
            (o - d) as u64,
        ) {
            1nat
        } else {
            0nat
        }
    }
}

/// A fragility row: name, ordinal, how many of the ten predecessor slots are
/// vacant, and whether exactly one predecessor is present (so one deletion
/// would make the entry extra).
pub type FragileRow = (String, u64, u8, bool);

/// The fragility row of a covered entry of ordinal `o`.
pub open spec fn fragile_row(e: EntryClass, o: u64, present: Set<u64>) -> FragileRow {
    (
        e.name,
        o,
        count_vacant_below(o, present, 10) as u8,
        o >= 11 && count_present_below(o, present, 10) == 1,
    )
}

/// The fragility rows of the covered entries of `kind`, in entry order.
pub open spec fn fragile_rows(s: Seq<EntryClass>, kind: Kind, present: Set<u64>) -> Seq<FragileRow>
    decreases s.len(),
{
    if s.len() == 0 {
        Seq::empty()
    } else {
        let init = fragile_rows(s.drop_last(), kind, present);
        match covered_ordinal(s.last().class, kind) {
            Some(o) => init.push(fragile_row(s.last(), o, present)),
            None => init,
        }
    }
}

/// Rows paired with their ordinals as sort keys.
pub open spec fn keyed_by_ordinal(rows: Seq<FragileRow>) -> Seq<(u64, FragileRow)> {
    rows.map_values(|r: FragileRow| (r.1, r))
}

/// For each covered entry of `kind`: how many of its ten predecessor slots
/// are vacant, and whether one deletion would make it extra; sorted by
/// ordinal (stably).
pub fn fragile(entries: &Vec<EntryClass>, kind: Kind) -> (r: Vec<FragileRow>)
    ensures
        is_stable_sort(
            keyed_by_ordinal(r@),
            keyed_by_ordinal(fragile_rows(entries@, kind, covered_set(entries@, kind))),
        ),
{
    let present = covered_ordinals(entries, kind);
    let ghost s = entries@;
    let ghost ps = present@;
    let mut keyed: Vec<(u64, FragileRow)> = Vec::new();
    let mut i: usize = 0;
    assert(s.take(0) =~= Seq::<EntryClass>::empty());
    assert(keyed@ =~= keyed_by_ordinal(fragile_rows(s.take(0), kind, ps)));
    while i < entries.len()
        invariant
            s == entries@,
            ps == present@,
            i <= s.len(),
            keyed@ == keyed_by_ordinal(fragile_rows(s.take(i as int), kind, ps)),
        decreases s.len() - i,
    {
        let e = &entries[i];
        proof {
            assert(s.take(i + 1).drop_last() =~= s.take(i as int));
            assert(s.take(i + 1).last() == *e);
        }
        let ordinal = match (e.class, kind) {
            (Class::CoveredFile { ordinal }, Kind::File) => Some(ordinal),
            (Class::CoveredDir { ordinal }, Kind::Dir) => Some(ordinal),
            _ => None,
        };
        if let Some(ordinal) = ordinal {
            let mut vacant: u8 = 0;
            let mut present_count: u64 = 0;
            let mut d: u64 = 1;
            while d <= 10
                invariant
                    1 <= d <= 11,
                    vacant as nat == count_vacant_below(ordinal, ps, (d - 1) as nat),
                    present_count as nat == count_present_below(ordinal, ps, (d - 1) as nat),
                    vacant < d,
                    present_count < d,
                    ps == present@,
                decreases 11 - d,
            {
                if ordinal > d {
                    if present.contains(&(ordinal - d)) {
                        present_count = present_count + 1;
                    } else {
                        vacant = vacant + 1;
                    }
                }
                d = d + 1;
            }
            let one_deletion = ordinal >= 11 && present_count == 1;
            let row: FragileRow = (e.name.clone(), ordinal, vacant, one_deletion);
            let ghost before = keyed@;
            keyed.push((ordinal, row));
            assert(keyed@ =~= keyed_by_ordinal(fragile_rows(s.take(i + 1), kind, ps)));
        }
        i = i + 1;
    }
    assert(s.take(s.len() as int) =~= s);
    let ghost want = keyed_by_ordinal(fragile_rows(s, kind, ps));
    let sorted = stable_sort_by_key(keyed);
    let ghost sorted0 = sorted@;
    proof {
        let p = choose|p: Seq<int>| is_stable_sort_with(sorted0, want, p);
        assert forall|a: int| 0 <= a < sorted0.len() implies #[trigger] sorted0[a].0
            == sorted0[a].1.1 by {
            assert(sorted0[a] == want[p[a]]);
        }
    }
    let mut out: Vec<FragileRow> = Vec::new();
    let m = sorted.len();
    for pair in it: sorted
        invariant
            it.seq() == sorted0,
            m == sorted0.len(),
            forall|a: int| 0 <= a < sorted0.len() ==> #[trigger] sorted0[a].0 == sorted0[a].1.1,
            keyed_by_ordinal(out@) == sorted0.take(it.index()),
    {
        let ghost k = it.index();
        assert(sorted0[k] == pair);
        let ghost old_out = out@;
        assert(pair.0 == pair.1.1);
        out.push(pair.1);
        assert(out@ == old_out.push(pair.1));
        assert(keyed_by_ordinal(out@) =~= keyed_by_ordinal(old_out).push((pair.1.1, pair.1)));
        assert(keyed_by_ordinal(out@) =~= sorted0.take(k + 1));
    }
    assert(sorted0.take(m as int) =~= sorted0);
    out
}


/// Law (fragility rows are the covered entries of the kind): there is one
/// row per covered entry of `kind` and no other; each row carries the name
/// and ordinal of a covered entry of `kind` and the vacancy count of its
/// predecessor slots; every such entry has its row.
pub proof fn law_fragile_rows_covered(s: Seq<EntryClass>, kind: Kind, present: Set<u64>)
    ensures
        fragile_rows(s, kind, present).len() == count_covered(s, kind),
        forall|k: int|
            0 <= k < fragile_rows(s, kind, present).len() ==> exists|i: int|
                0 <= i < s.len() && covered_ordinal(s[i].class, kind) == Some(
                    #[trigger] fragile_rows(s, kind, present)[k].1,
                ) && s[i].name == fragile_rows(s, kind, present)[k].0
                    && fragile_rows(s, kind, present)[k].2 as nat == count_vacant_below(
                    fragile_rows(s, kind, present)[k].1,
                    present,
                    10,
                ),
        forall|i: int|
            0 <= i < s.len() && #[trigger] covered_ordinal(s[i].class, kind) is Some ==> exists|k: int|
                0 <= k < fragile_rows(s, kind, present).len() && fragile_rows(s, kind, present)[k].0
                    == s[i].name && fragile_rows(s, kind, present)[k].1 == covered_ordinal(
                    s[i].class,
                    kind,
                )->0,
    decreases s.len(),
{
    if s.len() > 0 {
        let t = s.drop_last();
        law_fragile_rows_covered(t, kind, present);
        let rs = fragile_rows(s, kind, present);
        let rt = fragile_rows(t, kind, present);
        let last = s.len() - 1;
        if covered_ordinal(s.last().class, kind) is Some {
            lemma_vacant_at_most(covered_ordinal(s.last().class, kind)->0, present, 10);
        }
        assert forall|k: int| 0 <= k < rs.len() implies exists|i: int|
            0 <= i < s.len() && covered_ordinal(s[i].class, kind) == Some(#[trigger] rs[k].1)
                && s[i].name == rs[k].0 && rs[k].2 as nat == count_vacant_below(
                rs[k].1,
                present,
                10,
            ) by {
            if k < rt.len() {
                assert(rs[k] == rt[k]);
                let i = choose|i: int|
                    0 <= i < t.len() && covered_ordinal(t[i].class, kind) == Some(rt[k].1)
                        && t[i].name == rt[k].0 && rt[k].2 as nat == count_vacant_below(
                        rt[k].1,
                        present,
                        10,
                    );
                assert(s[i] == t[i]);
            } else {
                assert(covered_ordinal(s[last].class, kind) == Some(rs[k].1));
            }
        }
        assert forall|i: int|
            0 <= i < s.len() && #[trigger] covered_ordinal(s[i].class, kind) is Some implies exists|
            k: int,
        |
            0 <= k < rs.len() && rs[k].0 == s[i].name && rs[k].1 == covered_ordinal(
                s[i].class,
                kind,
            )->0 by {
            if i < last {
                assert(s[i] == t[i]);
                assert(covered_ordinal(t[i].class, kind) is Some);
                let k = choose|k: int|
                    0 <= k < rt.len() && rt[k].0 == t[i].name && rt[k].1 == covered_ordinal(
                        t[i].class,
                        kind,
                    )->0;
                assert(rs[k] == rt[k]);
            } else {
                assert(rs[rt.len() as int].0 == s[i].name);
            }
        }
    }
}

proof fn lemma_vacant_at_most(o: u64, present: Set<u64>, d: nat)
    ensures
        count_vacant_below(o, present, d) <= d,
    decreases d,
{
    if d > 0 {
        lemma_vacant_at_most(o, present, (d - 1) as nat);
    }
}

/// Law (only real predecessor slots count): of the `d` slots directly below
/// ordinal `o >= 1`, the vacant and the present ones together number
/// `min(d, o - 1)`; slot 0 and below are no slots at all. So an entry of
/// ordinal `o` has at most `o - 1` vacant predecessor slots.
pub proof fn law_vacant_window(o: u64, present: Set<u64>, d: nat)
    requires
        o >= 1,
    ensures
        count_vacant_below(o, present, d) + count_present_below(o, present, d) == if d < o {
            d
        } else {
            (o - 1) as nat
        },
        count_vacant_below(o, present, d) <= o - 1,
    decreases d,
{
    if d > 0 {
        law_vacant_window(o, present, (d - 1) as nat);
    }
}

/// Law (the fragility report lists the covered entries of its kind): in any
/// stable ordinal sort of the fragility rows (what `fragile` returns) there
/// is one row per covered entry of `kind`, each carrying the name and
/// ordinal of one.
pub proof fn law_fragile_report_covered(
    s: Seq<EntryClass>,
    kind: Kind,
    present: Set<u64>,
    out: Seq<FragileRow>,
)
    requires
        is_stable_sort(keyed_by_ordinal(out), keyed_by_ordinal(fragile_rows(s, kind, present))),
    ensures
        out.len() == count_covered(s, kind),
        forall|k: int|
            0 <= k < out.len() ==> exists|i: int|
                0 <= i < s.len() && covered_ordinal(s[i].class, kind) == Some(#[trigger] out[k].1)
                    && s[i].name == out[k].0,
{
    let rows = fragile_rows(s, kind, present);
    law_fragile_rows_covered(s, kind, present);
    let p = choose|p: Seq<int>| is_stable_sort_with(keyed_by_ordinal(out), keyed_by_ordinal(rows), p);
    assert forall|k: int| 0 <= k < out.len() implies exists|i: int|
        0 <= i < s.len() && covered_ordinal(s[i].class, kind) == Some(#[trigger] out[k].1)
            && s[i].name == out[k].0 by {
        assert(keyed_by_ordinal(out)[k] == keyed_by_ordinal(rows)[p[k]]);
        assert(out[k] == rows[p[k]]);
        let i = choose|i: int|
            0 <= i < s.len() && covered_ordinal(s[i].class, kind) == Some(rows[p[k]].1)
                && s[i].name == rows[p[k]].0 && rows[p[k]].2 as nat == count_vacant_below(
                rows[p[k]].1,
                present,
                10,
            );
    }
}

/// The entries other than sidecars, in order.
pub open spec fn without_sidecars(s: Seq<EntryClass>) -> Seq<EntryClass>
    decreases s.len(),
{
    if s.len() == 0 {
        Seq::empty()
    } else {
        let init = without_sidecars(s.drop_last());
        if s.last().class is Sidecar {
            init
        } else {
            init.push(s.last())
        }
    }
}

proof fn lemma_without_sidecars_folds(s: Seq<EntryClass>, kind: Kind)
    ensures
        max_covered(without_sidecars(s), kind) == max_covered(s, kind),
        last_index(without_sidecars(s), kind) == last_index(s, kind),
        count_covered(without_sidecars(s), kind) == count_covered(s, kind),
        count_extra_files(without_sidecars(s)) == count_extra_files(s),
        count_extra_dirs(without_sidecars(s)) == count_extra_dirs(s),
        count_dirs(without_sidecars(s)) == count_dirs(s),
        file_bytes(without_sidecars(s)) == file_bytes(s),
    decreases s.len(),
{
    if s.len() > 0 {
        lemma_without_sidecars_folds(s.drop_last(), kind);
        let w = without_sidecars(s);
        if !(s.last().class is Sidecar) {
            let wi = without_sidecars(s.drop_last());
            assert(w.drop_last() =~= wi);
            assert(w.last() == s.last());
        }
    }
}

/// Law (sidecars are excluded from all counts): a node's derived sidecar
/// values, local and subtree, are the same with or without its `.0` entries.
pub proof fn law_sidecars_excluded(s: Seq<EntryClass>, ch: Seq<SidecarView>)
    ensures
        spec_local(without_sidecars(s)) == spec_local(s),
        count_dirs(without_sidecars(s)) == count_dirs(s),
        spec_subtree(without_sidecars(s), ch) == spec_subtree(s, ch),
{
    lemma_without_sidecars_folds(s, Kind::File);
    lemma_without_sidecars_folds(s, Kind::Dir);
}

proof fn lemma_without_sidecars_concat(a: Seq<EntryClass>, b: Seq<EntryClass>)
    ensures
        without_sidecars(a + b) == without_sidecars(a) + without_sidecars(b),
    decreases b.len(),
{
    if b.len() == 0 {
        assert(a + b =~= a);
        assert(without_sidecars(a) + without_sidecars(b) =~= without_sidecars(a));
    } else {
        lemma_without_sidecars_concat(a, b.drop_last());
        assert((a + b).drop_last() =~= a + b.drop_last());
        assert((a + b).last() == b.last());
        if !(b.last().class is Sidecar) {
            assert(without_sidecars(a) + without_sidecars(b.drop_last()).push(b.last())
                =~= (without_sidecars(a) + without_sidecars(b.drop_last())).push(b.last()));
        }
    }
}

/// Law (a `.0` changes no derived value): putting a `.0` entry into a node's
/// listing, at any position, leaves its local and subtree sidecar values and
/// its directory count as they were, whatever the children's values.
pub proof fn law_sidecar_entry_changes_nothing(
    raw: Seq<RawEntry>,
    x: RawEntry,
    k: int,
    ch: Seq<SidecarView>,
)
    requires
        x.name@ == seq!['.', '0'],
        0 <= k <= raw.len(),
    ensures
        spec_local(classified(raw.insert(k, x))) == spec_local(classified(raw)),
        spec_subtree(classified(raw.insert(k, x)), ch) == spec_subtree(classified(raw), ch),
        count_dirs(classified(raw.insert(k, x))) == count_dirs(classified(raw)),
{
    law_sidecar_entry_inert(raw, x, k);
    let s = classified(raw);
    let y = classify_entry(x, raw);
    let s2 = classified(raw.insert(k, x));
    assert(y.class == Class::Sidecar);
    assert(s2 =~= s.take(k) + seq![y] + s.skip(k));
    assert(s =~= s.take(k) + s.skip(k));
    lemma_without_sidecars_concat(s.take(k) + seq![y], s.skip(k));
    lemma_without_sidecars_concat(s.take(k), seq![y]);
    lemma_without_sidecars_concat(s.take(k), s.skip(k));
    assert(seq![y].drop_last() =~= Seq::<EntryClass>::empty());
    assert(seq![y].last() == y);
    assert(without_sidecars(Seq::<EntryClass>::empty()) == Seq::<EntryClass>::empty());
    assert(without_sidecars(seq![y]) == without_sidecars(seq![y].drop_last()));
    assert(without_sidecars(seq![y]) =~= Seq::<EntryClass>::empty());
    assert(without_sidecars(s.take(k)) + Seq::<EntryClass>::empty() =~= without_sidecars(s.take(k)));
    assert(without_sidecars(s2) == without_sidecars(s));
    law_sidecars_excluded(s, ch);
    law_sidecars_excluded(s2, ch);
}

/// Law (`last_*` is the ordinal maximum): the last index names the first
/// covered entry of the greatest ordinal, which bounds every covered ordinal;
/// with no positive covered ordinal it is empty.
pub proof fn law_last_index_is_maximum(s: Seq<EntryClass>, kind: Kind)
    ensures
        forall|j: int|
            0 <= j < s.len() && #[trigger] covered_ordinal(s[j].class, kind) is Some
                ==> covered_ordinal(s[j].class, kind)->0 <= max_covered(s, kind),
        max_covered(s, kind) == 0 ==> last_index(s, kind) == Seq::<char>::empty(),
        max_covered(s, kind) > 0 ==> exists|i: int|
            0 <= i < s.len() && #[trigger] covered_ordinal(s[i].class, kind) == Some(
                max_covered(s, kind),
            ) && last_index(s, kind) == decode_core(s[i].name@, kind) && forall|j: int|
                0 <= j < i ==> covered_ordinal(s[j].class, kind) != Some(max_covered(s, kind)),
    decreases s.len(),
{
    if s.len() > 0 {
        let init = s.drop_last();
        law_last_index_is_maximum(init, kind);
        let m = max_covered(init, kind);
        assert forall|j: int|
            0 <= j < s.len() && #[trigger] covered_ordinal(s[j].class, kind) is Some
                implies covered_ordinal(s[j].class, kind)->0 <= max_covered(s, kind) by {
            if j < init.len() {
                assert(covered_ordinal(init[j].class, kind) == covered_ordinal(s[j].class, kind));
            }
        }
        if max_covered(s, kind) > 0 {
            match covered_ordinal(s.last().class, kind) {
                Some(o) => {
                    if o > m {
                        let i = s.len() - 1;
                        assert forall|j: int| 0 <= j < i implies covered_ordinal(s[j].class, kind)
                            != Some(max_covered(s, kind)) by {
                            assert(covered_ordinal(init[j].class, kind) == covered_ordinal(
                                s[j].class,
                                kind,
                            ));
                            if covered_ordinal(init[j].class, kind) is Some {
                                assert(covered_ordinal(init[j].class, kind)->0 <= m);
                            }
                        }
                        assert(covered_ordinal(s[i].class, kind) == Some(max_covered(s, kind)));
                    } else {
                        let i = choose|i: int|
                            0 <= i < init.len() && #[trigger] covered_ordinal(init[i].class, kind)
                                == Some(m) && last_index(init, kind) == decode_core(
                                init[i].name@,
                                kind,
                            ) && forall|j: int|
                                0 <= j < i ==> covered_ordinal(init[j].class, kind) != Some(m);
                        assert(s[i] == init[i]);
                        assert(forall|j: int| 0 <= j < i ==> s[j] == init[j]);
                        assert(covered_ordinal(s[i].class, kind) == Some(max_covered(s, kind)));
                    }
                },
                None => {
                    let i = choose|i: int|
                        0 <= i < init.len() && #[trigger] covered_ordinal(init[i].class, kind)
                            == Some(m) && last_index(init, kind) == decode_core(
                            init[i].name@,
                            kind,
                        ) && forall|j: int|
                            0 <= j < i ==> covered_ordinal(init[j].class, kind) != Some(m);
                    assert(s[i] == init[i]);
                    assert(forall|j: int| 0 <= j < i ==> s[j] == init[j]);
                    assert(covered_ordinal(s[i].class, kind) == Some(max_covered(s, kind)));
                },
            }
        }
    }
}


/// `p` is the only present ordinal among the `d` directly below `o`.
pub open spec fn only_present_below(o: u64, present: Set<u64>, d: nat, p: u64) -> bool {
    &&& o - d <= p < o
    &&& present.contains(p)
    &&& forall|x: u64| o - d <= x < o && x != p ==> !#[trigger] present.contains(x)
}

proof fn lemma_window_sum(o: u64, present: Set<u64>, d: nat)
    requires
        d < o,
    ensures
        count_vacant_below(o, present, d) + count_present_below(o, present, d) == d,
    decreases d,
{
    if d > 0 {
        lemma_window_sum(o, present, (d - 1) as nat);
    }
}

proof fn lemma_window_zero(o: u64, present: Set<u64>, d: nat)
    requires
        d < o,
    ensures
        count_present_below(o, present, d) == 0 <==> forall|x: u64|
            o - d <= x < o ==> !#[trigger] present.contains(x),
    decreases d,
{
    if d > 0 {
        lemma_window_zero(o, present, (d - 1) as nat);
        let y = (o - d) as u64;
        if count_present_below(o, present, d) == 0 {
            assert forall|x: u64| o - d <= x < o implies !#[trigger] present.contains(x) by {
                if x != y {
                    assert(o - (d - 1) <= x);
                }
            }
        }
        if forall|x: u64| o - d <= x < o ==> !#[trigger] present.contains(x) {
            assert(!present.contains(y));
            assert forall|x: u64| o - (d - 1) <= x < o implies !#[trigger] present.contains(x) by {}
        }
    }
}

proof fn lemma_window_one(o: u64, present: Set<u64>, d: nat)
    requires
        d < o,
    ensures
        count_present_below(o, present, d) == 1 <==> exists|p: u64|
            #[trigger] only_present_below(o, present, d, p),
    decreases d,
{
    if d > 0 {
        let d1 = (d - 1) as nat;
        lemma_window_one(o, present, d1);
        lemma_window_zero(o, present, d1);
        let y = (o - d) as u64;
        if present.contains(y) {
            if count_present_below(o, present, d) == 1 {
                assert forall|x: u64| o - d <= x < o && x != y implies !#[trigger] present.contains(
                    x,
                ) by {
                    assert(o - d1 <= x);
                }
                assert(only_present_below(o, present, d, y));
            }
            if exists|p: u64| #[trigger] only_present_below(o, present, d, p) {
                let p = choose|p: u64| #[trigger] only_present_below(o, present, d, p);
                assert(p == y);
                assert forall|x: u64| o - d1 <= x < o implies !#[trigger] present.contains(x) by {}
            }
        } else {
            if count_present_below(o, present, d) == 1 {
                let p = choose|p: u64| #[trigger] only_present_below(o, present, d1, p);
                assert forall|x: u64| o - d <= x < o && x != p implies !#[trigger] present.contains(
                    x,
                ) by {
                    if x != y {
                        assert(o - d1 <= x);
                    }
                }
                assert(only_present_below(o, present, d, p));
            }
            if exists|p: u64| #[trigger] only_present_below(o, present, d, p) {
                let p = choose|p: u64| #[trigger] only_present_below(o, present, d, p);
                assert(p != y);
                assert forall|x: u64| o - d1 <= x < o && x != p implies !#[trigger] present.contains(
                    x,
                ) by {}
                assert(only_present_below(o, present, d1, p));
            }
        }
    }
}

/// Law (fragility matches rule 6): for an ordinal of at least 11, all ten
/// predecessor slots are vacant exactly when the entry is made extra by the
/// ten-missing-predecessors rule, and exactly one predecessor is present
/// exactly when deleting one present entry would make it extra.
pub proof fn law_fragility_matches_rule(o: u64, present: Set<u64>)
    requires
        o >= 11,
    ensures
        count_vacant_below(o, present, 10) == 10 <==> spec_ten_missing(o, present),
        count_present_below(o, present, 10) == 1 <==> exists|p: u64|
            o - 10 <= p < o && #[trigger] present.contains(p) && spec_ten_missing(
                o,
                present.remove(p),
            ),
{
    lemma_window_sum(o, present, 10);
    lemma_window_zero(o, present, 10);
    lemma_window_one(o, present, 10);
    if count_present_below(o, present, 10) == 1 {
        let p = choose|p: u64| #[trigger] only_present_below(o, present, 10, p);
        assert(spec_ten_missing(o, present.remove(p)));
    }
    if exists|p: u64|
        o - 10 <= p < o && #[trigger] present.contains(p) && spec_ten_missing(o, present.remove(p)) {
        let p = choose|p: u64|
            o - 10 <= p < o && #[trigger] present.contains(p) && spec_ten_missing(
                o,
                present.remove(p),
            );
        assert forall|x: u64| o - 10 <= x < o && x != p implies !#[trigger] present.contains(x) by {
            assert(!present.remove(p).contains(x));
        }
        assert(only_present_below(o, present, 10, p));
    }
}


/// The covered ordinals of `kind` are all positive.
pub open spec fn positive_ordinals(s: Seq<EntryClass>, kind: Kind) -> bool {
    forall|i: int|
        0 <= i < s.len() && #[trigger] covered_ordinal(s[i].class, kind) is Some
            ==> covered_ordinal(s[i].class, kind)->0 >= 1
}

/// No two covered entries of `kind` share an ordinal.
pub open spec fn distinct_ordinals(s: Seq<EntryClass>, kind: Kind) -> bool {
    forall|i: int, j: int|
        0 <= i < j < s.len() && #[trigger] covered_ordinal(s[i].class, kind) is Some
            && #[trigger] covered_ordinal(s[j].class, kind) is Some ==> covered_ordinal(
            s[i].class,
            kind,
        ) != covered_ordinal(s[j].class, kind)
}

/// The covered ordinals of `kind` are all positive, and no two covered
/// entries share one (as in any classified node, whose names are distinct).
pub open spec fn distinct_positive_ordinals(s: Seq<EntryClass>, kind: Kind) -> bool {
    positive_ordinals(s, kind) && distinct_ordinals(s, kind)
}

/// The ordinals `1..=m`.
pub open spec fn ordinal_range(m: nat) -> Set<u64> {
    Set::new(|x: u64| 1 <= x && x <= m)
}

proof fn lemma_ordinal_range(m: nat)
    requires
        m <= u64::MAX,
    ensures
        ordinal_range(m).finite(),
        ordinal_range(m).len() == m,
    decreases m,
{
    if m == 0 {
        assert(ordinal_range(m) =~= Set::<u64>::empty());
    } else {
        lemma_ordinal_range((m - 1) as nat);
        assert(ordinal_range(m) =~= ordinal_range((m - 1) as nat).insert(m as u64));
    }
}

proof fn lemma_covered_set_card(s: Seq<EntryClass>, kind: Kind)
    requires
        distinct_positive_ordinals(s, kind),
    ensures
        covered_set(s, kind).finite(),
        covered_set(s, kind).len() == count_covered(s, kind),
        covered_set(s, kind).subset_of(ordinal_range(max_covered(s, kind) as nat)),
    decreases s.len(),
{
    if s.len() == 0 {
        assert(covered_set(s, kind) =~= Set::<u64>::empty());
    } else {
        let init = s.drop_last();
        assert forall|i: int|
            0 <= i < init.len() && #[trigger] covered_ordinal(init[i].class, kind) is Some
                implies covered_ordinal(init[i].class, kind)->0 >= 1 by {
            assert(init[i] == s[i]);
        }
        assert forall|i: int, j: int|
            0 <= i < j < init.len() && #[trigger] covered_ordinal(init[i].class, kind) is Some
                && #[trigger] covered_ordinal(init[j].class, kind) is Some implies covered_ordinal(
            init[i].class,
            kind,
        ) != covered_ordinal(init[j].class, kind) by {
            assert(init[i] == s[i] && init[j] == s[j]);
        }
        lemma_covered_set_card(init, kind);
        lemma_covered_set_push(init, s.last(), kind);
        lemma_max_covered(s, kind);
        assert(init.push(s.last()) =~= s);
        let last = s.len() - 1;
        if covered_ordinal(s.last().class, kind) is Some {
            let o = covered_ordinal(s.last().class, kind)->0;
            assert(!covered_set(init, kind).contains(o)) by {
                if covered_set(init, kind).contains(o) {
                    let i = choose|i: int|
                        0 <= i < init.len() && #[trigger] covered_ordinal(init[i].class, kind)
                            == Some(o);
                    assert(s[i] == init[i]);
                    assert(covered_ordinal(s[i].class, kind) != covered_ordinal(s[last].class, kind));
                }
            }
            assert(covered_ordinal(s[last].class, kind)->0 >= 1);
        }
        assert forall|x: u64| covered_set(s, kind).contains(x) implies ordinal_range(
            max_covered(s, kind) as nat,
        ).contains(x) by {
            let i = choose|i: int|
                0 <= i < s.len() && #[trigger] covered_ordinal(s[i].class, kind) == Some(x);
        }
    }
}

/// Law (`missing_*` measures density): with positive, distinct covered
/// ordinals, the covered count never exceeds the greatest ordinal; the
/// vacant ordinals below it number exactly `missing_*`; and `missing_*` is 0
/// exactly when the covered ordinals are the dense prefix `1..=max`.
pub proof fn law_missing_measures_density(s: Seq<EntryClass>, kind: Kind)
    requires
        distinct_positive_ordinals(s, kind),
    ensures
        count_covered(s, kind) <= max_covered(s, kind),
        ordinal_range(max_covered(s, kind) as nat).difference(covered_set(s, kind)).len()
            == max_covered(s, kind) - count_covered(s, kind),
        saturating_sub(max_covered(s, kind) as nat, count_covered(s, kind)) == 0 <==> forall|n: u64|
            1 <= n <= max_covered(s, kind) ==> #[trigger] covered_set(s, kind).contains(n),
{
    let m = max_covered(s, kind) as nat;
    let r = ordinal_range(m);
    let c = covered_set(s, kind);
    lemma_ordinal_range(m);
    lemma_covered_set_card(s, kind);
    vstd::set_lib::lemma_len_subset(c, r);
    let g = r.difference(c);
    assert(r =~= g + c);
    vstd::set_lib::lemma_set_subset_finite(r, g);
    assert(g.disjoint(c));
    vstd::set_lib::lemma_set_disjoint_lens(g, c);
    if count_covered(s, kind) == m {
        vstd::set_lib::lemma_subset_equality(c, r);
    }
    if forall|n: u64| 1 <= n <= m ==> #[trigger] c.contains(n) {
        assert(c =~= r);
    }
}

/// Law (`--gaps` lists the `missing_*` vacancies): any strictly increasing
/// list of exactly the vacant ordinals below the greatest covered one (what
/// `gaps` returns) has `missing_*` elements, when covered ordinals are
/// positive and distinct.
pub proof fn law_gaps_count(s: Seq<EntryClass>, kind: Kind, g: Seq<u64>)
    requires
        distinct_positive_ordinals(s, kind),
        forall|i: int, j: int| 0 <= i < j < g.len() ==> g[i] < g[j],
        forall|n: u64|
            g.contains(n) <==> (1 <= n <= max_covered(s, kind) && !covered_set(s, kind).contains(n)),
    ensures
        g.len() == saturating_sub(max_covered(s, kind) as nat, count_covered(s, kind)),
{
    law_missing_measures_density(s, kind);
    let m = max_covered(s, kind) as nat;
    assert(g.to_set() =~= ordinal_range(m).difference(covered_set(s, kind)));
    assert(g.no_duplicates()) by {
        assert forall|i: int, j: int| 0 <= i < g.len() && 0 <= j < g.len() && i != j implies g[i]
            != g[j] by {
            if i < j {
                assert(g[i] < g[j]);
            } else {
                assert(g[j] < g[i]);
            }
        }
    }
    g.unique_seq_to_set();
}


proof fn lemma_count_concat(a: Seq<EntryClass>, b: Seq<EntryClass>, p: spec_fn(Class) -> bool)
    ensures
        count_class(a + b, p) == count_class(a, p) + count_class(b, p),
    decreases b.len(),
{
    if b.len() == 0 {
        assert(a + b =~= a);
    } else {
        lemma_count_concat(a, b.drop_last(), p);
        assert((a + b).drop_last() =~= a + b.drop_last());
        assert((a + b).last() == b.last());
    }
}

proof fn lemma_max_concat(a: Seq<EntryClass>, b: Seq<EntryClass>, kind: Kind)
    ensures
        max_covered(a + b, kind) == if max_covered(a, kind) >= max_covered(b, kind) {
            max_covered(a, kind)
        } else {
            max_covered(b, kind)
        },
    decreases b.len(),
{
    if b.len() == 0 {
        assert(a + b =~= a);
    } else {
        lemma_max_concat(a, b.drop_last(), kind);
        assert((a + b).drop_last() =~= a + b.drop_last());
        assert((a + b).last() == b.last());
    }
}

/// One entry `x` taken out of a reordering: the rest have the same entries,
/// and `s2` is the rest around `x`.
proof fn lemma_take_out(s1: Seq<EntryClass>, s2: Seq<EntryClass>) -> (j: int)
    requires
        s1.to_multiset() == s2.to_multiset(),
        s1.len() > 0,
    ensures
        0 <= j < s2.len(),
        s2[j] == s1.last(),
        s1.drop_last().to_multiset() == s2.remove(j).to_multiset(),
        s2 == s2.take(j) + seq![s1.last()] + s2.skip(j + 1),
        s2.remove(j) == s2.take(j) + s2.skip(j + 1),
{
    broadcast use vstd::seq_lib::group_to_multiset_ensures;
    broadcast use vstd::multiset::group_multiset_axioms;
    let x = s1.last();
    let t1 = s1.drop_last();
    assert(t1.push(x) =~= s1);
    assert(s1.contains(x)) by {
        assert(s1[s1.len() - 1] == x);
    }
    assert(s1.to_multiset().count(x) > 0);
    assert(s2.to_multiset().count(x) > 0);
    assert(s2.contains(x));
    let j = choose|j: int| 0 <= j < s2.len() && s2[j] == x;
    assert(s2.remove(j).to_multiset() == s2.to_multiset().remove(x));
    assert(t1.to_multiset().insert(x).remove(x) =~= t1.to_multiset());
    assert(s2 =~= s2.take(j) + seq![x] + s2.skip(j + 1));
    assert(s2.remove(j) =~= s2.take(j) + s2.skip(j + 1));
    j
}

proof fn lemma_count_reorder(s1: Seq<EntryClass>, s2: Seq<EntryClass>, p: spec_fn(Class) -> bool)
    requires
        s1.to_multiset() == s2.to_multiset(),
    ensures
        count_class(s1, p) == count_class(s2, p),
    decreases s1.len(),
{
    broadcast use vstd::seq_lib::group_to_multiset_ensures;
    if s1.len() == 0 {
        vstd::seq_lib::to_multiset_len(s1);
        vstd::seq_lib::to_multiset_len(s2);
        assert(s2.len() == 0);
    } else {
        let j = lemma_take_out(s1, s2);
        let x = s1.last();
        let a = s2.take(j);
        let b = s2.skip(j + 1);
        lemma_count_reorder(s1.drop_last(), s2.remove(j), p);
        lemma_count_concat(a + seq![x], b, p);
        lemma_count_concat(a, seq![x], p);
        lemma_count_concat(a, b, p);
        assert(seq![x].drop_last() =~= Seq::<EntryClass>::empty());
        assert(count_class(seq![x], p) == count_class(Seq::<EntryClass>::empty(), p) + if p(x.class) {
            1nat
        } else {
            0nat
        });
        assert(count_class(s2, p) == count_class(a + seq![x] + b, p));
        assert(count_class(s2.remove(j), p) == count_class(a + b, p));
    }
}

proof fn lemma_max_reorder(s1: Seq<EntryClass>, s2: Seq<EntryClass>, kind: Kind)
    requires
        s1.to_multiset() == s2.to_multiset(),
    ensures
        max_covered(s1, kind) == max_covered(s2, kind),
    decreases s1.len(),
{
    broadcast use vstd::seq_lib::group_to_multiset_ensures;
    if s1.len() == 0 {
        vstd::seq_lib::to_multiset_len(s1);
        vstd::seq_lib::to_multiset_len(s2);
        assert(s2.len() == 0);
    } else {
        let j = lemma_take_out(s1, s2);
        let x = s1.last();
        let a = s2.take(j);
        let b = s2.skip(j + 1);
        lemma_max_reorder(s1.drop_last(), s2.remove(j), kind);
        lemma_max_concat(a + seq![x], b, kind);
        lemma_max_concat(a, seq![x], kind);
        lemma_max_concat(a, b, kind);
        assert(seq![x].drop_last() =~= Seq::<EntryClass>::empty());
        assert(max_covered(Seq::<EntryClass>::empty(), kind) == 0);
        assert(seq![x].last() == x);
        assert(max_covered(s2, kind) == max_covered(a + seq![x] + b, kind));
        assert(max_covered(s2.remove(j), kind) == max_covered(a + b, kind));
    }
}

proof fn lemma_last_index_reorder(s1: Seq<EntryClass>, s2: Seq<EntryClass>, kind: Kind)
    requires
        s1.to_multiset() == s2.to_multiset(),
        distinct_ordinals(s1, kind),
    ensures
        last_index(s1, kind) == last_index(s2, kind),
{
    broadcast use vstd::seq_lib::group_to_multiset_ensures;
    lemma_max_reorder(s1, s2, kind);
    law_last_index_is_maximum(s1, kind);
    law_last_index_is_maximum(s2, kind);
    let m = max_covered(s1, kind);
    if m > 0 {
        let i = choose|i: int|
            0 <= i < s1.len() && #[trigger] covered_ordinal(s1[i].class, kind) == Some(m)
                && last_index(s1, kind) == decode_core(s1[i].name@, kind) && forall|j: int|
                0 <= j < i ==> covered_ordinal(s1[j].class, kind) != Some(m);
        let j = choose|j: int|
            0 <= j < s2.len() && #[trigger] covered_ordinal(s2[j].class, kind) == Some(m)
                && last_index(s2, kind) == decode_core(s2[j].name@, kind) && forall|k: int|
                0 <= k < j ==> covered_ordinal(s2[k].class, kind) != Some(m);
        let e = s2[j];
        assert(s2.contains(e));
        assert(s2.to_multiset().count(e) > 0);
        assert(s1.to_multiset().count(e) > 0);
        assert(s1.contains(e));
        let k = choose|k: int| 0 <= k < s1.len() && s1[k] == e;
        assert(covered_ordinal(s1[k].class, kind) == Some(m));
        if k < i {
            assert(covered_ordinal(s1[k].class, kind) != covered_ordinal(s1[i].class, kind));
        } else if i < k {
            assert(covered_ordinal(s1[i].class, kind) != covered_ordinal(s1[k].class, kind));
        }
    }
}

/// Law (order does not matter): a node's local sidecar values are the same
/// for every ordering of its entries, when no two covered entries of a kind
/// share an ordinal (as in any node, whose names are distinct).
pub proof fn law_local_order_free(s1: Seq<EntryClass>, s2: Seq<EntryClass>)
    requires
        s1.to_multiset() == s2.to_multiset(),
        distinct_ordinals(s1, Kind::File),
        distinct_ordinals(s1, Kind::Dir),
    ensures
        spec_local(s1) == spec_local(s2),
{
    assert forall|p: spec_fn(Class) -> bool| #[trigger] count_class(s1, p) == count_class(s2, p) by {
        lemma_count_reorder(s1, s2, p);
    }
    lemma_max_reorder(s1, s2, Kind::File);
    lemma_max_reorder(s1, s2, Kind::Dir);
    lemma_last_index_reorder(s1, s2, Kind::File);
    lemma_last_index_reorder(s1, s2, Kind::Dir);
}

/// Every covered file is named by a valid file index and every covered
/// directory by a canonical directory name (as `classify_dir` guarantees).
pub open spec fn covered_names_valid(s: Seq<EntryClass>) -> bool {
    forall|i: int|
        0 <= i < s.len() ==> {
            &&& (#[trigger] s[i]).class is CoveredFile ==> spec_valid_index(s[i].name@, Kind::File)
            &&& s[i].class is CoveredDir ==> spec_is_canonical_dir_name(s[i].name@)
        }
}

proof fn lemma_digits_no_newline(t: Seq<char>, kind: Kind)
    requires
        all_digits(t, kind),
    ensures
        no_newline(t),
{
    assert forall|i: int| 0 <= i < t.len() implies t[i] != '\n' by {
        assert(crate::kind::is_digit(kind, t[i]));
    }
}

proof fn lemma_last_index_no_newline(s: Seq<EntryClass>, kind: Kind)
    requires
        covered_names_valid(s),
    ensures
        no_newline(last_index(s, kind)),
{
    law_last_index_is_maximum(s, kind);
    if max_covered(s, kind) > 0 {
        let i = choose|i: int|
            0 <= i < s.len() && #[trigger] covered_ordinal(s[i].class, kind) == Some(
                max_covered(s, kind),
            ) && last_index(s, kind) == decode_core(s[i].name@, kind) && forall|j: int|
                0 <= j < i ==> covered_ordinal(s[j].class, kind) != Some(max_covered(s, kind));
        let name = s[i].name@;
        if kind == Kind::File {
            assert(spec_valid_index(name, Kind::File));
            lemma_digits_no_newline(name, Kind::File);
        } else {
            assert(spec_is_canonical_dir_name(name));
            let core = if has_underscore(name) { name.drop_first() } else { name };
            assert(decode_core(name, kind) == core);
            lemma_digits_no_newline(core, Kind::Dir);
        }
    } else {
        assert(no_newline(Seq::<char>::empty()));
    }
}

/// Law (a written sidecar checks clean): the text of a node's derived
/// sidecar reads back as exactly those values, whenever its covered entries
/// carry valid names (as classified entries do).
pub proof fn law_derived_sidecar_reads_back(s: Seq<EntryClass>, ch: Seq<SidecarView>)
    requires
        covered_names_valid(s),
    ensures
        spec_parse(spec_serialize(spec_subtree(s, ch))) == Ok::<SidecarView, Seq<char>>(
            spec_subtree(s, ch),
        ),
        spec_parse(spec_serialize(spec_local(s))) == Ok::<SidecarView, Seq<char>>(spec_local(s)),
{
    lemma_last_index_no_newline(s, Kind::File);
    lemma_last_index_no_newline(s, Kind::Dir);
    law_parse_serialize(spec_subtree(s, ch));
    law_parse_serialize(spec_local(s));
}

} // verus!
