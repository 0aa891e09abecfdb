//! Classifying the entries of a node: sidecar, covered file, covered
//! directory, or extra (with the rule that made it extra).

use vstd::prelude::*;
use crate::kind::Kind;
use crate::codec::{
    decode, valid_index, is_canonical_dir_name, all_digits_from, spec_valid_index,
    spec_is_canonical_dir_name, ordinal_of, has_underscore, lemma_index_decodes, CodecError,
    spec_decode, law_encode_decode, law_storage_name_canonical,
};
use crate::kind::{spec_capacity, is_digit};
use crate::order::{stable_sort_by_key, is_stable_sort, is_stable_sort_with};
use crate::text::chars_of;
use crate::derive::{covered_names_valid, covered_ordinal, positive_ordinals, distinct_ordinals};
use std::collections::HashSet;
use std::path::PathBuf;
use vstd::utf8::encode_utf8;

verus! {

broadcast use vstd::std_specs::hash::group_hash_axioms;

#[verifier::external_type_specification]
#[verifier::external_body]
pub struct ExPathBuf(PathBuf);

/// `PathBuf::clone`, used by the derived `Clone` of `EntryClass`; nothing is
/// claimed of the copy.
pub assume_specification[ <PathBuf as Clone>::clone ](p: &PathBuf) -> PathBuf;

/// Why an entry is extra rather than covered.
#[derive(Debug, Clone, Copy, PartialEq, Eq, Structural)]
pub enum ExtraRule {
    NameTooLong,
    NonAlnum,
    NonCanonicalDirForm,
    FileNamedDirIndex,
    DirNamedFileIndex,
    TenMissingPredecessors,
    UnsupportedType,
}

/// What an entry of a node is.
#[derive(Debug, Clone, Copy, PartialEq, Eq, Structural)]
pub enum Class {
    Sidecar,
    CoveredFile { ordinal: u64 },
    CoveredDir { ordinal: u64 },
    ExtraFile { rule: ExtraRule },
    ExtraDir { rule: ExtraRule },
    ExtraOther { rule: ExtraRule },
}

/// A directory entry as read from disk.
#[derive(Debug)]
pub struct RawEntry {
    pub name: String,
    pub path: PathBuf,
    pub is_file: bool,
    pub is_dir: bool,
    pub len: u64,
}

/// A classified directory entry.
#[derive(Debug, Clone)]
pub struct EntryClass {
    pub name: String,
    pub path: PathBuf,
    pub class: Class,
    pub len: u64,
}

/// `c` is an ASCII letter or digit.
pub open spec fn is_alnum(c: char) -> bool {
    ('0' <= c && c <= '9') || ('A' <= c && c <= 'Z') || ('a' <= c && c <= 'z')
}

/// The ordinal `o` is at least 11 and none of the ten ordinals below it is present.
pub open spec fn spec_ten_missing(o: u64, present: Set<u64>) -> bool {
    o >= 11 && forall|x: u64| o - 10 <= x < o ==> !#[trigger] present.contains(x)
}

/// The extra class of a file, a directory, or anything else.
pub open spec fn extra_of(is_file: bool, is_dir: bool, rule: ExtraRule) -> Class {
    if is_file {
        Class::ExtraFile { rule }
    } else if is_dir {
        Class::ExtraDir { rule }
    } else {
        Class::ExtraOther { rule }
    }
}

/// The part of a name the rules read: directories drop one leading `_`.
pub open spec fn name_core(name: Seq<char>, is_dir: bool) -> Seq<char> {
    if is_dir && has_underscore(name) {
        name.drop_first()
    } else {
        name
    }
}

/// The class of an entry, given the ordinals present among the node's file
/// indices and canonical directory names.
pub open spec fn spec_class(
    name: Seq<char>,
    is_file: bool,
    is_dir: bool,
    files: Set<u64>,
    dirs: Set<u64>,
) -> Class {
    let core = name_core(name, is_dir);
    if name == seq!['.', '0'] {
        Class::Sidecar
    } else if core.len() == 0 || encode_utf8(core).len() > 3 {
        extra_of(is_file, is_dir, ExtraRule::NameTooLong)
    } else if !(forall|i: int| 0 <= i < core.len() ==> is_alnum(#[trigger] core[i])) {
        extra_of(is_file, is_dir, ExtraRule::NonAlnum)
    } else if is_dir && spec_valid_index(core, Kind::Dir) && !spec_is_canonical_dir_name(name) {
        Class::ExtraDir { rule: ExtraRule::NonCanonicalDirForm }
    } else if is_file && spec_valid_index(name, Kind::Dir) {
        Class::ExtraFile { rule: ExtraRule::FileNamedDirIndex }
    } else if is_dir && spec_valid_index(core, Kind::File) {
        Class::ExtraDir { rule: ExtraRule::DirNamedFileIndex }
    } else if is_file && spec_valid_index(name, Kind::File) {
        let o = ordinal_of(name, Kind::File) as u64;
        if spec_ten_missing(o, files) {
            Class::ExtraFile { rule: ExtraRule::TenMissingPredecessors }
        } else {
            Class::CoveredFile { ordinal: o }
        }
    } else if is_dir && spec_is_canonical_dir_name(name) {
        let o = ordinal_of(name, Kind::Dir) as u64;
        if spec_ten_missing(o, dirs) {
            Class::ExtraDir { rule: ExtraRule::TenMissingPredecessors }
        } else {
            Class::CoveredDir { ordinal: o }
        }
    } else {
        extra_of(is_file, is_dir, ExtraRule::UnsupportedType)
    }
}

/// Entry `e` is a file named by a valid file index of ordinal `o`.
pub open spec fn names_file_ordinal(e: RawEntry, o: u64) -> bool {
    e.is_file && spec_valid_index(e.name@, Kind::File) && ordinal_of(e.name@, Kind::File) == o
}

/// Entry `e` is a directory with a canonical name of ordinal `o`.
pub open spec fn names_dir_ordinal(e: RawEntry, o: u64) -> bool {
    e.is_dir && spec_is_canonical_dir_name(e.name@) && ordinal_of(e.name@, Kind::Dir) == o
}

/// The ordinals of the node's files named by valid file indices.
pub open spec fn file_ordinals(raw: Seq<RawEntry>) -> Set<u64> {
    Set::new(|o: u64| exists|i: int| 0 <= i < raw.len() && #[trigger] names_file_ordinal(raw[i], o))
}

/// The ordinals of the node's directories with canonical names.
pub open spec fn dir_ordinals(raw: Seq<RawEntry>) -> Set<u64> {
    Set::new(|o: u64| exists|i: int| 0 <= i < raw.len() && #[trigger] names_dir_ordinal(raw[i], o))
}

/// Entry `e` of a node whose entries are `raw`, classified.
pub open spec fn classify_entry(e: RawEntry, raw: Seq<RawEntry>) -> EntryClass {
    EntryClass {
        name: e.name,
        path: e.path,
        class: spec_class(e.name@, e.is_file, e.is_dir, file_ordinals(raw), dir_ordinals(raw)),
        len: e.len,
    }
}

/// Each entry of `raw` classified, in the same order.
pub open spec fn classified(raw: Seq<RawEntry>) -> Seq<EntryClass> {
    raw.map_values(|e: RawEntry| classify_entry(e, raw))
}

/// Entries paired with their names as sort keys.
pub open spec fn keyed_by_name(s: Seq<EntryClass>) -> Seq<(String, EntryClass)> {
    s.map_values(|e: EntryClass| (e.name, e))
}

/// True iff `ordinal >= 11` and none of the ten ordinals directly below it is in `present`.
pub fn has_ten_missing(ordinal: u64, present: &HashSet<u64>) -> (r: bool)
    ensures
        r == spec_ten_missing(ordinal, present@),
{
    if ordinal < 11 {
        return false;
    }
    let mut d: u64 = 1;
    while d <= 10
        invariant
            1 <= d <= 11,
            ordinal >= 11,
            forall|x: u64| ordinal - d < x < ordinal ==> !#[trigger] present@.contains(x),
        decreases 11 - d,
    {
        if present.contains(&(ordinal - d)) {
            return false;
        }
        d = d + 1;
    }
    true
}


/// Whether the UTF-8 encoding of `v[from..]` is longer than three bytes.
fn utf8_longer_than_3(v: &Vec<char>, from: usize) -> (r: bool)
    requires
        from <= v.len(),
    ensures
        r == (encode_utf8(v@.skip(from as int)).len() > 3),
{
    let mut i = from;
    let mut count: u64 = 0;
    while i < v.len()
        invariant
            from <= i <= v.len(),
            count <= 3,
            encode_utf8(v@.skip(from as int)).len() == count + encode_utf8(v@.skip(i as int)).len(),
        decreases v.len() - i,
    {
        let c = v[i];
        let u = c as u32;
        proof {
            vstd::utf8::char_is_scalar(c);
            assert(v@.skip(i as int)[0] == c);
            assert(v@.skip(i as int).drop_first() =~= v@.skip(i + 1));
        }
        let w: u64 = if u <= 0x7F {
            1
        } else if u <= 0x7FF {
            2
        } else if u <= 0xFFFF {
            3
        } else {
            4
        };
        if count + w > 3 {
            return true;
        }
        count = count + w;
        i = i + 1;
    }
    assert(v@.skip(i as int) =~= Seq::<char>::empty());
    false
}

/// Whether `v[from..]` are all ASCII letters or digits.
fn all_alnum_from(v: &Vec<char>, from: usize) -> (r: bool)
    requires
        from <= v.len(),
    ensures
        r == (forall|i: int| 0 <= i < v@.skip(from as int).len() ==> is_alnum(
            #[trigger] v@.skip(from as int)[i],
        )),
{
    let mut i = from;
    while i < v.len()
        invariant
            from <= i <= v.len(),
            forall|x: int| from <= x < i ==> is_alnum(#[trigger] v@[x]),
        decreases v.len() - i,
    {
        let c = v[i];
        if !(('0' <= c && c <= '9') || ('A' <= c && c <= 'Z') || ('a' <= c && c <= 'z')) {
            assert(v@.skip(from as int)[i - from] == c);
            return false;
        }
        i = i + 1;
    }
    assert forall|x: int| 0 <= x < v@.skip(from as int).len() implies is_alnum(
        #[trigger] v@.skip(from as int)[x],
    ) by {
        assert(v@.skip(from as int)[x] == v@[x + from]);
    }
    true
}

/// Whether `v[from..]` is a valid logical index of `kind`.
fn valid_index_from(v: &Vec<char>, from: usize, kind: Kind) -> (r: bool)
    requires
        from <= v.len(),
    ensures
        r == spec_valid_index(v@.skip(from as int), kind),
{
    let n = v.len() - from;
    n >= 1 && n <= 3 && all_digits_from(v, from, kind)
}

/// The class of one entry, given the ordinals present in its node.
pub fn classify_one(e: &RawEntry, files: &HashSet<u64>, dirs: &HashSet<u64>) -> (c: Class)
    ensures
        c == spec_class(e.name@, e.is_file, e.is_dir, files@, dirs@),
{
    let name = e.name.as_str();
    let chars = chars_of(name);
    let prefixed = e.is_dir && chars.len() > 0 && chars[0] == '_';
    let from: usize = if prefixed {
        1
    } else {
        0
    };
    let ghost core = name_core(name@, e.is_dir);
    assert(core =~= chars@.skip(from as int));
    let extra = |rule: ExtraRule| -> (c: Class)
        ensures
            c == extra_of(e.is_file, e.is_dir, rule),
        {
            if e.is_file {
                Class::ExtraFile { rule }
            } else if e.is_dir {
                Class::ExtraDir { rule }
            } else {
                Class::ExtraOther { rule }
            }
        };
    if chars.len() == 2 && chars[0] == '.' && chars[1] == '0' {
        assert(name@ =~= seq!['.', '0']);
        return Class::Sidecar;
    }
    assert(name@ != seq!['.', '0']) by {
        if name@ == seq!['.', '0'] {
            assert(chars@.len() == 2 && chars@[0] == '.' && chars@[1] == '0');
        }
    }
    if chars.len() == from || utf8_longer_than_3(&chars, from) {
        return extra(ExtraRule::NameTooLong);
    }
    if !all_alnum_from(&chars, from) {
        return extra(ExtraRule::NonAlnum);
    }
    assert(forall|i: int| 0 <= i < core.len() ==> is_alnum(#[trigger] core[i]));
    if e.is_dir && valid_index_from(&chars, from, Kind::Dir) && !is_canonical_dir_name(name) {
        return Class::ExtraDir { rule: ExtraRule::NonCanonicalDirForm };
    }
    if e.is_file && valid_index(name, Kind::Dir) {
        return Class::ExtraFile { rule: ExtraRule::FileNamedDirIndex };
    }
    if e.is_dir && valid_index_from(&chars, from, Kind::File) {
        return Class::ExtraDir { rule: ExtraRule::DirNamedFileIndex };
    }
    if e.is_file && valid_index(name, Kind::File) {
        proof {
            lemma_index_decodes(name@, Kind::File);
        }
        match decode(name, Kind::File) {
            Ok(ordinal) => {
                if has_ten_missing(ordinal, files) {
                    return Class::ExtraFile { rule: ExtraRule::TenMissingPredecessors };
                } else {
                    return Class::CoveredFile { ordinal };
                }
            },
            Err(_) => {
                assert(false);
                return Class::Sidecar;
            },
        }
    }
    if e.is_dir && is_canonical_dir_name(name) {
        proof {
            lemma_index_decodes(name@, Kind::Dir);
        }
        match decode(name, Kind::Dir) {
            Ok(ordinal) => {
                if has_ten_missing(ordinal, dirs) {
                    return Class::ExtraDir { rule: ExtraRule::TenMissingPredecessors };
                } else {
                    return Class::CoveredDir { ordinal };
                }
            },
            Err(_) => {
                assert(false);
                return Class::Sidecar;
            },
        }
    }
    extra(ExtraRule::UnsupportedType)
}


proof fn lemma_ordinals_push(s: Seq<RawEntry>, e: RawEntry)
    ensures
        forall|o: u64|
            names_file_ordinal(e, o) ==> #[trigger] file_ordinals(s.push(e)) == file_ordinals(
                s,
            ).insert(o),
        (forall|o: u64| !names_file_ordinal(e, o)) ==> file_ordinals(s.push(e)) == file_ordinals(
            s,
        ),
        forall|o: u64|
            names_dir_ordinal(e, o) ==> #[trigger] dir_ordinals(s.push(e)) == dir_ordinals(
                s,
            ).insert(o),
        (forall|o: u64| !names_dir_ordinal(e, o)) ==> dir_ordinals(s.push(e)) == dir_ordinals(s),
{
    let t = s.push(e);
    assert forall|o: u64| names_file_ordinal(e, o) implies #[trigger] file_ordinals(t)
        == file_ordinals(s).insert(o) by {
        assert forall|x: u64| file_ordinals(t).contains(x) == file_ordinals(s).insert(o).contains(
            x,
        ) by {
            if file_ordinals(t).contains(x) && x != o {
                let i = choose|i: int| 0 <= i < t.len() && #[trigger] names_file_ordinal(t[i], x);
                assert(i < s.len());
                assert(names_file_ordinal(s[i], x));
            }
            if file_ordinals(s).contains(x) {
                let i = choose|i: int| 0 <= i < s.len() && #[trigger] names_file_ordinal(s[i], x);
                assert(names_file_ordinal(t[i], x));
            }
            if x == o {
                assert(names_file_ordinal(t[s.len() as int], x));
            }
        }
        assert(file_ordinals(t) =~= file_ordinals(s).insert(o));
    }
    if forall|o: u64| !names_file_ordinal(e, o) {
        assert forall|x: u64| file_ordinals(t).contains(x) == file_ordinals(s).contains(x) by {
            if file_ordinals(t).contains(x) {
                let i = choose|i: int| 0 <= i < t.len() && #[trigger] names_file_ordinal(t[i], x);
                assert(i < s.len());
                assert(names_file_ordinal(s[i], x));
            }
            if file_ordinals(s).contains(x) {
                let i = choose|i: int| 0 <= i < s.len() && #[trigger] names_file_ordinal(s[i], x);
                assert(names_file_ordinal(t[i], x));
            }
        }
        assert(file_ordinals(t) =~= file_ordinals(s));
    }
    assert forall|o: u64| names_dir_ordinal(e, o) implies #[trigger] dir_ordinals(t)
        == dir_ordinals(s).insert(o) by {
        assert forall|x: u64| dir_ordinals(t).contains(x) == dir_ordinals(s).insert(o).contains(
            x,
        ) by {
            if dir_ordinals(t).contains(x) && x != o {
                let i = choose|i: int| 0 <= i < t.len() && #[trigger] names_dir_ordinal(t[i], x);
                assert(i < s.len());
                assert(names_dir_ordinal(s[i], x));
            }
            if dir_ordinals(s).contains(x) {
                let i = choose|i: int| 0 <= i < s.len() && #[trigger] names_dir_ordinal(s[i], x);
                assert(names_dir_ordinal(t[i], x));
            }
            if x == o {
                assert(names_dir_ordinal(t[s.len() as int], x));
            }
        }
        assert(dir_ordinals(t) =~= dir_ordinals(s).insert(o));
    }
    if forall|o: u64| !names_dir_ordinal(e, o) {
        assert forall|x: u64| dir_ordinals(t).contains(x) == dir_ordinals(s).contains(x) by {
            if dir_ordinals(t).contains(x) {
                let i = choose|i: int| 0 <= i < t.len() && #[trigger] names_dir_ordinal(t[i], x);
                assert(i < s.len());
                assert(names_dir_ordinal(s[i], x));
            }
            if dir_ordinals(s).contains(x) {
                let i = choose|i: int| 0 <= i < s.len() && #[trigger] names_dir_ordinal(s[i], x);
                assert(names_dir_ordinal(t[i], x));
            }
        }
        assert(dir_ordinals(t) =~= dir_ordinals(s));
    }
}

/// The ordinals present among a node's file indices and canonical directory names.
pub fn present_ordinals(raw: &Vec<RawEntry>) -> (r: (HashSet<u64>, HashSet<u64>))
    ensures
        r.0@ == file_ordinals(raw@),
        r.1@ == dir_ordinals(raw@),
{
    let mut files: HashSet<u64> = HashSet::new();
    let mut dirs: HashSet<u64> = HashSet::new();
    let mut i: usize = 0;
    proof {
        assert(file_ordinals(raw@.take(0)) =~= Set::<u64>::empty());
        assert(dir_ordinals(raw@.take(0)) =~= Set::<u64>::empty());
    }
    while i < raw.len()
        invariant
            i <= raw.len(),
            files@ == file_ordinals(raw@.take(i as int)),
            dirs@ == dir_ordinals(raw@.take(i as int)),
        decreases raw.len() - i,
    {
        let e = &raw[i];
        proof {
            assert(raw@.take(i + 1) =~= raw@.take(i as int).push(*e));
            lemma_ordinals_push(raw@.take(i as int), *e);
        }
        let name = e.name.as_str();
        if e.is_file && valid_index(name, Kind::File) {
            proof {
                lemma_index_decodes(name@, Kind::File);
            }
            if let Ok(o) = decode(name, Kind::File) {
                assert(names_file_ordinal(*e, o));
                files.insert(o);
            }
        } else {
            assert(forall|o: u64| !names_file_ordinal(*e, o));
        }
        if e.is_dir && is_canonical_dir_name(name) {
            proof {
                lemma_index_decodes(name@, Kind::Dir);
            }
            if let Ok(o) = decode(name, Kind::Dir) {
                assert(names_dir_ordinal(*e, o));
                dirs.insert(o);
            }
        } else {
            assert(forall|o: u64| !names_dir_ordinal(*e, o));
        }
        i = i + 1;
    }
    assert(raw@.take(raw.len() as int) =~= raw@);
    (files, dirs)
}

/// No two entries share a name (as in any directory listing).
pub open spec fn names_distinct(raw: Seq<RawEntry>) -> bool {
    forall|i: int, j: int|
        0 <= i < j < raw.len() ==> (#[trigger] raw[i]).name@ != (#[trigger] raw[j]).name@
}

/// A covered entry has a positive ordinal, and is named by it.
proof fn lemma_covered_named(e: RawEntry, raw: Seq<RawEntry>, kind: Kind)
    ensures
        covered_ordinal(classify_entry(e, raw).class, kind) is Some ==> {
            let o = covered_ordinal(classify_entry(e, raw).class, kind)->0;
            &&& o >= 1
            &&& kind == Kind::File ==> names_file_ordinal(e, o)
            &&& kind == Kind::Dir ==> names_dir_ordinal(e, o)
        },
{
    law_covered_entries(e.name@, e.is_file, e.is_dir, file_ordinals(raw), dir_ordinals(raw));
    if spec_valid_index(e.name@, Kind::File) {
        lemma_index_decodes(e.name@, Kind::File);
    }
    if spec_is_canonical_dir_name(e.name@) {
        lemma_index_decodes(e.name@, Kind::Dir);
    }
}

/// Law (covered ordinals of a node): in any stable name-sort of a node's
/// classified entries the covered ordinals of each kind are positive, and no
/// two covered entries of a kind share one when the node's names are distinct.
pub proof fn law_classified_ordinals(raw: Seq<RawEntry>, out: Seq<EntryClass>, kind: Kind)
    requires
        is_stable_sort(keyed_by_name(out), keyed_by_name(classified(raw))),
    ensures
        positive_ordinals(out, kind),
        names_distinct(raw) ==> distinct_ordinals(out, kind),
{
    let want = keyed_by_name(classified(raw));
    let p = choose|p: Seq<int>| is_stable_sort_with(keyed_by_name(out), want, p);
    assert forall|i: int|
        0 <= i < out.len() && #[trigger] covered_ordinal(out[i].class, kind) is Some
            implies covered_ordinal(out[i].class, kind)->0 >= 1 by {
        assert(keyed_by_name(out)[i] == want[p[i]]);
        lemma_covered_named(raw[p[i]], raw, kind);
    }
    if names_distinct(raw) {
        assert forall|i: int, j: int|
            0 <= i < j < out.len() && #[trigger] covered_ordinal(out[i].class, kind) is Some
                && #[trigger] covered_ordinal(out[j].class, kind) is Some implies covered_ordinal(
            out[i].class,
            kind,
        ) != covered_ordinal(out[j].class, kind) by {
            assert(keyed_by_name(out)[i] == want[p[i]]);
            assert(keyed_by_name(out)[j] == want[p[j]]);
            let ei = raw[p[i]];
            let ej = raw[p[j]];
            lemma_covered_named(ei, raw, kind);
            lemma_covered_named(ej, raw, kind);
            if covered_ordinal(out[i].class, kind) == covered_ordinal(out[j].class, kind) {
                let o = covered_ordinal(out[i].class, kind)->0;
                law_ordinal_names_unique(ei, ej, o);
                if p[i] < p[j] {
                    assert(raw[p[i]].name@ != raw[p[j]].name@);
                } else {
                    assert(raw[p[j]].name@ != raw[p[i]].name@);
                }
            }
        }
    }
}

/// Classifies every entry of a node (by its present state alone) and sorts
/// the result by name. Covered ordinals are positive, and no two covered
/// entries of a kind share one when the node's names are distinct.
pub fn classify_dir(raw: Vec<RawEntry>) -> (r: Vec<EntryClass>)
    ensures
        is_stable_sort(keyed_by_name(r@), keyed_by_name(classified(raw@))),
        covered_names_valid(r@),
        positive_ordinals(r@, Kind::File),
        positive_ordinals(r@, Kind::Dir),
        names_distinct(raw@) ==> distinct_ordinals(r@, Kind::File),
        names_distinct(raw@) ==> distinct_ordinals(r@, Kind::Dir),
{
    let ghost raw0 = raw@;
    let (files, dirs) = present_ordinals(&raw);
    let mut keyed: Vec<(String, EntryClass)> = Vec::new();
    let n = raw.len();
    for e in it: raw
        invariant
            n == raw0.len(),
            it.seq() == raw0,
            files@ == file_ordinals(raw0),
            dirs@ == dir_ordinals(raw0),
            keyed@ == keyed_by_name(classified(raw0)).take(it.index()),
    {
        let ghost k = it.index();
        let class = classify_one(&e, &files, &dirs);
        let key = e.name.clone();
        let entry = EntryClass { name: e.name, path: e.path, class, len: e.len };
        proof {
            assert(raw0[k] == e);
        }
        keyed.push((key, entry));
        assert(keyed@ =~= keyed_by_name(classified(raw0)).take(k + 1));
    }
    assert(keyed@ =~= keyed_by_name(classified(raw0)));
    let sorted = stable_sort_by_key(keyed);
    let mut out: Vec<EntryClass> = Vec::new();
    let m = sorted.len();
    let ghost sorted0 = sorted@;
    proof {
        let p = choose|p: Seq<int>| crate::order::is_stable_sort_with(sorted0, keyed_by_name(classified(raw0)), p);
        assert forall|a: int| 0 <= a < sorted0.len() implies #[trigger] sorted0[a].0 == sorted0[a].1.name by {
            assert(sorted0[a] == keyed_by_name(classified(raw0))[p[a]]);
        }
    }
    for pair in it: sorted
        invariant
            it.seq() == sorted0,
            m == sorted0.len(),
            forall|a: int| 0 <= a < sorted0.len() ==> #[trigger] sorted0[a].0 == sorted0[a].1.name,
            keyed_by_name(out@) == sorted0.take(it.index()),
    {
        let ghost k = it.index();
        assert(sorted0[k] == pair);
        let ghost old_out = out@;
        assert(pair.0 == pair.1.name);
        out.push(pair.1);
        assert(out@ == old_out.push(pair.1));
        assert(keyed_by_name(out@) =~= keyed_by_name(old_out).push((pair.1.name, pair.1)));
        assert(keyed_by_name(out@) =~= sorted0.take(k + 1));
    }
    assert(sorted0.take(m as int) =~= sorted0);
    proof {
        let want = keyed_by_name(classified(raw0));
        let p = choose|p: Seq<int>| crate::order::is_stable_sort_with(sorted0, want, p);
        assert forall|i: int| 0 <= i < out@.len() implies {
            &&& (#[trigger] out@[i]).class is CoveredFile ==> spec_valid_index(out@[i].name@, Kind::File)
            &&& out@[i].class is CoveredDir ==> spec_is_canonical_dir_name(out@[i].name@)
        } by {
            assert(keyed_by_name(out@)[i] == sorted0[i]);
            assert(sorted0[i] == want[p[i]]);
            let e = raw0[p[i]];
            assert(out@[i] == classify_entry(e, raw0));
            law_covered_entries(e.name@, e.is_file, e.is_dir, file_ordinals(raw0), dir_ordinals(raw0));
        }
        law_classified_ordinals(raw0, out@, Kind::File);
        law_classified_ordinals(raw0, out@, Kind::Dir);
    }
    out
}


/// Law (positional names): a covered file is a file named by a valid file
/// index, a covered directory is a directory with a canonical name; either
/// name decodes to the entry's ordinal, which lies within the kind's
/// capacity and is not cut off by ten vacant predecessors.
pub proof fn law_covered_entries(
    name: Seq<char>,
    is_file: bool,
    is_dir: bool,
    files: Set<u64>,
    dirs: Set<u64>,
)
    ensures
        spec_class(name, is_file, is_dir, files, dirs) matches Class::CoveredFile { ordinal } ==> {
            &&& is_file
            &&& spec_valid_index(name, Kind::File)
            &&& spec_decode(name, Kind::File) == Ok::<nat, CodecError>(ordinal as nat)
            &&& 1 <= ordinal <= spec_capacity(Kind::File)
            &&& !spec_ten_missing(ordinal, files)
        },
        spec_class(name, is_file, is_dir, files, dirs) matches Class::CoveredDir { ordinal } ==> {
            &&& is_dir
            &&& spec_is_canonical_dir_name(name)
            &&& spec_decode(name, Kind::Dir) == Ok::<nat, CodecError>(ordinal as nat)
            &&& 1 <= ordinal <= spec_capacity(Kind::Dir)
            &&& !spec_ten_missing(ordinal, dirs)
        },
{
    if spec_valid_index(name, Kind::File) {
        lemma_index_decodes(name, Kind::File);
    }
    if spec_is_canonical_dir_name(name) {
        lemma_index_decodes(name, Kind::Dir);
    }
}

/// Law (sidecars do not affect classification): putting a `.0` entry into
/// a node's listing, at any position, changes neither the file nor the
/// directory ordinals present, nor the class of any other entry; the `.0`
/// itself is classed as a sidecar.
pub proof fn law_sidecar_entry_inert(raw: Seq<RawEntry>, x: RawEntry, k: int)
    requires
        x.name@ == seq!['.', '0'],
        0 <= k <= raw.len(),
    ensures
        file_ordinals(raw.insert(k, x)) == file_ordinals(raw),
        dir_ordinals(raw.insert(k, x)) == dir_ordinals(raw),
        classify_entry(x, raw.insert(k, x)).class == Class::Sidecar,
        forall|e: RawEntry| #[trigger] classify_entry(e, raw.insert(k, x)) == classify_entry(e, raw),
        classified(raw.insert(k, x)) == classified(raw).insert(k, classify_entry(x, raw)),
{
    let raw2 = raw.insert(k, x);
    assert(!spec_valid_index(x.name@, Kind::File)) by {
        assert(!is_digit(Kind::File, x.name@[0]));
    }
    assert(!spec_is_canonical_dir_name(x.name@)) by {
        assert(!has_underscore(x.name@));
        assert(!is_digit(Kind::Dir, x.name@[0]));
    }
    assert forall|o: u64| !names_file_ordinal(x, o) && !names_dir_ordinal(x, o) by {}
    assert forall|o: u64| #[trigger] file_ordinals(raw2).contains(o) == file_ordinals(raw).contains(o)
        by {
        if file_ordinals(raw2).contains(o) {
            let i = choose|i: int| 0 <= i < raw2.len() && #[trigger] names_file_ordinal(raw2[i], o);
            if i < k {
                assert(raw2[i] == raw[i]);
            } else {
                assert(i != k);
                assert(raw2[i] == raw[i - 1]);
            }
        }
        if file_ordinals(raw).contains(o) {
            let i = choose|i: int| 0 <= i < raw.len() && #[trigger] names_file_ordinal(raw[i], o);
            if i < k {
                assert(raw2[i] == raw[i]);
            } else {
                assert(raw2[i + 1] == raw[i]);
            }
        }
    }
    assert forall|o: u64| #[trigger] dir_ordinals(raw2).contains(o) == dir_ordinals(raw).contains(o)
        by {
        if dir_ordinals(raw2).contains(o) {
            let i = choose|i: int| 0 <= i < raw2.len() && #[trigger] names_dir_ordinal(raw2[i], o);
            if i < k {
                assert(raw2[i] == raw[i]);
            } else {
                assert(i != k);
                assert(raw2[i] == raw[i - 1]);
            }
        }
        if dir_ordinals(raw).contains(o) {
            let i = choose|i: int| 0 <= i < raw.len() && #[trigger] names_dir_ordinal(raw[i], o);
            if i < k {
                assert(raw2[i] == raw[i]);
            } else {
                assert(raw2[i + 1] == raw[i]);
            }
        }
    }
    assert(file_ordinals(raw2) =~= file_ordinals(raw));
    assert(dir_ordinals(raw2) =~= dir_ordinals(raw));
    assert(classified(raw2) =~= classified(raw).insert(k, classify_entry(x, raw)));
}

/// Law (one name per ordinal): two entries that name the same file ordinal,
/// or the same directory ordinal, have the same name.
pub proof fn law_ordinal_names_unique(e1: RawEntry, e2: RawEntry, o: u64)
    ensures
        names_file_ordinal(e1, o) && names_file_ordinal(e2, o) ==> e1.name@ == e2.name@,
        names_dir_ordinal(e1, o) && names_dir_ordinal(e2, o) ==> e1.name@ == e2.name@,
{
    if names_file_ordinal(e1, o) && names_file_ordinal(e2, o) {
        law_encode_decode(e1.name@, Kind::File);
        law_encode_decode(e2.name@, Kind::File);
    }
    if names_dir_ordinal(e1, o) && names_dir_ordinal(e2, o) {
        law_storage_name_canonical(0, e1.name@);
        law_storage_name_canonical(0, e2.name@);
        lemma_index_decodes(e1.name@, Kind::Dir);
        lemma_index_decodes(e2.name@, Kind::Dir);
    }
}

} // verus!
