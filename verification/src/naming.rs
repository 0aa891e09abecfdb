//! Allocating covered names: the next name of a node, a batch of names,
//! the renames that make a sequence dense, and the slots a packed fileset
//! occupies.

use vstd::prelude::*;
use crate::kind::{Kind, spec_capacity};
use crate::codec::{
    storage_name, spec_storage_name, law_storage_name_injective, spec_decode, spec_valid_index,
    spec_is_canonical_dir_name, law_decode_encode, law_storage_name_canonical,
    law_valid_index_iff_within_capacity, CodecError,
};
use crate::derive::lemma_max_covered;
use vstd::arithmetic::div_mod::lemma_fundamental_div_mod;
use crate::classify::{Class, EntryClass};
use crate::derive::{
    covered_set, covered_ordinal, max_covered, covered_ordinals, max_covered_ordinal, count_covered,
};
use crate::order::{stable_sort_by_key, is_stable_sort, is_stable_sort_with};
use std::collections::HashSet;
use crate::text::{chars_of, push_char};
use crate::portability::GITHUB_ENTRY_CAP;

verus! {

broadcast use vstd::std_specs::hash::group_hash_axioms;

/// `v` is the least positive ordinal absent from `present`.
pub open spec fn is_least_vacant(present: Set<u64>, v: u64) -> bool {
    &&& v >= 1
    &&& !present.contains(v)
    &&& forall|x: u64| 1 <= x < v ==> #[trigger] present.contains(x)
}

/// Some positive ordinal is absent from `present`.
pub open spec fn has_vacancy(present: Set<u64>) -> bool {
    exists|v: u64| v >= 1 && !#[trigger] present.contains(v)
}

fn least_vacant(present: &HashSet<u64>) -> (v: u64)
    requires
        has_vacancy(present@),
    ensures
        is_least_vacant(present@, v),
{
    let ghost w = choose|v: u64| v >= 1 && !#[trigger] present@.contains(v);
    let mut n: u64 = 1;
    while present.contains(&n)
        invariant
            1 <= n <= w,
            w >= 1,
            !present@.contains(w),
            forall|x: u64| 1 <= x < n ==> #[trigger] present@.contains(x),
        decreases w - n,
    {
        n = n + 1;
    }
    n
}

/// The storage name of the next covered entry of `kind`: the lowest vacant
/// ordinal when `dense`, otherwise one past the greatest covered ordinal;
/// `None` when that ordinal is past the kind's capacity.
pub fn next_name(entries: &Vec<EntryClass>, kind: Kind, dense: bool) -> (r: Option<String>)
    requires
        dense ==> has_vacancy(covered_set(entries@, kind)),
        !dense ==> max_covered(entries@, kind) < u64::MAX,
    ensures
        dense ==> exists|v: u64|
            #![trigger is_least_vacant(covered_set(entries@, kind), v)]
            is_least_vacant(covered_set(entries@, kind), v) && (r is None <==> v > spec_capacity(kind))
                && (r matches Some(s) ==> s@ == spec_storage_name(v as nat, kind)),
        !dense ==> ({
            let v = max_covered(entries@, kind) + 1;
            &&& r is None <==> v > spec_capacity(kind)
            &&& r matches Some(s) ==> s@ == spec_storage_name(v as nat, kind)
        }),
{
    let present = covered_ordinals(entries, kind);
    let next = if dense {
        least_vacant(&present)
    } else {
        max_covered_ordinal(entries, kind) + 1
    };
    if next > kind.capacity() {
        return None;
    }
    match storage_name(next, kind) {
        Ok(name) => Some(name),
        Err(_) => None,
    }
}

/// The ordinals from `lo` to `hi` in order, skipping present ones when `dense`.
pub open spec fn candidate_ordinals(lo: nat, hi: nat, dense: bool, present: Set<u64>) -> Seq<nat>
    decreases hi + 1 - lo,
{
    if lo > hi {
        Seq::empty()
    } else {
        let rest = candidate_ordinals(lo + 1, hi, dense, present);
        if !dense || !present.contains(lo as u64) {
            seq![lo] + rest
        } else {
            rest
        }
    }
}

/// The first ordinal a batch of names starts from: 1 when `dense`,
/// otherwise one past the greatest covered ordinal.
pub open spec fn plan_start(entries: Seq<EntryClass>, kind: Kind, dense: bool) -> nat {
    if dense {
        1
    } else {
        (max_covered(entries, kind) + 1) as nat
    }
}

/// The ordinals a batch of names uses: the candidates from the start up to
/// the kind's capacity.
pub open spec fn plan_candidates(entries: Seq<EntryClass>, kind: Kind, dense: bool) -> Seq<nat> {
    candidate_ordinals(
        plan_start(entries, kind, dense),
        spec_capacity(kind),
        dense,
        covered_set(entries, kind),
    )
}

/// The next `count` storage names of `kind` (filling vacant ordinals first
/// when `dense`), in order, and whether the kind's capacity ran out before
/// `count` names were found.
pub fn plan_names(entries: &Vec<EntryClass>, kind: Kind, count: u64, dense: bool) -> (r: (
    Vec<String>,
    bool,
))
    requires
        !dense ==> max_covered(entries@, kind) < u64::MAX,
    ensures
        ({
            let c = plan_candidates(entries@, kind, dense);
            let k = if c.len() < count {
                c.len()
            } else {
                count as nat
            };
            &&& r.0@.map_values(|s: String| s@) == c.take(k as int).map_values(
                |o: nat| spec_storage_name(o, kind),
            )
            &&& r.1 == (c.len() < count)
        }),
{
    let present = covered_ordinals(entries, kind);
    let cap = kind.capacity();
    let mut next: u64 = if dense {
        1
    } else {
        max_covered_ordinal(entries, kind) + 1
    };
    let ghost start = next as nat;
    let ghost all = candidate_ordinals(start, cap as nat, dense, present@);
    let ghost mut used: Seq<nat> = Seq::empty();
    let mut made: Vec<String> = Vec::new();
    while (made.len() as u64) < count
        invariant
            start >= 1,
            start == plan_start(entries@, kind, dense),
            next >= start,
            cap == spec_capacity(kind),
            present@ == covered_set(entries@, kind),
            all == candidate_ordinals(start, cap as nat, dense, present@),
            all == used + candidate_ordinals(next as nat, cap as nat, dense, present@),
            made.len() == used.len(),
            made.len() <= count,
            made@.map_values(|s: String| s@) == used.map_values(|o: nat| spec_storage_name(o, kind)),
            forall|i: int| 0 <= i < used.len() ==> #[trigger] used[i] >= 1,
        decreases cap + 1 - next, count - made.len(),
    {
        if next > cap {
            proof {
                assert(candidate_ordinals(next as nat, cap as nat, dense, present@) =~= Seq::<nat>::empty());
                assert(all =~= used);
                assert(used.take(used.len() as int) =~= used);
            }
            return (made, true);
        }
        if !dense || !present.contains(&next) {
            let name = match storage_name(next, kind) {
                Ok(name) => name,
                Err(_) => {
                    assert(false);
                    String::new()
                },
            };
            let ghost old_made = made@;
            assert(name@ == spec_storage_name(next as nat, kind));
            made.push(name);
            proof {
                assert(made@ == old_made.push(name));
                assert(made@.map_values(|s: String| s@) =~= old_made.map_values(|s: String| s@).push(name@));
                assert(used.push(next as nat) + candidate_ordinals(next as nat + 1, cap as nat, dense, present@)
                    =~= used + candidate_ordinals(next as nat, cap as nat, dense, present@));
                let old_used = used;
                used = used.push(next as nat);
                assert(used.map_values(|o: nat| spec_storage_name(o, kind)) =~= old_used.map_values(
                    |o: nat| spec_storage_name(o, kind),
                ).push(spec_storage_name(next as nat, kind)));
                assert(made@.map_values(|s: String| s@) =~= used.map_values(
                    |o: nat| spec_storage_name(o, kind),
                ));
            }
        }
        next = next + 1;
    }
    proof {
        let c = plan_candidates(entries@, kind, dense);
        assert(c == all);
        assert(c.take(count as int) =~= used);
    }
    (made, false)
}


/// The covered entries of `kind` as (ordinal, name), in entry order.
pub open spec fn covered_names(s: Seq<EntryClass>, kind: Kind) -> Seq<(u64, String)>
    decreases s.len(),
{
    if s.len() == 0 {
        Seq::empty()
    } else {
        let init = covered_names(s.drop_last(), kind);
        match covered_ordinal(s.last().class, kind) {
            Some(o) => init.push((o, s.last().name)),
            None => init,
        }
    }
}

/// The renames that give the entries of `sorted` the storage names of
/// ordinals 1, 2, ... in order, leaving out those already so named.
pub open spec fn dense_renames(sorted: Seq<(u64, String)>, kind: Kind) -> Seq<(Seq<char>, Seq<char>)>
    decreases sorted.len(),
{
    if sorted.len() == 0 {
        Seq::empty()
    } else {
        let init = dense_renames(sorted.drop_last(), kind);
        let old_name = sorted.last().1@;
        let new_name = spec_storage_name(sorted.len(), kind);
        if old_name != new_name {
            init.push((old_name, new_name))
        } else {
            init
        }
    }
}

/// The renames (old name, new name) that renumber the covered entries of
/// `kind` to the dense ordinals 1..N in ascending ordinal order (entries
/// with equal ordinals keep their order).
pub fn compact_moves(entries: &Vec<EntryClass>, kind: Kind) -> (r: Vec<(String, String)>)
    ensures
        exists|sorted: Seq<(u64, String)>|
            #![trigger dense_renames(sorted, kind)]
            is_stable_sort(sorted, covered_names(entries@, kind)) && r@.map_values(
                |m: (String, String)| (m.0@, m.1@),
            ) == dense_renames(sorted, kind),
{
    let ghost s = entries@;
    let mut items: Vec<(u64, String)> = Vec::new();
    let mut i: usize = 0;
    assert(s.take(0) =~= Seq::<EntryClass>::empty());
    while i < entries.len()
        invariant
            s == entries@,
            i <= s.len(),
            items@ == covered_names(s.take(i as int), kind),
        decreases s.len() - i,
    {
        let e = &entries[i];
        proof {
            assert(s.take(i + 1).drop_last() =~= s.take(i as int));
            assert(s.take(i + 1).last() == *e);
        }
        match (e.class, kind) {
            (Class::CoveredFile { ordinal }, Kind::File) => {
                items.push((ordinal, e.name.clone()));
            },
            (Class::CoveredDir { ordinal }, Kind::Dir) => {
                items.push((ordinal, e.name.clone()));
            },
            _ => {},
        }
        i = i + 1;
    }
    assert(s.take(s.len() as int) =~= s);
    let sorted = stable_sort_by_key(items);
    let ghost sv = sorted@;
    let mut moves: Vec<(String, String)> = Vec::new();
    let mut j: usize = 0;
    assert(sv.take(0) =~= Seq::<(u64, String)>::empty());
    while j < sorted.len()
        invariant
            sv == sorted@,
            j <= sv.len(),
            moves@.map_values(|m: (String, String)| (m.0@, m.1@)) == dense_renames(
                sv.take(j as int),
                kind,
            ),
        decreases sv.len() - j,
    {
        proof {
            assert(sv.take(j + 1).drop_last() =~= sv.take(j as int));
            assert(sv.take(j + 1).last() == sv[j as int]);
        }
        let new_name = match storage_name((j + 1) as u64, kind) {
            Ok(n) => n,
            Err(_) => {
                assert(false);
                String::new()
            },
        };
        let old_name = &sorted[j].1;
        if !(*old_name == new_name) {
            let ghost before = moves@;
            moves.push((old_name.clone(), new_name));
            assert(moves@.map_values(|m: (String, String)| (m.0@, m.1@)) =~= before.map_values(
                |m: (String, String)| (m.0@, m.1@),
            ).push((sv[j as int].1@, spec_storage_name((j + 1) as nat, kind))));
        }
        j = j + 1;
    }
    assert(sv.take(sv.len() as int) =~= sv);
    moves
}

/// Where the `ordinal`-th packed file goes (1-based) when each node holds
/// `width` files: the storage name of the subdirectory (none for the first
/// `width` files, which stay in the root), and the file's storage name.
pub open spec fn spec_pack_slot(ordinal: nat, width: nat) -> (Option<Seq<char>>, Seq<char>) {
    let dir_index = ((ordinal - 1) / (width as int)) as nat;
    let file_ordinal = ((ordinal - 1) % (width as int) + 1) as nat;
    (
        if dir_index == 0 {
            None
        } else {
            Some(spec_storage_name(dir_index, Kind::Dir))
        },
        spec_storage_name(file_ordinal, Kind::File),
    )
}

/// The slot of the `ordinal`-th packed file (see `spec_pack_slot`).
pub fn pack_slot(ordinal: u64, width: u64) -> (r: (Option<String>, String))
    requires
        ordinal >= 1,
        width >= 1,
    ensures
        (match r.0 {
            Some(d) => Some(d@),
            None => None,
        }, r.1@) == spec_pack_slot(ordinal as nat, width as nat),
{
    let dir_ord = (ordinal - 1) / width + 1;
    let file_ord = (ordinal - 1) % width + 1;
    let dir = if dir_ord == 1 {
        None
    } else {
        match storage_name(dir_ord - 1, Kind::Dir) {
            Ok(d) => Some(d),
            Err(_) => {
                assert(false);
                None
            },
        }
    };
    let file = match storage_name(file_ord, Kind::File) {
        Ok(f) => f,
        Err(_) => {
            assert(false);
            String::new()
        },
    };
    (dir, file)
}

/// The index of the covered file with the least ordinal (the first such
/// entry when several share it), if there is a covered file.
pub fn first_covered_file(entries: &Vec<EntryClass>) -> (r: Option<usize>)
    ensures
        r is None <==> covered_set(entries@, Kind::File).is_empty(),
        r matches Some(i) ==> ({
            &&& 0 <= i < entries.len()
            &&& entries@[i as int].class is CoveredFile
            &&& forall|j: int|
                0 <= j < entries.len() && (#[trigger] entries@[j]).class is CoveredFile ==> {
                    &&& entries@[j].class->CoveredFile_ordinal >= entries@[i as int].class->CoveredFile_ordinal
                    &&& j < i ==> entries@[j].class->CoveredFile_ordinal > entries@[i as int].class->CoveredFile_ordinal
                }
        }),
{
    let mut best: Option<usize> = None;
    let mut best_ord: u64 = 0;
    let mut i: usize = 0;
    while i < entries.len()
        invariant
            i <= entries.len(),
            best is None <==> forall|j: int|
                0 <= j < i ==> !((#[trigger] entries@[j]).class is CoveredFile),
            best matches Some(b) ==> ({
                &&& 0 <= b < i
                &&& entries@[b as int].class is CoveredFile
                &&& entries@[b as int].class->CoveredFile_ordinal == best_ord
                &&& forall|j: int|
                    0 <= j < i && (#[trigger] entries@[j]).class is CoveredFile ==> {
                        &&& entries@[j].class->CoveredFile_ordinal >= best_ord
                        &&& j < b ==> entries@[j].class->CoveredFile_ordinal > best_ord
                    }
            }),
        decreases entries.len() - i,
    {
        match entries[i].class {
            Class::CoveredFile { ordinal } => {
                if best.is_none() || ordinal < best_ord {
                    best = Some(i);
                    best_ord = ordinal;
                }
            },
            _ => {},
        }
        i = i + 1;
    }
    proof {
        if best is None {
            assert forall|o: u64| !covered_set(entries@, Kind::File).contains(o) by {
                if covered_set(entries@, Kind::File).contains(o) {
                    let k = choose|k: int|
                        0 <= k < entries@.len() && #[trigger] covered_ordinal(
                            entries@[k].class,
                            Kind::File,
                        ) == Some(o);
                    assert(entries@[k].class is CoveredFile);
                }
            }
            assert(covered_set(entries@, Kind::File) =~= Set::<u64>::empty());
        } else {
            let b = best->0;
            assert(covered_ordinal(entries@[b as int].class, Kind::File) == Some(best_ord));
            assert(covered_set(entries@, Kind::File).contains(best_ord));
        }
    }
    best
}

/// Whether a node already holds at least the GitHub soft cap of combined
/// entries, so no further name should be allocated in it.
pub fn at_soft_cap(entries: &Vec<EntryClass>) -> (r: bool)
    ensures
        r == (entries.len() >= GITHUB_ENTRY_CAP),
{
    entries.len() >= GITHUB_ENTRY_CAP
}


/// A string made of `v[lo..hi]`.
fn string_of_range(v: &Vec<char>, lo: usize, hi: usize) -> (r: String)
    requires
        lo <= hi <= v.len(),
    ensures
        r@ == v@.subrange(lo as int, hi as int),
{
    let mut out = String::new();
    let mut i = lo;
    while i < hi
        invariant
            lo <= i <= hi <= v.len(),
            out@ == v@.subrange(lo as int, i as int),
        decreases hi - i,
    {
        push_char(&mut out, v[i]);
        i = i + 1;
        assert(out@ =~= v@.subrange(lo as int, i as int));
    }
    out
}

/// `line` splits at its first tab into `a` before it and `b` after it.
pub open spec fn splits_at_first_tab(line: Seq<char>, a: Seq<char>, b: Seq<char>) -> bool {
    exists|i: int|
        0 <= i < line.len() && line[i] == '\t' && (forall|j: int| 0 <= j < i ==> line[j] != '\t')
            && a == line.take(i) && b == line.skip(i + 1)
}

/// The manifest line recording that the packed file `stored` came from
/// `origin`: the two paths separated by a tab, ended by a line feed.
pub fn manifest_line(stored: &str, origin: &str) -> (r: String)
    ensures
        r@ == stored@ + seq!['\t'] + origin@ + seq!['\n'],
{
    let mut out = String::new();
    out.append(stored);
    push_char(&mut out, '\t');
    out.append(origin);
    push_char(&mut out, '\n');
    assert(out@ =~= stored@ + seq!['\t'] + origin@ + seq!['\n']);
    out
}

/// Splits a manifest line at its first tab into (stored path, origin path).
pub fn split_manifest_line(line: &str) -> (r: Option<(String, String)>)
    ensures
        r is None <==> !line@.contains('\t'),
        r matches Some(p) ==> splits_at_first_tab(line@, p.0@, p.1@),
{
    let v = chars_of(line);
    let mut i: usize = 0;
    while i < v.len()
        invariant
            i <= v.len(),
            v@ == line@,
            forall|j: int| 0 <= j < i ==> v@[j] != '\t',
        decreases v.len() - i,
    {
        if v[i] == '\t' {
            let a = string_of_range(&v, 0, i);
            let b = string_of_range(&v, i + 1, v.len());
            assert(a@ =~= line@.take(i as int));
            assert(b@ =~= line@.skip(i + 1));
            assert(splits_at_first_tab(line@, a@, b@));
            return Some((a, b));
        }
        i = i + 1;
    }
    None
}


/// Law (pack then extract): a manifest line, read back without its line
/// feed, splits into exactly the stored path and the origin it recorded,
/// whenever the stored path holds no tab.
pub proof fn law_manifest_round_trip(stored: Seq<char>, origin: Seq<char>)
    requires
        !stored.contains('\t'),
    ensures
        ({
            let line = (stored + seq!['\t'] + origin + seq!['\n']).drop_last();
            &&& line.contains('\t')
            &&& forall|a: Seq<char>, b: Seq<char>|
                #[trigger] splits_at_first_tab(line, a, b) <==> (a == stored && b == origin)
        }),
{
    let line = (stored + seq!['\t'] + origin + seq!['\n']).drop_last();
    let k = stored.len() as int;
    assert(line =~= stored + seq!['\t'] + origin);
    assert(line[k] == '\t');
    assert forall|j: int| 0 <= j < k implies line[j] != '\t' by {
        assert(line[j] == stored[j]);
        if line[j] == '\t' {
            assert(stored.contains('\t'));
        }
    }
    assert(line.take(k) =~= stored);
    assert(line.skip(k + 1) =~= origin);
    assert(splits_at_first_tab(line, stored, origin));
    assert forall|a: Seq<char>, b: Seq<char>|
        #[trigger] splits_at_first_tab(line, a, b) implies (a == stored && b == origin) by {
        let i = choose|i: int|
            0 <= i < line.len() && line[i] == '\t' && (forall|j: int|
                0 <= j < i ==> line[j] != '\t') && a == line.take(i) && b == line.skip(i + 1);
        if i < k {
            assert(line[i] == stored[i]);
            assert(stored.contains('\t'));
        }
        if i > k {
            assert(line[k] != '\t');
        }
    }
}

/// `covered_names` lists exactly the covered entries of `kind`: as many as
/// there are, each pair the ordinal and name of a covered entry of `kind`,
/// and every such entry listed.
pub proof fn lemma_covered_names(s: Seq<EntryClass>, kind: Kind)
    ensures
        covered_names(s, kind).len() == count_covered(s, kind),
        forall|k: int|
            0 <= k < covered_names(s, kind).len() ==> exists|i: int|
                0 <= i < s.len() && covered_ordinal(s[i].class, kind) == Some(
                    #[trigger] covered_names(s, kind)[k].0,
                ) && s[i].name == covered_names(s, kind)[k].1,
        forall|i: int|
            0 <= i < s.len() && #[trigger] covered_ordinal(s[i].class, kind) is Some ==> exists|k: int|
                0 <= k < covered_names(s, kind).len() && covered_names(s, kind)[k] == (
                    covered_ordinal(s[i].class, kind)->0,
                    s[i].name,
                ),
    decreases s.len(),
{
    if s.len() > 0 {
        let t = s.drop_last();
        lemma_covered_names(t, kind);
        let cn = covered_names(s, kind);
        let ct = covered_names(t, kind);
        let last = s.len() - 1;
        assert forall|k: int| 0 <= k < cn.len() implies exists|i: int|
            0 <= i < s.len() && covered_ordinal(s[i].class, kind) == Some(#[trigger] cn[k].0)
                && s[i].name == cn[k].1 by {
            if k < ct.len() {
                assert(cn[k] == ct[k]);
                let i = choose|i: int|
                    0 <= i < t.len() && covered_ordinal(t[i].class, kind) == Some(ct[k].0)
                        && t[i].name == ct[k].1;
                assert(s[i] == t[i]);
            } else {
                assert(covered_ordinal(s[last].class, kind) == Some(cn[k].0));
            }
        }
        assert forall|i: int|
            0 <= i < s.len() && #[trigger] covered_ordinal(s[i].class, kind) is Some implies exists|
            k: int,
        |
            0 <= k < cn.len() && cn[k] == (covered_ordinal(s[i].class, kind)->0, s[i].name) by {
            if i < last {
                assert(s[i] == t[i]);
                assert(covered_ordinal(t[i].class, kind) is Some);
                let k = choose|k: int|
                    0 <= k < ct.len() && ct[k] == (covered_ordinal(t[i].class, kind)->0, t[i].name);
                assert(cn[k] == ct[k]);
            } else {
                assert(cn[ct.len() as int] == (covered_ordinal(s[i].class, kind)->0, s[i].name));
            }
        }
    }
}

/// Law (compaction renames its sorted items only): every rename takes the
/// name of the item at some rank `k` of the sorted items to the storage name
/// of ordinal `k + 1`.
pub proof fn law_compaction_renames_items(sorted: Seq<(u64, String)>, kind: Kind)
    ensures
        forall|x: int|
            0 <= x < dense_renames(sorted, kind).len() ==> exists|k: int|
                0 <= k < sorted.len() && #[trigger] dense_renames(sorted, kind)[x] == (
                    sorted[k].1@,
                    spec_storage_name((k + 1) as nat, kind),
                ),
    decreases sorted.len(),
{
    if sorted.len() > 0 {
        let t = sorted.drop_last();
        law_compaction_renames_items(t, kind);
        let d = dense_renames(sorted, kind);
        let dt = dense_renames(t, kind);
        assert forall|x: int| 0 <= x < d.len() implies exists|k: int|
            0 <= k < sorted.len() && #[trigger] d[x] == (
                sorted[k].1@,
                spec_storage_name((k + 1) as nat, kind),
            ) by {
            if x < dt.len() {
                assert(d[x] == dt[x]);
                let k = choose|k: int|
                    0 <= k < t.len() && #[trigger] dt[x] == (
                        t[k].1@,
                        spec_storage_name((k + 1) as nat, kind),
                    );
                assert(sorted[k] == t[k]);
            } else {
                let k = sorted.len() - 1;
                assert(d[x] == (sorted[k].1@, spec_storage_name((k + 1) as nat, kind)));
            }
        }
    }
}

/// Law (compaction sorts exactly the covered entries of its kind): in any
/// stable ordinal sort of a node's covered entries of `kind` (what
/// `compact_moves` renames) there are exactly as many items as covered
/// entries of `kind`; each item is the ordinal and name of a covered entry of
/// `kind` (never an entry of the other kind, nor an extra); every such entry
/// is among them; and the ordinals ascend.
pub proof fn law_compaction_items_are_covered(
    s: Seq<EntryClass>,
    kind: Kind,
    sorted: Seq<(u64, String)>,
)
    requires
        is_stable_sort(sorted, covered_names(s, kind)),
    ensures
        sorted.len() == count_covered(s, kind),
        forall|k: int|
            0 <= k < sorted.len() ==> exists|i: int|
                0 <= i < s.len() && covered_ordinal(s[i].class, kind) == Some(
                    #[trigger] sorted[k].0,
                ) && s[i].name == sorted[k].1,
        forall|i: int|
            0 <= i < s.len() && #[trigger] covered_ordinal(s[i].class, kind) is Some ==> exists|k: int|
                0 <= k < sorted.len() && sorted[k] == (
                    covered_ordinal(s[i].class, kind)->0,
                    s[i].name,
                ),
        forall|k: int, l: int| 0 <= k < l < sorted.len() ==> #[trigger] sorted[k].0 <= #[trigger] sorted[l].0,
{
    let cn = covered_names(s, kind);
    lemma_covered_names(s, kind);
    let p = choose|p: Seq<int>| is_stable_sort_with(sorted, cn, p);
    assert forall|k: int| 0 <= k < sorted.len() implies exists|i: int|
        0 <= i < s.len() && covered_ordinal(s[i].class, kind) == Some(#[trigger] sorted[k].0)
            && s[i].name == sorted[k].1 by {
        assert(sorted[k] == cn[p[k]]);
        let i = choose|i: int|
            0 <= i < s.len() && covered_ordinal(s[i].class, kind) == Some(cn[p[k]].0) && s[i].name
                == cn[p[k]].1;
    }
    assert forall|i: int|
        0 <= i < s.len() && #[trigger] covered_ordinal(s[i].class, kind) is Some implies exists|k: int|
        0 <= k < sorted.len() && sorted[k] == (covered_ordinal(s[i].class, kind)->0, s[i].name) by {
        let j = choose|j: int|
            0 <= j < cn.len() && cn[j] == (covered_ordinal(s[i].class, kind)->0, s[i].name);
        lemma_injective_onto(p, cn.len() as int);
        assert(p.contains(j));
        let k = choose|k: int| 0 <= k < p.len() && p[k] == j;
        assert(sorted[k] == cn[j]);
    }
    assert forall|k: int, l: int| 0 <= k < l < sorted.len() implies #[trigger] sorted[k].0
        <= #[trigger] sorted[l].0 by {
        assert(!(sorted[l].0 < sorted[k].0));
    }
}

/// A one-to-one map from `0..p.len()` into `0..n`, with `p.len() == n`, hits every value.
proof fn lemma_injective_onto(p: Seq<int>, n: int)
    requires
        p.len() == n,
        forall|i: int| 0 <= i < p.len() ==> 0 <= #[trigger] p[i] < n,
        forall|i: int, j: int| 0 <= i < j < p.len() ==> #[trigger] p[i] != #[trigger] p[j],
    ensures
        forall|x: int| 0 <= x < n ==> #[trigger] p.contains(x),
{
    let img = p.to_set();
    assert(p.no_duplicates()) by {
        assert forall|i: int, j: int| 0 <= i < p.len() && 0 <= j < p.len() && i != j implies p[i]
            != p[j] by {
            if i < j {
            } else {
                assert(p[j] != p[i]);
            }
        }
    }
    p.unique_seq_to_set();
    let range = Set::new(|x: int| 0 <= x < n);
    assert(img.subset_of(range));
    lemma_int_range_len(n);
    vstd::set_lib::lemma_len_subset(img, range);
    vstd::set_lib::lemma_subset_equality(img, range);
    assert forall|x: int| 0 <= x < n implies #[trigger] p.contains(x) by {
        assert(range.contains(x));
        assert(img.contains(x));
    }
}

proof fn lemma_int_range_len(n: int)
    requires
        n >= 0,
    ensures
        Set::new(|x: int| 0 <= x < n).finite(),
        Set::new(|x: int| 0 <= x < n).len() == n,
    decreases n,
{
    if n == 0 {
        assert(Set::new(|x: int| 0 <= x < n) =~= Set::<int>::empty());
    } else {
        lemma_int_range_len(n - 1);
        assert(Set::new(|x: int| 0 <= x < n) =~= Set::new(|x: int| 0 <= x < n - 1).insert(n - 1));
    }
}

/// Law (pack slots are covered names): the `ordinal`-th packed file lands in
/// the root when `ordinal <= width`, else in the subdirectory whose name
/// decodes to `(ordinal - 1) / width` and is a canonical directory name
/// (while that ordinal is within the directory capacity); its file name
/// decodes to `(ordinal - 1) % width + 1` and is a valid file index (while
/// within the file capacity); and subdirectory and file ordinals together
/// locate the file: `dir * width + file == ordinal`.
pub proof fn law_pack_slot_placement(ordinal: nat, width: nat)
    requires
        1 <= ordinal <= u64::MAX,
        1 <= width <= u64::MAX,
    ensures
        ({
            let q = ((ordinal - 1) / (width as int)) as nat;
            let f = ((ordinal - 1) % (width as int) + 1) as nat;
            let slot = spec_pack_slot(ordinal, width);
            &&& slot.0 is None <==> ordinal <= width
            &&& q * width + f == ordinal
            &&& 1 <= f <= width
            &&& slot.0 matches Some(d) ==> spec_decode(d, Kind::Dir) == Ok::<nat, CodecError>(q)
            &&& slot.0 matches Some(d) ==> (q <= spec_capacity(Kind::Dir)
                ==> spec_is_canonical_dir_name(d))
            &&& spec_decode(slot.1, Kind::File) == Ok::<nat, CodecError>(f)
            &&& f <= spec_capacity(Kind::File) ==> spec_valid_index(slot.1, Kind::File)
        }),
{
    let q = ((ordinal - 1) / (width as int)) as nat;
    let f = ((ordinal - 1) % (width as int) + 1) as nat;
    let x = ordinal - 1;
    let w = width as int;
    assert(x == (x / w) * w + x % w && 0 <= x % w < w && 0 <= x / w <= x) by (nonlinear_arith)
        requires
            w > 0,
            x >= 0,
    ;
    assert((x / w == 0) <==> x < w) by (nonlinear_arith)
        requires
            w > 0,
            x >= 0,
            x == (x / w) * w + x % w,
            0 <= x % w < w,
            0 <= x / w,
    ;
    assert(q * width == (x / w) * w);
    if q >= 1 {
        law_decode_encode(q as u64, Kind::Dir);
        law_storage_name_canonical(q, Seq::<char>::empty());
    }
    law_decode_encode(f as u64, Kind::File);
    law_valid_index_iff_within_capacity(f, Kind::File);
}


/// Law (no collisions when allocating): the ordinal `next_name` allocates
/// is vacant; past the greatest covered ordinal nothing is present.
pub proof fn law_next_ordinal_vacant(s: Seq<EntryClass>, kind: Kind)
    requires
        max_covered(s, kind) < u64::MAX,
    ensures
        !covered_set(s, kind).contains((max_covered(s, kind) + 1) as u64),
        has_vacancy(covered_set(s, kind)),
{
    lemma_max_covered(s, kind);
    assert(!covered_set(s, kind).contains((max_covered(s, kind) + 1) as u64));
}

/// Law (packing is one to one): distinct packed files get distinct slots.
pub proof fn law_pack_slots_distinct(a: nat, b: nat, width: nat)
    requires
        1 <= a <= u64::MAX,
        1 <= b <= u64::MAX,
        1 <= width <= u64::MAX,
        spec_pack_slot(a, width) == spec_pack_slot(b, width),
    ensures
        a == b,
{
    let w = width as int;
    lemma_fundamental_div_mod(a - 1, w);
    lemma_fundamental_div_mod(b - 1, w);
    let qa = (a - 1) / w;
    let qb = (b - 1) / w;
    let ra = (a - 1) % w;
    let rb = (b - 1) % w;
    assert(0 <= ra < w && 0 <= rb < w && qa >= 0 && qb >= 0) by (nonlinear_arith)
        requires
            w >= 1,
            a >= 1,
            b >= 1,
            ra == (a - 1) % w,
            rb == (b - 1) % w,
            qa == (a - 1) / w,
            qb == (b - 1) / w,
    ;
    assert(qa <= a - 1 && qb <= b - 1) by (nonlinear_arith)
        requires
            w >= 1,
            a >= 1,
            b >= 1,
            qa == (a - 1) / w,
            qb == (b - 1) / w,
    ;
    law_storage_name_injective((ra + 1) as nat, (rb + 1) as nat, Kind::File);
    if qa != 0 && qb != 0 {
        law_storage_name_injective(qa as nat, qb as nat, Kind::Dir);
    }
}


proof fn lemma_dense_renames_targets(sorted: Seq<(u64, String)>, kind: Kind)
    requires
        sorted.len() <= u64::MAX,
    ensures
        forall|x: int|
            0 <= x < dense_renames(sorted, kind).len() ==> exists|j: nat|
                1 <= j <= sorted.len() && #[trigger] dense_renames(sorted, kind)[x].1
                    == spec_storage_name(j, kind),
        forall|x: int, y: int|
            0 <= x < y < dense_renames(sorted, kind).len() ==> #[trigger] dense_renames(
                sorted,
                kind,
            )[x].1 != #[trigger] dense_renames(sorted, kind)[y].1,
        forall|i: int|
            0 <= i < sorted.len() ==> (#[trigger] sorted[i]).1@ == spec_storage_name(
                (i + 1) as nat,
                kind,
            ) || dense_renames(sorted, kind).contains(
                (sorted[i].1@, spec_storage_name((i + 1) as nat, kind)),
            ),
    decreases sorted.len(),
{
    if sorted.len() > 0 {
        let init = sorted.drop_last();
        lemma_dense_renames_targets(init, kind);
        let r0 = dense_renames(init, kind);
        let r = dense_renames(sorted, kind);
        let n = sorted.len();
        let t = spec_storage_name(n, kind);
        assert forall|x: int| 0 <= x < r.len() implies exists|j: nat|
            1 <= j <= sorted.len() && #[trigger] r[x].1 == spec_storage_name(j, kind) by {
            if x < r0.len() {
                assert(r[x] == r0[x]);
                let j = choose|j: nat| 1 <= j <= init.len() && #[trigger] r0[x].1 == spec_storage_name(j, kind);
                assert(r[x].1 == spec_storage_name(j, kind));
            } else {
                assert(r[x].1 == spec_storage_name(n, kind));
            }
        }
        assert forall|x: int, y: int| 0 <= x < y < r.len() implies #[trigger] r[x].1
            != #[trigger] r[y].1 by {
            assert(r[x] == r0[x]);
            if y < r0.len() {
                assert(r[y] == r0[y]);
            } else {
                let j = choose|j: nat| 1 <= j <= init.len() && #[trigger] r0[x].1 == spec_storage_name(j, kind);
                if r[x].1 == r[y].1 {
                    law_storage_name_injective(j, n, kind);
                }
            }
        }
        assert forall|i: int| 0 <= i < sorted.len() implies (#[trigger] sorted[i]).1@
            == spec_storage_name((i + 1) as nat, kind) || r.contains(
            (sorted[i].1@, spec_storage_name((i + 1) as nat, kind)),
        ) by {
            if i < init.len() {
                assert(init[i] == sorted[i]);
                if r0.contains((sorted[i].1@, spec_storage_name((i + 1) as nat, kind))) {
                    let k = choose|k: int| 0 <= k < r0.len() && r0[k] == (sorted[i].1@, spec_storage_name((i + 1) as nat, kind));
                    assert(r[k] == r0[k]);
                }
            } else if sorted[i].1@ != t {
                assert(r[r.len() - 1] == (sorted[i].1@, t));
            }
        }
    }
}

/// Law (compaction is complete and collision free): after the renames, the
/// `i`-th entry in ordinal order is named by the storage name of ordinal
/// `i + 1` (renamed to it, or already so named), and no two renames share a
/// target name.
pub proof fn law_compaction_complete(sorted: Seq<(u64, String)>, kind: Kind)
    requires
        sorted.len() <= u64::MAX,
    ensures
        forall|i: int|
            0 <= i < sorted.len() ==> (#[trigger] sorted[i]).1@ == spec_storage_name(
                (i + 1) as nat,
                kind,
            ) || dense_renames(sorted, kind).contains(
                (sorted[i].1@, spec_storage_name((i + 1) as nat, kind)),
            ),
        forall|x: int, y: int|
            0 <= x < y < dense_renames(sorted, kind).len() ==> #[trigger] dense_renames(
                sorted,
                kind,
            )[x].1 != #[trigger] dense_renames(sorted, kind)[y].1,
{
    lemma_dense_renames_targets(sorted, kind);
}

} // verus!
