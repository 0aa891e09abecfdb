//! Orders on sort keys, and a stable sort of keyed items.

use vstd::prelude::*;
use crate::text::chars_of;

verus! {

/// A key with a strict weak order, and an executable test for it.
pub trait SortKey: Sized {
    /// `a` sorts strictly before `b`.
    spec fn key_lt(a: Self, b: Self) -> bool;

    proof fn lemma_irreflexive(a: Self)
        ensures
            !Self::key_lt(a, a),
    ;

    proof fn lemma_transitive(a: Self, b: Self, c: Self)
        requires
            Self::key_lt(a, b),
            Self::key_lt(b, c),
        ensures
            Self::key_lt(a, c),
    ;

    proof fn lemma_negative_transitive(a: Self, b: Self, c: Self)
        requires
            Self::key_lt(a, c),
        ensures
            Self::key_lt(a, b) || Self::key_lt(b, c),
    ;

    fn less(&self, other: &Self) -> (r: bool)
        ensures
            r == Self::key_lt(*self, *other),
    ;
}

impl SortKey for u64 {
    open spec fn key_lt(a: u64, b: u64) -> bool {
        a < b
    }

    proof fn lemma_irreflexive(a: u64) {
    }

    proof fn lemma_transitive(a: u64, b: u64, c: u64) {
    }

    proof fn lemma_negative_transitive(a: u64, b: u64, c: u64) {
    }

    fn less(&self, other: &u64) -> (r: bool) {
        *self < *other
    }
}

/// Lexicographic order on character sequences by code point, which is the
/// order of `String`'s `Ord` (UTF-8 byte order preserves code point order).
pub open spec fn lex_lt(a: Seq<char>, b: Seq<char>) -> bool
    decreases a.len(),
{
    if a.len() == 0 {
        b.len() > 0
    } else if b.len() == 0 {
        false
    } else if a[0] != b[0] {
        a[0] < b[0]
    } else {
        lex_lt(a.drop_first(), b.drop_first())
    }
}

pub proof fn lemma_lex_irreflexive(a: Seq<char>)
    ensures
        !lex_lt(a, a),
    decreases a.len(),
{
    if a.len() > 0 {
        lemma_lex_irreflexive(a.drop_first());
    }
}

pub proof fn lemma_lex_transitive(a: Seq<char>, b: Seq<char>, c: Seq<char>)
    requires
        lex_lt(a, b),
        lex_lt(b, c),
    ensures
        lex_lt(a, c),
    decreases a.len(),
{
    if a.len() > 0 && b.len() > 0 && c.len() > 0 {
        if a[0] == b[0] && b[0] == c[0] {
            lemma_lex_transitive(a.drop_first(), b.drop_first(), c.drop_first());
        }
    }
}

pub proof fn lemma_lex_negative_transitive(a: Seq<char>, b: Seq<char>, c: Seq<char>)
    requires
        lex_lt(a, c),
    ensures
        lex_lt(a, b) || lex_lt(b, c),
    decreases a.len(),
{
    if a.len() > 0 && b.len() > 0 && c.len() > 0 {
        if a[0] == b[0] && b[0] == c[0] {
            lemma_lex_negative_transitive(a.drop_first(), b.drop_first(), c.drop_first());
        }
    }
}

/// Two sequences that differ only in a last character sort as those characters do.
pub proof fn lemma_lex_push_same(a: Seq<char>, x: char, y: char)
    requires
        x < y,
    ensures
        lex_lt(a.push(x), a.push(y)),
    decreases a.len(),
{
    if a.len() > 0 {
        lemma_lex_push_same(a.drop_first(), x, y);
        assert(a.push(x).drop_first() =~= a.drop_first().push(x));
        assert(a.push(y).drop_first() =~= a.drop_first().push(y));
    }
}

/// Appending one character to each of two equally long sequences keeps their order.
pub proof fn lemma_lex_push_equal_len(a: Seq<char>, b: Seq<char>, x: char, y: char)
    requires
        a.len() == b.len(),
        lex_lt(a, b),
    ensures
        lex_lt(a.push(x), b.push(y)),
    decreases a.len(),
{
    if a[0] == b[0] {
        lemma_lex_push_equal_len(a.drop_first(), b.drop_first(), x, y);
        assert(a.push(x).drop_first() =~= a.drop_first().push(x));
        assert(b.push(y).drop_first() =~= b.drop_first().push(y));
    }
}

/// `a` sorts strictly before `b`, over `v[..]` and `w[..]` from `i` on.
fn lex_less_from(v: &Vec<char>, w: &Vec<char>, i: usize) -> (r: bool)
    requires
        i <= v.len(),
        i <= w.len(),
    ensures
        r == lex_lt(v@.skip(i as int), w@.skip(i as int)),
    decreases v.len() - i,
{
    let ghost a = v@.skip(i as int);
    let ghost b = w@.skip(i as int);
    if i == v.len() {
        i < w.len()
    } else if i == w.len() {
        false
    } else if v[i] != w[i] {
        assert(a[0] == v@[i as int] && b[0] == w@[i as int]);
        v[i] < w[i]
    } else {
        assert(a.drop_first() =~= v@.skip(i + 1));
        assert(b.drop_first() =~= w@.skip(i + 1));
        lex_less_from(v, w, i + 1)
    }
}

impl SortKey for String {
    open spec fn key_lt(a: String, b: String) -> bool {
        lex_lt(a@, b@)
    }

    proof fn lemma_irreflexive(a: String) {
        lemma_lex_irreflexive(a@);
    }

    proof fn lemma_transitive(a: String, b: String, c: String) {
        lemma_lex_transitive(a@, b@, c@);
    }

    proof fn lemma_negative_transitive(a: String, b: String, c: String) {
        lemma_lex_negative_transitive(a@, b@, c@);
    }

    fn less(&self, other: &String) -> (r: bool) {
        let v = chars_of(self.as_str());
        let w = chars_of(other.as_str());
        assert(v@.skip(0) =~= v@);
        assert(w@.skip(0) =~= w@);
        lex_less_from(&v, &w, 0)
    }
}

/// Keys never decrease along `s`.
pub open spec fn sorted_by_key<K: SortKey, T>(s: Seq<(K, T)>) -> bool {
    forall|i: int, j: int| 0 <= i < j < s.len() ==> !K::key_lt(#[trigger] s[j].0, #[trigger] s[i].0)
}

/// `out` is `inp` stably sorted by key: `p` maps each position of `out` to
/// the position in `inp` its item came from, one to one; keys never
/// decrease; items with equivalent keys keep their input order.
pub open spec fn is_stable_sort_with<K: SortKey, T>(
    out: Seq<(K, T)>,
    inp: Seq<(K, T)>,
    p: Seq<int>,
) -> bool {
    &&& out.len() == inp.len()
    &&& p.len() == out.len()
    &&& forall|i: int| 0 <= i < p.len() ==> 0 <= #[trigger] p[i] < inp.len()
    &&& forall|i: int, j: int| 0 <= i < j < p.len() ==> #[trigger] p[i] != #[trigger] p[j]
    &&& forall|i: int| 0 <= i < out.len() ==> #[trigger] out[i] == inp[p[i]]
    &&& sorted_by_key(out)
    &&& forall|i: int, j: int|
        0 <= i < j < out.len() && !K::key_lt(#[trigger] out[i].0, #[trigger] out[j].0) ==> p[i]
            < p[j]
}

/// `out` is `inp` stably sorted by key.
pub open spec fn is_stable_sort<K: SortKey, T>(out: Seq<(K, T)>, inp: Seq<(K, T)>) -> bool {
    exists|p: Seq<int>| is_stable_sort_with(out, inp, p)
}

/// Sorts keyed items by key, keeping the input order of items whose keys are
/// equivalent (insertion sort).
pub fn stable_sort_by_key<K: SortKey, T>(v: Vec<(K, T)>) -> (r: Vec<(K, T)>)
    ensures
        is_stable_sort(r@, v@),
{
    let ghost inp = v@;
    let mut rest = v;
    let mut out: Vec<(K, T)> = Vec::new();
    let ghost mut p: Seq<int> = Seq::empty();
    let n = rest.len();
    let mut i: usize = 0;
    while i < n
        invariant
            n == inp.len(),
            i <= n,
            rest@ == inp.skip(i as int),
            out.len() == i,
            p.len() == i,
            forall|a: int| 0 <= a < p.len() ==> 0 <= #[trigger] p[a] < i,
            forall|a: int, b: int| 0 <= a < b < p.len() ==> #[trigger] p[a] != #[trigger] p[b],
            forall|a: int| 0 <= a < out.len() ==> #[trigger] out@[a] == inp[p[a]],
            sorted_by_key(out@),
            forall|a: int, b: int|
                0 <= a < b < out.len() && !K::key_lt(#[trigger] out@[a].0, #[trigger] out@[b].0)
                    ==> p[a] < p[b],
        decreases n - i,
    {
        assert(rest@[0] == inp[i as int]);
        let item = rest.remove(0);
        assert(rest@ =~= inp.skip(i + 1));
        let mut pos: usize = 0;
        while pos < out.len() && !item.0.less(&out[pos].0)
            invariant
                pos <= out.len(),
                forall|a: int| 0 <= a < pos ==> !K::key_lt(item.0, #[trigger] out@[a].0),
            decreases out.len() - pos,
        {
            pos = pos + 1;
        }
        let ghost old_out = out@;
        let ghost old_p = p;
        proof {
            // Items from `pos` on sort strictly after `item`.
            assert forall|a: int| pos <= a < old_out.len() implies K::key_lt(
                item.0,
                #[trigger] old_out[a].0,
            ) by {
                if !K::key_lt(item.0, old_out[a].0) {
                    // pos < len, and item < out[pos] <= out[a]
                    assert(K::key_lt(item.0, old_out[pos as int].0));
                    if pos < a {
                        assert(!K::key_lt(old_out[a].0, old_out[pos as int].0));
                        K::lemma_negative_transitive(item.0, old_out[a].0, old_out[pos as int].0);
                    }
                }
            }
        }
        out.insert(pos, item);
        proof {
            p = old_p.insert(pos as int, i as int);
            assert forall|a: int| 0 <= a < out.len() implies #[trigger] out@[a] == inp[p[a]] by {
                if a < pos {
                    assert(out@[a] == old_out[a]);
                } else if a > pos {
                    assert(out@[a] == old_out[a - 1]);
                }
            }
            assert forall|a: int| 0 <= a < p.len() implies 0 <= #[trigger] p[a] < i + 1 by {
                if a < pos {
                    assert(p[a] == old_p[a]);
                } else if a > pos {
                    assert(p[a] == old_p[a - 1]);
                }
            }
            assert forall|a: int, b: int| 0 <= a < b < p.len() implies #[trigger] p[a]
                != #[trigger] p[b] by {
                if a != pos && b != pos {
                    let a0 = if a < pos {
                        a
                    } else {
                        a - 1
                    };
                    let b0 = if b < pos {
                        b
                    } else {
                        b - 1
                    };
                    assert(p[a] == old_p[a0] && p[b] == old_p[b0]);
                } else if a == pos {
                    assert(p[b] == old_p[b - 1]);
                } else {
                    assert(p[a] == old_p[a]);
                }
            }
            assert forall|a: int, b: int| 0 <= a < b < out.len() implies !K::key_lt(
                #[trigger] out@[b].0,
                #[trigger] out@[a].0,
            ) by {
                if a != pos && b != pos {
                    let a0 = if a < pos {
                        a
                    } else {
                        a - 1
                    };
                    let b0 = if b < pos {
                        b
                    } else {
                        b - 1
                    };
                    assert(out@[a] == old_out[a0] && out@[b] == old_out[b0]);
                } else if a == pos {
                    assert(out@[b] == old_out[b - 1]);
                    K::lemma_irreflexive(item.0);
                    if K::key_lt(old_out[b - 1].0, item.0) {
                        K::lemma_transitive(item.0, old_out[b - 1].0, item.0);
                    }
                } else {
                    assert(out@[a] == old_out[a]);
                }
            }
            assert forall|a: int, b: int|
                0 <= a < b < out.len() && !K::key_lt(
                    #[trigger] out@[a].0,
                    #[trigger] out@[b].0,
                ) implies p[a] < p[b] by {
                if a != pos && b != pos {
                    let a0 = if a < pos {
                        a
                    } else {
                        a - 1
                    };
                    let b0 = if b < pos {
                        b
                    } else {
                        b - 1
                    };
                    assert(out@[a] == old_out[a0] && out@[b] == old_out[b0]);
                    assert(p[a] == old_p[a0] && p[b] == old_p[b0]);
                } else if a == pos {
                    assert(out@[b] == old_out[b - 1]);
                } else {
                    assert(out@[a] == old_out[a]);
                    assert(p[a] == old_p[a]);
                }
            }
        }
        i = i + 1;
    }
    assert(is_stable_sort_with(out@, inp, p));
    out
}

} // verus!
