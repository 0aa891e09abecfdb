//! The bijective base-k codec between ordinals and index strings.

use vstd::prelude::*;
use crate::kind::{
    Kind, base, is_digit, digit_value, digit_char, lemma_digit_char, lemma_digit_value,
    spec_capacity,
};
use vstd::arithmetic::div_mod::lemma_fundamental_div_mod_converse;
use crate::text::{chars_of, push_char};
use crate::order::{lex_lt, lemma_lex_push_same, lemma_lex_push_equal_len};

verus! {

/// Why an ordinal or an index string was refused.
#[derive(Debug, Clone, Copy, PartialEq, Eq, Structural)]
pub enum CodecError {
    /// Ordinals start at 1.
    Zero,
    /// A character outside the kind's alphabet.
    InvalidDigit(char),
    /// The index string is empty.
    Empty,
}

/// The index of ordinal `n` (bijective base-k, most significant digit first).
pub open spec fn spec_encode(n: nat, kind: Kind) -> Seq<char>
    decreases n,
{
    if n == 0 {
        seq![]
    } else {
        spec_encode(((n - 1) / (base(kind) as int)) as nat, kind).push(
            digit_char(kind, ((n - 1) % (base(kind) as int)) as nat),
        )
    }
}

/// The ordinal denoted by a string of digits (most significant first).
pub open spec fn spec_value(s: Seq<char>, kind: Kind) -> nat
    decreases s.len(),
{
    if s.len() == 0 {
        0
    } else {
        spec_value(s.drop_last(), kind) * base(kind) + digit_value(kind, s.last()) + 1
    }
}

/// Every character of `s` is a digit of `kind`.
pub open spec fn all_digits(s: Seq<char>, kind: Kind) -> bool {
    forall|i: int| 0 <= i < s.len() ==> #[trigger] is_digit(kind, s[i])
}

/// Length of the longest prefix of `s` made of digits of `kind`.
pub open spec fn digit_prefix_len(s: Seq<char>, kind: Kind) -> nat
    decreases s.len(),
{
    if s.len() == 0 {
        0
    } else if is_digit(kind, s[0]) {
        1 + digit_prefix_len(s.drop_first(), kind)
    } else {
        0
    }
}

/// `s` starts with the directory storage prefix `_`.
pub open spec fn has_underscore(s: Seq<char>) -> bool {
    s.len() > 0 && s[0] == '_'
}

/// The part of `s` that `decode` reads: directories drop one leading `_`.
pub open spec fn decode_core(s: Seq<char>, kind: Kind) -> Seq<char> {
    if kind == Kind::Dir && has_underscore(s) {
        s.drop_first()
    } else {
        s
    }
}

/// What `decode` gives for `s`.
pub open spec fn spec_decode(s: Seq<char>, kind: Kind) -> Result<nat, CodecError> {
    let core = decode_core(s, kind);
    if core.len() == 0 {
        Err(CodecError::Empty)
    } else if digit_prefix_len(core, kind) < core.len() {
        Err(CodecError::InvalidDigit(core[digit_prefix_len(core, kind) as int]))
    } else {
        Ok(spec_value(core, kind))
    }
}

/// Decoding `s` does not leave `u64`: the digits read before any invalid one
/// denote a value that fits.
pub open spec fn decode_fits(s: Seq<char>, kind: Kind) -> bool {
    let core = decode_core(s, kind);
    spec_value(core.take(digit_prefix_len(core, kind) as int), kind) <= u64::MAX
}

/// A valid logical index: one to three characters, all digits of the kind.
pub open spec fn spec_valid_index(s: Seq<char>, kind: Kind) -> bool {
    1 <= s.len() <= 3 && all_digits(s, kind)
}

/// `c` is an ASCII uppercase letter.
pub open spec fn is_upper(c: char) -> bool {
    'A' <= c && c <= 'Z'
}

/// `s` contains an ASCII uppercase letter.
pub open spec fn spec_has_letter(s: Seq<char>) -> bool {
    exists|i: int| 0 <= i < s.len() && #[trigger] is_upper(s[i])
}

/// The canonical on-disk form of a covered directory: a digit-only index bare,
/// a letter-bearing index with one leading `_`.
pub open spec fn spec_is_canonical_dir_name(s: Seq<char>) -> bool {
    let prefixed = has_underscore(s);
    let core = if prefixed { s.drop_first() } else { s };
    spec_valid_index(core, Kind::Dir) && prefixed == spec_has_letter(core)
}

/// The on-disk storage name of ordinal `n`.
pub open spec fn spec_storage_name(n: nat, kind: Kind) -> Seq<char> {
    let index = spec_encode(n, kind);
    if kind == Kind::Dir && spec_has_letter(index) {
        seq!['_'] + index
    } else {
        index
    }
}

/// The kind a bare argument is read as: all-lowercase means file, anything else dir.
pub open spec fn spec_infer_kind(s: Seq<char>) -> Kind {
    if forall|i: int| 0 <= i < s.len() ==> 'a' <= #[trigger] s[i] <= 'z' {
        Kind::File
    } else {
        Kind::Dir
    }
}

fn digit_char_exec(kind: Kind, d: u64) -> (c: char)
    requires
        d < base(kind),
    ensures
        c == digit_char(kind, d as nat),
{
    match kind {
        Kind::File => ((97u8 + d as u8) as char),
        Kind::Dir => if d < 10 {
            ((48u8 + d as u8) as char)
        } else {
            ((55u8 + d as u8) as char)
        },
    }
}

fn digit_value_exec(kind: Kind, c: char) -> (r: Option<u64>)
    ensures
        r is Some <==> is_digit(kind, c),
        r is Some ==> r->0 == digit_value(kind, c),
{
    match kind {
        Kind::File => if 'a' <= c && c <= 'z' {
            Some((c as u32 - 'a' as u32) as u64)
        } else {
            None
        },
        Kind::Dir => if '0' <= c && c <= '9' {
            Some((c as u32 - '0' as u32) as u64)
        } else if 'A' <= c && c <= 'Z' {
            Some((c as u32 - 'A' as u32 + 10) as u64)
        } else {
            None
        },
    }
}

fn radix(kind: Kind) -> (k: u64)
    ensures
        k == base(kind),
{
    match kind {
        Kind::File => 26,
        Kind::Dir => 36,
    }
}

fn push_encoding(n: u64, kind: Kind, out: &mut String)
    ensures
        final(out)@ == old(out)@ + spec_encode(n as nat, kind),
    decreases n,
{
    if n > 0 {
        let k = radix(kind);
        let q = (n - 1) / k;
        let r = (n - 1) % k;
        push_encoding(q, kind, out);
        let c = digit_char_exec(kind, r);
        push_char(out, c);
        assert(final(out)@ =~= old(out)@ + spec_encode(n as nat, kind));
    } else {
        assert(final(out)@ =~= old(out)@ + spec_encode(n as nat, kind));
    }
}

/// The bijective base-k index of ordinal `n`.
pub fn encode(n: u64, kind: Kind) -> (r: Result<String, CodecError>)
    ensures
        n == 0 ==> r == Err::<String, CodecError>(CodecError::Zero),
        n > 0 ==> (r matches Ok(s) && s@ == spec_encode(n as nat, kind)),
{
    if n == 0 {
        return Err(CodecError::Zero);
    }
    let mut out = String::new();
    push_encoding(n, kind, &mut out);
    assert(out@ =~= spec_encode(n as nat, kind));
    Ok(out)
}


proof fn lemma_value_step(s: Seq<char>, kind: Kind, j: int)
    requires
        0 <= j < s.len(),
    ensures
        spec_value(s.take(j + 1), kind) == spec_value(s.take(j), kind) * base(kind) + digit_value(
            kind,
            s[j],
        ) + 1,
{
    assert(s.take(j + 1).drop_last() =~= s.take(j));
}

/// The value of a digit string grows with its length.
proof fn lemma_value_prefix_mono(s: Seq<char>, kind: Kind, j: int, m: int)
    requires
        0 <= j <= m <= s.len(),
    ensures
        spec_value(s.take(j), kind) <= spec_value(s.take(m), kind),
    decreases m - j,
{
    if j < m {
        lemma_value_prefix_mono(s, kind, j, m - 1);
        lemma_value_step(s, kind, m - 1);
        let v = spec_value(s.take(m - 1), kind);
        assert(v * base(kind) >= v) by (nonlinear_arith)
            requires
                base(kind) >= 1,
        ;
    }
}

/// `digit_prefix_len` is where the first non-digit stands.
proof fn lemma_digit_prefix(s: Seq<char>, kind: Kind, j: int)
    requires
        0 <= j <= s.len(),
        all_digits(s.take(j), kind),
    ensures
        digit_prefix_len(s, kind) >= j,
        digit_prefix_len(s, kind) <= s.len(),
        j < s.len() && !is_digit(kind, s[j]) ==> digit_prefix_len(s, kind) == j,
        j == s.len() ==> digit_prefix_len(s, kind) == j,
    decreases j,
{
    if s.len() > 0 {
        if j > 0 {
            assert(is_digit(kind, s.take(j)[0]));
            assert(all_digits(s.drop_first().take(j - 1), kind)) by {
                assert forall|i: int| 0 <= i < j - 1 implies #[trigger] is_digit(
                    kind,
                    s.drop_first().take(j - 1)[i],
                ) by {
                    assert(s.drop_first().take(j - 1)[i] == s.take(j)[i + 1]);
                }
            }
            lemma_digit_prefix(s.drop_first(), kind, j - 1);
        } else {
            lemma_digit_prefix_le(s, kind);
        }
    }
}

proof fn lemma_digit_prefix_le(s: Seq<char>, kind: Kind)
    ensures
        digit_prefix_len(s, kind) <= s.len(),
    decreases s.len(),
{
    if s.len() > 0 {
        lemma_digit_prefix_le(s.drop_first(), kind);
    }
}

/// The ordinal denoted by an index string; a directory name may carry one
/// leading `_` storage prefix, which is dropped.
pub fn decode(s: &str, kind: Kind) -> (r: Result<u64, CodecError>)
    requires
        decode_fits(s@, kind),
    ensures
        r is Ok <==> spec_decode(s@, kind) is Ok,
        r matches Ok(x) ==> spec_decode(s@, kind) == Ok::<nat, CodecError>(x as nat),
        r matches Err(e) ==> spec_decode(s@, kind) == Err::<nat, CodecError>(e),
{
    let chars = chars_of(s);
    let start: usize = match kind {
        Kind::Dir => if chars.len() > 0 && chars[0] == '_' {
            1
        } else {
            0
        },
        Kind::File => 0,
    };
    let ghost core = decode_core(s@, kind);
    assert(core =~= chars@.skip(start as int));
    if start == chars.len() {
        return Err(CodecError::Empty);
    }
    let k = radix(kind);
    let mut n: u64 = 0;
    let mut i: usize = start;
    proof {
        assert(core.take(0) =~= Seq::<char>::empty());
        lemma_digit_prefix(core, kind, 0);
    }
    while i < chars.len()
        invariant
            start <= i <= chars.len(),
            start < chars.len(),
            core == chars@.skip(start as int),
            core == decode_core(s@, kind),
            core.len() == chars.len() - start,
            k == base(kind),
            all_digits(core.take(i - start), kind),
            n == spec_value(core.take(i - start), kind),
            digit_prefix_len(core, kind) >= i - start,
            digit_prefix_len(core, kind) <= core.len(),
            spec_value(core.take(digit_prefix_len(core, kind) as int), kind) <= u64::MAX,
        decreases chars.len() - i,
    {
        let j: Ghost<int> = Ghost(i - start);
        assert(core[j@] == chars@[i as int]);
        match digit_value_exec(kind, chars[i]) {
            None => {
                proof {
                    lemma_digit_prefix(core, kind, j@);
                }
                return Err(CodecError::InvalidDigit(chars[i]));
            },
            Some(d) => {
                proof {
                    assert(all_digits(core.take(j@ + 1), kind)) by {
                        assert forall|x: int| 0 <= x < j@ + 1 implies #[trigger] is_digit(
                            kind,
                            core.take(j@ + 1)[x],
                        ) by {
                            if x < j@ {
                                assert(core.take(j@ + 1)[x] == core.take(j@)[x]);
                            }
                        }
                    }
                    lemma_digit_prefix(core, kind, j@ + 1);
                    lemma_value_step(core, kind, j@);
                    lemma_value_prefix_mono(
                        core,
                        kind,
                        j@ + 1,
                        digit_prefix_len(core, kind) as int,
                    );
                }
                n = n * k + d + 1;
                i = i + 1;
            },
        }
    }
    proof {
        assert(core.take(core.len() as int) =~= core);
        lemma_digit_prefix(core, kind, core.len() as int);
    }
    Ok(n)
}


/// Whether decoding `s` stays within `u64` (see `decode_fits`); `decode`
/// requires it.
pub fn decode_in_range(s: &str, kind: Kind) -> (r: bool)
    ensures
        r == decode_fits(s@, kind),
{
    let chars = chars_of(s);
    let start: usize = match kind {
        Kind::Dir => if chars.len() > 0 && chars[0] == '_' {
            1
        } else {
            0
        },
        Kind::File => 0,
    };
    let ghost core = decode_core(s@, kind);
    assert(core =~= chars@.skip(start as int));
    let k = radix(kind);
    let mut n: u64 = 0;
    let mut i: usize = start;
    proof {
        assert(core.take(0) =~= Seq::<char>::empty());
        lemma_digit_prefix(core, kind, 0);
    }
    while i < chars.len()
        invariant
            start <= i <= chars.len(),
            core == chars@.skip(start as int),
            core == decode_core(s@, kind),
            core.len() == chars.len() - start,
            k == base(kind),
            all_digits(core.take(i - start), kind),
            n == spec_value(core.take(i - start), kind),
            digit_prefix_len(core, kind) >= i - start,
            digit_prefix_len(core, kind) <= core.len(),
        decreases chars.len() - i,
    {
        let j: Ghost<int> = Ghost(i - start);
        assert(core[j@] == chars@[i as int]);
        match digit_value_exec(kind, chars[i]) {
            None => {
                proof {
                    lemma_digit_prefix(core, kind, j@);
                }
                return true;
            },
            Some(d) => {
                proof {
                    assert(all_digits(core.take(j@ + 1), kind)) by {
                        assert forall|x: int| 0 <= x < j@ + 1 implies #[trigger] is_digit(
                            kind,
                            core.take(j@ + 1)[x],
                        ) by {
                            if x < j@ {
                                assert(core.take(j@ + 1)[x] == core.take(j@)[x]);
                            }
                        }
                    }
                    lemma_digit_prefix(core, kind, j@ + 1);
                    lemma_value_step(core, kind, j@);
                    lemma_value_prefix_mono(
                        core,
                        kind,
                        j@ + 1,
                        digit_prefix_len(core, kind) as int,
                    );
                }
                match n.checked_mul(k) {
                    None => {
                        return false;
                    },
                    Some(m) => match m.checked_add(d + 1) {
                        None => {
                            return false;
                        },
                        Some(v) => {
                            n = v;
                        },
                    },
                }
                i = i + 1;
            },
        }
    }
    proof {
        lemma_digit_prefix(core, kind, core.len() as int);
    }
    true
}

/// Whether `v[from..]` are all digits of `kind`.
pub(crate) fn all_digits_from(v: &Vec<char>, from: usize, kind: Kind) -> (r: bool)
    requires
        from <= v.len(),
    ensures
        r == all_digits(v@.skip(from as int), kind),
{
    let mut i = from;
    while i < v.len()
        invariant
            from <= i <= v.len(),
            all_digits(v@.subrange(from as int, i as int), kind),
        decreases v.len() - i,
    {
        if digit_value_exec(kind, v[i]).is_none() {
            assert(v@.skip(from as int)[i - from] == v@[i as int]);
            return false;
        }
        assert forall|x: int| 0 <= x < i + 1 - from implies #[trigger] is_digit(
            kind,
            v@.subrange(from as int, i + 1)[x],
        ) by {
            if x < i - from {
                assert(v@.subrange(from as int, i + 1)[x] == v@.subrange(from as int, i as int)[x]);
            }
        }
        i = i + 1;
    }
    assert(v@.subrange(from as int, v.len() as int) =~= v@.skip(from as int));
    true
}

/// Whether `v[from..]` contains an ASCII uppercase letter.
pub(crate) fn has_letter_from(v: &Vec<char>, from: usize) -> (r: bool)
    requires
        from <= v.len(),
    ensures
        r == spec_has_letter(v@.skip(from as int)),
{
    let mut i = from;
    while i < v.len()
        invariant
            from <= i <= v.len(),
            forall|x: int| from <= x < i ==> !is_upper(#[trigger] v@[x]),
        decreases v.len() - i,
    {
        if 'A' <= v[i] && v[i] <= 'Z' {
            assert(is_upper(v@.skip(from as int)[i - from]));
            return true;
        }
        i = i + 1;
    }
    assert forall|x: int| 0 <= x < v@.skip(from as int).len() implies !is_upper(
        #[trigger] v@.skip(from as int)[x],
    ) by {
        assert(v@.skip(from as int)[x] == v@[x + from]);
    }
    false
}

/// A valid logical index: one to three characters, all in the kind's alphabet.
pub fn valid_index(name: &str, kind: Kind) -> (r: bool)
    ensures
        r == spec_valid_index(name@, kind),
{
    let chars = chars_of(name);
    assert(chars@.skip(0) =~= chars@);
    chars.len() >= 1 && chars.len() <= 3 && all_digits_from(&chars, 0, kind)
}

/// Whether `s` contains an ASCII uppercase letter.
fn has_letter(s: &str) -> (r: bool)
    ensures
        r == spec_has_letter(s@),
{
    let chars = chars_of(s);
    assert(chars@.skip(0) =~= chars@);
    has_letter_from(&chars, 0)
}

/// True iff `name` is the canonical on-disk form of a covered directory: a
/// digit-only index stored bare, or a letter-bearing index stored with one
/// leading `_`.
pub fn is_canonical_dir_name(name: &str) -> (r: bool)
    ensures
        r == spec_is_canonical_dir_name(name@),
{
    let chars = chars_of(name);
    let prefixed = chars.len() > 0 && chars[0] == '_';
    let from: usize = if prefixed {
        1
    } else {
        0
    };
    let ghost core = chars@.skip(from as int);
    assert(core =~= (if prefixed {
        name@.drop_first()
    } else {
        name@
    }));
    let n = chars.len() - from;
    n >= 1 && n <= 3 && all_digits_from(&chars, from, Kind::Dir) && prefixed == has_letter_from(
        &chars,
        from,
    )
}

/// The on-disk storage name of ordinal `n`: its index, with one leading `_`
/// for directory indices that contain a letter. File names are never prefixed.
pub fn storage_name(n: u64, kind: Kind) -> (r: Result<String, CodecError>)
    ensures
        n == 0 ==> r == Err::<String, CodecError>(CodecError::Zero),
        n > 0 ==> (r matches Ok(s) && s@ == spec_storage_name(n as nat, kind)),
{
    let index = match encode(n, kind) {
        Ok(index) => index,
        Err(e) => {
            return Err(e);
        },
    };
    match kind {
        Kind::Dir => if has_letter(index.as_str()) {
            let mut out = String::new();
            push_char(&mut out, '_');
            out.append(index.as_str());
            assert(out@ =~= seq!['_'] + index@);
            Ok(out)
        } else {
            Ok(index)
        },
        Kind::File => Ok(index),
    }
}

/// The kind an argument is read as when none is given: all-lowercase
/// (including empty) means file, anything else directory.
pub fn infer_kind(arg: &str) -> (r: Kind)
    ensures
        r == spec_infer_kind(arg@),
{
    let chars = chars_of(arg);
    let mut i: usize = 0;
    while i < chars.len()
        invariant
            i <= chars.len(),
            chars@ == arg@,
            forall|x: int| 0 <= x < i ==> 'a' <= #[trigger] chars@[x] <= 'z',
        decreases chars.len() - i,
    {
        if !('a' <= chars[i] && chars[i] <= 'z') {
            return Kind::Dir;
        }
        i = i + 1;
    }
    Kind::File
}


/// Number of indices of length at most `len` in a kind's sequence.
pub open spec fn span(kind: Kind, len: nat) -> nat
    decreases len,
{
    if len == 0 {
        0
    } else {
        base(kind) * (span(kind, (len - 1) as nat) + 1)
    }
}

/// Unfolding `spec_encode` once for a positive ordinal.
proof fn lemma_encode_step(n: nat, kind: Kind)
    requires
        n >= 1,
    ensures
        ({
            let q = ((n - 1) / (base(kind) as int)) as nat;
            let r = ((n - 1) % (base(kind) as int)) as nat;
            &&& spec_encode(n, kind) == spec_encode(q, kind).push(digit_char(kind, r))
            &&& q * base(kind) + r == n - 1
            &&& r < base(kind)
            &&& q < n
        }),
{
    let b = base(kind) as int;
    let x = n - 1;
    assert(x == (x / b) * b + x % b && 0 <= x % b < b && 0 <= x / b <= x) by (nonlinear_arith)
        requires
            b > 0,
            x >= 0,
    ;
}

/// The index of an ordinal is made of digits and denotes that ordinal.
pub proof fn lemma_encode_then_value(n: nat, kind: Kind)
    ensures
        all_digits(spec_encode(n, kind), kind),
        spec_value(spec_encode(n, kind), kind) == n,
        n >= 1 ==> spec_encode(n, kind).len() >= 1,
    decreases n,
{
    if n >= 1 {
        lemma_encode_step(n, kind);
        let q = ((n - 1) / (base(kind) as int)) as nat;
        let r = ((n - 1) % (base(kind) as int)) as nat;
        lemma_encode_then_value(q, kind);
        lemma_digit_char(kind, r);
        let e = spec_encode(n, kind);
        assert(e.drop_last() =~= spec_encode(q, kind));
        assert forall|i: int| 0 <= i < e.len() implies #[trigger] is_digit(kind, e[i]) by {
            if i < e.len() - 1 {
                assert(e[i] == spec_encode(q, kind)[i]);
            }
        }
    }
}

/// A string of digits is the index of the ordinal it denotes.
pub proof fn lemma_value_then_encode(s: Seq<char>, kind: Kind)
    requires
        all_digits(s, kind),
    ensures
        spec_encode(spec_value(s, kind), kind) == s,
        s.len() >= 1 ==> spec_value(s, kind) >= 1,
    decreases s.len(),
{
    if s.len() > 0 {
        let init = s.drop_last();
        let d = digit_value(kind, s.last());
        assert(is_digit(kind, s[s.len() - 1]));
        lemma_digit_value(kind, s.last());
        assert(all_digits(init, kind)) by {
            assert forall|i: int| 0 <= i < init.len() implies #[trigger] is_digit(kind, init[i]) by {
                assert(init[i] == s[i]);
            }
        }
        lemma_value_then_encode(init, kind);
        let v = spec_value(s, kind);
        let q = spec_value(init, kind);
        lemma_fundamental_div_mod_converse(v - 1, base(kind) as int, q as int, d as int);
        lemma_encode_step(v, kind);
        assert(s =~= init.push(s.last()));
    }
}

/// An index has at most `len` characters exactly when its ordinal is at most `span(len)`.
pub proof fn lemma_encode_len(n: nat, kind: Kind, len: nat)
    ensures
        spec_encode(n, kind).len() <= len <==> n <= span(kind, len),
    decreases len,
{
    if n >= 1 {
        lemma_encode_step(n, kind);
        let q = ((n - 1) / (base(kind) as int)) as nat;
        let r = ((n - 1) % (base(kind) as int)) as nat;
        if len > 0 {
            lemma_encode_len(q, kind, (len - 1) as nat);
            let sp = span(kind, (len - 1) as nat);
            let b = base(kind);
            assert(q <= sp <==> n <= b * (sp + 1)) by (nonlinear_arith)
                requires
                    q * b + r == n - 1,
                    r < b,
                    b > 0,
            ;
        } else {
            assert(span(kind, 0) == 0);
        }
    }
}

/// Larger digit values have larger characters (the alphabets are in code point order).
proof fn lemma_digit_char_monotone(kind: Kind, d1: nat, d2: nat)
    requires
        d1 < d2 < base(kind),
    ensures
        digit_char(kind, d1) < digit_char(kind, d2),
{
}

/// Law (shortlex order): the index of a larger ordinal is longer, or as long
/// and later character by character; so indices enumerate `a, b, ..., z, aa,
/// ...` and `0, ..., 9, A, ..., Z, 00, ...` in order.
pub proof fn law_encode_shortlex(n: nat, m: nat, kind: Kind)
    requires
        1 <= n < m,
    ensures
        spec_encode(n, kind).len() < spec_encode(m, kind).len() || (spec_encode(n, kind).len()
            == spec_encode(m, kind).len() && lex_lt(spec_encode(n, kind), spec_encode(m, kind))),
    decreases n,
{
    let len = spec_encode(m, kind).len();
    lemma_encode_len(m, kind, len);
    lemma_encode_len(n, kind, len);
    if spec_encode(n, kind).len() == len {
        lemma_encode_step(n, kind);
        lemma_encode_step(m, kind);
        let b = base(kind);
        let q1 = ((n - 1) / (b as int)) as nat;
        let r1 = ((n - 1) % (b as int)) as nat;
        let q2 = ((m - 1) / (b as int)) as nat;
        let r2 = ((m - 1) % (b as int)) as nat;
        assert(q1 < q2 || (q1 == q2 && r1 < r2)) by (nonlinear_arith)
            requires
                q1 * b + r1 == n - 1,
                q2 * b + r2 == m - 1,
                r1 < b,
                r2 < b,
                n < m,
        ;
        if q1 == q2 {
            lemma_digit_char_monotone(kind, r1, r2);
            lemma_lex_push_same(spec_encode(q1, kind), digit_char(kind, r1), digit_char(kind, r2));
        } else {
            lemma_encode_then_value(q2, kind);
            if q1 == 0 {
                assert(spec_encode(q1, kind).len() == 0);
            }
            law_encode_shortlex(q1, q2, kind);
            lemma_lex_push_equal_len(
                spec_encode(q1, kind),
                spec_encode(q2, kind),
                digit_char(kind, r1),
                digit_char(kind, r2),
            );
        }
    }
}

/// Law (codec round trip, ordinal side): decoding the index, or the storage
/// name, of any positive ordinal gives the ordinal back, without overflow.
pub proof fn law_decode_encode(n: u64, kind: Kind)
    requires
        n >= 1,
    ensures
        decode_fits(spec_encode(n as nat, kind), kind),
        spec_decode(spec_encode(n as nat, kind), kind) == Ok::<nat, CodecError>(n as nat),
        decode_fits(spec_storage_name(n as nat, kind), kind),
        spec_decode(spec_storage_name(n as nat, kind), kind) == Ok::<nat, CodecError>(n as nat),
{
    let e = spec_encode(n as nat, kind);
    lemma_encode_then_value(n as nat, kind);
    assert(e.take(e.len() as int) =~= e);
    lemma_digit_prefix(e, kind, e.len() as int);
    if kind == Kind::Dir {
        assert(!has_underscore(e)) by {
            assert(is_digit(kind, e[0]));
        }
        let st = spec_storage_name(n as nat, kind);
        if spec_has_letter(e) {
            assert(st.drop_first() =~= e);
        }
    }
}

/// Law (codec round trip, string side): a non-empty string of digits decodes
/// to a positive ordinal whose index is that string again.
pub proof fn law_encode_decode(s: Seq<char>, kind: Kind)
    requires
        s.len() >= 1,
        all_digits(s, kind),
    ensures
        spec_decode(s, kind) == Ok::<nat, CodecError>(spec_value(s, kind)),
        spec_value(s, kind) >= 1,
        spec_encode(spec_value(s, kind), kind) == s,
{
    lemma_value_then_encode(s, kind);
    assert(s.take(s.len() as int) =~= s);
    lemma_digit_prefix(s, kind, s.len() as int);
    if kind == Kind::Dir {
        assert(is_digit(kind, s[0]));
    }
}

/// Law (finite namespace): the index of a positive ordinal is a valid index
/// exactly when the ordinal is within the kind's capacity
/// (26 + 26^2 + 26^3 files, 36 + 36^2 + 36^3 directories).
pub proof fn law_valid_index_iff_within_capacity(n: nat, kind: Kind)
    requires
        n >= 1,
    ensures
        spec_valid_index(spec_encode(n, kind), kind) <==> n <= spec_capacity(kind),
{
    lemma_encode_then_value(n, kind);
    lemma_encode_len(n, kind, 3);
    let b = base(kind);
    assert(span(kind, 3) == b * (b * (b * (0 + 1) + 1) + 1)) by {
        assert(span(kind, 0) == 0);
        assert(span(kind, 1) == b * (0 + 1));
        assert(span(kind, 2) == b * (span(kind, 1) + 1));
    }
    assert(b * (b * (b * (0 + 1) + 1) + 1) == b + b * b + b * b * b) by (nonlinear_arith);
}

/// Law (storage names): every ordinal within the directory capacity is stored
/// under a canonical directory name, and every canonical directory name is the
/// storage name of the ordinal it decodes to.
pub proof fn law_storage_name_canonical(n: nat, name: Seq<char>)
    ensures
        1 <= n <= spec_capacity(Kind::Dir) ==> spec_is_canonical_dir_name(
            spec_storage_name(n, Kind::Dir),
        ),
        spec_is_canonical_dir_name(name) ==> (spec_decode(name, Kind::Dir) matches Ok(v)
            && name == spec_storage_name(v, Kind::Dir) && 1 <= v <= spec_capacity(Kind::Dir)),
{
    if 1 <= n <= spec_capacity(Kind::Dir) {
        law_valid_index_iff_within_capacity(n, Kind::Dir);
        let e = spec_encode(n, Kind::Dir);
        let st = spec_storage_name(n, Kind::Dir);
        assert(is_digit(Kind::Dir, e[0]));
        if spec_has_letter(e) {
            assert(st.drop_first() =~= e);
        }
    }
    if spec_is_canonical_dir_name(name) {
        let prefixed = has_underscore(name);
        let core = if prefixed { name.drop_first() } else { name };
        assert(core == decode_core(name, Kind::Dir));
        law_encode_decode(core, Kind::Dir);
        let v = spec_value(core, Kind::Dir);
        law_valid_index_iff_within_capacity(v, Kind::Dir);
        if prefixed {
            assert(name =~= seq!['_'] + core);
        }
    }
}


/// The ordinal a name denotes (after the directory storage prefix, if any).
pub open spec fn ordinal_of(name: Seq<char>, kind: Kind) -> nat {
    spec_value(decode_core(name, kind), kind)
}

/// A valid file index, or a canonical directory name, decodes without
/// overflow to an ordinal between 1 and the kind's capacity.
pub proof fn lemma_index_decodes(name: Seq<char>, kind: Kind)
    requires
        kind == Kind::File ==> spec_valid_index(name, Kind::File),
        kind == Kind::Dir ==> spec_is_canonical_dir_name(name),
    ensures
        decode_fits(name, kind),
        spec_decode(name, kind) == Ok::<nat, CodecError>(ordinal_of(name, kind)),
        1 <= ordinal_of(name, kind) <= spec_capacity(kind),
{
    let core = decode_core(name, kind);
    if kind == Kind::File {
        assert(core == name);
    } else {
        assert(core == (if has_underscore(name) {
            name.drop_first()
        } else {
            name
        }));
    }
    law_encode_decode(core, kind);
    law_valid_index_iff_within_capacity(spec_value(core, kind), kind);
    assert(core.take(core.len() as int) =~= core);
    lemma_digit_prefix(core, kind, core.len() as int);
}


/// Law: the valid file indices and the valid directory indices are disjoint
/// sets of strings (lowercase letters against digits and uppercase letters).
pub proof fn law_valid_index_kinds_disjoint(s: Seq<char>)
    ensures
        !(spec_valid_index(s, Kind::File) && spec_valid_index(s, Kind::Dir)),
{
    if spec_valid_index(s, Kind::File) && spec_valid_index(s, Kind::Dir) {
        assert(is_digit(Kind::File, s[0]));
        assert(is_digit(Kind::Dir, s[0]));
    }
}

/// Law: storage names are one to one: two ordinals with the same storage
/// name are the same ordinal.
pub proof fn law_storage_name_injective(a: nat, b: nat, kind: Kind)
    requires
        a >= 1,
        b >= 1,
        a <= u64::MAX,
        b <= u64::MAX,
        spec_storage_name(a, kind) == spec_storage_name(b, kind),
    ensures
        a == b,
{
    law_decode_encode(a as u64, kind);
    law_decode_encode(b as u64, kind);
}

} // verus!
