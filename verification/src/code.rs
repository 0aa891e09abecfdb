//! The `code` verb's per-argument decisions: which alphabet, which
//! direction, and the converted text.

use vstd::prelude::*;
use crate::kind::Kind;
use crate::codec::{
    CodecError, encode, decode, valid_index, is_canonical_dir_name, infer_kind, spec_encode,
    spec_decode, decode_fits, spec_valid_index, spec_is_canonical_dir_name, spec_infer_kind,
};
use crate::decimal::{IntErrorKind, spec_parse_u64, spec_decimal, parse_decimal, decimal, is_dec_digit};
use crate::text::chars_of;

verus! {

/// Why an argument could not be converted.
#[derive(Debug, Clone, Copy, PartialEq, Eq, Structural)]
pub enum CodeError {
    /// The ordinal is not a decimal `u64`.
    Number(IntErrorKind),
    /// The codec refused the ordinal or the index.
    Codec(CodecError),
}

/// The kind an argument is read in: the given one, or the inferred one.
pub open spec fn spec_resolve_kind(kind: Option<Kind>, arg: Seq<char>) -> Kind {
    match kind {
        Some(k) => k,
        None => spec_infer_kind(arg),
    }
}

/// `s` is made of ASCII digits only (the empty string included).
pub open spec fn all_dec_digits(s: Seq<char>) -> bool {
    forall|i: int| 0 <= i < s.len() ==> is_dec_digit(#[trigger] s[i])
}

/// Whether an argument is encoded (ordinal to index) rather than decoded:
/// when forced, or when it is all digits and decoding is not forced.
pub open spec fn spec_encodes(arg: Seq<char>, force_encode: bool, force_decode: bool) -> bool {
    force_encode || (!force_decode && all_dec_digits(arg))
}

/// The text the `code` verb prints for an argument, or why it fails.
pub open spec fn spec_code(arg: Seq<char>, kind: Kind, encodes: bool) -> Result<Seq<char>, CodeError> {
    if encodes {
        match spec_parse_u64(arg) {
            Err(e) => Err(CodeError::Number(e)),
            Ok(n) => if n == 0 {
                Err(CodeError::Codec(CodecError::Zero))
            } else {
                Ok(spec_encode(n, kind))
            },
        }
    } else {
        match spec_decode(arg, kind) {
            Err(e) => Err(CodeError::Codec(e)),
            Ok(v) => Ok(spec_decimal(v)),
        }
    }
}

/// Whether an argument is valid for `--validate`: a valid file index, or for
/// directories a valid index or a canonical on-disk directory name.
pub open spec fn spec_validate(arg: Seq<char>, kind: Kind) -> bool {
    match kind {
        Kind::File => spec_valid_index(arg, Kind::File),
        Kind::Dir => spec_valid_index(arg, Kind::Dir) || spec_is_canonical_dir_name(arg),
    }
}

/// The kind an argument is read in.
pub fn resolve_kind(kind: Option<Kind>, arg: &str) -> (r: Kind)
    ensures
        r == spec_resolve_kind(kind, arg@),
{
    match kind {
        Some(k) => k,
        None => infer_kind(arg),
    }
}

/// Whether an argument is encoded rather than decoded.
pub fn encodes(arg: &str, force_encode: bool, force_decode: bool) -> (r: bool)
    ensures
        r == spec_encodes(arg@, force_encode, force_decode),
{
    if force_encode {
        return true;
    }
    if force_decode {
        return false;
    }
    let v = chars_of(arg);
    let mut i: usize = 0;
    while i < v.len()
        invariant
            i <= v.len(),
            v@ == arg@,
            !force_encode,
            !force_decode,
            forall|x: int| 0 <= x < i ==> is_dec_digit(#[trigger] v@[x]),
        decreases v.len() - i,
    {
        if !('0' <= v[i] && v[i] <= '9') {
            assert(!is_dec_digit(arg@[i as int]));
            return false;
        }
        i = i + 1;
    }
    true
}

/// Whether an argument is valid for `--validate` in the resolved kind.
pub fn validate_arg(arg: &str, kind: Option<Kind>) -> (r: bool)
    ensures
        r == spec_validate(arg@, spec_resolve_kind(kind, arg@)),
{
    match resolve_kind(kind, arg) {
        Kind::File => valid_index(arg, Kind::File),
        Kind::Dir => valid_index(arg, Kind::Dir) || is_canonical_dir_name(arg),
    }
}

/// Converts one argument: an ordinal to its index, or an index (a directory
/// name may carry its `_` prefix) to its ordinal in decimal.
pub fn code_arg(arg: &str, kind: Option<Kind>, force_encode: bool, force_decode: bool) -> (r: Result<
    String,
    CodeError,
>)
    requires
        !spec_encodes(arg@, force_encode, force_decode) ==> decode_fits(
            arg@,
            spec_resolve_kind(kind, arg@),
        ),
    ensures
        r is Ok <==> spec_code(
            arg@,
            spec_resolve_kind(kind, arg@),
            spec_encodes(arg@, force_encode, force_decode),
        ) is Ok,
        r matches Ok(s) ==> spec_code(
            arg@,
            spec_resolve_kind(kind, arg@),
            spec_encodes(arg@, force_encode, force_decode),
        ) == Ok::<Seq<char>, CodeError>(s@),
        r matches Err(e) ==> spec_code(
            arg@,
            spec_resolve_kind(kind, arg@),
            spec_encodes(arg@, force_encode, force_decode),
        ) == Err::<Seq<char>, CodeError>(e),
{
    let k = resolve_kind(kind, arg);
    if encodes(arg, force_encode, force_decode) {
        match parse_decimal(arg) {
            Err(e) => Err(CodeError::Number(e)),
            Ok(n) => match encode(n, k) {
                Ok(s) => Ok(s),
                Err(e) => Err(CodeError::Codec(e)),
            },
        }
    } else {
        match decode(arg, k) {
            Ok(v) => Ok(decimal(v)),
            Err(e) => Err(CodeError::Codec(e)),
        }
    }
}

} // verus!
