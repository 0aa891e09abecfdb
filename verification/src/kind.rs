//! The two index kinds, their alphabets and capacities.

use vstd::prelude::*;

verus! {

/// Digits of the file sequence: bijective base-26 over lowercase letters.
pub const FILE_ALPHABET: &'static str = "abcdefghijklmnopqrstuvwxyz";

/// Digits of the directory sequence: bijective base-36 over digits, then uppercase letters.
pub const DIR_ALPHABET: &'static str = "0123456789ABCDEFGHIJKLMNOPQRSTUVWXYZ";

/// Number of file indices of length 1 to 3: 26 + 26^2 + 26^3.
pub const FILE_CAPACITY: u64 = 18_278;

/// Number of directory indices of length 1 to 3: 36 + 36^2 + 36^3.
pub const DIR_CAPACITY: u64 = 47_988;

/// Which covered sequence a name belongs to.
#[derive(Debug, Clone, Copy, PartialEq, Eq, Hash, Structural)]
pub enum Kind {
    File,
    Dir,
}

/// The radix of a kind's bijective numeration.
pub open spec fn base(kind: Kind) -> nat {
    match kind {
        Kind::File => 26,
        Kind::Dir => 36,
    }
}

/// Whether `c` is a digit of the kind's alphabet.
pub open spec fn is_digit(kind: Kind, c: char) -> bool {
    match kind {
        Kind::File => 'a' <= c && c <= 'z',
        Kind::Dir => ('0' <= c && c <= '9') || ('A' <= c && c <= 'Z'),
    }
}

/// Position (0-based) of a digit in its kind's alphabet.
pub open spec fn digit_value(kind: Kind, c: char) -> nat {
    match kind {
        Kind::File => (c as int - 'a' as int) as nat,
        Kind::Dir => if c <= '9' {
            (c as int - '0' as int) as nat
        } else {
            (c as int - 'A' as int + 10) as nat
        },
    }
}

/// The digit at position `d` (0-based) of a kind's alphabet.
pub open spec fn digit_char(kind: Kind, d: nat) -> char {
    match kind {
        Kind::File => (('a' as int) + d) as char,
        Kind::Dir => if d < 10 {
            (('0' as int) + d) as char
        } else {
            (('A' as int) + d - 10) as char
        },
    }
}

/// The alphabet of a kind, as the sequence of its digits in value order.
pub open spec fn spec_alphabet(kind: Kind) -> Seq<char> {
    Seq::new(base(kind), |i: int| digit_char(kind, i as nat))
}

/// Number of indices of length 1 to 3 in a kind's sequence.
pub open spec fn spec_capacity(kind: Kind) -> nat {
    base(kind) + base(kind) * base(kind) + base(kind) * base(kind) * base(kind)
}

/// Digit characters and digit values correspond one to one.
pub proof fn lemma_digit_char(kind: Kind, d: nat)
    requires
        d < base(kind),
    ensures
        is_digit(kind, digit_char(kind, d)),
        digit_value(kind, digit_char(kind, d)) == d,
{
}

/// Every digit is the character of its own value.
pub proof fn lemma_digit_value(kind: Kind, c: char)
    requires
        is_digit(kind, c),
    ensures
        digit_value(kind, c) < base(kind),
        digit_char(kind, digit_value(kind, c)) == c,
{
}

impl Kind {
    /// The kind's alphabet, digit values 1..k in order.
    pub fn alphabet(self) -> (r: &'static str)
        ensures
            r@ == spec_alphabet(self),
    {
        proof {
            reveal_strlit("abcdefghijklmnopqrstuvwxyz");
            reveal_strlit("0123456789ABCDEFGHIJKLMNOPQRSTUVWXYZ");
        }
        match self {
            Kind::File => {
                assert(FILE_ALPHABET@ =~= spec_alphabet(Kind::File));
                FILE_ALPHABET
            },
            Kind::Dir => {
                assert(DIR_ALPHABET@ =~= spec_alphabet(Kind::Dir));
                DIR_ALPHABET
            },
        }
    }

    /// The number of covered names of this kind a node can hold.
    pub fn capacity(self) -> (r: u64)
        ensures
            r == spec_capacity(self),
    {
        match self {
            Kind::File => FILE_CAPACITY,
            Kind::Dir => DIR_CAPACITY,
        }
    }
}

} // verus!
