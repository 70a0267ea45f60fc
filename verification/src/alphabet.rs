use vstd::prelude::*;

verus! {

/// The byte `A`.
pub const BYTE_A: u8 = 65;

/// The byte `C`.
pub const BYTE_C: u8 = 67;

/// The byte `G`.
pub const BYTE_G: u8 = 71;

/// The byte `T`.
pub const BYTE_T: u8 = 84;

/// The byte `N`, which stands for any nucleotide.
pub const BYTE_N: u8 = 78;

/// The canonical bytes in their fixed order.
pub const BYTE_LEX: [u8; 4] = [BYTE_A, BYTE_C, BYTE_G, BYTE_T];

/// The canonical characters in their fixed order.
pub const LEX: [char; 4] = ['A', 'C', 'G', 'T'];

/// A symbol of a sequence. Sequences come as bytes and as characters; both
/// share the four canonical nucleotides and the complement relation.
pub trait Symbol: Sized {
    /// The canonical alphabet in its fixed order: A, C, G, T.
    spec fn alphabet() -> Seq<Self>;

    /// The complement of a symbol: A and T swap, C and G swap, N stays.
    /// Any other symbol has none.
    spec fn complement(self) -> Option<Self>;

    /// The alphabet holds four different symbols, and each has a complement.
    proof fn lemma_alphabet()
        ensures
            Self::alphabet().len() == 4,
            Self::alphabet().no_duplicates(),
            forall|i: int| 0 <= i < 4 ==> (#[trigger] Self::alphabet()[i]).complement() is Some,
    ;

    /// Complementing twice gives the symbol back.
    proof fn lemma_complement_twice(self)
        ensures
            self.complement() matches Some(c) ==> c.complement() == Some(self),
    ;
}

impl Symbol for u8 {
    open spec fn alphabet() -> Seq<u8> {
        BYTE_LEX@
    }

    open spec fn complement(self) -> Option<u8> {
        if self == BYTE_A {
            Some(BYTE_T)
        } else if self == BYTE_C {
            Some(BYTE_G)
        } else if self == BYTE_G {
            Some(BYTE_C)
        } else if self == BYTE_T {
            Some(BYTE_A)
        } else if self == BYTE_N {
            Some(BYTE_N)
        } else {
            None
        }
    }

    proof fn lemma_alphabet() {
    }

    proof fn lemma_complement_twice(self) {
    }
}

impl Symbol for char {
    open spec fn alphabet() -> Seq<char> {
        LEX@
    }

    open spec fn complement(self) -> Option<char> {
        if self == 'A' {
            Some('T')
        } else if self == 'C' {
            Some('G')
        } else if self == 'G' {
            Some('C')
        } else if self == 'T' {
            Some('A')
        } else if self == 'N' {
            Some('N')
        } else {
            None
        }
    }

    proof fn lemma_alphabet() {
    }

    proof fn lemma_complement_twice(self) {
    }
}

/// The complement of a byte, where it has one.
pub fn complement_byte(symbol: u8) -> (c: Option<u8>)
    ensures
        c == symbol.complement(),
{
    if symbol == BYTE_A {
        Some(BYTE_T)
    } else if symbol == BYTE_C {
        Some(BYTE_G)
    } else if symbol == BYTE_G {
        Some(BYTE_C)
    } else if symbol == BYTE_T {
        Some(BYTE_A)
    } else if symbol == BYTE_N {
        Some(BYTE_N)
    } else {
        None
    }
}

/// The complement of a character, where it has one.
pub fn complement_char(symbol: char) -> (c: Option<char>)
    ensures
        c == symbol.complement(),
{
    if symbol == 'A' {
        Some('T')
    } else if symbol == 'C' {
        Some('G')
    } else if symbol == 'G' {
        Some('C')
    } else if symbol == 'T' {
        Some('A')
    } else if symbol == 'N' {
        Some('N')
    } else {
        None
    }
}

} // verus!
