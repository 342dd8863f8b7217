//! The textual form of an answer: `C`, `M` or `A` for each position.

use crate::pattern::Correctness;
use crate::word::chars_of;
use vstd::prelude::*;

verus! {

/// Why a mask was rejected.
#[derive(Debug, Clone, Copy, PartialEq, Eq, Structural)]
pub enum DecodeError {
    /// The mask holds `symbol`, which is none of `C`, `M` and `A`, at
    /// `position`; every character before it is one of the three.
    UnknownSymbol { position: usize, symbol: char },
    /// The mask is made of valid symbols, but of `found` of them where the
    /// words have `expected` letters.
    WrongLength { expected: usize, found: usize },
}

/// The symbol that the character `c` stands for, if any.
pub open spec fn symbol_of(c: char) -> Option<Correctness> {
    if c == 'C' {
        Some(Correctness::Correct)
    } else if c == 'M' {
        Some(Correctness::Misplaced)
    } else if c == 'A' {
        Some(Correctness::Absent)
    } else {
        None
    }
}

/// Whether every character of `mask` stands for a symbol.
pub open spec fn valid_mask(mask: Seq<char>) -> bool {
    forall|i: int| 0 <= i < mask.len() ==> symbol_of(#[trigger] mask[i]) is Some
}

/// The answer that a valid mask spells.
pub open spec fn decoded(mask: Seq<char>) -> Seq<Correctness> {
    Seq::new(mask.len(), |i: int| symbol_of(mask[i]).unwrap())
}

/// Whether `i` is the first position of `mask` holding no symbol.
pub open spec fn first_unknown(mask: Seq<char>, i: int) -> bool {
    &&& 0 <= i < mask.len()
    &&& symbol_of(mask[i]) is None
    &&& valid_mask(mask.take(i))
}

/// Reads one character of a mask.
pub fn symbol_from_char(c: char) -> (symbol: Option<Correctness>)
    ensures
        symbol == symbol_of(c),
{
    if c == 'C' {
        Some(Correctness::Correct)
    } else if c == 'M' {
        Some(Correctness::Misplaced)
    } else if c == 'A' {
        Some(Correctness::Absent)
    } else {
        None
    }
}

/// Whether `error` is the reason for which `mask` is no answer for words of
/// `length` letters. A character that is no symbol is reported before a
/// wrong length is, so a mask has at most one reason.
pub open spec fn rejects(mask: Seq<char>, length: int, error: DecodeError) -> bool {
    match error {
        DecodeError::UnknownSymbol { position, symbol } => first_unknown(mask, position as int)
            && symbol == mask[position as int],
        DecodeError::WrongLength { expected, found } => valid_mask(mask) && expected == length
            && found == mask.len() && found != length,
    }
}

/// Decodes a mask into an answer, or says where it stops being one.
pub fn into_correctness(pattern: &str) -> (decoded_mask: Result<Vec<Correctness>, DecodeError>)
    ensures
        decoded_mask is Ok <==> valid_mask(pattern@),
        decoded_mask matches Ok(symbols) ==> symbols@ == decoded(pattern@),
        decoded_mask matches Err(error) ==> error is UnknownSymbol && rejects(
            pattern@,
            pattern@.len() as int,
            error,
        ),
{
    let letters = chars_of(pattern);
    let mut symbols: Vec<Correctness> = Vec::new();
    let mut i: usize = 0;
    while i < letters.len()
        invariant
            letters@ == pattern@,
            i <= letters@.len(),
            symbols@.len() == i,
            forall|k: int| 0 <= k < i ==> symbol_of(#[trigger] pattern@[k]) == Some(symbols@[k]),
        decreases letters@.len() - i,
    {
        match symbol_from_char(letters[i]) {
            Some(symbol) => {
                symbols.push(symbol);
            },
            None => {
                return Err(DecodeError::UnknownSymbol { position: i, symbol: letters[i] });
            },
        }
        i += 1;
    }
    assert(symbols@ =~= decoded(pattern@));
    Ok(symbols)
}

/// Decodes a mask for words of `length` letters.
pub fn decode_mask(pattern: &str, length: usize) -> (decoded_mask: Result<
    Vec<Correctness>,
    DecodeError,
>)
    ensures
        decoded_mask is Ok <==> valid_mask(pattern@) && pattern@.len() == length,
        decoded_mask matches Ok(symbols) ==> symbols@ == decoded(pattern@),
        decoded_mask matches Err(error) ==> rejects(pattern@, length as int, error),
{
    match into_correctness(pattern) {
        Ok(symbols) => {
            if symbols.len() == length {
                Ok(symbols)
            } else {
                Err(DecodeError::WrongLength { expected: length, found: symbols.len() })
            }
        },
        Err(error) => {
            proof {
                let p = error->position as int;
                assert(symbol_of(pattern@[p]) is None);
            }
            Err(error)
        },
    }
}

/// A mask has one reason at most for being rejected.
pub proof fn lemma_rejects_once(mask: Seq<char>, length: int, a: DecodeError, b: DecodeError)
    requires
        rejects(mask, length, a),
        rejects(mask, length, b),
    ensures
        a == b,
{
    if a is UnknownSymbol {
        let i = a->position as int;
        assert(symbol_of(mask[i]) is None);
        if b is UnknownSymbol {
            let j = b->position as int;
            if i < j {
                assert(mask.take(j)[i] == mask[i]);
            } else if j < i {
                assert(mask.take(i)[j] == mask[j]);
            }
        }
    } else if b is UnknownSymbol {
        let j = b->position as int;
        assert(symbol_of(mask[j]) is None);
    }
}

} // verus!
