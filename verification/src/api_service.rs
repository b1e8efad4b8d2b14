//! The lookup provider: a service that maps a letter to its position in the
//! alphabet, standing in for a remote lookup. A real remote service would
//! answer only after network latency; the delay kept here is configuration
//! only and no part of the logical contract.

use vstd::prelude::*;

verus! {

/// The alphabet position of a letter: 1 through 26 for an ASCII letter of
/// either case, nothing for any other character.
pub open spec fn alphabet_position(letter: char) -> Option<u32> {
    let u = letter as u32;
    if 65 <= u <= 90 {
        Some((u - 64) as u32)
    } else if 97 <= u <= 122 {
        Some((u - 96) as u32)
    } else {
        None
    }
}

/// Maps a value to an optional position code.
pub trait PositionConverter<T> {
    /// The position this converter assigns to a value.
    spec fn position_spec(&self, value: T) -> Option<u32>;

    /// Computes the assigned position.
    fn to_position(&self, value: T) -> (r: Option<u32>)
        ensures
            r == self.position_spec(value),
    ;
}

/// A provider that converts letters to their alphabet position (1-26).
pub struct AlphabetService {
    delay_ms: u64,
}

impl AlphabetService {
    /// The configured artificial delay, in milliseconds.
    pub closed spec fn delay(&self) -> u64 {
        self.delay_ms
    }

    /// Creates a service with the given simulated delay.
    pub fn new(delay_ms: u64) -> (s: Self)
        ensures
            s.delay() == delay_ms,
    {
        AlphabetService { delay_ms }
    }

    /// The position (1-26) of a letter in the alphabet, case-insensitively;
    /// `None` for anything that is not an ASCII letter.
    pub fn get_letter_position(&self, letter: char) -> (r: Option<u32>)
        ensures
            r == alphabet_position(letter),
    {
        self.to_position(letter)
    }
}

impl PositionConverter<char> for AlphabetService {
    open spec fn position_spec(&self, letter: char) -> Option<u32> {
        alphabet_position(letter)
    }

    fn to_position(&self, letter: char) -> (r: Option<u32>) {
        let u = letter as u32;
        let upper = if 97 <= u && u <= 122 {
            u - 32
        } else {
            u
        };
        if 65 <= upper && upper <= 90 {
            Some(upper - 64)
        } else {
            None
        }
    }
}

} // verus!
