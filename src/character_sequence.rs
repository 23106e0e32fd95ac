//! Operations over sequences of characters: access, rank and select by character.
use vstd::prelude::*;
use crate::wavelet_tree::{char_count, is_char_select};

verus! {

/// A structure that stands for a sequence of characters.
pub trait CharacterModel {
    /// The characters the structure stands for.
    spec fn chars(&self) -> Seq<char>;

    /// The structure is well formed.
    spec fn char_inv(&self) -> bool;
}

/// Counts occurrences of a character before a position.
pub trait CharacterRank: CharacterModel {
    /// Occurrences of `c` in `[0, index)`; absent past the end or when `c` does not occur.
    fn rank(&self, c: char, index: usize) -> (r: Option<usize>)
        requires
            self.char_inv(),
        ensures
            r == if index <= self.chars().len() && self.chars().contains(c) {
                Some(char_count(self.chars().take(index as int), c) as usize)
            } else {
                None::<usize>
            },
    ;
}

/// Finds the position after the `index`-th occurrence of a character.
pub trait CharacterSelect: CharacterModel {
    fn select(&self, c: char, index: usize) -> (r: Option<usize>)
        requires
            self.char_inv(),
        ensures
            r.is_some() <==> (self.chars().contains(c) && index <= char_count(self.chars(), c)),
            r.is_some() ==> is_char_select(self.chars(), c, index as int, r.unwrap() as int),
    ;
}

/// Reads one character.
pub trait CharacterAccess: CharacterModel {
    fn access(&self, index: usize) -> (r: Option<char>)
        requires
            self.char_inv(),
        ensures
            r == if index < self.chars().len() { Some(self.chars()[index as int]) } else { None::<char> },
    ;
}

} // verus!
