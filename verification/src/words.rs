//! Trusted boundary to the fixed mnemonic vocabulary.
//!
//! The 2048-word English list is an external interface: phrases written by
//! one implementation must validate against the same list here.  The list
//! holds 2048 distinct words in sorted order, so index lookup and word lookup
//! invert each other.

use vstd::prelude::*;

verus! {

/// The word at an index of the fixed 2048-word English vocabulary.
pub uninterp spec fn wordlist_word(i: int) -> Seq<char>;

/// Relies on bip39::Language::English.word_list: the fixed table of 2048
/// words, indexed directly.
#[verifier::external_body]
pub fn word_at(i: u16) -> (r: String)
    requires
        i < 2048,
    ensures
        r@ == wordlist_word(i as int),
        forall|j: int| 0 <= j < 2048 && j != i ==> wordlist_word(j) != r@,
{
    bip39::Language::English.word_list()[i as usize].to_string()
}

/// Relies on bip39::Language::English.find_word: a search of the same table,
/// returning the index of the word when it is present and `None` otherwise.
/// The English list holds 2048 distinct words, so the index is unique.
#[verifier::external_body]
pub fn word_index(word: &str) -> (r: Option<u16>)
    ensures
        r matches Some(i) ==> i < 2048 && wordlist_word(i as int) == word@,
        r matches Some(i) ==> forall|j: int| 0 <= j < 2048 && j != i ==> wordlist_word(j) != word@,
        r is None ==> forall|j: int| 0 <= j < 2048 ==> wordlist_word(j) != word@,
{
    bip39::Language::English.find_word(word)
}

} // verus!
