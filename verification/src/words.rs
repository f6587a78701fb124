use vstd::prelude::*;

verus! {

/// The i-th entry of the fixed 2048-word English mnemonic word list.
pub uninterp spec fn word_of(i: int) -> Seq<u8>;

/// A byte string is an entry of the word list.
pub open spec fn is_word(w: Seq<u8>) -> bool {
    exists|i: int| 0 <= i < 2048 && word_of(i) == w
}

/// Relies on bip39::Language::word_list (English): a fixed list of 2048
/// distinct, nonempty, lowercase-ASCII words.
#[verifier::external_body]
pub fn word_at(i: u16) -> (r: Vec<u8>)
    requires
        i < 2048,
    ensures
        r@ == word_of(i as int),
        r@.len() >= 1,
        forall|k: int| 0 <= k < r@.len() ==> 97 <= #[trigger] r@[k] <= 122,
        forall|j: int| 0 <= j < 2048 && j != i as int ==> word_of(j) != r@,
{
    bip39::Language::English.word_list()[i as usize].as_bytes().to_vec()
}

/// Relies on bip39::Language::find_word (English): the index of the word in
/// the word list, or None when the word is not in the list.
#[verifier::external_body]
pub fn word_index(w: &Vec<u8>) -> (r: Option<u16>)
    ensures
        match r {
            Some(i) => i < 2048 && word_of(i as int) == w@ && (forall|j: int|
                0 <= j < 2048 && j != i as int ==> word_of(j) != w@),
            None => forall|j: int| 0 <= j < 2048 ==> word_of(j) != w@,
        },
{
    match core::str::from_utf8(w.as_slice()) {
        Ok(s) => bip39::Language::English.find_word(s),
        Err(_) => None,
    }
}

} // verus!
