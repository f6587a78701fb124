use vstd::prelude::*;

verus! {

use vstd::string::StrSliceExecFns;

/// The bytes of an ASCII character sequence.
pub open spec fn ascii_bytes(s: Seq<char>) -> Seq<u8> {
    Seq::new(s.len(), |i: int| s[i] as u8)
}

/// The characters of an ASCII byte sequence.
pub open spec fn bytes_chars(s: Seq<u8>) -> Seq<char> {
    Seq::new(s.len(), |i: int| s[i] as char)
}

/// All bytes are ASCII.
pub open spec fn all_ascii(s: Seq<u8>) -> bool {
    forall|i: int| 0 <= i < s.len() ==> s[i] < 128
}

/// The bytes of a string, when every character is ASCII.
pub fn str_ascii_bytes(s: &str) -> (r: Option<Vec<u8>>)
    ensures
        r is Some <==> s.is_ascii(),
        r is Some ==> r.unwrap()@ == ascii_bytes(s@),
{
    broadcast use vstd::string::is_ascii_spec_bytes;

    if s.is_ascii() {
        let v = s.as_bytes_vec();
        proof {
            assert(v@ =~= ascii_bytes(s@));
        }
        Some(v)
    } else {
        None
    }
}

/// Relies on std's String::from_utf8: ASCII bytes decode to exactly the
/// same characters.
#[verifier::external_body]
pub fn ascii_to_string(v: Vec<u8>) -> (r: String)
    requires
        all_ascii(v@),
    ensures
        r@ == bytes_chars(v@),
        ascii_bytes(r@) == v@,
{
    String::from_utf8(v).expect("ASCII bytes are valid UTF-8")
}

} // verus!
