//! The text that the panels show for long paths and file names.
use vstd::prelude::*;

use vstd::string::{StrSliceExecFns, StringExecFns, StringSliceAdditionalSpecFns};
use vstd::utf8::{decode_utf8, encode_utf8_decode_utf8, is_char_boundary};

verus! {

/// The byte length of `s` in UTF-8.
pub open spec fn byte_len(s: &str) -> int {
    s.spec_bytes().len() as int
}

/// The path shown on a collection card: as it is when it has at most 45
/// bytes, else `...` followed by its last 42 bytes.
pub fn short_path(path: &str) -> (r: String)
    requires
        byte_len(path) <= 45 || is_char_boundary(path.spec_bytes(), byte_len(path) - 42),
    ensures
        byte_len(path) <= 45 ==> r@ == path@,
        byte_len(path) > 45 ==> r@ == seq!['.', '.', '.'] + decode_utf8(
            path.spec_bytes().subrange(byte_len(path) - 42, byte_len(path)),
        ),
{
    let n = path.as_bytes().len();
    if n > 45 {
        let (_, tail) = path.split_at(n - 42);
        proof {
            encode_utf8_decode_utf8(tail@);
            reveal_strlit("...");
        }
        let mut r = "...".to_owned();
        r.append(tail);
        r
    } else {
        path.to_owned()
    }
}

/// The file name shown under a search hit: as it is when it has at most 22
/// bytes, else its first 19 bytes followed by `...`.
pub fn short_name(name: &str) -> (r: String)
    requires
        byte_len(name) <= 22 || is_char_boundary(name.spec_bytes(), 19),
    ensures
        byte_len(name) <= 22 ==> r@ == name@,
        byte_len(name) > 22 ==> r@ == decode_utf8(name.spec_bytes().subrange(0, 19)) + seq![
            '.',
            '.',
            '.',
        ],
{
    let n = name.as_bytes().len();
    if n > 22 {
        let (head, _) = name.split_at(19);
        proof {
            encode_utf8_decode_utf8(head@);
            reveal_strlit("...");
        }
        let mut r = head.to_owned();
        r.append("...");
        r
    } else {
        name.to_owned()
    }
}

} // verus!
