use vstd::prelude::*;

use crate::git_objects::hash::{is_hex_digit, is_valid_sha1_text};

verus! {

/// The storage location of an object: the first two hex digits of its
/// fingerprint name a directory under the object area, the remaining
/// thirty-eight name the file.
pub open spec fn object_path_text(h: Seq<char>) -> Seq<char> {
    ".git/objects/"@ + h.take(2) + "/"@ + h.skip(2)
}

/// Derives the storage path of an object from its fingerprint text. Pure
/// and total over every valid fingerprint; no directory is scanned.
pub fn git_object_path(object_hash: &str) -> (r: String)
    requires
        is_valid_sha1_text(object_hash@),
    ensures
        r@ == object_path_text(object_hash@),
{
    proof {
        assert forall|i: int| 0 <= i < object_hash@.len() implies '\0' <= #[trigger] object_hash@[i]
            <= '\u{7f}' by {
            assert(is_hex_digit(object_hash@[i]));
            let c = object_hash@[i];
            let u = c as u32;
            assert(u <= 102);
            vstd::utf8::char_u32_cast(c, u);
            assert(c == (u as char));
            assert('\0' as u32 == 0 && '\u{7f}' as u32 == 127);
        }
        assert(object_hash.is_ascii());
    }
    let mut r = String::from_str(".git/objects/");
    r.append(object_hash.substring_ascii(0, 2));
    r.append("/");
    r.append(object_hash.substring_ascii(2, 40));
    proof {
        assert(r@ =~= object_path_text(object_hash@));
    }
    r
}

} // verus!
