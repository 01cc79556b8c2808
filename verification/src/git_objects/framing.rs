use vstd::prelude::*;

use crate::git_objects::numerals::{
    dec_digits, dec_val, is_canonical_dec, is_dec_digit, lemma_dec_digits_canonical,
    lemma_dec_digits_val, parse_decimal, render_decimal,
};
use crate::git_objects::{type_bytes, GitObjectType};
use crate::GitError;
use vstd::slice::{slice_subrange, slice_to_vec};

verus! {

/// The index of the first occurrence of `x` in `s`, if any.
pub open spec fn find_first(s: Seq<u8>, x: u8) -> Option<int>
    decreases s.len(),
{
    if s.len() == 0 {
        None
    } else if s[0] == x {
        Some(0)
    } else {
        match find_first(s.drop_first(), x) {
            None => None,
            Some(i) => Some(i + 1),
        }
    }
}

/// What `find_first` returns: the first occurrence, or nothing when `x` does
/// not occur.
pub proof fn lemma_find_first_ensures(s: Seq<u8>, x: u8)
    ensures
        match find_first(s, x) {
            Some(i) => 0 <= i < s.len() && s[i] == x && forall|j: int| 0 <= j < i ==> s[j] != x,
            None => forall|j: int| 0 <= j < s.len() ==> s[j] != x,
        },
    decreases s.len(),
{
    if s.len() == 0 {
    } else if s[0] == x {
    } else {
        let d = s.drop_first();
        lemma_find_first_ensures(d, x);
        assert(forall|j: int| 0 <= j < d.len() ==> d[j] == s[j + 1]);
        match find_first(d, x) {
            None => {
                assert forall|j: int| 0 <= j < s.len() implies s[j] != x by {
                    if j > 0 {
                        assert(d[j - 1] != x);
                    }
                }
            },
            Some(i) => {
                assert(s[i + 1] == x);
                assert forall|j: int| 0 <= j < i + 1 implies s[j] != x by {
                    if j > 0 {
                        assert(d[j - 1] != x);
                    }
                }
            },
        }
    }
}

/// An occurrence with nothing equal before it is the first occurrence.
pub proof fn lemma_find_first_at(s: Seq<u8>, x: u8, i: int)
    requires
        0 <= i < s.len(),
        s[i] == x,
        forall|j: int| 0 <= j < i ==> s[j] != x,
    ensures
        find_first(s, x) == Some(i),
    decreases i,
{
    if s[0] == x {
        assert(i == 0);
    } else {
        assert(i > 0);
        let d = s.drop_first();
        assert(forall|j: int| 0 <= j < d.len() ==> d[j] == s[j + 1]);
        lemma_find_first_at(d, x, i - 1);
    }
}

/// Finds the first occurrence of `x` in `s`.
pub fn find_byte(s: &[u8], x: u8) -> (r: Option<usize>)
    ensures
        match r {
            Some(i) => find_first(s@, x) == Some(i as int),
            None => find_first(s@, x) is None,
        },
{
    let n = s.len();
    let mut i: usize = 0;
    while i < n
        invariant
            0 <= i <= n,
            n == s@.len(),
            forall|j: int| 0 <= j < i ==> s@[j] != x,
        decreases n - i,
    {
        if s[i] == x {
            proof {
                lemma_find_first_at(s@, x, i as int);
            }
            return Some(i);
        }
        i = i + 1;
    }
    proof {
        lemma_find_first_ensures(s@, x);
    }
    None
}

/// Whether two byte strings hold the same bytes.
pub fn bytes_eq(a: &[u8], b: &[u8]) -> (r: bool)
    ensures
        r <==> a@ == b@,
{
    let n = a.len();
    if n != b.len() {
        return false;
    }
    let mut i: usize = 0;
    while i < n
        invariant
            0 <= i <= n,
            n == a@.len(),
            n == b@.len(),
            forall|j: int| 0 <= j < i ==> a@[j] == b@[j],
        decreases n - i,
    {
        if a[i] != b[i] {
            return false;
        }
        i = i + 1;
    }
    proof {
        assert(a@ =~= b@);
    }
    true
}

/// A framed object payload: `"<type> <decimal-length>\0"` followed by the
/// body, the length being the body's byte count.
pub open spec fn spec_frame(t: GitObjectType, body: Seq<u8>) -> Seq<u8> {
    type_bytes(t) + seq![32u8] + dec_digits(body.len()) + seq![0u8] + body
}

/// The type named by a header token, if it is one of the three.
pub open spec fn parse_type(tok: Seq<u8>) -> Option<GitObjectType> {
    if tok == type_bytes(GitObjectType::Blob) {
        Some(GitObjectType::Blob)
    } else if tok == type_bytes(GitObjectType::Tree) {
        Some(GitObjectType::Tree)
    } else if tok == type_bytes(GitObjectType::Commit) {
        Some(GitObjectType::Commit)
    } else {
        None
    }
}

/// What a payload unframes to: the header is split at the first null byte,
/// its type token must be recognized, and its declared length must equal the
/// body's byte count (a mismatch is rejected rather than trusted).
pub open spec fn spec_unframe(p: Seq<u8>) -> Option<(GitObjectType, Seq<u8>)> {
    match find_first(p, 0u8) {
        None => None,
        Some(z) => {
            let header = p.take(z);
            let body = p.skip(z + 1);
            match find_first(header, 32u8) {
                None => None,
                Some(sp) => {
                    let tok = header.take(sp);
                    let digits = header.skip(sp + 1);
                    match parse_type(tok) {
                        None => None,
                        Some(t) => if is_canonical_dec(digits) && dec_val(digits) == body.len() {
                            Some((t, body))
                        } else {
                            None
                        },
                    }
                },
            }
        },
    }
}

/// Prepends the `"<type> <byte-length>\0"` header to a body.
pub fn frame(object_type: GitObjectType, body: &[u8]) -> (r: Vec<u8>)
    ensures
        r@ == spec_frame(object_type, body@),
{
    let mut r = object_type.type_text();
    r.push(32);
    let mut digits = render_decimal(body.len());
    r.append(&mut digits);
    r.push(0);
    let mut b = slice_to_vec(body);
    r.append(&mut b);
    proof {
        assert(r@ =~= spec_frame(object_type, body@));
    }
    r
}

/// Reads the token of a header, `blob`, `tree` or `commit`.
fn parse_type_token(tok: &[u8]) -> (r: Option<GitObjectType>)
    ensures
        r == parse_type(tok@),
{
    let blob = GitObjectType::Blob.type_text();
    let tree = GitObjectType::Tree.type_text();
    let commit = GitObjectType::Commit.type_text();
    if bytes_eq(tok, blob.as_slice()) {
        Some(GitObjectType::Blob)
    } else if bytes_eq(tok, tree.as_slice()) {
        Some(GitObjectType::Tree)
    } else if bytes_eq(tok, commit.as_slice()) {
        Some(GitObjectType::Commit)
    } else {
        None
    }
}

/// Strips and checks the header of a framed payload, returning the type and
/// the body. Fails with `Format` when there is no null byte, the type token
/// is unrecognized, or the declared length does not match the body.
pub fn unframe(payload: &[u8]) -> (r: Result<(GitObjectType, Vec<u8>), GitError>)
    ensures
        match spec_unframe(payload@) {
            Some(tb) => r matches Ok(p) && p.0 == tb.0 && p.1@ == tb.1,
            None => r == Err::<(GitObjectType, Vec<u8>), GitError>(GitError::Format),
        },
{
    let n = payload.len();
    let z = match find_byte(payload, 0) {
        Some(z) => z,
        None => {
            return Err(GitError::Format);
        },
    };
    proof {
        lemma_find_first_ensures(payload@, 0u8);
    }
    let header = slice_subrange(payload, 0, z);
    proof {
        assert(header@ =~= payload@.take(z as int));
    }
    let sp = match find_byte(header, 32) {
        Some(sp) => sp,
        None => {
            return Err(GitError::Format);
        },
    };
    proof {
        lemma_find_first_ensures(header@, 32u8);
    }
    let tok = slice_subrange(header, 0, sp);
    let digits = slice_subrange(header, sp + 1, header.len());
    proof {
        assert(tok@ =~= header@.take(sp as int));
        assert(digits@ =~= header@.skip(sp as int + 1));
    }
    let t = match parse_type_token(tok) {
        Some(t) => t,
        None => {
            return Err(GitError::Format);
        },
    };
    let body_len = n - (z + 1);
    match parse_decimal(digits) {
        Some(v) => {
            if v == body_len {
                let body = slice_to_vec(slice_subrange(payload, z + 1, n));
                proof {
                    assert(body@ =~= payload@.skip(z as int + 1));
                }
                Ok((t, body))
            } else {
                Err(GitError::Format)
            }
        },
        None => Err(GitError::Format),
    }
}

/// The type token holds neither a null byte nor a space.
proof fn lemma_type_bytes_clean(t: GitObjectType)
    ensures
        forall|j: int|
            0 <= j < type_bytes(t).len() ==> type_bytes(t)[j] != 0 && type_bytes(t)[j] != 32,
{
    match t {
        GitObjectType::Blob => {
            assert(type_bytes(t) == seq![98u8, 108u8, 111u8, 98u8]);
        },
        GitObjectType::Tree => {
            assert(type_bytes(t) == seq![116u8, 114u8, 101u8, 101u8]);
        },
        GitObjectType::Commit => {
            assert(type_bytes(t) == seq![99u8, 111u8, 109u8, 109u8, 105u8, 116u8]);
        },
    }
}

/// Reading a type token back gives the type it was written for.
proof fn lemma_parse_type_bytes(t: GitObjectType)
    ensures
        parse_type(type_bytes(t)) == Some(t),
{
    let blob = type_bytes(GitObjectType::Blob);
    let tree = type_bytes(GitObjectType::Tree);
    let commit = type_bytes(GitObjectType::Commit);
    assert(blob[0] == 98 && tree[0] == 116 && commit[0] == 99);
    assert(blob != tree && blob != commit && tree != commit);
    match t {
        GitObjectType::Blob => {
        },
        GitObjectType::Tree => {
        },
        GitObjectType::Commit => {
        },
    }
}

/// Unframing inverts framing: for every type and body, the framed payload
/// carries exactly that type and body back out.
pub proof fn lemma_unframe_frame(t: GitObjectType, body: Seq<u8>)
    ensures
        spec_unframe(spec_frame(t, body)) == Some((t, body)),
{
    let tb = type_bytes(t);
    let d = dec_digits(body.len());
    let p = spec_frame(t, body);
    lemma_dec_digits_canonical(body.len());
    lemma_dec_digits_val(body.len());
    lemma_type_bytes_clean(t);
    let z = tb.len() + 1 + d.len();
    assert(p.len() == tb.len() + 1 + d.len() + 1 + body.len());
    assert(p[z as int] == 0);
    assert(forall|j: int| 0 <= j < tb.len() ==> p[j] == tb[j]);
    assert(p[tb.len() as int] == 32);
    assert(forall|j: int|
        tb.len() + 1 <= j < z ==> p[j] == d[j - tb.len() - 1] && is_dec_digit(p[j]));
    assert(forall|j: int| 0 <= j < z ==> p[j] != 0);
    lemma_find_first_at(p, 0u8, z as int);
    let header = p.take(z as int);
    let bdy = p.skip(z as int + 1);
    assert(header =~= tb + seq![32u8] + d);
    assert(bdy =~= body);
    assert(forall|j: int| 0 <= j < tb.len() ==> header[j] != 32);
    assert(header[tb.len() as int] == 32);
    lemma_find_first_at(header, 32u8, tb.len() as int);
    assert(header.take(tb.len() as int) =~= tb);
    assert(header.skip(tb.len() as int + 1) =~= d);
    lemma_parse_type_bytes(t);
}

} // verus!
