use vstd::prelude::*;

use crate::GitError;
use sha1::Digest;

verus! {

/// A case-insensitive ASCII hex digit.
pub open spec fn is_hex_digit(c: char) -> bool {
    let u = c as u32;
    (48 <= u <= 57) || (97 <= u <= 102) || (65 <= u <= 70)
}

/// A lowercase ASCII hex digit, the only kind this library writes.
pub open spec fn is_lower_hex(c: char) -> bool {
    let u = c as u32;
    (48 <= u <= 57) || (97 <= u <= 102)
}

/// The value of a hex digit.
pub open spec fn hex_val(c: char) -> u8 {
    let u = c as u32;
    if 48 <= u <= 57 {
        (u - 48) as u8
    } else if 97 <= u <= 102 {
        (u - 87) as u8
    } else {
        (u - 55) as u8
    }
}

/// The lowercase hex digit of a value below sixteen.
pub open spec fn hex_digit_char(n: u8) -> char {
    if n < 10 {
        ((48 + n) as u32) as char
    } else {
        ((87 + n) as u32) as char
    }
}

/// The lowercase hex text of a byte string, two digits per byte.
pub open spec fn hex_of_bytes(b: Seq<u8>) -> Seq<char>
    decreases b.len(),
{
    if b.len() == 0 {
        Seq::empty()
    } else {
        seq![hex_digit_char(b[0] / 16), hex_digit_char(b[0] % 16)] + hex_of_bytes(b.drop_first())
    }
}

/// The bytes of an even-length hex text, two digits per byte.
pub open spec fn bytes_of_hex(s: Seq<char>) -> Seq<u8>
    decreases s.len(),
{
    if s.len() < 2 {
        Seq::empty()
    } else {
        seq![(hex_val(s[0]) * 16 + hex_val(s[1])) as u8] + bytes_of_hex(s.skip(2))
    }
}

/// A valid fingerprint text: exactly forty hex digits.
pub open spec fn is_valid_sha1_text(s: Seq<char>) -> bool {
    s.len() == 40 && forall|i: int| 0 <= i < s.len() ==> is_hex_digit(#[trigger] s[i])
}

/// Hex digits round-trip through their value.
proof fn lemma_hex_digit_char_val(n: u8)
    requires
        n < 16,
    ensures
        is_lower_hex(hex_digit_char(n)),
        hex_val(hex_digit_char(n)) == n,
{
}

/// A lowercase hex digit round-trips through its value.
proof fn lemma_lower_hex_char(c: char)
    requires
        is_lower_hex(c),
    ensures
        hex_val(c) < 16,
        hex_digit_char(hex_val(c)) == c,
{
}

/// The hex text of a byte string is twice as long and all lowercase hex.
pub proof fn lemma_hex_of_bytes_wf(b: Seq<u8>)
    ensures
        hex_of_bytes(b).len() == 2 * b.len(),
        forall|i: int| 0 <= i < hex_of_bytes(b).len() ==> is_lower_hex(#[trigger] hex_of_bytes(b)[i]),
    decreases b.len(),
{
    if b.len() == 0 {
    } else {
        lemma_hex_of_bytes_wf(b.drop_first());
        lemma_hex_digit_char_val(b[0] / 16);
        lemma_hex_digit_char_val(b[0] % 16);
    }
}

/// Hex rendering distributes over concatenation.
pub proof fn lemma_hex_of_bytes_append(a: Seq<u8>, b: Seq<u8>)
    ensures
        hex_of_bytes(a + b) == hex_of_bytes(a) + hex_of_bytes(b),
    decreases a.len(),
{
    if a.len() == 0 {
        assert(a + b =~= b);
        assert(hex_of_bytes(a) + hex_of_bytes(b) =~= hex_of_bytes(b));
    } else {
        lemma_hex_of_bytes_append(a.drop_first(), b);
        assert((a + b).drop_first() =~= a.drop_first() + b);
        assert((a + b)[0] == a[0]);
        assert(hex_of_bytes(a + b) =~= hex_of_bytes(a) + hex_of_bytes(b));
    }
}

/// Hex text decodes to one byte per digit pair.
pub proof fn lemma_bytes_of_hex_len(s: Seq<char>)
    ensures
        bytes_of_hex(s).len() == s.len() / 2,
    decreases s.len(),
{
    if s.len() < 2 {
    } else {
        lemma_bytes_of_hex_len(s.skip(2));
    }
}

/// Reading hex text back gives the bytes it was written from.
pub proof fn lemma_bytes_of_hex_of_bytes(b: Seq<u8>)
    ensures
        bytes_of_hex(hex_of_bytes(b)) == b,
    decreases b.len(),
{
    if b.len() == 0 {
        assert(bytes_of_hex(hex_of_bytes(b)) =~= b);
    } else {
        lemma_bytes_of_hex_of_bytes(b.drop_first());
        lemma_hex_digit_char_val(b[0] / 16);
        lemma_hex_digit_char_val(b[0] % 16);
        let s = hex_of_bytes(b);
        assert(s.len() >= 2);
        assert(s[0] == hex_digit_char(b[0] / 16) && s[1] == hex_digit_char(b[0] % 16));
        assert(s.skip(2) =~= hex_of_bytes(b.drop_first()));
        assert((hex_val(s[0]) * 16 + hex_val(s[1])) as u8 == b[0]);
        assert(bytes_of_hex(s) =~= b);
    }
}

/// Writing the bytes of lowercase hex text back as hex gives the text.
pub proof fn lemma_hex_of_bytes_of_hex(s: Seq<char>)
    requires
        s.len() % 2 == 0,
        forall|i: int| 0 <= i < s.len() ==> is_lower_hex(#[trigger] s[i]),
    ensures
        hex_of_bytes(bytes_of_hex(s)) == s,
    decreases s.len(),
{
    if s.len() == 0 {
        assert(hex_of_bytes(bytes_of_hex(s)) =~= s);
    } else {
        let rest = s.skip(2);
        lemma_hex_of_bytes_of_hex(rest);
        lemma_lower_hex_char(s[0]);
        lemma_lower_hex_char(s[1]);
        let x = (hex_val(s[0]) * 16 + hex_val(s[1])) as u8;
        assert(x / 16 == hex_val(s[0]) && x % 16 == hex_val(s[1])) by (nonlinear_arith)
            requires
                x == hex_val(s[0]) * 16 + hex_val(s[1]),
                hex_val(s[0]) < 16,
                hex_val(s[1]) < 16,
        ;
        let bs = bytes_of_hex(s);
        assert(bs[0] == x);
        assert(bs.drop_first() =~= bytes_of_hex(rest));
        assert(hex_of_bytes(bs) =~= s);
    }
}

/// The SHA-1 digest of a byte string, identified only by its defining
/// property: it is a function of the input bytes alone.
pub uninterp spec fn sha1_of(bytes: Seq<u8>) -> Seq<u8>;

/// Relies on sha1::Sha1 through the Digest trait: the digest is twenty bytes
/// long and depends on the input bytes alone.
#[verifier::external_body]
fn sha1_digest(content: &[u8]) -> (r: Vec<u8>)
    ensures
        r@ == sha1_of(content@),
        r@.len() == 20,
{
    let digest = sha1::Sha1::digest(content);
    digest.to_vec()
}

/// A one-character string holding the lowercase hex digit of a value below
/// sixteen.
pub(crate) fn hex_digit_str(n: u8) -> (r: &'static str)
    requires
        n < 16,
    ensures
        r@ == seq![hex_digit_char(n)],
{
    let r: &'static str = match n {
        0 => "0",
        1 => "1",
        2 => "2",
        3 => "3",
        4 => "4",
        5 => "5",
        6 => "6",
        7 => "7",
        8 => "8",
        9 => "9",
        10 => "a",
        11 => "b",
        12 => "c",
        13 => "d",
        14 => "e",
        _ => "f",
    };
    proof {
        reveal_strlit("0");
        reveal_strlit("1");
        reveal_strlit("2");
        reveal_strlit("3");
        reveal_strlit("4");
        reveal_strlit("5");
        reveal_strlit("6");
        reveal_strlit("7");
        reveal_strlit("8");
        reveal_strlit("9");
        reveal_strlit("a");
        reveal_strlit("b");
        reveal_strlit("c");
        reveal_strlit("d");
        reveal_strlit("e");
        reveal_strlit("f");
        assert(r@ =~= seq![hex_digit_char(n)]);
    }
    r
}

/// Renders a byte string as lowercase hex text, two digits per byte.
pub fn bytes_to_hex(b: &[u8]) -> (r: String)
    ensures
        r@ == hex_of_bytes(b@),
{
    let n = b.len();
    let mut r = String::new();
    let mut i: usize = 0;
    while i < n
        invariant
            0 <= i <= n,
            n == b@.len(),
            r@ == hex_of_bytes(b@.take(i as int)),
        decreases n - i,
    {
        let hi = b[i] / 16;
        let lo = b[i] % 16;
        r.append(hex_digit_str(hi));
        r.append(hex_digit_str(lo));
        proof {
            let t = b@.take(i + 1);
            assert(t =~= b@.take(i as int) + seq![b@[i as int]]);
            lemma_hex_of_bytes_append(b@.take(i as int), seq![b@[i as int]]);
            assert(seq![b@[i as int]].drop_first() =~= Seq::<u8>::empty());
            assert(hex_of_bytes(Seq::<u8>::empty()) == Seq::<char>::empty());
            assert(hex_of_bytes(seq![b@[i as int]]) =~= seq![
                hex_digit_char(b@[i as int] / 16),
                hex_digit_char(b@[i as int] % 16),
            ]);
            assert(r@ =~= hex_of_bytes(t));
        }
        i = i + 1;
    }
    proof {
        assert(b@.take(n as int) =~= b@);
    }
    r
}

/// Computes the object fingerprint of a payload: the lowercase hex text of
/// its SHA-1 digest, always forty hex digits.
pub fn calculate_object_hash(content: &[u8]) -> (r: String)
    ensures
        r@ == hex_of_bytes(sha1_of(content@)),
        r@.len() == 40,
        forall|i: int| 0 <= i < r@.len() ==> is_lower_hex(#[trigger] r@[i]),
        is_valid_sha1_text(r@),
{
    let digest = sha1_digest(content);
    proof {
        lemma_hex_of_bytes_wf(sha1_of(content@));
        let h = hex_of_bytes(sha1_of(content@));
        assert forall|i: int| 0 <= i < h.len() implies is_hex_digit(#[trigger] h[i]) by {
            assert(is_lower_hex(h[i]));
        }
    }
    bytes_to_hex(digest.as_slice())
}

/// Checks a fingerprint text: exactly forty characters, hex digits only
/// (either case). Fails with `Format` otherwise.
pub fn validate_sha1(hash: &str) -> (r: Result<(), GitError>)
    ensures
        r matches Ok(()) <==> is_valid_sha1_text(hash@),
        r is Err ==> r == Err::<(), GitError>(GitError::Format),
{
    let n = hash.unicode_len();
    if n != 40 {
        return Err(GitError::Format);
    }
    let mut i: usize = 0;
    while i < 40
        invariant
            0 <= i <= 40,
            hash@.len() == 40,
            forall|j: int| 0 <= j < i ==> is_hex_digit(#[trigger] hash@[j]),
        decreases 40 - i,
    {
        let c = hash.get_char(i);
        let u = c as u32;
        if !((48 <= u && u <= 57) || (97 <= u && u <= 102) || (65 <= u && u <= 70)) {
            return Err(GitError::Format);
        }
        i = i + 1;
    }
    Ok(())
}

/// The value of a hex digit character.
fn hex_val_exec(c: char) -> (r: u8)
    requires
        is_hex_digit(c),
    ensures
        r == hex_val(c),
{
    let u = c as u32;
    if 48 <= u && u <= 57 {
        (u - 48) as u8
    } else if 97 <= u && u <= 102 {
        (u - 87) as u8
    } else {
        (u - 55) as u8
    }
}

/// Reads a forty-digit fingerprint text into its twenty raw bytes. Fails
/// with `Format` exactly when the text is not a valid fingerprint.
pub fn hex_to_bytes(hex: &str) -> (r: Result<Vec<u8>, GitError>)
    ensures
        r matches Ok(v) ==> is_valid_sha1_text(hex@) && v@ == bytes_of_hex(hex@) && v@.len() == 20,
        r is Err ==> !is_valid_sha1_text(hex@) && r == Err::<Vec<u8>, GitError>(GitError::Format),
{
    match validate_sha1(hex) {
        Ok(()) => {},
        Err(e) => {
            return Err(e);
        },
    }
    let mut v: Vec<u8> = Vec::new();
    let mut i: usize = 0;
    while i < 40
        invariant
            0 <= i <= 40,
            i % 2 == 0,
            hash_text_inv(hex@),
            v@ == bytes_of_hex(hex@.take(i as int)),
            v@.len() == i / 2,
        decreases 40 - i,
    {
        let c0 = hex.get_char(i);
        let c1 = hex.get_char(i + 1);
        let hi = hex_val_exec(c0);
        let lo = hex_val_exec(c1);
        v.push(hi * 16 + lo);
        proof {
            let t = hex@.take(i + 2);
            lemma_bytes_of_hex_take_step(hex@, i as int);
            assert(v@ =~= bytes_of_hex(t));
        }
        i = i + 2;
    }
    proof {
        assert(hex@.take(40) =~= hex@);
    }
    Ok(v)
}

/// A checked fingerprint text, as the decoding loop sees it.
spec fn hash_text_inv(s: Seq<char>) -> bool {
    s.len() == 40 && forall|j: int| 0 <= j < s.len() ==> is_hex_digit(#[trigger] s[j])
}

/// Decoding two more hex digits appends one more byte.
proof fn lemma_bytes_of_hex_take_step(s: Seq<char>, i: int)
    requires
        0 <= i,
        i % 2 == 0,
        i + 2 <= s.len(),
    ensures
        bytes_of_hex(s.take(i + 2)) == bytes_of_hex(s.take(i)) + seq![
            (hex_val(s[i]) * 16 + hex_val(s[i + 1])) as u8,
        ],
    decreases i,
{
    if i == 0 {
        let t = s.take(2);
        assert(t[0] == s[0] && t[1] == s[1]);
        assert(t.skip(2) =~= Seq::<char>::empty());
        assert(bytes_of_hex(Seq::<char>::empty()) == Seq::<u8>::empty());
        assert(s.take(0) =~= Seq::<char>::empty());
        assert(bytes_of_hex(t) =~= bytes_of_hex(s.take(0)) + seq![
            (hex_val(s[0]) * 16 + hex_val(s[1])) as u8,
        ]);
    } else {
        lemma_bytes_of_hex_take_step(s.skip(2), i - 2);
        let a = s.take(i + 2);
        let b = s.take(i);
        assert(a.skip(2) =~= s.skip(2).take(i));
        assert(b.skip(2) =~= s.skip(2).take(i - 2));
        assert(a[0] == s[0] && a[1] == s[1] && b[0] == s[0] && b[1] == s[1]);
        assert(s.skip(2)[i - 2] == s[i] && s.skip(2)[i - 1] == s[i + 1]);
        assert(bytes_of_hex(a) =~= bytes_of_hex(b) + seq![
            (hex_val(s[i]) * 16 + hex_val(s[i + 1])) as u8,
        ]);
    }
}

} // verus!
