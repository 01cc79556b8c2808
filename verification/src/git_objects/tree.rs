use vstd::prelude::*;

use crate::git_objects::framing::{
    bytes_eq, find_byte, find_first, frame, lemma_find_first_at, lemma_find_first_ensures,
    lemma_unframe_frame, spec_frame, spec_unframe, unframe,
};
use crate::git_objects::hash::{
    bytes_of_hex, bytes_to_hex, hex_of_bytes, hex_to_bytes, is_lower_hex, is_valid_sha1_text,
    lemma_bytes_of_hex_len, lemma_hex_of_bytes_of_hex,
};
use crate::git_objects::{mode_bytes, spec_to_object_type, FileMode, GitObjectType};
use crate::GitError;
use vstd::multiset::Multiset;
use vstd::slice::{slice_index_get, slice_subrange, slice_to_vec};
use vstd::utf8::{
    decode_utf8, encode_utf8, encode_utf8_decode_utf8, encode_utf8_valid_utf8, valid_utf8,
};

verus! {

/// One directory entry of a tree object. The fingerprint is carried as hex
/// text; the object type is the one the mode determines.
pub struct TreeEntry {
    pub mode: FileMode,
    pub name: String,
    pub sha1: String,
    pub object_type: GitObjectType,
}

/// The abstract content of an entry: mode, name, fingerprint text.
pub open spec fn entry_view(e: TreeEntry) -> (FileMode, Seq<char>, Seq<char>) {
    (e.mode, e.name@, e.sha1@)
}

pub open spec fn entries_view(s: Seq<TreeEntry>) -> Seq<(FileMode, Seq<char>, Seq<char>)> {
    s.map_values(|e: TreeEntry| entry_view(e))
}

pub open spec fn triple_view(e: (FileMode, String, String)) -> (FileMode, Seq<char>, Seq<char>) {
    (e.0, e.1@, e.2@)
}

pub open spec fn triples_view(s: Seq<(FileMode, String, String)>) -> Seq<
    (FileMode, Seq<char>, Seq<char>),
> {
    s.map_values(|e: (FileMode, String, String)| triple_view(e))
}

/// The bytes of one encoded entry: mode text, a space, the UTF-8 name, a
/// null byte, and the twenty raw fingerprint bytes.
pub open spec fn entry_body(e: (FileMode, Seq<char>, Seq<char>)) -> Seq<u8> {
    mode_bytes(e.0) + seq![32u8] + encode_utf8(e.1) + seq![0u8] + bytes_of_hex(e.2)
}

/// The bytes of a tree body: the entries' encodings concatenated in the
/// given order. The codec neither sorts nor checks the order.
pub open spec fn tree_body(entries: Seq<(FileMode, Seq<char>, Seq<char>)>) -> Seq<u8>
    decreases entries.len(),
{
    if entries.len() == 0 {
        Seq::empty()
    } else {
        entry_body(entries[0]) + tree_body(entries.drop_first())
    }
}

/// Every entry's fingerprint text is valid.
pub open spec fn tree_shas_valid(s: Seq<(FileMode, String, String)>) -> bool {
    forall|i: int| 0 <= i < s.len() ==> is_valid_sha1_text(#[trigger] s[i].2@)
}

/// Tree bodies concatenate entrywise.
pub proof fn lemma_tree_body_append(
    a: Seq<(FileMode, Seq<char>, Seq<char>)>,
    b: Seq<(FileMode, Seq<char>, Seq<char>)>,
)
    ensures
        tree_body(a + b) == tree_body(a) + tree_body(b),
    decreases a.len(),
{
    if a.len() == 0 {
        assert(a + b =~= b);
        assert(tree_body(a) + tree_body(b) =~= tree_body(b));
    } else {
        lemma_tree_body_append(a.drop_first(), b);
        assert((a + b).drop_first() =~= a.drop_first() + b);
        assert((a + b)[0] == a[0]);
        assert(tree_body(a + b) =~= tree_body(a) + tree_body(b));
    }
}

/// The mode named by an entry's mode token, if it is one of the four.
pub open spec fn parse_mode(tok: Seq<u8>) -> Option<FileMode> {
    if tok == mode_bytes(FileMode::RegularFile) {
        Some(FileMode::RegularFile)
    } else if tok == mode_bytes(FileMode::ExecutableFile) {
        Some(FileMode::ExecutableFile)
    } else if tok == mode_bytes(FileMode::SymbolicLink) {
        Some(FileMode::SymbolicLink)
    } else if tok == mode_bytes(FileMode::Directory) {
        Some(FileMode::Directory)
    } else {
        None
    }
}

/// One entry dismantled from the front of a body, with the remaining bytes:
/// the mode token runs to the first space, the name to the first null byte,
/// and the next twenty bytes are the raw fingerprint.
pub open spec fn split_entry(b: Seq<u8>) -> Option<((FileMode, Seq<char>, Seq<char>), Seq<u8>)> {
    match find_first(b, 32u8) {
        None => None,
        Some(sp) => match parse_mode(b.take(sp)) {
            None => None,
            Some(m) => {
                let rest = b.skip(sp + 1);
                match find_first(rest, 0u8) {
                    None => None,
                    Some(z) => {
                        let name_bytes = rest.take(z);
                        let after = rest.skip(z + 1);
                        if valid_utf8(name_bytes) && after.len() >= 20 {
                            Some(
                                (
                                    (m, decode_utf8(name_bytes), hex_of_bytes(after.take(20))),
                                    after.skip(20),
                                ),
                            )
                        } else {
                            None
                        }
                    },
                }
            },
        },
    }
}

/// The entries a tree body decodes to, scanning front to back. `None` on a
/// missing delimiter, an unrecognized mode, a name that is not UTF-8, or a
/// truncated fingerprint. The check that the remainder shrank makes
/// termination plain; an entry always consumes bytes, so it never fails.
pub open spec fn decode_tree_body(b: Seq<u8>) -> Option<Seq<(FileMode, Seq<char>, Seq<char>)>>
    decreases b.len(),
{
    if b.len() == 0 {
        Some(Seq::empty())
    } else {
        match split_entry(b) {
            None => None,
            Some((e, rem)) => {
                if rem.len() < b.len() {
                    match decode_tree_body(rem) {
                        None => None,
                        Some(tail) => Some(seq![e] + tail),
                    }
                } else {
                    None
                }
            },
        }
    }
}

/// Each decoded entry carries the object type its mode determines.
pub open spec fn tree_entries_typed(s: Seq<TreeEntry>) -> bool {
    forall|i: int|
        0 <= i < s.len() ==> (#[trigger] s[i]).object_type == spec_to_object_type(s[i].mode)
}

/// Relies on String::from_utf8: it succeeds exactly on valid UTF-8 and
/// decodes it.
#[verifier::external_body]
fn bytes_to_string(bytes: Vec<u8>) -> (r: Option<String>)
    ensures
        r matches Some(s) ==> valid_utf8(bytes@) && s@ == decode_utf8(bytes@),
        r is None ==> !valid_utf8(bytes@),
{
    String::from_utf8(bytes).ok()
}

/// Reads the mode token of an entry.
fn parse_mode_token(tok: &[u8]) -> (r: Option<FileMode>)
    ensures
        r == parse_mode(tok@),
{
    let regular = FileMode::RegularFile.mode_text();
    let executable = FileMode::ExecutableFile.mode_text();
    let symlink = FileMode::SymbolicLink.mode_text();
    let directory = FileMode::Directory.mode_text();
    if bytes_eq(tok, regular.as_slice()) {
        Some(FileMode::RegularFile)
    } else if bytes_eq(tok, executable.as_slice()) {
        Some(FileMode::ExecutableFile)
    } else if bytes_eq(tok, symlink.as_slice()) {
        Some(FileMode::SymbolicLink)
    } else if bytes_eq(tok, directory.as_slice()) {
        Some(FileMode::Directory)
    } else {
        None
    }
}

/// Parses a tree body into its entries, front to back; the decoded order is
/// the on-disk order. Fails with `Format` exactly when the body is not a
/// well-formed sequence of entries.
pub fn decode_entries(body: &[u8]) -> (r: Result<Vec<TreeEntry>, GitError>)
    ensures
        match decode_tree_body(body@) {
            Some(es) => r matches Ok(v) && entries_view(v@) == es && tree_entries_typed(v@),
            None => r == Err::<Vec<TreeEntry>, GitError>(GitError::Format),
        },
{
    let n = body.len();
    let mut out: Vec<TreeEntry> = Vec::new();
    let mut pos: usize = 0;
    proof {
        assert(body@.skip(0) =~= body@);
        assert(entries_view(out@) =~= Seq::<(FileMode, Seq<char>, Seq<char>)>::empty());
        match decode_tree_body(body@) {
            Some(t) => {
                assert(Seq::<(FileMode, Seq<char>, Seq<char>)>::empty() + t =~= t);
            },
            None => {},
        }
    }
    while pos < n
        invariant
            0 <= pos <= n,
            n == body@.len(),
            tree_entries_typed(out@),
            match decode_tree_body(body@.skip(pos as int)) {
                Some(t) => decode_tree_body(body@) == Some(entries_view(out@) + t),
                None => decode_tree_body(body@) is None,
            },
        decreases n - pos,
    {
        let ghost whole = body@;
        let s = slice_subrange(body, pos, n);
        proof {
            assert(s@ =~= body@.skip(pos as int));
        }
        let sp = match find_byte(s, 32) {
            Some(sp) => sp,
            None => {
                return Err(GitError::Format);
            },
        };
        proof {
            lemma_find_first_ensures(s@, 32u8);
        }
        let tok = slice_subrange(s, 0, sp);
        let m = match parse_mode_token(tok) {
            Some(m) => m,
            None => {
                proof {
                    assert(tok@ =~= s@.take(sp as int));
                }
                return Err(GitError::Format);
            },
        };
        proof {
            assert(tok@ =~= s@.take(sp as int));
        }
        let rest = slice_subrange(s, sp + 1, s.len());
        proof {
            assert(rest@ =~= s@.skip(sp as int + 1));
        }
        let z = match find_byte(rest, 0) {
            Some(z) => z,
            None => {
                return Err(GitError::Format);
            },
        };
        proof {
            lemma_find_first_ensures(rest@, 0u8);
        }
        let name_vec = slice_to_vec(slice_subrange(rest, 0, z));
        let ghost nb = name_vec@;
        proof {
            assert(nb =~= rest@.take(z as int));
        }
        if rest.len() - (z + 1) < 20 {
            proof {
                assert(rest@.skip(z as int + 1).len() < 20);
            }
            return Err(GitError::Format);
        }
        let sha_slice = slice_subrange(rest, z + 1, z + 21);
        proof {
            assert(sha_slice@ =~= rest@.skip(z as int + 1).take(20));
        }
        let name = match bytes_to_string(name_vec) {
            Some(nm) => nm,
            None => {
                return Err(GitError::Format);
            },
        };
        let ghost nm_view = name@;
        let sha_hex = bytes_to_hex(sha_slice);
        let ghost sha_view = sha_hex@;
        let ot = m.to_object_type();
        let ghost old_out = out@;
        out.push(TreeEntry { mode: m, name, sha1: sha_hex, object_type: ot });
        let step = sp + 1 + z + 21;
        pos = pos + step;
        proof {
            let after = rest@.skip(z as int + 1);
            let ev = (m, decode_utf8(nb), hex_of_bytes(after.take(20)));
            let rem = after.skip(20);
            assert(split_entry(s@) == Some((ev, rem)));
            assert(rem =~= body@.skip(pos as int));
            assert(rem.len() < s@.len());
            assert(entries_view(out@) =~= entries_view(old_out) + seq![ev]) by {
                assert(out@.last().mode == m);
                assert(out@.last().name@ == nm_view);
                assert(nm_view == decode_utf8(nb));
                assert(out@.last().sha1@ == sha_view);
                assert(sha_view == hex_of_bytes(after.take(20)));
                assert(forall|i: int| 0 <= i < old_out.len() ==> out@[i] == old_out[i]);
            }
            match decode_tree_body(rem) {
                Some(t) => {
                    assert(decode_tree_body(s@) == Some(seq![ev] + t));
                    assert(entries_view(old_out) + (seq![ev] + t) =~= entries_view(out@) + t);
                },
                None => {
                    assert(decode_tree_body(s@) is None);
                },
            }
        }
    }
    proof {
        assert(body@.skip(n as int) =~= Seq::<u8>::empty());
        assert(decode_tree_body(Seq::<u8>::empty()) == Some(
            Seq::<(FileMode, Seq<char>, Seq<char>)>::empty(),
        ));
        assert(entries_view(out@) + Seq::<(FileMode, Seq<char>, Seq<char>)>::empty()
            =~= entries_view(out@));
    }
    Ok(out)
}

/// What a framed payload parses to as a tree: it must unframe as a tree
/// object, and its body must decode.
pub open spec fn spec_parse_tree(p: Seq<u8>) -> Option<Seq<(FileMode, Seq<char>, Seq<char>)>> {
    match spec_unframe(p) {
        Some((t, body)) => if t == GitObjectType::Tree {
            decode_tree_body(body)
        } else {
            None
        },
        None => None,
    }
}

/// Parses a framed tree payload into its entries: the header is checked
/// (type `tree`, length matching the body), then the body is decoded in
/// on-disk order. Fails with `Format` otherwise.
pub fn parse_tree_entries(content: &[u8]) -> (r: Result<Vec<TreeEntry>, GitError>)
    ensures
        match spec_parse_tree(content@) {
            Some(es) => r matches Ok(v) && entries_view(v@) == es && tree_entries_typed(v@),
            None => r == Err::<Vec<TreeEntry>, GitError>(GitError::Format),
        },
{
    let (t, body) = match unframe(content) {
        Ok(p) => p,
        Err(_) => {
            return Err(GitError::Format);
        },
    };
    match t {
        GitObjectType::Tree => {},
        _ => {
            return Err(GitError::Format);
        },
    }
    decode_entries(body.as_slice())
}

/// Byte-wise lexicographic order: the order tree entries are sorted in.
pub open spec fn bytes_le(a: Seq<u8>, b: Seq<u8>) -> bool
    decreases a.len(),
{
    if a.len() == 0 {
        true
    } else if b.len() == 0 {
        false
    } else if a[0] < b[0] {
        true
    } else if a[0] > b[0] {
        false
    } else {
        bytes_le(a.drop_first(), b.drop_first())
    }
}

/// Entry order: ascending by the name's UTF-8 bytes.
pub open spec fn name_le(x: (FileMode, String, String), y: (FileMode, String, String)) -> bool {
    bytes_le(encode_utf8(x.1@), encode_utf8(y.1@))
}

/// An entry list in ascending name order.
pub open spec fn sorted_by_name(s: Seq<(FileMode, String, String)>) -> bool {
    forall|i: int, j: int| 0 <= i < j < s.len() ==> name_le(#[trigger] s[i], #[trigger] s[j])
}

/// The order is total: two byte strings compare one way or the other.
pub proof fn lemma_bytes_le_total(a: Seq<u8>, b: Seq<u8>)
    ensures
        bytes_le(a, b) || bytes_le(b, a),
    decreases a.len(),
{
    if a.len() == 0 {
    } else if b.len() == 0 {
    } else if a[0] == b[0] {
        lemma_bytes_le_total(a.drop_first(), b.drop_first());
    }
}

/// The order is transitive.
pub proof fn lemma_bytes_le_trans(a: Seq<u8>, b: Seq<u8>, c: Seq<u8>)
    requires
        bytes_le(a, b),
        bytes_le(b, c),
    ensures
        bytes_le(a, c),
    decreases a.len(),
{
    if a.len() == 0 {
    } else if c.len() == 0 {
        assert(b.len() > 0);
    } else {
        assert(b.len() > 0);
        if a[0] == b[0] && b[0] == c[0] {
            lemma_bytes_le_trans(a.drop_first(), b.drop_first(), c.drop_first());
        }
    }
}

/// Compares two byte strings lexicographically.
fn bytes_le_exec(x: &[u8], y: &[u8]) -> (r: bool)
    ensures
        r == bytes_le(x@, y@),
{
    let xn = x.len();
    let yn = y.len();
    let mut i: usize = 0;
    proof {
        assert(x@.skip(0) =~= x@);
        assert(y@.skip(0) =~= y@);
    }
    while i < xn && i < yn
        invariant
            0 <= i <= xn,
            0 <= i <= yn,
            xn == x@.len(),
            yn == y@.len(),
            bytes_le(x@, y@) == bytes_le(x@.skip(i as int), y@.skip(i as int)),
        decreases xn - i,
    {
        let xs = x[i];
        let ys = y[i];
        proof {
            let xr = x@.skip(i as int);
            let yr = y@.skip(i as int);
            assert(xr[0] == x@[i as int] && yr[0] == y@[i as int]);
            assert(xr.drop_first() =~= x@.skip(i + 1));
            assert(yr.drop_first() =~= y@.skip(i + 1));
        }
        if xs < ys {
            return true;
        }
        if xs > ys {
            return false;
        }
        i = i + 1;
    }
    proof {
        let xr = x@.skip(i as int);
        let yr = y@.skip(i as int);
        if i == xn {
            assert(xr.len() == 0);
        } else {
            assert(xr.len() > 0 && yr.len() == 0);
        }
    }
    i == xn
}

/// Compares two entries by name.
fn name_le_exec(x: &(FileMode, String, String), y: &(FileMode, String, String)) -> (r: bool)
    ensures
        r == name_le(*x, *y),
{
    bytes_le_exec(x.1.as_str().as_bytes(), y.1.as_str().as_bytes())
}

/// Sorts entries ascending by name, byte-wise — the order a tree body
/// requires for a deterministic fingerprint. Returns a permutation of the
/// input.
pub fn sort_tree_entries(entries: Vec<(FileMode, String, String)>) -> (r: Vec<
    (FileMode, String, String),
>)
    ensures
        sorted_by_name(r@),
        r@.to_multiset() == entries@.to_multiset(),
{
    broadcast use vstd::seq_lib::group_to_multiset_ensures;
    broadcast use vstd::multiset::group_multiset_axioms;

    let ghost all = entries@;
    let mut src = entries;
    let mut out: Vec<(FileMode, String, String)> = Vec::new();
    proof {
        assert(out@.to_multiset().add(src@.to_multiset()) =~= all.to_multiset());
    }
    while src.len() > 0
        invariant
            sorted_by_name(out@),
            out@.to_multiset().add(src@.to_multiset()) == all.to_multiset(),
        decreases src.len(),
    {
        let ghost old_src = src@;
        let ghost old_out = out@;
        let e = src.pop().unwrap();
        proof {
            assert(old_src =~= src@.push(e));
        }
        let n = out.len();
        let mut k: usize = 0;
        while k < n && name_le_exec(slice_index_get(out.as_slice(), k), &e)
            invariant
                0 <= k <= n,
                n == out@.len(),
                out@ == old_out,
                forall|j: int| 0 <= j < k ==> name_le(#[trigger] out@[j], e),
            decreases n - k,
        {
            k = k + 1;
        }
        proof {
            vstd::seq_lib::to_multiset_insert(out@, k as int, e);
        }
        let ghost before = out@;
        out.insert(k, e);
        proof {
            assert forall|i: int, j: int| 0 <= i < j < out@.len() implies name_le(
                #[trigger] out@[i],
                #[trigger] out@[j],
            ) by {
                if j < k {
                } else if i < k && j == k {
                } else if i < k && j > k {
                    assert(out@[j] == before[j - 1]);
                } else if i == k && j > k {
                    assert(k < before.len());
                    lemma_bytes_le_total(encode_utf8(before[k as int].1@), encode_utf8(e.1@));
                    assert(name_le(e, before[k as int]));
                    assert(out@[j] == before[j - 1]);
                    if j - 1 > k {
                        assert(name_le(before[k as int], before[j - 1]));
                        lemma_bytes_le_trans(
                            encode_utf8(e.1@),
                            encode_utf8(before[k as int].1@),
                            encode_utf8(before[j - 1].1@),
                        );
                    }
                } else {
                    assert(out@[i] == before[i - 1] && out@[j] == before[j - 1]);
                }
            }
            vstd::seq_lib::to_multiset_build(src@, e);
            assert(src@.push(e).to_multiset() == src@.to_multiset().insert(e));
            assert(old_src.to_multiset() == src@.to_multiset().insert(e));
            assert(out@ == before.insert(k as int, e));
            assert(out@.to_multiset() == before.to_multiset().insert(e));
            assert(out@.to_multiset().add(src@.to_multiset()) =~= before.to_multiset().add(
                old_src.to_multiset(),
            ));
        }
    }
    proof {
        vstd::seq_lib::to_multiset_len(src@);
        vstd::multiset::lemma_multiset_empty_len(src@.to_multiset());
        assert(src@.to_multiset() =~= Multiset::<(FileMode, String, String)>::empty());
        assert(out@.to_multiset() =~= all.to_multiset());
    }
    out
}

/// A mode token holds neither a null byte nor a space.
proof fn lemma_mode_bytes_clean(m: FileMode)
    ensures
        forall|j: int|
            0 <= j < mode_bytes(m).len() ==> mode_bytes(m)[j] != 0 && mode_bytes(m)[j] != 32,
{
    match m {
        FileMode::RegularFile => {
            assert(mode_bytes(m) == seq![49u8, 48u8, 48u8, 54u8, 52u8, 52u8]);
        },
        FileMode::ExecutableFile => {
            assert(mode_bytes(m) == seq![49u8, 48u8, 48u8, 55u8, 53u8, 53u8]);
        },
        FileMode::SymbolicLink => {
            assert(mode_bytes(m) == seq![49u8, 50u8, 48u8, 48u8, 48u8, 48u8]);
        },
        FileMode::Directory => {
            assert(mode_bytes(m) == seq![52u8, 48u8, 48u8, 48u8, 48u8]);
        },
    }
}

/// Reading a mode token back gives the mode it was written for.
proof fn lemma_parse_mode_bytes(m: FileMode)
    ensures
        parse_mode(mode_bytes(m)) == Some(m),
{
    let regular = mode_bytes(FileMode::RegularFile);
    let executable = mode_bytes(FileMode::ExecutableFile);
    let symlink = mode_bytes(FileMode::SymbolicLink);
    let directory = mode_bytes(FileMode::Directory);
    assert(regular[3] == 54 && executable[3] == 55 && symlink[1] == 50 && regular[1] == 48);
    assert(directory.len() == 5 && regular.len() == 6);
    assert(regular != executable && regular != symlink && regular != directory);
    assert(executable != symlink && executable != directory && symlink != directory);
    match m {
        FileMode::RegularFile => {
        },
        FileMode::ExecutableFile => {
        },
        FileMode::SymbolicLink => {
        },
        FileMode::Directory => {
        },
    }
}

/// The UTF-8 encoding of a character other than NUL holds no zero byte.
proof fn lemma_encode_scalar_nonzero(s: u32)
    requires
        s != 0,
    ensures
        forall|j: int| 0 <= j < vstd::utf8::encode_scalar(s).len() ==> vstd::utf8::encode_scalar(
            s,
        )[j] != 0,
{
    let e = vstd::utf8::encode_scalar(s);
    if vstd::utf8::has_width_1_encoding(s) {
        assert(((s & 0x7F) as u8) != 0) by (bit_vector)
            requires
                s != 0,
                s < 0x80,
        ;
        assert(e == seq![vstd::utf8::leading_byte_width_1(s)]);
    } else {
        let c1 = ((s >> 6) & 0x1F) as u8;
        let c2 = ((s >> 12) & 0x0F) as u8;
        let c3 = ((s >> 18) & 0x7) as u8;
        let k1 = (s & 0x3F) as u8;
        let k2 = ((s >> 6) & 0x3F) as u8;
        let k3 = ((s >> 12) & 0x3F) as u8;
        assert((0xC0u8 | c1) != 0 && (0xE0u8 | c2) != 0 && (0xF0u8 | c3) != 0 && (0x80u8 | k1) != 0
            && (0x80u8 | k2) != 0 && (0x80u8 | k3) != 0) by (bit_vector);
        if vstd::utf8::has_width_2_encoding(s) {
            assert(e == seq![
                vstd::utf8::leading_byte_width_2(s),
                vstd::utf8::last_continuation_byte(s),
            ]);
        } else if vstd::utf8::has_width_3_encoding(s) {
            assert(e == seq![
                vstd::utf8::leading_byte_width_3(s),
                vstd::utf8::second_last_continuation_byte(s),
                vstd::utf8::last_continuation_byte(s),
            ]);
        } else {
            assert(e == seq![
                vstd::utf8::leading_byte_width_4(s),
                vstd::utf8::third_last_continuation_byte(s),
                vstd::utf8::second_last_continuation_byte(s),
                vstd::utf8::last_continuation_byte(s),
            ]);
        }
    }
}

/// The UTF-8 encoding of a name without NUL characters holds no zero byte.
proof fn lemma_encode_utf8_no_nul(chars: Seq<char>)
    requires
        forall|i: int| 0 <= i < chars.len() ==> chars[i] != '\0',
    ensures
        forall|j: int| 0 <= j < encode_utf8(chars).len() ==> encode_utf8(chars)[j] != 0,
    decreases chars.len(),
{
    if chars.len() == 0 {
    } else {
        let c = chars[0];
        let u = c as u32;
        if u == 0 {
            vstd::utf8::char_u32_cast(c, u);
            vstd::utf8::char_u32_cast('\0', 0u32);
            assert(c == '\0');
        }
        lemma_encode_scalar_nonzero(u);
        assert(forall|i: int|
            0 <= i < chars.drop_first().len() ==> chars.drop_first()[i] == chars[i + 1]);
        lemma_encode_utf8_no_nul(chars.drop_first());
        assert(encode_utf8(chars) == vstd::utf8::encode_scalar(u) + encode_utf8(
            chars.drop_first(),
        ));
    }
}

/// A tree entry the codec reproduces exactly: the name holds no NUL
/// character, and the fingerprint text is forty lowercase hex digits (as
/// the decoder itself writes them).
pub open spec fn tree_entry_encodable(e: (FileMode, Seq<char>, Seq<char>)) -> bool {
    &&& forall|i: int| 0 <= i < e.1.len() ==> e.1[i] != '\0'
    &&& e.2.len() == 40
    &&& forall|i: int| 0 <= i < e.2.len() ==> is_lower_hex(#[trigger] e.2[i])
}

/// Decoding inverts encoding: a tree body built from encodable entries
/// decodes back to exactly those entries, in the order they were given,
/// whether or not that order is sorted — the codec neither sorts nor checks.
pub proof fn lemma_decode_encode_tree(entries: Seq<(FileMode, Seq<char>, Seq<char>)>)
    requires
        forall|i: int| 0 <= i < entries.len() ==> tree_entry_encodable(#[trigger] entries[i]),
    ensures
        decode_tree_body(tree_body(entries)) == Some(entries),
    decreases entries.len(),
{
    if entries.len() == 0 {
        assert(decode_tree_body(tree_body(entries)) =~= Some(entries));
    } else {
        let e = entries[0];
        let rest = entries.drop_first();
        let tb = tree_body(entries);
        let rb = tree_body(rest);
        let mb = mode_bytes(e.0);
        let ne = encode_utf8(e.1);
        let sb = bytes_of_hex(e.2);
        assert(tb == entry_body(e) + rb);
        assert(tree_entry_encodable(e));
        lemma_bytes_of_hex_len(e.2);
        lemma_mode_bytes_clean(e.0);
        lemma_encode_utf8_no_nul(e.1);
        encode_utf8_valid_utf8(e.1);
        encode_utf8_decode_utf8(e.1);
        lemma_hex_of_bytes_of_hex(e.2);
        let sp = mb.len() as int;
        assert(tb[sp] == 32);
        assert(forall|j: int| 0 <= j < sp ==> tb[j] == mb[j] && tb[j] != 32);
        lemma_find_first_at(tb, 32u8, sp);
        assert(tb.take(sp) =~= mb);
        lemma_parse_mode_bytes(e.0);
        let rest_b = tb.skip(sp + 1);
        assert(rest_b =~= ne + seq![0u8] + sb + rb);
        let z = ne.len() as int;
        assert(rest_b[z] == 0);
        assert(forall|j: int| 0 <= j < z ==> rest_b[j] == ne[j] && rest_b[j] != 0);
        lemma_find_first_at(rest_b, 0u8, z);
        assert(rest_b.take(z) =~= ne);
        let after = rest_b.skip(z + 1);
        assert(after =~= sb + rb);
        assert(sb.len() == 20);
        assert(after.take(20) =~= sb);
        let rem = after.skip(20);
        assert(rem =~= rb);
        assert(split_entry(tb) == Some(((e.0, decode_utf8(ne), hex_of_bytes(sb)), rem)));
        assert(decode_utf8(ne) == e.1);
        assert(hex_of_bytes(sb) == e.2);
        assert(forall|i: int| 0 <= i < rest.len() ==> rest[i] == entries[i + 1]);
        lemma_decode_encode_tree(rest);
        assert(rem.len() < tb.len());
        assert((e.0, e.1, e.2) == e);
        assert(decode_tree_body(tb) == Some(seq![e] + rest));
        assert(seq![e] + rest =~= entries);
    }
}

/// Parsing inverts building: the framed payload built from encodable entries
/// parses back to exactly those entries.
pub proof fn lemma_parse_build_tree(entries: Seq<(FileMode, Seq<char>, Seq<char>)>)
    requires
        forall|i: int| 0 <= i < entries.len() ==> tree_entry_encodable(#[trigger] entries[i]),
    ensures
        spec_parse_tree(spec_frame(GitObjectType::Tree, tree_body(entries))) == Some(entries),
{
    lemma_unframe_frame(GitObjectType::Tree, tree_body(entries));
    lemma_decode_encode_tree(entries);
}

/// Encodes one entry onto the end of a body. Fails with `Format` exactly
/// when the fingerprint text is invalid, leaving the body unchanged.
fn append_entry(out: &mut Vec<u8>, mode: FileMode, name: &str, sha: &str) -> (r: Result<
    (),
    GitError,
>)
    ensures
        r matches Ok(()) ==> is_valid_sha1_text(sha@) && final(out)@ == old(out)@ + entry_body(
            (mode, name@, sha@),
        ),
        r is Err ==> !is_valid_sha1_text(sha@) && r == Err::<(), GitError>(GitError::Format)
            && *final(out) == *old(out),
{
    let mut sha_bytes = match hex_to_bytes(sha) {
        Ok(v) => v,
        Err(e) => {
            return Err(e);
        },
    };
    let mut mode_text = mode.mode_text();
    out.append(&mut mode_text);
    out.push(32);
    let mut name_bytes = name.as_bytes_vec();
    out.append(&mut name_bytes);
    out.push(0);
    out.append(&mut sha_bytes);
    proof {
        assert(out@ =~= old(out)@ + entry_body((mode, name@, sha@)));
    }
    Ok(())
}

/// Serializes an ordered entry list into a framed tree payload. The entries
/// are written in the given order; callers sort beforehand. Fails with
/// `Format` exactly when some fingerprint text is invalid.
pub fn build_tree_content(entries: &[(FileMode, String, String)]) -> (r: Result<Vec<u8>, GitError>)
    ensures
        r matches Ok(v) ==> tree_shas_valid(entries@) && v@ == spec_frame(
            GitObjectType::Tree,
            tree_body(triples_view(entries@)),
        ),
        r is Err ==> !tree_shas_valid(entries@) && r == Err::<Vec<u8>, GitError>(GitError::Format),
{
    let n = entries.len();
    let mut body: Vec<u8> = Vec::new();
    let mut i: usize = 0;
    while i < n
        invariant
            0 <= i <= n,
            n == entries@.len(),
            forall|j: int| 0 <= j < i ==> is_valid_sha1_text(#[trigger] entries@[j].2@),
            body@ == tree_body(triples_view(entries@.take(i as int))),
        decreases n - i,
    {
        let e = slice_index_get(entries, i);
        match append_entry(&mut body, e.0, e.1.as_str(), e.2.as_str()) {
            Ok(()) => {},
            Err(e) => {
                return Err(e);
            },
        }
        proof {
            let tv = triples_view(entries@.take(i as int));
            let one = triple_view(entries@[i as int]);
            assert(triples_view(entries@.take(i + 1)) =~= tv + seq![one]);
            lemma_tree_body_append(tv, seq![one]);
            assert(seq![one].drop_first() =~= Seq::<(FileMode, Seq<char>, Seq<char>)>::empty());
            assert(tree_body(Seq::<(FileMode, Seq<char>, Seq<char>)>::empty())
                == Seq::<u8>::empty());
            assert(tree_body(seq![one]) =~= entry_body(one));
            assert(body@ =~= tree_body(triples_view(entries@.take(i + 1))));
        }
        i = i + 1;
    }
    proof {
        assert(entries@.take(n as int) =~= entries@);
    }
    Ok(frame(GitObjectType::Tree, body.as_slice()))
}

} // verus!
