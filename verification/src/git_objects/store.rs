use vstd::prelude::*;

use crate::git_objects::framing::bytes_eq;
use crate::git_objects::hash::{
    calculate_object_hash, hex_of_bytes, is_valid_sha1_text, sha1_of, validate_sha1,
};
use crate::git_objects::zlib::{compress, decompress, deflate_of};
use crate::GitError;
use vstd::slice::slice_index_get;
use vstd::string::StringSliceAdditionalSpecFns;
use vstd::utf8::encode_utf8_decode_utf8;

verus! {

/// What a front-to-back scan of stored pairs yields for a key: the first
/// stream filed under it.
pub open spec fn lookup_seq(s: Seq<(String, Vec<u8>)>, k: Seq<char>) -> Option<Seq<u8>>
    decreases s.len(),
{
    if s.len() == 0 {
        None
    } else if s[0].0@ == k {
        Some(s[0].1@)
    } else {
        lookup_seq(s.drop_first(), k)
    }
}

/// The payload filed alongside the first stream stored under a key, where
/// `p` carries one payload per stored pair.
pub open spec fn payload_seq(s: Seq<(String, Vec<u8>)>, p: Seq<Seq<u8>>, k: Seq<char>) -> Option<
    Seq<u8>,
>
    decreases s.len(),
{
    if s.len() == 0 || p.len() == 0 {
        None
    } else if s[0].0@ == k {
        Some(p[0])
    } else {
        payload_seq(s.drop_first(), p.drop_first(), k)
    }
}

/// The entries aligned with their payloads: each stored stream compresses
/// its payload and is filed under that payload's fingerprint text.
pub open spec fn aligned(s: Seq<(String, Vec<u8>)>, p: Seq<Seq<u8>>) -> bool {
    &&& s.len() == p.len()
    &&& forall|i: int|
        0 <= i < s.len() ==> (#[trigger] s[i]).1@ == deflate_of(p[i]) && s[i].0@ == hex_of_bytes(
            sha1_of(p[i]),
        )
}

proof fn lemma_lookup_none(s: Seq<(String, Vec<u8>)>, k: Seq<char>)
    ensures
        lookup_seq(s, k) is None <==> forall|i: int| 0 <= i < s.len() ==> (#[trigger] s[i]).0@ != k,
    decreases s.len(),
{
    if s.len() == 0 {
    } else {
        lemma_lookup_none(s.drop_first(), k);
        assert(forall|i: int| 0 <= i < s.drop_first().len() ==> s.drop_first()[i] == s[i + 1]);
        if s[0].0@ != k && lookup_seq(s.drop_first(), k) is None {
            assert forall|i: int| 0 <= i < s.len() implies (#[trigger] s[i]).0@ != k by {
                if i > 0 {
                    assert(s.drop_first()[i - 1] == s[i]);
                }
            }
        }
    }
}

proof fn lemma_lookup_at(s: Seq<(String, Vec<u8>)>, p: Seq<Seq<u8>>, k: Seq<char>, i: int)
    requires
        s.len() == p.len(),
        0 <= i < s.len(),
        s[i].0@ == k,
        forall|j: int| 0 <= j < i ==> (#[trigger] s[j]).0@ != k,
    ensures
        lookup_seq(s, k) == Some(s[i].1@),
        payload_seq(s, p, k) == Some(p[i]),
    decreases i,
{
    if i == 0 {
    } else {
        assert(forall|j: int| 0 <= j < s.drop_first().len() ==> s.drop_first()[j] == s[j + 1]);
        assert(forall|j: int| 0 <= j < p.drop_first().len() ==> p.drop_first()[j] == p[j + 1]);
        lemma_lookup_at(s.drop_first(), p.drop_first(), k, i - 1);
    }
}

proof fn lemma_lookup_push(
    s: Seq<(String, Vec<u8>)>,
    p: Seq<Seq<u8>>,
    e: (String, Vec<u8>),
    q: Seq<u8>,
    k: Seq<char>,
)
    requires
        s.len() == p.len(),
    ensures
        lookup_seq(s.push(e), k) == (match lookup_seq(s, k) {
            Some(v) => Some(v),
            None => if e.0@ == k {
                Some(e.1@)
            } else {
                None
            },
        }),
        payload_seq(s.push(e), p.push(q), k) == (match lookup_seq(s, k) {
            Some(_) => payload_seq(s, p, k),
            None => if e.0@ == k {
                Some(q)
            } else {
                None
            },
        }),
    decreases s.len(),
{
    if s.len() == 0 {
        assert(s.push(e)[0] == e);
        assert(p.push(q)[0] == q);
        assert(s.push(e).drop_first() =~= Seq::<(String, Vec<u8>)>::empty());
        assert(p.push(q).drop_first() =~= Seq::<Seq<u8>>::empty());
        assert(lookup_seq(s, k) is None);
        assert(lookup_seq(s.push(e).drop_first(), k) is None);
        assert(payload_seq(s.push(e).drop_first(), p.push(q).drop_first(), k) is None);
    } else {
        assert(s.push(e)[0] == s[0]);
        assert(p.push(q)[0] == p[0]);
        assert(s.push(e).drop_first() =~= s.drop_first().push(e));
        assert(p.push(q).drop_first() =~= p.drop_first().push(q));
        lemma_lookup_push(s.drop_first(), p.drop_first(), e, q, k);
    }
}

/// A key with no stream filed under it has no payload filed either.
proof fn lemma_lookup_payload_none(s: Seq<(String, Vec<u8>)>, p: Seq<Seq<u8>>, k: Seq<char>)
    requires
        s.len() == p.len(),
    ensures
        lookup_seq(s, k) is None ==> payload_seq(s, p, k) is None,
    decreases s.len(),
{
    if s.len() == 0 {
    } else {
        lemma_lookup_payload_none(s.drop_first(), p.drop_first(), k);
    }
}

/// Whether two strings hold the same text.
fn str_eq(a: &str, b: &str) -> (r: bool)
    ensures
        r == (a@ == b@),
{
    let r = bytes_eq(a.as_bytes(), b.as_bytes());
    proof {
        if a.spec_bytes() == b.spec_bytes() {
            encode_utf8_decode_utf8(a@);
            encode_utf8_decode_utf8(b@);
        }
    }
    r
}

/// An in-memory object store: an arena of compressed framed payloads keyed
/// by their content fingerprint, mirroring the on-disk object area so that
/// storage behaviour can be exercised deterministically without a
/// filesystem. A ghost record of the payloads themselves ties every stored
/// stream to the payload it was filed from, so retrieval is provably the
/// inverse of storage.
pub struct MemoryStore {
    entries: Vec<(String, Vec<u8>)>,
    payloads: Ghost<Seq<Seq<u8>>>,
}

impl MemoryStore {
    /// The stream stored under a fingerprint text, if any.
    pub closed spec fn lookup(self, k: Seq<char>) -> Option<Seq<u8>> {
        lookup_seq(self.entries@, k)
    }

    /// The payload filed under a fingerprint text, if any.
    pub closed spec fn stored_payload(self, k: Seq<char>) -> Option<Seq<u8>> {
        payload_seq(self.entries@, self.payloads@, k)
    }

    /// Every stored stream compresses its recorded payload and is filed
    /// under that payload's fingerprint text.
    pub closed spec fn wf(self) -> bool {
        aligned(self.entries@, self.payloads@)
    }

    /// An empty store: nothing is filed under any fingerprint.
    pub fn new() -> (r: MemoryStore)
        ensures
            r.wf(),
            forall|k: Seq<char>| #[trigger] r.lookup(k) is None,
            forall|k: Seq<char>| #[trigger] r.stored_payload(k) is None,
    {
        MemoryStore { entries: Vec::new(), payloads: Ghost(Seq::empty()) }
    }

    /// Persists a payload under its fingerprint and returns the fingerprint
    /// text. Total: compression cannot fail in memory. Idempotent: if the
    /// fingerprint is already filed, the store is left unchanged and the
    /// same fingerprint comes back.
    pub fn put(&mut self, content: &[u8]) -> (r: String)
        requires
            old(self).wf(),
        ensures
            final(self).wf(),
            r@ == hex_of_bytes(sha1_of(content@)),
            is_valid_sha1_text(r@),
            old(self).lookup(r@) is Some ==> *final(self) == *old(self),
            old(self).lookup(r@) is None ==> final(self).lookup(r@) == Some(deflate_of(content@))
                && final(self).stored_payload(r@) == Some(content@),
            forall|k: Seq<char>|
                k != hex_of_bytes(sha1_of(content@)) ==> #[trigger] final(self).lookup(k) == old(
                    self
                ).lookup(k) && final(self).stored_payload(k) == old(self).stored_payload(k),
    {
        let hash = calculate_object_hash(content);
        let n = self.entries.len();
        let mut i: usize = 0;
        while i < n
            invariant
                0 <= i <= n,
                n == self.entries@.len(),
                *self == *old(self),
                old(self).wf(),
                hash@ == hex_of_bytes(sha1_of(content@)),
                is_valid_sha1_text(hash@),
                forall|j: int| 0 <= j < i ==> (#[trigger] self.entries@[j]).0@ != hash@,
            decreases n - i,
        {
            let pair = slice_index_get(self.entries.as_slice(), i);
            if str_eq(pair.0.as_str(), hash.as_str()) {
                proof {
                    lemma_lookup_at(self.entries@, self.payloads@, hash@, i as int);
                }
                return hash;
            }
            i = i + 1;
        }
        proof {
            lemma_lookup_none(self.entries@, hash@);
        }
        let compressed = compress(content);
        let key = hash.clone();
        let ghost before = self.entries@;
        let ghost before_payloads = self.payloads@;
        self.entries.push((key, compressed));
        proof {
            self.payloads@ = before_payloads.push(content@);
        }
        proof {
            let last = self.entries@.last();
            assert(last.0@ == hex_of_bytes(sha1_of(content@)));
            assert(last.1@ == deflate_of(content@));
            assert(self.entries@ =~= before.push(last));
            assert forall|i2: int| 0 <= i2 < self.entries@.len() implies (
            #[trigger] self.entries@[i2]).1@ == deflate_of(self.payloads@[i2])
                && self.entries@[i2].0@ == hex_of_bytes(sha1_of(self.payloads@[i2])) by {
                if i2 < before.len() {
                    assert(self.entries@[i2] == before[i2]);
                    assert(self.payloads@[i2] == before_payloads[i2]);
                }
            }
            assert forall|k: Seq<char>| true implies #[trigger] lookup_seq(self.entries@, k) == (
            match lookup_seq(before, k) {
                Some(v) => Some(v),
                None => if hash@ == k {
                    Some(deflate_of(content@))
                } else {
                    None
                },
            }) && payload_seq(self.entries@, self.payloads@, k) == (match lookup_seq(before, k) {
                Some(_) => payload_seq(before, before_payloads, k),
                None => if hash@ == k {
                    Some(content@)
                } else {
                    None
                },
            }) && (lookup_seq(before, k) is None ==> payload_seq(before, before_payloads, k)
                is None) by {
                lemma_lookup_push(before, before_payloads, last, content@, k);
                lemma_lookup_payload_none(before, before_payloads, k);
                assert(self.payloads@ =~= before_payloads.push(content@));
            }
        }
        hash
    }

    /// Retrieves the payload stored under a fingerprint and decompresses
    /// it. Fails with `Format` on an invalid fingerprint text, `NotFound`
    /// when nothing is filed under the fingerprint; everything this store
    /// filed comes back as the payload `put` filed under that fingerprint.
    pub fn get(&self, object_hash: &str) -> (r: Result<Vec<u8>, GitError>)
        requires
            self.wf(),
        ensures
            r matches Ok(v) ==> self.stored_payload(object_hash@) == Some(v@) && self.lookup(
                object_hash@,
            ) == Some(deflate_of(v@)) && object_hash@ == hex_of_bytes(sha1_of(v@)),
            !is_valid_sha1_text(object_hash@) ==> r == Err::<Vec<u8>, GitError>(GitError::Format),
            is_valid_sha1_text(object_hash@) && self.lookup(object_hash@) is None ==> r == Err::<
                Vec<u8>,
                GitError,
            >(GitError::NotFound),
            is_valid_sha1_text(object_hash@) && self.lookup(object_hash@) is Some ==> r is Ok,
    {
        match validate_sha1(object_hash) {
            Ok(()) => {},
            Err(_) => {
                return Err(GitError::Format);
            },
        }
        let n = self.entries.len();
        let mut i: usize = 0;
        while i < n
            invariant
                0 <= i <= n,
                n == self.entries@.len(),
                self.wf(),
                is_valid_sha1_text(object_hash@),
                forall|j: int| 0 <= j < i ==> (#[trigger] self.entries@[j]).0@ != object_hash@,
            decreases n - i,
        {
            let pair = slice_index_get(self.entries.as_slice(), i);
            if str_eq(pair.0.as_str(), object_hash) {
                proof {
                    lemma_lookup_at(self.entries@, self.payloads@, object_hash@, i as int);
                }
                let ghost p = self.payloads@[i as int];
                match decompress(pair.1.as_slice()) {
                    Ok(v) => {
                        proof {
                            assert(pair.1@ == deflate_of(p));
                            assert(v@ == p);
                        }
                        return Ok(v);
                    },
                    Err(_) => {
                        proof {
                            assert(pair.1@ != deflate_of(p));
                            assert(false);
                        }
                        return Err(GitError::Corruption);
                    },
                }
            }
            i = i + 1;
        }
        proof {
            lemma_lookup_none(self.entries@, object_hash@);
        }
        Err(GitError::NotFound)
    }
}

} // verus!
