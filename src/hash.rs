//! Content digests that identify source files.
use sha2::Digest;
use vstd::prelude::*;

verus! {

/// The SHA-256 digest of the UTF-8 encoding of `text`.
pub uninterp spec fn sha256_of(text: Seq<char>) -> Seq<u8>;

/// The content digest of a file's text. Files with the same text have the
/// same hash; the hash is the identity of a file within one run.
#[derive(Clone, Copy, Debug, PartialEq, Eq, Hash)]
pub struct FileHash {
    bytes: [u8; 32],
}

impl View for FileHash {
    type V = Seq<u8>;

    closed spec fn view(&self) -> Seq<u8> {
        self.bytes@
    }
}

/// Relies on `sha2::Sha256::digest`: the 32-byte SHA-256 digest of the bytes
/// handed to it, a function of those bytes alone.
#[verifier::external_body]
fn sha256_digest(text: &str) -> (r: [u8; 32])
    ensures
        r@ == sha256_of(text@),
{
    sha2::Sha256::digest(text.as_bytes()).into()
}

impl FileHash {
    /// The hash of a file whose contents are `text`.
    pub fn new(text: &str) -> (r: FileHash)
        ensures
            r@ == sha256_of(text@),
    {
        FileHash { bytes: sha256_digest(text) }
    }

    /// The digest's bytes.
    pub fn as_bytes(&self) -> (r: &[u8; 32])
        ensures
            r@ == self@,
    {
        &self.bytes
    }

    /// Whether two hashes are equal.
    pub fn same_as(&self, other: &FileHash) -> (r: bool)
        ensures
            r == (self@ == other@),
    {
        let mut i: usize = 0;
        while i < 32
            invariant
                0 <= i <= 32,
                self@.len() == 32,
                other@.len() == 32,
                forall|j: int| 0 <= j < i ==> self@[j] == other@[j],
            decreases 32 - i,
        {
            if self.bytes[i] != other.bytes[i] {
                return false;
            }
            i = i + 1;
        }
        assert(self@ =~= other@);
        true
    }
}

/// Files with the same contents receive the same hash.
pub proof fn lemma_same_text_same_hash(a: &str, b: &str, ha: FileHash, hb: FileHash)
    requires
        a@ == b@,
        ha@ == sha256_of(a@),
        hb@ == sha256_of(b@),
    ensures
        ha@ == hb@,
{
}

} // verus!
