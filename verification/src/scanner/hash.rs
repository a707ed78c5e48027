//! Hashing file contents.

use vstd::prelude::*;
use vstd::slice::slice_subrange;

verus! {

/// How much of a file the partial hash covers.
pub const PARTIAL_HASH_BYTES: usize = 65_536;

/// How much of a file is read at a time for the full hash.
pub const READ_BUF_SIZE: usize = 262_144;

/// The incremental hasher of the `blake3` crate.
#[verifier::external_type_specification]
#[verifier::external_body]
pub struct ExHasher(blake3::Hasher);

/// The BLAKE3 hash of `data`, as `blake3::hash` computes it.
pub uninterp spec fn blake3_digest(data: Seq<u8>) -> Seq<u8>;

/// The bytes that a `blake3::Hasher` has been fed so far.
pub uninterp spec fn absorbed(h: blake3::Hasher) -> Seq<u8>;

/// `blake3::hash`: the digest depends on the bytes alone.
#[verifier::external_body]
fn hash_bytes(data: &[u8]) -> (r: [u8; 32])
    ensures
        r@ == blake3_digest(data@),
{
    *blake3::hash(data).as_bytes()
}

/// `blake3::Hasher::new`: a hasher that has been fed nothing.
#[verifier::external_body]
fn new_hasher() -> (r: blake3::Hasher)
    ensures
        absorbed(r) == Seq::<u8>::empty(),
{
    blake3::Hasher::new()
}

/// `blake3::Hasher::update`: feeds the bytes behind those fed before.
#[verifier::external_body]
fn feed_hasher(h: &mut blake3::Hasher, data: &[u8])
    ensures
        absorbed(*final(h)) == absorbed(*old(h)) + data@,
{
    h.update(data);
}

/// `blake3::Hasher::finalize`: the digest of everything fed, the same that
/// `blake3::hash` gives for it in one piece.
#[verifier::external_body]
fn finish_hasher(h: &blake3::Hasher) -> (r: [u8; 32])
    ensures
        r@ == blake3_digest(absorbed(*h)),
{
    *h.finalize().as_bytes()
}

/// The beginning of a content that the partial hash covers.
pub open spec fn head(content: Seq<u8>) -> Seq<u8> {
    if content.len() <= PARTIAL_HASH_BYTES {
        content
    } else {
        content.take(PARTIAL_HASH_BYTES as int)
    }
}

/// Hashes only the first `PARTIAL_HASH_BYTES` of a content: a cheap pre-filter
/// to eliminate same-size files that clearly differ before paying for a full
/// read.
pub fn partial_hash(content: &[u8]) -> (r: [u8; 32])
    ensures
        r@ == blake3_digest(head(content@)),
{
    if content.len() <= PARTIAL_HASH_BYTES {
        hash_bytes(content)
    } else {
        let start = slice_subrange(content, 0, PARTIAL_HASH_BYTES);
        assert(start@ =~= content@.take(PARTIAL_HASH_BYTES as int));
        hash_bytes(start)
    }
}

/// Collects the beginning of a file from the pieces it is read in.
#[derive(Debug)]
pub struct HeadReader {
    bytes: Vec<u8>,
}

impl HeadReader {
    /// What has been collected.
    pub closed spec fn collected(&self) -> Seq<u8> {
        self.bytes@
    }

    #[verifier::type_invariant]
    spec fn is_head(self) -> bool {
        self.bytes@.len() <= PARTIAL_HASH_BYTES
    }

    /// Nothing collected yet.
    pub fn new() -> (r: Self)
        ensures
            r.collected() == Seq::<u8>::empty(),
    {
        HeadReader { bytes: Vec::new() }
    }

    /// How many more bytes are wanted; none once the head is complete.
    pub fn wanted(&self) -> (r: usize)
        ensures
            r == PARTIAL_HASH_BYTES - self.collected().len(),
    {
        proof {
            use_type_invariant(self);
        }
        PARTIAL_HASH_BYTES - self.bytes.len()
    }

    /// Takes the next piece of the file, as far as it belongs to the head.
    pub fn feed(&mut self, piece: &[u8])
        ensures
            final(self).collected() == head(old(self).collected() + piece@),
    {
        proof {
            use_type_invariant(&*self);
        }
        let room: usize = PARTIAL_HASH_BYTES - self.bytes.len();
        let take: usize = if piece.len() <= room {
            piece.len()
        } else {
            room
        };
        let mut bytes: Vec<u8> = Vec::new();
        std::mem::swap(&mut bytes, &mut self.bytes);
        bytes.extend_from_slice(slice_subrange(piece, 0, take));
        assert(bytes@ =~= head(old(self).collected() + piece@));
        self.bytes = bytes;
    }

    /// The partial hash of the file.
    pub fn finish(self) -> (r: [u8; 32])
        ensures
            r@ == blake3_digest(self.collected()),
    {
        hash_bytes(self.bytes.as_slice())
    }
}

/// Reading in pieces collects the same head as reading in one.
pub proof fn law_head_of_pieces(content: Seq<u8>, piece: Seq<u8>)
    ensures
        head(head(content) + piece) == head(content + piece),
{
    assert(head(head(content) + piece) =~= head(content + piece));
}

/// Hashes a whole file from the pieces it is read in.
#[derive(Debug)]
pub struct ContentHasher {
    hasher: blake3::Hasher,
}

impl ContentHasher {
    /// What has been hashed.
    pub closed spec fn content(&self) -> Seq<u8> {
        absorbed(self.hasher)
    }

    /// Nothing hashed yet.
    pub fn new() -> (r: Self)
        ensures
            r.content() == Seq::<u8>::empty(),
    {
        ContentHasher { hasher: new_hasher() }
    }

    /// Takes the next piece of the file.
    pub fn feed(&mut self, piece: &[u8])
        ensures
            final(self).content() == old(self).content() + piece@,
    {
        feed_hasher(&mut self.hasher, piece);
    }

    /// The full hash of the file.
    pub fn finish(self) -> (r: [u8; 32])
        ensures
            r@ == blake3_digest(self.content()),
    {
        finish_hasher(&self.hasher)
    }
}

/// Hashes a whole content.
pub fn full_hash(content: &[u8]) -> (r: [u8; 32])
    ensures
        r@ == blake3_digest(content@),
{
    let mut h = ContentHasher::new();
    let mut i: usize = 0;
    while i < content.len()
        invariant
            i <= content@.len(),
            h.content() =~= content@.take(i as int),
        decreases content@.len() - i,
    {
        let n: usize = if content.len() - i <= READ_BUF_SIZE {
            content.len() - i
        } else {
            READ_BUF_SIZE
        };
        h.feed(slice_subrange(content, i, i + n));
        assert(content@.take(i as int) + content@.subrange(i as int, i + n) =~= content@.take(
            i + n,
        ));
        i = i + n;
    }
    assert(content@.take(content@.len() as int) =~= content@);
    h.finish()
}

/// The partial hash covers the first 65536 bytes: all of a content that is no
/// longer, and the same of any two that agree there.
pub proof fn law_heads_are_the_first_bytes(a: Seq<u8>, b: Seq<u8>)
    ensures
        a.len() <= 65536 ==> head(a) == a,
        a.len() > 65536 ==> head(a) == a.take(65536),
        a.len() >= 65536 && b.len() >= 65536 ==> (head(a) == head(b) <==> forall|i: int|
            0 <= i < 65536 ==> a[i] == b[i]),
{
    if a.len() >= 65536 && b.len() >= 65536 {
        assert(a.len() == 65536 ==> a.take(65536) =~= a);
        assert(b.len() == 65536 ==> b.take(65536) =~= b);
        let x = a.take(65536);
        let y = b.take(65536);
        assert(head(a) == x && head(b) == y);
        if x == y {
            assert forall|i: int| 0 <= i < 65536 implies a[i] == b[i] by {
                assert(x[i] == y[i]);
            }
        }
        if forall|i: int| 0 <= i < 65536 ==> a[i] == b[i] {
            assert(x =~= y);
        }
    }
}

} // verus!
