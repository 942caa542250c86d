//! Content digests, computed by BLAKE3 over a file's bytes as they stream in.

use vstd::prelude::*;

verus! {

/// Width of a content digest in bytes.
pub const DIGEST_LEN: usize = 32;

/// `blake3::Hasher`, the incremental hash state, as a value that is carried
/// through without a look inside.
#[verifier::external_type_specification]
#[verifier::external_body]
pub struct ExHasher(blake3::Hasher);

/// The BLAKE3 hash of `input` in the regular (unkeyed) mode, as `blake3::hash`
/// computes it: 32 bytes that depend on `input` alone.
pub uninterp spec fn blake3_hash(input: Seq<u8>) -> Seq<u8>;

/// The bytes that a `blake3::Hasher` has been given so far, in the order in
/// which they were given.
pub uninterp spec fn hasher_input(h: blake3::Hasher) -> Seq<u8>;

/// Whether a `blake3::Hasher` hashes in the regular mode from offset zero:
/// made by `Hasher::new` and only ever given input since.
pub uninterp spec fn hasher_plain(h: blake3::Hasher) -> bool;

/// `blake3::Hasher::new`: a hasher in the regular mode that has been given
/// no input yet.
#[verifier::external_body]
fn hasher_new() -> (h: blake3::Hasher)
    ensures
        hasher_plain(h),
        hasher_input(h) == Seq::<u8>::empty(),
{
    blake3::Hasher::new()
}

/// `blake3::Hasher::update`: the hasher has taken `chunk` after what it held;
/// its mode is unchanged, and the call does not panic. BLAKE3 is defined for
/// inputs below 2^64 bytes, so longer totals are left out.
#[verifier::external_body]
fn hasher_update(h: &mut blake3::Hasher, chunk: &[u8])
    requires
        hasher_plain(*old(h)),
        hasher_input(*old(h)).len() + chunk@.len() <= u64::MAX,
    ensures
        hasher_plain(*final(h)),
        hasher_input(*final(h)) == hasher_input(*old(h)) + chunk@,
    no_unwind
{
    h.update(chunk);
}

/// `blake3::Hasher::count`: the number of bytes given to the hasher so far.
#[verifier::external_body]
fn hasher_count(h: &blake3::Hasher) -> (n: u64)
    requires
        hasher_plain(*h),
        hasher_input(*h).len() <= u64::MAX,
    ensures
        n == hasher_input(*h).len(),
{
    h.count()
}

/// `blake3::Hasher::finalize`: the BLAKE3 hash of all the input given so far.
/// The hasher itself is left as it was.
#[verifier::external_body]
fn hasher_finalize(h: &blake3::Hasher) -> (out: [u8; DIGEST_LEN])
    requires
        hasher_plain(*h),
    ensures
        out@ == blake3_hash(hasher_input(*h)),
{
    h.finalize().into()
}

/// A content digest: the 32 bytes of a BLAKE3 hash, never truncated.
#[derive(Clone, Copy, Debug, PartialEq, Eq, Hash)]
pub struct Digest {
    pub bytes: [u8; DIGEST_LEN],
}

impl View for Digest {
    type V = Seq<u8>;

    open spec fn view(&self) -> Seq<u8> {
        self.bytes@
    }
}

/// The word that the first eight bytes of a digest spell, lowest byte first.
pub open spec fn leading_word(d: Seq<u8>) -> u64
    recommends
        d.len() >= 8,
{
    (d[0] + 0x100 * (d[1] + 0x100 * (d[2] + 0x100 * (d[3] + 0x100 * (d[4] + 0x100 * (d[5] + 0x100
        * (d[6] + 0x100 * d[7]))))))) as u64
}

impl Digest {
    /// Wraps 32 raw bytes as a digest.
    pub fn from_bytes(bytes: [u8; DIGEST_LEN]) -> (d: Digest)
        ensures
            d@ == bytes@,
    {
        Digest { bytes }
    }

    /// Whether two digests hold the same bytes.
    pub fn same_as(&self, other: &Digest) -> (same: bool)
        ensures
            same == (self@ == other@),
    {
        let mut i: usize = 0;
        while i < DIGEST_LEN
            invariant
                i <= DIGEST_LEN,
                forall|j: int| 0 <= j < i ==> self.bytes@[j] == other.bytes@[j],
            decreases DIGEST_LEN - i,
        {
            if self.bytes[i] != other.bytes[i] {
                return false;
            }
            i += 1;
        }
        assert(self@ =~= other@);
        true
    }

    /// The first eight bytes as one word, by which digests are indexed. Equal
    /// digests have equal words; the converse does not hold.
    pub fn leading(&self) -> (w: u64)
        ensures
            w == leading_word(self@),
    {
        let w7: u64 = self.bytes[7] as u64;
        let w6: u64 = self.bytes[6] as u64 + 0x100 * w7;
        let w5: u64 = self.bytes[5] as u64 + 0x100 * w6;
        let w4: u64 = self.bytes[4] as u64 + 0x100 * w5;
        let w3: u64 = self.bytes[3] as u64 + 0x100 * w4;
        let w2: u64 = self.bytes[2] as u64 + 0x100 * w3;
        let w1: u64 = self.bytes[1] as u64 + 0x100 * w2;
        self.bytes[0] as u64 + 0x100 * w1
    }
}

/// The hash state of a file that is being read: it stands for the bytes it
/// has been given so far.
pub struct ContentHasher {
    inner: blake3::Hasher,
}

impl View for ContentHasher {
    type V = Seq<u8>;

    closed spec fn view(&self) -> Seq<u8> {
        hasher_input(self.inner)
    }
}

impl ContentHasher {
    #[verifier::type_invariant]
    spec fn well_formed(self) -> bool {
        hasher_plain(self.inner) && hasher_input(self.inner).len() <= u64::MAX
    }

    /// A hasher that has been given nothing yet.
    pub fn new() -> (h: ContentHasher)
        ensures
            h@ == Seq::<u8>::empty(),
    {
        ContentHasher { inner: hasher_new() }
    }

    /// The number of bytes given so far.
    pub fn count(&self) -> (n: u64)
        ensures
            n == self@.len(),
    {
        proof {
            use_type_invariant(self);
        }
        hasher_count(&self.inner)
    }

    /// Gives the hasher the next bytes of the content. A chunk that would
    /// take the total past `u64::MAX` bytes is refused and changes nothing.
    pub fn update(&mut self, chunk: &[u8]) -> (taken: bool)
        ensures
            taken == (old(self)@.len() + chunk@.len() <= u64::MAX),
            final(self)@ == if taken {
                old(self)@ + chunk@
            } else {
                old(self)@
            },
    {
        proof {
            use_type_invariant(&*self);
        }
        let so_far = hasher_count(&self.inner);
        if chunk.len() as u64 > u64::MAX - so_far {
            return false;
        }
        hasher_update(&mut self.inner, chunk);
        true
    }

    /// The digest of everything given so far. The hasher can go on taking
    /// input afterwards.
    pub fn finalize(&self) -> (d: Digest)
        ensures
            d@ == blake3_hash(self@),
    {
        proof {
            use_type_invariant(self);
        }
        Digest { bytes: hasher_finalize(&self.inner) }
    }
}

/// The digest of a content that is held in memory as a whole.
pub fn digest_of(content: &[u8]) -> (d: Digest)
    ensures
        d@ == blake3_hash(content@),
{
    let len = content.len();
    let mut hasher = ContentHasher::new();
    let taken = hasher.update(content);
    assert(taken && len == content@.len());
    assert(hasher@ =~= content@);
    hasher.finalize()
}

/// What one read of a file means for its digest.
#[derive(Clone, Copy, Debug, PartialEq, Eq)]
pub enum HashStep {
    /// The bytes were taken; the file has to be read on.
    More,
    /// The read was empty, which ends the file: the digest of all of it.
    Done(Digest),
    /// The file is longer than a digest is defined for; it cannot be hashed.
    TooLong,
}

/// Takes what one read of a file returned. An empty read ends the file and
/// gives the digest of everything read before; any other read is added to the
/// hash state, whatever its size.
pub fn hash_file_step(hasher: &mut ContentHasher, read: &[u8]) -> (step: HashStep)
    ensures
        read@.len() == 0 ==> step is Done && step->Done_0@ == blake3_hash(old(hasher)@),
        read@.len() > 0 && old(hasher)@.len() + read@.len() <= u64::MAX ==> step is More,
        read@.len() > 0 && old(hasher)@.len() + read@.len() > u64::MAX ==> step is TooLong,
        final(hasher)@ == if step is More {
            old(hasher)@ + read@
        } else {
            old(hasher)@
        },
{
    if read.len() == 0 {
        HashStep::Done(hasher.finalize())
    } else if hasher.update(read) {
        HashStep::More
    } else {
        HashStep::TooLong
    }
}

} // verus!
