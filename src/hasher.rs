use vstd::prelude::*;
use sha1::Digest;

verus! {

/// The SHA-1 digest of a byte sequence.
pub uninterp spec fn sha1_of(bytes: Seq<u8>) -> Seq<u8>;

/// The bytes that a running SHA-1 state has absorbed so far.
pub uninterp spec fn sha1_absorbed(state: Sha1State) -> Seq<u8>;

/// Length in bytes of a SHA-1 digest.
pub const DIGEST_LEN: usize = 20;

/// A running SHA-1 computation; opaque, since Verus cannot read sha1's state type.
#[verifier::external_body]
pub struct Sha1State {
    inner: sha1::Sha1,
}

/// Relies on sha1's `Digest::new`: a fresh state has absorbed nothing.
#[verifier::external_body]
fn sha1_fresh() -> (r: Sha1State)
    ensures
        sha1_absorbed(r) == Seq::<u8>::empty(),
{
    Sha1State { inner: sha1::Sha1::new() }
}

/// Relies on sha1's `Digest::update`: the chunk is appended to what the state has absorbed.
#[verifier::external_body]
fn sha1_update(state: &mut Sha1State, chunk: &[u8])
    ensures
        sha1_absorbed(*final(state)) == sha1_absorbed(*old(state)) + chunk@,
{
    state.inner.update(chunk);
}

/// Relies on sha1's `Digest::finalize`: the 20-byte SHA-1 digest of all absorbed bytes.
#[verifier::external_body]
fn sha1_finalize(state: Sha1State) -> (r: Vec<u8>)
    ensures
        r@ == sha1_of(sha1_absorbed(state)),
        r@.len() == DIGEST_LEN,
{
    state.inner.finalize().to_vec()
}

/// Computes a content digest from bytes fed to it in chunks, so that a file
/// never has to be held in memory as a whole.
pub struct ContentHasher {
    state: Sha1State,
}

impl ContentHasher {
    /// Every byte fed so far, in order.
    pub closed spec fn absorbed(&self) -> Seq<u8> {
        sha1_absorbed(self.state)
    }

    /// The digest that `finish` returns in the current state.
    pub open spec fn digest(&self) -> Seq<u8> {
        sha1_of(self.absorbed())
    }

    pub fn new() -> (r: ContentHasher)
        ensures
            r.absorbed() == Seq::<u8>::empty(),
    {
        ContentHasher { state: sha1_fresh() }
    }

    /// Folds one chunk of the input into the running digest.
    pub fn update(&mut self, chunk: &[u8])
        ensures
            final(self).absorbed() == old(self).absorbed() + chunk@,
    {
        sha1_update(&mut self.state, chunk);
    }

    /// Takes one read of the input stream: an empty read marks its end.
    /// Returns whether reading should go on.
    pub fn absorb(&mut self, chunk: &[u8]) -> (more: bool)
        ensures
            more == (chunk@.len() > 0),
            final(self).absorbed() == old(self).absorbed() + chunk@,
    {
        if chunk.len() == 0 {
            proof {
                assert(old(self).absorbed() + chunk@ =~= old(self).absorbed());
            }
            false
        } else {
            self.update(chunk);
            true
        }
    }

    /// The digest of everything fed so far.
    pub fn finish(self) -> (r: Vec<u8>)
        ensures
            r@ == self.digest(),
            r@.len() == DIGEST_LEN,
    {
        sha1_finalize(self.state)
    }
}

/// The digest of a whole byte sequence at once.
pub fn digest_of(data: &[u8]) -> (r: Vec<u8>)
    ensures
        r@ == sha1_of(data@),
        r@.len() == DIGEST_LEN,
{
    let mut h = ContentHasher::new();
    h.update(data);
    proof {
        assert(Seq::<u8>::empty() + data@ =~= data@);
    }
    h.finish()
}

/// The digest depends on the content alone: two hashers that were fed the same
/// bytes, however these were cut into chunks, yield the same digest.
pub proof fn law_same_content_same_digest(a: &ContentHasher, b: &ContentHasher)
    requires
        a.absorbed() == b.absorbed(),
    ensures
        a.digest() == b.digest(),
{
}

/// Hashing is deterministic and blind to how reads cut the input: feeding
/// `x` then `y` after `start` yields the digest of feeding `x + y` at once.
pub proof fn law_chunking_irrelevant(start: Seq<u8>, x: Seq<u8>, y: Seq<u8>)
    ensures
        (start + x) + y == start + (x + y),
        sha1_of((start + x) + y) == sha1_of(start + (x + y)),
{
    assert((start + x) + y =~= start + (x + y));
}

} // verus!
