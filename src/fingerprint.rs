use vstd::prelude::*;
use std::hash::Hasher;
use twox_hash::XxHash64;

verus! {

/// The 64-bit XXH64 digest, with seed 0, of a byte sequence.
pub uninterp spec fn xxh64_of(bytes: Seq<u8>) -> u64;

#[verifier::external_type_specification]
#[verifier::external_body]
pub struct ExXxHash64(XxHash64);

/// Streams the content of a file through XXH64, a chunk at a time, so that the memory
/// used does not depend on the length of the file.
pub struct Fingerprinter {
    state: XxHash64,
    fed: Ghost<Seq<u8>>,
}

impl Fingerprinter {
    /// The bytes fed so far, in order.
    pub closed spec fn consumed(&self) -> Seq<u8> {
        self.fed@
    }

    /// Relies on `XxHash64::with_seed(0)`: a hasher that has consumed nothing.
    #[verifier::external_body]
    fn start() -> (r: Fingerprinter)
        ensures
            r.consumed() == Seq::<u8>::empty(),
    {
        Fingerprinter { state: XxHash64::with_seed(0), fed: Ghost(Seq::empty()) }
    }

    /// Relies on `Hasher::write` of `XxHash64`: the hasher goes on from where it stood
    /// with the bytes of `chunk`.
    #[verifier::external_body]
    fn feed(&mut self, chunk: &[u8])
        ensures
            final(self).consumed() == old(self).consumed() + chunk@,
    {
        self.state.write(chunk);
    }

    /// Relies on `Hasher::finish` of `XxHash64`: the XXH64 digest of every byte written,
    /// whatever the chunks were; the hasher itself is left as it is.
    #[verifier::external_body]
    fn digest(&self) -> (r: u64)
        ensures
            r == xxh64_of(self.consumed()),
    {
        self.state.finish()
    }

    /// A fingerprinter that has consumed nothing.
    pub fn new() -> (r: Fingerprinter)
        ensures
            r.consumed() == Seq::<u8>::empty(),
    {
        Fingerprinter::start()
    }

    /// Folds the next chunk of content into the fingerprint.
    pub fn update(&mut self, chunk: &[u8])
        ensures
            final(self).consumed() == old(self).consumed() + chunk@,
    {
        self.feed(chunk);
    }

    /// The fingerprint of all the content fed so far.
    pub fn finish(&self) -> (r: u64)
        ensures
            r == xxh64_of(self.consumed()),
    {
        self.digest()
    }
}

/// The fingerprint of a content held whole in memory.
pub fn fingerprint(bytes: &[u8]) -> (r: u64)
    ensures
        r == xxh64_of(bytes@),
{
    let mut f = Fingerprinter::new();
    f.update(bytes);
    assert(f.consumed() =~= bytes@);
    f.finish()
}

} // verus!
