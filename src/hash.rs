use vstd::prelude::*;

verus! {

/// A 32-byte hash (block hash or transaction id), in internal byte order.
#[derive(Clone, Copy, Debug)]
pub struct Hash32 {
    pub bytes: [u8; 32],
}

impl View for Hash32 {
    type V = Seq<u8>;

    open spec fn view(&self) -> Seq<u8> {
        self.bytes@
    }
}

/// The all-zero hash, used as the parent of the first block.
pub open spec fn zero_hash() -> Seq<u8> {
    Seq::new(32, |_i: int| 0u8)
}

/// Byte-wise equality of two byte sequences.
pub fn bytes_eq(a: &[u8], b: &[u8]) -> (r: bool)
    ensures
        r == (a@ == b@),
{
    if a.len() != b.len() {
        return false;
    }
    let mut i: usize = 0;
    while i < a.len()
        invariant
            a@.len() == b@.len(),
            i <= a@.len(),
            forall|j: int| 0 <= j < i ==> a@[j] == b@[j],
        decreases a@.len() - i,
    {
        if a[i] != b[i] {
            return false;
        }
        i = i + 1;
    }
    assert(a@ =~= b@);
    true
}

impl Hash32 {
    /// The all-zero hash.
    pub fn zero() -> (r: Hash32)
        ensures
            r@ == zero_hash(),
    {
        let r = Hash32 { bytes: [0u8; 32] };
        assert(r@ =~= zero_hash());
        r
    }

    /// Whether two hashes hold the same bytes.
    pub fn same_as(&self, other: &Hash32) -> (r: bool)
        ensures
            r == (self@ == other@),
    {
        bytes_eq(self.bytes.as_slice(), other.bytes.as_slice())
    }
}

} // verus!
