use vstd::prelude::*;

verus! {

/// Element-wise XOR of two byte sequences of equal length.
pub open spec fn xor_seq(a: Seq<u8>, b: Seq<u8>) -> Seq<u8>
    recommends
        a.len() == b.len(),
{
    Seq::new(a.len(), |i: int| a[i] ^ b[i])
}

/// Utilities for element-wise binary (GF(2)) vector operations.
pub struct BinaryVector;

impl BinaryVector {
    /// XORs vector `b` into `a` element-wise in place; the lengths must agree.
    pub fn add_inplace(a: &mut [u8], b: &[u8])
        requires
            old(a)@.len() == b@.len(),
        ensures
            final(a)@ == xor_seq(old(a)@, b@),
    {
        let ghost a0 = a@;
        let mut i: usize = 0;
        while i < a.len()
            invariant
                a@.len() == b@.len(),
                a0.len() == b@.len(),
                i <= a@.len(),
                forall|j: int| 0 <= j < i ==> a@[j] == a0[j] ^ b@[j],
                forall|j: int| i <= j < a@.len() ==> a@[j] == a0[j],
            decreases a@.len() - i,
        {
            a[i] = a[i] ^ b[i];
            i += 1;
        }
        assert(a@ =~= xor_seq(a0, b@));
    }
}

} // verus!
