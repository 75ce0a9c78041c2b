//! The lens-library label hash: fold each byte of a label into a single
//! byte of state by adding the byte and multiplying by 17, modulo 256.

use vstd::prelude::*;
use vstd::string::StringSliceAdditionalSpecFns;

verus! {

/// One step of the label hash: add the byte to the state, multiply by 17,
/// and keep the remainder modulo 256.
pub open spec fn hash_step(h: nat, b: u8) -> nat {
    (((h + b) * 17) % 256) as nat
}

/// The label hash of `bytes` folded left onto the starting state `h`.
pub open spec fn hash_fold(h: nat, bytes: Seq<u8>) -> nat
    decreases bytes.len(),
{
    if bytes.len() == 0 {
        h
    } else {
        hash_fold(hash_step(h, bytes[0]), bytes.drop_first())
    }
}

/// Folding one more byte at the end steps the folded state once.
proof fn lemma_hash_fold_snoc(h: nat, bytes: Seq<u8>, b: u8)
    ensures
        hash_fold(h, bytes.push(b)) == hash_step(hash_fold(h, bytes), b),
    decreases bytes.len(),
{
    if bytes.len() == 0 {
        assert(bytes.push(b)[0] == b);
        assert(bytes.push(b).drop_first() =~= Seq::<u8>::empty());
        assert(hash_fold(hash_step(h, b), Seq::<u8>::empty()) == hash_step(h, b));
        assert(hash_fold(h, bytes) == h);
    } else {
        assert(bytes.push(b)[0] == bytes[0]);
        assert(bytes.push(b).drop_first() =~= bytes.drop_first().push(b));
        lemma_hash_fold_snoc(hash_step(h, bytes[0]), bytes.drop_first(), b);
        assert(hash_fold(h, bytes.push(b)) == hash_fold(
            hash_step(h, bytes[0]),
            bytes.drop_first().push(b),
        ));
        assert(hash_fold(h, bytes) == hash_fold(hash_step(h, bytes[0]), bytes.drop_first()));
    }
}

/// The running state of the label hash.
#[derive(Clone, Copy, Debug, PartialEq, Eq, Structural)]
pub struct HASH {
    pub state: u8,
}

impl Default for HASH {
    /// A fresh hash starts at state 0.
    fn default() -> (h: HASH)
        ensures
            h.state == 0,
    {
        HASH { state: 0 }
    }
}

impl HASH {
    /// Folds one byte into the state.
    pub fn write_u8(&mut self, x: u8)
        ensures
            final(self).state as nat == hash_step(old(self).state as nat, x),
    {
        self.state = (((self.state as u32 + x as u32) * 17) % 256) as u8;
    }

    /// Folds every byte of `bytes` into the state, in order.
    pub fn write(&mut self, bytes: &[u8])
        ensures
            final(self).state as nat == hash_fold(old(self).state as nat, bytes@),
    {
        let mut i: usize = 0;
        while i < bytes.len()
            invariant
                i <= bytes@.len(),
                self.state as nat == hash_fold(old(self).state as nat, bytes@.take(i as int)),
            decreases bytes@.len() - i,
        {
            proof {
                assert(bytes@.take(i as int + 1) =~= bytes@.take(i as int).push(bytes@[i as int]));
                lemma_hash_fold_snoc(old(self).state as nat, bytes@.take(i as int), bytes@[i as int]);
            }
            let b = bytes[i];
            self.write_u8(b);
            i = i + 1;
        }
        proof {
            assert(bytes@.take(bytes@.len() as int) =~= bytes@);
        }
    }

    /// The state widened to the hasher result type.
    pub fn finish(&self) -> (r: u64)
        ensures
            r == self.state as u64,
    {
        self.state as u64
    }
}

/// The label hash of a string: every byte folded into a fresh state. The
/// result is always below 256.
pub fn hash(s: &str) -> (r: usize)
    ensures
        r as nat == hash_fold(0, s.spec_bytes()),
        r < 256,
{
    let mut h = HASH::default();
    h.write(s.as_bytes());
    proof {
        lemma_hash_fold_bound(0, s.spec_bytes());
    }
    h.finish() as usize
}

/// A fold that starts below 256 stays below 256.
proof fn lemma_hash_fold_bound(h: nat, bytes: Seq<u8>)
    requires
        h < 256,
    ensures
        hash_fold(h, bytes) < 256,
    decreases bytes.len(),
{
    if bytes.len() > 0 {
        lemma_hash_fold_bound(hash_step(h, bytes[0]), bytes.drop_first());
    }
}

} // verus!
