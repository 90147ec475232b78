use vstd::prelude::*;

verus! {

/// Sum of a byte sequence, as a mathematical integer.
pub open spec fn byte_sum(bytes: Seq<u8>) -> int
    decreases bytes.len(),
{
    if bytes.len() == 0 {
        0
    } else {
        byte_sum(bytes.drop_last()) + bytes.last() as int
    }
}

/// A rolling checksum over a byte stream: the sum of every byte folded in,
/// wrapping at 256, together with the number of bytes folded in.
#[derive(Copy, Clone, Debug)]
pub struct Checksum(pub u8, pub usize);

impl Checksum {
    pub open spec fn sum(self) -> u8 {
        self.0
    }

    pub open spec fn count(self) -> nat {
        self.1 as nat
    }

    /// An empty checksum.
    pub fn new() -> (r: Self)
        ensures
            r.sum() == 0,
            r.count() == 0,
    {
        Checksum(0, 0)
    }

    /// Folds every byte of `window` into the checksum.
    pub fn roll(&mut self, window: &[u8])
        requires
            old(self).count() + window@.len() <= usize::MAX,
        ensures
            final(self).sum() as int == (old(self).sum() as int + byte_sum(window@)) % 256,
            final(self).count() == old(self).count() + window@.len(),
    {
        let ghost start = *self;
        let mut i: usize = 0;
        while i < window.len()
            invariant
                i <= window@.len(),
                start.count() + window@.len() <= usize::MAX,
                self.sum() as int == (start.sum() as int + byte_sum(window@.subrange(0, i as int)))
                    % 256,
                self.count() == start.count() + i,
            decreases window@.len() - i,
        {
            let ghost before = *self;
            self.roll_byte(window[i]);
            proof {
                let pre = window@.subrange(0, i as int);
                let post = window@.subrange(0, i + 1);
                assert(post.drop_last() =~= pre);
                assert(post.last() == window@[i as int]);
                let a = start.sum() as int + byte_sum(pre);
                let b = window@[i as int] as int;
                assert((a % 256 + b) % 256 == (a + b) % 256) by (nonlinear_arith);
            }
            i += 1;
        }
        assert(window@.subrange(0, window@.len() as int) =~= window@);
    }

    /// Folds one byte into the checksum.
    pub fn roll_byte(&mut self, byte: u8)
        requires
            old(self).count() < usize::MAX,
        ensures
            final(self).sum() as int == (old(self).sum() as int + byte as int) % 256,
            final(self).count() == old(self).count() + 1,
    {
        self.0 = self.0.wrapping_add(byte);
        self.1 = self.1 + 1;
    }

    /// Number of bytes folded in so far.
    pub fn window_length(&self) -> (r: usize)
        ensures
            r as nat == self.count(),
    {
        self.1
    }

    /// The checksum value: the sum of all bytes folded in, modulo 256.
    pub fn result(self) -> (r: u8)
        ensures
            r == self.sum(),
    {
        self.0
    }
}

} // verus!
