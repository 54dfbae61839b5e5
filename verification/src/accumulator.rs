//! The bit accumulator: a small register that holds the bits which have come
//! in and are not yet enough for a whole output unit.

use vstd::prelude::*;
use vstd::arithmetic::power2::{
    lemma2_to64, lemma_pow2_adds, lemma_pow2_pos, lemma_pow2_strictly_increases, pow2,
};
use crate::bits::{
    high_bits, join_bits, lemma_value_bits_join, lemma_value_bits_len, low_bits, value_bits,
};

verus! {

/// The most bits that an accumulator holds: one fewer than its register has,
/// so that every shift stays in range.
pub const CAPACITY: u32 = 31;

/// A queue of bits in one machine word. Bits come in at the back, in groups,
/// and leave at the front.
pub struct Accumulator {
    stage: u32,
    remaining: u32,
}

impl View for Accumulator {
    type V = Seq<bool>;

    /// The bits that are held, the oldest first.
    closed spec fn view(&self) -> Seq<bool> {
        value_bits(self.stage as nat, self.remaining as nat)
    }
}

impl Accumulator {
    #[verifier::type_invariant]
    spec fn well_formed(&self) -> bool {
        &&& self.remaining <= CAPACITY
        &&& self.stage < pow2(self.remaining as nat)
    }

    /// An accumulator that holds no bits.
    pub fn new() -> (acc: Self)
        ensures
            acc@ == Seq::<bool>::empty(),
    {
        proof {
            lemma2_to64();
        }
        Accumulator { stage: 0, remaining: 0 }
    }

    /// The number of bits held.
    pub fn len(&self) -> (count: u32)
        ensures
            count == self@.len(),
            count <= CAPACITY,
    {
        proof {
            use_type_invariant(self);
            lemma_value_bits_len(self.stage as nat, self.remaining as nat);
        }
        self.remaining
    }

    /// Takes in the `width` bits of `value` behind the bits already held.
    pub fn push(&mut self, value: u32, width: u32)
        requires
            old(self)@.len() + width <= CAPACITY,
            value < pow2(width as nat),
        ensures
            final(self)@ == old(self)@ + value_bits(value as nat, width as nat),
    {
        proof {
            use_type_invariant(&*self);
            lemma_value_bits_len(self.stage as nat, self.remaining as nat);
            lemma_pow2_adds(self.remaining as nat, width as nat);
            lemma_pow2_pos(width as nat);
            lemma_pow2_bound((self.remaining + width) as nat);
            assert(self.stage * pow2(width as nat) + value < pow2(self.remaining as nat) * pow2(
                width as nat,
            )) by (nonlinear_arith)
                requires
                    self.stage < pow2(self.remaining as nat),
                    value < pow2(width as nat),
            ;
            lemma_value_bits_join(
                self.stage as nat,
                self.remaining as nat,
                value as nat,
                width as nat,
            );
        }
        let stage = join_bits(self.stage, value, width);
        *self = Accumulator { stage, remaining: self.remaining + width };
    }

    /// Gives out the `width` oldest bits as a number.
    pub fn pop(&mut self, width: u32) -> (value: u32)
        requires
            width <= old(self)@.len(),
        ensures
            value < pow2(width as nat),
            old(self)@ == value_bits(value as nat, width as nat) + final(self)@,
            final(self)@.len() == old(self)@.len() - width,
    {
        proof {
            use_type_invariant(&*self);
            lemma_value_bits_len(self.stage as nat, self.remaining as nat);
        }
        let keep = self.remaining - width;
        let value = high_bits(self.stage, self.remaining, width);
        let stage = low_bits(self.stage, keep);
        proof {
            lemma_value_bits_len(stage as nat, keep as nat);
        }
        *self = Accumulator { stage, remaining: keep };
        value
    }
}

/// A power of two with an exponent of at most `CAPACITY` fits the register.
proof fn lemma_pow2_bound(exponent: nat)
    requires
        exponent <= CAPACITY,
    ensures
        pow2(exponent) <= 0x8000_0000,
{
    lemma2_to64();
    if exponent < 31 {
        lemma_pow2_strictly_increases(exponent, 31);
    }
}

} // verus!
