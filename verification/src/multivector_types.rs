//! Metadata derived from a multivector: coefficient bounds and the mask of
//! active blades. Floating-point fields are carried as `f64` bit patterns.
use vstd::prelude::*;

verus! {

/// Blade `blade` is set in `mask` (blades beyond 31 never are).
pub open spec fn blade_bit(mask: u32, blade: usize) -> bool {
    blade < 32 && (mask >> (blade as u32)) & 1u32 == 1u32
}

/// Derived scalar metadata of a multivector.
#[derive(Debug, Clone, Copy, PartialEq)]
pub struct DerivedMetadata {
    /// Bit pattern of the maximum absolute coefficient magnitude.
    pub max_abs_coeff_bits: u64,
    /// Bit pattern of ⟨A·Ã⟩₀, the Clifford norm squared.
    pub clifford_norm_sq_bits: u64,
    /// Bit `i` set when blade `i` is active.
    pub active_mask: u32,
}

impl DerivedMetadata {
    /// Whether blade `blade` is active.
    pub fn is_active(&self, blade: usize) -> (b: bool)
        ensures
            b == blade_bit(self.active_mask, blade),
    {
        blade < 32 && ((self.active_mask >> (blade as u32)) & 1u32) == 1u32
    }

    /// Metadata from computed fields.
    pub fn new(active_mask: u32, max_abs_coeff_bits: u64, clifford_norm_sq_bits: u64) -> (m: Self)
        ensures
            m.active_mask == active_mask,
            m.max_abs_coeff_bits == max_abs_coeff_bits,
            m.clifford_norm_sq_bits == clifford_norm_sq_bits,
    {
        DerivedMetadata { max_abs_coeff_bits, clifford_norm_sq_bits, active_mask }
    }

    /// Marks blade `blade` active; blades beyond 31 are ignored.
    pub fn set_active(&mut self, blade: usize)
        ensures
            final(self).active_mask == if blade < 32 {
                old(self).active_mask | (1u32 << (blade as u32))
            } else {
                old(self).active_mask
            },
            final(self).max_abs_coeff_bits == old(self).max_abs_coeff_bits,
            final(self).clifford_norm_sq_bits == old(self).clifford_norm_sq_bits,
            blade < 32 ==> blade_bit(final(self).active_mask, blade),
            forall|other: usize| other != blade ==> blade_bit(final(self).active_mask, other) == blade_bit(
                old(self).active_mask,
                other,
            ),
    {
        if blade < 32 {
            self.set_active_unchecked(blade);
        }
    }

    /// Marks blade `blade` active; the blade must be below 32.
    pub fn set_active_unchecked(&mut self, blade: usize)
        requires
            blade < 32,
        ensures
            final(self).active_mask == old(self).active_mask | (1u32 << (blade as u32)),
            final(self).max_abs_coeff_bits == old(self).max_abs_coeff_bits,
            final(self).clifford_norm_sq_bits == old(self).clifford_norm_sq_bits,
            blade_bit(final(self).active_mask, blade),
            forall|other: usize| other != blade ==> blade_bit(final(self).active_mask, other) == blade_bit(
                old(self).active_mask,
                other,
            ),
    {
        let m0 = self.active_mask;
        let b = blade as u32;
        let m1 = m0 | (1u32 << b);
        proof {
            assert((m1 >> b) & 1u32 == 1u32) by (bit_vector)
                requires
                    m1 == m0 | (1u32 << b),
                    b < 32,
            ;
            assert forall|other: usize| other != blade implies blade_bit(m1, other) == blade_bit(m0, other) by {
                if other < 32 {
                    let o = other as u32;
                    assert(o != b);
                    assert((m1 >> o) & 1u32 == (m0 >> o) & 1u32) by (bit_vector)
                        requires
                            m1 == m0 | (1u32 << b),
                            b < 32,
                            o < 32,
                            o != b,
                    ;
                }
            }
        }
        self.active_mask = m1;
    }
}

} // verus!
