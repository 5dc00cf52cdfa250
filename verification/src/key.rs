//! Key extraction: the pure mapping from an attribute value to the key the
//! index buckets it under.

use vstd::prelude::*;

verus! {

/// A value of the tracked attribute, together with the pure extraction of
/// the key the index stores for it.
///
/// Extraction is deterministic by contract: `key` always returns
/// `key_spec`, so two calls on equal values yield equal keys, which is what
/// lets the forward and reverse lookups agree.
pub trait IndexKey: Sized {
    /// The key this value is bucketed under.
    spec fn key_spec(self) -> u64;

    /// Extracts the key; pure and side-effect free.
    fn key(&self) -> (k: u64)
        ensures
            k == self.key_spec(),
    ;
}

/// An attribute value that is directly usable as its own key.
impl IndexKey for u64 {
    open spec fn key_spec(self) -> u64 {
        self
    }

    fn key(&self) -> u64 {
        *self
    }
}

/// A composite attribute value of two named fields; its key packs both
/// fields into one `u64`, the `x` field in the high half and the `y` field
/// in the low half.
#[derive(Clone, Copy, Debug, PartialEq, Eq, Structural)]
pub struct PlanarValue {
    pub x: u32,
    pub y: u32,
}

impl IndexKey for PlanarValue {
    open spec fn key_spec(self) -> u64 {
        ((self.x as u64) * 0x1_0000_0000 + (self.y as u64)) as u64
    }

    fn key(&self) -> u64 {
        proof {
            assert((self.x as u64) * 0x1_0000_0000 <= 0xFFFF_FFFF * 0x1_0000_0000);
        }
        (self.x as u64) * 0x1_0000_0000 + (self.y as u64)
    }
}

/// Law: planar key extraction is injective. Distinct attribute values get
/// distinct keys, so the buckets of two different values never collide.
pub proof fn lemma_planar_key_injective(a: PlanarValue, b: PlanarValue)
    requires
        a.key_spec() == b.key_spec(),
    ensures
        a == b,
{
    let va = (a.x as int) * 0x1_0000_0000 + (a.y as int);
    let vb = (b.x as int) * 0x1_0000_0000 + (b.y as int);
    assert((a.x as int) * 0x1_0000_0000 <= 0xFFFF_FFFF * 0x1_0000_0000);
    assert((b.x as int) * 0x1_0000_0000 <= 0xFFFF_FFFF * 0x1_0000_0000);
    assert(va == vb);
    assert(a.x == b.x && a.y == b.y) by (nonlinear_arith)
        requires
            (a.x as int) * 0x1_0000_0000 + (a.y as int) == (b.x as int) * 0x1_0000_0000 + (
            b.y as int),
            a.y < 0x1_0000_0000,
            b.y < 0x1_0000_0000,
    ;
}

} // verus!
