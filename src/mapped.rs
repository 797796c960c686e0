//! The memory-mapped byte region that backs a page.
use vstd::prelude::*;

use memmap2::MmapMut;

verus! {

#[verifier::external_type_specification]
#[verifier::external_body]
pub struct ExMmapMut(MmapMut);

/// The bytes that a mapping currently holds.
pub uninterp spec fn mapped_bytes(m: MmapMut) -> Seq<u8>;

/// Relies on memmap2's `AsRef<[u8]> for MmapMut`: the slice is the whole
/// mapped region, in place.
#[verifier::external_body]
pub(crate) fn mapped(m: &MmapMut) -> (r: &[u8])
    ensures
        r@ == mapped_bytes(*m),
{
    m.as_ref()
}

/// Relies on memmap2's `AsMut<[u8]> for MmapMut`: writing through the slice
/// changes that one byte of the region and nothing else.
#[verifier::external_body]
pub(crate) fn set_mapped_byte(m: &mut MmapMut, i: usize, b: u8)
    requires
        i < mapped_bytes(*old(m)).len(),
    ensures
        mapped_bytes(*final(m)) == mapped_bytes(*old(m)).update(i as int, b),
{
    m.as_mut()[i] = b;
}

} // verus!
