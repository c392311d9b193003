//! Memory for aggregate states, from a `bumpalo` arena and as plain addresses.

use bumpalo::Bump;
use std::alloc::Layout;
use vstd::layout::valid_layout;
use vstd::prelude::*;

verus! {

#[verifier::external_type_specification]
#[verifier::external_body]
pub struct ExBump<const MIN_ALIGN: usize>(bumpalo::Bump<MIN_ALIGN>);

/// The regions of memory that an arena has handed out, in the order of the allocations: address and
/// size.
pub uninterp spec fn regions(arena: Bump) -> Seq<(int, int)>;

/// Two regions share no byte.
pub open spec fn disjoint(a: (int, int), b: (int, int)) -> bool {
    a.0 + a.1 <= b.0 || b.0 + b.1 <= a.0
}

/// `Bump::new`: an arena that has handed out nothing.
#[verifier::external_body]
pub(crate) fn arena_new() -> (r: Bump)
    ensures
        regions(r) == Seq::<(int, int)>::empty(),
{
    Bump::new()
}

/// `Bump::alloc_layout`: the address of a fresh region with the given size and alignment, which
/// lies within the address space and shares no byte with a region handed out before. The call does
/// not return if no such memory can be had. Nothing is stated of where the region lies.
#[verifier::external_body]
pub(crate) fn alloc_layout(arena: &mut Bump, size: usize, align: usize) -> (r: usize)
    requires
        valid_layout(size, align),
    ensures
        r > 0,
        r % align == 0,
        r + size <= usize::MAX,
        regions(*final(arena)) == regions(*old(arena)).push((r as int, size as int)),
        forall|i: int|
            0 <= i < regions(*old(arena)).len() ==> disjoint(
                #[trigger] regions(*old(arena))[i],
                (r as int, size as int),
            ),
{
    arena.alloc_layout(Layout::from_size_align(size, align).unwrap()).as_ptr() as usize
}

/// The address of an aggregate state.
#[derive(Clone, Copy, Debug, PartialEq, Eq, Structural)]
pub struct StateAddr {
    pub addr: usize,
}

impl StateAddr {
    /// The address `offset` bytes further on.
    pub fn next(&self, offset: usize) -> (r: StateAddr)
        requires
            self.addr + offset <= usize::MAX,
        ensures
            r.addr == self.addr + offset,
    {
        StateAddr { addr: self.addr + offset }
    }
}

} // verus!
