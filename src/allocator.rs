use vstd::prelude::*;

pub mod buddy;
pub mod bump;
pub mod fixed;

verus! {

/// An address handed out by an allocator, as a mathematical integer.
pub open spec fn addr_of(r: Option<usize>) -> Option<int> {
    match r {
        Some(p) => Some(p as int),
        None => None,
    }
}

/// The smallest multiple of `align` that is at least `addr`.
pub open spec fn align_up_spec(addr: int, align: int) -> int
    recommends
        align > 0,
{
    if addr % align == 0 {
        addr
    } else {
        addr + (align - addr % align)
    }
}

/// Rounds `addr` up to a multiple of `align`; `None` when the result does not fit in a `usize`.
pub fn align_up(addr: usize, align: usize) -> (r: Option<usize>)
    requires
        align > 0,
    ensures
        align_up_spec(addr as int, align as int) <= usize::MAX ==> r == Some(
            align_up_spec(addr as int, align as int) as usize,
        ),
        align_up_spec(addr as int, align as int) > usize::MAX ==> r is None,
{
    let rem = addr % align;
    if rem == 0 {
        Some(addr)
    } else {
        addr.checked_add(align - rem)
    }
}

/// What `align_up_spec` gives: an aligned address, not below the input, less than one step above it.
pub proof fn lemma_align_up(addr: int, align: int)
    requires
        addr >= 0,
        align > 0,
    ensures
        align_up_spec(addr, align) % align == 0,
        addr <= align_up_spec(addr, align) < addr + align,
{
    let r = addr % align;
    if r != 0 {
        assert((addr + (align - r)) % align == 0) by (nonlinear_arith)
            requires
                r == addr % align,
                align > 0,
        {
            assert(addr == align * (addr / align) + r);
            assert(addr + (align - r) == align * (addr / align + 1));
        }
    }
}

} // verus!
