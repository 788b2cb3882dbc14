//! How blocks of memory are laid out behind their headers.
use vstd::prelude::*;

verus! {

/// Blocks start at multiples of this.
pub const ALIGN: usize = 16;

/// What is kept in front of a block.
#[derive(Debug, Clone, Copy, PartialEq, Eq, Structural)]
pub struct Header {
    /// The size of the whole allocation.
    pub layout_size: usize,
    /// How far the block is from the start of the allocation.
    pub offset: usize,
}

/// The size of an allocation with room for a header, for a block and for its alignment.
pub open spec fn size_with_header(size: int, header_size: int) -> int {
    size + header_size + (ALIGN - 1)
}

/// The size of the allocation for a block; nothing for an empty block or one that is too large.
pub fn layout_size(size: usize, header_size: usize) -> (r: Option<usize>)
    ensures
        r == (if size == 0 || size_with_header(size as int, header_size as int) > usize::MAX {
            None
        } else {
            Some(size_with_header(size as int, header_size as int) as usize)
        }),
{
    if size == 0 {
        return None;
    }
    match size.checked_add(header_size) {
        Some(total) => total.checked_add(ALIGN - 1),
        None => None,
    }
}

/// The size of the block in an allocation.
pub open spec fn block_size(layout_size: int, header_size: int) -> int {
    layout_size - header_size - (ALIGN - 1)
}

impl Header {
    /// The size of the block that was asked for.
    pub fn requested_size(&self, header_size: usize) -> (r: usize)
        requires
            size_with_header(0, header_size as int) <= self.layout_size,
        ensures
            r == block_size(self.layout_size as int, header_size as int),
    {
        self.layout_size - header_size - (ALIGN - 1)
    }
}

/// The address of a block in an allocation: the first aligned one with room for the header.
pub open spec fn block_address(base: int, header_size: int) -> int {
    let first = base + header_size + (ALIGN - 1);
    first - first % (ALIGN as int)
}

/// Where the block of an allocation starts, and its header.
pub fn place_block(base: usize, layout_size: usize, header_size: usize) -> (r: (usize, Header))
    requires
        base + size_with_header(0, header_size as int) <= usize::MAX,
    ensures
        r.0 == block_address(base as int, header_size as int),
        r.1.layout_size == layout_size,
        r.1.offset == r.0 - base,
{
    let first: usize = base + header_size + (ALIGN - 1);
    let address: usize = first - first % ALIGN;
    (address, Header { layout_size, offset: address - base })
}

/// The number of bytes of `count` items; nothing when there are too many.
pub fn array_size(count: usize, size: usize) -> (r: Option<usize>)
    ensures
        r == (if count * size > usize::MAX {
            None
        } else {
            Some((count * size) as usize)
        }),
{
    count.checked_mul(size)
}

/// What a change of the size of a block comes down to.
#[derive(Debug, Clone, Copy, PartialEq, Eq, Structural)]
pub enum Change {
    /// There is no block yet: allocate one.
    Allocate,
    /// Nothing is left of the block: free it.
    Free,
    /// Allocate another block, copy this many bytes and free the old one.
    Replace { copied: usize },
}

/// What a change of the size of a block to `size` comes down to; `held` is the size of the block,
/// where there is one.
pub fn plan_change(held: Option<usize>, size: usize) -> (r: Change)
    ensures
        r == (match held {
            None => Change::Allocate,
            Some(old) => if size == 0 {
                Change::Free
            } else if old < size {
                Change::Replace { copied: old }
            } else {
                Change::Replace { copied: size }
            },
        }),
{
    match held {
        None => Change::Allocate,
        Some(old) => if size == 0 {
            Change::Free
        } else if old < size {
            Change::Replace { copied: old }
        } else {
            Change::Replace { copied: size }
        },
    }
}

/// A block is aligned, has room for its header in front of it, and ends inside its allocation.
pub proof fn block_fits(base: int, size: int, header_size: int)
    requires
        0 <= base,
        0 <= size,
        0 <= header_size,
    ensures
        block_address(base, header_size) % (ALIGN as int) == 0,
        base + header_size <= block_address(base, header_size),
        block_address(base, header_size) + size <= base + size_with_header(size, header_size),
{
    let first = base + header_size + (ALIGN - 1);
    assert((first - first % 16) % 16 == 0) by (nonlinear_arith);
}

/// The size that was asked for is read back from the size of the allocation.
pub proof fn size_is_read_back(size: int, header_size: int)
    ensures
        block_size(size_with_header(size, header_size), header_size) == size,
{
}

} // verus!
