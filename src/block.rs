use vstd::prelude::*;

verus! {

/// The largest order of a buddy block: order `k` spans `2^k` pages.
pub const MAX_ORDER: usize = 11;

/// The state of one node of a buddy tree, stored in one byte.
///
/// The byte `0` is `Used`, and the byte `n + 1` is `LargestFreeOrder(n)`, so a
/// zero-filled arena of nodes reads as "every node used".
#[derive(Clone, Copy, Debug, PartialEq, Eq, Structural)]
pub enum Block {
    Used,
    LargestFreeOrder(u8),
}

/// What `parent_state` makes of two children whose level is `child_order`,
/// over their byte encodings: two wholly free children make a free parent one
/// order higher, otherwise the parent carries the larger of the two.
pub open spec fn combine(l: int, r: int, child_order: int) -> int {
    if l == child_order + 1 && r == child_order + 1 {
        child_order + 2
    } else if l >= r {
        l
    } else {
        r
    }
}

impl Block {
    /// The byte that stores this node.
    pub open spec fn byte(self) -> int {
        match self {
            Block::Used => 0,
            Block::LargestFreeOrder(n) => n + 1,
        }
    }

    /// A node is well formed when its byte fits in a `u8`.
    pub open spec fn wf(self) -> bool {
        match self {
            Block::Used => true,
            Block::LargestFreeOrder(n) => n < 255,
        }
    }

    pub fn from_order(largest_free_order: u8) -> (r: Block)
        ensures
            r == Block::LargestFreeOrder(largest_free_order),
    {
        Block::LargestFreeOrder(largest_free_order)
    }

    /// Decodes a stored byte.
    pub fn from_byte(b: u8) -> (r: Block)
        ensures
            r.wf(),
            r.byte() == b as int,
            b == 0 <==> r == Block::Used,
    {
        if b == 0 {
            Block::Used
        } else {
            Block::LargestFreeOrder(b - 1)
        }
    }

    /// Encodes this node as its stored byte.
    pub fn to_byte(self) -> (r: u8)
        requires
            self.wf(),
        ensures
            r as int == self.byte(),
    {
        match self {
            Block::Used => 0,
            Block::LargestFreeOrder(n) => n + 1,
        }
    }

    /// Whether a free block of `order` can be found under this node.
    pub fn larger_than(self, order: u8) -> (r: bool)
        ensures
            r == (self.byte() > order as int),
    {
        match self {
            Block::LargestFreeOrder(o) => o >= order,
            Block::Used => false,
        }
    }

    /// The state of a node whose children, at level `child_order`, are
    /// `left` and `right`.
    pub fn parent_state(left: Block, right: Block, child_order: u8) -> (r: Block)
        requires
            left.wf(),
            right.wf(),
            child_order < 254,
        ensures
            r.wf(),
            r.byte() == combine(left.byte(), right.byte(), child_order as int),
    {
        match (left, right) {
            (Block::LargestFreeOrder(l), Block::LargestFreeOrder(r)) => {
                if l == child_order && r == child_order {
                    Block::LargestFreeOrder(child_order + 1)
                } else if l >= r {
                    Block::LargestFreeOrder(l)
                } else {
                    Block::LargestFreeOrder(r)
                }
            },
            (Block::LargestFreeOrder(x), Block::Used) => Block::LargestFreeOrder(x),
            (Block::Used, Block::LargestFreeOrder(x)) => Block::LargestFreeOrder(x),
            (Block::Used, Block::Used) => Block::Used,
        }
    }
}

/// A freshly zero-filled node arena reads as every node `Used`: no loop over
/// the nodes is needed to mark them.
pub proof fn lemma_zeroed_arena_is_used(arena: Seq<u8>)
    requires
        forall|i: int| 0 <= i < arena.len() ==> arena[i] == 0u8,
    ensures
        forall|i: int|
            0 <= i < arena.len() ==> (#[trigger] decode(arena[i])) == Block::Used,
{
}

/// The node that a stored byte encodes.
pub open spec fn decode(b: u8) -> Block {
    if b == 0 {
        Block::Used
    } else {
        Block::LargestFreeOrder((b - 1) as u8)
    }
}

} // verus!
