//! The arena that inlined byte runs live in: an append-only sequence of
//! eight-byte cells, addressed by cell index and read byte by byte.

use vstd::prelude::*;

verus! {

/// The width of one cell, in bytes.
pub const CELL_BYTES: usize = 8;

/// An append-only arena of cells. Its contents are seen as one byte sequence
/// whose length is always a whole number of cells.
pub struct Heap {
    bytes: Vec<u8>,
}

impl View for Heap {
    type V = Seq<u8>;

    closed spec fn view(&self) -> Seq<u8> {
        self.bytes@
    }
}

/// `n` zero bytes.
pub open spec fn zeros(n: nat) -> Seq<u8> {
    Seq::new(n, |i: int| 0u8)
}

impl Heap {
    /// The arena holds whole cells only.
    pub open spec fn wf(&self) -> bool {
        self@.len() % (CELL_BYTES as nat) == 0
    }

    /// The number of cells in the arena.
    pub open spec fn cells(&self) -> nat {
        self@.len() / (CELL_BYTES as nat)
    }

    /// An empty arena.
    pub fn new() -> (r: Heap)
        ensures
            r.wf(),
            r@ == Seq::<u8>::empty(),
    {
        Heap { bytes: Vec::new() }
    }

    /// The number of cells in the arena.
    pub fn len(&self) -> (r: usize)
        ensures
            r == self.cells(),
    {
        self.bytes.len() / CELL_BYTES
    }

    /// The whole arena as bytes; cell `a` starts at byte `a * CELL_BYTES`.
    pub fn as_bytes(&self) -> (r: &[u8])
        ensures
            r@ == self@,
    {
        self.bytes.as_slice()
    }

    /// Appends `n` cells that hold only zero bytes.
    pub(crate) fn push_zeroed_cells(&mut self, n: usize)
        requires
            old(self).wf(),
            old(self)@.len() + n * CELL_BYTES <= usize::MAX,
        ensures
            final(self).wf(),
            final(self)@ == old(self)@ + zeros((n * CELL_BYTES) as nat),
    {
        let total: usize = n * CELL_BYTES;
        let mut i: usize = 0;
        while i < total
            invariant
                i <= total,
                total == n * CELL_BYTES,
                old(self)@.len() + total <= usize::MAX,
                self@ == old(self)@ + zeros(i as nat),
            decreases total - i,
        {
            self.bytes.push(0u8);
            i = i + 1;
            assert(self@ =~= old(self)@ + zeros(i as nat));
        }
    }

    /// Overwrites the byte at `pos`.
    pub(crate) fn write_byte(&mut self, pos: usize, b: u8)
        requires
            pos < old(self)@.len(),
        ensures
            final(self)@ == old(self)@.update(pos as int, b),
    {
        self.bytes.set(pos, b);
    }
}

} // verus!
