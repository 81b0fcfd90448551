use vstd::prelude::*;

verus! {

/// A device that stores blocks of 512 bytes, each addressed by its number.
///
/// An implementation states what it holds through `blocks`; a read hands
/// back the block last written under that number.
pub trait BlockDevice {
    /// The content of the device, block by block. A device says here what
    /// it holds; one that does not says nothing of its content.
    open spec fn blocks(&self) -> Map<usize, Seq<u8>> {
        arbitrary()
    }

    /// Reads block `block_id` into `buf`.
    fn read_block(&self, block_id: usize, buf: &mut [u8; 512])
        ensures
            final(buf)@ == self.blocks()[block_id],
    ;

    /// Writes `buf` to block `block_id`.
    fn write_block(&mut self, block_id: usize, buf: &[u8; 512])
        ensures
            final(self).blocks() == old(self).blocks().insert(block_id, buf@),
    ;
}

} // verus!
