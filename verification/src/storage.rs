use vstd::prelude::*;

verus! {

/// Bytes in one block.
pub const BLOCK_SIZE: usize = 512;

/// Why a block operation was refused.
#[derive(Clone, Copy, Debug, PartialEq, Eq, Structural)]
pub enum StorageError {
    /// The block number is past the end of the device.
    OutOfRange,
    /// The device does not accept writes.
    ReadOnly,
}

/// A device made of fixed-size blocks, numbered from 0.
pub trait BlockDevice {
    /// The contents of the device, block by block.
    spec fn contents(&self) -> Seq<Seq<u8>>;

    /// Number of blocks on the device.
    fn block_count(&self) -> (r: u64)
        ensures
            r == self.contents().len(),
    ;

    /// Copies block `block` into `buffer`; on an error the buffer is left
    /// as it was.
    fn read_block(&self, block: u64, buffer: &mut [u8; BLOCK_SIZE]) -> (r: Result<(), StorageError>)
        ensures
            r is Ok ==> block < self.contents().len() && final(buffer)@ == self.contents()[block as int],
            r is Err ==> final(buffer)@ == old(buffer)@,
    ;

    /// Replaces block `block` with `buffer`; on an error the device is left
    /// as it was.
    fn write_block(&mut self, block: u64, buffer: &[u8; BLOCK_SIZE]) -> (r: Result<(), StorageError>)
        ensures
            r is Ok ==> block < old(self).contents().len() && final(self).contents() == old(self).contents().update(
                block as int,
                buffer@,
            ),
            r is Err ==> final(self).contents() == old(self).contents(),
    ;
}

/// A block device held in memory, `BLOCKS` blocks long, initially zeroed.
pub struct RamDisk<const BLOCKS: usize> {
    blocks: [[u8; BLOCK_SIZE]; BLOCKS],
}

impl<const BLOCKS: usize> RamDisk<BLOCKS> {
    /// The disk has `BLOCKS` blocks.
    pub proof fn lemma_len(&self)
        ensures
            self.contents().len() == BLOCKS,
    {
    }

    /// A zeroed disk.
    pub fn new() -> (r: Self)
        ensures
            r.contents() == Seq::new(BLOCKS as nat, |i: int| Seq::new(BLOCK_SIZE as nat, |j: int| 0u8)),
    {
        let r = RamDisk { blocks: [[0u8; BLOCK_SIZE]; BLOCKS] };
        assert(r.contents() =~= Seq::new(BLOCKS as nat, |i: int| Seq::new(BLOCK_SIZE as nat, |j: int| 0u8))) by {
            assert forall|i: int| 0 <= i < BLOCKS implies r.contents()[i] =~= Seq::new(BLOCK_SIZE as nat, |j: int| 0u8) by {
                assert(r.blocks@[i] == [0u8; BLOCK_SIZE]);
            }
        }
        r
    }
}

impl<const BLOCKS: usize> BlockDevice for RamDisk<BLOCKS> {
    closed spec fn contents(&self) -> Seq<Seq<u8>> {
        Seq::new(BLOCKS as nat, |i: int| self.blocks@[i]@)
    }

    fn block_count(&self) -> (r: u64) {
        BLOCKS as u64
    }

    fn read_block(&self, block: u64, buffer: &mut [u8; BLOCK_SIZE]) -> (r: Result<(), StorageError>)
        ensures
            self.contents().len() == BLOCKS,
            block < BLOCKS ==> r is Ok,
            block >= BLOCKS ==> r == Err::<(), StorageError>(StorageError::OutOfRange),
    {
        if block >= BLOCKS as u64 {
            return Err(StorageError::OutOfRange);
        }
        let index = block as usize;
        *buffer = self.blocks[index];
        Ok(())
    }

    fn write_block(&mut self, block: u64, buffer: &[u8; BLOCK_SIZE]) -> (r: Result<(), StorageError>)
        ensures
            old(self).contents().len() == BLOCKS,
            block < BLOCKS ==> r is Ok,
            block >= BLOCKS ==> r == Err::<(), StorageError>(StorageError::OutOfRange),
    {
        if block >= BLOCKS as u64 {
            return Err(StorageError::OutOfRange);
        }
        let index = block as usize;
        self.blocks[index] = *buffer;
        assert(self.contents() =~= old(self).contents().update(block as int, buffer@));
        Ok(())
    }
}

/// A successful write replaces exactly the written block: reading it back
/// gives the data written, and every other block keeps its contents.
pub proof fn lemma_read_returns_written<D: BlockDevice>(before: D, after: D, block: u64, data: Seq<u8>, other: int)
    requires
        block < before.contents().len(),
        after.contents() == before.contents().update(block as int, data),
        0 <= other < before.contents().len(),
        other != block,
    ensures
        after.contents().len() == before.contents().len(),
        after.contents()[block as int] == data,
        after.contents()[other] == before.contents()[other],
{
}

/// Number of blocks of the disk that boot-time setup probes.
pub const PROBE_BLOCKS: usize = 8;

/// Sets up the block-device layer: makes the probe disk and reports how
/// many blocks it has.
pub fn init() -> (r: u64)
    ensures
        r == PROBE_BLOCKS,
{
    let disk = RamDisk::<PROBE_BLOCKS>::new();
    disk.block_count()
}

} // verus!
