use orbit::storage::{init, BlockDevice, RamDisk, StorageError, BLOCK_SIZE};

#[test]
fn new_disk_is_zeroed() {
    let disk = RamDisk::<3>::new();
    assert_eq!(disk.block_count(), 3);
    let mut buffer = [7u8; BLOCK_SIZE];
    assert_eq!(disk.read_block(2, &mut buffer), Ok(()));
    assert!(buffer.iter().all(|&b| b == 0));
}

#[test]
fn read_returns_what_was_written() {
    let mut disk = RamDisk::<4>::new();
    let mut data = [0u8; BLOCK_SIZE];
    for (i, b) in data.iter_mut().enumerate() {
        *b = (i % 251) as u8;
    }
    assert_eq!(disk.write_block(1, &data), Ok(()));
    let mut back = [0u8; BLOCK_SIZE];
    assert_eq!(disk.read_block(1, &mut back), Ok(()));
    assert_eq!(back, data);
    assert_eq!(disk.read_block(0, &mut back), Ok(()));
    assert_eq!(back, [0u8; BLOCK_SIZE]);
}

#[test]
fn out_of_range_blocks_are_refused() {
    let mut disk = RamDisk::<2>::new();
    let data = [9u8; BLOCK_SIZE];
    assert_eq!(disk.write_block(2, &data), Err(StorageError::OutOfRange));
    assert_eq!(disk.write_block(u64::MAX, &data), Err(StorageError::OutOfRange));
    let mut buffer = [5u8; BLOCK_SIZE];
    assert_eq!(disk.read_block(9, &mut buffer), Err(StorageError::OutOfRange));
    assert_eq!(buffer, [5u8; BLOCK_SIZE]);
    for block in 0..2 {
        assert_eq!(disk.read_block(block, &mut buffer), Ok(()));
        assert_eq!(buffer, [0u8; BLOCK_SIZE]);
    }
}

#[test]
fn init_probes_an_eight_block_disk() {
    assert_eq!(init(), 8);
}
