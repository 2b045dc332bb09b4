use hannos::fs::disk::{self, BlockDevice, Disk, DiskError, BLOCK_SIZE};

#[test]
fn disk_starts_zeroed() {
    let d = Disk::new(4);
    assert_eq!(d.size(), 4);
    assert_eq!(disk::size(&d), 4);
    let mut buf = [1u8; 16];
    assert_eq!(d.read(3, 100, &mut buf), Ok(()));
    assert_eq!(buf, [0u8; 16]);
}

#[test]
fn disk_write_then_read() {
    let mut d = Disk::new(2);
    assert_eq!(disk::write(&mut d, 1, 10, &[1, 2, 3]), Ok(()));
    let mut buf = [0u8; 5];
    assert_eq!(disk::read(&d, 1, 9, &mut buf), Ok(()));
    assert_eq!(buf, [0, 1, 2, 3, 0]);
    let mut first = [9u8; 3];
    assert_eq!(disk::read(&d, 0, 10, &mut first), Ok(()));
    assert_eq!(first, [0, 0, 0]);
}

#[test]
fn disk_errors() {
    let mut d = Disk::new(2);
    let mut buf = [7u8; 4];
    assert_eq!(d.read(2, 0, &mut buf), Err(DiskError::BlockOutOfBounds(2)));
    assert_eq!(buf, [7u8; 4]);
    assert_eq!(d.write(5, 0, &[1]), Err(DiskError::BlockOutOfBounds(5)));
    assert_eq!(
        d.write(0, BLOCK_SIZE - 2, &[1, 2, 3]),
        Err(DiskError::BufferTooLarge(3, BLOCK_SIZE - 2))
    );
    assert_eq!(d.write(0, BLOCK_SIZE - 3, &[1, 2, 3]), Ok(()));
    assert_eq!(d.write(0, usize::MAX, &[1]), Err(DiskError::BufferTooLarge(1, usize::MAX)));
}

#[test]
fn block_device_reads_from_block_start() {
    let mut d = Disk::new(3);
    BlockDevice::write(&mut d, 2, &[5, 6, 7]);
    let mut buf = [0u8; 4];
    BlockDevice::read(&d, 2, &mut buf);
    assert_eq!(buf, [5, 6, 7, 0]);
}
