use hannos::fs::disk::{Disk, BLOCK_SIZE};
use hannos::fs::file::{FileSystem, Inode};

fn formatted() -> (Disk, FileSystem) {
    let mut d = Disk::new(1024);
    FileSystem::format(&mut d);
    let mut fs = FileSystem::new();
    assert!(fs.mount(&d));
    (d, fs)
}

fn put_inode(d: &mut Disk, inumber: usize, size: u64, direct: &[u32], indirect: u32) {
    let mut bytes = vec![0u8; 64];
    bytes[0..8].copy_from_slice(&size.to_le_bytes());
    for (i, p) in direct.iter().enumerate() {
        bytes[8 + 4 * i..12 + 4 * i].copy_from_slice(&p.to_le_bytes());
    }
    bytes[52..56].copy_from_slice(&indirect.to_le_bytes());
    bytes[56] = 1;
    d.write(1 + inumber / 64, (inumber % 64) * 64, &bytes).unwrap();
}

#[test]
fn format_writes_superblock() {
    let (d, _) = formatted();
    let mut sb = [0u8; 32];
    d.read(0, 0, &mut sb).unwrap();
    assert_eq!(u64::from_le_bytes(sb[0..8].try_into().unwrap()), 0xdeadbeef);
    assert_eq!(u64::from_le_bytes(sb[8..16].try_into().unwrap()), 1024);
    assert_eq!(u64::from_le_bytes(sb[16..24].try_into().unwrap()), 103);
    assert_eq!(u64::from_le_bytes(sb[24..32].try_into().unwrap()), 103 * 64);
}

#[test]
fn mount_needs_magic_number() {
    let d = Disk::new(16);
    let mut fs = FileSystem::new();
    assert!(!fs.mount(&d));
}

#[test]
fn create_takes_free_inodes_in_order() {
    let (mut d, fs) = formatted();
    assert_eq!(fs.create(&mut d), Some(0));
    assert_eq!(fs.create(&mut d), Some(1));
    assert_eq!(fs.create(&mut d), Some(2));
    let unmounted = FileSystem::new();
    assert_eq!(unmounted.create(&mut d), None);
}

#[test]
fn read_of_empty_file_fails() {
    let (mut d, fs) = formatted();
    let i = fs.create(&mut d).unwrap();
    let mut buf = [0u8; 4];
    assert_eq!(fs.read(&d, i, 0, &mut buf), Err(()));
}

#[test]
fn read_across_blocks() {
    let (mut d, fs) = formatted();
    put_inode(&mut d, 2, 5000, &[200, 201], 0);
    d.write(200, 0, &vec![b'x'; BLOCK_SIZE]).unwrap();
    d.write(201, 0, &vec![b'y'; 904]).unwrap();
    let mut buf = [0u8; 8];
    assert_eq!(fs.read(&d, 2, 4094, &mut buf), Ok(8));
    assert_eq!(&buf, b"xxyyyyyy");
    let mut buf = [0u8; 8];
    assert_eq!(fs.read(&d, 2, 4998, &mut buf), Ok(2));
    assert_eq!(&buf, b"yy\0\0\0\0\0\0");
    assert_eq!(fs.read(&d, 2, 5000, &mut buf), Err(()));
}

#[test]
fn read_through_indirect_block() {
    let (mut d, fs) = formatted();
    let direct: Vec<u32> = (300..311).collect();
    put_inode(&mut d, 5, 12 * BLOCK_SIZE as u64, &direct, 400);
    d.write(400, 0, &500u32.to_le_bytes()).unwrap();
    d.write(500, 0, b"tail").unwrap();
    d.write(310, BLOCK_SIZE - 2, b"ab").unwrap();
    let mut buf = [0u8; 6];
    assert_eq!(fs.read(&d, 5, 11 * BLOCK_SIZE - 2, &mut buf), Ok(6));
    assert_eq!(&buf, b"abtail");
}

#[test]
fn delete_frees_the_inode() {
    let (mut d, mut fs) = formatted();
    assert_eq!(fs.create(&mut d), Some(0));
    put_inode(&mut d, 1, 10, &[200], 0);
    assert_eq!(fs.create(&mut d), Some(2));
    fs.delete(&mut d, 1);
    assert_eq!(fs.create(&mut d), Some(1));
}

#[test]
fn write_is_not_supported_yet() {
    let (mut d, mut fs) = formatted();
    let i = fs.create(&mut d).unwrap();
    assert_eq!(fs.write(&d, i, 0, b"data"), Ok(0));
    let _ = Inode::new(true);
}
