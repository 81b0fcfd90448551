use sv39_kernel::easy_fs::bitmap::Bitmap;
use sv39_kernel::easy_fs::block_cache::BlockCacheManager;
use sv39_kernel::easy_fs::block_dev::BlockDevice;
use sv39_kernel::easy_fs::efs::EasyFileSystem;
use sv39_kernel::easy_fs::layout::{DirEntry, DiskInode, SuperBlock, EFS_MAGIC};
use sv39_kernel::fs::inode::{open_file, OpenFlags, CREATE, RDONLY, RDWR, TRUNC, WRONLY};

struct RamDisk {
    blocks: Vec<[u8; 512]>,
    writes: usize,
}

impl RamDisk {
    fn new(n: usize) -> Self {
        RamDisk { blocks: vec![[0xa5u8; 512]; n], writes: 0 }
    }
}

impl BlockDevice for RamDisk {
    fn read_block(&self, block_id: usize, buf: &mut [u8; 512]) {
        *buf = self.blocks[block_id];
    }

    fn write_block(&mut self, block_id: usize, buf: &[u8; 512]) {
        self.blocks[block_id] = *buf;
        self.writes += 1;
    }
}

fn fresh() -> EasyFileSystem<RamDisk> {
    EasyFileSystem::create(RamDisk::new(4096), 4096, 1)
}

fn pattern(n: usize) -> Vec<u8> {
    (0..n).map(|i| (i * 7 % 253) as u8).collect()
}

#[test]
fn it_works() {
    assert_eq!(2 + 2, 4);
}

#[test]
fn cache_reads_through_and_writes_back_on_eviction() {
    let mut disk = RamDisk::new(64);
    let mut cache = BlockCacheManager::new();
    cache.write_u32(&mut disk, 3, 8, 0xdead_beef);
    assert_eq!(disk.writes, 0);
    assert_eq!(cache.read_u32(&mut disk, 3, 8), 0xdead_beef);
    for id in 10..26 {
        let _ = cache.read_u8(&mut disk, id, 0);
    }
    assert_eq!(disk.writes, 1);
    assert_eq!(&disk.blocks[3][8..12], &[0xef, 0xbe, 0xad, 0xde]);
    assert_eq!(cache.len(), 16);
}

#[test]
fn cache_gives_one_entry_for_one_block() {
    let mut disk = RamDisk::new(64);
    let mut cache = BlockCacheManager::new();
    let first = cache.get_block_cache(5, &mut disk);
    let again = cache.get_block_cache(5, &mut disk);
    assert_eq!(first, again);
    assert_eq!(cache.len(), 1);
    assert_eq!(cache.find(5), Some(first));
    assert_eq!(cache.find(6), None);
}

#[test]
fn cache_keeps_held_blocks_and_evicts_the_oldest_free_one() {
    let mut disk = RamDisk::new(64);
    let mut cache = BlockCacheManager::new();
    for id in 0..16 {
        cache.write_u32(&mut disk, id, 0, id as u32);
    }
    cache.hold(0);
    let _ = cache.read_u8(&mut disk, 40, 0);
    assert_eq!(cache.len(), 16);
    assert!(cache.find(0).is_some());
    assert!(cache.find(1).is_none());
    assert_eq!(disk.writes, 1);
    assert_eq!(&disk.blocks[1][0..4], &[1, 0, 0, 0]);
    assert_eq!(disk.blocks[0][0], 0xa5);
    cache.release(0);
    cache.sync_all(&mut disk);
    assert_eq!(&disk.blocks[0][0..4], &[0, 0, 0, 0]);
    assert_eq!(&disk.blocks[15][0..4], &[15, 0, 0, 0]);
}

#[test]
fn bitmap_hands_out_the_lowest_free_bit() {
    let mut disk = RamDisk::new(8);
    disk.blocks[1] = [0u8; 512];
    disk.blocks[2] = [0u8; 512];
    let mut cache = BlockCacheManager::new();
    let bitmap = Bitmap::new(1, 2);
    assert_eq!(bitmap.maximum(), 8192);
    assert_eq!(bitmap.allocate(&mut cache, &mut disk), Some(0));
    assert_eq!(bitmap.allocate(&mut cache, &mut disk), Some(1));
    assert_eq!(bitmap.allocate(&mut cache, &mut disk), Some(2));
    bitmap.dealloc(&mut cache, &mut disk, 1);
    assert_eq!(bitmap.allocate(&mut cache, &mut disk), Some(1));
    assert_eq!(bitmap.allocate(&mut cache, &mut disk), Some(3));
    cache.sync_all(&mut disk);
    assert_eq!(disk.blocks[1][0], 0x0f);
    assert_eq!(Bitmap::decomposition(4096 + 64 * 3 + 5), (1, 3, 5));
}

#[test]
fn bitmap_runs_out_when_every_bit_is_set() {
    let mut disk = RamDisk::new(4);
    disk.blocks[1] = [0xffu8; 512];
    let mut cache = BlockCacheManager::new();
    let bitmap = Bitmap::new(1, 1);
    assert_eq!(bitmap.allocate(&mut cache, &mut disk), None);
    disk.blocks[2] = [0xffu8; 512];
    disk.blocks[2][511] = 0x7f;
    let last = Bitmap::new(2, 1);
    assert_eq!(last.allocate(&mut cache, &mut disk), Some(4095));
    assert_eq!(last.allocate(&mut cache, &mut disk), None);
}

#[test]
fn format_makes_root_directory() {
    let mut efs = fresh();
    let root = EasyFileSystem::root_inode(&efs);
    assert_eq!(root.block_id, 2);
    assert_eq!(root.block_offset, 0);
    assert!(root.ls(&mut efs).is_empty());
    assert_eq!(efs.inode_area_start_block, 2);
    assert_eq!(efs.data_area_start_block, 1027);
    assert_eq!(efs.get_disk_inode_pos(0), (2, 0));
    efs.block_cache.sync_all(&mut efs.block_device);
    let mut cache = BlockCacheManager::new();
    let block = SuperBlock::load(&mut cache, &mut efs.block_device);
    assert!(block.is_valid());
    assert_eq!(block.magic, EFS_MAGIC);
    assert_eq!(block.total_blocks, 4096);
    assert_eq!(block.inode_bitmap_blocks, 1);
    assert_eq!(block.inode_area_blocks, 1024);
    assert_eq!(block.data_bitmap_blocks, 1);
    assert_eq!(block.data_area_blocks, 3069);
}

#[test]
fn unformatted_device_has_no_valid_super_block() {
    let mut disk = RamDisk::new(16);
    let mut cache = BlockCacheManager::new();
    assert!(!SuperBlock::load(&mut cache, &mut disk).is_valid());
    disk.blocks[0] = [0u8; 512];
    let mut cache = BlockCacheManager::new();
    assert!(!SuperBlock::load(&mut cache, &mut disk).is_valid());
}

#[test]
fn created_files_are_listed_and_found() {
    let mut efs = fresh();
    let root = EasyFileSystem::root_inode(&efs);
    let a = root.create(b"alpha", &mut efs).unwrap();
    let b = root.create(b"beta", &mut efs).unwrap();
    assert!(root.create(b"alpha", &mut efs).is_none());
    assert_eq!(root.ls(&mut efs), vec![b"alpha".to_vec(), b"beta".to_vec()]);
    assert_eq!(root.find(b"alpha", &mut efs), Some(a));
    assert_eq!(root.find(b"beta", &mut efs), Some(b));
    assert_eq!(root.find(b"gamma", &mut efs), None);
    assert_ne!(a, b);
}

#[test]
fn written_bytes_are_read_back() {
    let mut efs = fresh();
    let root = EasyFileSystem::root_inode(&efs);
    let file = root.create(b"notes", &mut efs).unwrap();
    assert_eq!(file.write_at(0, b"hello, world", &mut efs), 12);
    let mut buf = [0u8; 32];
    assert_eq!(file.read_at(0, &mut buf, &mut efs), 12);
    assert_eq!(&buf[..12], b"hello, world");
    assert_eq!(file.read_at(7, &mut buf[..3], &mut efs), 3);
    assert_eq!(&buf[..3], b"wor");
    assert_eq!(file.read_at(12, &mut buf, &mut efs), 0);
    assert_eq!(file.write_at(7, b"there!!", &mut efs), 7);
    assert_eq!(file.read_at(0, &mut buf, &mut efs), 14);
    assert_eq!(&buf[..14], b"hello, there!!");
}

#[test]
fn file_of_forty_blocks_uses_the_indirect_block() {
    let mut efs = fresh();
    let root = EasyFileSystem::root_inode(&efs);
    let file = root.create(b"big", &mut efs).unwrap();
    let data = pattern(40 * 512);
    assert_eq!(file.write_at(0, &data, &mut efs), data.len());
    let mut back = vec![0u8; data.len() + 100];
    assert_eq!(file.read_at(0, &mut back, &mut efs), data.len());
    assert_eq!(&back[..data.len()], &data[..]);
    let mut tail = [0u8; 600];
    assert_eq!(file.read_at(39 * 512 + 100, &mut tail, &mut efs), 412);
    assert_eq!(&tail[..412], &data[39 * 512 + 100..]);
    let next = efs.alloc_data();
    assert_eq!(next as usize, 1027 + 1 + 41);
}

#[test]
fn file_that_reaches_the_second_indirect_block() {
    let mut efs = fresh();
    let root = EasyFileSystem::root_inode(&efs);
    let file = root.create(b"huge", &mut efs).unwrap();
    let data = pattern(160 * 512 + 17);
    assert_eq!(file.write_at(0, &data, &mut efs), data.len());
    let mut back = vec![0u8; data.len()];
    assert_eq!(file.read_at(0, &mut back, &mut efs), data.len());
    assert_eq!(back, data);
    file.clear(&mut efs);
    assert_eq!(file.read_at(0, &mut back, &mut efs), 0);
    let other = root.create(b"next", &mut efs).unwrap();
    assert_eq!(other.write_at(0, b"x", &mut efs), 1);
    assert_eq!(root.ls(&mut efs), vec![b"huge".to_vec(), b"next".to_vec()]);
}

#[test]
fn cleared_file_is_empty_and_its_blocks_are_free_again() {
    let mut efs = fresh();
    let root = EasyFileSystem::root_inode(&efs);
    let file = root.create(b"temp", &mut efs).unwrap();
    let data = pattern(3 * 512);
    file.write_at(0, &data, &mut efs);
    let before = efs.alloc_data();
    efs.dealloc_data(before);
    file.clear(&mut efs);
    let mut buf = [0u8; 8];
    assert_eq!(file.read_at(0, &mut buf, &mut efs), 0);
    let after = efs.alloc_data();
    assert!(after < before);
}

#[test]
fn file_system_is_found_again_after_sync() {
    let mut efs = fresh();
    let root = EasyFileSystem::root_inode(&efs);
    let file = root.create(b"kept", &mut efs).unwrap();
    file.write_at(0, b"persistent", &mut efs);
    efs.block_cache.sync_all(&mut efs.block_device);
    let disk = RamDisk { blocks: efs.block_device.blocks.clone(), writes: 0 };
    let mut again = EasyFileSystem::open(disk);
    assert_eq!(again.inode_area_start_block, 2);
    assert_eq!(again.data_area_start_block, 1027);
    let root = EasyFileSystem::root_inode(&again);
    assert_eq!(root.ls(&mut again), vec![b"kept".to_vec()]);
    let found = root.find(b"kept", &mut again).unwrap();
    let mut buf = [0u8; 16];
    assert_eq!(found.read_at(0, &mut buf, &mut again), 10);
    assert_eq!(&buf[..10], b"persistent");
}

#[test]
fn root_directory_is_the_first_inode() {
    let mut efs = fresh();
    let root = EasyFileSystem::root_inode(&efs);
    assert_eq!((root.block_id as u32, root.block_offset), efs.get_disk_inode_pos(0));
    assert_eq!(efs.alloc_inode(), 1);
    assert_eq!(efs.alloc_inode(), 2);
    assert_eq!(efs.alloc_data(), efs.data_area_start_block);
    assert_eq!(efs.alloc_data(), efs.data_area_start_block + 1);
}

#[test]
fn inode_positions_and_block_counts() {
    let efs = fresh();
    assert_eq!(efs.get_disk_inode_pos(0), (2, 0));
    assert_eq!(efs.get_disk_inode_pos(4), (3, 0));
    assert_eq!(efs.get_disk_inode_pos(8), (4, 0));
    assert_eq!(DiskInode::_data_blocks(0), 0);
    assert_eq!(DiskInode::_data_blocks(1), 1);
    assert_eq!(DiskInode::_data_blocks(512), 1);
    assert_eq!(DiskInode::_data_blocks(513), 2);
    assert_eq!(DiskInode::total_blocks(0), 0);
    assert_eq!(DiskInode::total_blocks(28 * 512), 28);
    assert_eq!(DiskInode::total_blocks(29 * 512), 30);
    assert_eq!(DiskInode::total_blocks(156 * 512), 157);
    let mut inode = DiskInode::empty();
    inode.size = 10 * 512;
    assert_eq!(inode.data_blocks(), 10);
    assert_eq!(inode.blocks_num_needed(40 * 512), 31);
}

#[test]
fn directory_entry_layout() {
    let entry = DirEntry::new(b"hello", 7);
    let bytes = entry.as_bytes();
    assert_eq!(&bytes[..5], b"hello");
    assert!(bytes[5..28].iter().all(|b| *b == 0));
    assert_eq!(&bytes[28..], &[7, 0, 0, 0]);
    assert_eq!(entry.name(), b"hello".to_vec());
    assert_eq!(entry.inode_number(), 7);
    let back = DirEntry::from_bytes(&bytes);
    assert_eq!(back.name(), b"hello".to_vec());
    assert_eq!(back.inode_number(), 7);
    assert_eq!(DirEntry::empty().as_bytes(), [0u8; 32]);
}

#[test]
fn open_flags_decide_reading_and_writing() {
    assert_eq!(OpenFlags::from_bits(RDONLY).unwrap().read_write(), (true, false));
    assert_eq!(OpenFlags::from_bits(WRONLY).unwrap().read_write(), (false, true));
    assert_eq!(OpenFlags::from_bits(RDWR).unwrap().read_write(), (true, true));
    assert_eq!(OpenFlags::from_bits(CREATE | WRONLY).unwrap().read_write(), (false, true));
    assert!(OpenFlags::from_bits(0x8).is_none());
    assert!(OpenFlags::from_bits(CREATE | TRUNC | RDWR | WRONLY).is_some());
    assert!(OpenFlags::from_bits(RDONLY).unwrap().is_empty());
}

#[test]
fn open_file_creates_truncates_and_finds() {
    let mut efs = fresh();
    let root = EasyFileSystem::root_inode(&efs);
    assert!(open_file(&root, b"log", OpenFlags { bits: RDONLY }, &mut efs).is_none());
    let made = open_file(&root, b"log", OpenFlags { bits: CREATE | WRONLY }, &mut efs).unwrap();
    assert!(made.writable && !made.readable);
    assert_eq!(made.offset, 0);
    made.inode.write_at(0, b"0123456789", &mut efs);
    let mut reader = open_file(&root, b"log", OpenFlags { bits: RDONLY }, &mut efs).unwrap();
    assert!(reader.readable && !reader.writable);
    assert_eq!(reader.inode, made.inode);
    assert_eq!(reader.read_all(&mut efs), b"0123456789".to_vec());
    assert_eq!(reader.offset, 10);
    let mut emptied = open_file(&root, b"log", OpenFlags { bits: TRUNC | RDWR }, &mut efs).unwrap();
    assert_eq!(emptied.read_all(&mut efs), Vec::<u8>::new());
    made.inode.write_at(0, b"abc", &mut efs);
    let mut recreated = open_file(&root, b"log", OpenFlags { bits: CREATE }, &mut efs).unwrap();
    assert_eq!(recreated.read_all(&mut efs), Vec::<u8>::new());
    assert_eq!(root.ls(&mut efs), vec![b"log".to_vec()]);
}
