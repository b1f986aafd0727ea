use rcore_core::block_cache::{BlockCacheManager, BlockDevice, BLOCK_CACHE_SIZE};
use rcore_core::efs::{load_superblock, DirEntry, EasyFileSystem, SuperBlock, EFS_MAGIC};
use rcore_core::persist::{decode_dirent, load_bitmap, load_file, load_root_names};
use rcore_core::vfs::Inode;

#[test]
fn modify_then_read_sees_new_bytes() {
    let mut dev = BlockDevice::new(4);
    let mut cache = BlockCacheManager::new();
    cache.modify(&mut dev, 2, 10, b"abc");
    assert_eq!(cache.read(&mut dev, 2, 9, 5), vec![0, b'a', b'b', b'c', 0]);
    assert_eq!(dev.read_block(2), vec![0u8; 512]);
    assert!(cache.any_dirty());
    assert_eq!(cache.resident(), 1);
}

#[test]
fn sync_all_writes_dirty_blocks_back() {
    let mut dev = BlockDevice::new(3);
    let mut cache = BlockCacheManager::new();
    cache.modify(&mut dev, 0, 0, &[7u8; 512]);
    cache.modify(&mut dev, 1, 511, &[9u8]);
    cache.sync_all(&mut dev);
    assert!(!cache.any_dirty());
    assert_eq!(dev.read_block(0), vec![7u8; 512]);
    let b1 = dev.read_block(1);
    assert_eq!(b1[511], 9);
    assert_eq!(b1[510], 0);
}

#[test]
fn eviction_keeps_at_most_sixteen_and_writes_back() {
    let mut dev = BlockDevice::new(40);
    let mut cache = BlockCacheManager::new();
    for b in 0..40usize {
        cache.modify(&mut dev, b, 0, &[b as u8 + 1]);
        assert!(cache.resident() <= BLOCK_CACHE_SIZE);
    }
    assert_eq!(cache.resident(), BLOCK_CACHE_SIZE);
    assert_eq!(dev.read_block(0)[0], 1);
    for b in 0..40usize {
        assert_eq!(cache.read(&mut dev, b, 0, 2), vec![b as u8 + 1, 0]);
    }
    cache.sync_all(&mut dev);
    for b in 0..40usize {
        assert_eq!(dev.read_block(b)[0], b as u8 + 1);
    }
    assert_eq!(dev.len(), 40);
}

#[test]
fn superblock_survives_sync_and_reload() {
    let fs = EasyFileSystem::create(8192, 1).expect("layout fits");
    let mut dev = BlockDevice::new(8192);
    let mut cache = BlockCacheManager::new();
    assert_eq!(load_superblock(&mut cache, &mut dev), None);
    fs.store_superblock(&mut cache, &mut dev);
    cache.sync_all(&mut dev);
    let block0 = dev.read_block(0);
    assert_eq!(&block0[..4], &[0x01, 0x00, 0x80, 0x3b]);
    let mut fresh = BlockCacheManager::new();
    let sb = load_superblock(&mut fresh, &mut dev).expect("magic present");
    assert_eq!(sb, fs.sb);
    assert_eq!(sb.magic, EFS_MAGIC);
    assert_eq!(sb.total_blocks, 8192);
    assert_eq!(sb.inode_bitmap_blocks, 1);
    assert_eq!(sb.inode_area_blocks, 1024);
    assert_eq!(sb.data_bitmap_blocks, 2);
    assert_eq!(sb.data_area_blocks, 7164);
}

#[test]
fn superblock_bytes_are_little_endian() {
    let sb = SuperBlock {
        magic: EFS_MAGIC,
        total_blocks: 0x01020304,
        inode_bitmap_blocks: 1,
        inode_area_blocks: 2,
        data_bitmap_blocks: 3,
        data_area_blocks: 4,
    };
    let b = sb.to_bytes();
    assert_eq!(b.len(), 24);
    assert_eq!(&b[4..8], &[4, 3, 2, 1]);
    assert_eq!(SuperBlock::from_bytes(&b), Some(sb));
    let mut bad = b.clone();
    bad[0] = 0;
    assert_eq!(SuperBlock::from_bytes(&bad), None);
    assert_eq!(SuperBlock::from_bytes(&b[..23]), None);
}

#[test]
fn directory_names_survive_sync_and_reload() {
    let mut fs = EasyFileSystem::create(8192, 1).expect("layout fits");
    let root = Inode::root(&fs);
    let names: Vec<String> = (0..20).map(|i| format!("entry-{}", i)).collect();
    for n in &names {
        assert!(root.create(&mut fs, n).is_some());
    }
    assert_eq!(root.vfs_unlink(&mut fs, "entry-3"), 0);
    assert!(root.create(&mut fs, "caf\u{e9}").is_some());
    let mut dev = BlockDevice::new(8192);
    let mut cache = BlockCacheManager::new();
    fs.store_superblock(&mut cache, &mut dev);
    fs.store_root_dir(&mut cache, &mut dev);
    cache.sync_all(&mut dev);
    let mut fresh = BlockCacheManager::new();
    assert_eq!(load_superblock(&mut fresh, &mut dev), Some(fs.sb));
    let loaded = load_root_names(&fs, &mut fresh, &mut dev).expect("names decode");
    assert_eq!(loaded, root.ls(&fs));
    assert_eq!(loaded.len(), 20);
    assert_eq!(loaded[3], "entry-19");
    assert_eq!(loaded[19], "caf\u{e9}");
}

#[test]
fn dirent_record_layout() {
    let e = DirEntry { name: "ab".to_string(), inode_number: 0x0102 };
    let rec = e.as_bytes();
    assert_eq!(rec.len(), 32);
    assert_eq!(&rec[..3], &[b'a', b'b', 0]);
    assert_eq!(&rec[27..32], &[2, 1, 0, 0, 0]);
    assert_eq!(decode_dirent(&rec), Some(("ab".to_string(), 0x0102)));
    let mut bad = rec.clone();
    bad[0] = 0xff;
    assert_eq!(decode_dirent(&bad), None);
}

#[test]
fn files_survive_sync_and_reload() {
    let mut fs = EasyFileSystem::create(8192, 1).expect("layout fits");
    let root = Inode::root(&fs);
    let small = root.create(&mut fs, "small").expect("created");
    assert_eq!(small.write_at(&mut fs, 0, b"hello"), 5);
    let big = root.create(&mut fs, "big").expect("created");
    let data: Vec<u8> = (0..40_000u32).map(|i| (i * 13 % 256) as u8).collect();
    assert_eq!(big.write_at(&mut fs, 0, &data), data.len());
    assert_eq!(root.vfs_link(&mut fs, "small", "alias"), 0);
    let mut dev = BlockDevice::new(8192);
    let mut cache = BlockCacheManager::new();
    fs.sync_to_device(&mut cache, &mut dev);
    assert!(!cache.any_dirty());
    let mut fresh = BlockCacheManager::new();
    assert_eq!(load_superblock(&mut fresh, &mut dev), Some(fs.sb));
    assert_eq!(load_root_names(&fs, &mut fresh, &mut dev).expect("names decode"), root.ls(&fs));
    assert_eq!(load_file(&fs, small.inode_id(&fs) as usize, &mut fresh, &mut dev), b"hello".to_vec());
    assert_eq!(load_file(&fs, big.inode_id(&fs) as usize, &mut fresh, &mut dev), data);
    let inodes = load_bitmap(1, fs.inode_bitmap.len(), &mut fresh, &mut dev);
    assert_eq!(inodes, fs.inode_bitmap);
    assert_eq!(inodes.iter().filter(|b| **b).count(), 3);
    let dstart = (fs.data_area_start_block - fs.sb.data_bitmap_blocks) as usize;
    let data_bits = load_bitmap(dstart, fs.data_bitmap.len(), &mut fresh, &mut dev);
    assert_eq!(data_bits, fs.data_bitmap);
    assert_eq!(data_bits.iter().filter(|b| **b).count(), fs.used_data_count());
    assert_eq!(dev.read_block(1)[0], 0b0000_0111);
}
