use rcore_core::efs::{blocks_num_needed, total_blocks_of, EasyFileSystem};
use rcore_core::syscall::fs::{
    sys_close, sys_fstat, sys_linkat, sys_open, sys_read, sys_unlinkat, sys_write, FdTable, Stat, O_CREATE,
    O_RDWR, O_TRUNC, O_WRONLY,
};
use rcore_core::syscall::process::{sys_exec, sys_spawn};
use rcore_core::vfs::{Inode, StatMode};

fn fresh() -> EasyFileSystem {
    EasyFileSystem::create(8192, 1).expect("layout fits")
}

fn empty_stat() -> Stat {
    Stat { dev: 7, ino: 99, mode: StatMode::Null, nlink: 99, pad: [0u64; 7] }
}

fn read_all(h: &Inode, fs: &EasyFileSystem, len: usize) -> Vec<u8> {
    let mut buf = vec![0u8; len];
    let n = h.read_at(fs, 0, &mut buf);
    buf.truncate(n);
    buf
}

#[test]
fn format_rejects_small_or_bad_layouts() {
    assert!(EasyFileSystem::create(8192, 0).is_none());
    assert!(EasyFileSystem::create(8192, 17).is_none());
    assert!(EasyFileSystem::create(1027, 1).is_none());
    let fs = EasyFileSystem::create(1028, 1).expect("smallest layout");
    assert_eq!(fs.used_data_count(), 0);
    assert!(fs.sb.is_valid());
    assert!(fs.inode_allocated(0));
    assert!(!fs.inode_allocated(1));
}

#[test]
fn block_counts_cross_index_levels() {
    assert_eq!(total_blocks_of(0), 0);
    assert_eq!(total_blocks_of(1), 1);
    assert_eq!(total_blocks_of(512), 1);
    assert_eq!(total_blocks_of(513), 2);
    assert_eq!(total_blocks_of(28 * 512), 28);
    assert_eq!(total_blocks_of(28 * 512 + 1), 30);
    assert_eq!(total_blocks_of(156 * 512), 157);
    assert_eq!(total_blocks_of(156 * 512 + 1), 160);
    assert_eq!(total_blocks_of(32768), 65);
    assert_eq!(blocks_num_needed(0, 32), 1);
    assert_eq!(blocks_num_needed(32, 64), 0);
}

#[test]
fn create_find_unlink_round_trip() {
    let mut fs = fresh();
    let root = Inode::root(&fs);
    let h = root.create(&mut fs, "note").expect("created");
    let id = h.inode_id(&fs);
    assert_eq!(id, 1);
    let found = root.find(&fs, "note").expect("found");
    assert_eq!(found.inode_id(&fs), id);
    assert_eq!(root.vfs_unlink(&mut fs, "note"), 0);
    assert!(root.find(&fs, "note").is_none());
    assert!(!fs.inode_allocated(id));
}

#[test]
fn create_refuses_taken_or_bad_names() {
    let mut fs = fresh();
    let root = Inode::root(&fs);
    assert!(root.create(&mut fs, "a").is_some());
    assert!(root.create(&mut fs, "a").is_none());
    assert!(root.create(&mut fs, "").is_none());
    assert!(root.create(&mut fs, "abcdefghijklmnopqrstuvwxyz0").is_some());
    assert!(root.create(&mut fs, "abcdefghijklmnopqrstuvwxyz01").is_none());
    assert!(root.create(&mut fs, "a\0b").is_none());
    assert!(root.create(&mut fs, "\u{e9}\u{e9}\u{e9}\u{e9}\u{e9}\u{e9}\u{e9}\u{e9}\u{e9}\u{e9}\u{e9}\u{e9}\u{e9}\u{e9}").is_none());
    assert_eq!(root.ls(&fs).len(), 2);
}

#[test]
fn write_then_read_returns_bytes() {
    let mut fs = fresh();
    let root = Inode::root(&fs);
    let h = root.create(&mut fs, "f").expect("created");
    let data: Vec<u8> = (0..1000u32).map(|i| (i % 251) as u8).collect();
    assert_eq!(h.write_at(&mut fs, 0, &data), 1000);
    assert_eq!(read_all(&h, &fs, 1000), data);
    assert_eq!(h.size(&fs), 1000);
}

#[test]
fn write_past_end_fills_gap_with_zeros() {
    let mut fs = fresh();
    let root = Inode::root(&fs);
    let h = root.create(&mut fs, "gap").expect("created");
    assert_eq!(h.write_at(&mut fs, 4, b"xy"), 2);
    assert_eq!(read_all(&h, &fs, 10), vec![0, 0, 0, 0, b'x', b'y']);
    let mut buf = vec![9u8; 4];
    assert_eq!(h.read_at(&fs, 6, &mut buf), 0);
    assert_eq!(buf, vec![9u8; 4]);
    let mut buf = vec![9u8; 4];
    assert_eq!(h.read_at(&fs, 3, &mut buf), 3);
    assert_eq!(buf, vec![0, b'x', b'y', 9]);
}

#[test]
fn bytes_survive_large_writes() {
    let mut fs = fresh();
    let root = Inode::root(&fs);
    let h = root.create(&mut fs, "big").expect("created");
    let len = 200 * 512 + 17;
    let data: Vec<u8> = (0..len).map(|i| (i * 7 % 256) as u8).collect();
    let before = fs.used_data_count();
    assert_eq!(h.write_at(&mut fs, 0, &data), len);
    assert_eq!(fs.used_data_count() - before, total_blocks_of(len as u32) as usize);
    assert_eq!(read_all(&h, &fs, len), data);
    let mut buf = vec![0u8; 3];
    assert_eq!(h.read_at(&fs, 28 * 512 - 1, &mut buf), 3);
    assert_eq!(buf, data[28 * 512 - 1..28 * 512 + 2].to_vec());
    assert_eq!(h.read_at(&fs, 156 * 512 - 1, &mut buf), 3);
    assert_eq!(buf, data[156 * 512 - 1..156 * 512 + 2].to_vec());
}

#[test]
fn grow_across_indirect1_boundary() {
    let mut fs = fresh();
    let root = Inode::root(&fs);
    let h = root.create(&mut fs, "grow").expect("created");
    let before = fs.used_data_count();
    let data: Vec<u8> = (0..32768u32).map(|i| (i % 256) as u8).collect();
    assert_eq!(h.write_at(&mut fs, 0, &data), 32768);
    assert_eq!(h.size(&fs), 32768);
    assert_eq!(read_all(&h, &fs, 32768), data);
    h.clear(&mut fs);
    assert_eq!(h.size(&fs), 0);
    assert_eq!(fs.used_data_count(), before);
}

#[test]
fn write_refused_when_too_large() {
    let mut fs = fresh();
    let root = Inode::root(&fs);
    let h = root.create(&mut fs, "f").expect("created");
    let used = fs.used_data_count();
    assert_eq!(h.write_at(&mut fs, 8468480, b"x"), 0);
    assert_eq!(fs.used_data_count(), used);
    assert_eq!(h.size(&fs), 0);
    assert_eq!(root.write_at(&mut fs, 0, b"x"), 0);
}

#[test]
fn write_refused_when_disk_full() {
    let mut fs = EasyFileSystem::create(1040, 1).expect("small disk");
    let root = Inode::root(&fs);
    let h = root.create(&mut fs, "f").expect("created");
    let data = vec![1u8; 20 * 512];
    assert_eq!(h.write_at(&mut fs, 0, &data), 0);
    assert_eq!(h.size(&fs), 0);
}

#[test]
fn link_creates_alias() {
    let mut fs = fresh();
    let mut table = FdTable::new();
    let root = Inode::root(&fs);
    let a = root.create(&mut fs, "a").expect("created");
    assert_eq!(a.write_at(&mut fs, 0, b"hello"), 5);
    assert_eq!(sys_linkat(&mut fs, "a", "b"), 0);
    let fd_b = sys_open(&mut fs, &mut table, "b", O_RDWR);
    assert_eq!(fd_b, 0);
    let mut st = empty_stat();
    assert_eq!(sys_fstat(&fs, &table, fd_b as usize, &mut st), 0);
    assert_eq!(st.nlink, 2);
    assert_eq!(st.ino, a.inode_id(&fs) as u64);
    assert_eq!(st.mode, StatMode::File);
    assert_eq!(st.mode.bits(), 0o100000);
    let mut buf = vec![0u8; 16];
    assert_eq!(sys_read(&fs, &mut table, fd_b as usize, &mut buf), 5);
    assert_eq!(&buf[..5], b"hello");
    let fd_a = sys_open(&mut fs, &mut table, "a", 0);
    assert_eq!(fd_a, 1);
    let mut buf = vec![0u8; 16];
    assert_eq!(sys_read(&fs, &mut table, fd_a as usize, &mut buf), 5);
    assert_eq!(&buf[..5], b"hello");
}

#[test]
fn unlink_frees_data_only_at_zero_links() {
    let mut fs = fresh();
    let mut table = FdTable::new();
    let root = Inode::root(&fs);
    let before = fs.used_data_count();
    let a = root.create(&mut fs, "a").expect("created");
    let id = a.inode_id(&fs);
    let data = vec![3u8; 3000];
    assert_eq!(a.write_at(&mut fs, 0, &data), 3000);
    assert_eq!(sys_linkat(&mut fs, "a", "b"), 0);
    assert_eq!(sys_unlinkat(&mut fs, "a"), 0);
    let fd_b = sys_open(&mut fs, &mut table, "b", 0);
    let mut st = empty_stat();
    assert_eq!(sys_fstat(&fs, &table, fd_b as usize, &mut st), 0);
    assert_eq!(st.nlink, 1);
    assert!(fs.inode_allocated(id));
    let with_file = fs.used_data_count();
    assert_eq!(sys_unlinkat(&mut fs, "b"), 0);
    assert!(!fs.inode_allocated(id));
    assert_eq!(with_file - fs.used_data_count(), total_blocks_of(3000) as usize + 1);
    assert_eq!(fs.used_data_count(), before);
}

#[test]
fn directory_compaction() {
    let mut fs = fresh();
    let root = Inode::root(&fs);
    for n in ["x", "y", "z"] {
        assert!(root.create(&mut fs, n).is_some());
    }
    assert_eq!(root.vfs_unlink(&mut fs, "y"), 0);
    assert_eq!(root.ls(&fs), vec!["x".to_string(), "z".to_string()]);
    assert_eq!(root.size(&fs), 64);
}

#[test]
fn unlink_last_entry_shrinks_by_one_slot() {
    let mut fs = fresh();
    let root = Inode::root(&fs);
    for n in ["p", "q", "r"] {
        assert!(root.create(&mut fs, n).is_some());
    }
    assert_eq!(root.vfs_unlink(&mut fs, "r"), 0);
    assert_eq!(root.ls(&fs), vec!["p".to_string(), "q".to_string()]);
    assert_eq!(root.size(&fs), 64);
    assert_eq!(root.vfs_unlink(&mut fs, "p"), 0);
    assert_eq!(root.ls(&fs), vec!["q".to_string()]);
    assert_eq!(root.size(&fs), 32);
}

#[test]
fn link_and_unlink_errors() {
    let mut fs = fresh();
    let root = Inode::root(&fs);
    assert!(root.create(&mut fs, "a").is_some());
    assert_eq!(sys_linkat(&mut fs, "a", "a"), -1);
    assert_eq!(sys_linkat(&mut fs, "missing", "b"), -1);
    assert_eq!(sys_linkat(&mut fs, "a", ""), -1);
    assert_eq!(sys_unlinkat(&mut fs, "missing"), -1);
    assert_eq!(root.vfs_link(&mut fs, "missing", "c"), -1);
    assert_eq!(root.ls(&fs), vec!["a".to_string()]);
}

#[test]
fn find_by_id_lists_every_name() {
    let mut fs = fresh();
    let root = Inode::root(&fs);
    let a = root.create(&mut fs, "a").expect("created");
    assert!(root.create(&mut fs, "other").is_some());
    assert_eq!(root.vfs_link(&mut fs, "a", "b"), 0);
    assert_eq!(root.vfs_link(&mut fs, "b", "c"), 0);
    let id = a.inode_id(&fs);
    assert_eq!(root.find_by_id(&fs, id), vec!["a".to_string(), "b".to_string(), "c".to_string()]);
    let (idx, dent) = root.lookup_locked(&fs, "c").expect("present");
    assert_eq!(idx, 3);
    assert_eq!(dent.inode_id(), id);
    assert_eq!(dent.name(), "c");
}

#[test]
fn mode_of_root_file_and_free_inode() {
    let mut fs = fresh();
    let root = Inode::root(&fs);
    assert_eq!(root.mode(&fs), StatMode::Dir);
    assert_eq!(root.mode(&fs).bits(), 0o040000);
    let h = root.create(&mut fs, "f").expect("created");
    assert_eq!(h.mode(&fs), StatMode::File);
    assert_eq!(root.vfs_unlink(&mut fs, "f"), 0);
    assert_eq!(h.mode(&fs), StatMode::Null);
    assert_eq!(StatMode::Null.bits(), 0);
    assert_eq!(h.node_id(&fs), 1);
}

#[test]
fn open_flags_and_descriptors() {
    let mut fs = fresh();
    let mut table = FdTable::new();
    assert_eq!(sys_open(&mut fs, &mut table, "nope", 0), -1);
    assert_eq!(sys_open(&mut fs, &mut table, "f", 1 << 20), -1);
    let w = sys_open(&mut fs, &mut table, "f", O_CREATE | O_WRONLY);
    assert_eq!(w, 0);
    assert_eq!(sys_write(&mut fs, &mut table, 0, b"abc"), 3);
    assert_eq!(sys_write(&mut fs, &mut table, 0, b"de"), 2);
    let mut buf = vec![0u8; 8];
    assert_eq!(sys_read(&fs, &mut table, 0, &mut buf), -1);
    let r = sys_open(&mut fs, &mut table, "f", 0);
    assert_eq!(r, 1);
    assert_eq!(sys_write(&mut fs, &mut table, 1, b"zz"), -1);
    assert_eq!(sys_read(&fs, &mut table, 1, &mut buf), 5);
    assert_eq!(&buf[..5], b"abcde");
    assert_eq!(sys_close(&mut table, 0), 0);
    assert_eq!(sys_close(&mut table, 0), -1);
    assert_eq!(sys_close(&mut table, 9), -1);
    assert_eq!(sys_write(&mut fs, &mut table, 0, b"x"), -1);
    let again = sys_open(&mut fs, &mut table, "f", O_TRUNC | O_RDWR);
    assert_eq!(again, 0);
    let mut st = empty_stat();
    assert_eq!(sys_fstat(&fs, &table, 0, &mut st), 0);
    assert_eq!(sys_read(&fs, &mut table, 0, &mut buf), 0);
    assert_eq!(sys_fstat(&fs, &table, 5, &mut st), -1);
}

#[test]
fn create_flag_truncates_existing_file() {
    let mut fs = fresh();
    let mut table = FdTable::new();
    let root = Inode::root(&fs);
    let h = root.create(&mut fs, "f").expect("created");
    assert_eq!(h.write_at(&mut fs, 0, b"content"), 7);
    let fd = sys_open(&mut fs, &mut table, "f", O_CREATE | O_RDWR);
    assert_eq!(fd, 0);
    assert_eq!(h.size(&fs), 0);
    assert_eq!(root.ls(&fs).len(), 1);
}

#[test]
fn listing_matches_after_many_files() {
    let mut fs = fresh();
    let root = Inode::root(&fs);
    let names: Vec<String> = (0..40).map(|i| format!("file{}", i)).collect();
    for n in &names {
        let h = root.create(&mut fs, n).expect("created");
        assert_eq!(h.write_at(&mut fs, 0, n.as_bytes()), n.len());
    }
    assert_eq!(root.ls(&fs), names);
    assert_eq!(root.size(&fs), 40 * 32);
    for n in &names {
        let h = root.find(&fs, n).expect("found");
        assert_eq!(read_all(&h, &fs, 32), n.as_bytes().to_vec());
    }
}

#[test]
fn exec_and_spawn_load_program_bytes() {
    let mut fs = fresh();
    let root = Inode::root(&fs);
    let h = root.create(&mut fs, "app").expect("created");
    assert_eq!(h.write_at(&mut fs, 0, b"\x7fELF-image"), 10);
    let mut image = vec![1u8];
    assert_eq!(sys_exec(&fs, "missing", &mut image), -1);
    assert_eq!(image, vec![1u8]);
    assert_eq!(sys_exec(&fs, "app", &mut image), 0);
    assert_eq!(image, b"\x7fELF-image".to_vec());
    let mut image2 = Vec::new();
    assert_eq!(sys_spawn(&fs, "app", 8, &mut image2), 8);
    assert_eq!(image2, b"\x7fELF-image".to_vec());
    assert_eq!(sys_spawn(&fs, "nope", 9, &mut image2), -1);
}

#[test]
fn root_reads_as_entry_records() {
    let mut fs = fresh();
    let root = Inode::root(&fs);
    let a = root.create(&mut fs, "a").expect("created");
    assert!(root.create(&mut fs, "bc").is_some());
    let mut buf = vec![9u8; 80];
    assert_eq!(root.read_at(&fs, 0, &mut buf), 64);
    assert_eq!(&buf[..3], &[b'a', 0, 0]);
    assert_eq!(buf[27], a.inode_id(&fs) as u8);
    assert_eq!(&buf[32..35], &[b'b', b'c', 0]);
    assert_eq!(buf[59], 2);
    assert_eq!(buf[64], 9);
    let mut buf = vec![0u8; 4];
    assert_eq!(root.read_at(&fs, 62, &mut buf), 2);
    assert_eq!(root.write_at(&mut fs, 0, b"xx"), 0);
}
