use easy_fs::fs::FileSystem;
use easy_fs::manager::{ReadyTask, TaskManager, BIG_STRIDE};
use easy_fs::process::{handler_result, sys_mmap, sys_munmap, sys_sbrk, TaskInfo, TimeVal, PERM_R, PERM_U, PERM_W, PERM_X};
use easy_fs::syscall::{
    sys_close, sys_fstat, sys_linkat, sys_open, sys_read, sys_unlinkat, sys_write, OpenFile, MODE_DIR,
    MODE_FILE, O_CREATE, O_RDWR, O_TRUNC, O_WRONLY,
};
use easy_fs::task::{TaskControlBlock, TaskStatus};
use easy_fs::vfs::Inode;

#[test]
fn open_write_read_close() {
    let mut fs = FileSystem::new(64, 16);
    let mut table: Vec<Option<OpenFile>> = vec![None, None, None];
    table[0] = Some(OpenFile { readable: true, writable: false, offset: 0, inode: Inode::root() });
    assert_eq!(sys_open(&mut fs, &mut table, "f", O_RDWR), -1);
    let fd = sys_open(&mut fs, &mut table, "f", O_CREATE | O_RDWR);
    assert_eq!(fd, 1);
    assert_eq!(sys_write(&mut fs, &mut table, 1, b"hello"), 5);
    assert_eq!(sys_write(&mut fs, &mut table, 1, b" you"), 4);
    let rd = sys_open(&mut fs, &mut table, "f", 0);
    assert_eq!(rd, 2);
    let mut buf = [0u8; 16];
    assert_eq!(sys_read(&fs, &mut table, 2, &mut buf), 9);
    assert_eq!(&buf[..9], b"hello you");
    assert_eq!(sys_read(&fs, &mut table, 2, &mut buf), 0);
    assert_eq!(sys_write(&mut fs, &mut table, 2, b"x"), -1);
    assert_eq!(sys_close(&mut table, 2), 0);
    assert_eq!(sys_close(&mut table, 2), -1);
    assert_eq!(sys_close(&mut table, 9), -1);
    assert_eq!(sys_read(&fs, &mut table, 2, &mut buf), -1);
    assert_eq!(sys_open(&mut fs, &mut table, "f", O_WRONLY), 2);
    assert_eq!(sys_read(&fs, &mut table, 2, &mut buf), -1);
    assert_eq!(sys_open(&mut fs, &mut table, "f", 4), -1);
    assert_eq!(sys_open(&mut fs, &mut table, "g", O_CREATE), 3);
    assert_eq!(table.len(), 4);
}

#[test]
fn open_trunc_empties() {
    let mut fs = FileSystem::new(64, 16);
    let mut table: Vec<Option<OpenFile>> = Vec::new();
    assert_eq!(sys_open(&mut fs, &mut table, "f", O_CREATE | O_WRONLY), 0);
    assert_eq!(sys_write(&mut fs, &mut table, 0, b"data"), 4);
    assert_eq!(sys_open(&mut fs, &mut table, "f", O_TRUNC), 1);
    let mut buf = [0u8; 4];
    assert_eq!(sys_read(&fs, &mut table, 1, &mut buf), 0);
}

#[test]
fn fstat_reports_links() {
    let mut fs = FileSystem::new(64, 16);
    let mut table: Vec<Option<OpenFile>> = Vec::new();
    assert_eq!(sys_open(&mut fs, &mut table, "f", O_CREATE | O_RDWR), 0);
    let st = sys_fstat(&fs, &table, 0).unwrap();
    assert_eq!(st.nlink, 1);
    assert_eq!(st.mode, MODE_FILE);
    assert_eq!(st.ino, Inode::at(1).inode_id() as u64);
    assert_eq!(sys_linkat(&mut fs, "f", "g"), 0);
    assert_eq!(sys_fstat(&fs, &table, 0).unwrap().nlink, 2);
    assert!(sys_fstat(&fs, &table, 1).is_none());
    table.push(Some(OpenFile { readable: true, writable: false, offset: 0, inode: Inode::root() }));
    assert_eq!(sys_fstat(&fs, &table, 1).unwrap().mode, MODE_DIR);
}

#[test]
fn linkat_and_unlinkat() {
    let mut fs = FileSystem::new(64, 16);
    let root = Inode::root();
    let a = root.create(&mut fs, "a").unwrap();
    a.write_at(&mut fs, 0, &[1u8; 700]).unwrap();
    assert_eq!(sys_linkat(&mut fs, "missing", "b"), -1);
    assert_eq!(sys_linkat(&mut fs, "a", "a"), -1);
    assert_eq!(sys_linkat(&mut fs, "a", "b"), 0);
    assert_eq!(sys_linkat(&mut fs, "a", "b"), -1);
    assert_eq!(a.get_nlink(&fs), 2);
    let free0 = fs.free.len();
    assert_eq!(sys_unlinkat(&mut fs, "a"), 0);
    assert_eq!(a.get_nlink(&fs), 1);
    assert_eq!(fs.free.len(), free0);
    assert_eq!(root.ls(&fs), vec!["b".to_string()]);
    assert_eq!(sys_unlinkat(&mut fs, "a"), -1);
    assert_eq!(sys_unlinkat(&mut fs, "b"), 0);
    assert_eq!(a.get_nlink(&fs), 0);
    assert_eq!(fs.free.len(), free0 + 2);
    assert!(root.ls(&fs).is_empty());
}

#[test]
fn mmap_checks() {
    assert_eq!(sys_mmap(4097, 10, 1), None);
    assert_eq!(sys_mmap(4096, 0, 1), None);
    assert_eq!(sys_mmap(4096, 10, 0), None);
    assert_eq!(sys_mmap(4096, 10, 8), None);
    assert_eq!(sys_mmap(usize::MAX - 4095, 4096, 1), None);
    assert_eq!(sys_mmap(0, 4096, 1).unwrap().bits, PERM_U | PERM_R);
    assert_eq!(sys_mmap(8192, 1, 6).unwrap().bits, PERM_U | PERM_W | PERM_X);
    assert_eq!(sys_mmap(8192, 1, 7).unwrap().bits, PERM_U | PERM_R | PERM_W | PERM_X);
    assert!(sys_munmap(4096, 0));
    assert!(!sys_munmap(4095, 1));
    assert!(!sys_munmap(usize::MAX - 4095, 4096));
    assert_eq!(handler_result(true), 0);
    assert_eq!(handler_result(false), -1);
}

#[test]
fn sbrk_results() {
    assert_eq!(sys_sbrk(Some(0x1000)), 0x1000);
    assert_eq!(sys_sbrk(None), -1);
}

#[test]
fn time_and_task_info() {
    let t = TimeVal::from_us(3_250_000);
    assert_eq!(t, TimeVal { sec: 3, usec: 250_000 });
    let info = TaskInfo::new(TaskStatus::Running, [0u32; 500], 1_000, 26_999);
    assert_eq!(info.time, 25);
    assert!(info.status == TaskStatus::Running);
}

#[test]
fn new_task_is_uninit() {
    let t = TaskControlBlock::new();
    assert!(t.task_status == TaskStatus::UnInit);
    assert!(t.syscall_times.iter().all(|&c| c == 0));
    assert!(t.first_schedule_time.is_none());
    assert_eq!(t.task_cx.sp, 0);
}

#[test]
fn stride_scheduler_picks_least_stride() {
    let mut m = TaskManager::new();
    assert_eq!(m.fetch(), None);
    m.add(ReadyTask { pid: 1, stride: 30, priority: 2 });
    m.add(ReadyTask { pid: 2, stride: 10, priority: 4 });
    m.add(ReadyTask { pid: 3, stride: 10, priority: 16 });
    let t = m.fetch().unwrap();
    assert_eq!(t, ReadyTask { pid: 2, stride: 10 + BIG_STRIDE / 4, priority: 4 });
    let t = m.fetch().unwrap();
    assert_eq!(t.pid, 3);
    assert_eq!(t.stride, 10 + BIG_STRIDE / 16);
    assert_eq!(m.ready_queue.len(), 1);
    assert_eq!(m.fetch().unwrap().pid, 1);
    assert_eq!(m.fetch(), None);
}
