use kernel_core::syscall::fs::{
    sys_close, sys_fstat, sys_open, sys_read, sys_write, stat_inode, transfer_status, FdTable,
    File, OpenFile, Stat, StatMode,
};
use std::cell::RefCell;

struct MemFile {
    data: RefCell<Vec<u8>>,
}

impl MemFile {
    fn holding(bytes: &[u8]) -> Self {
        MemFile { data: RefCell::new(bytes.to_vec()) }
    }
}

impl File for MemFile {
    fn read(&self, buf: &mut Vec<u8>) -> usize {
        let data = self.data.borrow();
        buf.clear();
        buf.extend_from_slice(&data);
        data.len()
    }

    fn write(&self, buf: &[u8]) -> usize {
        self.data.borrow_mut().extend_from_slice(buf);
        buf.len()
    }
}

fn opened(bytes: &[u8], ino: u64, mode: StatMode) -> Option<OpenFile<MemFile>> {
    Some(OpenFile { file: MemFile::holding(bytes), ino, mode })
}

fn table_with_stdio() -> FdTable<MemFile> {
    let mut table = FdTable::new();
    assert_eq!(sys_open(&mut table, opened(b"", 0, StatMode::Null)), 0);
    assert_eq!(sys_open(&mut table, opened(b"", 0, StatMode::Null)), 1);
    assert_eq!(sys_open(&mut table, opened(b"", 0, StatMode::Null)), 2);
    table
}

#[test]
fn transfer_status_is_the_count_where_it_fits() {
    assert_eq!(transfer_status(0), 0);
    assert_eq!(transfer_status(512), 512);
    assert_eq!(transfer_status(isize::MAX as usize), isize::MAX);
    assert_eq!(transfer_status(isize::MAX as usize + 1), isize::MIN);
    assert_eq!(transfer_status(usize::MAX - 1), -2);
    assert_eq!(transfer_status(usize::MAX), -1);
}

#[test]
fn open_hands_out_the_lowest_free_descriptor() {
    let mut table = table_with_stdio();
    assert_eq!(table.len(), 3);
    assert_eq!(table.lowest_free_fd(), 3);
    assert_eq!(sys_open(&mut table, opened(b"a", 11, StatMode::File)), 3);
    assert_eq!(sys_open(&mut table, opened(b"b", 12, StatMode::File)), 4);
    assert_eq!(sys_close(&mut table, 1), 0);
    assert_eq!(table.lowest_free_fd(), 1);
    assert_eq!(sys_open(&mut table, opened(b"c", 13, StatMode::Dir)), 1);
    assert_eq!(table.get(1).unwrap().ino, 13);
    assert_eq!(table.get(3).unwrap().ino, 11);
    assert_eq!(table.len(), 5);
    assert_eq!(sys_open(&mut table, opened(b"d", 14, StatMode::File)), 5);
    assert_eq!(table.len(), 6);
}

#[test]
fn open_of_nothing_fails() {
    let mut table = table_with_stdio();
    assert_eq!(sys_open(&mut table, None), -1);
    assert_eq!(table.len(), 3);
    assert_eq!(table.lowest_free_fd(), 3);
}

#[test]
fn close_empties_the_slot() {
    let mut table = table_with_stdio();
    assert_eq!(sys_open(&mut table, opened(b"a", 11, StatMode::File)), 3);
    assert!(table.get(3).is_some());
    assert_eq!(sys_close(&mut table, 3), 0);
    assert!(table.get(3).is_none());
    assert_eq!(table.len(), 4);
    assert!(table.get(2).is_some());
}

#[test]
fn close_fails_without_an_open_file() {
    let mut table = table_with_stdio();
    assert_eq!(sys_close(&mut table, 3), -1);
    assert_eq!(sys_close(&mut table, usize::MAX), -1);
    assert_eq!(sys_close(&mut table, 2), 0);
    assert_eq!(sys_close(&mut table, 2), -1);
    assert_eq!(table.len(), 3);
}

#[test]
fn write_returns_the_bytes_written() {
    let mut table = table_with_stdio();
    assert_eq!(sys_open(&mut table, opened(b"ab", 11, StatMode::File)), 3);
    assert_eq!(sys_write(&table, 3, b"hello"), 5);
    assert_eq!(sys_write(&table, 3, b""), 0);
    assert_eq!(*table.get(3).unwrap().file.data.borrow(), b"abhello".to_vec());
}

#[test]
fn write_fails_without_an_open_file() {
    let mut table = table_with_stdio();
    assert_eq!(sys_write(&table, 3, b"hello"), -1);
    assert_eq!(sys_write(&table, 99, b"hello"), -1);
    assert_eq!(sys_close(&mut table, 0), 0);
    assert_eq!(sys_write(&table, 0, b"hello"), -1);
}

#[test]
fn read_returns_the_bytes_read() {
    let mut table = table_with_stdio();
    assert_eq!(sys_open(&mut table, opened(b"content", 11, StatMode::File)), 3);
    let mut buf = Vec::new();
    assert_eq!(sys_read(&table, 3, &mut buf), 7);
    assert_eq!(buf, b"content".to_vec());
}

#[test]
fn read_fails_without_an_open_file() {
    let table = table_with_stdio();
    let mut buf = vec![1u8, 2, 3];
    assert_eq!(sys_read(&table, 3, &mut buf), -1);
    assert_eq!(sys_read(&table, usize::MAX, &mut buf), -1);
    assert_eq!(buf, vec![1u8, 2, 3]);
}

#[test]
fn fstat_reports_inode_kind_and_links() {
    let mut table = table_with_stdio();
    assert_eq!(sys_open(&mut table, opened(b"a", 42, StatMode::File)), 3);
    assert_eq!(sys_open(&mut table, opened(b"", 1, StatMode::Dir)), 4);
    let mut st = Stat { dev: 9, ino: 9, mode: StatMode::Null, nlink: 9 };
    assert_eq!(sys_fstat(&table, 3, 2, &mut st), 0);
    assert_eq!(st, Stat { dev: 0, ino: 42, mode: StatMode::File, nlink: 2 });
    assert_eq!(sys_fstat(&table, 4, 1, &mut st), 0);
    assert_eq!(st, Stat { dev: 0, ino: 1, mode: StatMode::Dir, nlink: 1 });
}

#[test]
fn fstat_fails_for_standard_and_closed_descriptors() {
    let mut table = table_with_stdio();
    assert_eq!(sys_open(&mut table, opened(b"a", 42, StatMode::File)), 3);
    let untouched = Stat { dev: 9, ino: 9, mode: StatMode::Null, nlink: 9 };
    let mut st = untouched;
    assert_eq!(sys_fstat(&table, 0, 1, &mut st), -1);
    assert_eq!(sys_fstat(&table, 1, 1, &mut st), -1);
    assert_eq!(sys_fstat(&table, 2, 1, &mut st), -1);
    assert_eq!(sys_fstat(&table, 4, 1, &mut st), -1);
    assert_eq!(sys_close(&mut table, 3), 0);
    assert_eq!(sys_fstat(&table, 3, 1, &mut st), -1);
    assert_eq!(st, untouched);
}

struct CountingFile {
    reads: RefCell<usize>,
    writes: RefCell<usize>,
    reported: usize,
}

impl File for CountingFile {
    fn read(&self, buf: &mut Vec<u8>) -> usize {
        *self.reads.borrow_mut() += 1;
        buf.push(7);
        self.reported
    }

    fn write(&self, buf: &[u8]) -> usize {
        *self.writes.borrow_mut() += buf.len();
        self.reported
    }
}

fn counting(reported: usize) -> Option<OpenFile<CountingFile>> {
    let file = CountingFile { reads: RefCell::new(0), writes: RefCell::new(0), reported };
    Some(OpenFile { file, ino: 1, mode: StatMode::File })
}

#[test]
fn write_status_is_what_the_file_reported() {
    let mut table = FdTable::new();
    assert_eq!(sys_open(&mut table, counting(3)), 0);
    assert_eq!(sys_open(&mut table, counting(usize::MAX)), 1);
    assert_eq!(sys_write(&table, 0, b"hello"), 3);
    assert_eq!(*table.get(0).unwrap().file.writes.borrow(), 5);
    assert_eq!(*table.get(1).unwrap().file.writes.borrow(), 0);
    assert_eq!(sys_write(&table, 1, b"ab"), -1);
    assert_eq!(*table.get(1).unwrap().file.writes.borrow(), 2);
}

#[test]
fn read_hands_the_buffer_to_the_file_once() {
    let mut table = FdTable::new();
    assert_eq!(sys_open(&mut table, counting(9)), 0);
    let mut buf = vec![1u8, 2];
    assert_eq!(sys_read(&table, 0, &mut buf), 9);
    assert_eq!(buf, vec![1u8, 2, 7]);
    assert_eq!(*table.get(0).unwrap().file.reads.borrow(), 1);
}

#[test]
fn status_of_an_oversized_count_is_its_bits_as_isize() {
    let mut table = FdTable::new();
    assert_eq!(sys_open(&mut table, counting(isize::MAX as usize + 1)), 0);
    assert_eq!(sys_open(&mut table, counting(isize::MAX as usize)), 1);
    assert_eq!(sys_write(&table, 0, b"x"), isize::MIN);
    assert_eq!(sys_write(&table, 1, b"x"), isize::MAX);
    let mut buf = Vec::new();
    assert_eq!(sys_read(&table, 0, &mut buf), isize::MIN);
    assert_eq!(sys_read(&table, 1, &mut buf), isize::MAX);
}

#[test]
fn stat_inode_answers_where_fstat_does() {
    let mut table = table_with_stdio();
    assert_eq!(sys_open(&mut table, opened(b"a", 42, StatMode::File)), 3);
    assert_eq!(stat_inode(&table, 0), None);
    assert_eq!(stat_inode(&table, 2), None);
    assert_eq!(stat_inode(&table, 3), Some(42));
    assert_eq!(stat_inode(&table, 4), None);
    assert_eq!(stat_inode(&table, usize::MAX), None);
    assert_eq!(sys_close(&mut table, 3), 0);
    assert_eq!(stat_inode(&table, 3), None);
}
