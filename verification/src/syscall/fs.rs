//! File system calls over a task's table of file descriptors. Every call
//! returns a status, which is negative on failure and never positive for it.
use vstd::prelude::*;

verus! {

/// What an open file can do. The kernel's files and devices implement it;
/// nothing is promised of how many bytes a call transfers.
pub trait File {
    /// Fills `buf` from the file and returns the number of bytes read.
    fn read(&self, buf: &mut Vec<u8>) -> usize;

    /// Writes `buf` to the file and returns the number of bytes written.
    fn write(&self, buf: &[u8]) -> usize;
}

/// The kind of a file, as `fstat` reports it.
#[derive(Clone, Copy, Debug, PartialEq, Eq, Structural)]
pub enum StatMode {
    /// No kind.
    Null,
    /// A directory.
    Dir,
    /// An ordinary file.
    File,
}

/// What `fstat` reports of an open file.
#[derive(Clone, Copy, Debug, PartialEq, Eq, Structural)]
pub struct Stat {
    /// Id of the device that holds the file.
    pub dev: u64,
    /// Number of the file's inode.
    pub ino: u64,
    /// The file's kind.
    pub mode: StatMode,
    /// Number of hard links to the file.
    pub nlink: u32,
}

/// An open file together with what the table knows of it.
pub struct OpenFile<F: File> {
    /// The file itself.
    pub file: F,
    /// Number of the file's inode.
    pub ino: u64,
    /// The file's kind.
    pub mode: StatMode,
}

/// A task's file descriptors: slot `fd` holds the file open under `fd`, or
/// nothing.
pub struct FdTable<F: File> {
    entries: Vec<Option<OpenFile<F>>>,
}

impl<F: File> View for FdTable<F> {
    type V = Seq<Option<OpenFile<F>>>;

    closed spec fn view(&self) -> Seq<Option<OpenFile<F>>> {
        self.entries@
    }
}

/// `fd` is the lowest descriptor that is free in `slots`: the first empty
/// slot, or the one past the end where none is empty.
pub open spec fn is_lowest_free<F: File>(slots: Seq<Option<OpenFile<F>>>, fd: int) -> bool {
    &&& 0 <= fd <= slots.len()
    &&& fd < slots.len() ==> slots[fd] is None
    &&& forall|j: int| 0 <= j < fd ==> (#[trigger] slots[j]) is Some
}

/// The lowest descriptor that is free in `slots`.
pub open spec fn lowest_free<F: File>(slots: Seq<Option<OpenFile<F>>>) -> int {
    choose|fd: int| is_lowest_free(slots, fd)
}

/// Every table has a lowest free descriptor.
pub proof fn lemma_lowest_free_exists<F: File>(slots: Seq<Option<OpenFile<F>>>)
    ensures
        is_lowest_free(slots, lowest_free(slots)),
{
    let fd = lemma_lowest_free_from(slots, 0);
    assert(is_lowest_free(slots, fd));
}

proof fn lemma_lowest_free_from<F: File>(slots: Seq<Option<OpenFile<F>>>, from: int) -> (fd: int)
    requires
        0 <= from <= slots.len(),
        forall|j: int| 0 <= j < from ==> (#[trigger] slots[j]) is Some,
    ensures
        is_lowest_free(slots, fd),
    decreases slots.len() - from,
{
    if from < slots.len() && slots[from] is Some {
        lemma_lowest_free_from(slots, from + 1)
    } else {
        from
    }
}

/// No two descriptors are both the lowest free one.
pub proof fn lemma_lowest_free_unique<F: File>(slots: Seq<Option<OpenFile<F>>>, a: int, b: int)
    requires
        is_lowest_free(slots, a),
        is_lowest_free(slots, b),
    ensures
        a == b,
{
    if a < b {
        assert(slots[a] is Some);
    } else if b < a {
        assert(slots[b] is Some);
    }
}

/// `slots` with `file` in slot `fd`, grown by one slot where `fd` is the one
/// past the end.
pub open spec fn with_file<F: File>(
    slots: Seq<Option<OpenFile<F>>>,
    fd: int,
    file: OpenFile<F>,
) -> Seq<Option<OpenFile<F>>> {
    if fd < slots.len() {
        slots.update(fd, Some(file))
    } else {
        slots.push(Some(file))
    }
}

/// The status for a transfer of `count` bytes: the count itself where it is
/// at most `isize::MAX`, and otherwise the negative value that its bits stand
/// for as an `isize`.
pub open spec fn status_of(count: usize) -> int {
    (count as isize) as int
}

/// The status that a read or a write returns for the number of bytes that the
/// file reported.
pub fn transfer_status(count: usize) -> (r: isize)
    ensures
        r == status_of(count),
        count <= isize::MAX ==> r == count,
{
    #[verifier::truncate]
    (count as isize)
}

impl<F: File> FdTable<F> {
    /// Whether a file is open under `fd`.
    pub open spec fn is_open(&self, fd: int) -> bool {
        0 <= fd < self@.len() && self@[fd] is Some
    }

    /// A table with no slot.
    pub fn new() -> (table: Self)
        ensures
            table@.len() == 0,
    {
        FdTable { entries: Vec::new() }
    }

    /// The number of slots, empty ones included.
    pub fn len(&self) -> (n: usize)
        ensures
            n == self@.len(),
    {
        self.entries.len()
    }

    /// The file open under `fd`, if any.
    pub fn get(&self, fd: usize) -> (r: Option<&OpenFile<F>>)
        ensures
            self.is_open(fd as int) ==> r == Some(&self@[fd as int]->Some_0),
            !self.is_open(fd as int) ==> r is None,
    {
        if fd >= self.entries.len() {
            return None;
        }
        self.entries[fd].as_ref()
    }

    /// The lowest free descriptor.
    pub fn lowest_free_fd(&self) -> (fd: usize)
        ensures
            is_lowest_free(self@, fd as int),
            fd == lowest_free(self@),
    {
        let mut fd: usize = 0;
        while fd < self.entries.len()
            invariant
                fd <= self.entries@.len(),
                forall|j: int| 0 <= j < fd ==> (#[trigger] self.entries@[j]) is Some,
            decreases self.entries@.len() - fd,
        {
            if self.entries[fd].is_none() {
                proof {
                    assert(is_lowest_free(self@, fd as int));
                    lemma_lowest_free_unique(self@, fd as int, lowest_free(self@));
                }
                return fd;
            }
            fd += 1;
        }
        proof {
            assert(is_lowest_free(self@, fd as int));
            lemma_lowest_free_unique(self@, fd as int, lowest_free(self@));
        }
        fd
    }
}

/// Writes `buf` to the file open under `fd` and returns the status of the
/// number of bytes that the file's `write` reported for `buf`, or `-1` where
/// no file is open under `fd`. A status that is not negative is a count of
/// bytes.
pub fn sys_write<F: File>(table: &FdTable<F>, fd: usize, buf: &[u8]) -> (r: isize)
    ensures
        !table.is_open(fd as int) ==> r == -1,
        table.is_open(fd as int) ==> exists|count: usize|
            call_ensures(F::write, (&table@[fd as int]->Some_0.file, buf), count) && r
                == #[trigger] status_of(count),
        r >= 0 ==> table.is_open(fd as int),
{
    if fd >= table.entries.len() {
        return -1;
    }
    match &table.entries[fd] {
        Some(open) => transfer_status(open.file.write(buf)),
        None => -1,
    }
}

/// Reads from the file open under `fd` into `buf`: `buf` is handed to the
/// file's `read` as it came and is afterwards as that call left it, and the
/// result is the status of the number of bytes that the call reported.
/// Returns `-1`, with `buf` untouched, where no file is open under `fd`. A
/// status that is not negative is a count of bytes.
pub fn sys_read<F: File>(table: &FdTable<F>, fd: usize, buf: &mut Vec<u8>) -> (r: isize)
    ensures
        !table.is_open(fd as int) ==> r == -1 && final(buf)@ == old(buf)@,
        table.is_open(fd as int) ==> exists|b: &mut Vec<u8>, count: usize|
            #[trigger] call_ensures(F::read, (&table@[fd as int]->Some_0.file, b), count)
                && mut_ref_current(b) == *old(buf) && mut_ref_future(b) == *final(buf) && r
                == status_of(count),
        r >= 0 ==> table.is_open(fd as int),
{
    if fd >= table.entries.len() {
        return -1;
    }
    match &table.entries[fd] {
        Some(open) => transfer_status(open.file.read(buf)),
        None => -1,
    }
}

/// Enters a file that was opened into the table, under the lowest free
/// descriptor, and returns that descriptor. Returns `-1`, and leaves the
/// table as it was, where `opened` is `None` (the file could not be opened)
/// or the descriptor would be larger than any status.
pub fn sys_open<F: File>(table: &mut FdTable<F>, opened: Option<OpenFile<F>>) -> (r: isize)
    ensures
        opened is Some && lowest_free(old(table)@) <= isize::MAX ==> {
            &&& r == lowest_free(old(table)@)
            &&& is_lowest_free(old(table)@, r as int)
            &&& final(table)@ == with_file(old(table)@, r as int, opened->Some_0)
        },
        opened is None || lowest_free(old(table)@) > isize::MAX ==> {
            &&& r == -1
            &&& final(table)@ == old(table)@
        },
{
    match opened {
        Some(file) => {
            let fd = table.lowest_free_fd();
            if fd > isize::MAX as usize {
                return -1;
            }
            if fd < table.entries.len() {
                table.entries[fd] = Some(file);
            } else {
                table.entries.push(Some(file));
            }
            fd as isize
        },
        None => -1,
    }
}

/// Closes the file open under `fd`: empties its slot and returns `0`. Returns
/// `-1`, and leaves the table as it was, where no file is open under `fd`.
pub fn sys_close<F: File>(table: &mut FdTable<F>, fd: usize) -> (r: isize)
    ensures
        old(table).is_open(fd as int) ==> r == 0 && final(table)@ == old(table)@.update(
            fd as int,
            None,
        ),
        !old(table).is_open(fd as int) ==> r == -1 && final(table)@ == old(table)@,
{
    if fd >= table.entries.len() {
        return -1;
    }
    if table.entries[fd].is_none() {
        return -1;
    }
    table.entries[fd] = None;
    0
}

/// Whether `fstat` answers for `fd`: a file is open under it, and it is none
/// of the three standard descriptors.
pub open spec fn has_stat<F: File>(table: &FdTable<F>, fd: int) -> bool {
    fd > 2 && table.is_open(fd)
}

/// The inode number of the file that `fstat` answers for under `fd`, or
/// `None` where it answers for none: for the three standard descriptors and
/// where no file is open under `fd`.
pub fn stat_inode<F: File>(table: &FdTable<F>, fd: usize) -> (r: Option<u64>)
    ensures
        has_stat(table, fd as int) ==> r == Some(table@[fd as int]->Some_0.ino),
        !has_stat(table, fd as int) ==> r is None,
{
    if fd > 2 && fd < table.entries.len() {
        match &table.entries[fd] {
            Some(open) => Some(open.ino),
            None => None,
        }
    } else {
        None
    }
}

/// Reports on the file open under `fd`: fills `st` with device `0`, the
/// file's inode number and kind and the link count `nlink` that the file
/// system gives for that inode, and returns `0`. Returns `-1`, with `st`
/// untouched, for the three standard descriptors and where no file is open
/// under `fd`.
pub fn sys_fstat<F: File>(table: &FdTable<F>, fd: usize, nlink: u32, st: &mut Stat) -> (r: isize)
    ensures
        has_stat(table, fd as int) ==> r == 0 && *final(st) == (Stat {
            dev: 0,
            ino: table@[fd as int]->Some_0.ino,
            mode: table@[fd as int]->Some_0.mode,
            nlink,
        }),
        !has_stat(table, fd as int) ==> r == -1 && *final(st) == *old(st),
{
    if fd > 2 && fd < table.entries.len() {
        match &table.entries[fd] {
            Some(open) => {
                st.dev = 0;
                st.ino = open.ino;
                st.mode = open.mode;
                st.nlink = nlink;
                0
            },
            None => -1,
        }
    } else {
        -1
    }
}

} // verus!
