//! The mathematical model of the kernel state and the transition that each
//! syscall performs on it. Executable code in `syscall` is specified against
//! these functions, and the laws in `laws` are proved about them.

use vstd::prelude::*;

verus! {

/// Open-flag bit: the caller intends to write only.
pub const OPEN_WRONLY: u32 = 0x001;
/// Open-flag bit: the caller intends to read and write.
pub const OPEN_RDWR: u32 = 0x002;
/// Open-flag bit: create the file, truncating it if it already exists.
pub const OPEN_CREATE: u32 = 0x200;
/// Open-flag bit: truncate an existing file on open.
pub const OPEN_TRUNC: u32 = 0x400;
/// The mode tag reported by `fstat` for a regular file.
pub const MODE_FILE: u32 = 0x8000;

/// Model of one inode: the file's bytes and its directory link count.
pub ghost struct InodeM {
    pub data: Seq<u8>,
    pub nlink: nat,
}

/// Model of one directory entry: a name bound to an inode index.
pub ghost struct DirEntM {
    pub name: Seq<u8>,
    pub inode: int,
}

/// Model of one open file: the inode it is backed by and the read/write cursor.
pub ghost struct OpenFileM {
    pub inode: int,
    pub offset: nat,
}

/// Model of the whole kernel state seen by the syscall layer: the inode
/// table, the flat directory, and the current task's descriptor table.
pub ghost struct KernelM {
    pub inodes: Seq<InodeM>,
    pub dir: Seq<DirEntM>,
    pub fds: Seq<Option<OpenFileM>>,
}

/// How many directory entries name inode `ino`.
pub open spec fn links_to(dir: Seq<DirEntM>, ino: int) -> nat
    decreases dir.len(),
{
    if dir.len() == 0 {
        0
    } else {
        links_to(dir.drop_last(), ino) + if dir.last().inode == ino {
            1nat
        } else {
            0nat
        }
    }
}

/// Whether some directory entry carries this name.
pub open spec fn dir_has(dir: Seq<DirEntM>, name: Seq<u8>) -> bool {
    exists|i: int| 0 <= i < dir.len() && dir[i].name == name
}

/// The index of the directory entry carrying this name (meaningful when
/// `dir_has` holds; under `wf` the index is unique).
pub open spec fn dir_idx(dir: Seq<DirEntM>, name: Seq<u8>) -> int {
    choose|i: int| 0 <= i < dir.len() && dir[i].name == name
}

/// The inode named by this path.
pub open spec fn dir_ino(dir: Seq<DirEntM>, name: Seq<u8>) -> int {
    dir[dir_idx(dir, name)].inode
}

/// The lowest free descriptor index: the first `None` slot, or the table
/// length when every slot is occupied.
pub open spec fn first_free(fds: Seq<Option<OpenFileM>>) -> int
    decreases fds.len(),
{
    if fds.len() == 0 {
        0
    } else if fds[0] is None {
        0
    } else {
        1 + first_free(fds.drop_first())
    }
}

/// Descriptor `fd` is in bounds and its slot holds an open file.
pub open spec fn occupied(s: KernelM, fd: int) -> bool {
    0 <= fd < s.fds.len() && s.fds[fd] is Some
}

impl KernelM {
    /// Well-formedness: directory entries point at real inodes, names are
    /// unique, occupied slots point at real inodes, and every inode's stored
    /// link count equals the number of directory entries that name it.
    pub open spec fn wf(self) -> bool {
        &&& forall|i: int|
            0 <= i < self.dir.len() ==> 0 <= (#[trigger] self.dir[i]).inode < self.inodes.len()
        &&& forall|i: int, j: int|
            0 <= i < j < self.dir.len() ==> self.dir[i].name != self.dir[j].name
        &&& forall|f: int|
            0 <= f < self.fds.len() && (#[trigger] self.fds[f]) is Some ==> 0 <= self.fds[f]->0.inode
                < self.inodes.len()
        &&& forall|i: int|
            0 <= i < self.inodes.len() ==> (#[trigger] self.inodes[i]).nlink == links_to(
                self.dir,
                i,
            )
    }
}

impl KernelM {
    /// The state after storing a fresh open file on inode `ino` in the lowest
    /// free descriptor slot, growing the table when every slot is occupied.
    pub open spec fn attach_fd(self, ino: int) -> KernelM {
        let fd = first_free(self.fds);
        let slot = Some(OpenFileM { inode: ino, offset: 0 });
        KernelM {
            fds: if fd == self.fds.len() {
                self.fds.push(slot)
            } else {
                self.fds.update(fd, slot)
            },
            ..self
        }
    }

    /// The state with inode `ino`'s bytes replaced, its link count kept.
    pub open spec fn with_data(self, ino: int, data: Seq<u8>) -> KernelM {
        KernelM {
            inodes: self.inodes.update(ino, InodeM { data, nlink: self.inodes[ino].nlink }),
            ..self
        }
    }
}

/// Whether a flag word uses only the defined bits.
pub open spec fn flags_ok(flags: u32) -> bool {
    flags & !(OPEN_WRONLY | OPEN_RDWR | OPEN_CREATE | OPEN_TRUNC) == 0
}

/// The state after `open(path, flags)`. With the create bit the file is
/// created empty (or an existing one truncated) and a descriptor attached;
/// without it an existing file is opened (truncated when the truncate bit is
/// set) and a missing path leaves the state unchanged.
pub open spec fn open_tr(s: KernelM, path: Seq<u8>, flags: u32) -> KernelM {
    if flags & OPEN_CREATE != 0 {
        if dir_has(s.dir, path) {
            s.with_data(dir_ino(s.dir, path), Seq::empty()).attach_fd(dir_ino(s.dir, path))
        } else {
            let ino = s.inodes.len() as int;
            let s1 = KernelM {
                inodes: s.inodes.push(InodeM { data: Seq::empty(), nlink: 1 }),
                dir: s.dir.push(DirEntM { name: path, inode: ino }),
                ..s
            };
            s1.attach_fd(ino)
        }
    } else if dir_has(s.dir, path) {
        let ino = dir_ino(s.dir, path);
        let s1 = if flags & OPEN_TRUNC != 0 {
            s.with_data(ino, Seq::empty())
        } else {
            s
        };
        s1.attach_fd(ino)
    } else {
        s
    }
}

/// What `open` returns: the allocated descriptor, or failure when the path
/// is absent and the create bit is clear.
pub open spec fn open_ret(s: KernelM, path: Seq<u8>, flags: u32) -> int {
    if flags & OPEN_CREATE != 0 || dir_has(s.dir, path) {
        first_free(s.fds)
    } else {
        -1
    }
}

/// The state after `close(fd)`: the slot is cleared; an unoccupied
/// descriptor changes nothing.
pub open spec fn close_tr(s: KernelM, fd: int) -> KernelM {
    if occupied(s, fd) {
        KernelM { fds: s.fds.update(fd, None), ..s }
    } else {
        s
    }
}

/// What `close` returns.
pub open spec fn close_ret(s: KernelM, fd: int) -> int {
    if occupied(s, fd) {
        0
    } else {
        -1
    }
}

/// A file's bytes after writing `buf` at position `off`: bytes before `off`
/// are kept, a gap beyond the old end is zero-filled, and the written bytes
/// land at `off..off + buf.len()`.
pub open spec fn write_data(data: Seq<u8>, off: nat, buf: Seq<u8>) -> Seq<u8> {
    Seq::new(
        if data.len() >= off + buf.len() {
            data.len()
        } else {
            off + buf.len()
        },
        |i: int|
            if off <= i < off + buf.len() {
                buf[i - off]
            } else if i < data.len() {
                data[i]
            } else {
                0u8
            },
    )
}

/// The state after `write(fd, buf)`: the backing inode's bytes are spliced
/// at the descriptor's cursor and the cursor advances past what was written.
pub open spec fn write_tr(s: KernelM, fd: int, buf: Seq<u8>) -> KernelM {
    if occupied(s, fd) {
        let of = s.fds[fd]->0;
        let s1 = s.with_data(of.inode, write_data(s.inodes[of.inode].data, of.offset, buf));
        KernelM {
            fds: s.fds.update(fd, Some(OpenFileM { inode: of.inode, offset: of.offset + buf.len() })),
            ..s1
        }
    } else {
        s
    }
}

/// What `write` returns: every byte of the buffer, or failure on an
/// unoccupied descriptor.
pub open spec fn write_ret(s: KernelM, fd: int, buf: Seq<u8>) -> int {
    if occupied(s, fd) {
        buf.len() as int
    } else {
        -1
    }
}

/// How many bytes a read of `len` bytes through `fd` transfers: what is
/// left between the cursor and the end of the file, capped at `len`.
pub open spec fn read_count(s: KernelM, fd: int, len: nat) -> nat {
    if occupied(s, fd) {
        let of = s.fds[fd]->0;
        let avail = if s.inodes[of.inode].data.len() >= of.offset {
            (s.inodes[of.inode].data.len() - of.offset) as nat
        } else {
            0nat
        };
        if len <= avail {
            len
        } else {
            avail
        }
    } else {
        0
    }
}

/// The state after `read(fd, ..)` with a buffer of `len` bytes: only the
/// descriptor's cursor moves, past the bytes transferred.
pub open spec fn read_tr(s: KernelM, fd: int, len: nat) -> KernelM {
    if occupied(s, fd) {
        let of = s.fds[fd]->0;
        KernelM {
            fds: s.fds.update(
                fd,
                Some(OpenFileM { inode: of.inode, offset: of.offset + read_count(s, fd, len) }),
            ),
            ..s
        }
    } else {
        s
    }
}

/// What `read` returns.
pub open spec fn read_ret(s: KernelM, fd: int, len: nat) -> int {
    if occupied(s, fd) {
        read_count(s, fd, len) as int
    } else {
        -1
    }
}

/// The caller's buffer after `read`: each position below the transfer count
/// receives the file byte at the cursor plus that position; the rest keeps
/// its old contents.
pub open spec fn read_result(s: KernelM, fd: int, oldflat: Seq<u8>) -> Seq<u8> {
    if occupied(s, fd) {
        let of = s.fds[fd]->0;
        let data = s.inodes[of.inode].data;
        Seq::new(
            oldflat.len(),
            |p: int|
                if of.offset + p < data.len() {
                    data[of.offset + p]
                } else {
                    oldflat[p]
                },
        )
    } else {
        oldflat
    }
}

/// Whether `linkat(old_name, new_name)` succeeds: distinct names, the old
/// one present, the new one absent.
pub open spec fn linkat_ok(s: KernelM, old_name: Seq<u8>, new_name: Seq<u8>) -> bool {
    old_name != new_name && dir_has(s.dir, old_name) && !dir_has(s.dir, new_name)
}

/// The state after `linkat`: on success a new entry naming the old path's
/// inode is appended and that inode's link count grows by one.
pub open spec fn linkat_tr(s: KernelM, old_name: Seq<u8>, new_name: Seq<u8>) -> KernelM {
    if linkat_ok(s, old_name, new_name) {
        let ino = dir_ino(s.dir, old_name);
        KernelM {
            dir: s.dir.push(DirEntM { name: new_name, inode: ino }),
            inodes: s.inodes.update(
                ino,
                InodeM { data: s.inodes[ino].data, nlink: s.inodes[ino].nlink + 1 },
            ),
            ..s
        }
    } else {
        s
    }
}

/// What `linkat` returns.
pub open spec fn linkat_ret(s: KernelM, old_name: Seq<u8>, new_name: Seq<u8>) -> int {
    if linkat_ok(s, old_name, new_name) {
        0
    } else {
        -1
    }
}

/// The state after `unlinkat`: the entry is removed and its inode's link
/// count drops by one; a missing path changes nothing. The inode's bytes
/// stay, still reachable through any remaining link or open descriptor.
pub open spec fn unlinkat_tr(s: KernelM, name: Seq<u8>) -> KernelM {
    if dir_has(s.dir, name) {
        let i = dir_idx(s.dir, name);
        let ino = s.dir[i].inode;
        KernelM {
            dir: s.dir.remove(i),
            inodes: s.inodes.update(
                ino,
                InodeM { data: s.inodes[ino].data, nlink: (s.inodes[ino].nlink - 1) as nat },
            ),
            ..s
        }
    } else {
        s
    }
}

/// What `unlinkat` returns.
pub open spec fn unlinkat_ret(s: KernelM, name: Seq<u8>) -> int {
    if dir_has(s.dir, name) {
        0
    } else {
        -1
    }
}

/// Appending an entry raises the count for its inode by one and leaves
/// every other count unchanged.
pub proof fn lemma_links_to_push(dir: Seq<DirEntM>, e: DirEntM, ino: int)
    ensures
        links_to(dir.push(e), ino) == links_to(dir, ino) + if e.inode == ino {
            1nat
        } else {
            0nat
        },
{
    assert(dir.push(e).drop_last() =~= dir);
    assert(dir.push(e).last() == e);
}

/// Removing the entry at `k` lowers the count for its inode by one and
/// leaves every other count unchanged.
pub proof fn lemma_links_to_remove(dir: Seq<DirEntM>, k: int, ino: int)
    requires
        0 <= k < dir.len(),
    ensures
        links_to(dir, ino) == links_to(dir.remove(k), ino) + if dir[k].inode == ino {
            1nat
        } else {
            0nat
        },
    decreases dir.len(),
{
    if k == dir.len() - 1 {
        assert(dir.remove(k) =~= dir.drop_last());
    } else {
        assert(dir.remove(k).drop_last() =~= dir.drop_last().remove(k));
        assert(dir.remove(k).last() == dir.last());
        lemma_links_to_remove(dir.drop_last(), k, ino);
    }
}

/// An inode that no entry names has count zero.
pub proof fn lemma_links_to_zero(dir: Seq<DirEntM>, ino: int)
    requires
        forall|i: int| 0 <= i < dir.len() ==> (#[trigger] dir[i]).inode != ino,
    ensures
        links_to(dir, ino) == 0,
    decreases dir.len(),
{
    if dir.len() > 0 {
        lemma_links_to_zero(dir.drop_last(), ino);
    }
}

/// An entry that names `ino` witnesses a count of at least one.
pub proof fn lemma_links_to_pos(dir: Seq<DirEntM>, k: int)
    requires
        0 <= k < dir.len(),
    ensures
        links_to(dir, dir[k].inode) >= 1,
    decreases dir.len(),
{
    if k < dir.len() - 1 {
        lemma_links_to_pos(dir.drop_last(), k);
    }
}

/// The count never exceeds the directory's length.
pub proof fn lemma_links_to_bound(dir: Seq<DirEntM>, ino: int)
    ensures
        links_to(dir, ino) <= dir.len(),
    decreases dir.len(),
{
    if dir.len() > 0 {
        lemma_links_to_bound(dir.drop_last(), ino);
    }
}

/// What `first_free` returns: an index no larger than the table, with every
/// earlier slot occupied, and itself free when it lies inside the table.
pub proof fn lemma_first_free(fds: Seq<Option<OpenFileM>>)
    ensures
        0 <= first_free(fds) <= fds.len(),
        forall|j: int| 0 <= j < first_free(fds) ==> (#[trigger] fds[j]) is Some,
        first_free(fds) < fds.len() ==> fds[first_free(fds)] is None,
    decreases fds.len(),
{
    if fds.len() > 0 && !(fds[0] is None) {
        lemma_first_free(fds.drop_first());
        assert(forall|j: int|
            1 <= j < first_free(fds) ==> (#[trigger] fds[j]) == fds.drop_first()[j - 1]);
    }
}

/// Attaching a descriptor to an existing inode preserves well-formedness.
pub proof fn lemma_attach_fd_wf(s: KernelM, ino: int)
    requires
        s.wf(),
        0 <= ino < s.inodes.len(),
    ensures
        s.attach_fd(ino).wf(),
        occupied(s.attach_fd(ino), first_free(s.fds)),
        s.attach_fd(ino).fds[first_free(s.fds)] == Some(OpenFileM { inode: ino, offset: 0 }),
{
    lemma_first_free(s.fds);
}

/// Every syscall transition preserves well-formedness: `open`.
pub proof fn lemma_open_tr_wf(s: KernelM, path: Seq<u8>, flags: u32)
    requires
        s.wf(),
    ensures
        open_tr(s, path, flags).wf(),
{
    if flags & OPEN_CREATE != 0 {
        if dir_has(s.dir, path) {
            let ino = dir_ino(s.dir, path);
            lemma_attach_fd_wf(s.with_data(ino, Seq::empty()), ino);
        } else {
            let ino = s.inodes.len() as int;
            let s1 = KernelM {
                inodes: s.inodes.push(InodeM { data: Seq::empty(), nlink: 1 }),
                dir: s.dir.push(DirEntM { name: path, inode: ino }),
                ..s
            };
            assert forall|i: int| 0 <= i < s1.inodes.len() implies (#[trigger] s1.inodes[i]).nlink
                == links_to(s1.dir, i) by {
                lemma_links_to_push(s.dir, DirEntM { name: path, inode: ino }, i);
                if i == ino {
                    lemma_links_to_zero(s.dir, ino);
                }
            }
            lemma_attach_fd_wf(s1, ino);
        }
    } else if dir_has(s.dir, path) {
        let ino = dir_ino(s.dir, path);
        if flags & OPEN_TRUNC != 0 {
            lemma_attach_fd_wf(s.with_data(ino, Seq::empty()), ino);
        } else {
            lemma_attach_fd_wf(s, ino);
        }
    }
}

/// Every syscall transition preserves well-formedness: `close`.
pub proof fn lemma_close_tr_wf(s: KernelM, fd: int)
    requires
        s.wf(),
    ensures
        close_tr(s, fd).wf(),
{
}

/// Every syscall transition preserves well-formedness: `write`.
pub proof fn lemma_write_tr_wf(s: KernelM, fd: int, buf: Seq<u8>)
    requires
        s.wf(),
    ensures
        write_tr(s, fd, buf).wf(),
{
}

/// Every syscall transition preserves well-formedness: `read`.
pub proof fn lemma_read_tr_wf(s: KernelM, fd: int, len: nat)
    requires
        s.wf(),
    ensures
        read_tr(s, fd, len).wf(),
{
}

/// Every syscall transition preserves well-formedness: `linkat`.
pub proof fn lemma_linkat_tr_wf(s: KernelM, old_name: Seq<u8>, new_name: Seq<u8>)
    requires
        s.wf(),
    ensures
        linkat_tr(s, old_name, new_name).wf(),
{
    if linkat_ok(s, old_name, new_name) {
        let ino = dir_ino(s.dir, old_name);
        let s1 = linkat_tr(s, old_name, new_name);
        assert forall|i: int| 0 <= i < s1.inodes.len() implies (#[trigger] s1.inodes[i]).nlink
            == links_to(s1.dir, i) by {
            lemma_links_to_push(s.dir, DirEntM { name: new_name, inode: ino }, i);
        }
    }
}

/// Every syscall transition preserves well-formedness: `unlinkat`.
pub proof fn lemma_unlinkat_tr_wf(s: KernelM, name: Seq<u8>)
    requires
        s.wf(),
    ensures
        unlinkat_tr(s, name).wf(),
{
    if dir_has(s.dir, name) {
        let k = dir_idx(s.dir, name);
        let ino = s.dir[k].inode;
        let s1 = unlinkat_tr(s, name);
        lemma_links_to_pos(s.dir, k);
        assert forall|i: int, j: int| 0 <= i < j < s1.dir.len() implies s1.dir[i].name
            != s1.dir[j].name by {
            assert(s1.dir[i] == if i < k {
                s.dir[i]
            } else {
                s.dir[i + 1]
            });
            assert(s1.dir[j] == if j < k {
                s.dir[j]
            } else {
                s.dir[j + 1]
            });
        }
        assert forall|i: int| 0 <= i < s1.dir.len() implies 0 <= (#[trigger] s1.dir[i]).inode
            < s1.inodes.len() by {
            assert(s1.dir[i] == if i < k {
                s.dir[i]
            } else {
                s.dir[i + 1]
            });
        }
        assert forall|i: int| 0 <= i < s1.inodes.len() implies (#[trigger] s1.inodes[i]).nlink
            == links_to(s1.dir, i) by {
            lemma_links_to_remove(s.dir, k, i);
        }
    }
}

/// The converse: an index below which every slot is occupied and which is
/// itself free (or the table's end) is exactly `first_free`.
pub proof fn lemma_first_free_is(fds: Seq<Option<OpenFileM>>, k: int)
    requires
        0 <= k <= fds.len(),
        forall|j: int| 0 <= j < k ==> (#[trigger] fds[j]) is Some,
        k < fds.len() ==> fds[k] is None,
    ensures
        first_free(fds) == k,
    decreases fds.len(),
{
    if fds.len() > 0 && !(fds[0] is None) {
        lemma_first_free_is(fds.drop_first(), k - 1);
    }
}

} // verus!
