//! Laws of the syscall layer, proved over the transition functions of
//! `model` that the executable syscalls are specified by.

use vstd::prelude::*;

use crate::model::{
    close_tr, dir_has, dir_idx, dir_ino, first_free, lemma_attach_fd_wf, lemma_first_free,
    lemma_first_free_is, lemma_linkat_tr_wf, lemma_open_tr_wf, linkat_ok, linkat_ret, linkat_tr,
    occupied, open_ret, open_tr, read_result, read_ret, unlinkat_ret, unlinkat_tr, write_data,
    write_tr, DirEntM, KernelM, OpenFileM, OPEN_CREATE,
};

verus! {

/// Creating a file, writing it, closing the descriptor and reopening the
/// same path yields a valid descriptor whose read returns exactly the bytes
/// written: the round trip through the filesystem is lossless.
pub proof fn lemma_create_write_close_reopen_read(
    s: KernelM,
    path: Seq<u8>,
    w: Seq<u8>,
    oldflat: Seq<u8>,
)
    requires
        s.wf(),
        oldflat.len() == w.len(),
    ensures
        ({
            let fd = open_ret(s, path, OPEN_CREATE);
            let s1 = open_tr(s, path, OPEN_CREATE);
            let s2 = write_tr(s1, fd, w);
            let s3 = close_tr(s2, fd);
            let fd2 = open_ret(s3, path, 0);
            let s4 = open_tr(s3, path, 0);
            &&& fd >= 0
            &&& fd2 >= 0
            &&& occupied(s4, fd2)
            &&& read_ret(s4, fd2, oldflat.len()) == w.len()
            &&& read_result(s4, fd2, oldflat) == w
        }),
{
    let fd = open_ret(s, path, OPEN_CREATE);
    let s1 = open_tr(s, path, OPEN_CREATE);
    let s2 = write_tr(s1, fd, w);
    let s3 = close_tr(s2, fd);
    let fd2 = open_ret(s3, path, 0);
    let s4 = open_tr(s3, path, 0);
    lemma_first_free(s.fds);
    lemma_open_tr_wf(s, path, OPEN_CREATE);
    assert(OPEN_CREATE & OPEN_CREATE != 0) by (bit_vector);

    // The created inode and the state after open.
    let ino = if dir_has(s.dir, path) {
        dir_ino(s.dir, path)
    } else {
        s.inodes.len() as int
    };
    if dir_has(s.dir, path) {
        lemma_attach_fd_wf(s.with_data(ino, Seq::empty()), ino);
    } else {
        let grown = KernelM {
            inodes: s.inodes.push(crate::model::InodeM { data: Seq::empty(), nlink: 1 }),
            dir: s.dir.push(DirEntM { name: path, inode: ino }),
            ..s
        };
        lemma_attach_fd_wf(grown, ino);
    }
    assert(s1.fds[fd] == Some(OpenFileM { inode: ino, offset: 0 }));
    assert(s1.inodes[ino].data =~= Seq::<u8>::empty());
    assert(s1.dir[dir_idx(s1.dir, path)].name == path && dir_ino(s1.dir, path) == ino) by {
        if dir_has(s.dir, path) {
            assert(s1.dir == s.dir);
        } else {
            assert(s1.dir[s.dir.len() as int].name == path);
            let c = dir_idx(s1.dir, path);
            assert(0 <= c < s1.dir.len() && s1.dir[c].name == path);
            if c != s.dir.len() as int {
                assert(s1.dir[c] == s.dir[c]);
                assert(dir_has(s.dir, path));
            }
        }
    }

    // Write lands the bytes at the start of the file.
    assert(occupied(s1, fd));
    assert(write_data(s1.inodes[ino].data, 0, w) =~= w);
    assert(s2.inodes[ino].data == w);
    assert(s2.dir == s1.dir);

    // Close clears only the slot.
    assert(occupied(s2, fd));
    assert(s3.dir == s1.dir && s3.inodes == s2.inodes);

    // The reopen finds the same inode, now holding the written bytes.
    assert(dir_has(s3.dir, path)) by {
        assert(s3.dir[dir_idx(s1.dir, path)].name == path);
    }
    assert(fd2 == first_free(s3.fds) && fd2 >= 0) by {
        lemma_first_free(s3.fds);
    }
    assert(0u32 & OPEN_CREATE == 0 && 0u32 & crate::model::OPEN_TRUNC == 0) by (bit_vector);
    assert(dir_ino(s3.dir, path) == ino) by {
        lemma_open_tr_wf(s, path, OPEN_CREATE);
        let c = dir_idx(s3.dir, path);
        let c1 = dir_idx(s1.dir, path);
        assert(0 <= c < s3.dir.len() && s3.dir[c].name == path);
        assert(s1.wf());
        if c != c1 {
            assert(s1.dir[c].name != s1.dir[c1].name);
        }
    }
    lemma_attach_fd_wf(s3, ino);
    assert(s4.fds[fd2] == Some(OpenFileM { inode: ino, offset: 0 }));
    assert(s4.inodes[ino].data == w);

    // Reading from the fresh cursor returns the written bytes.
    assert(read_result(s4, fd2, oldflat) =~= w);
}

/// Lowest-free-slot reuse: when an open returned descriptor `fd` and that
/// descriptor was closed again, the next successful open returns `fd`
/// again, never a higher index while `fd` is free.
pub proof fn lemma_close_then_open_reuses_fd(
    s: KernelM,
    p1: Seq<u8>,
    f1: u32,
    p2: Seq<u8>,
    f2: u32,
)
    requires
        s.wf(),
        open_ret(s, p1, f1) >= 0,
    ensures
        ({
            let fd = open_ret(s, p1, f1);
            let s1 = open_tr(s, p1, f1);
            let s2 = close_tr(s1, fd);
            open_ret(s2, p2, f2) >= 0 ==> open_ret(s2, p2, f2) == fd
        }),
{
    let fd = open_ret(s, p1, f1);
    let s1 = open_tr(s, p1, f1);
    let s2 = close_tr(s1, fd);
    lemma_first_free(s.fds);
    assert(fd == first_free(s.fds));
    assert(s1.fds[fd] == Some(OpenFileM { inode: open_ino(s, p1, f1), offset: 0 }));
    assert(forall|j: int| 0 <= j < fd ==> (#[trigger] s1.fds[j]) == s.fds[j]);
    assert(s2.fds[fd] is None);
    assert(forall|j: int| 0 <= j < fd ==> (#[trigger] s2.fds[j]) is Some);
    lemma_first_free_is(s2.fds, fd);
}

/// The inode an `open` attaches its new descriptor to.
pub open spec fn open_ino(s: KernelM, path: Seq<u8>, flags: u32) -> int {
    if flags & OPEN_CREATE != 0 && !dir_has(s.dir, path) {
        s.inodes.len() as int
    } else {
        dir_ino(s.dir, path)
    }
}

/// Linking `b` to a singly-linked file `a` succeeds, and a descriptor then
/// opened on `b` shares `a`'s inode; the shared inode reports a link count
/// of two, so `fstat` on descriptors for `a` and for `b` agree.
pub proof fn lemma_link_shares_inode(s: KernelM, a: Seq<u8>, b: Seq<u8>, fda: int)
    requires
        s.wf(),
        dir_has(s.dir, a),
        occupied(s, fda),
        s.fds[fda]->0.inode == dir_ino(s.dir, a),
        s.inodes[dir_ino(s.dir, a)].nlink == 1,
        a != b,
        !dir_has(s.dir, b),
    ensures
        ({
            let ino = dir_ino(s.dir, a);
            let s1 = linkat_tr(s, a, b);
            let s2 = open_tr(s1, b, 0);
            let fdb = open_ret(s1, b, 0);
            &&& linkat_ret(s, a, b) == 0
            &&& fdb >= 0
            &&& fdb != fda
            &&& occupied(s2, fda) && s2.fds[fda]->0.inode == ino
            &&& occupied(s2, fdb) && s2.fds[fdb]->0.inode == ino
            &&& s2.inodes[ino].nlink == 2
        }),
{
    let ino = dir_ino(s.dir, a);
    let s1 = linkat_tr(s, a, b);
    let s2 = open_tr(s1, b, 0);
    let fdb = open_ret(s1, b, 0);
    assert(linkat_ok(s, a, b));
    lemma_linkat_tr_wf(s, a, b);
    assert(s1.inodes[ino].nlink == 2);
    assert(s1.fds == s.fds);
    assert(dir_has(s1.dir, b)) by {
        assert(s1.dir[s.dir.len() as int].name == b);
    }
    assert(0u32 & OPEN_CREATE == 0 && 0u32 & crate::model::OPEN_TRUNC == 0) by (bit_vector);
    assert(dir_ino(s1.dir, b) == ino) by {
        let c = dir_idx(s1.dir, b);
        assert(0 <= c < s1.dir.len() && s1.dir[c].name == b);
        if c != s.dir.len() as int {
            assert(s1.dir[c] == s.dir[c]);
            assert(dir_has(s.dir, b));
        }
    }
    lemma_first_free(s1.fds);
    assert(fdb == first_free(s1.fds));
    if fdb < s1.fds.len() {
        assert(s1.fds[fdb] is None);
    }
    lemma_attach_fd_wf(s1, ino);
    assert(s2.fds[fdb] == Some(OpenFileM { inode: ino, offset: 0 }));
    assert(s2.fds[fda] == s.fds[fda]);
    assert(s2.inodes == s1.inodes);
}

/// Unlinking `a` while `b` still names the same inode leaves the file's
/// bytes untouched and reachable: `b` still resolves to the inode, a
/// descriptor open on it reads exactly what it read before, and the link
/// count reported for the inode drops to one.
pub proof fn lemma_unlink_keeps_other_link(
    s: KernelM,
    a: Seq<u8>,
    b: Seq<u8>,
    fd: int,
    oldflat: Seq<u8>,
)
    requires
        s.wf(),
        dir_has(s.dir, a),
        dir_has(s.dir, b),
        a != b,
        dir_ino(s.dir, b) == dir_ino(s.dir, a),
        s.inodes[dir_ino(s.dir, a)].nlink == 2,
        occupied(s, fd),
        s.fds[fd]->0.inode == dir_ino(s.dir, a),
    ensures
        ({
            let ino = dir_ino(s.dir, a);
            let s1 = unlinkat_tr(s, a);
            &&& unlinkat_ret(s, a) == 0
            &&& dir_has(s1.dir, b) && dir_ino(s1.dir, b) == ino
            &&& s1.inodes[ino].data == s.inodes[ino].data
            &&& s1.inodes[ino].nlink == 1
            &&& s1.fds == s.fds
            &&& read_result(s1, fd, oldflat) == read_result(s, fd, oldflat)
            &&& read_ret(s1, fd, oldflat.len()) == read_ret(s, fd, oldflat.len())
        }),
{
    let ino = dir_ino(s.dir, a);
    let s1 = unlinkat_tr(s, a);
    let ia = dir_idx(s.dir, a);
    let ib = dir_idx(s.dir, b);
    assert(0 <= ia < s.dir.len() && s.dir[ia].name == a);
    assert(0 <= ib < s.dir.len() && s.dir[ib].name == b);
    assert(ia != ib);
    crate::model::lemma_unlinkat_tr_wf(s, a);
    let ib1 = if ib < ia {
        ib
    } else {
        ib - 1
    };
    assert(s1.dir[ib1] == s.dir[ib]);
    assert(dir_has(s1.dir, b));
    assert(dir_ino(s1.dir, b) == ino) by {
        let c = dir_idx(s1.dir, b);
        assert(0 <= c < s1.dir.len() && s1.dir[c].name == b);
        assert(s1.wf());
        if c != ib1 {
            assert(s1.dir[c].name != s1.dir[ib1].name);
        }
    }
    assert(read_result(s1, fd, oldflat) =~= read_result(s, fd, oldflat));
}

/// What a write lays down is exactly what is read back: any descriptor on
/// the written inode whose cursor sits where the write began reads the
/// written bytes, however the caller's buffers were split into ranges.
pub proof fn lemma_write_then_read(s: KernelM, fd: int, w: Seq<u8>, fd2: int, oldflat: Seq<u8>)
    requires
        s.wf(),
        occupied(s, fd),
        oldflat.len() == w.len(),
    ensures
        ({
            let s1 = write_tr(s, fd, w);
            (occupied(s1, fd2) && s1.fds[fd2]->0.inode == s.fds[fd]->0.inode
                && s1.fds[fd2]->0.offset == s.fds[fd]->0.offset) ==> {
                &&& read_result(s1, fd2, oldflat) == w
                &&& read_ret(s1, fd2, oldflat.len()) == w.len()
            }
        }),
{
    let s1 = write_tr(s, fd, w);
    let of = s.fds[fd]->0;
    if occupied(s1, fd2) && s1.fds[fd2]->0.inode == of.inode && s1.fds[fd2]->0.offset
        == of.offset {
        assert(s1.inodes[of.inode].data == write_data(s.inodes[of.inode].data, of.offset, w));
        assert(s1.inodes[of.inode].data.len() >= of.offset + w.len());
        assert(read_result(s1, fd2, oldflat) =~= w);
    }
}

} // verus!
