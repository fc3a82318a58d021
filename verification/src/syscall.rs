//! The seven file syscalls. Each entry point takes the kernel state
//! explicitly, validates the caller's descriptor or path, and is specified
//! exactly by the transition functions of `model`: the final state is the
//! transition of the initial one, and the signed return code is pinned for
//! every input. An unoccupied descriptor always yields `-1` and no effect.

use vstd::prelude::*;

use crate::buffer::{flatten_buffer, ranges_view, UserBuffer};
use crate::kernel::{
    bytes_eq, clone_bytes, find_dirent, inode_set_nlink, vec_replace, DirEnt, Inode, Kernel,
    OpenFile, Stat,
};
use crate::model::{
    close_ret, close_tr, dir_has, flags_ok, lemma_close_tr_wf, lemma_links_to_bound,
    lemma_links_to_pos, lemma_open_tr_wf, linkat_ret, linkat_tr, occupied, open_ret, open_tr,
    read_ret, read_result, read_tr, unlinkat_ret, unlinkat_tr, write_ret, write_tr, InodeM,
    KernelM, OpenFileM, MODE_FILE, OPEN_CREATE, OPEN_TRUNC,
};

verus! {

/// Closes descriptor `fd`: clears the slot, dropping the task's handle on
/// the open file; the index is free for reuse afterwards. Returns `0`, or
/// `-1` for an out-of-range or already-empty descriptor, with no effect.
pub fn sys_close(k: &mut Kernel, fd: usize) -> (r: isize)
    requires
        old(k)@.wf(),
    ensures
        final(k)@ == close_tr(old(k)@, fd as int),
        r == close_ret(old(k)@, fd as int),
        final(k)@.wf(),
        !occupied(old(k)@, fd as int) ==> r == -1 && final(k)@ == old(k)@,
{
    proof {
        lemma_close_tr_wf(old(k)@, fd as int);
    }
    if fd >= k.fd_table.len() {
        return -1;
    }
    if k.fd_table[fd].is_none() {
        return -1;
    }
    vec_replace(&mut k.fd_table, fd, None);
    proof {
        assert(k@.fds =~= old(k)@.fds.update(fd as int, None));
        assert(k@.inodes =~= old(k)@.inodes);
        assert(k@.dir =~= old(k)@.dir);
    }
    0
}

/// Reports inode identity and metadata for descriptor `fd` into the
/// caller's record: `device_id` is always `0`; inode number, mode and link
/// count are copied verbatim from the backing inode at call time. Returns
/// `0`, or `-1` for an invalid descriptor, leaving the record untouched.
pub fn sys_fstat(k: &Kernel, fd: usize, st: &mut Stat) -> (r: isize)
    requires
        k@.wf(),
    ensures
        r == if occupied(k@, fd as int) {
            0int
        } else {
            -1int
        },
        occupied(k@, fd as int) ==> {
            let of = k@.fds[fd as int]->0;
            &&& final(st).dev == 0
            &&& final(st).ino as int == of.inode
            &&& final(st).mode == MODE_FILE
            &&& final(st).nlink as nat == k@.inodes[of.inode].nlink
        },
        !occupied(k@, fd as int) ==> *final(st) == *old(st),
{
    if fd >= k.fd_table.len() {
        return -1;
    }
    let slot = k.fd_table[fd];
    match slot {
        Some(file) => {
            let nl = k.inodes[file.inode].nlink;
            st.dev = 0;
            st.ino = file.inode as u64;
            st.mode = MODE_FILE;
            st.nlink = nl;
            0
        },
        None => -1,
    }
}

/// Opens `path` with the given flag bits and returns the lowest free
/// descriptor index, bound to a fresh handle with its cursor at zero. With
/// the create bit the file is created (or an existing one truncated); with
/// the truncate bit alone an existing file is emptied; without the create
/// bit a missing path fails with `-1` and no effect.
pub fn sys_open(k: &mut Kernel, path: &Vec<u8>, flags: u32) -> (r: isize)
    requires
        old(k)@.wf(),
        flags_ok(flags),
        old(k)@.fds.len() < isize::MAX,
    ensures
        final(k)@ == open_tr(old(k)@, path@, flags),
        r == open_ret(old(k)@, path@, flags),
        final(k)@.wf(),
        r >= 0 <==> (flags & OPEN_CREATE != 0 || dir_has(old(k)@.dir, path@)),
{
    proof {
        lemma_open_tr_wf(old(k)@, path@, flags);
        crate::model::lemma_first_free(old(k)@.fds);
    }
    let create = flags & OPEN_CREATE != 0;
    let trunc = flags & OPEN_TRUNC != 0;
    let found = find_dirent(k, path);
    let ino: usize;
    match found {
        Some(di) => {
            ino = k.dir[di].inode;
            if create || trunc {
                let nl = k.inodes[ino].nlink;
                vec_replace(&mut k.inodes, ino, Inode { data: Vec::new(), nlink: nl });
                proof {
                    assert(k@.inodes =~= old(k)@.inodes.update(
                        ino as int,
                        InodeM { data: Seq::empty(), nlink: old(k)@.inodes[ino as int].nlink },
                    ));
                    assert(k@.dir =~= old(k)@.dir);
                    assert(k@.fds =~= old(k)@.fds);
                }
            }
        },
        None => {
            if !create {
                return -1;
            }
            ino = k.inodes.len();
            k.inodes.push(Inode { data: Vec::new(), nlink: 1 });
            k.dir.push(DirEnt { name: clone_bytes(path), inode: ino });
            proof {
                assert(k@.inodes =~= old(k)@.inodes.push(
                    InodeM { data: Seq::empty(), nlink: 1 },
                ));
                assert(k@.dir =~= old(k)@.dir.push(
                    crate::model::DirEntM { name: path@, inode: ino as int },
                ));
                assert(k@.fds =~= old(k)@.fds);
            }
        },
    }
    let ghost mid: KernelM = k@;
    let fd = k.alloc_fd();
    let ghost mid2: KernelM = k@;
    vec_replace(&mut k.fd_table, fd, Some(OpenFile { inode: ino, offset: 0 }));
    proof {
        let slot = Some(OpenFileM { inode: ino as int, offset: 0 });
        assert(k@.fds =~= mid2.fds.update(fd as int, slot));
        if fd as int == mid.fds.len() {
            assert(mid2.fds.update(fd as int, slot) =~= mid.fds.push(slot));
        } else {
            assert(mid2.fds.update(fd as int, slot) =~= mid.fds.update(fd as int, slot));
        }
        assert(k@.inodes =~= mid.inodes);
        assert(k@.dir =~= mid.dir);
        assert(k@ == mid.attach_fd(ino as int));
        assert(k@ == open_tr(old(k)@, path@, flags));
    }
    fd as isize
}

/// A file's bytes after writing `add` at position `off`: kept prefix,
/// zero-filled gap, written bytes, kept suffix.
fn splice(data: &Vec<u8>, off: usize, add: &Vec<u8>) -> (r: Vec<u8>)
    requires
        off + add@.len() <= usize::MAX,
    ensures
        r@ == crate::model::write_data(data@, off as nat, add@),
{
    let ghost target = crate::model::write_data(data@, off as nat, add@);
    let end = if data.len() >= off + add.len() {
        data.len()
    } else {
        off + add.len()
    };
    let mut r: Vec<u8> = Vec::new();
    let mut i: usize = 0;
    while i < end
        invariant
            i <= end,
            end == target.len(),
            off + add@.len() <= usize::MAX,
            target == crate::model::write_data(data@, off as nat, add@),
            r@ == target.take(i as int),
        decreases end - i,
    {
        let b: u8 = if off <= i && i - off < add.len() {
            add[i - off]
        } else if i < data.len() {
            data[i]
        } else {
            0u8
        };
        r.push(b);
        i += 1;
        proof {
            assert(b == target[i - 1]);
            assert(target.take(i as int) =~= target.take(i - 1).push(target[i - 1]));
        }
    }
    proof {
        assert(target.take(target.len() as int) =~= target);
    }
    r
}

/// Writes the buffer's bytes through descriptor `fd` at its cursor,
/// splicing them into the backing inode and advancing the cursor past what
/// was written. Every byte of the buffer is transferred; the ranges of a
/// buffer spanning several pages land in order. Returns the byte count, or
/// `-1` for an invalid descriptor, with no effect.
pub fn sys_write(k: &mut Kernel, fd: usize, buf: &UserBuffer) -> (r: isize)
    requires
        old(k)@.wf(),
        buf.flat().len() <= isize::MAX,
        occupied(old(k)@, fd as int) ==> old(k)@.fds[fd as int]->0.offset + buf.flat().len()
            <= usize::MAX,
    ensures
        final(k)@ == write_tr(old(k)@, fd as int, buf.flat()),
        r == write_ret(old(k)@, fd as int, buf.flat()),
        final(k)@.wf(),
        !occupied(old(k)@, fd as int) ==> r == -1 && final(k)@ == old(k)@,
{
    proof {
        crate::model::lemma_write_tr_wf(old(k)@, fd as int, buf.flat());
    }
    if fd >= k.fd_table.len() {
        return -1;
    }
    let slot = k.fd_table[fd];
    match slot {
        Some(file) => {
            let flat = flatten_buffer(buf);
            let len = flat.len();
            let new_data = splice(&k.inodes[file.inode].data, file.offset, &flat);
            let nl = k.inodes[file.inode].nlink;
            vec_replace(&mut k.inodes, file.inode, Inode { data: new_data, nlink: nl });
            vec_replace(
                &mut k.fd_table,
                fd,
                Some(OpenFile { inode: file.inode, offset: file.offset + len }),
            );
            proof {
                let t = write_tr(old(k)@, fd as int, buf.flat());
                assert(k@.inodes =~= t.inodes);
                assert(k@.dir =~= t.dir);
                assert(k@.fds =~= t.fds);
            }
            len as isize
        },
        None => -1,
    }
}

/// Reads from descriptor `fd`'s cursor into the caller's buffer, filling
/// its ranges in order until the buffer or the file is exhausted, and
/// advancing the cursor past the bytes transferred. The ranges keep their
/// lengths, the assembled bytes land in caller order, and positions past
/// the transfer keep their old contents. Returns the byte count, or `-1`
/// for an invalid descriptor, with no effect on kernel or buffer.
pub fn sys_read(k: &mut Kernel, fd: usize, buf: &mut UserBuffer) -> (r: isize)
    requires
        old(k)@.wf(),
        old(buf).flat().len() <= isize::MAX,
    ensures
        final(k)@ == read_tr(old(k)@, fd as int, old(buf).flat().len()),
        r == read_ret(old(k)@, fd as int, old(buf).flat().len()),
        final(k)@.wf(),
        final(buf)@.len() == old(buf)@.len(),
        forall|i: int|
            0 <= i < old(buf)@.len() ==> (#[trigger] final(buf)@[i]).len() == old(buf)@[i].len(),
        final(buf).flat() == read_result(old(k)@, fd as int, old(buf).flat()),
        !occupied(old(k)@, fd as int) ==> r == -1 && final(k)@ == old(k)@ && final(buf)@ == old(
            buf,
        )@,
{
    proof {
        crate::model::lemma_read_tr_wf(old(k)@, fd as int, old(buf).flat().len());
    }
    if fd >= k.fd_table.len() {
        return -1;
    }
    let slot = k.fd_table[fd];
    match slot {
        Some(file) => {
            let ghost s0 = k@;
            let ghost oldflat = buf.flat();
            let ghost tgt = read_result(s0, fd as int, oldflat);
            proof {
                assert(s0.fds[fd as int] == Some(file@));
                assert(oldflat.skip(0) =~= oldflat);
                assert(buf@.skip(0) =~= buf@);
                assert(ranges_view(Seq::<Vec<u8>>::empty()).flatten() =~= tgt.take(0));
            }
            let dlen = k.inodes[file.inode].data.len();
            let avail: usize = if dlen > file.offset {
                dlen - file.offset
            } else {
                0
            };
            let nranges = buf.ranges.len();
            let mut out: Vec<Vec<u8>> = Vec::new();
            let mut pos: usize = 0;
            let mut i: usize = 0;
            while i < nranges
                invariant
                    i <= nranges,
                    pos <= oldflat.len(),
                    *k == *old(k),
                    *buf == *old(buf),
                    s0 == k@,
                    s0.wf(),
                    occupied(s0, fd as int),
                    s0.fds[fd as int] == Some(file@),
                    file.inode < k.inodes.len(),
                    nranges == buf.ranges.len(),
                    oldflat == buf.flat(),
                    tgt == read_result(s0, fd as int, oldflat),
                    tgt.len() == oldflat.len(),
                    oldflat.len() <= isize::MAX,
                    dlen as int == s0.inodes[file@.inode].data.len(),
                    avail as int == if s0.inodes[file@.inode].data.len() > file@.offset {
                        s0.inodes[file@.inode].data.len() - file@.offset
                    } else {
                        0
                    },
                    out@.len() == i,
                    forall|m: int|
                        0 <= m < i ==> (#[trigger] ranges_view(out@)[m]).len() == buf@[m].len(),
                    ranges_view(out@).flatten() == tgt.take(pos as int),
                    oldflat.skip(pos as int) == buf@.skip(i as int).flatten(),
                decreases nranges - i,
            {
                let rlen = buf.ranges[i].len();
                let ghost pos0 = pos as int;
                proof {
                    crate::buffer::lemma_flatten_skip_step(buf@, i as int);
                    assert(oldflat.skip(pos0) == buf@[i as int] + buf@.skip(i + 1).flatten());
                    assert(pos0 + rlen <= oldflat.len());
                    assert(tgt.subrange(pos0, pos0) =~= Seq::<u8>::empty());
                }
                let mut nr: Vec<u8> = Vec::new();
                let mut j: usize = 0;
                while j < rlen
                    invariant
                        j <= rlen,
                        pos as int == pos0 + j,
                        pos0 + rlen <= oldflat.len(),
                        0 <= pos0,
                        i < nranges,
                        *k == *old(k),
                        *buf == *old(buf),
                        s0 == k@,
                        s0.wf(),
                        occupied(s0, fd as int),
                        s0.fds[fd as int] == Some(file@),
                        file.inode < k.inodes.len(),
                        nranges == buf.ranges.len(),
                        oldflat == buf.flat(),
                        rlen == buf@[i as int].len(),
                        tgt == read_result(s0, fd as int, oldflat),
                        tgt.len() == oldflat.len(),
                        oldflat.len() <= isize::MAX,
                        dlen as int == s0.inodes[file@.inode].data.len(),
                        avail as int == if s0.inodes[file@.inode].data.len() > file@.offset {
                            s0.inodes[file@.inode].data.len() - file@.offset
                        } else {
                            0
                        },
                        nr@ == tgt.subrange(pos0, pos as int),
                        oldflat.skip(pos0) == buf@[i as int] + buf@.skip(i + 1).flatten(),
                    decreases rlen - j,
                {
                    let b: u8 = if pos < avail {
                        k.inodes[file.inode].data[file.offset + pos]
                    } else {
                        buf.ranges[i][j]
                    };
                    nr.push(b);
                    proof {
                        let p = pos as int;
                        if p < avail {
                            assert(tgt[p] == s0.inodes[file@.inode].data[file@.offset + p]);
                        } else {
                            assert(tgt[p] == oldflat[p]);
                            assert(oldflat[p] == oldflat.skip(pos0)[j as int]);
                            assert(oldflat.skip(pos0)[j as int] == buf@[i as int][j as int]);
                        }
                        assert(tgt.subrange(pos0, p + 1) =~= tgt.subrange(pos0, p).push(tgt[p]));
                    }
                    pos += 1;
                    j += 1;
                }
                let ghost out_before = out@;
                out.push(nr);
                i += 1;
                proof {
                    assert(ranges_view(out@) =~= ranges_view(out_before).push(nr@));
                    ranges_view(out_before).lemma_flatten_push(nr@);
                    assert(tgt.take(pos as int) =~= tgt.take(pos0) + tgt.subrange(
                        pos0,
                        pos as int,
                    ));
                    assert(oldflat.skip(pos as int) =~= oldflat.skip(pos0).skip(rlen as int));
                    assert((buf@[i - 1] + buf@.skip(i as int).flatten()).skip(rlen as int) =~= buf@
                        .skip(i as int).flatten());
                }
            }
            proof {
                assert(buf@.skip(nranges as int) =~= Seq::<Seq<u8>>::empty());
                assert(buf@.skip(nranges as int).flatten() =~= Seq::<u8>::empty());
                assert(pos == oldflat.len());
                assert(tgt.take(pos as int) =~= tgt);
            }
            let copied = if pos <= avail {
                pos
            } else {
                avail
            };
            buf.ranges = out;
            vec_replace(
                &mut k.fd_table,
                fd,
                Some(OpenFile { inode: file.inode, offset: file.offset + copied }),
            );
            proof {
                let t = read_tr(s0, fd as int, oldflat.len());
                assert(k@.fds =~= t.fds);
                assert(k@.inodes =~= t.inodes);
                assert(k@.dir =~= t.dir);
            }
            copied as isize
        },
        None => -1,
    }
}

/// Creates a second directory entry (a hard link) for the file named by
/// `old_name` under `new_name`, raising the inode's link count by one.
/// Identical names are rejected with `-1` before touching the filesystem,
/// whether or not the path exists; a missing old path or an already-taken
/// new path also fails with `-1` and no effect.
pub fn sys_linkat(k: &mut Kernel, old_name: &Vec<u8>, new_name: &Vec<u8>) -> (r: isize)
    requires
        old(k)@.wf(),
        old(k)@.dir.len() < u32::MAX,
    ensures
        final(k)@ == linkat_tr(old(k)@, old_name@, new_name@),
        r == linkat_ret(old(k)@, old_name@, new_name@),
        final(k)@.wf(),
        old_name@ == new_name@ ==> r == -1 && final(k)@ == old(k)@,
{
    proof {
        crate::model::lemma_linkat_tr_wf(old(k)@, old_name@, new_name@);
    }
    if bytes_eq(old_name, new_name) {
        return -1;
    }
    let found_old = find_dirent(k, old_name);
    match found_old {
        Some(oi) => {
            if find_dirent(k, new_name).is_some() {
                return -1;
            }
            let ino = k.dir[oi].inode;
            let nl = k.inodes[ino].nlink;
            proof {
                lemma_links_to_bound(k@.dir, ino as int);
            }
            inode_set_nlink(&mut k.inodes, ino, nl + 1);
            k.dir.push(DirEnt { name: clone_bytes(new_name), inode: ino });
            proof {
                let t = linkat_tr(old(k)@, old_name@, new_name@);
                assert(k@.inodes =~= t.inodes);
                assert(k@.dir =~= t.dir);
                assert(k@.fds =~= t.fds);
            }
            0
        },
        None => -1,
    }
}

/// Removes the directory entry named by `name` and lowers its inode's link
/// count by one; the file's bytes stay, still reachable through any
/// remaining link or open descriptor. Returns `0`, or `-1` when no entry
/// carries the name, with no effect.
pub fn sys_unlinkat(k: &mut Kernel, name: &Vec<u8>) -> (r: isize)
    requires
        old(k)@.wf(),
    ensures
        final(k)@ == unlinkat_tr(old(k)@, name@),
        r == unlinkat_ret(old(k)@, name@),
        final(k)@.wf(),
{
    proof {
        crate::model::lemma_unlinkat_tr_wf(old(k)@, name@);
    }
    let found = find_dirent(k, name);
    match found {
        Some(di) => {
            let ino = k.dir[di].inode;
            proof {
                lemma_links_to_pos(k@.dir, di as int);
            }
            let nl = k.inodes[ino].nlink;
            inode_set_nlink(&mut k.inodes, ino, nl - 1);
            k.dir.remove(di);
            proof {
                let t = unlinkat_tr(old(k)@, name@);
                assert(k@.inodes =~= t.inodes);
                assert(k@.dir =~= t.dir);
                assert(k@.fds =~= t.fds);
            }
            0
        },
        None => -1,
    }
}

} // verus!
