//! The executable kernel state that the syscall layer operates on: the inode
//! table, the directory, and the current task's file-descriptor table, with
//! views into the mathematical model of `model`.

use vstd::prelude::*;

use crate::model::{
    dir_has, dir_idx, dir_ino, first_free, DirEntM, InodeM, KernelM, OpenFileM,
};

verus! {

/// One inode: the file's bytes and its directory link count.
pub struct Inode {
    pub data: Vec<u8>,
    pub nlink: u32,
}

/// One directory entry: a path name bound to an inode index.
pub struct DirEnt {
    pub name: Vec<u8>,
    pub inode: usize,
}

/// One open file: the inode backing it and the read/write cursor. Shared
/// state lives in the inode table; a descriptor slot owns only this handle.
#[derive(Clone, Copy)]
pub struct OpenFile {
    pub inode: usize,
    pub offset: usize,
}

/// The record `fstat` copies into caller memory: a point-in-time snapshot
/// of inode identity and metadata, in fixed field order.
pub struct Stat {
    pub dev: u64,
    pub ino: u64,
    pub mode: u32,
    pub nlink: u32,
}

/// The kernel state seen by the syscall layer. The descriptor table belongs
/// to the current task; callers hand the state in explicitly.
pub struct Kernel {
    pub inodes: Vec<Inode>,
    pub dir: Vec<DirEnt>,
    pub fd_table: Vec<Option<OpenFile>>,
}

impl View for Inode {
    type V = InodeM;

    open spec fn view(&self) -> InodeM {
        InodeM { data: self.data@, nlink: self.nlink as nat }
    }
}

impl View for DirEnt {
    type V = DirEntM;

    open spec fn view(&self) -> DirEntM {
        DirEntM { name: self.name@, inode: self.inode as int }
    }
}

impl View for OpenFile {
    type V = OpenFileM;

    open spec fn view(&self) -> OpenFileM {
        OpenFileM { inode: self.inode as int, offset: self.offset as nat }
    }
}

impl View for Kernel {
    type V = KernelM;

    open spec fn view(&self) -> KernelM {
        KernelM {
            inodes: Seq::new(self.inodes@.len(), |i: int| self.inodes@[i]@),
            dir: Seq::new(self.dir@.len(), |i: int| self.dir@[i]@),
            fds: Seq::new(
                self.fd_table@.len(),
                |i: int|
                    match self.fd_table@[i] {
                        Some(of) => Some(of@),
                        None => None,
                    },
            ),
        }
    }
}

impl Kernel {
    /// A kernel with no files, no directory entries and no open descriptors.
    pub fn new() -> (k: Kernel)
        ensures
            k@ == (KernelM { inodes: Seq::empty(), dir: Seq::empty(), fds: Seq::empty() }),
            k@.wf(),
    {
        let k = Kernel { inodes: Vec::new(), dir: Vec::new(), fd_table: Vec::new() };
        proof {
            assert(k@.inodes =~= Seq::<InodeM>::empty());
            assert(k@.dir =~= Seq::<DirEntM>::empty());
            assert(k@.fds =~= Seq::<Option<OpenFileM>>::empty());
        }
        k
    }

    /// Returns the lowest free descriptor index — the first empty slot in
    /// ascending order — growing the table by one empty slot when every
    /// index is in use. The slot at the returned index is left empty.
    pub fn alloc_fd(&mut self) -> (fd: usize)
        ensures
            fd as int == first_free(old(self)@.fds),
            final(self)@.inodes == old(self)@.inodes,
            final(self)@.dir == old(self)@.dir,
            final(self)@.fds == if fd as int == old(self)@.fds.len() {
                old(self)@.fds.push(None)
            } else {
                old(self)@.fds
            },
            fd < final(self)@.fds.len(),
            final(self)@.fds[fd as int] is None,
    {
        let n = self.fd_table.len();
        let mut i: usize = 0;
        while i < n
            invariant
                i <= n,
                n == self.fd_table.len(),
                forall|j: int| 0 <= j < i ==> (#[trigger] self@.fds[j]) is Some,
            decreases n - i,
        {
            if self.fd_table[i].is_none() {
                proof {
                    crate::model::lemma_first_free_is(self@.fds, i as int);
                }
                return i;
            }
            i += 1;
        }
        proof {
            crate::model::lemma_first_free_is(self@.fds, n as int);
        }
        self.fd_table.push(None);
        proof {
            assert(self@.fds =~= old(self)@.fds.push(None));
            assert(self@.inodes =~= old(self)@.inodes);
            assert(self@.dir =~= old(self)@.dir);
        }
        n
    }
}

/// Replaces the element at index `i`.
pub fn vec_replace<T>(v: &mut Vec<T>, i: usize, x: T)
    requires
        i < old(v).len(),
    ensures
        final(v)@ == old(v)@.update(i as int, x),
{
    let slot = &mut v[i];
    *slot = x;
}

/// Sets the link count of the inode at `i`, leaving its bytes in place.
pub fn inode_set_nlink(v: &mut Vec<Inode>, i: usize, nl: u32)
    requires
        i < old(v).len(),
    ensures
        final(v)@.len() == old(v)@.len(),
        forall|j: int| 0 <= j < old(v)@.len() && j != i ==> final(v)@[j] == old(v)@[j],
        final(v)@[i as int]@ == (InodeM { data: old(v)@[i as int]@.data, nlink: nl as nat }),
{
    let slot = &mut v[i];
    slot.nlink = nl;
}

/// Byte-for-byte equality of two byte vectors.
pub fn bytes_eq(a: &Vec<u8>, b: &Vec<u8>) -> (r: bool)
    ensures
        r == (a@ == b@),
{
    if a.len() != b.len() {
        return false;
    }
    let mut i: usize = 0;
    while i < a.len()
        invariant
            i <= a.len(),
            a@.len() == b@.len(),
            forall|j: int| 0 <= j < i ==> a@[j] == b@[j],
        decreases a.len() - i,
    {
        if a[i] != b[i] {
            return false;
        }
        i += 1;
    }
    proof {
        assert(a@ =~= b@);
    }
    true
}

/// A copy of a byte vector.
pub fn clone_bytes(v: &Vec<u8>) -> (r: Vec<u8>)
    ensures
        r@ == v@,
{
    let mut r: Vec<u8> = Vec::new();
    let mut i: usize = 0;
    while i < v.len()
        invariant
            i <= v.len(),
            r@ == v@.take(i as int),
        decreases v.len() - i,
    {
        r.push(v[i]);
        i += 1;
        proof {
            assert(v@.take(i as int) =~= v@.take(i - 1).push(v@[i - 1]));
        }
    }
    proof {
        assert(v@.take(v@.len() as int) =~= v@);
    }
    r
}

/// Looks a path up in the directory: the index of the entry carrying the
/// name, which under well-formedness is unique.
pub fn find_dirent(k: &Kernel, name: &Vec<u8>) -> (r: Option<usize>)
    requires
        k@.wf(),
    ensures
        r is Some <==> dir_has(k@.dir, name@),
        r matches Some(i) ==> i < k.dir.len() && i as int == dir_idx(k@.dir, name@)
            && k@.dir[i as int].name == name@ && k@.dir[i as int].inode == dir_ino(k@.dir, name@),
{
    let mut i: usize = 0;
    while i < k.dir.len()
        invariant
            i <= k.dir.len(),
            k@.wf(),
            k@.dir.len() == k.dir@.len(),
            forall|j: int| 0 <= j < i ==> (#[trigger] k@.dir[j]).name != name@,
        decreases k.dir.len() - i,
    {
        if bytes_eq(&k.dir[i].name, name) {
            proof {
                assert(k@.dir[i as int].name == name@);
                let c = dir_idx(k@.dir, name@);
                assert(0 <= c < k@.dir.len() && k@.dir[c].name == name@);
                assert(c == i as int);
            }
            return Some(i);
        }
        i += 1;
    }
    None
}

} // verus!
