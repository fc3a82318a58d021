use sysfile::buffer::UserBuffer;
use sysfile::kernel::{Kernel, Stat};
use sysfile::model::{MODE_FILE, OPEN_CREATE, OPEN_TRUNC};
use sysfile::syscall::{
    sys_close, sys_fstat, sys_linkat, sys_open, sys_read, sys_unlinkat, sys_write,
};

fn flat(buf: &UserBuffer) -> Vec<u8> {
    let mut out: Vec<u8> = Vec::new();
    for r in &buf.ranges {
        out.extend_from_slice(r);
    }
    out
}

fn fresh_stat() -> Stat {
    Stat { dev: 7, ino: 7, mode: 7, nlink: 7 }
}

#[test]
fn unoccupied_fd_fails_everywhere() {
    let mut k = Kernel::new();
    let wbuf = UserBuffer::new(vec![vec![1u8, 2u8]]);
    let mut rbuf = UserBuffer::new(vec![vec![0u8, 0u8]]);
    let mut st = fresh_stat();
    assert_eq!(sys_write(&mut k, 0, &wbuf), -1);
    assert_eq!(sys_read(&mut k, 0, &mut rbuf), -1);
    assert_eq!(sys_close(&mut k, 0), -1);
    assert_eq!(sys_fstat(&k, 0, &mut st), -1);
    // no side effect: the record and the buffer are untouched
    assert_eq!(st.dev, 7);
    assert_eq!(st.ino, 7);
    assert_eq!(st.mode, 7);
    assert_eq!(st.nlink, 7);
    assert_eq!(flat(&rbuf), vec![0u8, 0u8]);
    // the descriptor table is untouched too: the first open still returns 0
    assert_eq!(sys_open(&mut k, &b"a".to_vec(), OPEN_CREATE), 0);
}

#[test]
fn out_of_range_fd_fails_when_others_open() {
    let mut k = Kernel::new();
    assert_eq!(sys_open(&mut k, &b"a".to_vec(), OPEN_CREATE), 0);
    let wbuf = UserBuffer::new(vec![vec![9u8]]);
    let mut st = fresh_stat();
    assert_eq!(sys_write(&mut k, 5, &wbuf), -1);
    assert_eq!(sys_close(&mut k, 5), -1);
    assert_eq!(sys_fstat(&k, 5, &mut st), -1);
    // a closed slot is empty again and every fd-taking syscall fails on it
    assert_eq!(sys_close(&mut k, 0), 0);
    assert_eq!(sys_close(&mut k, 0), -1);
    assert_eq!(sys_write(&mut k, 0, &wbuf), -1);
    assert_eq!(sys_fstat(&k, 0, &mut st), -1);
}

#[test]
fn create_write_close_reopen_read_round_trip() {
    let mut k = Kernel::new();
    let fd = sys_open(&mut k, &b"file".to_vec(), OPEN_CREATE);
    assert_eq!(fd, 0);
    // the written buffer spans two ranges, as if it crossed a page
    let wbuf = UserBuffer::new(vec![b"he".to_vec(), b"llo".to_vec()]);
    assert_eq!(sys_write(&mut k, fd as usize, &wbuf), 5);
    assert_eq!(sys_close(&mut k, fd as usize), 0);
    let fd2 = sys_open(&mut k, &b"file".to_vec(), 0);
    assert_eq!(fd2, 0);
    // the read buffer is split differently; assembly must still be in order
    let mut rbuf = UserBuffer::new(vec![vec![0u8; 1], vec![0u8; 4]]);
    assert_eq!(sys_read(&mut k, fd2 as usize, &mut rbuf), 5);
    assert_eq!(flat(&rbuf), b"hello".to_vec());
}

#[test]
fn lowest_free_slot_is_reused() {
    let mut k = Kernel::new();
    assert_eq!(sys_open(&mut k, &b"a".to_vec(), OPEN_CREATE), 0);
    assert_eq!(sys_open(&mut k, &b"b".to_vec(), OPEN_CREATE), 1);
    assert_eq!(sys_open(&mut k, &b"c".to_vec(), OPEN_CREATE), 2);
    assert_eq!(sys_close(&mut k, 1), 0);
    // the freed middle slot is taken again, never a higher index
    assert_eq!(sys_open(&mut k, &b"d".to_vec(), OPEN_CREATE), 1);
    assert_eq!(sys_open(&mut k, &b"e".to_vec(), OPEN_CREATE), 3);
}

#[test]
fn open_close_open_returns_same_fd() {
    let mut k = Kernel::new();
    let fd = sys_open(&mut k, &b"first".to_vec(), OPEN_CREATE);
    assert_eq!(fd, 0);
    assert_eq!(sys_close(&mut k, fd as usize), 0);
    let fd2 = sys_open(&mut k, &b"second".to_vec(), OPEN_CREATE);
    assert_eq!(fd2, fd);
}

#[test]
fn self_link_always_fails() {
    let mut k = Kernel::new();
    // the path does not exist yet
    assert_eq!(sys_linkat(&mut k, &b"a".to_vec(), &b"a".to_vec()), -1);
    assert_eq!(sys_open(&mut k, &b"a".to_vec(), OPEN_CREATE), 0);
    // and now it does: the self-link still fails
    assert_eq!(sys_linkat(&mut k, &b"a".to_vec(), &b"a".to_vec()), -1);
}

#[test]
fn link_then_fstat_shares_inode_and_counts_two() {
    let mut k = Kernel::new();
    let fda = sys_open(&mut k, &b"a".to_vec(), OPEN_CREATE);
    assert_eq!(fda, 0);
    assert_eq!(sys_linkat(&mut k, &b"a".to_vec(), &b"b".to_vec()), 0);
    let fdb = sys_open(&mut k, &b"b".to_vec(), 0);
    assert_eq!(fdb, 1);
    let mut sa = fresh_stat();
    let mut sb = fresh_stat();
    assert_eq!(sys_fstat(&k, fda as usize, &mut sa), 0);
    assert_eq!(sys_fstat(&k, fdb as usize, &mut sb), 0);
    assert_eq!(sa.dev, 0);
    assert_eq!(sb.dev, 0);
    assert_eq!(sa.mode, MODE_FILE);
    assert_eq!(sb.mode, MODE_FILE);
    assert_eq!(sa.ino, sb.ino);
    assert_eq!(sa.nlink, 2);
    assert_eq!(sb.nlink, 2);
}

#[test]
fn unlink_keeps_other_link_and_contents() {
    let mut k = Kernel::new();
    let fda = sys_open(&mut k, &b"a".to_vec(), OPEN_CREATE);
    assert_eq!(fda, 0);
    let wbuf = UserBuffer::new(vec![b"data".to_vec()]);
    assert_eq!(sys_write(&mut k, fda as usize, &wbuf), 4);
    assert_eq!(sys_linkat(&mut k, &b"a".to_vec(), &b"b".to_vec()), 0);
    assert_eq!(sys_unlinkat(&mut k, &b"a".to_vec()), 0);
    // a descriptor opened on the surviving link reads the original bytes
    let fdb = sys_open(&mut k, &b"b".to_vec(), 0);
    assert_eq!(fdb, 1);
    let mut rbuf = UserBuffer::new(vec![vec![0u8; 4]]);
    assert_eq!(sys_read(&mut k, fdb as usize, &mut rbuf), 4);
    assert_eq!(flat(&rbuf), b"data".to_vec());
    let mut st = fresh_stat();
    assert_eq!(sys_fstat(&k, fdb as usize, &mut st), 0);
    assert_eq!(st.nlink, 1);
}

#[test]
fn write_then_read_same_position_round_trips() {
    let mut k = Kernel::new();
    let fd = sys_open(&mut k, &b"f".to_vec(), OPEN_CREATE);
    // a second descriptor on the same file keeps its own cursor at 0
    let fd2 = sys_open(&mut k, &b"f".to_vec(), 0);
    assert_eq!(fd, 0);
    assert_eq!(fd2, 1);
    let wbuf = UserBuffer::new(vec![b"spl".to_vec(), b"it".to_vec(), b"pages".to_vec()]);
    assert_eq!(sys_write(&mut k, fd as usize, &wbuf), 10);
    let mut rbuf = UserBuffer::new(vec![vec![0u8; 4], vec![0u8; 6]]);
    assert_eq!(sys_read(&mut k, fd2 as usize, &mut rbuf), 10);
    assert_eq!(flat(&rbuf), b"splitpages".to_vec());
    // range lengths are preserved by the read
    assert_eq!(rbuf.ranges[0].len(), 4);
    assert_eq!(rbuf.ranges[1].len(), 6);
}

#[test]
fn short_read_stops_at_end_of_file_and_keeps_tail() {
    let mut k = Kernel::new();
    let fd = sys_open(&mut k, &b"f".to_vec(), OPEN_CREATE);
    let wbuf = UserBuffer::new(vec![b"abc".to_vec()]);
    assert_eq!(sys_write(&mut k, fd as usize, &wbuf), 3);
    let fd2 = sys_open(&mut k, &b"f".to_vec(), 0);
    let mut rbuf = UserBuffer::new(vec![vec![9u8; 2], vec![9u8; 3]]);
    assert_eq!(sys_read(&mut k, fd2 as usize, &mut rbuf), 3);
    // the transferred prefix is the file; the rest keeps its old bytes
    assert_eq!(flat(&rbuf), vec![b'a', b'b', b'c', 9u8, 9u8]);
}

#[test]
fn read_advances_the_cursor() {
    let mut k = Kernel::new();
    let fd = sys_open(&mut k, &b"f".to_vec(), OPEN_CREATE);
    let wbuf = UserBuffer::new(vec![b"abcdef".to_vec()]);
    assert_eq!(sys_write(&mut k, fd as usize, &wbuf), 6);
    let fd2 = sys_open(&mut k, &b"f".to_vec(), 0);
    let mut r1 = UserBuffer::new(vec![vec![0u8; 2]]);
    let mut r2 = UserBuffer::new(vec![vec![0u8; 2]]);
    assert_eq!(sys_read(&mut k, fd2 as usize, &mut r1), 2);
    assert_eq!(sys_read(&mut k, fd2 as usize, &mut r2), 2);
    assert_eq!(flat(&r1), b"ab".to_vec());
    assert_eq!(flat(&r2), b"cd".to_vec());
}

#[test]
fn open_without_create_fails_on_missing_path() {
    let mut k = Kernel::new();
    assert_eq!(sys_open(&mut k, &b"nope".to_vec(), 0), -1);
    // and the failed open allocated nothing
    assert_eq!(sys_open(&mut k, &b"a".to_vec(), OPEN_CREATE), 0);
}

#[test]
fn truncate_empties_an_existing_file() {
    let mut k = Kernel::new();
    let fd = sys_open(&mut k, &b"f".to_vec(), OPEN_CREATE);
    let wbuf = UserBuffer::new(vec![b"abc".to_vec()]);
    assert_eq!(sys_write(&mut k, fd as usize, &wbuf), 3);
    assert_eq!(sys_close(&mut k, fd as usize), 0);
    let fd2 = sys_open(&mut k, &b"f".to_vec(), OPEN_TRUNC);
    let mut rbuf = UserBuffer::new(vec![vec![7u8; 3]]);
    assert_eq!(sys_read(&mut k, fd2 as usize, &mut rbuf), 0);
    assert_eq!(flat(&rbuf), vec![7u8; 3]);
}

#[test]
fn create_truncates_an_existing_file() {
    let mut k = Kernel::new();
    let fd = sys_open(&mut k, &b"f".to_vec(), OPEN_CREATE);
    let wbuf = UserBuffer::new(vec![b"abc".to_vec()]);
    assert_eq!(sys_write(&mut k, fd as usize, &wbuf), 3);
    assert_eq!(sys_close(&mut k, fd as usize), 0);
    let fd2 = sys_open(&mut k, &b"f".to_vec(), OPEN_CREATE);
    let mut rbuf = UserBuffer::new(vec![vec![7u8; 3]]);
    assert_eq!(sys_read(&mut k, fd2 as usize, &mut rbuf), 0);
    assert_eq!(flat(&rbuf), vec![7u8; 3]);
}

#[test]
fn link_failures() {
    let mut k = Kernel::new();
    // old path missing
    assert_eq!(sys_linkat(&mut k, &b"a".to_vec(), &b"b".to_vec()), -1);
    assert_eq!(sys_open(&mut k, &b"a".to_vec(), OPEN_CREATE), 0);
    assert_eq!(sys_open(&mut k, &b"b".to_vec(), OPEN_CREATE), 1);
    // new path already taken
    assert_eq!(sys_linkat(&mut k, &b"a".to_vec(), &b"b".to_vec()), -1);
}

#[test]
fn unlink_failures_and_last_link() {
    let mut k = Kernel::new();
    assert_eq!(sys_unlinkat(&mut k, &b"a".to_vec()), -1);
    assert_eq!(sys_open(&mut k, &b"a".to_vec(), OPEN_CREATE), 0);
    assert_eq!(sys_unlinkat(&mut k, &b"a".to_vec()), 0);
    // the name is gone: unlinking again fails, opening without create fails
    assert_eq!(sys_unlinkat(&mut k, &b"a".to_vec()), -1);
    assert_eq!(sys_open(&mut k, &b"a".to_vec(), 0), -1);
}

#[test]
fn empty_write_and_read() {
    let mut k = Kernel::new();
    let fd = sys_open(&mut k, &b"f".to_vec(), OPEN_CREATE);
    let wbuf = UserBuffer::new(vec![]);
    assert_eq!(sys_write(&mut k, fd as usize, &wbuf), 0);
    let mut rbuf = UserBuffer::new(vec![]);
    assert_eq!(sys_read(&mut k, fd as usize, &mut rbuf), 0);
}

#[test]
fn fstat_writes_the_whole_record() {
    let mut k = Kernel::new();
    let fd = sys_open(&mut k, &b"f".to_vec(), OPEN_CREATE);
    let mut st = fresh_stat();
    assert_eq!(sys_fstat(&k, fd as usize, &mut st), 0);
    assert_eq!(st.dev, 0);
    assert_eq!(st.ino, 0);
    assert_eq!(st.mode, MODE_FILE);
    assert_eq!(st.nlink, 1);
}
