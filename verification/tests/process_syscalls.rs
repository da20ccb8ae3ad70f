use oskernel::process_syscalls::{
    sys_get_time, sys_mmap, sys_munmap, sys_sbrk, sys_trace, PteFlags, TimeVal, PAGE_SIZE,
};

fn image(sec: u64, usec: u64) -> Vec<u8> {
    let mut v = sec.to_ne_bytes().to_vec();
    v.extend_from_slice(&usec.to_ne_bytes());
    v
}

#[test]
fn get_time_splits_microseconds() {
    let mut bufs = vec![vec![0u8; 16]];
    assert_eq!(sys_get_time(3_000_123_456, &mut bufs), 0);
    assert_eq!(bufs[0], image(3000, 123_456));
    let tv = TimeVal { sec: 3000, usec: 123_456 };
    assert_eq!(tv.sec * 1_000_000 + tv.usec, 3_000_123_456);
}

#[test]
fn get_time_fills_a_value_split_over_two_pages() {
    let mut bufs = vec![vec![0xAAu8; 5], vec![0xBBu8; 11]];
    assert_eq!(sys_get_time(7_000_001, &mut bufs), 0);
    let img = image(7, 1);
    assert_eq!(bufs[0], img[..5].to_vec());
    assert_eq!(bufs[1], img[5..].to_vec());
}

#[test]
fn get_time_leaves_bytes_past_the_value() {
    let mut bufs = vec![vec![1u8; 10], vec![2u8; 10]];
    sys_get_time(999_999, &mut bufs);
    let img = image(0, 999_999);
    assert_eq!(bufs[0], img[..10].to_vec());
    assert_eq!(bufs[1][..6].to_vec(), img[10..].to_vec());
    assert_eq!(bufs[1][6..].to_vec(), vec![2u8; 4]);
}

#[test]
fn get_time_with_short_buffers_writes_a_prefix() {
    let mut bufs = vec![vec![9u8; 3], vec![], vec![9u8; 2]];
    sys_get_time(12_000_000, &mut bufs);
    let img = image(12, 0);
    assert_eq!(bufs[0], img[..3].to_vec());
    assert!(bufs[1].is_empty());
    assert_eq!(bufs[2], img[3..5].to_vec());
}

#[test]
fn get_time_little_endian_layout() {
    let mut bufs = vec![vec![0u8; 16]];
    sys_get_time(0x0102 * 1_000_000 + 0x0304, &mut bufs);
    let little_endian = u16::from_ne_bytes([1, 0]) == 1;
    if little_endian {
        assert_eq!(bufs[0], vec![2, 1, 0, 0, 0, 0, 0, 0, 4, 3, 0, 0, 0, 0, 0, 0]);
    } else {
        assert_eq!(bufs[0], vec![0, 0, 0, 0, 0, 0, 1, 2, 0, 0, 0, 0, 0, 0, 3, 4]);
    }
}

#[test]
fn mmap_rejects_unaligned_start() {
    let mut called = false;
    assert_eq!(sys_mmap(PAGE_SIZE + 1, 4096, 3, |_, _, _| { called = true; 0 }), -1);
    assert!(!called);
}

#[test]
fn mmap_rejects_bad_port() {
    assert_eq!(sys_mmap(0, 4096, 0, |_, _, _| 0), -1);
    assert_eq!(sys_mmap(0, 4096, 8, |_, _, _| 0), -1);
    assert_eq!(sys_mmap(0, 4096, 9, |_, _, _| 0), -1);
}

#[test]
fn mmap_forwards_valid_request() {
    let mut seen = None;
    let r = sys_mmap(2 * PAGE_SIZE, 8192, 7, |s, l, p| {
        seen = Some((s, l, p));
        0
    });
    assert_eq!(r, 0);
    assert_eq!(seen, Some((0x2000, 8192, 7)));
    assert_eq!(sys_mmap(0, 10, 1, |_, _, _| -1), -1);
}

#[test]
fn munmap_checks_alignment() {
    assert_eq!(sys_munmap(10, 4096, |_, _| 0), -1);
    assert_eq!(sys_munmap(PAGE_SIZE, 4096, |s, l| if s == 4096 && l == 4096 { 0 } else { 5 }), 0);
}

#[test]
fn sbrk_returns_old_break_or_error() {
    assert_eq!(sys_sbrk(16, |size| if size == 16 { Some(0x10000) } else { None }), 0x10000);
    assert_eq!(sys_sbrk(-16, |_| None), -1);
}

fn pte(valid: bool, readable: bool, writable: bool, user: bool) -> Option<PteFlags> {
    Some(PteFlags { valid, readable, writable, user })
}

#[test]
fn trace_reads_a_user_readable_byte() {
    let r = sys_trace(0, 0x1234, 99, |va| {
        assert_eq!(va, 0x1234);
        pte(true, true, false, true)
    }, |va| if va == 0x1234 { 0xAB } else { 0 }, |_, _| panic!("no write"), |_| 0);
    assert_eq!(r, 0xAB);
}

#[test]
fn trace_read_refused_without_access() {
    let never = |_: usize| -> u8 { panic!("no read") };
    assert_eq!(sys_trace(0, 8, 0, |_| None, never, |_, _| (), |_| 0), -1);
    assert_eq!(sys_trace(0, 8, 0, |_| pte(false, true, true, true), never, |_, _| (), |_| 0), -1);
    assert_eq!(sys_trace(0, 8, 0, |_| pte(true, false, true, true), never, |_, _| (), |_| 0), -1);
    assert_eq!(sys_trace(0, 8, 0, |_| pte(true, true, true, false), never, |_, _| (), |_| 0), -1);
}

#[test]
fn trace_writes_low_byte_of_data() {
    let mut written = None;
    let r = sys_trace(1, 0x40, 0x1FF, |_| pte(true, false, true, true), |_| 0, |va, b| written = Some((va, b)), |_| 0);
    assert_eq!(r, 0);
    assert_eq!(written, Some((0x40, 0xFF)));
}

#[test]
fn trace_write_refused_on_read_only_page() {
    let mut written = false;
    let r = sys_trace(1, 0x40, 1, |_| pte(true, true, false, true), |_| 0, |_, _| written = true, |_| 0);
    assert_eq!(r, -1);
    assert!(!written);
}

#[test]
fn trace_counts_syscalls() {
    let r = sys_trace(2, 64, 0, |_| None, |_| 0, |_, _| (), |id| if id == 64 { 5 } else { 0 });
    assert_eq!(r, 5);
}

#[test]
fn trace_unknown_request_fails() {
    assert_eq!(sys_trace(3, 0, 0, |_| None, |_| 0, |_, _| (), |_| 7), -1);
    assert_eq!(sys_trace(usize::MAX, 0, 0, |_| None, |_| 0, |_, _| (), |_| 7), -1);
}
