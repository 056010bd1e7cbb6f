use os_sync::mm::{sys_mmap, sys_munmap, MapPermission, MapRange, PAGE_SIZE};

#[test]
fn mmap_accepts_aligned_request_with_rights() {
    let r = sys_mmap(0x10000000, 2 * PAGE_SIZE, 3);
    assert_eq!(
        r,
        Ok((
            MapRange { start: 0x10000000, end: 0x10002000 },
            MapPermission { read: true, write: true, execute: false, user: true },
        ))
    );
    let (_, p) = sys_mmap(0, 1, 4).unwrap();
    assert_eq!(p, MapPermission { read: false, write: false, execute: true, user: true });
}

#[test]
fn mmap_refuses_bad_rights_alignment_and_overflow() {
    assert_eq!(sys_mmap(0x10000000, PAGE_SIZE, 0), Err(-1));
    assert_eq!(sys_mmap(0x10000000, PAGE_SIZE, 8), Err(-1));
    assert_eq!(sys_mmap(0x10000000, PAGE_SIZE, 7 | 16), Err(-1));
    assert_eq!(sys_mmap(0x10000001, PAGE_SIZE, 1), Err(-1));
    assert_eq!(sys_mmap(usize::MAX - PAGE_SIZE + 1, PAGE_SIZE, 1), Err(-1));
}

#[test]
fn munmap_checks_alignment() {
    assert_eq!(sys_munmap(PAGE_SIZE, PAGE_SIZE), Ok(MapRange { start: 4096, end: 8192 }));
    assert_eq!(sys_munmap(PAGE_SIZE + 8, PAGE_SIZE), Err(-1));
}
