use os_sync::sysrec::SyscallRec;

#[test]
fn calls_are_counted_per_process() {
    let mut rec = SyscallRec::new();
    assert!(!rec.has_process(3));
    rec.record_syscall(3, 64);
    rec.record_syscall(3, 64);
    rec.record_syscall(3, 93);
    rec.record_syscall(4, 64);
    assert!(rec.has_process(3));
    assert!(rec.has_process(4));
    assert!(!rec.has_process(5));
    assert_eq!(rec.times_of(3, 64), 2);
    assert_eq!(rec.times_of(3, 93), 1);
    assert_eq!(rec.times_of(4, 64), 1);
    assert_eq!(rec.times_of(4, 93), 0);
    assert_eq!(rec.times_of(5, 64), 0);
    let table = rec.current_syscall_times(3);
    assert_eq!(table[64], 2);
    assert_eq!(table[93], 1);
    assert_eq!(table[0], 0);
}

#[test]
fn call_numbers_past_the_table_are_counted_but_not_listed() {
    let mut rec = SyscallRec::new();
    rec.record_syscall(1, 600);
    assert_eq!(rec.times_of(1, 600), 1);
    let table = rec.current_syscall_times(1);
    assert!(table.iter().all(|&c| c == 0));
}
