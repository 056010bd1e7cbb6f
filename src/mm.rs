//! Checks on memory-mapping requests. The mapping itself is done by the page
//! tables, which this library does not hold.
use vstd::prelude::*;

verus! {

/// Bytes in a page.
pub const PAGE_SIZE: usize = 4096;

/// Access rights of a user mapping.
#[derive(Clone, Copy, Debug, PartialEq, Eq, Structural)]
pub struct MapPermission {
    pub read: bool,
    pub write: bool,
    pub execute: bool,
    pub user: bool,
}

/// A checked request to map or unmap the addresses from `start` up to `end`.
#[derive(Clone, Copy, Debug, PartialEq, Eq, Structural)]
pub struct MapRange {
    pub start: usize,
    pub end: usize,
}

/// `port` names at least one right, and only read (1), write (2) and execute (4).
pub open spec fn port_valid(port: usize) -> bool {
    port & 7 != 0 && port & !7usize == 0
}

/// Checks a request to map `len` bytes at `start` with rights `port`: the rights must
/// be valid, `start` page aligned and the end addressable. -1 otherwise.
pub fn sys_mmap(start: usize, len: usize, port: usize) -> (r: Result<(MapRange, MapPermission), isize>)
    ensures
        (port_valid(port) && start % PAGE_SIZE == 0 && start + len <= usize::MAX) ==> r == Ok::<
            (MapRange, MapPermission),
            isize,
        >((
            MapRange { start, end: (start + len) as usize },
            MapPermission {
                read: port & 1 == 1,
                write: port & 2 == 2,
                execute: port & 4 == 4,
                user: true,
            },
        )),
        !(port_valid(port) && start % PAGE_SIZE == 0 && start + len <= usize::MAX) ==> r == Err::<
            (MapRange, MapPermission),
            isize,
        >(-1isize),
{
    if port & 0x7 == 0 || port & !0x7 != 0 {
        return Err(-1);
    }
    if start % PAGE_SIZE != 0 || len > usize::MAX - start {
        return Err(-1);
    }
    let perm = MapPermission {
        read: port & 0x1 == 0x1,
        write: port & 0x2 == 0x2,
        execute: port & 0x4 == 0x4,
        user: true,
    };
    Ok((MapRange { start, end: start + len }, perm))
}

/// Checks a request to unmap `len` bytes at `start`: `start` must be page aligned and
/// the end addressable. -1 otherwise.
pub fn sys_munmap(start: usize, len: usize) -> (r: Result<MapRange, isize>)
    ensures
        (start % PAGE_SIZE == 0 && start + len <= usize::MAX) ==> r == Ok::<MapRange, isize>(
            MapRange { start, end: (start + len) as usize },
        ),
        !(start % PAGE_SIZE == 0 && start + len <= usize::MAX) ==> r == Err::<MapRange, isize>(-1isize),
{
    if start % PAGE_SIZE != 0 || len > usize::MAX - start {
        return Err(-1);
    }
    Ok(MapRange { start, end: start + len })
}

} // verus!
