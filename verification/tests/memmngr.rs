use rust_persist::memmngr::{log2_ceil, Free, MemoryManagment, Used};

#[derive(Debug)]
enum Op {
    Alloc { size: u32, hash: u64, result: Option<u64> },
    Free { pos: u64, result: bool },
    SetStart { start: u64, result: Vec<Used> },
    SetEnd { end: u64, result: Vec<Used> },
}

fn run_ops(mem: &mut MemoryManagment, ops: &[Op]) {
    assert!(mem.is_valid());
    for op in ops {
        println!("applying {:?}", op);
        match *op {
            Op::Alloc { size, hash, result } => assert_eq!(mem.allocate(size, hash), result),
            Op::Free { pos, result } => assert_eq!(mem.free(pos), result),
            Op::SetStart { start, ref result } => assert_eq!(&mem.set_start(start), result),
            Op::SetEnd { end, ref result } => assert_eq!(&mem.set_end(end), result),
        };
        assert!(mem.is_valid());
    }
}

#[test]
fn allocate_free_sequential() {
    let mut mem = MemoryManagment::new(1000, 2000);
    run_ops(
        &mut mem,
        &[
            Op::Alloc { size: 100, hash: 0, result: Some(1000) },
            Op::Alloc { size: 200, hash: 0, result: Some(1100) },
            Op::Alloc { size: 400, hash: 0, result: Some(1300) },
            Op::Alloc { size: 800, hash: 0, result: None },
            Op::Alloc { size: 300, hash: 0, result: Some(1700) },
            Op::Alloc { size: 100, hash: 0, result: None },
            Op::Free { pos: 1000, result: true },
            Op::Free { pos: 1100, result: true },
            Op::Free { pos: 1300, result: true },
            Op::Free { pos: 1700, result: true },
        ],
    )
}

#[test]
fn allocate_holes() {
    let mut mem = MemoryManagment::new(1000, 2000);
    run_ops(
        &mut mem,
        &[
            Op::Alloc { size: 400, hash: 0, result: Some(1000) },
            Op::Alloc { size: 100, hash: 0, result: Some(1400) },
            Op::Alloc { size: 300, hash: 0, result: Some(1500) },
            Op::Alloc { size: 100, hash: 0, result: Some(1800) },
            Op::Free { pos: 1000, result: true },
            Op::Free { pos: 1500, result: true },
            Op::Alloc { size: 350, hash: 0, result: Some(1000) },
            Op::Alloc { size: 200, hash: 0, result: Some(1500) },
            Op::Free { pos: 1400, result: true },
            Op::Free { pos: 1500, result: true },
            Op::Alloc { size: 400, hash: 0, result: Some(1350) },
        ],
    )
}

#[test]
fn allocate_prefers_start() {
    let mut mem = MemoryManagment::new(1000, 2000);
    run_ops(
        &mut mem,
        &[
            Op::Alloc { size: 100, hash: 0, result: Some(1000) },
            Op::Alloc { size: 300, hash: 0, result: Some(1100) },
            Op::Alloc { size: 100, hash: 0, result: Some(1400) },
            Op::Alloc { size: 300, hash: 0, result: Some(1500) },
            Op::Alloc { size: 100, hash: 0, result: Some(1800) },
            Op::Free { pos: 1100, result: true },
            Op::Free { pos: 1500, result: true },
            Op::Alloc { size: 250, hash: 0, result: Some(1100) },
            Op::Alloc { size: 250, hash: 0, result: Some(1500) },
        ],
    )
}

#[test]
fn allocate_prefers_better_fit() {
    let mut mem = MemoryManagment::new(1000, 2000);
    run_ops(
        &mut mem,
        &[
            Op::Alloc { size: 100, hash: 0, result: Some(1000) },
            Op::Alloc { size: 300, hash: 0, result: Some(1100) },
            Op::Alloc { size: 100, hash: 0, result: Some(1400) },
            Op::Alloc { size: 200, hash: 0, result: Some(1500) },
            Op::Alloc { size: 100, hash: 0, result: Some(1700) },
            Op::Free { pos: 1100, result: true },
            Op::Free { pos: 1500, result: true },
            Op::Alloc { size: 200, hash: 0, result: Some(1500) },
            Op::Alloc { size: 200, hash: 0, result: Some(1800) },
            Op::Alloc { size: 200, hash: 0, result: Some(1100) },
        ],
    )
}

#[test]
fn increase_end() {
    let mut mem = MemoryManagment::new(1000, 2000);
    run_ops(
        &mut mem,
        &[
            Op::Alloc { size: 500, hash: 0, result: Some(1000) },
            Op::Alloc { size: 1000, hash: 0, result: None },
            Op::SetEnd { end: 3000, result: vec![] },
            Op::Alloc { size: 1000, hash: 0, result: Some(1500) },
        ],
    )
}

#[test]
fn decrease_start() {
    let mut mem = MemoryManagment::new(1000, 2000);
    run_ops(
        &mut mem,
        &[
            Op::Alloc { size: 500, hash: 0, result: Some(1000) },
            Op::Alloc { size: 1000, hash: 0, result: None },
            Op::SetStart { start: 0, result: vec![] },
            Op::Alloc { size: 1000, hash: 0, result: Some(0) },
        ],
    )
}

#[test]
fn set_start_evicts_from_the_front() {
    let mut mem = MemoryManagment::new(1000, 2000);
    run_ops(
        &mut mem,
        &[
            Op::Alloc { size: 100, hash: 1, result: Some(1000) },
            Op::Alloc { size: 100, hash: 2, result: Some(1100) },
            Op::Alloc { size: 100, hash: 3, result: Some(1200) },
            Op::SetStart {
                start: 1150,
                result: vec![
                    Used { start: 1000, size: 100, hash: 1 },
                    Used { start: 1100, size: 100, hash: 2 },
                ],
            },
            Op::Alloc { size: 50, hash: 4, result: Some(1150) },
            Op::Free { pos: 1000, result: false },
        ],
    );
    assert_eq!(mem.start(), 1150);
    assert_eq!(mem.used_size(), 150);
}

#[test]
fn set_end_evicts_from_the_back() {
    let mut mem = MemoryManagment::new(1000, 2000);
    run_ops(
        &mut mem,
        &[
            Op::Alloc { size: 300, hash: 1, result: Some(1000) },
            Op::Alloc { size: 300, hash: 2, result: Some(1300) },
            Op::Alloc { size: 300, hash: 3, result: Some(1600) },
            Op::SetEnd {
                end: 1500,
                result: vec![
                    Used { start: 1600, size: 300, hash: 3 },
                    Used { start: 1300, size: 300, hash: 2 },
                ],
            },
            Op::Alloc { size: 200, hash: 4, result: Some(1300) },
            Op::Alloc { size: 1, hash: 5, result: None },
        ],
    );
    assert_eq!(mem.end(), 1500);
    assert_eq!(mem.used_size(), 500);
}

#[test]
fn zero_bytes_take_one() {
    let mut mem = MemoryManagment::new(0, 10);
    assert_eq!(mem.allocate(0, 7), Some(0));
    assert_eq!(mem.used_size(), 1);
    assert_eq!(mem.get_used(), &vec![Used { start: 0, size: 1, hash: 7 }]);
    assert_eq!(mem.first_used(), Some(&Used { start: 0, size: 1, hash: 7 }));
    assert_eq!(mem.last_used(), Some(&Used { start: 0, size: 1, hash: 7 }));
    assert!(mem.is_valid());
}

#[test]
fn used_blocks_are_loaded_and_fixed_up() {
    let mut mem = MemoryManagment::new(100, 200);
    mem.set_used(150, 10, 1);
    mem.set_used(100, 20, 2);
    mem.set_used(190, 0, 3);
    assert!(!mem.is_valid());
    assert!(mem.check_layout());
    assert!(mem.has_block_at(150));
    assert!(!mem.has_block_at(151));
    mem.fix_up();
    assert!(mem.is_valid());
    assert_eq!(mem.used_size(), 31);
    assert_eq!(
        mem.get_used(),
        &vec![
            Used { start: 100, size: 20, hash: 2 },
            Used { start: 150, size: 10, hash: 1 },
            Used { start: 190, size: 1, hash: 3 },
        ]
    );
    assert_eq!(mem.allocate(30, 4), Some(120));
    assert_eq!(mem.allocate(30, 5), Some(160));
    assert_eq!(mem.allocate(10, 6), None);
    assert!(mem.is_valid());
    let mut bad = MemoryManagment::new(100, 200);
    bad.set_used(100, 50, 1);
    bad.set_used(120, 10, 2);
    assert!(!bad.check_layout());
    mem.clear();
    assert!(mem.is_valid());
    assert_eq!(mem.used_size(), 0);
    assert_eq!(mem.allocate(100, 1), Some(100));
    assert_eq!(mem.take_used(), vec![Used { start: 100, size: 100, hash: 1 }]);
}

#[test]
fn ends_of_blocks() {
    assert_eq!(Used { start: 5, size: 7, hash: 0 }.end(), 12);
    assert_eq!(Free { start: 5, size: 7 }.end(), 12);
    assert_eq!(log2_ceil(0), 0);
    assert_eq!(log2_ceil(1), 0);
    assert_eq!(log2_ceil(2), 1);
    assert_eq!(log2_ceil(3), 2);
    assert_eq!(log2_ceil(1024), 10);
    assert_eq!(log2_ceil(1025), 11);
    assert_eq!(log2_ceil(u64::MAX), 64);
}
