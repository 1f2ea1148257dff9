use cil_jit::mem_mgr::{ExecutableMemory, PAGE_SIZE};

#[test]
fn alloc_exec_mem() {
    let exec_mem = ExecutableMemory::new(4096);
    assert_eq!(exec_mem.mem_size(), 4096);
}

#[test]
fn read_exec_mem() {
    let exec_mem = ExecutableMemory::new(4096);
    let slice = exec_mem.get_slice_at(100, 150);
    println!("slice:{slice:?}");
    let val = slice[0];
    assert!(val == 0);
}

#[test]
fn write_exec_mem() {
    let mut exec_mem = ExecutableMemory::new(4096);
    let slice = exec_mem.get_slice_at(100, 150);
    println!("slice:{slice:?}");
    exec_mem.write_slice_at(100, &[0xFF]);
    assert_eq!(exec_mem.get_slice_at(100, 2), &[0xFF, 0x00]);
    assert_eq!(exec_mem.get_slice_at(99, 1), &[0x00]);
}

#[test]
fn sizes_round_up_to_pages() {
    assert_eq!(ExecutableMemory::new(0).mem_size(), 0);
    assert_eq!(ExecutableMemory::new(1).mem_size(), PAGE_SIZE);
    assert_eq!(ExecutableMemory::new(4095).mem_size(), 4096);
    assert_eq!(ExecutableMemory::new(4097).mem_size(), 8192);
}

#[test]
fn new_memory_is_zeroed() {
    let exec_mem = ExecutableMemory::new(5000);
    assert!(exec_mem.contents().iter().all(|b| *b == 0));
    assert_eq!(exec_mem.contents().len(), 8192);
}

#[test]
fn addresses_follow_the_base() {
    let mut exec_mem = ExecutableMemory::new(100);
    assert_eq!(exec_mem.get_ptr(10), 10);
    exec_mem.place(0x1000);
    assert_eq!(exec_mem.get_ptr(0), 0x1000);
    assert_eq!(exec_mem.get_ptr(4095), 0x1fff);
}

#[test]
fn write_then_read_back() {
    let mut exec_mem = ExecutableMemory::new(4096);
    exec_mem.write_slice_at(10, &[1, 2, 3]);
    exec_mem.write_slice_at(11, &[9]);
    assert_eq!(exec_mem.get_slice_at(9, 5), &[0, 1, 9, 3, 0]);
}
