use kernel_task::argv::build_argv;
use kernel_task::kernel::Kernel;
use kernel_task::mm::{MemorySet, PAGE_SIZE, PERM_R, PERM_U, PERM_W, PERM_X};
use kernel_task::process::LoadedImage;
use kernel_task::syscall::{sys_mmap, sys_munmap};

fn booted() -> Kernel {
    let mut ms = MemorySet::new_bare(100);
    ms.insert_framed_area(0x10_0000, 0x10_2000, PERM_R + PERM_X + PERM_U);
    let img = LoadedImage { memory_set: ms, ustack_base: 0x20_0000, entry_point: 0x10_0000 };
    let mut k = Kernel::new(img);
    k.schedule();
    k
}

fn areas(k: &Kernel) -> Vec<(usize, usize, u8)> {
    k.procs[0].as_ref().unwrap().inner.memory_set.areas.iter().map(|a| (a.start_vpn, a.end_vpn, a.perm)).collect()
}

#[test]
fn overlapping_mmap_fails_and_munmap_removes_the_whole_area() {
    let mut k = booted();
    let before = areas(&k).len();
    assert_eq!(sys_mmap(&mut k, 0x1000, 0x2000, 0x3), 0);
    assert_eq!(areas(&k).last(), Some(&(1, 3, PERM_U + PERM_R + PERM_W)));
    assert_eq!(sys_mmap(&mut k, 0x2000, 0x1000, 0x1), -1);
    assert_eq!(areas(&k).len(), before + 1);
    assert_eq!(areas(&k).last(), Some(&(1, 3, PERM_U + PERM_R + PERM_W)));
    assert_eq!(sys_munmap(&mut k, 0x1000, 0x1000), 0);
    assert_eq!(areas(&k).len(), before);
    assert!(areas(&k).iter().all(|a| a.0 != 1));
    assert_eq!(sys_munmap(&mut k, 0x1000, 0x1000), -1);
}

#[test]
fn mmap_rejects_bad_arguments() {
    let mut k = booted();
    let before = areas(&k);
    assert_eq!(sys_mmap(&mut k, 0x1001, 0x1000, 0x3), -1);
    assert_eq!(sys_mmap(&mut k, 0x1000, 0x1000, 0x0), -1);
    assert_eq!(sys_mmap(&mut k, 0x1000, 0x1000, 0x8), -1);
    assert_eq!(sys_mmap(&mut k, 0x1000, 0x1000, 0xf), -1);
    assert_eq!(areas(&k), before);
    assert_eq!(sys_mmap(&mut k, 0x10_1000, 0x10, 0x1), -1);
    assert_eq!(areas(&k), before);
}

#[test]
fn mmap_rounds_the_end_up_to_a_page_and_sets_permissions() {
    let mut k = booted();
    assert_eq!(sys_mmap(&mut k, 0x5000, 0x1001, 0x7), 0);
    assert_eq!(areas(&k).last(), Some(&(5, 7, PERM_U + PERM_R + PERM_W + PERM_X)));
    assert_eq!(sys_mmap(&mut k, 0x8000, 0x10, 0x4), 0);
    assert_eq!(areas(&k).last(), Some(&(8, 9, PERM_U + PERM_X)));
    assert_eq!(sys_mmap(&mut k, 0x6000, 0x10, 0x2), -1);
    let area = k.procs[0].as_ref().unwrap().inner.memory_set.areas.last().unwrap();
    assert_eq!(area.data.len(), PAGE_SIZE);
    assert!(area.data.iter().all(|b| *b == 0));
}

#[test]
fn munmap_rejects_misaligned_start_and_uncovered_ranges() {
    let mut k = booted();
    assert_eq!(sys_mmap(&mut k, 0x1000, 0x2000, 0x3), 0);
    assert_eq!(sys_munmap(&mut k, 0x1800, 0x100), -1);
    // the range runs past the area's end
    assert_eq!(sys_munmap(&mut k, 0x2000, 0x2000), -1);
    assert_eq!(sys_munmap(&mut k, 0x2000, 0x1000), 0);
}

#[test]
fn write_and_read_bytes_need_a_mapped_area() {
    let mut ms = MemorySet::new_bare(3);
    assert_eq!(ms.read_byte(0x1000), None);
    assert!(!ms.write_bytes(0x1000, &vec![1]));
    assert_eq!(ms.mmap(0x1000, 0x1000, 3), 0);
    assert!(ms.write_bytes(0x1ffe, &vec![4, 5]));
    assert_eq!(ms.read_byte(0x1ffe), Some(4));
    assert_eq!(ms.read_byte(0x1fff), Some(5));
    assert_eq!(ms.read_byte(0x1000), Some(0));
    // a write across the area's end is refused whole
    assert!(!ms.write_bytes(0x1fff, &vec![6, 7]));
    assert_eq!(ms.read_byte(0x1fff), Some(5));
    assert_eq!(ms.read_byte(0x2000), None);
    assert!(ms.check_overlap(0x1800, 0x1900));
    assert!(!ms.check_overlap(0x2000, 0x3000));
    assert_eq!(ms.token(), 3);
}

#[test]
fn copied_address_space_is_equal_and_separate() {
    let mut ms = MemorySet::new_bare(3);
    assert_eq!(ms.mmap(0x1000, 0x1000, 3), 0);
    assert!(ms.write_bytes(0x1000, &vec![9]));
    let mut copy = MemorySet::from_existed_user(&ms, 4);
    assert_eq!(copy.token(), 4);
    assert_eq!(copy.read_byte(0x1000), Some(9));
    assert!(copy.write_bytes(0x1000, &vec![1]));
    assert_eq!(ms.read_byte(0x1000), Some(9));
    assert_eq!(copy.read_byte(0x1000), Some(1));
}

#[test]
fn argv_image_is_strings_then_pointers() {
    let args = vec![b"hi".to_vec(), b"".to_vec()];
    let top = 0x1000;
    let img = build_argv(top, 0x100, &args).unwrap();
    let argv_base = top - 24;
    assert_eq!(img.argv_base, argv_base);
    // "hi\0" at argv_base - 3, "\0" at argv_base - 4, sp aligned down
    let low = argv_base - 4;
    assert_eq!(img.sp, low - low % 8);
    assert_eq!(img.bytes.len(), top - img.sp);
    let mut expect = vec![0u8; low - img.sp];
    expect.extend_from_slice(&[0]);
    expect.extend_from_slice(b"hi");
    expect.push(0);
    expect.extend_from_slice(&((argv_base - 3) as u64).to_le_bytes());
    expect.extend_from_slice(&((argv_base - 4) as u64).to_le_bytes());
    expect.extend_from_slice(&[0; 8]);
    assert_eq!(img.bytes, expect);
}

#[test]
fn argv_needs_room() {
    let args = vec![b"abcdef".to_vec()];
    // 16 bytes of pointers, 7 of string, padded to 24
    assert!(build_argv(0x1000, 24, &args).is_some());
    assert!(build_argv(0x1000, 23, &args).is_none());
    assert!(build_argv(0x1000, 7, &vec![]).is_none());
    assert_eq!(build_argv(0x1000, 8, &vec![]).unwrap().bytes, vec![0; 8]);
}

#[test]
fn empty_mmap_is_undone_by_the_matching_munmap() {
    let mut k = booted();
    assert_eq!(sys_mmap(&mut k, 0, 0x1000, 0x3), 0);
    let before = areas(&k);
    // an empty request at the end of the mapped page maps an empty area
    assert_eq!(sys_mmap(&mut k, 0x1000, 0, 0x3), 0);
    assert_eq!(areas(&k).last(), Some(&(1, 1, PERM_U + PERM_R + PERM_W)));
    // and unmapping it removes that area only
    assert_eq!(sys_munmap(&mut k, 0x1000, 0), 0);
    assert_eq!(areas(&k), before);
    assert_eq!(sys_munmap(&mut k, 0x1000, 0), -1);
}

#[test]
fn empty_requests_inside_a_mapped_area() {
    let mut k = booted();
    assert_eq!(sys_mmap(&mut k, 0x1000, 0x2000, 0x3), 0);
    let before = areas(&k);
    assert_eq!(sys_mmap(&mut k, 0x2000, 0, 0x1), -1);
    assert_eq!(areas(&k), before);
    // the area holding the empty range goes whole
    assert_eq!(sys_munmap(&mut k, 0x1000, 0), 0);
    assert!(areas(&k).iter().all(|a| a.0 != 1));
}
