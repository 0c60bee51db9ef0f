use kernel_sim::consts::{PAGE_SZ, USR_STK_OFF};
use kernel_sim::elf::{append_as_interpreter, get_interpreter, get_phdr_vaddr, make_memory_set, LoadArea, ProgHeader, PT_INTERP, PT_LOAD, PT_PHDR};
use kernel_sim::usermem::{brk_step, mmap_place, munmap_range, sys_mprotect, MAP_FIXED};
use kernel_sim::vm::{VmMap, VmRegion};

fn load(vaddr: u64, mem_size: u64, offset: u64, file_size: u64, flags: u32) -> ProgHeader {
    ProgHeader { kind: PT_LOAD, vaddr, mem_size, offset, file_size, flags }
}

#[test]
fn elf_memory_set_maps_each_load_segment_and_places_interpreter_after() {
    let phs = vec![
        ProgHeader { kind: PT_PHDR, vaddr: 0x40, mem_size: 0x38, offset: 0x40, file_size: 0x38, flags: 4 },
        load(0x1000, 0x2345, 0, 0x2000, 5),
        load(0x5000, 0x100, 0x3000, 0x80, 6),
    ];
    let (areas, bias) = make_memory_set(&phs).unwrap();
    assert_eq!(
        areas,
        vec![
            LoadArea { start: 0x1000, end: 0x3345, executable: true, readonly: true, file_start: 0, file_end: 0x2000 },
            LoadArea { start: 0x5000, end: 0x5100, executable: false, readonly: false, file_start: 0x3000, file_end: 0x3080 },
        ]
    );
    assert_eq!(bias, 0x6000);
}

#[test]
fn elf_memory_set_errors() {
    assert_eq!(make_memory_set(&vec![]), Err("elf has no load segment"));
    assert_eq!(make_memory_set(&vec![load(0x1000, 0, 0, 0, 4)]), Err("elf empty load range"));
    assert_eq!(make_memory_set(&vec![load(0x1000, 0x10, 0, 0x20, 4)]), Err("elf file range exceeds memory range"));
    assert_eq!(make_memory_set(&vec![load(u64::MAX, 2, 0, 0, 4)]), Err("elf virtual range overflow"));
    assert_eq!(make_memory_set(&vec![load(0x1000, 0x10, u64::MAX, 2, 4)]), Err("elf file range overflow"));
    assert_eq!(make_memory_set(&vec![load(u64::MAX - 0x10, 0x10, 0, 0, 4)]), Err("elf bias overflow"));
}

#[test]
fn elf_interpreter_is_shifted_by_the_bias() {
    let phs = vec![load(0x0, 0x1000, 0, 0x800, 5)];
    let areas = append_as_interpreter(&phs, 0x40_0000).unwrap();
    assert_eq!(areas[0].start, 0x40_0000);
    assert_eq!(areas[0].end, 0x40_1000);
    assert_eq!(append_as_interpreter(&vec![], 0x1000), Err("elf interpreter has no load segment"));
    assert_eq!(append_as_interpreter(&phs, usize::MAX), Err("elf interpreter virtual range overflow"));
    assert_eq!(
        append_as_interpreter(&vec![load(0x10, 0x1000, 0, 0, 5)], usize::MAX),
        Err("elf interpreter bias overflow")
    );
}

#[test]
fn elf_phdr_address() {
    let with_phdr = vec![
        load(0x1000, 0x100, 0, 0x100, 5),
        ProgHeader { kind: PT_PHDR, vaddr: 0x1040, mem_size: 0x38, offset: 0x40, file_size: 0x38, flags: 4 },
    ];
    assert_eq!(get_phdr_vaddr(&with_phdr, 0x40), Ok(Some(0x1040)));
    let load_at_zero = vec![load(0x2000, 0x100, 0x100, 0x10, 5), load(0x1000, 0x100, 0, 0x100, 5)];
    assert_eq!(get_phdr_vaddr(&load_at_zero, 0x40), Ok(Some(0x1040)));
    assert_eq!(get_phdr_vaddr(&vec![load(0x2000, 0x100, 0x100, 0x10, 5)], 0x40), Ok(None));
    assert_eq!(get_phdr_vaddr(&vec![load(u64::MAX, 0x100, 0, 0x10, 5)], 0x40), Err("elf phdr overflow"));
}

#[test]
fn brk_grows_shrinks_and_refuses() {
    let mut vm = VmMap::new();
    let start = 0x1000_0000usize;
    assert_eq!(brk_step(&vm, start, start, 0), Ok(start));
    assert_eq!(brk_step(&vm, start, start, start - 1), Ok(start));
    assert_eq!(brk_step(&vm, start, start, start + 1), Ok(start + PAGE_SZ));
    assert_eq!(brk_step(&vm, start + 3 * PAGE_SZ, start, start + 10), Ok(start + PAGE_SZ));
    assert_eq!(brk_step(&vm, start, start, USR_STK_OFF), Err("enomem"));
    assert_eq!(brk_step(&vm, start, start, usize::MAX), Err("enomem"));
    vm.insert(VmRegion::new(start + 2 * PAGE_SZ, PAGE_SZ, 0)).unwrap();
    assert_eq!(brk_step(&vm, start, start, start + 4 * PAGE_SZ), Err("enomem"));
    assert_eq!(brk_step(&vm, start, start, start + 2 * PAGE_SZ), Ok(start + 2 * PAGE_SZ));
}

#[test]
fn mmap_placement_and_munmap_range() {
    assert_eq!(mmap_place(0x1000, 0, 0, 0x7000_0000), Err("einval"));
    assert_eq!(mmap_place(0, 10, MAP_FIXED, 0x7000_0000), Ok((PAGE_SZ, PAGE_SZ + 10)));
    assert_eq!(mmap_place(0x5000, 10, 0, 0x7000_0000), Ok((0x7000_0000, 0x7000_000a)));
    assert_eq!(mmap_place(usize::MAX - 5, 10, MAP_FIXED, 0), Err("einval"));
    assert_eq!(munmap_range(0x1000, 0x10), Ok((0x1000, 0x2000)));
    assert_eq!(munmap_range(0x1001, 0x10), Err("einval"));
    assert_eq!(munmap_range(0x1000, 0), Err("einval"));
}

#[test]
fn mprotect_needs_an_overlapping_region() {
    let mut vm = VmMap::new();
    assert_eq!(sys_mprotect(&vm, 0x1000, 0x1000, 1), Err("enomem"));
    vm.insert(VmRegion::new(0x1800, 0x1000, 0)).unwrap();
    assert_eq!(sys_mprotect(&vm, 0x1000, 0x1000, 1), Ok(0));
    assert_eq!(sys_mprotect(&vm, 0x2800, 0x1000, 1), Err("enomem"));
}

#[test]
fn elf_interpreter_path_is_the_interp_segment_without_trailing_nuls() {
    let mut file = vec![0u8; 64];
    file[16..32].copy_from_slice(b"/lib/ld.so\0\0\0\0\0\0");
    file[40] = 0xff;
    let interp = ProgHeader { kind: PT_INTERP, vaddr: 0, mem_size: 16, offset: 16, file_size: 16, flags: 4 };
    let phs = vec![load(0x1000, 0x100, 0, 0x40, 5), interp];
    assert_eq!(get_interpreter(&phs, &file), Ok("/lib/ld.so"));
    assert_eq!(get_interpreter(&vec![load(0x1000, 0x100, 0, 0x40, 5)], &file), Err("no interp header"));
    let bad = ProgHeader { kind: PT_INTERP, vaddr: 0, mem_size: 4, offset: 38, file_size: 4, flags: 4 };
    assert_eq!(get_interpreter(&vec![bad], &file), Err("failed to convert to utf8"));
    let empty = ProgHeader { kind: PT_INTERP, vaddr: 0, mem_size: 4, offset: 0, file_size: 4, flags: 4 };
    assert_eq!(get_interpreter(&vec![empty], &file), Ok(""));
}
