use kernel_sim::initstack::{ProcInitInfo, StackVm};
use std::collections::BTreeMap;

fn info() -> ProcInitInfo {
    let mut auxv = BTreeMap::new();
    auxv.insert(6u8, 4096usize);
    ProcInitInfo { args: vec!["prog".to_string()], envs: vec!["A=1".to_string()], auxv }
}

#[test]
fn init_stack_lays_out_strings_pointers_and_count() {
    let top: usize = 0x7000_0000;
    let mut vm = StackVm { ready_pages: vec![top - 4096], written: Vec::new() };
    assert_eq!(info().try_push_at_in_vm(&mut vm, top), Ok(top - 88));
    assert_eq!(vm.written.len(), 86);
    assert_eq!(vm.written[0], (top - 1, 0));
    assert_eq!(vm.written[1], (top - 5, b'p'));
    let argc = vm.written.iter().find(|(a, _)| *a == top - 88).unwrap();
    assert_eq!(argc.1, 1);
    let aux_type = vm.written.iter().find(|(a, _)| *a == top - 48).unwrap();
    assert_eq!(aux_type.1, 6);
}

#[test]
fn init_stack_fails_on_unprepared_page() {
    let top: usize = 0x7000_0000;
    let mut vm = StackVm { ready_pages: Vec::new(), written: Vec::new() };
    assert_eq!(info().try_push_at_in_vm(&mut vm, top), Err("failed to prepare init stack page"));
    assert!(vm.written.is_empty());
    assert_eq!(info().push_at_in_vm(&mut vm, top), 0);
}

#[test]
fn init_stack_needs_arguments() {
    let mut vm = StackVm { ready_pages: vec![0], written: Vec::new() };
    let empty = ProcInitInfo { args: Vec::new(), envs: Vec::new(), auxv: BTreeMap::new() };
    assert_eq!(empty.try_push_at_in_vm(&mut vm, 4096), Err("init stack missing argv"));
    assert_eq!(empty.push_at_in_vm(&mut vm, 4096), 0);
}

#[test]
fn init_stack_pointer_underflow_is_reported() {
    let mut vm = StackVm { ready_pages: vec![0], written: Vec::new() };
    assert_eq!(info().try_push_at_in_vm(&mut vm, 3), Err("init stack pointer underflow"));
}
