use std::collections::BTreeMap;
use kernel_sim::caps::{CapSet, SigAction, SigSet};
use kernel_sim::consts::{CAP_KILL, SIG_DFL};
use kernel_sim::task::ProcInit;
use kernel_sim::timer::TimerEntry;

#[test]
fn audit_procinit_push_at_small_stack_does_not_underflow() {
    let init = ProcInit { args: vec!["init".to_string()], envs: Vec::new(), auxv: BTreeMap::new() };

    assert_eq!(init.push_at(0), 0);
}

#[test]
fn audit_capset_inherit_keeps_inheritable_capabilities() {
    let mut parent = CapSet::new();
    parent.grant(CAP_KILL);

    let child = CapSet::inherit(&parent);

    assert!(child.check(CAP_KILL));
}

#[test]
fn audit_capset_inherit_does_not_leave_ambient_without_permitted_bit() {
    let mut parent = CapSet::new();
    parent.grant(CAP_KILL);
    assert!(parent.raise_ambient(CAP_KILL));

    let child = CapSet::inherit(&parent);

    assert_eq!(child.ambient & !child.bits, 0);
}

#[test]
fn audit_sigset_signal_zero_is_not_pending() {
    let mut set = SigSet::new();

    set.sig_raise(0);

    assert!(!set.sig_pending(0));
    assert_eq!(set.deliverable(), None);
}

#[test]
fn audit_sigset_pending_large_signal_does_not_panic() {
    let set = SigSet::new();

    assert!(!set.sig_pending(64));
}

#[test]
fn audit_sigset_set_action_ignores_signal_zero() {
    let mut set = SigSet::new();

    set.set_action(0, SigAction { handler: 0x1234, flags: 0, mask: 0 });

    assert_eq!(set.get_action(0).handler, SIG_DFL);
}

#[test]
fn audit_timer_entry_expires_at_deadline() {
    let timer = TimerEntry::new(100, 0, 1);

    assert!(timer.expired(100));
}

#[test]
fn audit_timer_reset_overflow_does_not_panic() {
    let mut timer = TimerEntry::new(1, usize::MAX, 1);

    timer.reset(1);
    assert!(!timer.expired(1));
}

#[test]
fn procinit_push_at_is_total_size_below_top_rounded_to_16() {
    let mut auxv = BTreeMap::new();
    auxv.insert(6u8, 4096usize);
    let init = ProcInit { args: vec!["sh".to_string(), "-c".to_string()], envs: vec!["A=1".to_string()], auxv };
    let total = init.total_size();
    // strings: 3 + 3 + 4 bytes; words: (1*2+2) + 3 + 2 + 1 = 10
    assert_eq!(total, 10 + 10 * 8);
    let top = 0x10_0000usize + 7;
    assert_eq!(init.push_at(top), (top - total) & !0xF);
    assert_eq!(init.push_at(total - 1), 0);
    assert_eq!(init.push_at(total), 0);
}
