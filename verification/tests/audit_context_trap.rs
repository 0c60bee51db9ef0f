use kernel_sim::timer::{up_ms, Clocks};
use kernel_sim::trap::{Context, TrapCtl};

#[test]
fn audit_trap_handle_irq_preserves_existing_active_state() {
    let mut trap = TrapCtl::new();
    trap.active = true;

    let _ = trap.handle_irq(Context::new());

    assert!(trap.active);
}

#[test]
fn audit_trap_handle_irq_preserves_existing_irq_state() {
    let mut trap = TrapCtl::new();
    trap.irq_on = false;

    let _ = trap.handle_irq(Context::new());

    assert!(!trap.irq_on);
}

#[test]
fn audit_trap_dispatch_vector_14_reaches_page_fault_handler() {
    let mut trap = TrapCtl::new();
    let ctx = Context::new();

    let _ = trap.dispatch_vector(14, ctx);

    assert!(trap.current().is_some());
}

#[test]
fn audit_up_ms_overflow_does_not_panic() {
    let mut clk = Clocks::new();
    clk.wall = usize::MAX;
    assert_eq!(up_ms(&clk), usize::MAX / 1000);
}
