use kernel_sim::caps::ResourceLimits;

#[test]
fn audit_resource_limits_exceeds_any_matches_individual_fd_check() {
    let limits = ResourceLimits::default_limits();

    assert!(!limits.check_fd(limits.max_fds));
    assert!(limits.exceeds_any(limits.max_fds, 0, 0));
}
