use skipzone_app::compute::{pool_threads, Execution, PoolConfig};

/// The default configuration runs in parallel on every core.
#[test]
fn default_width_is_every_core() {
    let config = PoolConfig::default();
    assert_eq!(config.execution, Execution::Parallel);
    assert_eq!(config.max_threads, None);
    for cores in [1, 2, 8, 64] {
        assert_eq!(pool_threads(config, cores), cores);
    }
}

/// A cap is honoured, clamped to the cores there are, and a cap of zero
/// clamps up to one rather than failing.
#[test]
fn cap_is_honoured_and_clamped_into_the_cores() {
    let capped = |n| PoolConfig { execution: Execution::Parallel, max_threads: Some(n) };
    for cores in [1, 2, 8] {
        assert_eq!(pool_threads(capped(2), cores), 2.min(cores));
    }
    assert_eq!(pool_threads(capped(0), 8), 1);
    assert_eq!(pool_threads(capped(64), 8), 8);
    assert_eq!(pool_threads(capped(8), 8), 8);
}

/// A sequential pool runs on one thread whatever its cap.
#[test]
fn sequential_width_is_one_thread() {
    let config = PoolConfig { execution: Execution::Sequential, max_threads: Some(6) };
    assert_eq!(pool_threads(config, 16), 1);
    let config = PoolConfig { execution: Execution::Sequential, max_threads: None };
    assert_eq!(pool_threads(config, 16), 1);
}
