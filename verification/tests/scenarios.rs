//! End-to-end drives of the pool state machine, playing the runtime's part
//! by hand: establishing where asked, running the setup hook where asked,
//! and counting an execution as successful when a lease was granted by a
//! pool whose setup hook has run (a session that sees the bootstrap data).

use lease_pool::config::PoolConfig;
use lease_pool::model::ReleaseOutcome;
use lease_pool::pool::AcquireStep;
use lease_pool::pool::LeaseHandle;
use lease_pool::pool::Pool;

/// Drives the eager fill to completion, returning how many connections were
/// established and parked idle.
fn fill_eagerly(pool: &mut Pool) -> usize {
    let mut established = 0;
    while let Some(reservation) = pool.begin_eager_fill() {
        match pool.install_idle(reservation) {
            ReleaseOutcome::Idled | ReleaseOutcome::Woke(_) => established += 1,
            other => panic!("eager fill routed unexpectedly: {other:?}"),
        }
    }
    established
}

/// One non-waiting lease: grants reuse an idle connection, reservations are
/// "established" immediately, and a requested setup hook is run and counted.
fn lease_now(pool: &mut Pool, hook_runs: &mut u32) -> LeaseHandle {
    loop {
        match pool.begin_acquire() {
            AcquireStep::Granted(lease) => return lease,
            AcquireStep::MustEstablish(reservation) => return pool.install_leased(reservation),
            AcquireStep::RunSetup => {
                *hook_runs += 1;
                pool.setup_finished();
            }
            AcquireStep::MustWait(_) => panic!("pool unexpectedly saturated"),
            AcquireStep::Refused => panic!("pool unexpectedly closed"),
        }
    }
}

/// An execution through a lease succeeds exactly when the session can see
/// the bootstrap data, which the pool guarantees by running the setup hook
/// before any lease.
fn execute_one(pool: &Pool, _lease: &LeaseHandle) -> bool {
    pool.is_setup_done()
}

#[test]
fn equal_min_max_ten_sequential_executions_all_succeed() {
    let config = PoolConfig::new(10, 10, false).unwrap();
    let mut pool = Pool::new(config, true);
    assert_eq!(fill_eagerly(&mut pool), 10);
    let mut hook_runs = 0;
    pool.setup_finished();
    hook_runs += 1;

    let mut successes = 0;
    for _ in 0..10 {
        let lease = lease_now(&mut pool, &mut hook_runs);
        if execute_one(&pool, &lease) {
            successes += 1;
        }
        assert_eq!(pool.release(lease), ReleaseOutcome::Idled);
    }
    assert_eq!(successes, 10);
    assert_eq!(hook_runs, 1);
    assert_eq!(pool.leased_count(), 0);
    assert_eq!(pool.idle_count(), 10);
}

#[test]
fn max_over_min_four_interleaved_tasks_all_forty_executions_succeed() {
    let config = PoolConfig::new(10, 1, false).unwrap();
    let mut pool = Pool::new(config, true);
    assert_eq!(fill_eagerly(&mut pool), 1);
    let mut hook_runs = 0;
    pool.setup_finished();
    hook_runs += 1;

    let mut successes = 0;
    for _round in 0..10 {
        // All four tasks hold a lease at once before any of them releases.
        let mut held: Vec<LeaseHandle> = Vec::new();
        for _task in 0..4 {
            held.push(lease_now(&mut pool, &mut hook_runs));
        }
        assert_eq!(pool.leased_count(), 4);
        assert!(pool.total_count() <= 10);
        for lease in held {
            if execute_one(&pool, &lease) {
                successes += 1;
            }
            assert_eq!(pool.release(lease), ReleaseOutcome::Idled);
        }
    }
    assert_eq!(successes, 40);
    assert_eq!(hook_runs, 1);
}

#[test]
fn single_connection_serializes_sequential_and_concurrent_executions() {
    let config = PoolConfig::new(1, 0, false).unwrap();
    let mut pool = Pool::new(config, true);
    assert_eq!(fill_eagerly(&mut pool), 0);
    let mut hook_runs = 0;

    let mut successes = 0;
    for _ in 0..10 {
        let lease = lease_now(&mut pool, &mut hook_runs);
        assert_eq!(pool.leased_count(), 1);
        if execute_one(&pool, &lease) {
            successes += 1;
        }
        assert_eq!(pool.release(lease), ReleaseOutcome::Idled);
    }
    assert_eq!(successes, 10);

    // Three concurrent callers: one holds the only connection, the other
    // two queue and are served strictly first come, first served.
    let first = lease_now(&mut pool, &mut hook_runs);
    let second_ticket = match pool.begin_acquire() {
        AcquireStep::MustWait(t) => t,
        other => panic!("expected saturation, got {other:?}"),
    };
    let third_ticket = match pool.begin_acquire() {
        AcquireStep::MustWait(t) => t,
        other => panic!("expected saturation, got {other:?}"),
    };

    if execute_one(&pool, &first) {
        successes += 1;
    }
    assert_eq!(
        pool.release(first),
        ReleaseOutcome::Woke(second_ticket.number())
    );
    let second = pool.claim(second_ticket).expect("woken waiter claims its grant");
    assert_eq!(pool.leased_count(), 1);
    if execute_one(&pool, &second) {
        successes += 1;
    }
    assert_eq!(
        pool.release(second),
        ReleaseOutcome::Woke(third_ticket.number())
    );
    let third = pool.claim(third_ticket).expect("woken waiter claims its grant");
    if execute_one(&pool, &third) {
        successes += 1;
    }
    assert_eq!(pool.release(third), ReleaseOutcome::Idled);

    assert_eq!(successes, 13);
    assert_eq!(hook_runs, 1);
    assert_eq!(pool.total_count(), 1);
}

#[test]
fn lazy_pool_runs_setup_hook_exactly_once_before_first_lease() {
    let config = PoolConfig::new(1, 1, true).unwrap();
    let mut pool = Pool::new(config, true);
    // Lazy: construction establishes nothing.
    assert_eq!(fill_eagerly(&mut pool), 0);
    assert_eq!(pool.total_count(), 0);
    assert!(!pool.is_setup_done());

    let mut hook_runs = 0;
    let mut successes = 0;
    for _ in 0..6 {
        let lease = lease_now(&mut pool, &mut hook_runs);
        // The hook ran before this (and every) lease was handed out.
        assert!(pool.is_setup_done());
        if execute_one(&pool, &lease) {
            successes += 1;
        }
        assert_eq!(pool.release(lease), ReleaseOutcome::Idled);
    }
    assert_eq!(hook_runs, 1);
    assert_eq!(successes, 6);
    // The single connection was established once and reused throughout.
    assert_eq!(pool.total_count(), 1);
}
