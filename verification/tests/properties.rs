//! Concrete checks of the pool's stated properties: the lease bound, the
//! guaranteed sequential pairs, double-release detection, cancellation,
//! rollback on failed establishment, close semantics, and the documented
//! reuse and wakeup orders.

use lease_pool::config::ConfigError;
use lease_pool::config::PoolConfig;
use lease_pool::model::CancelOutcome;
use lease_pool::model::ReleaseOutcome;
use lease_pool::pool::AcquireStep;
use lease_pool::pool::Pool;

#[test]
fn config_validation_is_exact() {
    assert_eq!(PoolConfig::new(0, 0, false), Err(ConfigError::ZeroMax));
    assert_eq!(PoolConfig::new(0, 3, true), Err(ConfigError::ZeroMax));
    assert_eq!(PoolConfig::new(2, 3, false), Err(ConfigError::MinExceedsMax));
    let config = PoolConfig::new(3, 2, true).unwrap();
    assert_eq!(config.max_connections, 3);
    assert_eq!(config.min_connections, 2);
    assert!(config.lazy);
}

#[test]
fn leased_connections_never_exceed_max() {
    let config = PoolConfig::new(3, 1, false).unwrap();
    let mut pool = Pool::new(config, false);
    let mut held = Vec::new();
    for _ in 0..3 {
        match pool.begin_acquire() {
            AcquireStep::MustEstablish(r) => held.push(pool.install_leased(r)),
            other => panic!("expected establishment, got {other:?}"),
        }
        assert!(pool.leased_count() <= 3);
    }
    assert_eq!(pool.leased_count(), 3);
    // The fourth concurrent caller queues instead of overshooting the cap.
    match pool.begin_acquire() {
        AcquireStep::MustWait(_) => {}
        other => panic!("expected saturation, got {other:?}"),
    }
    assert_eq!(pool.leased_count(), 3);
    assert_eq!(pool.total_count(), 3);
}

#[test]
fn sequential_pairs_succeed_for_any_min_max_ratio() {
    for (max, min, lazy) in [(1, 0, false), (1, 1, true), (4, 1, false), (7, 7, false)] {
        let config = PoolConfig::new(max, min, lazy).unwrap();
        let mut pool = Pool::new(config, false);
        while let Some(r) = pool.begin_eager_fill() {
            pool.install_idle(r);
        }
        for _ in 0..12 {
            let lease = match pool.begin_acquire() {
                AcquireStep::Granted(l) => l,
                AcquireStep::MustEstablish(r) => pool.install_leased(r),
                other => panic!("sequential acquire must succeed, got {other:?}"),
            };
            assert_eq!(pool.release(lease), ReleaseOutcome::Idled);
        }
    }
}

#[test]
fn double_release_is_detected_and_changes_nothing() {
    let config = PoolConfig::new(2, 0, false).unwrap();
    let mut pool = Pool::new(config, false);
    let lease = match pool.begin_acquire() {
        AcquireStep::MustEstablish(r) => pool.install_leased(r),
        other => panic!("expected establishment, got {other:?}"),
    };
    let conn = lease.conn_id();
    assert_eq!(pool.release(lease), ReleaseOutcome::Idled);
    assert_eq!(pool.idle_count(), 1);
    // Releasing the same connection again is reported, and the idle set is
    // not double-counted.
    assert_eq!(pool.release_conn(conn), ReleaseOutcome::NotLeased);
    assert_eq!(pool.idle_count(), 1);
    assert_eq!(pool.total_count(), 1);
}

#[test]
fn cancelled_waiter_leaves_queue_without_skipping_later_waiters() {
    let config = PoolConfig::new(1, 0, false).unwrap();
    let mut pool = Pool::new(config, false);
    let lease = match pool.begin_acquire() {
        AcquireStep::MustEstablish(r) => pool.install_leased(r),
        other => panic!("expected establishment, got {other:?}"),
    };
    let w1 = match pool.begin_acquire() {
        AcquireStep::MustWait(t) => t,
        other => panic!("expected saturation, got {other:?}"),
    };
    let w2 = match pool.begin_acquire() {
        AcquireStep::MustWait(t) => t,
        other => panic!("expected saturation, got {other:?}"),
    };
    let w3 = match pool.begin_acquire() {
        AcquireStep::MustWait(t) => t,
        other => panic!("expected saturation, got {other:?}"),
    };
    assert_eq!(pool.waiter_count(), 3);

    // The middle waiter gives up; nobody else loses their place.
    assert_eq!(pool.cancel(w2), CancelOutcome::Dequeued);
    assert_eq!(pool.waiter_count(), 2);
    // Cancelling the same ticket again finds nothing.
    assert_eq!(pool.cancel(w2), CancelOutcome::NotFound);

    assert_eq!(pool.release(lease), ReleaseOutcome::Woke(w1.number()));
    let lease1 = pool.claim(w1).expect("first waiter gets the connection");
    assert_eq!(pool.release(lease1), ReleaseOutcome::Woke(w3.number()));
    let lease3 = pool.claim(w3).expect("third waiter is not skipped");
    assert_eq!(pool.release(lease3), ReleaseOutcome::Idled);
}

#[test]
fn cancelling_an_already_granted_ticket_reclaims_the_connection() {
    let config = PoolConfig::new(1, 0, false).unwrap();
    let mut pool = Pool::new(config, false);
    let lease = match pool.begin_acquire() {
        AcquireStep::MustEstablish(r) => pool.install_leased(r),
        other => panic!("expected establishment, got {other:?}"),
    };
    let conn = lease.conn_id();
    let w = match pool.begin_acquire() {
        AcquireStep::MustWait(t) => t,
        other => panic!("expected saturation, got {other:?}"),
    };
    assert_eq!(pool.release(lease), ReleaseOutcome::Woke(w.number()));
    // The caller was cancelled between wakeup and collection: the granted
    // connection goes back to idle rather than leaking.
    assert_eq!(pool.cancel(w), CancelOutcome::GrantIdled(conn));
    assert!(pool.claim(w).is_none());
    assert_eq!(pool.idle_count(), 1);
    assert_eq!(pool.total_count(), 1);
}

#[test]
fn failed_establishment_rolls_back_the_reservation() {
    let config = PoolConfig::new(1, 0, false).unwrap();
    let mut pool = Pool::new(config, false);
    let reservation = match pool.begin_acquire() {
        AcquireStep::MustEstablish(r) => r,
        other => panic!("expected establishment, got {other:?}"),
    };
    assert_eq!(pool.total_count(), 1);
    pool.establish_failed(reservation);
    // No phantom connection stays counted; the next caller may try again.
    assert_eq!(pool.total_count(), 0);
    match pool.begin_acquire() {
        AcquireStep::MustEstablish(r) => {
            let lease = pool.install_leased(r);
            assert_eq!(pool.release(lease), ReleaseOutcome::Idled);
        }
        other => panic!("expected a fresh establishment, got {other:?}"),
    }
}

#[test]
fn close_drains_idle_dismisses_waiters_and_destroys_returned_leases() {
    let config = PoolConfig::new(2, 2, false).unwrap();
    let mut pool = Pool::new(config, false);
    while let Some(r) = pool.begin_eager_fill() {
        pool.install_idle(r);
    }
    assert_eq!(pool.idle_count(), 2);
    let lease = match pool.begin_acquire() {
        AcquireStep::Granted(l) => l,
        other => panic!("expected a grant, got {other:?}"),
    };
    let (drained, dismissed) = pool.close();
    assert_eq!(drained.len(), 1);
    assert_eq!(dismissed.len(), 0);
    assert!(pool.is_closed());
    assert_eq!(pool.idle_count(), 0);

    // A closed pool refuses new leases; the in-flight lease completes, and
    // its release destroys the connection instead of re-idling it.
    match pool.begin_acquire() {
        AcquireStep::Refused => {}
        other => panic!("expected refusal, got {other:?}"),
    }
    assert_eq!(pool.release(lease), ReleaseOutcome::Destroyed);
    assert_eq!(pool.total_count(), 0);
}

#[test]
fn close_reports_dismissed_waiter_tickets() {
    let config = PoolConfig::new(1, 0, false).unwrap();
    let mut pool = Pool::new(config, false);
    let lease = match pool.begin_acquire() {
        AcquireStep::MustEstablish(r) => pool.install_leased(r),
        other => panic!("expected establishment, got {other:?}"),
    };
    let w = match pool.begin_acquire() {
        AcquireStep::MustWait(t) => t,
        other => panic!("expected saturation, got {other:?}"),
    };
    let (drained, dismissed) = pool.close();
    assert_eq!(drained.len(), 0);
    assert_eq!(dismissed, vec![w.number()]);
    assert_eq!(pool.waiter_count(), 0);
    assert_eq!(pool.release(lease), ReleaseOutcome::Destroyed);
}

#[test]
fn idle_reuse_is_most_recently_returned_first() {
    let config = PoolConfig::new(3, 0, false).unwrap();
    let mut pool = Pool::new(config, false);
    let first = match pool.begin_acquire() {
        AcquireStep::MustEstablish(r) => pool.install_leased(r),
        other => panic!("expected establishment, got {other:?}"),
    };
    let second = match pool.begin_acquire() {
        AcquireStep::MustEstablish(r) => pool.install_leased(r),
        other => panic!("expected establishment, got {other:?}"),
    };
    let first_id = first.conn_id();
    let second_id = second.conn_id();
    assert_ne!(first_id, second_id);
    pool.release(first);
    pool.release(second);
    // The connection returned last comes back first (LIFO, for freshness).
    match pool.begin_acquire() {
        AcquireStep::Granted(l) => {
            assert_eq!(l.conn_id(), second_id);
            pool.release(l);
        }
        other => panic!("expected a grant, got {other:?}"),
    }
}

#[test]
fn waiters_are_woken_in_arrival_order() {
    let config = PoolConfig::new(1, 1, false).unwrap();
    let mut pool = Pool::new(config, false);
    while let Some(r) = pool.begin_eager_fill() {
        pool.install_idle(r);
    }
    let lease = match pool.begin_acquire() {
        AcquireStep::Granted(l) => l,
        other => panic!("expected a grant, got {other:?}"),
    };
    let mut tickets = Vec::new();
    for _ in 0..3 {
        match pool.begin_acquire() {
            AcquireStep::MustWait(t) => tickets.push(t),
            other => panic!("expected saturation, got {other:?}"),
        }
    }
    let mut current = lease;
    for expected in &tickets {
        assert_eq!(pool.release(current), ReleaseOutcome::Woke(expected.number()));
        current = pool.claim(*expected).expect("woken in arrival order");
    }
    assert_eq!(pool.release(current), ReleaseOutcome::Idled);
}

#[test]
fn claiming_without_a_grant_returns_nothing() {
    let config = PoolConfig::new(1, 0, false).unwrap();
    let mut pool = Pool::new(config, false);
    let lease = match pool.begin_acquire() {
        AcquireStep::MustEstablish(r) => pool.install_leased(r),
        other => panic!("expected establishment, got {other:?}"),
    };
    let w = match pool.begin_acquire() {
        AcquireStep::MustWait(t) => t,
        other => panic!("expected saturation, got {other:?}"),
    };
    // Not woken yet: a spurious claim collects nothing and loses nothing.
    assert!(pool.claim(w).is_none());
    assert_eq!(pool.waiter_count(), 1);
    assert_eq!(pool.release(lease), ReleaseOutcome::Woke(w.number()));
    assert!(pool.claim(w).is_some());
}

#[test]
fn reaping_retires_oldest_idle_connections_down_to_min() {
    let config = PoolConfig::new(5, 1, false).unwrap();
    let mut pool = Pool::new(config, false);
    let mut held = Vec::new();
    for _ in 0..3 {
        match pool.begin_acquire() {
            AcquireStep::MustEstablish(r) => held.push(pool.install_leased(r)),
            AcquireStep::Granted(l) => held.push(l),
            other => panic!("expected a lease, got {other:?}"),
        }
    }
    let ids: Vec<u64> = held.iter().map(|l| l.conn_id()).collect();
    for lease in held {
        assert_eq!(pool.release(lease), ReleaseOutcome::Idled);
    }
    assert_eq!(pool.idle_count(), 3);

    // Two connections exceed the floor of one; the two idle longest go.
    let reaped = pool.reap_excess_idle();
    assert_eq!(reaped, vec![ids[0], ids[1]]);
    assert_eq!(pool.idle_count(), 1);
    assert_eq!(pool.total_count(), 1);

    // A second pass finds nothing above the floor.
    assert_eq!(pool.reap_excess_idle(), Vec::<u64>::new());
    assert_eq!(pool.total_count(), 1);
}
