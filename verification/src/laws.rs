//! The pool's laws: properties that hold of every well-formed pool state
//! and of every sequence of transitions, stated over the model in
//! `model` and proved once and for all. The executable pool's
//! contracts tie each call to one model transition, so these laws carry
//! over to every run of the executable pool.

use vstd::prelude::*;

use crate::model::AcquireDecision;
use crate::model::CancelOutcome;
use crate::model::PoolModel;
use crate::model::ReleaseOutcome;
use crate::model::acquire_model;
use crate::model::cancel_model;
use crate::model::claim_model;
use crate::model::close_model;
use crate::model::establish_failed_model;
use crate::model::fill_model;
use crate::model::grant_index;
use crate::model::install_idle_model;
use crate::model::install_leased_model;
use crate::model::reap_count;
use crate::model::reap_model;
use crate::model::release_model;
use crate::model::route_model;
use crate::model::setup_model;
use crate::model::lemma_acquire_wf;
use crate::model::lemma_cancel_wf;
use crate::model::lemma_install_leased_wf;
use crate::model::lemma_release_wf;
use crate::model::lemma_drop_last_props;
use crate::model::lemma_push_props;
use crate::model::lemma_remove_props;
use crate::model::lemma_remove_value_props;
use crate::model::lemma_skip_props;

verus! {

/// However the pool is driven, the number of concurrently leased
/// connections never exceeds `max_connections`: it is bounded in every
/// well-formed state, and every transition preserves well-formedness (the
/// `lemma_..._wf` family in `model`).
pub proof fn lemma_leased_within_max(m: PoolModel)
    requires
        m.wf(),
    ensures
        m.leased.len() <= m.max,
        m.total() <= m.max,
{
}

/// No two lessees ever hold the same connection: distinct positions in the
/// leased set are distinct connections, and a leased connection is neither
/// idle, nor being established, nor promised to a waiter.
pub proof fn lemma_lease_exclusive(m: PoolModel, i: int, j: int)
    requires
        m.wf(),
        0 <= i < m.leased.len(),
        0 <= j < m.leased.len(),
        i != j,
    ensures
        m.leased[i] != m.leased[j],
        !m.idle.contains(m.leased[i]),
        !m.reserved.contains(m.leased[i]),
        !m.granted_conns().contains(m.leased[i]),
{
    assert(m.leased.contains(m.leased[i]));
}

/// A sequential acquire/release pair on a pool at rest always succeeds
/// while the pool is not closed, whatever the `min`/`max` ratio: the
/// acquire grants an idle connection or asks for one fresh establishment
/// (it never waits and is never refused), and the matching release returns
/// the connection to the idle set and leaves the pool at rest again, ready
/// for the next pair.
pub proof fn lemma_sequential_pair_succeeds(m: PoolModel)
    requires
        m.wf(),
        !m.closed,
        m.setup_done,
        m.quiescent(),
        m.next_conn < u64::MAX,
    ensures
        acquire_model(m).1 is Granted || acquire_model(m).1 is Establish,
        (match acquire_model(m).1 {
            AcquireDecision::Granted(c) => {
                let after = release_model(acquire_model(m).0, c);
                &&& after.1 == ReleaseOutcome::Idled
                &&& after.0.wf()
                &&& after.0.quiescent()
                &&& !after.0.closed
                &&& after.0.setup_done
            },
            AcquireDecision::Establish(c) => {
                let leased = install_leased_model(acquire_model(m).0, c);
                let after = release_model(leased, c);
                &&& after.1 == ReleaseOutcome::Idled
                &&& after.0.wf()
                &&& after.0.quiescent()
                &&& !after.0.closed
                &&& after.0.setup_done
            },
            _ => false,
        }),
{
    lemma_acquire_wf(m);
    let (m1, d) = acquire_model(m);
    if m.idle.len() > 0 {
        let c = m.idle.last();
        assert(m1.leased[0] == c);
        assert(m1.leased.contains(c));
        lemma_release_wf(m1, c);
        lemma_remove_value_props(m1.leased, c);
        let after = release_model(m1, c);
        assert(after.0.quiescent());
    } else {
        let c = m.next_conn;
        assert(m1.reserved[0] == c);
        assert(m1.reserved.contains(c));
        lemma_install_leased_wf(m1, c);
        let leased = install_leased_model(m1, c);
        assert(leased.leased[0] == c);
        assert(leased.leased.contains(c));
        lemma_release_wf(leased, c);
        lemma_remove_value_props(leased.leased, c);
        let after = release_model(leased, c);
        assert(after.0.quiescent());
    }
}

/// Releasing the same connection twice is detected: the second release
/// reports the connection as not leased and changes nothing, so a double
/// release never double-counts into the idle set.
pub proof fn lemma_release_idempotent(m: PoolModel, c: u64)
    requires
        m.wf(),
    ensures
        release_model(release_model(m, c).0, c) == (
            release_model(m, c).0,
            ReleaseOutcome::NotLeased,
        ),
{
    lemma_release_wf(m, c);
}

/// A release on a pool with queued waiters hands the connection to the
/// waiter that has waited longest — strictly first come, first served —
/// and everyone else keeps their place in line.
pub proof fn lemma_release_wakes_longest_waiter(m: PoolModel, c: u64)
    requires
        m.wf(),
        m.leased.contains(c),
        !m.closed,
        m.waiters.len() > 0,
    ensures
        release_model(m, c).1 == ReleaseOutcome::Woke(m.waiters.first()),
        release_model(m, c).0.waiters == m.waiters.drop_first(),
        release_model(m, c).0.granted == m.granted.push((m.waiters.first(), c)),
        release_model(m, c).0.wf(),
{
    lemma_release_wf(m, c);
}

/// An acquire abandoned while queued leaves the waiter queue with no
/// dangling entry: exactly the abandoned ticket goes, everyone before it
/// keeps their position, everyone after moves up one place — so no later
/// waiter is ever skipped.
pub proof fn lemma_cancel_leaves_no_dangling_waiter(m: PoolModel, t: u64)
    requires
        m.wf(),
        m.waiters.contains(t),
    ensures
        cancel_model(m, t).1 == CancelOutcome::Dequeued,
        cancel_model(m, t).0.wf(),
        !cancel_model(m, t).0.waiters.contains(t),
        cancel_model(m, t).0.waiters.len() == m.waiters.len() - 1,
        cancel_model(m, t).0.total() == m.total(),
        (match m.waiters.index_of_first(t) {
            Some(idx) => {
                &&& forall|j: int|
                    0 <= j < idx ==> cancel_model(m, t).0.waiters[j] == m.waiters[j]
                &&& forall|j: int|
                    idx <= j < m.waiters.len() - 1 ==> cancel_model(m, t).0.waiters[j]
                        == m.waiters[j + 1]
            },
            None => false,
        }),
{
    lemma_cancel_wf(m, t);
    lemma_remove_value_props(m.waiters, t);
    m.waiters.index_of_first_ensures(t);
    match m.waiters.index_of_first(t) {
        Some(idx) => {
            m.waiters.remove_ensures(idx);
        },
        None => {},
    }
}

/// An acquire abandoned after a connection was already assigned to it does
/// not leak the connection: on an open pool the connection goes to the next
/// waiter or back to the idle set, and the pool keeps its size.
pub proof fn lemma_cancel_reclaims_grant(m: PoolModel, t: u64)
    requires
        m.wf(),
        m.granted_tickets().contains(t),
    ensures
        cancel_model(m, t).0.wf(),
        !cancel_model(m, t).0.granted_tickets().contains(t),
        !m.closed ==> cancel_model(m, t).0.total() == m.total(),
        !m.closed ==> cancel_model(m, t).1 != CancelOutcome::NotFound && cancel_model(m, t).1
            != CancelOutcome::Dequeued && cancel_model(m, t).1 != CancelOutcome::GrantDestroyed(
            m.granted[grant_index(m, t)].1,
        ),
{
    assert(!m.waiters.contains(t));
    lemma_cancel_wf(m, t);
    let i = grant_index(m, t);
    assert(exists|j: int| 0 <= j < m.granted.len() && m.granted[j].0 == t) by {
        let j = choose|j: int| 0 <= j < m.granted_tickets().len() && m.granted_tickets()[j] == t;
        assert(m.granted[j].0 == t);
    }
    assert(0 <= i < m.granted.len() && m.granted[i].0 == t);
}

/// A connection's life is linear: once it has left the pool — torn down at
/// release after close, at a cancellation after close, or by a reap — no
/// transition brings its number back, because every transition either moves
/// existing connections between roles or mints the one fresh number the
/// pool has never used. A closed connection is never re-leased.
pub proof fn lemma_closed_connection_never_returns(m: PoolModel, c: u64, d: u64, t: u64)
    requires
        m.wf(),
        !m.conn_present(c),
        c < m.next_conn,
    ensures
        !acquire_model(m).0.conn_present(c),
        !fill_model(m).0.conn_present(c),
        !release_model(m, d).0.conn_present(c),
        m.reserved.contains(d) ==> !install_leased_model(m, d).conn_present(c),
        m.reserved.contains(d) ==> !install_idle_model(m, d).0.conn_present(c),
        m.reserved.contains(d) ==> !establish_failed_model(m, d).conn_present(c),
        !claim_model(m, t).0.conn_present(c),
        !cancel_model(m, t).0.conn_present(c),
        !setup_model(m).conn_present(c),
        !close_model(m).conn_present(c),
        !reap_model(m).0.conn_present(c),
{
    lemma_acquire_absent(m, c);
    lemma_fill_absent(m, c);
    lemma_release_absent(m, c, d);
    if m.reserved.contains(d) {
        lemma_install_absent(m, c, d);
    }
    lemma_claim_absent(m, c, t);
    lemma_cancel_absent(m, c, t);
    lemma_reap_absent(m, c);
}

proof fn lemma_acquire_absent(m: PoolModel, c: u64)
    requires
        m.wf(),
        !m.conn_present(c),
        c < m.next_conn,
    ensures
        !acquire_model(m).0.conn_present(c),
{
    if m.closed || !m.setup_done {
    } else if m.idle.len() > 0 {
        let x = m.idle.last();
        assert(m.idle.contains(x));
        lemma_drop_last_props(m.idle);
        lemma_push_props(m.leased, x);
    } else if m.total() < m.max {
        lemma_push_props(m.reserved, m.next_conn);
    }
}

proof fn lemma_fill_absent(m: PoolModel, c: u64)
    requires
        m.wf(),
        !m.conn_present(c),
        c < m.next_conn,
    ensures
        !fill_model(m).0.conn_present(c),
{
    if !m.lazy && !m.closed && m.total() < m.min {
        lemma_push_props(m.reserved, m.next_conn);
    }
}

proof fn lemma_route_absent(m: PoolModel, c: u64, d: u64)
    requires
        !m.conn_present(c),
        c != d,
    ensures
        !route_model(m, d).0.conn_present(c),
{
    let m1 = route_model(m, d).0;
    if m.closed {
    } else if m.waiters.len() > 0 {
        assert(m1.granted_conns() =~= m.granted_conns().push(d));
        lemma_push_props(m.granted_conns(), d);
    } else {
        lemma_push_props(m.idle, d);
    }
}

proof fn lemma_release_absent(m: PoolModel, c: u64, d: u64)
    requires
        m.wf(),
        !m.conn_present(c),
    ensures
        !release_model(m, d).0.conn_present(c),
{
    if m.leased.contains(d) {
        lemma_remove_value_props(m.leased, d);
        let mid = PoolModel { leased: m.leased.remove_value(d), ..m };
        assert(mid.granted_conns() == m.granted_conns());
        assert(!mid.conn_present(c));
        lemma_route_absent(mid, c, d);
    }
}

proof fn lemma_install_absent(m: PoolModel, c: u64, d: u64)
    requires
        m.wf(),
        !m.conn_present(c),
        m.reserved.contains(d),
    ensures
        !install_leased_model(m, d).conn_present(c),
        !install_idle_model(m, d).0.conn_present(c),
        !establish_failed_model(m, d).conn_present(c),
{
    lemma_remove_value_props(m.reserved, d);
    lemma_push_props(m.leased, d);
    let mid = PoolModel { reserved: m.reserved.remove_value(d), ..m };
    assert(mid.granted_conns() == m.granted_conns());
    assert(!mid.conn_present(c));
    lemma_route_absent(mid, c, d);
}

proof fn lemma_claim_absent(m: PoolModel, c: u64, t: u64)
    requires
        m.wf(),
        !m.conn_present(c),
    ensures
        !claim_model(m, t).0.conn_present(c),
{
    if m.granted_tickets().contains(t) {
        assert(exists|j: int| 0 <= j < m.granted.len() && m.granted[j].0 == t) by {
            let j = choose|j: int|
                0 <= j < m.granted_tickets().len() && m.granted_tickets()[j] == t;
            assert(m.granted[j].0 == t);
        }
        let i = grant_index(m, t);
        let x = m.granted[i].1;
        assert(m.granted_conns()[i] == x);
        assert(m.granted_conns().contains(x));
        let m1 = claim_model(m, t).0;
        assert(m1.granted_conns() =~= m.granted_conns().remove(i));
        lemma_remove_props(m.granted_conns(), i);
        lemma_push_props(m.leased, x);
    }
}

proof fn lemma_cancel_absent(m: PoolModel, c: u64, t: u64)
    requires
        m.wf(),
        !m.conn_present(c),
    ensures
        !cancel_model(m, t).0.conn_present(c),
{
    if m.waiters.contains(t) {
        assert(cancel_model(m, t).0.granted_conns() == m.granted_conns());
    } else if m.granted_tickets().contains(t) {
        assert(exists|j: int| 0 <= j < m.granted.len() && m.granted[j].0 == t) by {
            let j = choose|j: int|
                0 <= j < m.granted_tickets().len() && m.granted_tickets()[j] == t;
            assert(m.granted[j].0 == t);
        }
        let i = grant_index(m, t);
        let x = m.granted[i].1;
        assert(m.granted_conns()[i] == x);
        assert(m.granted_conns().contains(x));
        let mid = PoolModel { granted: m.granted.remove(i), ..m };
        assert(mid.granted_conns() =~= m.granted_conns().remove(i));
        lemma_remove_props(m.granted_conns(), i);
        assert(!mid.conn_present(c));
        lemma_route_absent(mid, c, x);
    }
}

proof fn lemma_reap_absent(m: PoolModel, c: u64)
    requires
        m.wf(),
        !m.conn_present(c),
    ensures
        !reap_model(m).0.conn_present(c),
{
    lemma_skip_props(m.idle, reap_count(m));
    assert(reap_model(m).0.granted_conns() == m.granted_conns());
}

/// The one-time setup hook runs before any lease: a well-formed pool with a
/// lease outstanding has run it; an acquire grants or reserves only after
/// it has run; and on an open pool that has not run it, the first acquire's
/// only answer is to run it — while after it has run, an acquire never asks
/// for it again, so the guarded initializer runs exactly once.
pub proof fn lemma_setup_before_first_lease(m: PoolModel)
    requires
        m.wf(),
    ensures
        m.leased.len() > 0 ==> m.setup_done,
        m.granted.len() > 0 ==> m.setup_done,
        (acquire_model(m).1 is Granted || acquire_model(m).1 is Establish) ==> m.setup_done,
        (!m.closed && !m.setup_done) <==> acquire_model(m).1 is Setup,
{
}

} // verus!
