//! The executable pool core. Every method performs exactly one transition
//! of the model in `model` on the pool's view and says so in its
//! contract; the runtime adapter around it performs the I/O the decisions
//! call for (establishing sessions, notifying woken waiters) and feeds the
//! outcomes back in.

use vstd::prelude::*;

use crate::config::PoolConfig;
use crate::model::AcquireDecision;
use crate::model::CancelOutcome;
use crate::model::PoolModel;
use crate::model::ReleaseOutcome;
use crate::model::acquire_model;
use crate::model::cancel_model;
use crate::model::claim_model;
use crate::model::close_model;
use crate::model::establish_failed_model;
use crate::model::fill_model;
use crate::model::init_model;
use crate::model::install_idle_model;
use crate::model::install_leased_model;
use crate::model::release_model;
use crate::model::reap_count;
use crate::model::reap_model;
use crate::model::route_model;
use crate::model::setup_model;
use crate::model::lemma_acquire_wf;
use crate::model::lemma_cancel_wf;
use crate::model::lemma_claim_wf;
use crate::model::lemma_close_wf;
use crate::model::lemma_establish_failed_wf;
use crate::model::lemma_fill_wf;
use crate::model::lemma_init_wf;
use crate::model::lemma_install_idle_wf;
use crate::model::lemma_install_leased_wf;
use crate::model::lemma_release_wf;
use crate::model::lemma_reap_wf;
use crate::model::lemma_remove_value_props;
use crate::model::lemma_route_wf;
use crate::model::lemma_setup_wf;
use crate::model::lemma_grant_index_unique;
use crate::model::lemma_remove_props;

verus! {

/// The exclusive right to use one connection, held between a successful
/// acquire and the release that hands the connection back. The handle is
/// not copyable: releasing consumes it, so a lessee cannot use a
/// connection after returning it.
#[derive(Debug)]
pub struct LeaseHandle {
    conn: u64,
}

impl View for LeaseHandle {
    type V = u64;

    closed spec fn view(&self) -> u64 {
        self.conn
    }
}

impl LeaseHandle {
    /// The number of the leased connection; the runtime adapter keys the
    /// live session by it.
    pub fn conn_id(&self) -> (r: u64)
        ensures
            r == self@,
    {
        self.conn
    }
}

/// Reserved capacity for one connection the caller must now establish.
/// Consumed by exactly one of `install_leased`, `install_idle` or
/// `establish_failed`.
#[derive(Debug)]
pub struct Reservation {
    conn: u64,
}

impl View for Reservation {
    type V = u64;

    closed spec fn view(&self) -> u64 {
        self.conn
    }
}

impl Reservation {
    /// The connection number this reservation holds capacity for.
    pub fn conn_id(&self) -> (r: u64)
        ensures
            r == self@,
    {
        self.conn
    }
}

/// A queued acquire caller's place in line.
#[derive(Clone, Copy, PartialEq, Eq, Structural, Debug)]
pub struct Ticket {
    ticket: u64,
}

impl View for Ticket {
    type V = u64;

    closed spec fn view(&self) -> u64 {
        self.ticket
    }
}

impl Ticket {
    /// The ticket number, as release reports it in `ReleaseOutcome::Woke`.
    pub fn number(&self) -> (r: u64)
        ensures
            r == self@,
    {
        self.ticket
    }
}

/// What the caller of `begin_acquire` must do next.
#[derive(Debug)]
pub enum AcquireStep {
    /// An idle connection was granted immediately.
    Granted(LeaseHandle),
    /// Capacity was reserved; run the connection factory, then report the
    /// outcome through `install_leased` or `establish_failed`.
    MustEstablish(Reservation),
    /// The pool is saturated; suspend until woken, then `claim`.
    MustWait(Ticket),
    /// Run the one-time setup hook, report it through `setup_finished`,
    /// and ask again; no lease is handed out before that.
    RunSetup,
    /// The pool is closed and will never grant again.
    Refused,
}

/// A bounded registry of connections with a lease/return protocol: at most
/// `max_connections` connections exist at once, waiters are woken strictly
/// in arrival order, and no lease is handed out before the one-time setup
/// hook has run.
pub struct Pool {
    max_connections: u32,
    min_connections: u32,
    lazy: bool,
    idle: Vec<u64>,
    leased: Vec<u64>,
    reserved: Vec<u64>,
    granted: Vec<(u64, u64)>,
    waiters: Vec<u64>,
    next_conn: u64,
    next_ticket: u64,
    setup_done: bool,
    closed: bool,
}

impl View for Pool {
    type V = PoolModel;

    closed spec fn view(&self) -> PoolModel {
        PoolModel {
            max: self.max_connections,
            min: self.min_connections,
            lazy: self.lazy,
            idle: self.idle@,
            leased: self.leased@,
            reserved: self.reserved@,
            granted: self.granted@,
            waiters: self.waiters@,
            next_conn: self.next_conn,
            next_ticket: self.next_ticket,
            setup_done: self.setup_done,
            closed: self.closed,
        }
    }
}

/// Finds the first position of `x` in `v`.
fn vec_find(v: &Vec<u64>, x: u64) -> (r: Option<usize>)
    ensures
        (match r {
            Some(i) => i < v@.len() && v@[i as int] == x && (forall|j: int|
                0 <= j < i ==> v@[j] != x),
            None => !v@.contains(x),
        }),
{
    let mut i: usize = 0;
    while i < v.len()
        invariant
            i <= v@.len(),
            forall|j: int| 0 <= j < i ==> v@[j] != x,
        decreases v@.len() - i,
    {
        if v[i] == x {
            return Some(i);
        }
        i = i + 1;
    }
    proof {
        if v@.contains(x) {
            let j = choose|j: int| 0 <= j < v@.len() && v@[j] == x;
            assert(v@[j] != x);
        }
    }
    None
}

/// Removes the first occurrence of `x` from `v`, reporting whether it was
/// there at all.
fn vec_remove_value(v: &mut Vec<u64>, x: u64) -> (removed: bool)
    ensures
        final(v)@ == old(v)@.remove_value(x),
        removed == old(v)@.contains(x),
{
    proof {
        old(v)@.index_of_first_ensures(x);
    }
    match vec_find(v, x) {
        Some(i) => {
            v.remove(i);
            proof {
                match old(v)@.index_of_first(x) {
                    Some(i0) => {
                        assert(i0 == i as int) by {
                            if i0 < i as int {
                                assert(old(v)@[i0] != x);
                            }
                            if (i as int) < i0 {
                                assert(old(v)@[i as int] != x);
                            }
                        }
                    },
                    None => {
                        assert(old(v)@.contains(x));
                    },
                }
            }
            true
        },
        None => false,
    }
}

impl Pool {
    /// Builds an empty pool from a valid configuration. `needs_setup` says
    /// whether a one-time setup hook is configured; until it is reported
    /// finished, no lease is handed out. An eager pool is then filled to
    /// `min_connections` by driving `begin_eager_fill`; a lazy pool
    /// establishes nothing until first demand.
    pub fn new(config: PoolConfig, needs_setup: bool) -> (p: Pool)
        requires
            config.valid(),
        ensures
            p@ == init_model(config.max_connections, config.min_connections, config.lazy,
                needs_setup),
            p@.wf(),
            p@.quiescent(),
    {
        let p = Pool {
            max_connections: config.max_connections,
            min_connections: config.min_connections,
            lazy: config.lazy,
            idle: Vec::new(),
            leased: Vec::new(),
            reserved: Vec::new(),
            granted: Vec::new(),
            waiters: Vec::new(),
            next_conn: 0,
            next_ticket: 0,
            setup_done: !needs_setup,
            closed: false,
        };
        proof {
            lemma_init_wf(config.max_connections, config.min_connections, config.lazy,
                needs_setup);
            assert(p@ =~= init_model(config.max_connections, config.min_connections, config.lazy,
                needs_setup));
        }
        p
    }

    /// How many connections exist right now, leased, idle, promised or
    /// being established.
    pub fn total_count(&self) -> (r: usize)
        requires
            self@.wf(),
        ensures
            r == self@.total(),
    {
        self.idle.len() + self.leased.len() + self.reserved.len() + self.granted.len()
    }

    /// One acquire step: the returned step tells the caller to use a granted
    /// connection, establish a fresh one, run the setup hook first, wait in
    /// line, or give up on a closed pool. Idle connections are reused most
    /// recently returned first.
    pub fn begin_acquire(&mut self) -> (step: AcquireStep)
        requires
            old(self)@.wf(),
            old(self)@.next_conn < u64::MAX,
            old(self)@.next_ticket < u64::MAX,
        ensures
            final(self)@ == acquire_model(old(self)@).0,
            final(self)@.wf(),
            (match step {
                AcquireStep::Granted(l) => acquire_model(old(self)@).1
                    == AcquireDecision::Granted(l@),
                AcquireStep::MustEstablish(r) => acquire_model(old(self)@).1
                    == AcquireDecision::Establish(r@),
                AcquireStep::MustWait(t) => acquire_model(old(self)@).1 == AcquireDecision::Wait(
                    t@,
                ),
                AcquireStep::RunSetup => acquire_model(old(self)@).1 == AcquireDecision::Setup,
                AcquireStep::Refused => acquire_model(old(self)@).1 == AcquireDecision::Refused,
            }),
    {
        proof {
            lemma_acquire_wf(old(self)@);
        }
        if self.closed {
            return AcquireStep::Refused;
        }
        if !self.setup_done {
            return AcquireStep::RunSetup;
        }
        if self.idle.len() > 0 {
            let c = self.idle.pop().unwrap();
            self.leased.push(c);
            proof {
                assert(self@ =~= acquire_model(old(self)@).0);
            }
            return AcquireStep::Granted(LeaseHandle { conn: c });
        }
        let total = self.idle.len() + self.leased.len() + self.reserved.len()
            + self.granted.len();
        if total < self.max_connections as usize {
            let c = self.next_conn;
            self.next_conn = self.next_conn + 1;
            self.reserved.push(c);
            proof {
                assert(self@ =~= acquire_model(old(self)@).0);
            }
            return AcquireStep::MustEstablish(Reservation { conn: c });
        }
        let t = self.next_ticket;
        self.next_ticket = self.next_ticket + 1;
        self.waiters.push(t);
        proof {
            assert(self@ =~= acquire_model(old(self)@).0);
        }
        AcquireStep::MustWait(Ticket { ticket: t })
    }

    /// One eager-fill step at construction: while an eager pool holds fewer
    /// than `min_connections`, reserves capacity the caller must establish
    /// and then report through `install_idle` or `establish_failed`. Returns
    /// nothing once the floor is reached, and always on a lazy pool.
    pub fn begin_eager_fill(&mut self) -> (r: Option<Reservation>)
        requires
            old(self)@.wf(),
            old(self)@.next_conn < u64::MAX,
        ensures
            final(self)@ == fill_model(old(self)@).0,
            final(self)@.wf(),
            (match r {
                Some(res) => fill_model(old(self)@).1 == Some(res@),
                None => fill_model(old(self)@).1 is None,
            }),
    {
        proof {
            lemma_fill_wf(old(self)@);
        }
        if self.lazy || self.closed {
            return None;
        }
        let total = self.idle.len() + self.leased.len() + self.reserved.len()
            + self.granted.len();
        if total < self.min_connections as usize {
            let c = self.next_conn;
            self.next_conn = self.next_conn + 1;
            self.reserved.push(c);
            proof {
                assert(self@ =~= fill_model(old(self)@).0);
            }
            Some(Reservation { conn: c })
        } else {
            None
        }
    }

    /// Routes a connection currently held in no role: teardown on a closed
    /// pool, otherwise to the longest waiter, otherwise onto the idle set.
    fn route_in(&mut self, c: u64) -> (out: ReleaseOutcome)
        requires
            old(self)@.wf(),
            !old(self)@.idle.contains(c),
            !old(self)@.leased.contains(c),
            !old(self)@.reserved.contains(c),
            !old(self)@.granted_conns().contains(c),
            c < old(self)@.next_conn,
            old(self)@.total() < old(self)@.max,
        ensures
            final(self)@ == route_model(old(self)@, c).0,
            final(self)@.wf(),
            out == route_model(old(self)@, c).1,
    {
        proof {
            lemma_route_wf(old(self)@, c);
        }
        if self.closed {
            ReleaseOutcome::Destroyed
        } else if self.waiters.len() > 0 {
            let t = self.waiters.remove(0);
            self.granted.push((t, c));
            proof {
                assert(old(self)@.waiters.remove(0) =~= old(self)@.waiters.drop_first());
                assert(self@ =~= route_model(old(self)@, c).0);
            }
            ReleaseOutcome::Woke(t)
        } else {
            self.idle.push(c);
            proof {
                assert(self@ =~= route_model(old(self)@, c).0);
            }
            ReleaseOutcome::Idled
        }
    }

    /// Reports that establishment for an acquiring caller succeeded: the
    /// reservation becomes a lease on the new connection.
    pub fn install_leased(&mut self, r: Reservation) -> (l: LeaseHandle)
        requires
            old(self)@.wf(),
            old(self)@.reserved.contains(r@),
            old(self)@.setup_done,
        ensures
            final(self)@ == install_leased_model(old(self)@, r@),
            final(self)@.wf(),
            l@ == r@,
    {
        proof {
            lemma_install_leased_wf(old(self)@, r@);
        }
        let c = r.conn;
        vec_remove_value(&mut self.reserved, c);
        self.leased.push(c);
        proof {
            assert(self@ =~= install_leased_model(old(self)@, r@));
        }
        LeaseHandle { conn: c }
    }

    /// Reports that establishment for the eager fill succeeded: the new
    /// connection becomes available and is routed like a returned one.
    pub fn install_idle(&mut self, r: Reservation) -> (out: ReleaseOutcome)
        requires
            old(self)@.wf(),
            old(self)@.reserved.contains(r@),
        ensures
            final(self)@ == install_idle_model(old(self)@, r@).0,
            final(self)@.wf(),
            out == install_idle_model(old(self)@, r@).1,
    {
        proof {
            lemma_install_idle_wf(old(self)@, r@);
            lemma_remove_value_props(old(self)@.reserved, r@);
        }
        let c = r.conn;
        vec_remove_value(&mut self.reserved, c);
        proof {
            let mid = PoolModel { reserved: old(self)@.reserved.remove_value(r@), ..old(self)@ };
            assert(self@ =~= mid);
            assert(mid.granted_conns() == old(self)@.granted_conns());
            assert(mid.granted_tickets() == old(self)@.granted_tickets());
            assert(mid.wf());
        }
        self.route_in(c)
    }

    /// Reports that establishment failed: the reservation is rolled back so
    /// no phantom connection stays counted, and the error goes back to the
    /// acquire caller untouched.
    pub fn establish_failed(&mut self, r: Reservation)
        requires
            old(self)@.wf(),
            old(self)@.reserved.contains(r@),
        ensures
            final(self)@ == establish_failed_model(old(self)@, r@),
            final(self)@.wf(),
    {
        proof {
            lemma_establish_failed_wf(old(self)@, r@);
        }
        vec_remove_value(&mut self.reserved, r.conn);
        proof {
            assert(self@ =~= establish_failed_model(old(self)@, r@));
        }
    }

    /// Hands a leased connection back by number. A number that is not
    /// leased — a double release or a stale handle — is detected and
    /// changes nothing; it is never double-counted into the idle set.
    pub fn release_conn(&mut self, c: u64) -> (out: ReleaseOutcome)
        requires
            old(self)@.wf(),
        ensures
            final(self)@ == release_model(old(self)@, c).0,
            final(self)@.wf(),
            out == release_model(old(self)@, c).1,
    {
        proof {
            lemma_release_wf(old(self)@, c);
            lemma_remove_value_props(old(self)@.leased, c);
        }
        let was_leased = vec_remove_value(&mut self.leased, c);
        if !was_leased {
            return ReleaseOutcome::NotLeased;
        }
        proof {
            let mid = PoolModel { leased: old(self)@.leased.remove_value(c), ..old(self)@ };
            assert(self@ =~= mid);
            assert(mid.granted_conns() == old(self)@.granted_conns());
            assert(mid.granted_tickets() == old(self)@.granted_tickets());
            assert(mid.wf());
        }
        self.route_in(c)
    }

    /// Releases a lease: the handle is consumed, so the lessee cannot use
    /// the connection afterwards, and the connection goes to the longest
    /// waiter, the idle set, or teardown when the pool has closed.
    pub fn release(&mut self, lease: LeaseHandle) -> (out: ReleaseOutcome)
        requires
            old(self)@.wf(),
        ensures
            final(self)@ == release_model(old(self)@, lease@).0,
            final(self)@.wf(),
            out == release_model(old(self)@, lease@).1,
    {
        self.release_conn(lease.conn)
    }

    /// A woken waiter collects the connection assigned to its ticket; the
    /// answer is empty when nothing has been assigned to it (a spurious
    /// wakeup, or a grant already cancelled).
    pub fn claim(&mut self, t: Ticket) -> (r: Option<LeaseHandle>)
        requires
            old(self)@.wf(),
        ensures
            final(self)@ == claim_model(old(self)@, t@).0,
            final(self)@.wf(),
            (match r {
                Some(l) => claim_model(old(self)@, t@).1 == Some(l@),
                None => claim_model(old(self)@, t@).1 is None,
            }),
    {
        proof {
            lemma_claim_wf(old(self)@, t@);
        }
        let mut i: usize = 0;
        while i < self.granted.len()
            invariant
                old(self)@.wf(),
                self@ == old(self)@,
                i <= self.granted@.len(),
                forall|j: int| 0 <= j < i ==> self.granted@[j].0 != t@,
            decreases self.granted@.len() - i,
        {
            if self.granted[i].0 == t.ticket {
                proof {
                    lemma_claim_wf(old(self)@, t@);
                    lemma_grant_index_unique(old(self)@, t@, i as int);
                }
                let pair = self.granted.remove(i);
                self.leased.push(pair.1);
                proof {
                    assert(self@ =~= claim_model(old(self)@, t@).0);
                }
                return Some(LeaseHandle { conn: pair.1 });
            }
            i = i + 1;
        }
        proof {
            if old(self)@.granted_tickets().contains(t@) {
                let j = choose|j: int|
                    0 <= j < old(self)@.granted_tickets().len() && old(
                        self,
                    )@.granted_tickets()[j] == t@;
                assert(old(self)@.granted[j].0 == t@);
            }
        }
        None
    }

    /// A queued acquire gives up (a timeout or a cancellation): its ticket
    /// leaves the queue without disturbing the others' order, and a
    /// connection already assigned to it is passed on rather than leaked.
    pub fn cancel(&mut self, t: Ticket) -> (out: CancelOutcome)
        requires
            old(self)@.wf(),
        ensures
            final(self)@ == cancel_model(old(self)@, t@).0,
            final(self)@.wf(),
            out == cancel_model(old(self)@, t@).1,
    {
        proof {
            lemma_cancel_wf(old(self)@, t@);
            lemma_remove_value_props(old(self)@.waiters, t@);
        }
        let was_queued = vec_remove_value(&mut self.waiters, t.ticket);
        if was_queued {
            proof {
                assert(self@ =~= cancel_model(old(self)@, t@).0);
            }
            return CancelOutcome::Dequeued;
        }
        proof {
            assert(self@ =~= old(self)@);
        }
        let mut i: usize = 0;
        while i < self.granted.len()
            invariant
                old(self)@.wf(),
                self@ == old(self)@,
                i <= self.granted@.len(),
                forall|j: int| 0 <= j < i ==> self.granted@[j].0 != t@,
            decreases self.granted@.len() - i,
        {
            if self.granted[i].0 == t.ticket {
                proof {
                    lemma_cancel_wf(old(self)@, t@);
                    lemma_grant_index_unique(old(self)@, t@, i as int);
                }
                let pair = self.granted.remove(i);
                proof {
                    let mid = PoolModel { granted: old(self)@.granted.remove(i as int), ..old(
                        self,
                    )@ };
                    assert(self@ =~= mid);
                    assert(mid.granted_conns() =~= old(self)@.granted_conns().remove(i as int));
                    assert(mid.granted_tickets() =~= old(self)@.granted_tickets().remove(
                        i as int,
                    ));
                    lemma_remove_props(old(self)@.granted_conns(), i as int);
                    lemma_remove_props(old(self)@.granted_tickets(), i as int);
                    assert(old(self)@.granted_conns()[i as int] == pair.1);
                    assert(old(self)@.granted_conns().contains(pair.1));
                    assert(mid.wf());
                }
                let routed = self.route_in(pair.1);
                return match routed {
                    ReleaseOutcome::Idled => CancelOutcome::GrantIdled(pair.1),
                    ReleaseOutcome::Woke(t2) => CancelOutcome::GrantWoke(t2, pair.1),
                    ReleaseOutcome::Destroyed => CancelOutcome::GrantDestroyed(pair.1),
                    ReleaseOutcome::NotLeased => CancelOutcome::NotFound,
                };
            }
            i = i + 1;
        }
        proof {
            if old(self)@.granted_tickets().contains(t@) {
                let j = choose|j: int|
                    0 <= j < old(self)@.granted_tickets().len() && old(
                        self,
                    )@.granted_tickets()[j] == t@;
                assert(old(self)@.granted[j].0 == t@);
            }
        }
        CancelOutcome::NotFound
    }

    /// Reports that the one-time setup hook has finished. The protocol runs
    /// it exactly once: `begin_acquire` asks for it only while it has not
    /// been reported finished, and everything happens under the pool's one
    /// mutual-exclusion domain.
    pub fn setup_finished(&mut self)
        requires
            old(self)@.wf(),
        ensures
            final(self)@ == setup_model(old(self)@),
            final(self)@.wf(),
    {
        proof {
            lemma_setup_wf(old(self)@);
        }
        self.setup_done = true;
        proof {
            assert(self@ =~= setup_model(old(self)@));
        }
    }

    /// Turns the pool terminal: returns the drained idle connections, whose
    /// sessions the caller must tear down, and the dismissed waiter
    /// tickets, whose callers must be told the pool closed. In-flight
    /// leases and grants complete normally; their eventual release destroys
    /// the connection instead of re-idling it.
    pub fn close(&mut self) -> (drained: (Vec<u64>, Vec<u64>))
        requires
            old(self)@.wf(),
        ensures
            final(self)@ == close_model(old(self)@),
            final(self)@.wf(),
            drained.0@ == old(self)@.idle,
            drained.1@ == old(self)@.waiters,
    {
        proof {
            lemma_close_wf(old(self)@);
        }
        self.closed = true;
        let conns = self.idle.split_off(0);
        let tickets = self.waiters.split_off(0);
        proof {
            assert(conns@ =~= old(self)@.idle);
            assert(tickets@ =~= old(self)@.waiters);
            assert(self@.idle =~= Seq::<u64>::empty());
            assert(self@.waiters =~= Seq::<u64>::empty());
            assert(self@ =~= close_model(old(self)@));
        }
        (conns, tickets)
    }

    /// Idle reaping: retires idle connections, oldest first, until the pool
    /// is back down to `min_connections` or no idle connection is left. The
    /// returned numbers name the sessions the caller must tear down.
    pub fn reap_excess_idle(&mut self) -> (reaped: Vec<u64>)
        requires
            old(self)@.wf(),
        ensures
            final(self)@ == reap_model(old(self)@).0,
            final(self)@.wf(),
            reaped@ == reap_model(old(self)@).1,
    {
        proof {
            lemma_reap_wf(old(self)@);
        }
        let total = self.idle.len() + self.leased.len() + self.reserved.len()
            + self.granted.len();
        let min = self.min_connections as usize;
        let k = if total > min {
            let excess = total - min;
            if excess <= self.idle.len() {
                excess
            } else {
                self.idle.len()
            }
        } else {
            0
        };
        proof {
            assert(k as int == reap_count(old(self)@));
        }
        let mut reaped: Vec<u64> = Vec::new();
        let mut j: usize = 0;
        while j < k
            invariant
                old(self)@.wf(),
                j <= k,
                k as int == reap_count(old(self)@),
                k <= old(self)@.idle.len(),
                reaped@ == old(self)@.idle.take(j as int),
                self@ == (PoolModel { idle: old(self)@.idle.skip(j as int), ..old(self)@ }),
            decreases k - j,
        {
            let c = self.idle.remove(0);
            reaped.push(c);
            proof {
                assert(old(self)@.idle.skip(j as int).remove(0) =~= old(self)@.idle.skip(
                    j + 1 as int,
                ));
                assert(reaped@ =~= old(self)@.idle.take(j + 1 as int));
                assert(self@ =~= (PoolModel { idle: old(self)@.idle.skip(j + 1 as int), ..old(
                    self,
                )@ }));
            }
            j = j + 1;
        }
        proof {
            assert(self@ =~= reap_model(old(self)@).0);
            assert(reaped@ =~= reap_model(old(self)@).1);
        }
        reaped
    }

    /// How many connections are idle right now.
    pub fn idle_count(&self) -> (r: usize)
        ensures
            r == self@.idle.len(),
    {
        self.idle.len()
    }

    /// How many connections are leased right now.
    pub fn leased_count(&self) -> (r: usize)
        ensures
            r == self@.leased.len(),
    {
        self.leased.len()
    }

    /// How many acquire callers are queued right now.
    pub fn waiter_count(&self) -> (r: usize)
        ensures
            r == self@.waiters.len(),
    {
        self.waiters.len()
    }

    /// Whether the pool has been closed.
    pub fn is_closed(&self) -> (r: bool)
        ensures
            r == self@.closed,
    {
        self.closed
    }

    /// Whether the one-time setup hook has run (or none was configured).
    pub fn is_setup_done(&self) -> (r: bool)
        ensures
            r == self@.setup_done,
    {
        self.setup_done
    }

    /// The configured ceiling.
    pub fn max_connections(&self) -> (r: u32)
        ensures
            r == self@.max,
    {
        self.max_connections
    }

    /// The configured eager floor.
    pub fn min_connections(&self) -> (r: u32)
        ensures
            r == self@.min,
    {
        self.min_connections
    }

    /// Whether establishment is deferred until first demand.
    pub fn is_lazy(&self) -> (r: bool)
        ensures
            r == self@.lazy,
    {
        self.lazy
    }

    /// Whether the number mints still have room; `begin_acquire` and
    /// `begin_eager_fill` ask for this much headroom.
    pub fn has_counter_headroom(&self) -> (r: bool)
        ensures
            r == (self@.next_conn < u64::MAX && self@.next_ticket < u64::MAX),
    {
        self.next_conn < u64::MAX && self.next_ticket < u64::MAX
    }
}

} // verus!
