//! The mathematical model of the pool: its abstract state, the
//! well-formedness invariant every reachable state satisfies, and one
//! transition function per pool operation. The executable pool in
//! `pool` promises that each call performs exactly one of these
//! transitions on its view.

use vstd::prelude::*;

verus! {

/// The abstract state of a pool. Connections and suspended callers are
/// identified by the numbers the pool minted for them; the runtime adapter
/// keeps the live sessions keyed by those numbers.
#[verifier::ext_equal]
pub ghost struct PoolModel {
    /// Ceiling on connections that exist at once, leased or idle.
    pub max: u32,
    /// Floor the pool fills eagerly at construction (unless `lazy`).
    pub min: u32,
    /// Whether establishment is deferred until first demand.
    pub lazy: bool,
    /// Established connections currently idle. The last element was returned
    /// most recently; reuse pops from the back (LIFO, for freshness).
    pub idle: Seq<u64>,
    /// Connections currently leased out, each to exactly one lessee.
    pub leased: Seq<u64>,
    /// Connection numbers reserved while the factory is establishing them;
    /// they count against `max` so concurrent establishment cannot overshoot.
    pub reserved: Seq<u64>,
    /// Connections already assigned to woken waiters that have not collected
    /// them yet: pairs of (ticket, connection).
    pub granted: Seq<(u64, u64)>,
    /// Suspended acquire callers in arrival order; the first element has
    /// waited longest and is woken first (FIFO).
    pub waiters: Seq<u64>,
    /// Next fresh connection number.
    pub next_conn: u64,
    /// Next fresh waiter ticket.
    pub next_ticket: u64,
    /// Whether the one-time setup hook has run. A pool configured without a
    /// hook starts with this already true.
    pub setup_done: bool,
    /// Terminal flag: a closed pool grants no new leases.
    pub closed: bool,
}

/// What the caller of an acquire must do next.
pub ghost enum AcquireDecision {
    /// An idle connection was granted immediately.
    Granted(u64),
    /// Capacity was reserved; the caller must run the connection factory and
    /// then report the outcome for this connection number.
    Establish(u64),
    /// The pool is saturated; the caller was enqueued under this ticket.
    Wait(u64),
    /// The one-time setup hook has not run yet; it must be run (and reported
    /// finished) before any lease is handed out.
    Setup,
    /// The pool is closed and will never grant again.
    Refused,
}

/// What happened to a connection handed back to the pool.
#[derive(Clone, Copy, PartialEq, Eq, Structural, Debug)]
pub enum ReleaseOutcome {
    /// The connection was not leased: a double release or a stale handle,
    /// detected and ignored rather than double-counted into the idle set.
    NotLeased,
    /// The pool is closed; the session must be torn down by the caller.
    Destroyed,
    /// The connection was assigned to the longest-waiting suspended caller,
    /// who holds this ticket and must now be notified.
    Woke(u64),
    /// The connection returned to the idle set.
    Idled,
}

/// What happened when a queued acquire was abandoned.
#[derive(Clone, Copy, PartialEq, Eq, Structural, Debug)]
pub enum CancelOutcome {
    /// The ticket was neither queued nor assigned a connection.
    NotFound,
    /// The ticket was removed from the waiter queue; later waiters keep
    /// their order and are not skipped.
    Dequeued,
    /// The ticket had already been assigned this connection; the connection
    /// went back to the idle set instead of leaking.
    GrantIdled(u64),
    /// The ticket had already been assigned the second number's connection;
    /// it was passed on to the next waiter, who holds the first ticket.
    GrantWoke(u64, u64),
    /// The ticket had already been assigned this connection and the pool is
    /// closed; the session must be torn down by the caller.
    GrantDestroyed(u64),
}

/// No element of `a` occurs in `b`.
pub open spec fn disjoint(a: Seq<u64>, b: Seq<u64>) -> bool {
    forall|x: u64| #[trigger] a.contains(x) ==> !b.contains(x)
}

/// Every element of `s` lies below `bound`.
pub open spec fn below(s: Seq<u64>, bound: u64) -> bool {
    forall|x: u64| #[trigger] s.contains(x) ==> x < bound
}

impl PoolModel {
    /// Connections assigned to woken waiters, in grant order.
    pub open spec fn granted_conns(self) -> Seq<u64> {
        self.granted.map_values(|g: (u64, u64)| g.1)
    }

    /// Tickets of woken waiters that have not collected their grant yet.
    pub open spec fn granted_tickets(self) -> Seq<u64> {
        self.granted.map_values(|g: (u64, u64)| g.0)
    }

    /// Connections that exist right now, in any role.
    pub open spec fn total(self) -> int {
        self.idle.len() + self.leased.len() + self.reserved.len() + self.granted.len() as int
    }

    /// Well-formedness: the invariant every reachable pool state satisfies.
    pub open spec fn wf(self) -> bool {
        &&& 1 <= self.max
        &&& self.min <= self.max
        &&& self.total() <= self.max
        &&& self.idle.no_duplicates()
        &&& self.leased.no_duplicates()
        &&& self.reserved.no_duplicates()
        &&& self.granted_conns().no_duplicates()
        &&& self.waiters.no_duplicates()
        &&& self.granted_tickets().no_duplicates()
        &&& disjoint(self.idle, self.leased)
        &&& disjoint(self.idle, self.reserved)
        &&& disjoint(self.idle, self.granted_conns())
        &&& disjoint(self.leased, self.reserved)
        &&& disjoint(self.leased, self.granted_conns())
        &&& disjoint(self.reserved, self.granted_conns())
        &&& disjoint(self.waiters, self.granted_tickets())
        &&& below(self.idle, self.next_conn)
        &&& below(self.leased, self.next_conn)
        &&& below(self.reserved, self.next_conn)
        &&& below(self.granted_conns(), self.next_conn)
        &&& below(self.waiters, self.next_ticket)
        &&& below(self.granted_tickets(), self.next_ticket)
        &&& (self.leased.len() > 0 || self.granted.len() > 0) ==> self.setup_done
        &&& self.waiters.len() > 0 ==> self.setup_done
        &&& self.closed ==> (self.idle.len() == 0 && self.waiters.len() == 0)
    }

    /// The connection exists in the pool right now, in any role.
    pub open spec fn conn_present(self, c: u64) -> bool {
        ||| self.idle.contains(c)
        ||| self.leased.contains(c)
        ||| self.reserved.contains(c)
        ||| self.granted_conns().contains(c)
    }

    /// Nothing is leased, promised, reserved or queued: the pool is at rest.
    pub open spec fn quiescent(self) -> bool {
        &&& self.leased.len() == 0
        &&& self.reserved.len() == 0
        &&& self.granted.len() == 0
        &&& self.waiters.len() == 0
    }
}

/// The state of a freshly built pool: empty in every role, with the setup
/// hook still owed when one is configured.
pub open spec fn init_model(max: u32, min: u32, lazy: bool, needs_setup: bool) -> PoolModel {
    PoolModel {
        max,
        min,
        lazy,
        idle: Seq::empty(),
        leased: Seq::empty(),
        reserved: Seq::empty(),
        granted: Seq::empty(),
        waiters: Seq::empty(),
        next_conn: 0,
        next_ticket: 0,
        setup_done: !needs_setup,
        closed: false,
    }
}

/// One acquire step: reuse the most recently returned idle connection,
/// reserve capacity for a fresh one while under `max`, or enqueue the caller
/// at the back of the waiter queue. Before the setup hook has run, the only
/// answer is to run it; after close, the only answer is a refusal.
pub open spec fn acquire_model(m: PoolModel) -> (PoolModel, AcquireDecision) {
    if m.closed {
        (m, AcquireDecision::Refused)
    } else if !m.setup_done {
        (m, AcquireDecision::Setup)
    } else if m.idle.len() > 0 {
        let c = m.idle.last();
        (
            PoolModel { idle: m.idle.drop_last(), leased: m.leased.push(c), ..m },
            AcquireDecision::Granted(c),
        )
    } else if m.total() < m.max {
        (
            PoolModel {
                reserved: m.reserved.push(m.next_conn),
                next_conn: (m.next_conn + 1) as u64,
                ..m
            },
            AcquireDecision::Establish(m.next_conn),
        )
    } else {
        (
            PoolModel {
                waiters: m.waiters.push(m.next_ticket),
                next_ticket: (m.next_ticket + 1) as u64,
                ..m
            },
            AcquireDecision::Wait(m.next_ticket),
        )
    }
}

/// One eager-fill step at construction: reserve capacity for a fresh
/// connection while the pool holds fewer than `min`. A lazy pool never
/// fills eagerly.
pub open spec fn fill_model(m: PoolModel) -> (PoolModel, Option<u64>) {
    if !m.lazy && !m.closed && m.total() < m.min {
        (
            PoolModel {
                reserved: m.reserved.push(m.next_conn),
                next_conn: (m.next_conn + 1) as u64,
                ..m
            },
            Some(m.next_conn),
        )
    } else {
        (m, None)
    }
}

/// Route a connection that just became available and is held in no role:
/// destroy it if the pool is closed, assign it to the longest waiter if one
/// is queued, otherwise push it onto the idle set.
pub open spec fn route_model(m: PoolModel, c: u64) -> (PoolModel, ReleaseOutcome) {
    if m.closed {
        (m, ReleaseOutcome::Destroyed)
    } else if m.waiters.len() > 0 {
        (
            PoolModel {
                waiters: m.waiters.drop_first(),
                granted: m.granted.push((m.waiters.first(), c)),
                ..m
            },
            ReleaseOutcome::Woke(m.waiters.first()),
        )
    } else {
        (PoolModel { idle: m.idle.push(c), ..m }, ReleaseOutcome::Idled)
    }
}

/// Hand a leased connection back. A connection that is not leased is left
/// alone (a double release never double-counts); a leased one leaves the
/// leased set and is routed to the oldest waiter, the idle set, or teardown.
pub open spec fn release_model(m: PoolModel, c: u64) -> (PoolModel, ReleaseOutcome) {
    if m.leased.contains(c) {
        route_model(PoolModel { leased: m.leased.remove_value(c), ..m }, c)
    } else {
        (m, ReleaseOutcome::NotLeased)
    }
}

/// Establishment for an acquiring caller succeeded: the reserved number
/// becomes a leased connection.
pub open spec fn install_leased_model(m: PoolModel, c: u64) -> PoolModel {
    PoolModel { reserved: m.reserved.remove_value(c), leased: m.leased.push(c), ..m }
}

/// Establishment for the eager fill succeeded: the reserved number becomes
/// an available connection and is routed like a returned one.
pub open spec fn install_idle_model(m: PoolModel, c: u64) -> (PoolModel, ReleaseOutcome) {
    route_model(PoolModel { reserved: m.reserved.remove_value(c), ..m }, c)
}

/// Establishment failed: the reservation is rolled back, leaving no phantom
/// count behind.
pub open spec fn establish_failed_model(m: PoolModel, c: u64) -> PoolModel {
    PoolModel { reserved: m.reserved.remove_value(c), ..m }
}

/// The position of ticket `t` in the grant list.
pub open spec fn grant_index(m: PoolModel, t: u64) -> int {
    choose|i: int| 0 <= i < m.granted.len() && m.granted[i].0 == t
}

/// A woken waiter collects the connection assigned to its ticket; the grant
/// moves to the leased set. A ticket with no grant collects nothing.
pub open spec fn claim_model(m: PoolModel, t: u64) -> (PoolModel, Option<u64>) {
    if m.granted_tickets().contains(t) {
        let i = grant_index(m, t);
        let c = m.granted[i].1;
        (PoolModel { granted: m.granted.remove(i), leased: m.leased.push(c), ..m }, Some(c))
    } else {
        (m, None)
    }
}

/// A queued acquire is abandoned: its ticket leaves the waiter queue with
/// the others' order intact. If a connection had already been assigned to
/// the ticket, the connection is routed onward rather than leaked.
pub open spec fn cancel_model(m: PoolModel, t: u64) -> (PoolModel, CancelOutcome) {
    if m.waiters.contains(t) {
        (PoolModel { waiters: m.waiters.remove_value(t), ..m }, CancelOutcome::Dequeued)
    } else if m.granted_tickets().contains(t) {
        let i = grant_index(m, t);
        let c = m.granted[i].1;
        let routed = route_model(PoolModel { granted: m.granted.remove(i), ..m }, c);
        (
            routed.0,
            match routed.1 {
                ReleaseOutcome::Idled => CancelOutcome::GrantIdled(c),
                ReleaseOutcome::Woke(t2) => CancelOutcome::GrantWoke(t2, c),
                ReleaseOutcome::Destroyed => CancelOutcome::GrantDestroyed(c),
                ReleaseOutcome::NotLeased => CancelOutcome::NotFound,
            },
        )
    } else {
        (m, CancelOutcome::NotFound)
    }
}

/// The one-time setup hook finished.
pub open spec fn setup_model(m: PoolModel) -> PoolModel {
    PoolModel { setup_done: true, ..m }
}

/// The pool turns terminal: idle connections drain for teardown, queued
/// waiters are dismissed, in-flight leases and grants run to completion.
pub open spec fn close_model(m: PoolModel) -> PoolModel {
    PoolModel { closed: true, idle: Seq::empty(), waiters: Seq::empty(), ..m }
}

/// How many idle connections a reap pass retires: the excess over `min`,
/// as far as idle connections can cover it.
pub open spec fn reap_count(m: PoolModel) -> int {
    let excess = if m.total() > m.min {
        m.total() - m.min
    } else {
        0
    };
    if excess <= m.idle.len() {
        excess
    } else {
        m.idle.len() as int
    }
}

/// Idle reaping: retire idle connections, oldest first, until the pool is
/// back down to `min` or no idle connection is left. The retired
/// connections are handed to the caller for teardown.
pub open spec fn reap_model(m: PoolModel) -> (PoolModel, Seq<u64>) {
    let k = reap_count(m);
    (PoolModel { idle: m.idle.skip(k), ..m }, m.idle.take(k))
}

/// Pushing onto a duplicate-free sequence of a fresh element keeps it
/// duplicate-free, and membership grows by exactly that element.
pub proof fn lemma_push_props(s: Seq<u64>, x: u64)
    ensures
        forall|y: u64| #[trigger] s.push(x).contains(y) <==> (s.contains(y) || y == x),
        (s.no_duplicates() && !s.contains(x)) ==> s.push(x).no_duplicates(),
{
    assert forall|y: u64| #[trigger] s.push(x).contains(y) implies (s.contains(y) || y == x) by {
        let i = choose|i: int| 0 <= i < s.push(x).len() && s.push(x)[i] == y;
        if i < s.len() {
            assert(s[i] == y);
        }
    }
    assert forall|y: u64| (s.contains(y) || y == x) implies #[trigger] s.push(x).contains(y) by {
        if s.contains(y) {
            let i = choose|i: int| 0 <= i < s.len() && s[i] == y;
            assert(s.push(x)[i] == y);
        } else {
            assert(s.push(x)[s.len() as int] == x);
        }
    }
}

/// Dropping the last element of a duplicate-free sequence keeps it
/// duplicate-free, loses the last element, and keeps no others.
pub proof fn lemma_drop_last_props(s: Seq<u64>)
    requires
        s.len() > 0,
        s.no_duplicates(),
    ensures
        s.drop_last().no_duplicates(),
        !s.drop_last().contains(s.last()),
        forall|y: u64| #[trigger] s.drop_last().contains(y) ==> s.contains(y),
{
    assert forall|y: u64| #[trigger] s.drop_last().contains(y) implies s.contains(y) by {
        let i = choose|i: int| 0 <= i < s.drop_last().len() && s.drop_last()[i] == y;
        assert(s[i] == y);
    }
    if s.drop_last().contains(s.last()) {
        let i = choose|i: int| 0 <= i < s.drop_last().len() && s.drop_last()[i] == s.last();
        assert(s[i] == s[s.len() - 1]);
    }
}

/// Dropping the first element: the mirror of `lemma_drop_last_props`.
pub proof fn lemma_drop_first_props(s: Seq<u64>)
    requires
        s.len() > 0,
        s.no_duplicates(),
    ensures
        s.drop_first().no_duplicates(),
        !s.drop_first().contains(s.first()),
        forall|y: u64| #[trigger] s.drop_first().contains(y) ==> s.contains(y),
{
    assert forall|y: u64| #[trigger] s.drop_first().contains(y) implies s.contains(y) by {
        let i = choose|i: int| 0 <= i < s.drop_first().len() && s.drop_first()[i] == y;
        assert(s[i + 1] == y);
    }
    if s.drop_first().contains(s.first()) {
        let i = choose|i: int| 0 <= i < s.drop_first().len() && s.drop_first()[i] == s.first();
        assert(s[i + 1] == s[0]);
    }
}

/// Removing one index keeps a sequence duplicate-free, keeps membership of
/// everything else, and (without duplicates) loses the removed element.
pub proof fn lemma_remove_props(s: Seq<u64>, i: int)
    requires
        0 <= i < s.len(),
    ensures
        forall|y: u64| #[trigger] s.remove(i).contains(y) ==> s.contains(y),
        s.no_duplicates() ==> s.remove(i).no_duplicates(),
        s.no_duplicates() ==> !s.remove(i).contains(s[i]),
        forall|y: u64| s.contains(y) && y != s[i] ==> #[trigger] s.remove(i).contains(y),
{
    s.remove_ensures(i);
    assert forall|y: u64| #[trigger] s.remove(i).contains(y) implies s.contains(y) by {
        let j = choose|j: int| 0 <= j < s.remove(i).len() && s.remove(i)[j] == y;
        if j < i {
            assert(s[j] == y);
        } else {
            assert(s[j + 1] == y);
        }
    }
    if s.no_duplicates() {
        if s.remove(i).contains(s[i]) {
            let j = choose|j: int| 0 <= j < s.remove(i).len() && s.remove(i)[j] == s[i];
            if j < i {
                assert(s[j] == s[i]);
            } else {
                assert(s[j + 1] == s[i]);
            }
        }
    }
    assert forall|y: u64| s.contains(y) && y != s[i] implies #[trigger] s.remove(i).contains(
        y,
    ) by {
        let j = choose|j: int| 0 <= j < s.len() && s[j] == y;
        if j < i {
            assert(s.remove(i)[j] == y);
        } else {
            assert(s.remove(i)[j - 1] == y);
        }
    }
}

/// `remove_value` on a duplicate-free sequence: the named value is gone,
/// nothing else changes membership, and freedom from duplicates is kept.
pub proof fn lemma_remove_value_props(s: Seq<u64>, x: u64)
    requires
        s.no_duplicates(),
    ensures
        s.remove_value(x).no_duplicates(),
        !s.remove_value(x).contains(x),
        forall|y: u64| #[trigger] s.remove_value(x).contains(y) ==> s.contains(y),
        forall|y: u64| s.contains(y) && y != x ==> #[trigger] s.remove_value(x).contains(y),
        s.contains(x) ==> s.remove_value(x).len() == s.len() - 1,
        !s.contains(x) ==> s.remove_value(x) == s,
{
    s.index_of_first_ensures(x);
    match s.index_of_first(x) {
        Some(i) => {
            lemma_remove_props(s, i);
        },
        None => {},
    }
}

/// A ticket occurs at most once in the grant list, so the position found
/// by a search is the grant's position.
pub proof fn lemma_grant_index_unique(m: PoolModel, t: u64, i: int)
    requires
        m.wf(),
        0 <= i < m.granted.len(),
        m.granted[i].0 == t,
    ensures
        grant_index(m, t) == i,
        m.granted_tickets().contains(t),
{
    assert(exists|j: int| 0 <= j < m.granted.len() && m.granted[j].0 == t) by {
        assert(0 <= i < m.granted.len() && m.granted[i].0 == t);
    }
    let gi = grant_index(m, t);
    assert(0 <= gi < m.granted.len() && m.granted[gi].0 == t);
    assert(m.granted_tickets()[gi] == t);
    assert(m.granted_tickets()[i] == t);
    assert(gi == i) by {
        if gi != i {
            assert(m.granted_tickets()[gi] != m.granted_tickets()[i]);
        }
    }
}

/// A freshly built pool is well-formed and at rest.
pub proof fn lemma_init_wf(max: u32, min: u32, lazy: bool, needs_setup: bool)
    requires
        1 <= max,
        min <= max,
    ensures
        init_model(max, min, lazy, needs_setup).wf(),
        init_model(max, min, lazy, needs_setup).quiescent(),
{
}

/// An acquire step preserves well-formedness and never grows the pool by
/// more than the one connection it may reserve.
pub proof fn lemma_acquire_wf(m: PoolModel)
    requires
        m.wf(),
        acquire_model(m).1 is Establish ==> m.next_conn < u64::MAX,
        acquire_model(m).1 is Wait ==> m.next_ticket < u64::MAX,
    ensures
        acquire_model(m).0.wf(),
        acquire_model(m).0.total() <= m.total() + 1,
        acquire_model(m).0.max == m.max,
        acquire_model(m).0.closed == m.closed,
        acquire_model(m).0.setup_done == m.setup_done,
{
    let (m1, d) = acquire_model(m);
    if m.closed || !m.setup_done {
    } else if m.idle.len() > 0 {
        let c = m.idle.last();
        assert(m.idle.contains(c));
        lemma_drop_last_props(m.idle);
        lemma_push_props(m.leased, c);
        assert(m1.granted_conns() == m.granted_conns());
        assert(m1.granted_tickets() == m.granted_tickets());
    } else if m.total() < m.max {
        let c = m.next_conn;
        lemma_push_props(m.reserved, c);
        assert(m1.granted_conns() == m.granted_conns());
        assert(m1.granted_tickets() == m.granted_tickets());
        assert(below(m1.reserved, m1.next_conn));
    } else {
        let t = m.next_ticket;
        lemma_push_props(m.waiters, t);
        assert(m1.granted_conns() == m.granted_conns());
        assert(m1.granted_tickets() == m.granted_tickets());
        assert(below(m1.waiters, m1.next_ticket));
    }
}

/// An eager-fill step preserves well-formedness.
pub proof fn lemma_fill_wf(m: PoolModel)
    requires
        m.wf(),
        m.next_conn < u64::MAX,
    ensures
        fill_model(m).0.wf(),
        fill_model(m).0.total() <= m.total() + 1,
{
    if !m.lazy && !m.closed && m.total() < m.min {
        let c = m.next_conn;
        lemma_push_props(m.reserved, c);
        assert(fill_model(m).0.granted_conns() == m.granted_conns());
        assert(fill_model(m).0.granted_tickets() == m.granted_tickets());
        assert(below(fill_model(m).0.reserved, fill_model(m).0.next_conn));
    }
}

/// Routing a connection held in no role preserves well-formedness; the pool
/// grows by that connection unless it is closed and destroys it.
pub proof fn lemma_route_wf(m: PoolModel, c: u64)
    requires
        m.wf(),
        !m.idle.contains(c),
        !m.leased.contains(c),
        !m.reserved.contains(c),
        !m.granted_conns().contains(c),
        c < m.next_conn,
        m.total() < m.max,
    ensures
        route_model(m, c).0.wf(),
        route_model(m, c).0.total() == m.total() + (if m.closed {
            0int
        } else {
            1int
        }),
        route_model(m, c).1 != ReleaseOutcome::NotLeased,
        m.closed ==> route_model(m, c).1 == ReleaseOutcome::Destroyed,
        (!m.closed && m.waiters.len() > 0) ==> route_model(m, c).1 == ReleaseOutcome::Woke(
            m.waiters.first(),
        ),
        (!m.closed && m.waiters.len() == 0) ==> route_model(m, c).1 == ReleaseOutcome::Idled,
{
    let (m1, _) = route_model(m, c);
    if m.closed {
    } else if m.waiters.len() > 0 {
        let t = m.waiters.first();
        assert(m.waiters.contains(t));
        lemma_drop_first_props(m.waiters);
        assert(m1.granted_conns() =~= m.granted_conns().push(c));
        assert(m1.granted_tickets() =~= m.granted_tickets().push(t));
        lemma_push_props(m.granted_conns(), c);
        lemma_push_props(m.granted_tickets(), t);
        assert(!m.granted_tickets().contains(t));
    } else {
        lemma_push_props(m.idle, c);
        assert(m1.granted_conns() == m.granted_conns());
        assert(m1.granted_tickets() == m.granted_tickets());
    }
}

/// Releasing preserves well-formedness; a connection that was not leased
/// changes nothing, a leased one stays in the pool unless the pool is
/// closed and destroys it.
pub proof fn lemma_release_wf(m: PoolModel, c: u64)
    requires
        m.wf(),
    ensures
        release_model(m, c).0.wf(),
        release_model(m, c).0.total() == m.total() - (if m.leased.contains(c) && m.closed {
            1int
        } else {
            0int
        }),
        !m.leased.contains(c) ==> release_model(m, c) == (m, ReleaseOutcome::NotLeased),
        m.leased.contains(c) ==> !release_model(m, c).0.leased.contains(c),
{
    if m.leased.contains(c) {
        lemma_remove_value_props(m.leased, c);
        let mid = PoolModel { leased: m.leased.remove_value(c), ..m };
        assert(mid.granted_conns() == m.granted_conns());
        assert(mid.granted_tickets() == m.granted_tickets());
        assert(mid.wf());
        lemma_route_wf(mid, c);
        if !mid.closed && mid.waiters.len() > 0 {
            assert(release_model(m, c).0.leased == mid.leased);
        }
    }
}

/// Installing a successfully established connection as leased preserves
/// well-formedness and keeps the pool's size.
pub proof fn lemma_install_leased_wf(m: PoolModel, c: u64)
    requires
        m.wf(),
        m.reserved.contains(c),
        m.setup_done,
    ensures
        install_leased_model(m, c).wf(),
        install_leased_model(m, c).total() == m.total(),
        install_leased_model(m, c).leased.contains(c),
{
    lemma_remove_value_props(m.reserved, c);
    lemma_push_props(m.leased, c);
    let m1 = install_leased_model(m, c);
    assert(m1.granted_conns() == m.granted_conns());
    assert(m1.granted_tickets() == m.granted_tickets());
    assert(m.reserved.contains(c) ==> c < m.next_conn);
}

/// Installing a successfully established connection as available preserves
/// well-formedness; it keeps the pool's size unless the pool is closed.
pub proof fn lemma_install_idle_wf(m: PoolModel, c: u64)
    requires
        m.wf(),
        m.reserved.contains(c),
    ensures
        install_idle_model(m, c).0.wf(),
        install_idle_model(m, c).0.total() == m.total() - (if m.closed {
            1int
        } else {
            0int
        }),
        install_idle_model(m, c).1 != ReleaseOutcome::NotLeased,
{
    lemma_remove_value_props(m.reserved, c);
    let mid = PoolModel { reserved: m.reserved.remove_value(c), ..m };
    assert(mid.granted_conns() == m.granted_conns());
    assert(mid.granted_tickets() == m.granted_tickets());
    assert(m.reserved.contains(c) ==> c < m.next_conn);
    assert(mid.wf());
    lemma_route_wf(mid, c);
}

/// Rolling back a failed establishment preserves well-formedness and
/// shrinks the pool by exactly the phantom reservation.
pub proof fn lemma_establish_failed_wf(m: PoolModel, c: u64)
    requires
        m.wf(),
        m.reserved.contains(c),
    ensures
        establish_failed_model(m, c).wf(),
        establish_failed_model(m, c).total() == m.total() - 1,
        !establish_failed_model(m, c).reserved.contains(c),
{
    lemma_remove_value_props(m.reserved, c);
    let m1 = establish_failed_model(m, c);
    assert(m1.granted_conns() == m.granted_conns());
    assert(m1.granted_tickets() == m.granted_tickets());
}

/// Collecting a grant preserves well-formedness and the pool's size.
pub proof fn lemma_claim_wf(m: PoolModel, t: u64)
    requires
        m.wf(),
    ensures
        claim_model(m, t).0.wf(),
        claim_model(m, t).0.total() == m.total(),
        !m.granted_tickets().contains(t) ==> claim_model(m, t) == (m, Option::<u64>::None),
        m.granted_tickets().contains(t) ==> claim_model(m, t).1 is Some,
{
    if m.granted_tickets().contains(t) {
        let i = grant_index(m, t);
        assert(exists|j: int| 0 <= j < m.granted.len() && m.granted[j].0 == t) by {
            let j = choose|j: int|
                0 <= j < m.granted_tickets().len() && m.granted_tickets()[j] == t;
            assert(m.granted[j].0 == t);
        }
        assert(0 <= i < m.granted.len() && m.granted[i].0 == t);
        let c = m.granted[i].1;
        assert(m.granted_conns()[i] == c);
        assert(m.granted_conns().contains(c));
        let m1 = claim_model(m, t).0;
        assert(m1.granted_conns() =~= m.granted_conns().remove(i));
        assert(m1.granted_tickets() =~= m.granted_tickets().remove(i));
        lemma_remove_props(m.granted_conns(), i);
        lemma_remove_props(m.granted_tickets(), i);
        lemma_push_props(m.leased, c);
    }
}

/// Abandoning a queued acquire preserves well-formedness; a connection
/// already assigned to the abandoned ticket stays in the pool unless the
/// pool is closed and destroys it.
pub proof fn lemma_cancel_wf(m: PoolModel, t: u64)
    requires
        m.wf(),
    ensures
        cancel_model(m, t).0.wf(),
        m.waiters.contains(t) ==> cancel_model(m, t).0.total() == m.total(),
        !cancel_model(m, t).0.waiters.contains(t),
        !cancel_model(m, t).0.granted_tickets().contains(t),
{
    if m.waiters.contains(t) {
        lemma_remove_value_props(m.waiters, t);
        let m1 = cancel_model(m, t).0;
        assert(m1.granted_conns() == m.granted_conns());
        assert(m1.granted_tickets() == m.granted_tickets());
        assert(!m1.granted_tickets().contains(t));
    } else if m.granted_tickets().contains(t) {
        let i = grant_index(m, t);
        assert(exists|j: int| 0 <= j < m.granted.len() && m.granted[j].0 == t) by {
            let j = choose|j: int|
                0 <= j < m.granted_tickets().len() && m.granted_tickets()[j] == t;
            assert(m.granted[j].0 == t);
        }
        assert(0 <= i < m.granted.len() && m.granted[i].0 == t);
        let c = m.granted[i].1;
        assert(m.granted_conns()[i] == c);
        assert(m.granted_conns().contains(c));
        let mid = PoolModel { granted: m.granted.remove(i), ..m };
        assert(mid.granted_conns() =~= m.granted_conns().remove(i));
        assert(mid.granted_tickets() =~= m.granted_tickets().remove(i));
        lemma_remove_props(m.granted_conns(), i);
        lemma_remove_props(m.granted_tickets(), i);
        assert(mid.wf());
        lemma_route_wf(mid, c);
        let m1 = cancel_model(m, t).0;
        assert(!m1.granted_tickets().contains(t)) by {
            if !mid.closed && mid.waiters.len() > 0 {
                assert(m1.granted_tickets() =~= mid.granted_tickets().push(
                    mid.waiters.first(),
                ));
                lemma_push_props(mid.granted_tickets(), mid.waiters.first());
                assert(m.waiters.contains(m.waiters.first()));
            }
        }
        assert(!m1.waiters.contains(t)) by {
            if !mid.closed && mid.waiters.len() > 0 {
                lemma_drop_first_props(mid.waiters);
            }
        }
    }
}

/// Skipping a prefix of a duplicate-free sequence keeps it duplicate-free
/// and keeps no new elements.
pub proof fn lemma_skip_props(s: Seq<u64>, k: int)
    requires
        0 <= k <= s.len(),
        s.no_duplicates(),
    ensures
        s.skip(k).no_duplicates(),
        forall|y: u64| #[trigger] s.skip(k).contains(y) ==> s.contains(y),
{
    assert forall|y: u64| #[trigger] s.skip(k).contains(y) implies s.contains(y) by {
        let i = choose|i: int| 0 <= i < s.skip(k).len() && s.skip(k)[i] == y;
        assert(s[i + k] == y);
    }
}

/// An idle reap preserves well-formedness and retires exactly the computed
/// excess, oldest idle connections first.
pub proof fn lemma_reap_wf(m: PoolModel)
    requires
        m.wf(),
    ensures
        reap_model(m).0.wf(),
        reap_model(m).0.total() == m.total() - reap_count(m),
        m.total() >= m.min ==> reap_model(m).0.total() >= m.min,
        reap_model(m).1 == m.idle.take(reap_count(m)),
        reap_model(m).1.len() == reap_count(m),
{
    let k = reap_count(m);
    lemma_skip_props(m.idle, k);
    let m1 = reap_model(m).0;
    assert(m1.granted_conns() == m.granted_conns());
    assert(m1.granted_tickets() == m.granted_tickets());
}

/// Marking the setup hook finished preserves well-formedness.
pub proof fn lemma_setup_wf(m: PoolModel)
    requires
        m.wf(),
    ensures
        setup_model(m).wf(),
        setup_model(m).total() == m.total(),
{
    assert(setup_model(m).granted_conns() == m.granted_conns());
    assert(setup_model(m).granted_tickets() == m.granted_tickets());
}

/// Closing preserves well-formedness; only the drained idle connections
/// leave the pool.
pub proof fn lemma_close_wf(m: PoolModel)
    requires
        m.wf(),
    ensures
        close_model(m).wf(),
        close_model(m).total() == m.total() - m.idle.len(),
{
    assert(close_model(m).granted_conns() == m.granted_conns());
    assert(close_model(m).granted_tickets() == m.granted_tickets());
}

} // verus!
